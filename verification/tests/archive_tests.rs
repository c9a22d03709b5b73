use std::io::Write;

use zip_inspector::archive::{list_contents, ArchiveError};
use zip_inspector::recent::RecentStore;

fn names_of(entries: &[zip_inspector::archive::ArchiveEntry]) -> Vec<String> {
    entries.iter().map(|e| e.name.clone()).collect()
}

fn stored_options() -> zip::write::SimpleFileOptions {
    zip::write::SimpleFileOptions::default().compression_method(zip::CompressionMethod::Stored)
}

fn make_zip(entries: &[(&str, &[u8])]) -> Vec<u8> {
    let mut writer = zip::ZipWriter::new(std::io::Cursor::new(Vec::new()));
    for (name, data) in entries {
        writer.start_file(*name, stored_options()).unwrap();
        writer.write_all(data).unwrap();
    }
    writer.finish().unwrap().into_inner()
}

fn make_encrypted_zip(entries: &[(&str, &[u8])], password: &str) -> Vec<u8> {
    let mut writer = zip::ZipWriter::new(std::io::Cursor::new(Vec::new()));
    for (name, data) in entries {
        let options = stored_options().with_aes_encryption(zip::AesMode::Aes256, password);
        writer.start_file(*name, options).unwrap();
        writer.write_all(data).unwrap();
    }
    writer.finish().unwrap().into_inner()
}

#[test]
fn lists_entries_in_central_directory_order() {
    let bytes = make_zip(&[("x.txt", b"hello"), ("y/z.bin", b"\x00\x01\x02")]);
    let mut store = RecentStore::new();
    let listed = list_contents("a.zip", bytes, None, &mut store).unwrap();
    assert_eq!(names_of(&listed), vec!["x.txt", "y/z.bin"]);
    let recent = store.get_recent_files();
    assert_eq!(recent.len(), 1);
    assert_eq!(recent[0].path, "a.zip");
}

#[test]
fn empty_archive_lists_no_entries_and_is_recorded() {
    let bytes = make_zip(&[]);
    let mut store = RecentStore::new();
    let listed = list_contents("empty.zip", bytes, None, &mut store).unwrap();
    assert_eq!(listed.len(), 0);
    assert_eq!(store.get_recent_files().len(), 1);
}

#[test]
fn garbage_bytes_fail_as_format_error() {
    let mut store = RecentStore::new();
    let err = list_contents("bad.zip", b"this is not a zip".to_vec(), None, &mut store)
        .unwrap_err();
    assert_eq!(err, ArchiveError::ArchiveFormatError);
    assert_eq!(store.get_recent_files().len(), 0);
}

#[test]
fn encrypted_entry_without_password_fails_distinctly() {
    let bytes = make_encrypted_zip(&[("secret.txt", b"top secret")], "letmein");
    let mut store = RecentStore::new();
    let err = list_contents("enc.zip", bytes, None, &mut store).unwrap_err();
    assert_eq!(err, ArchiveError::InvalidPasswordError);
    // the failed listing must not touch the store
    assert_eq!(store.get_recent_files().len(), 0);
}

#[test]
fn encrypted_entry_with_correct_password_lists_all_names() {
    let bytes = make_encrypted_zip(&[("secret.txt", b"top secret"), ("more.txt", b"x")], "letmein");
    let mut store = RecentStore::new();
    let listed = list_contents("enc.zip", bytes, Some("letmein".to_string()), &mut store).unwrap();
    assert_eq!(names_of(&listed), vec!["secret.txt", "more.txt"]);
    assert_eq!(store.get_recent_files().len(), 1);
}

#[test]
fn wrong_password_fails_as_invalid_password() {
    let bytes = make_encrypted_zip(&[("secret.txt", b"top secret")], "letmein");
    let mut store = RecentStore::new();
    let err = list_contents("enc.zip", bytes, Some("wrong".to_string()), &mut store).unwrap_err();
    assert_eq!(err, ArchiveError::InvalidPasswordError);
    assert_eq!(store.get_recent_files().len(), 0);
}

#[test]
fn wrong_password_differs_from_missing_file_failure() {
    let bytes = make_encrypted_zip(&[("secret.txt", b"top secret")], "letmein");
    let mut store = RecentStore::new();
    let err = list_contents("enc.zip", bytes, Some("wrong".to_string()), &mut store).unwrap_err();
    // a missing or unreadable file surfaces as ArchiveOpenError, which is
    // a distinct variant with a distinct message
    assert_ne!(err, ArchiveError::ArchiveOpenError);
    assert_ne!(err.message(), ArchiveError::ArchiveOpenError.message());
}

#[test]
fn password_on_unencrypted_archive_still_succeeds() {
    let bytes = make_zip(&[("plain.txt", b"data")]);
    let mut store = RecentStore::new();
    let listed = list_contents("p.zip", bytes, Some("needless".to_string()), &mut store).unwrap();
    assert_eq!(names_of(&listed), vec!["plain.txt"]);
}

#[test]
fn successful_listings_accumulate_recent_files() {
    let mut store = RecentStore::new();
    for name in ["a.zip", "b.zip", "a.zip"] {
        let bytes = make_zip(&[("f", b"1")]);
        list_contents(name, bytes, None, &mut store).unwrap();
    }
    let recent = store.get_recent_files();
    assert_eq!(recent.len(), 2);
    assert_eq!(recent[0].path, "b.zip");
    assert_eq!(recent[1].path, "a.zip");
}

#[test]
fn deflate_compressed_entries_list_like_stored_ones() {
    let mut writer = zip::ZipWriter::new(std::io::Cursor::new(Vec::new()));
    let options = zip::write::SimpleFileOptions::default()
        .compression_method(zip::CompressionMethod::Deflated);
    writer.start_file("big.txt", options).unwrap();
    writer.write_all(&[b'a'; 4096]).unwrap();
    writer.start_file("dir/nested.txt", options).unwrap();
    writer.write_all(b"nested").unwrap();
    let bytes = writer.finish().unwrap().into_inner();
    let mut store = RecentStore::new();
    let listed = list_contents("deflated.zip", bytes, None, &mut store).unwrap();
    assert_eq!(names_of(&listed), vec!["big.txt", "dir/nested.txt"]);
    assert_eq!(store.get_recent_files().len(), 1);
}

#[test]
fn corrupt_entry_fails_as_entry_read_error() {
    let mut bytes = make_zip(&[("x.txt", b"hello")]);
    // damage the local header signature of the first entry; the central
    // directory at the end of the file still parses
    bytes[0] ^= 0xff;
    let mut store = RecentStore::new();
    let err = list_contents("corrupt.zip", bytes, None, &mut store).unwrap_err();
    assert_eq!(err, ArchiveError::EntryReadError);
    assert_eq!(store.get_recent_files().len(), 0);
}

#[test]
fn error_messages_name_each_failure() {
    assert_eq!(ArchiveError::ArchiveFormatError.message(), "not a valid ZIP archive");
    assert_ne!(
        ArchiveError::EntryReadError.message(),
        ArchiveError::InvalidPasswordError.message()
    );
}
