//! Trusted bindings to the `zip` crate for reading an archive held in
//! memory.
//!
//! A `zip::ZipArchive` over an in-memory cursor is opaque to the
//! verifier, so [`archive_bytes`] names the bytes it was parsed from.
//! What the `zip` crate computes from those bytes — the entry names,
//! encryption flags and per-entry readability — is likewise named by
//! uninterpreted functions of the bytes alone, and the wrappers state
//! the crate's behaviour over them.

use vstd::prelude::*;
use crate::archive::ArchiveError;

verus! {

#[verifier::external_type_specification]
#[verifier::external_body]
#[verifier::reject_recursive_types(R)]
pub struct ExZipArchive<R>(zip::read::ZipArchive<R>);

#[verifier::external_type_specification]
#[verifier::external_body]
#[verifier::reject_recursive_types(T)]
pub struct ExCursor<T>(std::io::Cursor<T>);

/// The archive bytes a parsed in-memory archive was opened from.
pub uninterp spec fn archive_bytes(a: zip::read::ZipArchive<std::io::Cursor<Vec<u8>>>) -> Seq<u8>;

/// Whether `zip::ZipArchive::new` parses the bytes as a ZIP central
/// directory.
pub uninterp spec fn zip_ok(bytes: Seq<u8>) -> bool;

/// The entry names the central directory lists, in its order, as the
/// `zip` crate reports them.
pub uninterp spec fn zip_names(bytes: Seq<u8>) -> Seq<Seq<char>>;

/// Which entries the central directory marks as encrypted.
pub uninterp spec fn zip_encrypted(bytes: Seq<u8>) -> Seq<bool>;

/// Whether entry `i`'s content can be located: its local header is
/// consistent with the central directory.
pub uninterp spec fn zip_entry_located(bytes: Seq<u8>, i: int) -> bool;

/// Whether entry `i` can be opened for reading: its content is located,
/// its decryption header (if any) is readable, and its compression
/// method is supported.
pub uninterp spec fn zip_entry_opens(bytes: Seq<u8>, i: int) -> bool;

/// Whether the decryption layer accepts `pwd` for entry `i`. For the
/// archaic ZipCrypto scheme this check passes for a small fraction of
/// wrong passwords too; it is still a function of bytes and password.
pub uninterp spec fn zip_pwd_accepted(bytes: Seq<u8>, i: int, pwd: Seq<char>) -> bool;

/// Parses the central directory of the archive bytes.
///
/// Relies on `zip::ZipArchive::new`: success depends on the bytes
/// alone, and any failure means the bytes are not a parseable ZIP
/// central directory.
#[verifier::external_body]
pub(crate) fn open_archive(bytes: Vec<u8>) -> (r: Result<
    zip::read::ZipArchive<std::io::Cursor<Vec<u8>>>,
    ArchiveError,
>)
    ensures
        r is Ok <==> zip_ok(bytes@),
        r matches Ok(a) ==> archive_bytes(a) == bytes@,
        r matches Err(e) ==> e == ArchiveError::ArchiveFormatError,
{
    match zip::ZipArchive::new(std::io::Cursor::new(bytes)) {
        Ok(a) => Ok(a),
        Err(_) => Err(ArchiveError::ArchiveFormatError),
    }
}

/// Number of entries of the archive.
///
/// Relies on `zip::ZipArchive::len`: the count of entries the central
/// directory lists, each with one name and one encryption flag.
#[verifier::external_body]
pub(crate) fn entry_count(a: &zip::read::ZipArchive<std::io::Cursor<Vec<u8>>>) -> (n: usize)
    ensures
        n == zip_names(archive_bytes(*a)).len(),
        n == zip_encrypted(archive_bytes(*a)).len(),
{
    a.len()
}

/// Whether entry `i` is marked encrypted.
///
/// Relies on `zip::ZipArchive::by_index_raw` and
/// `zip::read::ZipFile::encrypted`: the raw open locates the entry's
/// content without decrypting or decompressing, and the flag comes from
/// the central directory. A failure means the content cannot be
/// located, so no open of this entry can succeed.
#[verifier::external_body]
pub(crate) fn entry_encrypted(
    a: &mut zip::read::ZipArchive<std::io::Cursor<Vec<u8>>>,
    i: usize,
) -> (r: Result<bool, ArchiveError>)
    requires
        i < zip_names(archive_bytes(*old(a))).len(),
    ensures
        archive_bytes(*final(a)) == archive_bytes(*old(a)),
        r is Ok <==> zip_entry_located(archive_bytes(*old(a)), i as int),
        r matches Ok(b) ==> b == zip_encrypted(archive_bytes(*old(a)))[i as int],
        r is Err ==> !zip_entry_opens(archive_bytes(*old(a)), i as int),
        r matches Err(e) ==> e == ArchiveError::EntryReadError,
{
    match a.by_index_raw(i) {
        Ok(f) => Ok(f.encrypted()),
        Err(_) => Err(ArchiveError::EntryReadError),
    }
}

/// Opens unencrypted entry `i` and returns its name.
///
/// Relies on `zip::ZipArchive::by_index`: for an entry that is not
/// encrypted it succeeds exactly when the entry's content can be opened,
/// and the returned `zip::read::ZipFile::name` is the entry's name from
/// the central directory.
#[verifier::external_body]
pub(crate) fn read_entry_plain(
    a: &mut zip::read::ZipArchive<std::io::Cursor<Vec<u8>>>,
    i: usize,
) -> (r: Result<String, ArchiveError>)
    requires
        i < zip_names(archive_bytes(*old(a))).len(),
        !zip_encrypted(archive_bytes(*old(a)))[i as int],
    ensures
        archive_bytes(*final(a)) == archive_bytes(*old(a)),
        r is Ok <==> zip_entry_opens(archive_bytes(*old(a)), i as int),
        r matches Ok(s) ==> s@ == zip_names(archive_bytes(*old(a)))[i as int],
        r matches Err(e) ==> e == ArchiveError::EntryReadError,
{
    match a.by_index(i) {
        Ok(f) => Ok(f.name().to_string()),
        Err(_) => Err(ArchiveError::EntryReadError),
    }
}

/// Opens entry `i` with a password and returns its name.
///
/// Relies on `zip::ZipArchive::by_index_decrypt`: the password is used
/// only when the entry is flagged encrypted (for an unflagged entry it
/// is discarded and the open behaves as without one); a rejected
/// password surfaces as `zip::result::ZipError::InvalidPassword`, any
/// other failure as a read failure. An entry whose flag is clear but
/// whose metadata still carries decryption information can fail with
/// either error, so for such entries only the disjunction is stated.
#[verifier::external_body]
pub(crate) fn read_entry_decrypt(
    a: &mut zip::read::ZipArchive<std::io::Cursor<Vec<u8>>>,
    i: usize,
    pwd: &str,
) -> (r: Result<String, ArchiveError>)
    requires
        i < zip_names(archive_bytes(*old(a))).len(),
    ensures
        archive_bytes(*final(a)) == archive_bytes(*old(a)),
        r is Ok <==> zip_entry_opens(archive_bytes(*old(a)), i as int) && (zip_encrypted(
            archive_bytes(*old(a)),
        )[i as int] ==> zip_pwd_accepted(archive_bytes(*old(a)), i as int, pwd@)),
        r matches Ok(s) ==> s@ == zip_names(archive_bytes(*old(a)))[i as int],
        r matches Err(e) ==> (if !zip_encrypted(archive_bytes(*old(a)))[i as int] {
            e == ArchiveError::EntryReadError || e == ArchiveError::InvalidPasswordError
        } else if zip_entry_opens(archive_bytes(*old(a)), i as int) && !zip_pwd_accepted(
            archive_bytes(*old(a)),
            i as int,
            pwd@,
        ) {
            e == ArchiveError::InvalidPasswordError
        } else {
            e == ArchiveError::EntryReadError || e == ArchiveError::InvalidPasswordError
        }),
{
    match a.by_index_decrypt(i, pwd.as_bytes()) {
        Ok(f) => Ok(f.name().to_string()),
        Err(zip::result::ZipError::InvalidPassword) => Err(ArchiveError::InvalidPasswordError),
        Err(_) => Err(ArchiveError::EntryReadError),
    }
}

} // verus!
