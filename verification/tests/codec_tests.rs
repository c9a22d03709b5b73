use zip_inspector::codec::{read_recent_files, write_recent_files, write_recent_files_on_exit};
use zip_inspector::recent::RecentStore;

#[test]
fn empty_store_encodes_as_empty_array() {
    let store = RecentStore::new();
    assert_eq!(write_recent_files(&store), "[]");
}

#[test]
fn one_entry_encodes_exactly() {
    let mut store = RecentStore::new();
    store.update_recent_files("a.zip", 5);
    assert_eq!(write_recent_files(&store), "[{\"path\":\"a.zip\",\"timestamp\":5}]");
}

#[test]
fn two_entries_encode_in_order() {
    let mut store = RecentStore::new();
    store.update_recent_files("one", 10);
    store.update_recent_files("two", 20);
    assert_eq!(
        write_recent_files(&store),
        "[{\"path\":\"one\",\"timestamp\":10},{\"path\":\"two\",\"timestamp\":20}]"
    );
}

#[test]
fn quotes_and_backslashes_are_escaped() {
    let mut store = RecentStore::new();
    store.update_recent_files("C:\\dir\\\"odd\".zip", 1);
    assert_eq!(
        write_recent_files(&store),
        "[{\"path\":\"C:\\\\dir\\\\\\\"odd\\\".zip\",\"timestamp\":1}]"
    );
}

#[test]
fn control_characters_use_unicode_escapes() {
    let mut store = RecentStore::new();
    store.update_recent_files("a\nb\u{1}", 2);
    assert_eq!(
        write_recent_files(&store),
        "[{\"path\":\"a\\u000ab\\u0001\",\"timestamp\":2}]"
    );
}

#[test]
fn on_exit_writes_the_same_document() {
    let mut store = RecentStore::new();
    store.update_recent_files("x", 3);
    assert_eq!(write_recent_files(&store), write_recent_files_on_exit(&store));
}

fn assert_round_trip(paths_and_times: &[(&str, u64)]) {
    let mut store = RecentStore::new();
    for (p, t) in paths_and_times {
        store.update_recent_files(p, *t);
    }
    let doc = write_recent_files(&store);
    let loaded = read_recent_files(&doc);
    let before = store.get_recent_files();
    let after = loaded.get_recent_files();
    assert_eq!(before.len(), after.len());
    for (b, a) in before.iter().zip(after.iter()) {
        assert_eq!(b.path, a.path);
        assert_eq!(b.timestamp, a.timestamp);
    }
}

#[test]
fn round_trip_plain_entries() {
    assert_round_trip(&[("a.zip", 1), ("b.zip", 2), ("c.zip", 3)]);
}

#[test]
fn round_trip_empty() {
    assert_round_trip(&[]);
}

#[test]
fn round_trip_extreme_timestamps() {
    assert_round_trip(&[("zero", 0), ("max", u64::MAX)]);
}

#[test]
fn round_trip_awkward_paths() {
    assert_round_trip(&[
        ("with \"quotes\"", 1),
        ("back\\slash", 2),
        ("new\nline and tab\t", 3),
        ("unicode \u{30d5}\u{30a1}\u{30a4}\u{30eb}.zip", 4),
        ("", 5),
    ]);
}

#[test]
fn malformed_documents_load_as_empty() {
    for doc in [
        "",
        "not json",
        "[",
        "]",
        "[}",
        "[{\"path\":\"a\"}]",
        "[{\"path\":\"a\",\"timestamp\":}]",
        "[{\"path\":\"a\",\"timestamp\":1}",
        "[{\"path\":\"a\",\"timestamp\":1},]",
        "[{\"path\":\"a\",\"timestamp\":18446744073709551616}]",
        " [] ",
        "[ ]",
    ] {
        assert_eq!(read_recent_files(doc).get_recent_files().len(), 0, "doc: {}", doc);
    }
}

#[test]
fn documents_breaking_the_invariant_load_as_empty() {
    // six entries: one more than the store's bound
    let six = "[{\"path\":\"p1\",\"timestamp\":1},{\"path\":\"p2\",\"timestamp\":2},{\"path\":\"p3\",\"timestamp\":3},{\"path\":\"p4\",\"timestamp\":4},{\"path\":\"p5\",\"timestamp\":5},{\"path\":\"p6\",\"timestamp\":6}]";
    assert_eq!(read_recent_files(six).get_recent_files().len(), 0);
    // a duplicated path
    let dup = "[{\"path\":\"p\",\"timestamp\":1},{\"path\":\"p\",\"timestamp\":2}]";
    assert_eq!(read_recent_files(dup).get_recent_files().len(), 0);
}

#[test]
fn short_control_escapes_load_like_unicode_ones() {
    // the form common JSON serializers write for control characters
    let doc = "[{\"path\":\"a\\nb\\tc\\rd\\be\\ff\",\"timestamp\":9}]";
    let store = read_recent_files(doc);
    let entries = store.get_recent_files();
    assert_eq!(entries.len(), 1);
    assert_eq!(entries[0].path, "a\nb\tc\rd\u{8}e\u{c}f");
    assert_eq!(entries[0].timestamp, 9);
}

#[test]
fn canonical_document_loads_entry_for_entry() {
    let doc = "[{\"path\":\"a\",\"timestamp\":11},{\"path\":\"b\",\"timestamp\":22}]";
    let store = read_recent_files(doc);
    let entries = store.get_recent_files();
    assert_eq!(entries.len(), 2);
    assert_eq!(entries[0].path, "a");
    assert_eq!(entries[0].timestamp, 11);
    assert_eq!(entries[1].path, "b");
    assert_eq!(entries[1].timestamp, 22);
}
