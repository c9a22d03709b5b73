use zip_inspector::recent::{RecentStore, CAPACITY};

fn paths_of(store: &RecentStore) -> Vec<String> {
    store.get_recent_files().iter().map(|e| e.path.clone()).collect()
}

#[test]
fn new_store_is_empty() {
    let store = RecentStore::new();
    assert_eq!(store.get_recent_files().len(), 0);
}

#[test]
fn record_keeps_recency_order() {
    let mut store = RecentStore::new();
    store.update_recent_files("a", 1);
    store.update_recent_files("b", 2);
    store.update_recent_files("c", 3);
    assert_eq!(paths_of(&store), vec!["a", "b", "c"]);
    let entries = store.get_recent_files();
    assert_eq!(entries[0].timestamp, 1);
    assert_eq!(entries[2].timestamp, 3);
}

#[test]
fn record_twice_keeps_one_entry_with_latest_timestamp() {
    let mut store = RecentStore::new();
    store.update_recent_files("a", 1);
    store.update_recent_files("b", 2);
    store.update_recent_files("a", 7);
    let entries = store.get_recent_files();
    assert_eq!(entries.len(), 2);
    assert_eq!(entries[0].path, "b");
    assert_eq!(entries[1].path, "a");
    assert_eq!(entries[1].timestamp, 7);
}

#[test]
fn six_records_evict_the_oldest() {
    let mut store = RecentStore::new();
    let names = ["p1", "p2", "p3", "p4", "p5", "p6"];
    for (k, name) in names.iter().enumerate() {
        store.update_recent_files(name, (k + 1) as u64);
    }
    assert_eq!(paths_of(&store), vec!["p2", "p3", "p4", "p5", "p6"]);
}

#[test]
fn store_never_exceeds_capacity() {
    let mut store = RecentStore::new();
    for k in 0..20u64 {
        store.update_recent_files(&format!("file-{}", k % 7), 100 + k);
        assert!(store.get_recent_files().len() <= CAPACITY);
    }
}

#[test]
fn add_recent_file_uses_the_clock() {
    let mut store = RecentStore::new();
    store.add_recent_file("now.zip");
    let entries = store.get_recent_files();
    assert_eq!(entries.len(), 1);
    assert_eq!(entries[0].path, "now.zip");
}
