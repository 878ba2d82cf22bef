use raft_core::log::{LogEntry, LogStore};

fn entry(id: u64, term: u64, data: Vec<u8>) -> LogEntry {
    LogEntry { id, term, sm_id: 2, fn_id: 1, data }
}

#[test]
fn append_is_insert_if_absent() {
    let mut store = LogStore::new();
    assert!(store.append(entry(1, 1, vec![10])));
    assert!(store.append(entry(2, 1, vec![20])));
    // a present id is never overwritten
    assert!(!store.append(entry(2, 9, vec![99])));
    assert_eq!(store.entry(2).data, vec![20]);
    assert_eq!(store.entry(2).term, 1);
    // a detached id does not attach
    assert!(!store.append(entry(5, 1, vec![50])));
    assert_eq!(store.len(), 2);
    assert_eq!(store.first_id(), Some(1));
    assert_eq!(store.newest_id(), Some(2));
    assert_eq!(store.last_info(), (2, 1));
}

#[test]
fn fresh_store_reports_no_log() {
    let store = LogStore::new();
    assert_eq!(store.first_id(), None);
    assert_eq!(store.newest_id(), None);
    // id 0 denotes "no log"
    assert_eq!(store.last_info(), (0, 0));
}

#[test]
fn truncate_removes_id_and_greater() {
    let mut store = LogStore::new();
    for i in 1..=5u64 {
        assert!(store.append(entry(i, 1, vec![i as u8])));
    }
    store.truncate_from(3);
    assert_eq!(store.len(), 2);
    assert_eq!(store.last_info(), (2, 1));
    assert!(store.contains(2));
    assert!(!store.contains(3));
}

#[test]
fn range_from_gives_ordered_tail() {
    let mut store = LogStore::new();
    for i in 1..=6u64 {
        assert!(store.append(entry(i, 1, vec![i as u8])));
    }
    let tail = store.range_from(4);
    assert_eq!(tail.len(), 3);
    assert_eq!(tail[0].id, 4);
    assert_eq!(tail[2].id, 6);
    let all = store.range_from(0);
    assert_eq!(all.len(), 6);
    let none = store.range_from(7);
    assert!(none.is_empty());
}

#[test]
fn trim_keeps_tail_and_boundary_term() {
    let mut store = LogStore::new();
    for i in 1..=25u64 {
        assert!(store.append(entry(i, (i / 10) + 1, vec![i as u8])));
    }
    store.trim_oldest(10);
    assert_eq!(store.len(), 10);
    assert_eq!(store.first_id(), Some(16));
    assert_eq!(store.last_info(), (25, 3));
    // the boundary term is the term of the last entry removed (id 15)
    assert_eq!(store.term_of(15), (15u64 / 10) + 1);
}

#[test]
fn log_map_serialization_round_trip() {
    let mut store = LogStore::new();
    for i in 1..=9u64 {
        assert!(store.append(entry(i, 2, vec![i as u8, 0, i as u8])));
    }
    store.trim_oldest(5);
    let bytes = store.to_bytes();
    let back = LogStore::from_bytes(&bytes).expect("the image decodes");
    assert_eq!(back.len(), store.len());
    assert_eq!(back.first_id(), store.first_id());
    assert_eq!(back.last_info(), store.last_info());
    for i in 5..=9u64 {
        assert_eq!(back.entry(i), store.entry(i));
    }
}

#[test]
fn log_image_garbage_refused() {
    let garbage: Vec<u8> = vec![1, 2, 3];
    assert!(LogStore::from_bytes(&garbage).is_none());
    // a parsed image whose ids are not dense is refused too
    let mut store = LogStore::new();
    assert!(store.append(entry(1, 1, vec![7])));
    let mut bytes = store.to_bytes();
    // corrupt the stored id of the single entry (first field after the
    // 24-byte header)
    bytes[24] = 9;
    assert!(LogStore::from_bytes(&bytes).is_none());
}
