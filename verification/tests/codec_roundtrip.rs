use raft_core::codec::{
    dec_bytes, dec_id_list, dec_str, dec_str_list, dec_u64, enc_bytes, enc_id_list, enc_str,
    enc_str_list, enc_u64,
};
use raft_core::raft::SnapshotEntity;

#[test]
fn u64_round_trip() {
    let values: Vec<u64> = vec![0, 1, 255, 256, 0xdead_beef, u64::MAX - 1, u64::MAX];
    let mut buf: Vec<u8> = Vec::new();
    for v in &values {
        enc_u64(&mut buf, *v);
    }
    assert_eq!(buf.len(), 8 * values.len());
    let mut pos = 0usize;
    for v in &values {
        let (got, next) = dec_u64(&buf, pos).expect("a full field decodes");
        assert_eq!(got, *v);
        assert_eq!(next, pos + 8);
        pos = next;
    }
    assert!(dec_u64(&buf, pos).is_none());
}

#[test]
fn u64_short_buffer_refused() {
    let mut buf: Vec<u8> = Vec::new();
    enc_u64(&mut buf, 77);
    buf.truncate(7);
    assert!(dec_u64(&buf, 0).is_none());
}

#[test]
fn bytes_round_trip() {
    let payload: Vec<u8> = vec![9, 8, 7, 6, 5];
    let mut buf: Vec<u8> = Vec::new();
    enc_bytes(&mut buf, &payload);
    let (got, end) = dec_bytes(&buf, 0).expect("a full field decodes");
    assert_eq!(got, payload);
    assert_eq!(end, buf.len());
    buf.pop();
    assert!(dec_bytes(&buf, 0).is_none());
}

#[test]
fn text_round_trip() {
    let mut buf: Vec<u8> = Vec::new();
    enc_str(&mut buf, "127.0.0.1:2000");
    enc_str(&mut buf, "naïve λ text");
    let (a, p) = dec_str(&buf, 0).expect("first field decodes");
    assert_eq!(a, "127.0.0.1:2000");
    let (b, end) = dec_str(&buf, p).expect("second field decodes");
    assert_eq!(b, "naïve λ text");
    assert_eq!(end, buf.len());
}

#[test]
fn invalid_utf8_refused() {
    let mut buf: Vec<u8> = Vec::new();
    let bad: Vec<u8> = vec![0xff, 0xfe, 0xfd];
    enc_bytes(&mut buf, &bad);
    assert!(dec_str(&buf, 0).is_none());
}

#[test]
fn id_list_round_trip() {
    let ids: Vec<u64> = vec![3, 1, 4, 1, 5, 9, 2, 6];
    let mut buf: Vec<u8> = Vec::new();
    enc_id_list(&mut buf, &ids);
    let (got, end) = dec_id_list(&buf, 0).expect("the list decodes");
    assert_eq!(got, ids);
    assert_eq!(end, buf.len());
    let empty: Vec<u64> = Vec::new();
    let mut buf2: Vec<u8> = Vec::new();
    enc_id_list(&mut buf2, &empty);
    let (got2, _) = dec_id_list(&buf2, 0).expect("the empty list decodes");
    assert!(got2.is_empty());
}

#[test]
fn str_list_round_trip() {
    let addrs: Vec<String> = vec![
        String::from("127.0.0.1:2001"),
        String::from("127.0.0.1:2002"),
        String::from("127.0.0.1:2003"),
    ];
    let mut buf: Vec<u8> = Vec::new();
    enc_str_list(&mut buf, &addrs);
    let (got, end) = dec_str_list(&buf, 0).expect("the list decodes");
    assert_eq!(got, addrs);
    assert_eq!(end, buf.len());
}

#[test]
fn snapshot_entity_round_trip() {
    let entity = SnapshotEntity {
        term: 7,
        commit_index: 42,
        last_applied: 40,
        snapshot: vec![1, 2, 3, 4],
    };
    let bytes = entity.to_bytes();
    let back = SnapshotEntity::from_bytes(&bytes).expect("the image decodes");
    assert_eq!(back, entity);
    let mut clipped = bytes.clone();
    clipped.pop();
    assert!(SnapshotEntity::from_bytes(&clipped).is_none());
}

#[test]
fn hash_is_stable() {
    let a = raft_core::hashing::hash_str("127.0.0.1:2000");
    let b = raft_core::hashing::hash_str("127.0.0.1:2000");
    let c = raft_core::hashing::hash_str("127.0.0.1:2001");
    assert_eq!(a, b);
    assert_ne!(a, c);
    assert_eq!(raft_core::hashing::fnv1a(b"" as &[u8]), 0xcbf29ce484222325);
}
