use raft_core::codec::{dec_id_list, dec_str_list, enc_id_list, enc_str, enc_u64};
use raft_core::config::{ConfigSm, CONFIG_SM_ID, FN_NEW_MEMBER};
use raft_core::hashing::hash_str;
use raft_core::heartbeat::{
    HeartbeatState, Membership, DEFAULT_SERVICE_ID, FN_HB_ONLINE_CHANGED, FN_MEMBERS,
};
use raft_core::log::LogEntry;
use raft_core::master::{ExecError, MasterStateMachine, SubStateMachine};

#[test]
fn new_member_is_idempotent() {
    let mut sm = ConfigSm::new();
    // true when newly added, false when the member existed before the call
    assert!(sm.new_member(String::from("127.0.0.1:2001")));
    assert!(!sm.new_member(String::from("127.0.0.1:2001")));
    assert!(sm.new_member(String::from("127.0.0.1:2002")));
    assert_eq!(sm.len(), 2);
    assert!(sm.member_existed(hash_str("127.0.0.1:2001")));
    assert!(!sm.member_existed(hash_str("127.0.0.1:2003")));
    assert!(sm.del_member(&String::from("127.0.0.1:2001")));
    assert!(!sm.del_member(&String::from("127.0.0.1:2001")));
    assert_eq!(sm.member_addresses(), vec![String::from("127.0.0.1:2002")]);
}

#[test]
fn config_snapshot_recovers_members() {
    let mut sm = ConfigSm::new();
    sm.new_member(String::from("127.0.0.1:2001"));
    sm.new_member(String::from("127.0.0.1:2002"));
    sm.new_member(String::from("127.0.0.1:2003"));
    let image = sm.snapshot_bytes();
    let mut other = ConfigSm::new();
    other.new_member(String::from("10.0.0.1:9"));
    other.recover_bytes(&image).expect("the image decodes");
    assert_eq!(other.member_addresses(), sm.member_addresses());
    assert_eq!(other.len(), 3);
}

#[test]
fn master_snapshot_then_recover_is_identity() {
    let mut master = MasterStateMachine::new(17);
    let mut add = Vec::new();
    enc_str(&mut add, "127.0.0.1:2001");
    let entry = LogEntry { id: 1, term: 1, sm_id: CONFIG_SM_ID, fn_id: FN_NEW_MEMBER, data: add };
    let r = master.commit_cmd(&entry);
    let mut expected = Vec::new();
    enc_u64(&mut expected, 1);
    assert_eq!(r, Ok(expected));
    let image = master.snapshot();
    let members_before = master.members();
    master.recover(&image).expect("our own image recovers");
    assert_eq!(master.members(), members_before);
    // a mangled image is refused without touching the member set
    let garbage: Vec<u8> = vec![0, 1, 2];
    assert_eq!(master.recover(&garbage), Err(ExecError::DecodeFailed));
    assert_eq!(master.members(), members_before);
}

#[test]
fn master_dispatch_errors() {
    let mut master = MasterStateMachine::new(17);
    let entry = LogEntry { id: 1, term: 1, sm_id: 999, fn_id: 1, data: Vec::new() };
    assert_eq!(master.commit_cmd(&entry), Err(ExecError::UnknownStateMachine));
    let entry2 = LogEntry { id: 1, term: 1, sm_id: CONFIG_SM_ID, fn_id: 77, data: Vec::new() };
    assert_eq!(master.commit_cmd(&entry2), Err(ExecError::UnknownFunction));
    let entry3 = LogEntry {
        id: 1,
        term: 1,
        sm_id: CONFIG_SM_ID,
        fn_id: FN_NEW_MEMBER,
        data: vec![1, 2],
    };
    assert_eq!(master.commit_cmd(&entry3), Err(ExecError::DecodeFailed));
    assert!(master.has_sub(&CONFIG_SM_ID));
    assert!(!master.has_sub(&999));
}

#[test]
fn member_addresses_query() {
    let mut master = MasterStateMachine::new(17);
    for addr in ["127.0.0.1:2001", "127.0.0.1:2002"] {
        let mut data = Vec::new();
        enc_str(&mut data, addr);
        let entry =
            LogEntry { id: 1, term: 1, sm_id: CONFIG_SM_ID, fn_id: FN_NEW_MEMBER, data };
        assert!(master.commit_cmd(&entry).is_ok());
    }
    let qry = LogEntry {
        id: 0,
        term: 0,
        sm_id: CONFIG_SM_ID,
        fn_id: raft_core::config::FN_MEMBER_ADDRESSES,
        data: Vec::new(),
    };
    let reply = master.exec_qry(&qry).expect("the query answers");
    let (addrs, _) = dec_str_list(&reply, 0).expect("the reply decodes");
    assert_eq!(addrs, vec![String::from("127.0.0.1:2001"), String::from("127.0.0.1:2002")]);
}

#[test]
fn ping_keeps_flag_and_moves_clock() {
    let mut hb = HeartbeatState::new();
    hb.ping(5, 1000);
    // a first ping starts the record as dead; the watcher decides later
    assert_eq!(hb.status.len(), 1);
    assert!(!hb.status[0].1.alive);
    assert_eq!(hb.status[0].1.last_updated, 1000);
    hb.ping(5, 2500);
    assert_eq!(hb.status.len(), 1);
    assert_eq!(hb.status[0].1.last_updated, 2500);
}

#[test]
fn liveness_flips_after_silence() {
    let mut hb = HeartbeatState::new();
    hb.ping(5, 1000);
    // freshly pinged: the sweep brings the member online
    let (online, offline) = hb.liveness_sweep(2000);
    assert_eq!(online, vec![5]);
    assert!(offline.is_empty());
    // more than 5000 ms of silence: the member goes offline
    let (online2, offline2) = hb.liveness_sweep(7500);
    assert!(online2.is_empty());
    assert_eq!(offline2, vec![5]);
    // a later ping flips it back on the next sweep
    hb.ping(5, 8000);
    let (online3, offline3) = hb.liveness_sweep(8100);
    assert_eq!(online3, vec![5]);
    assert!(offline3.is_empty());
}

#[test]
fn online_changed_command_updates_replicated_flags() {
    let mut master = MasterStateMachine::new(17);
    assert!(master.register(SubStateMachine::Membership(Membership::new())));
    let online: Vec<u64> = vec![];
    let offline: Vec<u64> = vec![42];
    let mut data = Vec::new();
    enc_id_list(&mut data, &online);
    enc_id_list(&mut data, &offline);
    let entry = LogEntry {
        id: 1,
        term: 1,
        sm_id: DEFAULT_SERVICE_ID,
        fn_id: FN_HB_ONLINE_CHANGED,
        data,
    };
    let empty: Vec<u8> = Vec::new();
    assert_eq!(master.commit_cmd(&entry), Ok(empty));
    match &master.subs[0] {
        SubStateMachine::Membership(m) => {
            assert_eq!(m.statuses, vec![(42u64, false)]);
        },
    }
}

#[test]
fn groups_membership() {
    let mut m = Membership::new();
    let a = String::from("127.0.0.1:2001");
    let b = String::from("127.0.0.1:2002");
    m.join(9, &a);
    m.join(9, &a);
    m.join(9, &b);
    m.join(10, &b);
    assert_eq!(m.members(9), vec![hash_str(&a), hash_str(&b)]);
    assert_eq!(m.group_members(10), vec![hash_str(&b)]);
    assert_eq!(m.leader(9), hash_str(&a));
    assert_eq!(m.leader(11), 0);
    let mut all = m.all_members();
    all.sort();
    let mut expected = vec![hash_str(&a), hash_str(&b)];
    expected.sort();
    assert_eq!(all, expected);
    m.leave(9, &a);
    assert_eq!(m.members(9), vec![hash_str(&b)]);
    assert_eq!(m.leader(9), hash_str(&b));
}

#[test]
fn membership_query_through_registry() {
    let mut master = MasterStateMachine::new(17);
    assert!(master.register(SubStateMachine::Membership(Membership::new())));
    let a = String::from("127.0.0.1:2001");
    let mut join_data = Vec::new();
    enc_u64(&mut join_data, 9);
    enc_str(&mut join_data, &a);
    let join_entry = LogEntry {
        id: 1,
        term: 1,
        sm_id: DEFAULT_SERVICE_ID,
        fn_id: raft_core::heartbeat::FN_JOIN,
        data: join_data,
    };
    assert!(master.commit_cmd(&join_entry).is_ok());
    let mut qry_data = Vec::new();
    enc_u64(&mut qry_data, 9);
    let qry = LogEntry {
        id: 0,
        term: 0,
        sm_id: DEFAULT_SERVICE_ID,
        fn_id: FN_MEMBERS,
        data: qry_data,
    };
    let reply = master.exec_qry(&qry).expect("the query answers");
    let (ids, _) = dec_id_list(&reply, 0).expect("the reply decodes");
    assert_eq!(ids, vec![hash_str(&a)]);
}
