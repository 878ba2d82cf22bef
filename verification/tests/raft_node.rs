use raft_core::codec::enc_str;
use raft_core::config::{CONFIG_SM_ID, FN_DEL_MEMBER, FN_NEW_MEMBER};
use raft_core::hashing::hash_str;
use raft_core::log::LogEntry;
use raft_core::raft::{
    AppendEntriesResult, CheckerAction, ClientCmdResponse, ClientQryResponse, CommandStart,
    Membership, Options, RaftService, ReplicationStep, RequestVoteResponse, Storage,
    DEFAULT_SERVICE_ID,
};

fn node(addr: &str) -> RaftService {
    RaftService::new(Options {
        storage: Storage::default(),
        address: String::from(addr),
        service_id: DEFAULT_SERVICE_ID,
    })
}

fn config_entry(fn_id: u64, addr: &str) -> LogEntry {
    let mut data = Vec::new();
    enc_str(&mut data, addr);
    LogEntry { id: 0, term: 0, sm_id: CONFIG_SM_ID, fn_id, data }
}

/// Drives the per-follower replication stream until it settles, the way
/// the heartbeat task does: plan, send, digest the reply, retry on a
/// mismatch. Returns the follower's final match position.
fn stream_to_follower(leader: &mut RaftService, follower: &mut RaftService, now: i64) -> u64 {
    let fid = follower.id;
    let mut is_retry = false;
    loop {
        let status = match leader.follower_status(fid) {
            Some(s) => s,
            None => return 0,
        };
        let step = leader.replication_plan(status.next_index, is_retry);
        match step {
            ReplicationStep::Stop => {
                return leader.follower_status(fid).map(|s| s.match_index).unwrap_or(0);
            },
            ReplicationStep::InstallSnapshot { last_applied, term, data } => {
                follower.install_snapshot(term, leader.id, last_applied, term, &data, now);
                leader.replication_installed(fid);
            },
            ReplicationStep::Append {
                term,
                leader_id,
                prev_log_id,
                prev_log_term,
                entries,
                leader_commit,
            } => {
                let sent_last = entries.as_ref().and_then(|es| es.last().map(|e| e.id));
                let (_ft, res) = follower.append_entries(
                    term,
                    leader_id,
                    prev_log_id,
                    prev_log_term,
                    entries,
                    leader_commit,
                    now,
                );
                let cont = leader.replication_result(fid, sent_last, &res);
                if !cont {
                    return leader.follower_status(fid).map(|s| s.match_index).unwrap_or(0);
                }
            },
        }
        is_retry = true;
    }
}

/// Submits a membership change on the leader and replicates it to every
/// follower, as the forced heartbeat after a config commit does.
fn submit_config(leader: &mut RaftService, followers: &mut [&mut RaftService], fn_id: u64, addr: &str, now: i64) -> ClientCmdResponse {
    let mut entry = config_entry(fn_id, addr);
    let start = leader.c_command(&mut entry, now);
    let response = match start {
        CommandStart::Committed(resp) => resp,
        CommandStart::NotLeader(id) => return ClientCmdResponse::NotLeader(id),
        CommandStart::AwaitReplication { .. } => panic!("a config change commits locally"),
    };
    for f in followers.iter_mut() {
        stream_to_follower(leader, f, now);
    }
    response
}

#[test]
fn startup() {
    // single-node bootstrap: no live node answers the probe, so the node
    // seeds itself and leads at once
    let mut a = node("127.0.0.1:2000");
    assert!(a.init_self_member());
    a.bootstrap(10_000);
    assert_eq!(a.num_members(), 1);
    assert!(a.is_leader());
    assert_eq!(a.leader_id(), hash_str("127.0.0.1:2000"));
    assert_eq!(a.leader_id(), a.id);
}

#[test]
fn server_membership() {
    let now = 10_000;
    let mut a = node("127.0.0.1:2001");
    let mut b = node("127.0.0.1:2002");
    let mut c = node("127.0.0.1:2003");
    assert!(a.init_self_member());
    a.bootstrap(now);
    assert_eq!(a.num_members(), 1);

    // server 2 joins through server 1
    assert!(b.init_self_member());
    let r = submit_config(&mut a, &mut [&mut b], FN_NEW_MEMBER, "127.0.0.1:2002", now);
    assert!(matches!(r, ClientCmdResponse::Success { .. }));
    let members = a.meta.state_machine.configs.member_addresses();
    b.absorb_members(&members, a.id, now);
    stream_to_follower(&mut a, &mut b, now);
    assert_eq!(a.num_members(), 2);
    assert_eq!(b.num_members(), 2);

    // server 3 joins
    assert!(c.init_self_member());
    let r = submit_config(&mut a, &mut [&mut b, &mut c], FN_NEW_MEMBER, "127.0.0.1:2003", now);
    assert!(matches!(r, ClientCmdResponse::Success { .. }));
    let members = a.meta.state_machine.configs.member_addresses();
    c.absorb_members(&members, a.id, now);
    stream_to_follower(&mut a, &mut c, now);
    assert_eq!(a.num_members(), 3);
    assert_eq!(b.num_members(), 3);
    assert_eq!(c.num_members(), 3);
    assert_eq!(b.leader_id(), a.id);
    assert_eq!(c.leader_id(), a.id);

    // server 2 leaves
    let r = submit_config(&mut a, &mut [&mut b, &mut c], FN_DEL_MEMBER, "127.0.0.1:2002", now);
    assert!(matches!(r, ClientCmdResponse::Success { .. }));
    b.go_offline();
    assert_eq!(a.num_members(), 2);
    assert_eq!(c.num_members(), 2);
    assert!(matches!(b.checker_action(now + 60_000), CheckerAction::ExitLoop));

    // the leader leaves: the remaining node elects a new leader
    let r = submit_config(&mut a, &mut [&mut c], FN_DEL_MEMBER, "127.0.0.1:2001", now);
    assert!(matches!(r, ClientCmdResponse::Success { .. }));
    a.go_offline();
    assert_eq!(c.num_members(), 1);

    // c's election clock runs out with no vote cast
    let later = now + 60_000;
    assert!(matches!(c.checker_action(later), CheckerAction::BecomeCandidate));
    let ballot = c.start_election(later);
    assert_eq!(ballot.members.len(), 1);
    // its own vote carries the single-member cluster
    let (granted, done) =
        c.process_vote_response(&ballot, 0, &RequestVoteResponse::Granted, later);
    assert_eq!(granted, 1);
    assert!(done);
    assert!(c.is_leader());
    assert_eq!(c.leader_id(), c.id);
}

#[test]
fn log_replication() {
    let now = 10_000;
    let addrs = [
        "127.0.0.1:2004",
        "127.0.0.1:2005",
        "127.0.0.1:2006",
        "127.0.0.1:2007",
        "127.0.0.1:2008",
    ];
    let mut a = node(addrs[0]);
    assert!(a.init_self_member());
    a.bootstrap(now);

    let mut peers: Vec<RaftService> = addrs[1..].iter().map(|s| node(s)).collect();
    for i in 0..peers.len() {
        peers[i].init_self_member();
        {
            let mut refs: Vec<&mut RaftService> = peers.iter_mut().collect();
            let r = submit_config(&mut a, refs.as_mut_slice(), FN_NEW_MEMBER, addrs[i + 1], now);
            assert!(matches!(r, ClientCmdResponse::Success { .. }));
        }
        let members = a.meta.state_machine.configs.member_addresses();
        peers[i].absorb_members(&members, a.id, now);
        let mut f = &mut peers[i];
        stream_to_follower(&mut a, &mut f, now);
    }
    // all five nodes hold the four membership entries and name the same
    // leader
    assert_eq!(a.num_logs(), 4);
    for p in &peers {
        assert_eq!(p.num_logs(), 4);
        assert_eq!(p.leader_id(), a.id);
    }
    assert_eq!(a.leader_id(), a.id);
    assert_eq!(a.last_log_id(), Some(4));
}

#[test]
fn ordinary_command_needs_majority() {
    let now = 10_000;
    let mut a = node("127.0.0.1:2011");
    assert!(a.init_self_member());
    a.bootstrap(now);
    let mut entry = LogEntry { id: 0, term: 0, sm_id: 999, fn_id: 1, data: vec![1] };
    let start = a.c_command(&mut entry, now);
    let (new_log_id, new_log_term) = match start {
        CommandStart::AwaitReplication { new_log_id, new_log_term } => (new_log_id, new_log_term),
        _ => panic!("an ordinary command awaits replication"),
    };
    // no followers: the majority of an empty follower set is immediate
    let matches: Vec<u64> = Vec::new();
    assert!(raft_core::raft::replication_committed(0, &matches, new_log_id));
    let r = a.c_command_conclude(new_log_id, new_log_term, true);
    // the registry knows no state machine 999, but the entry is committed
    match r {
        ClientCmdResponse::Success { data, last_log_term, last_log_id } => {
            assert_eq!(last_log_id, 1);
            assert_eq!(last_log_term, new_log_term);
            assert!(data.is_err());
        },
        _ => panic!("a majority commits"),
    }
    assert_eq!(a.meta.commit_index, 1);
    // without a majority the entry stays uncommitted
    let mut entry2 = LogEntry { id: 0, term: 0, sm_id: 999, fn_id: 1, data: vec![2] };
    let start2 = a.c_command(&mut entry2, now);
    let (id2, term2) = match start2 {
        CommandStart::AwaitReplication { new_log_id, new_log_term } => (new_log_id, new_log_term),
        _ => panic!("an ordinary command awaits replication"),
    };
    let r2 = a.c_command_conclude(id2, term2, false);
    assert!(matches!(r2, ClientCmdResponse::NotCommitted));
    assert_eq!(a.meta.commit_index, 1);
}

#[test]
fn command_refused_off_leader() {
    let now = 10_000;
    let mut b = node("127.0.0.1:2012");
    b.absorb_members(&vec![String::from("127.0.0.1:2011")], 777, now);
    let mut entry = LogEntry { id: 0, term: 0, sm_id: 2, fn_id: 1, data: vec![] };
    let r = b.c_command(&mut entry, now);
    assert!(matches!(r, CommandStart::NotLeader(777)));
}

#[test]
fn query_left_behind_rule() {
    let now = 10_000;
    let mut a = node("127.0.0.1:2013");
    assert!(a.init_self_member());
    a.bootstrap(now);
    submit_config(&mut a, &mut [], FN_NEW_MEMBER, "127.0.0.1:2014", now);
    let (last_id, last_term) = a.meta.logs.last_info();
    // ahead on id: left behind
    let probe =
        LogEntry { id: last_id + 1, term: last_term, sm_id: CONFIG_SM_ID, fn_id: 9, data: vec![] };
    assert!(matches!(a.c_query(&probe), ClientQryResponse::LeftBehind));
    // ahead on term: left behind
    let probe2 =
        LogEntry { id: last_id, term: last_term + 1, sm_id: CONFIG_SM_ID, fn_id: 9, data: vec![] };
    assert!(matches!(a.c_query(&probe2), ClientQryResponse::LeftBehind));
    // at or behind on both: answered and stamped with our position
    let mut qdata = Vec::new();
    raft_core::codec::enc_u64(&mut qdata, a.id);
    let probe3 = LogEntry {
        id: last_id,
        term: last_term,
        sm_id: CONFIG_SM_ID,
        fn_id: raft_core::config::FN_MEMBER_EXISTED,
        data: qdata,
    };
    match a.c_query(&probe3) {
        ClientQryResponse::Success { data, last_log_term, last_log_id } => {
            assert_eq!(last_log_id, last_id);
            assert_eq!(last_log_term, last_term);
            let mut one = Vec::new();
            raft_core::codec::enc_u64(&mut one, 1);
            assert_eq!(data, Ok(one));
        },
        _ => panic!("a caught-up query answers"),
    }
}

#[test]
fn append_entries_replies() {
    let now = 10_000;
    let mut f = node("127.0.0.1:2015");
    f.absorb_members(&vec![], 1, now);
    f.meta.term = 5;
    // a stale term is refused with a routing hint
    let (t, r) = f.append_entries(4, 9, 0, 0, None, 0, now);
    assert_eq!(t, 5);
    assert!(matches!(r, AppendEntriesResult::TermOut(1)));
    // an unknown prev is a mismatch
    let (_, r) = f.append_entries(5, 9, 3, 1, None, 0, now);
    assert!(matches!(r, AppendEntriesResult::LogMismatch));
    // entries attach from prev 0
    let e1 = LogEntry { id: 1, term: 5, sm_id: 2, fn_id: 1, data: vec![11] };
    let (_, r) = f.append_entries(5, 9, 0, 0, Some(vec![e1]), 0, now);
    assert!(matches!(r, AppendEntriesResult::Accepted));
    assert_eq!(f.num_logs(), 1);
    // a present entry is never overwritten, even by a conflicting payload
    let fake = LogEntry { id: 1, term: 5, sm_id: 2, fn_id: 1, data: vec![99] };
    let (_, r) = f.append_entries(5, 9, 0, 0, Some(vec![fake]), 0, now);
    assert!(matches!(r, AppendEntriesResult::Accepted));
    assert_eq!(f.meta.logs.entry(1).data, vec![11]);
    // a term conflict at prev truncates from prev on
    let e2 = LogEntry { id: 2, term: 5, sm_id: 2, fn_id: 1, data: vec![22] };
    let (_, r) = f.append_entries(5, 9, 1, 5, Some(vec![e2]), 0, now);
    assert!(matches!(r, AppendEntriesResult::Accepted));
    assert_eq!(f.num_logs(), 2);
    let (_, r) = f.append_entries(6, 9, 2, 4, None, 0, now);
    assert!(matches!(r, AppendEntriesResult::LogMismatch));
    assert_eq!(f.num_logs(), 1);
}

#[test]
fn vote_is_monotone_within_a_term() {
    let now = 10_000;
    let mut f = node("127.0.0.1:2016");
    let c1 = "127.0.0.1:2017";
    let c2 = "127.0.0.1:2018";
    f.absorb_members(&vec![String::from(c1), String::from(c2)], 0, now);
    let id1 = hash_str(c1);
    let id2 = hash_str(c2);
    // a stale-term candidate is refused
    let ((_, _), granted) = f.request_vote(0, id1, 10, 10, );
    assert!(!granted);
    // the first valid candidate is granted
    let ((_, _), granted) = f.request_vote(3, id1, 10, 10);
    assert!(granted);
    assert_eq!(f.meta.vote_for, Some(id1));
    // once cast, the vote does not move to another candidate
    let ((_, _), granted) = f.request_vote(4, id2, 10, 10);
    assert!(!granted);
    assert_eq!(f.meta.vote_for, Some(id1));
    // the same candidate keeps its grant
    let ((_, _), granted) = f.request_vote(4, id1, 10, 10);
    assert!(granted);
    assert_eq!(f.meta.vote_for, Some(id1));
    // an unconfigured candidate is refused
    let ((_, _), granted) = f.request_vote(9, 12345, 10, 10);
    assert!(!granted);
    // a candidate with a shorter log is refused
    let mut g = node("127.0.0.1:2019");
    g.absorb_members(&vec![String::from(c1)], 0, now);
    let e1 = LogEntry { id: 1, term: 1, sm_id: 2, fn_id: 1, data: vec![] };
    g.append_entries(0, 0, 0, 0, Some(vec![e1]), 0, now);
    let ((_, _), granted) = g.request_vote(3, id1, 0, 0);
    assert!(!granted);
}

#[test]
fn election_timeout_range() {
    // each reset draws from [10000, 15000) ms
    let mut draws = Vec::new();
    for _ in 0..200 {
        let t = raft_core::raft::gen_timeout();
        assert!((10_000..15_000).contains(&t));
        draws.push(t);
    }
    // 200 draws from a 5000-wide range: a fixed answer would betray a
    // sampler that ignores its range
    assert!(draws.iter().any(|t| *t != draws[0]));
    let mut a = node("127.0.0.1:2020");
    a.reset_last_checked(123);
    assert_eq!(a.meta.last_checked, 123);
    assert!((10_000..15_000).contains(&a.meta.timeout));
}

#[test]
fn trimming_rule_boundaries() {
    let now = 10_000;
    let mut a = node("127.0.0.1:2021");
    assert!(a.init_self_member());
    a.bootstrap(now);
    // commit entries one by one; each conclusion applies, so trimming can
    // fire once the log passes twice its capacity
    for i in 0..20u64 {
        let mut e = LogEntry { id: 0, term: 0, sm_id: 999, fn_id: 1, data: vec![i as u8] };
        match a.c_command(&mut e, now) {
            CommandStart::AwaitReplication { new_log_id, new_log_term } => {
                a.c_command_conclude(new_log_id, new_log_term, true);
            },
            _ => panic!("an ordinary command awaits replication"),
        }
    }
    // len == 2 * capacity: not yet above the threshold
    assert_eq!(a.num_logs(), 20);
    let mut e = LogEntry { id: 0, term: 0, sm_id: 999, fn_id: 1, data: vec![21] };
    match a.c_command(&mut e, now) {
        CommandStart::AwaitReplication { new_log_id, new_log_term } => {
            a.c_command_conclude(new_log_id, new_log_term, true);
        },
        _ => panic!("an ordinary command awaits replication"),
    }
    // the next append pushed len past 2 * capacity with everything
    // applied, and the post-processing trimmed back to the capacity
    assert_eq!(a.num_logs(), 10);
    assert_eq!(a.meta.logs.first_id(), Some(12));
    assert_eq!(a.last_log_id(), Some(21));
}

#[test]
fn snapshot_install_catches_up_follower() {
    let now = 10_000;
    let mut a = node("127.0.0.1:2022");
    assert!(a.init_self_member());
    a.bootstrap(now);
    // the follower joins early and then misses everything
    let mut f = node("127.0.0.1:2023");
    f.init_self_member();
    submit_config(&mut a, &mut [], FN_NEW_MEMBER, "127.0.0.1:2023", now);
    let members = a.meta.state_machine.configs.member_addresses();
    f.absorb_members(&members, a.id, now);
    // the leader commits far past the follower and trims
    for i in 0..25u64 {
        let mut e = LogEntry { id: 0, term: 0, sm_id: 999, fn_id: 1, data: vec![i as u8] };
        match a.c_command(&mut e, now) {
            CommandStart::AwaitReplication { new_log_id, new_log_term } => {
                a.c_command_conclude(new_log_id, new_log_term, true);
            },
            _ => panic!("an ordinary command awaits replication"),
        }
    }
    assert!(a.meta.logs.first_id().unwrap() > 1);
    // the stream walks back, ships the snapshot, and appends cleanly
    let matched = stream_to_follower(&mut a, &mut f, now);
    assert_eq!(f.meta.commit_index, a.meta.last_applied);
    assert_eq!(f.meta.last_applied, a.meta.last_applied);
    assert_eq!(matched, a.meta.logs.last_info().0);
    // the next round-trip appends without a mismatch
    let mut e = LogEntry { id: 0, term: 0, sm_id: 999, fn_id: 1, data: vec![7] };
    match a.c_command(&mut e, now) {
        CommandStart::AwaitReplication { new_log_id, new_log_term } => {
            let m = stream_to_follower(&mut a, &mut f, now);
            assert_eq!(m, new_log_id);
            let done = a.c_command_conclude(new_log_id, new_log_term, true);
            assert!(matches!(done, ClientCmdResponse::Success { .. }));
        },
        _ => panic!("an ordinary command awaits replication"),
    }
}

#[test]
fn stale_snapshot_install_changes_nothing() {
    let now = 10_000;
    let mut f = node("127.0.0.1:2030");
    f.absorb_members(&vec![], 1, now);
    f.meta.term = 9;
    let image: Vec<u8> = vec![1, 2, 3];
    // a stale sender is answered with the local term and ignored
    let t = f.install_snapshot(3, 5, 50, 3, &image, now);
    assert_eq!(t, 9);
    assert_eq!(f.meta.commit_index, 0);
    assert_eq!(f.meta.last_applied, 0);
    // a current sender with a malformed image changes nothing lasting
    let t = f.install_snapshot(9, 5, 50, 9, &image, now);
    assert_eq!(t, 9);
    assert_eq!(f.meta.commit_index, 0);
    assert_eq!(f.num_logs(), 0);
}

#[test]
fn fresh_leader_table_rows() {
    let now = 10_000;
    let mut a = node("127.0.0.1:2031");
    assert!(a.init_self_member());
    // a second member is configured before the node takes the lead
    a.meta.state_machine.configs.new_member(String::from("127.0.0.1:2032"));
    a.bootstrap(now);
    // the leader keeps no row for itself, and the other member starts
    // fresh one past the newest log id with nothing matched
    assert!(a.follower_status(a.id).is_none());
    let row = a.follower_status(hash_str("127.0.0.1:2032")).expect("the member has a row");
    assert_eq!(row.next_index, 1);
    assert_eq!(row.match_index, 0);
    // a membership change reloads the table: the newcomer's row starts
    // one past the committed entry
    submit_config(&mut a, &mut [], FN_NEW_MEMBER, "127.0.0.1:2033", now);
    assert!(a.is_leader());
    let row2 = a.follower_status(hash_str("127.0.0.1:2033")).expect("the newcomer has a row");
    assert_eq!(row2.next_index, 2);
    assert_eq!(row2.match_index, 0);
    // the older row is untouched by the reload
    let row1 = a.follower_status(hash_str("127.0.0.1:2032")).expect("the old row stays");
    assert_eq!(row1.next_index, 1);
}

#[test]
fn batch_validation() {
    let e = |id: u64| LogEntry { id, term: 1, sm_id: 2, fn_id: 1, data: vec![] };
    assert!(raft_core::raft::batch_contiguous(2, &vec![e(3), e(4), e(5)]));
    assert!(!raft_core::raft::batch_contiguous(2, &vec![]));
    assert!(!raft_core::raft::batch_contiguous(2, &vec![e(3), e(5)]));
    assert!(!raft_core::raft::batch_contiguous(2, &vec![e(4)]));
    assert!(!raft_core::raft::batch_contiguous(u64::MAX, &vec![e(1)]));
}

#[test]
fn recovery_succeeds_exactly_on_parsable_files() {
    let now = 10_000;
    let mut a = node("127.0.0.1:2034");
    assert!(a.init_self_member());
    a.bootstrap(now);
    submit_config(&mut a, &mut [], FN_NEW_MEMBER, "127.0.0.1:2035", now);
    let snapshot_bytes = a.snapshot_entity().to_bytes();
    let log_bytes = a.log_file_image();
    let mut b = node("127.0.0.1:2034");
    // both files parse: recovery must succeed
    assert!(b.recover_from_storage(&snapshot_bytes, &log_bytes).is_ok());
    // a log image whose ids are not dense is refused
    let mut bad_log = log_bytes.clone();
    bad_log[24] = 9;
    let mut c = node("127.0.0.1:2034");
    assert!(c.recover_from_storage(&snapshot_bytes, &bad_log).is_err());
    assert_eq!(c.meta.term, 0);
    assert_eq!(c.num_logs(), 0);
}

#[test]
fn absorbed_members_match_the_learned_list() {
    let now = 10_000;
    let mut b = node("127.0.0.1:2036");
    let learned = vec![
        String::from("127.0.0.1:2037"),
        String::from("127.0.0.1:2038"),
        String::from("127.0.0.1:2037"),
    ];
    b.absorb_members(&learned, 42, now);
    // duplicates collapse under the idempotent add; order is kept
    assert_eq!(b.num_members(), 2);
    let addrs = b.meta.state_machine.configs.member_addresses();
    assert_eq!(addrs, vec![String::from("127.0.0.1:2037"), String::from("127.0.0.1:2038")]);
    assert_eq!(b.leader_id(), 42);
}

#[test]
fn cluster_info_reports_members_and_position() {
    let now = 10_000;
    let mut a = node("127.0.0.1:2024");
    assert!(a.init_self_member());
    a.bootstrap(now);
    submit_config(&mut a, &mut [], FN_NEW_MEMBER, "127.0.0.1:2025", now);
    let info = a.cluster_info();
    assert_eq!(info.members.len(), 2);
    assert_eq!(info.members[0].1, "127.0.0.1:2024");
    assert_eq!(info.members[1].1, "127.0.0.1:2025");
    assert_eq!(info.members[1].0, hash_str("127.0.0.1:2025"));
    assert_eq!(info.leader_id, a.id);
    let (last_id, last_term) = a.meta.logs.last_info();
    assert_eq!(info.last_log_id, last_id);
    assert_eq!(info.last_log_term, last_term);
    assert!(a.c_have_state_machine(CONFIG_SM_ID));
    a.c_ping();
}

#[test]
fn durable_state_round_trip() {
    let now = 10_000;
    let mut a = node("127.0.0.1:2026");
    assert!(a.init_self_member());
    a.bootstrap(now);
    submit_config(&mut a, &mut [], FN_NEW_MEMBER, "127.0.0.1:2027", now);
    let snapshot_bytes = a.snapshot_entity().to_bytes();
    let log_bytes = a.log_file_image();
    let mut b = node("127.0.0.1:2026");
    b.recover_from_storage(&snapshot_bytes, &log_bytes).expect("our own files recover");
    assert_eq!(b.meta.term, a.meta.term);
    assert_eq!(b.meta.commit_index, a.meta.commit_index);
    assert_eq!(b.meta.last_applied, a.meta.last_applied);
    assert_eq!(b.num_logs(), a.num_logs());
    assert_eq!(b.num_members(), a.num_members());
    let garbage: Vec<u8> = vec![9];
    assert!(b.recover_from_storage(&garbage, &log_bytes).is_err());
}

#[test]
fn sentinel_actions() {
    let mut a = node("127.0.0.1:2028");
    // undefined nodes sit still
    assert!(matches!(a.checker_action(1_000_000), CheckerAction::Idle));
    a.absorb_members(&vec![], 1, 1_000);
    // a follower inside its window sits still
    assert!(matches!(a.checker_action(2_000), CheckerAction::Idle));
    // past the window with no vote cast it stands for election
    assert!(matches!(a.checker_action(100_000), CheckerAction::BecomeCandidate));
    // leaders send heartbeats once the heartbeat window has passed
    a.bootstrap(5_000);
    assert!(matches!(a.checker_action(5_100), CheckerAction::Idle));
    assert!(matches!(a.checker_action(5_600), CheckerAction::SendHeartbeat));
    assert!(a.heartbeat_due(5_600, false));
    assert!(!a.heartbeat_due(5_100, false));
    assert!(a.heartbeat_due(5_100, true));
    let _ = match a.meta.membership {
        Membership::Leader(_) => true,
        _ => false,
    };
}
