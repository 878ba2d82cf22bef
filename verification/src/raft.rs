//! The consensus node: role state machine, term and vote bookkeeping,
//! election, log replication, commit advancement, snapshot installation and
//! the client-facing command and query paths. Network sends, timers and
//! file writes live with the caller; every decision and every state change
//! is made here, from plain values to plain values.
use crate::codec::{
    dec_bytes, dec_u64, enc_bytes, enc_u64, lemma_dec_enc_bytes, lemma_dec_enc_u64,
    lemma_spec_le_len, sdec_bytes, sdec_u64, spec_enc_bytes, spec_enc_u64,
};
use crate::config::{has_member, MemberView, CONFIG_SM_ID};
use crate::hashing::hash_str;
use crate::log::{sdec_log_image, LogEntry, LogEntryView, LogStore, LogStoreView};
use crate::master::{
    spec_master_commit, spec_master_query, view_exec_result, ExecError, ExecResult,
    MasterStateMachine, MasterView, SubStateMachine,
};
use crate::quorum::{is_majority, spec_is_majority};
use vstd::prelude::*;

verus! {

/// The service id a node registers under when none is chosen.
pub const DEFAULT_SERVICE_ID: u64 = 0x52414654434f5245;

/// How many entries the log keeps once trimming starts. A small value
/// suits testing; production deployments should raise it.
pub const MAX_LOG_CAPACITY: usize = 10;

/// The sentinel tick, in milliseconds.
pub const CHECKER_MS: i64 = 100;

/// The leader sends heartbeats when this many milliseconds have passed
/// since the last send.
pub const HEARTBEAT_MS: i64 = 500;

/// The reply of the append-entries receiver.
#[derive(Debug, Clone, PartialEq, Eq, Structural)]
pub enum AppendEntriesResult {
    Accepted,
    TermOut(u64),
    LogMismatch,
}

/// The reply of the client command path.
#[derive(Debug, PartialEq, Eq)]
pub enum ClientCmdResponse {
    Success { data: ExecResult, last_log_term: u64, last_log_id: u64 },
    NotLeader(u64),
    NotCommitted,
}

/// The reply of the client query path.
#[derive(Debug, PartialEq, Eq)]
pub enum ClientQryResponse {
    Success { data: ExecResult, last_log_term: u64, last_log_id: u64 },
    LeftBehind,
}

/// What a client learns about the cluster: members with their addresses,
/// the newest log position, and who leads.
#[derive(Debug, PartialEq, Eq)]
pub struct ClientClusterInfo {
    pub members: Vec<(u64, String)>,
    pub last_log_id: u64,
    pub last_log_term: u64,
    pub leader_id: u64,
}

/// The durable checkpoint: the node's term, commit and applied marks, and
/// the byte image of the state-machine registry at the applied mark.
#[derive(Debug, PartialEq, Eq)]
pub struct SnapshotEntity {
    pub term: u64,
    pub commit_index: u64,
    pub last_applied: u64,
    pub snapshot: Vec<u8>,
}

/// The mathematical image of a checkpoint.
pub struct SnapshotEntityView {
    pub term: u64,
    pub commit_index: u64,
    pub last_applied: u64,
    pub snapshot: Seq<u8>,
}

impl View for SnapshotEntity {
    type V = SnapshotEntityView;

    open spec fn view(&self) -> SnapshotEntityView {
        SnapshotEntityView {
            term: self.term,
            commit_index: self.commit_index,
            last_applied: self.last_applied,
            snapshot: self.snapshot@,
        }
    }
}

/// The image of a checkpoint in the snapshot file.
pub open spec fn spec_enc_snapshot(v: SnapshotEntityView) -> Seq<u8> {
    spec_enc_u64(v.term) + spec_enc_u64(v.commit_index) + spec_enc_u64(v.last_applied)
        + spec_enc_bytes(v.snapshot)
}

/// What reading a whole checkpoint image yields.
pub open spec fn sdec_snapshot(buf: Seq<u8>) -> Option<SnapshotEntityView> {
    match sdec_u64(buf, 0) {
        Some((term, p1)) => match sdec_u64(buf, p1) {
            Some((commit_index, p2)) => match sdec_u64(buf, p2) {
                Some((last_applied, p3)) => match sdec_bytes(buf, p3) {
                    Some((snapshot, p4)) => {
                        if p4 == buf.len() {
                            Some(SnapshotEntityView { term, commit_index, last_applied, snapshot })
                        } else {
                            Option::<SnapshotEntityView>::None
                        }
                    },
                    _ => Option::<SnapshotEntityView>::None,
                },
                _ => Option::<SnapshotEntityView>::None,
            },
            _ => Option::<SnapshotEntityView>::None,
        },
        _ => Option::<SnapshotEntityView>::None,
    }
}

/// Reading back a checkpoint's image yields that checkpoint.
pub proof fn lemma_snapshot_round_trip(v: SnapshotEntityView)
    requires
        v.snapshot.len() < 0x10000000000000000,
    ensures
        sdec_snapshot(spec_enc_snapshot(v)) == Some(v),
{
    let buf = spec_enc_snapshot(v);
    let r1 = spec_enc_u64(v.commit_index) + spec_enc_u64(v.last_applied) + spec_enc_bytes(
        v.snapshot,
    );
    assert(buf =~= Seq::<u8>::empty() + spec_enc_u64(v.term) + r1);
    lemma_dec_enc_u64(Seq::<u8>::empty(), v.term, r1);
    let pre1 = Seq::<u8>::empty() + spec_enc_u64(v.term);
    let r2 = spec_enc_u64(v.last_applied) + spec_enc_bytes(v.snapshot);
    assert(buf =~= pre1 + spec_enc_u64(v.commit_index) + r2);
    lemma_dec_enc_u64(pre1, v.commit_index, r2);
    let pre2 = pre1 + spec_enc_u64(v.commit_index);
    assert(buf =~= pre2 + spec_enc_u64(v.last_applied) + spec_enc_bytes(v.snapshot));
    lemma_dec_enc_u64(pre2, v.last_applied, spec_enc_bytes(v.snapshot));
    let pre3 = pre2 + spec_enc_u64(v.last_applied);
    assert(buf =~= pre3 + spec_enc_bytes(v.snapshot) + Seq::<u8>::empty());
    lemma_dec_enc_bytes(pre3, v.snapshot, Seq::<u8>::empty());
    lemma_spec_le_len(v.term as nat, 8);
    lemma_spec_le_len(v.commit_index as nat, 8);
    lemma_spec_le_len(v.last_applied as nat, 8);
    lemma_spec_le_len(v.snapshot.len() as u64 as nat, 8);
}

impl SnapshotEntity {
    /// The serialized image written to the snapshot file.
    pub fn to_bytes(&self) -> (r: Vec<u8>)
        ensures
            r@ == spec_enc_snapshot(self@),
    {
        let mut out: Vec<u8> = Vec::new();
        enc_u64(&mut out, self.term);
        enc_u64(&mut out, self.commit_index);
        enc_u64(&mut out, self.last_applied);
        enc_bytes(&mut out, &self.snapshot);
        proof {
            assert(out@ =~= spec_enc_snapshot(self@));
        }
        out
    }

    /// Rebuilds a checkpoint from its image.
    pub fn from_bytes(bytes: &Vec<u8>) -> (r: Option<SnapshotEntity>)
        ensures
            r matches Some(s) ==> sdec_snapshot(bytes@) == Some(s@),
            r is None ==> sdec_snapshot(bytes@) is None,
    {
        let s1 = dec_u64(bytes, 0);
        let (term, p1) = match s1 {
            Some(x) => x,
            _ => {
                return None;
            },
        };
        let s2 = dec_u64(bytes, p1);
        let (commit_index, p2) = match s2 {
            Some(x) => x,
            _ => {
                return None;
            },
        };
        let s3 = dec_u64(bytes, p2);
        let (last_applied, p3) = match s3 {
            Some(x) => x,
            _ => {
                return None;
            },
        };
        let s4 = dec_bytes(bytes, p3);
        let (snapshot, p4) = match s4 {
            Some(x) => x,
            _ => {
                return None;
            },
        };
        if p4 != bytes.len() {
            return None;
        }
        Some(SnapshotEntity { term, commit_index, last_applied, snapshot })
    }
}

/// The leader's record of one follower: the next id to send it and the
/// newest id known replicated on it.
#[derive(Debug, Clone, Copy, PartialEq, Eq, Structural)]
pub struct FollowerStatus {
    pub next_index: u64,
    pub match_index: u64,
}

/// Leader-only bookkeeping: when heartbeats last went out, and the
/// per-follower replication positions.
#[derive(Debug)]
pub struct LeaderMeta {
    pub last_updated: i64,
    pub followers: Vec<(u64, FollowerStatus)>,
}

impl LeaderMeta {
    pub fn new(now: i64) -> (r: LeaderMeta)
        ensures
            r.last_updated == now,
            r.followers@ == Seq::<(u64, FollowerStatus)>::empty(),
    {
        LeaderMeta { last_updated: now, followers: Vec::new() }
    }
}

/// One follower entry per distinct member id.
pub open spec fn followers_wf(s: Seq<(u64, FollowerStatus)>) -> bool {
    forall|i: int, j: int| 0 <= i < j < s.len() ==> (#[trigger] s[i]).0 != (#[trigger] s[j]).0
}

/// The leader's table after a reload over `base`: the inherited rows stand
/// untouched in front, every appended row is freshly initialized one past
/// `last_log_id` with nothing matched and names a configured member other
/// than the leader, and every configured member but the leader has a row.
pub open spec fn spec_table_reloaded(
    configs: Seq<MemberView>,
    base: Seq<(u64, FollowerStatus)>,
    table: Seq<(u64, FollowerStatus)>,
    self_id: u64,
    last_log_id: u64,
) -> bool {
    &&& table.len() >= base.len()
    &&& table.subrange(0, base.len() as int) == base
    &&& (forall|j: int|
        base.len() <= j < table.len() ==> (#[trigger] table[j]).1 == (FollowerStatus {
            next_index: (last_log_id + 1) as u64,
            match_index: 0,
        }) && table[j].0 != self_id && crate::config::has_member(configs, table[j].0))
    &&& (forall|i: int|
        0 <= i < configs.len() ==> ((#[trigger] configs[i]).id == self_id || exists|j: int|
            0 <= j < table.len() && (#[trigger] table[j]).0 == configs[i].id))
}

/// The node's role. Leader-only bookkeeping exists exactly while the node
/// leads; leaving the role discards it.
#[derive(Debug)]
pub enum Membership {
    Leader(LeaderMeta),
    Follower,
    Candidate,
    Offline,
    Undefined,
}

/// Where the node keeps its durable files, if anywhere.
#[derive(Debug, Clone, PartialEq, Eq)]
pub enum Storage {
    Memory,
    Disk(String),
}

impl Storage {
    /// Plain in-memory operation.
    pub fn default() -> (r: Storage)
        ensures
            r == Storage::Memory,
    {
        Storage::Memory
    }
}

/// How a node is set up: its storage, its address, and the service id it
/// registers under.
#[derive(Debug, Clone)]
pub struct Options {
    pub storage: Storage,
    pub address: String,
    pub service_id: u64,
}

/// The single authoritative record of a node.
#[derive(Debug)]
pub struct RaftMeta {
    pub term: u64,
    pub vote_for: Option<u64>,
    pub timeout: i64,
    pub last_checked: i64,
    pub membership: Membership,
    pub logs: LogStore,
    pub state_machine: MasterStateMachine,
    pub commit_index: u64,
    pub last_applied: u64,
    pub leader_id: u64,
}

/// What the sentinel does on one tick.
#[derive(Debug, Clone, Copy, PartialEq, Eq, Structural)]
pub enum CheckerAction {
    SendHeartbeat,
    BecomeCandidate,
    ExitLoop,
    Idle,
}

/// One tallied answer to a vote request.
#[derive(Debug, Clone, Copy, PartialEq, Eq, Structural)]
pub enum RequestVoteResponse {
    Granted,
    TermOut(u64, u64),
    NotGranted,
}

/// A consensus node.
#[derive(Debug)]
pub struct RaftService {
    pub meta: RaftMeta,
    pub id: u64,
    pub options: Options,
}

/// A descriptor for a user state machine: its stable id is the hash of its
/// name.
#[derive(Debug)]
pub struct RaftStateMachine {
    pub id: u64,
    pub name: String,
}

impl RaftStateMachine {
    pub fn new(name: &String) -> (r: RaftStateMachine)
        ensures
            r.id == crate::hashing::spec_hash_str(name@),
            r.name@ == name@,
    {
        RaftStateMachine { id: hash_str(name.as_str()), name: name.clone() }
    }
}

/// Relies on rand::random_range: a sample from the half-open range, which
/// always lies within it; the call panics only on an empty range, which
/// the precondition rules out.
#[verifier::external_body]
fn gen_rand(lower: i64, higher: i64) -> (r: i64)
    requires
        lower < higher,
    ensures
        lower <= r < higher,
{
    rand::random_range(lower..higher)
}

/// A fresh election timeout, drawn from [10000, 15000) ms on every reset.
pub fn gen_timeout() -> (r: i64)
    ensures
        10000 <= r < 15000,
{
    gen_rand(10000, 15000)
}

/// Whether the node currently leads.
pub open spec fn spec_is_leader(m: Membership) -> bool {
    m is Leader
}

impl RaftService {
    /// Structural soundness of the whole node.
    pub open spec fn wf(self) -> bool {
        &&& self.meta.logs.wf()
        &&& self.meta.state_machine.wf()
        &&& (self.meta.membership matches Membership::Leader(lm) ==> followers_wf(
            lm.followers@,
        ))
    }

    /// The ordering the applied, committed and newest log marks keep:
    /// last_applied <= commit_index <= the newest log id.
    pub open spec fn indexes_ordered(self) -> bool {
        self.meta.last_applied <= self.meta.commit_index <= self.meta.logs@.last_id()
    }

    /// A fresh node: term 0, no vote, no role, an empty log, the built-in
    /// configuration state machine, and its id derived from its address.
    pub fn new(opts: Options) -> (r: RaftService)
        ensures
            r.wf(),
            r.indexes_ordered(),
            r.meta.term == 0,
            r.meta.vote_for is None,
            r.meta.membership is Undefined,
            r.meta.commit_index == 0,
            r.meta.last_applied == 0,
            r.meta.leader_id == 0,
            r.meta.logs@.entries == Seq::<LogEntryView>::empty(),
            r.meta.logs@.first == 1,
            r.meta.state_machine@.configs == Seq::<MemberView>::empty(),
            r.meta.state_machine@.subs == Seq::<crate::master::SubView>::empty(),
            r.id == crate::hashing::spec_hash_str(opts.address@),
            r.options == opts,
            10000 <= r.meta.timeout < 15000,
    {
        let id = hash_str(opts.address.as_str());
        let timeout = gen_timeout();
        RaftService {
            meta: RaftMeta {
                term: 0,
                vote_for: None,
                timeout,
                last_checked: 0,
                membership: Membership::Undefined,
                logs: LogStore::new(),
                state_machine: MasterStateMachine::new(opts.service_id),
                commit_index: 0,
                last_applied: 0,
                leader_id: 0,
            },
            id,
            options: opts,
        }
    }

    /// Restarts the clock on elections: the node was just heard from, and
    /// a fresh random timeout is drawn.
    pub fn reset_last_checked(&mut self, now: i64)
        ensures
            final(self).meta.last_checked == now,
            10000 <= final(self).meta.timeout < 15000,
            final(self).meta == (RaftMeta {
                last_checked: final(self).meta.last_checked,
                timeout: final(self).meta.timeout,
                ..old(self).meta
            }),
            final(self).id == old(self).id,
            final(self).options == old(self).options,
    {
        self.meta.last_checked = now;
        self.meta.timeout = gen_timeout();
    }

    /// Adopting a different term clears the vote; the same term keeps it.
    fn alter_term(&mut self, term: u64)
        ensures
            final(self).meta.term == term,
            old(self).meta.term != term ==> (final(self).meta.vote_for is None),
            old(self).meta.term == term ==> final(self).meta.vote_for == old(self).meta.vote_for,
            final(self).meta == (RaftMeta {
                term,
                vote_for: final(self).meta.vote_for,
                ..old(self).meta
            }),
            final(self).id == old(self).id,
            final(self).options == old(self).options,
    {
        if self.meta.term != term {
            self.meta.term = term;
            self.meta.vote_for = None;
        }
    }

    /// Steps down (or stays) as follower of `leader_id` at `term`: a
    /// different term clears the vote, the election clock restarts.
    pub fn become_follower(&mut self, term: u64, leader_id: u64, now: i64)
        ensures
            old(self).wf() ==> final(self).wf(),
            final(self).meta.term == term,
            final(self).meta.leader_id == leader_id,
            final(self).meta.membership is Follower,
            final(self).meta.last_checked == now,
            10000 <= final(self).meta.timeout < 15000,
            old(self).meta.term != term ==> (final(self).meta.vote_for is None),
            old(self).meta.term == term ==> final(self).meta.vote_for == old(self).meta.vote_for,
            final(self).meta.logs == old(self).meta.logs,
            final(self).meta.state_machine == old(self).meta.state_machine,
            final(self).meta.commit_index == old(self).meta.commit_index,
            final(self).meta.last_applied == old(self).meta.last_applied,
            final(self).id == old(self).id,
            final(self).options == old(self).options,
    {
        self.alter_term(term);
        self.meta.leader_id = leader_id;
        self.reset_last_checked(now);
        self.meta.membership = Membership::Follower;
    }

    /// What the sentinel does now: a leader due for heartbeats sends them;
    /// a follower or candidate whose timeout has elapsed with no vote
    /// outstanding stands for election; an offline node stops the loop.
    pub fn checker_action(&self, now: i64) -> (r: CheckerAction)
        ensures
            r == (match self.meta.membership {
                Membership::Leader(_) => {
                    if now >= self.meta.last_checked + HEARTBEAT_MS {
                        CheckerAction::SendHeartbeat
                    } else {
                        CheckerAction::Idle
                    }
                },
                Membership::Follower | Membership::Candidate => {
                    if self.meta.vote_for is None && self.meta.last_checked + self.meta.timeout
                        - now < 0 {
                        CheckerAction::BecomeCandidate
                    } else {
                        CheckerAction::Idle
                    }
                },
                Membership::Offline => CheckerAction::ExitLoop,
                Membership::Undefined => CheckerAction::Idle,
            }),
    {
        match &self.meta.membership {
            Membership::Leader(_) => {
                if (now as i128) >= (self.meta.last_checked as i128) + (HEARTBEAT_MS as i128) {
                    CheckerAction::SendHeartbeat
                } else {
                    CheckerAction::Idle
                }
            },
            Membership::Follower | Membership::Candidate => {
                let none_vote = match self.meta.vote_for {
                    Option::Some(_) => false,
                    _ => true,
                };
                if none_vote && (self.meta.last_checked as i128) + (self.meta.timeout as i128) - (
                now as i128) < 0 {
                    CheckerAction::BecomeCandidate
                } else {
                    CheckerAction::Idle
                }
            },
            Membership::Offline => CheckerAction::ExitLoop,
            Membership::Undefined => CheckerAction::Idle,
        }
    }

    /// Whether the node currently leads.
    pub fn is_leader(&self) -> (r: bool)
        ensures
            r == spec_is_leader(self.meta.membership),
    {
        match &self.meta.membership {
            Membership::Leader(_) => true,
            _ => false,
        }
    }

    /// Who the node believes leads.
    pub fn leader_id(&self) -> (r: u64)
        ensures
            r == self.meta.leader_id,
    {
        self.meta.leader_id
    }

    /// How many members are configured.
    pub fn num_members(&self) -> (r: usize)
        ensures
            r == self.meta.state_machine@.configs.len(),
    {
        self.meta.state_machine.configs.len()
    }

    /// How many entries the log retains.
    pub fn num_logs(&self) -> (r: usize)
        ensures
            r == self.meta.logs@.entries.len(),
    {
        self.meta.logs.len()
    }

    /// The id of the newest retained entry, when one is retained.
    pub fn last_log_id(&self) -> (r: Option<u64>)
        requires
            self.wf(),
        ensures
            self.meta.logs@.entries.len() == 0 ==> r is None,
            self.meta.logs@.entries.len() > 0 ==> r == Some(self.meta.logs@.last_id()),
    {
        self.meta.logs.newest_id()
    }

    /// The single authoritative record, read-only.
    pub fn read_meta(&self) -> (r: &RaftMeta)
        ensures
            r == &self.meta,
    {
        &self.meta
    }

    /// Hands a sub state machine to the registry.
    pub fn register_state_machine(&mut self, state_machine: SubStateMachine) -> (r: bool)
        requires
            old(self).wf(),
        ensures
            final(self).wf(),
            final(self).meta.state_machine@.configs == old(self).meta.state_machine@.configs,
            r ==> final(self).meta.state_machine@.subs == old(self).meta.state_machine@.subs.push(state_machine@),
            !r ==> final(self).meta.state_machine@.subs == old(self).meta.state_machine@.subs,
    {
        self.meta.state_machine.register(state_machine)
    }

    /// Whether a state machine with this id is registered.
    pub fn c_have_state_machine(&self, id: u64) -> (r: bool)
        ensures
            r == (id == CONFIG_SM_ID || crate::master::find_sub(
                self.meta.state_machine@.subs,
                id,
            ) < self.meta.state_machine@.subs.len()),
    {
        self.meta.state_machine.has_sub(&id)
    }

    /// A liveness probe; it neither reads nor changes anything.
    pub fn c_ping(&self) {
    }
}

/// The registry after dispatching the entry at `id`, when one stands
/// there; an absent id applies nothing.
pub open spec fn spec_apply_one(m: MasterView, logs: LogStoreView, id: u64) -> MasterView {
    if logs.contains_id(id) {
        spec_master_commit(m, logs.entry_at(id)).0
    } else {
        m
    }
}

/// The registry after dispatching every committed entry from just above
/// `applied` through `commit`, in strictly increasing id order.
pub open spec fn spec_apply_upto(
    m: MasterView,
    logs: LogStoreView,
    applied: u64,
    commit: u64,
) -> MasterView
    decreases commit - applied,
{
    if applied >= commit {
        m
    } else {
        spec_apply_upto(spec_apply_one(m, logs, (applied + 1) as u64), logs, (applied + 1) as u64, commit)
    }
}

/// Whether the trimming rule fires: the log holds more than twice its
/// capacity and everything that trimming would drop has been applied.
pub open spec fn spec_trim_due(logs: LogStoreView, last_applied: u64) -> bool {
    let expected_oldest: u64 = if logs.last_id() > MAX_LOG_CAPACITY as u64 {
        (logs.last_id() - MAX_LOG_CAPACITY as u64) as u64
    } else {
        0
    };
    logs.entries.len() > 2 * MAX_LOG_CAPACITY && last_applied > expected_oldest
}

impl RaftService {
    /// Drains pending commits: dispatches every entry from just above the
    /// applied mark through the commit mark to the registry, in order.
    pub fn check_commit(&mut self)
        requires
            old(self).wf(),
        ensures
            final(self).wf(),
            final(self).meta.last_applied == (if old(self).meta.commit_index > old(self).meta.last_applied {
                old(self).meta.commit_index
            } else {
                old(self).meta.last_applied
            }),
            final(self).meta.state_machine@ == spec_apply_upto(
                old(self).meta.state_machine@,
                old(self).meta.logs@,
                old(self).meta.last_applied,
                old(self).meta.commit_index,
            ),
            final(self).meta.state_machine.service_id == old(self).meta.state_machine.service_id,
            final(self).meta == (RaftMeta {
                last_applied: final(self).meta.last_applied,
                state_machine: final(self).meta.state_machine,
                ..old(self).meta
            }),
            final(self).id == old(self).id,
            final(self).options == old(self).options,
    {
        let ghost logs0 = self.meta.logs@;
        let ghost commit0 = self.meta.commit_index;
        let ghost applied0 = self.meta.last_applied;
        let ghost sm0 = self.meta.state_machine@;
        while self.meta.commit_index > self.meta.last_applied
            invariant
                self.wf(),
                self.meta.logs@ == logs0,
                self.meta.commit_index == commit0,
                applied0 <= self.meta.last_applied,
                commit0 > applied0 ==> self.meta.last_applied <= commit0,
                commit0 <= applied0 ==> self.meta.last_applied == applied0,
                spec_apply_upto(sm0, logs0, applied0, commit0) == spec_apply_upto(
                    self.meta.state_machine@,
                    logs0,
                    self.meta.last_applied,
                    commit0,
                ),
                self.meta.state_machine.service_id == old(self).meta.state_machine.service_id,
                self.meta == (RaftMeta {
                    last_applied: self.meta.last_applied,
                    state_machine: self.meta.state_machine,
                    ..old(self).meta
                }),
                self.id == old(self).id,
                self.options == old(self).options,
            decreases self.meta.commit_index - self.meta.last_applied,
        {
            let next = self.meta.last_applied + 1;
            self.meta.last_applied = next;
            if self.meta.logs.contains(next) {
                let entry = self.meta.logs.entry(next);
                let ghost sm_pre = self.meta.state_machine@;
                let _ = self.meta.state_machine.commit_cmd(&entry);
                proof {
                    assert(spec_apply_one(sm_pre, logs0, next) == self.meta.state_machine@);
                }
            } else {
                proof {
                    assert(spec_apply_one(self.meta.state_machine@, logs0, next)
                        == self.meta.state_machine@);
                }
            }
        }
    }

    /// The trimming and persistence step run after any mutation in the
    /// leader path: when the log has grown past twice its capacity and the
    /// would-be-dropped entries are applied, the oldest entries go until
    /// the capacity remains. Returns whether it trimmed (the moment a
    /// fresh checkpoint belongs on disk).
    pub fn logs_post_processing(&mut self) -> (trimmed: bool)
        requires
            old(self).wf(),
        ensures
            final(self).wf(),
            trimmed == (spec_trim_due(old(self).meta.logs@, old(self).meta.last_applied)
                && old(self).meta.logs@.entries.len() > MAX_LOG_CAPACITY),
            final(self).meta.logs@ == spec_post_trim(
                old(self).meta.logs@,
                old(self).meta.last_applied,
            ),
            trimmed ==> final(self).meta.logs@.last_id() == old(self).meta.logs@.last_id(),
            final(self).meta == (RaftMeta { logs: final(self).meta.logs, ..old(self).meta }),
            final(self).id == old(self).id,
            final(self).options == old(self).options,
    {
        let len = self.meta.logs.len();
        let (last_log_id, _) = self.meta.logs.last_info();
        let expected_oldest: u64 = if last_log_id > MAX_LOG_CAPACITY as u64 {
            last_log_id - MAX_LOG_CAPACITY as u64
        } else {
            0
        };
        if len > 2 * MAX_LOG_CAPACITY && self.meta.last_applied > expected_oldest {
            if len > MAX_LOG_CAPACITY {
                self.meta.logs.trim_oldest(MAX_LOG_CAPACITY);
                proof {
                    assert(self.meta.logs@ =~= spec_post_trim(
                        old(self).meta.logs@,
                        old(self).meta.last_applied,
                    ));
                }
                return true;
            }
        }
        false
    }

    /// The serialized image of the log store, rewritten in full on every
    /// update of the log file.
    pub fn log_file_image(&self) -> (r: Vec<u8>)
        requires
            self.wf(),
        ensures
            r@ == crate::log::spec_log_image(self.meta.logs@),
    {
        self.meta.logs.to_bytes()
    }

    /// The checkpoint to write beside the log file: the node's term and
    /// marks with the registry's byte image.
    pub fn snapshot_entity(&self) -> (r: SnapshotEntity)
        requires
            self.wf(),
        ensures
            r@.term == self.meta.term,
            r@.commit_index == self.meta.commit_index,
            r@.last_applied == self.meta.last_applied,
            r@.snapshot == crate::master::spec_master_image(self.meta.state_machine@),
    {
        SnapshotEntity {
            term: self.meta.term,
            commit_index: self.meta.commit_index,
            last_applied: self.meta.last_applied,
            snapshot: self.meta.state_machine.snapshot(),
        }
    }

    /// What a client learns about the cluster from this node.
    pub fn cluster_info(&self) -> (r: ClientClusterInfo)
        requires
            self.wf(),
        ensures
            r.members@.len() == self.meta.state_machine@.configs.len(),
            forall|i: int|
                0 <= i < r.members@.len() ==> (#[trigger] r.members@[i]).0
                    == self.meta.state_machine@.configs[i].id && r.members@[i].1@
                    == self.meta.state_machine@.configs[i].address,
            r.last_log_id == self.meta.logs@.last_id(),
            r.last_log_term == self.meta.logs@.last_term(),
            r.leader_id == self.meta.leader_id,
    {
        let n = self.meta.state_machine.configs.len();
        let mut members: Vec<(u64, String)> = Vec::new();
        let mut i: usize = 0;
        while i < n
            invariant
                i <= n == self.meta.state_machine.configs.members@.len(),
                self.wf(),
                members@.len() == i,
                forall|j: int|
                    0 <= j < i ==> (#[trigger] members@[j]).0
                        == self.meta.state_machine@.configs[j].id && members@[j].1@
                        == self.meta.state_machine@.configs[j].address,
            decreases n - i,
        {
            let m = &self.meta.state_machine.configs.members[i];
            proof {
                assert(self.meta.state_machine@.configs[i as int]
                    == self.meta.state_machine.configs.members@[i as int]@);
            }
            members.push((m.id, m.address.clone()));
            i = i + 1;
        }
        let (last_log_id, last_log_term) = self.meta.logs.last_info();
        ClientClusterInfo { members, last_log_id, last_log_term, leader_id: self.meta.leader_id }
    }

    /// The position of `member_id` in the leader's follower table, or the
    /// table size; usable only while leading.
    fn find_follower(&self, member_id: u64) -> (r: usize)
        requires
            self.meta.membership is Leader,
        ensures
            (match self.meta.membership {
                Membership::Leader(lm) => {
                    &&& r <= lm.followers@.len()
                    &&& (r < lm.followers@.len() ==> lm.followers@[r as int].0 == member_id)
                    &&& (r == lm.followers@.len() ==> forall|j: int|
                        0 <= j < lm.followers@.len() ==> (#[trigger] lm.followers@[j]).0
                            != member_id)
                },
                _ => false,
            }),
    {
        match &self.meta.membership {
            Membership::Leader(lm) => {
                let n = lm.followers.len();
                let mut i: usize = 0;
                while i < n
                    invariant
                        i <= n == lm.followers@.len(),
                        forall|j: int|
                            0 <= j < i ==> (#[trigger] lm.followers@[j]).0 != member_id,
                        (match self.meta.membership {
                            Membership::Leader(l) => l == *lm,
                            _ => false,
                        }),
                    decreases n - i,
                {
                    if lm.followers[i].0 == member_id {
                        return i;
                    }
                    i = i + 1;
                }
                n
            },
            _ => 0,
        }
    }

    /// Ensures the leader's table has a row for `member_id` (the leader
    /// itself gets none): a new member starts at `next_index` one past the
    /// leader's newest id with nothing known matched.
    pub fn insert_leader_follower_meta(&mut self, last_log_id: u64, member_id: u64)
        requires
            old(self).wf(),
            old(self).meta.membership is Leader,
            last_log_id < u64::MAX,
        ensures
            final(self).wf(),
            final(self).meta.membership is Leader,
            (match (old(self).meta.membership, final(self).meta.membership) {
                (Membership::Leader(lm0), Membership::Leader(lm1)) => {
                    &&& lm1.last_updated == lm0.last_updated
                    &&& (member_id == old(self).id || (exists|j: int|
                        0 <= j < lm0.followers@.len() && (#[trigger] lm0.followers@[j]).0
                            == member_id) ==> lm1.followers@ == lm0.followers@)
                    &&& (member_id != old(self).id && !(exists|j: int|
                        0 <= j < lm0.followers@.len() && (#[trigger] lm0.followers@[j]).0
                            == member_id) ==> lm1.followers@ == lm0.followers@.push(
                        (
                            member_id,
                            FollowerStatus { next_index: (last_log_id + 1) as u64, match_index: 0 },
                        ),
                    ))
                },
                _ => false,
            }),
            final(self).meta == (RaftMeta {
                membership: final(self).meta.membership,
                ..old(self).meta
            }),
            final(self).id == old(self).id,
            final(self).options == old(self).options,
    {
        if member_id == self.id {
            return ;
        }
        let i = self.find_follower(member_id);
        match &mut self.meta.membership {
            Membership::Leader(lm) => {
                if i >= lm.followers.len() {
                    lm.followers.push(
                        (member_id, FollowerStatus { next_index: last_log_id + 1, match_index: 0 }),
                    );
                }
            },
            _ => {},
        }
    }

    /// Refreshes the leader's table from the member set: every member but
    /// the leader gets a row if it lacks one; inherited rows keep their
    /// positions, and every new row starts fresh one past `last_log_id`.
    pub fn reload_leader_meta(&mut self, last_log_id: u64)
        requires
            old(self).wf(),
            old(self).meta.membership is Leader,
            last_log_id < u64::MAX,
        ensures
            final(self).wf(),
            final(self).meta.membership is Leader,
            (match (old(self).meta.membership, final(self).meta.membership) {
                (Membership::Leader(lm0), Membership::Leader(lm1)) => {
                    &&& lm1.last_updated == lm0.last_updated
                    &&& spec_table_reloaded(
                        old(self).meta.state_machine@.configs,
                        lm0.followers@,
                        lm1.followers@,
                        old(self).id,
                        last_log_id,
                    )
                },
                _ => false,
            }),
            final(self).meta == (RaftMeta {
                membership: final(self).meta.membership,
                ..old(self).meta
            }),
            final(self).id == old(self).id,
            final(self).options == old(self).options,
    {
        let ids = self.meta.state_machine.configs.member_ids();
        let n = ids.len();
        let mut i: usize = 0;
        while i < n
            invariant
                self.wf(),
                self.meta.membership is Leader,
                old(self).meta.membership is Leader,
                i <= n == ids@.len(),
                ids@ == old(self).meta.state_machine@.configs.map_values(
                    |m: MemberView| m.id,
                ),
                last_log_id < u64::MAX,
                self.id == old(self).id,
                self.options == old(self).options,
                self.meta == (RaftMeta {
                    membership: self.meta.membership,
                    ..old(self).meta
                }),
                (match (old(self).meta.membership, self.meta.membership) {
                    (Membership::Leader(lm0), Membership::Leader(lm1)) => {
                        &&& lm1.last_updated == lm0.last_updated
                        &&& lm1.followers@.len() >= lm0.followers@.len()
                        &&& lm1.followers@.subrange(0, lm0.followers@.len() as int)
                            == lm0.followers@
                        &&& (forall|j: int|
                            lm0.followers@.len() <= j < lm1.followers@.len() ==> (
                            #[trigger] lm1.followers@[j]).1 == (FollowerStatus {
                                next_index: (last_log_id + 1) as u64,
                                match_index: 0,
                            }) && lm1.followers@[j].0 != old(self).id && has_member(
                                old(self).meta.state_machine@.configs,
                                lm1.followers@[j].0,
                            ))
                        &&& (forall|k: int|
                            0 <= k < i ==> (ids@[k] == old(self).id || exists|j: int|
                                0 <= j < lm1.followers@.len() && (
                                #[trigger] lm1.followers@[j]).0 == ids@[k]))
                    },
                    _ => false,
                }),
            decreases n - i,
        {
            let ghost before = self.meta.membership;
            self.insert_leader_follower_meta(last_log_id, ids[i]);
            proof {
                assert(ids@[i as int] == old(self).meta.state_machine@.configs[i as int].id);
            }
            proof {
                match (&before, &self.meta.membership) {
                    (Membership::Leader(lmb), Membership::Leader(lm1)) => {
                        if lm1.followers@.len() == lmb.followers@.len() + 1 {
                            assert(lm1.followers@.last().0 == ids@[i as int]);
                            assert(has_member(
                                old(self).meta.state_machine@.configs,
                                lm1.followers@.last().0,
                            )) by {
                                assert(old(self).meta.state_machine@.configs[i as int].id
                                    == ids@[i as int]);
                            }
                            match &old(self).meta.membership {
                                Membership::Leader(lm0) => {
                                    assert(lm1.followers@.subrange(
                                        0,
                                        lm0.followers@.len() as int,
                                    ) =~= lmb.followers@.subrange(
                                        0,
                                        lm0.followers@.len() as int,
                                    ));
                                },
                                _ => {},
                            }
                        }
                    },
                    _ => {},
                }
                match (&before, &self.meta.membership) {
                    (Membership::Leader(lm0), Membership::Leader(lm1)) => {
                        assert forall|k: int| 0 <= k < i + 1 implies (ids@[k] == old(self).id
                            || exists|j: int|
                            0 <= j < lm1.followers@.len() && (#[trigger] lm1.followers@[j]).0
                                == ids@[k]) by {
                            if k < i && ids@[k] != old(self).id {
                                let j = choose|j: int|
                                    0 <= j < lm0.followers@.len() && (
                                    #[trigger] lm0.followers@[j]).0 == ids@[k];
                                assert(lm1.followers@[j].0 == ids@[k]);
                            }
                            if k == i && ids@[k] != old(self).id {
                                if lm1.followers@.len() == lm0.followers@.len() + 1 {
                                    assert(lm1.followers@[lm0.followers@.len() as int].0
                                        == ids@[k]);
                                } else {
                                    let j = choose|j: int|
                                        0 <= j < lm0.followers@.len() && (
                                        #[trigger] lm0.followers@[j]).0 == ids@[k];
                                    assert(lm1.followers@[j].0 == ids@[k]);
                                }
                            }
                        }
                    },
                    _ => {},
                }
            }
            i = i + 1;
        }
        proof {
            match &self.meta.membership {
                Membership::Leader(lm1) => {
                    assert forall|k: int|
                        0 <= k < old(self).meta.state_machine@.configs.len() implies ((
                    #[trigger] old(self).meta.state_machine@.configs[k]).id == old(self).id
                        || exists|j: int|
                        0 <= j < lm1.followers@.len() && (#[trigger] lm1.followers@[j]).0 == old(self).meta.state_machine@.configs[k].id) by {
                        assert(ids@[k] == old(self).meta.state_machine@.configs[k].id);
                    }
                },
                _ => {},
            }
        }
    }

    /// Takes the leader role: fresh leader bookkeeping with a row per
    /// member except the node itself, each starting one past `last_log_id`
    /// with nothing matched; the node is its own leader and the clock
    /// restarts.
    pub fn become_leader(&mut self, last_log_id: u64, now: i64)
        requires
            old(self).wf(),
            last_log_id < u64::MAX,
        ensures
            final(self).wf(),
            final(self).meta.membership is Leader,
            (match final(self).meta.membership {
                Membership::Leader(lm) => {
                    &&& lm.last_updated == now
                    &&& spec_table_reloaded(
                        old(self).meta.state_machine@.configs,
                        Seq::<(u64, FollowerStatus)>::empty(),
                        lm.followers@,
                        old(self).id,
                        last_log_id,
                    )
                },
                _ => false,
            }),
            final(self).meta.leader_id == old(self).id,
            final(self).meta.term == old(self).meta.term,
            final(self).meta.vote_for == old(self).meta.vote_for,
            final(self).meta.last_checked == now,
            10000 <= final(self).meta.timeout < 15000,
            final(self).meta.logs == old(self).meta.logs,
            final(self).meta.state_machine == old(self).meta.state_machine,
            final(self).meta.commit_index == old(self).meta.commit_index,
            final(self).meta.last_applied == old(self).meta.last_applied,
            final(self).id == old(self).id,
            final(self).options == old(self).options,
    {
        self.meta.membership = Membership::Leader(LeaderMeta::new(now));
        proof {
            match &self.meta.membership {
                Membership::Leader(lm) => {
                    assert(followers_wf(lm.followers@));
                    assert(lm.followers@ =~= Seq::<(u64, FollowerStatus)>::empty());
                },
                _ => {},
            }
        }
        self.reload_leader_meta(last_log_id);
        self.meta.leader_id = self.id;
        self.reset_last_checked(now);
    }

    /// Bootstraps a single-node cluster: the node leads at once.
    pub fn bootstrap(&mut self, now: i64)
        requires
            old(self).wf(),
            old(self).meta.logs@.last_id() < u64::MAX,
        ensures
            final(self).wf(),
            final(self).meta.membership is Leader,
            (match final(self).meta.membership {
                Membership::Leader(lm) => spec_table_reloaded(
                    old(self).meta.state_machine@.configs,
                    Seq::<(u64, FollowerStatus)>::empty(),
                    lm.followers@,
                    old(self).id,
                    old(self).meta.logs@.last_id(),
                ),
                _ => false,
            }),
            final(self).meta.leader_id == old(self).id,
            final(self).meta.term == old(self).meta.term,
            final(self).meta.logs == old(self).meta.logs,
            final(self).meta.state_machine == old(self).meta.state_machine,
            final(self).id == old(self).id,
            final(self).options == old(self).options,
    {
        let (last_log_id, _) = self.meta.logs.last_info();
        self.become_leader(last_log_id, now);
    }

    /// Adds this node's own address to the member set, as startup does
    /// before the sentinel begins; returns whether the address was new.
    pub fn init_self_member(&mut self) -> (added: bool)
        requires
            old(self).wf(),
        ensures
            final(self).wf(),
            final(self).meta.state_machine@.configs == crate::config::spec_add_member(
                old(self).meta.state_machine@.configs,
                old(self).options.address@,
            ),
            added == !has_member(
                old(self).meta.state_machine@.configs,
                crate::hashing::spec_hash_str(old(self).options.address@),
            ),
            final(self).meta == (RaftMeta {
                state_machine: final(self).meta.state_machine,
                ..old(self).meta
            }),
            final(self).meta.state_machine@.subs == old(self).meta.state_machine@.subs,
            final(self).id == old(self).id,
            final(self).options == old(self).options,
    {
        let address = self.options.address.clone();
        let added = self.meta.state_machine.configs.new_member(address);
        proof {
            assert(self.meta.state_machine@.subs =~= old(self).meta.state_machine@.subs);
        }
        added
    }

    /// Absorbs the member list learned while joining a live cluster, then
    /// follows the leader that answered.
    pub fn absorb_members(&mut self, members: &Vec<String>, leader_id: u64, now: i64)
        requires
            old(self).wf(),
        ensures
            final(self).wf(),
            final(self).meta.membership is Follower,
            final(self).meta.leader_id == leader_id,
            final(self).meta.term == 0 || final(self).meta.term == old(self).meta.term,
            final(self).meta.last_checked == now,
            final(self).meta.logs == old(self).meta.logs,
            final(self).meta.state_machine@.configs == crate::config::spec_add_members(
                old(self).meta.state_machine@.configs,
                members@.map_values(|s: String| s@),
            ),
            final(self).meta.state_machine@.subs == old(self).meta.state_machine@.subs,
            final(self).meta.commit_index == old(self).meta.commit_index,
            final(self).meta.last_applied == old(self).meta.last_applied,
            final(self).id == old(self).id,
            final(self).options == old(self).options,
    {
        let ghost addr_views = members@.map_values(|s: String| s@);
        let n = members.len();
        let mut i: usize = 0;
        proof {
            assert(addr_views.subrange(0, 0int) =~= Seq::<Seq<char>>::empty());
        }
        while i < n
            invariant
                old(self).wf(),
                self.wf(),
                i <= n == members@.len(),
                addr_views == members@.map_values(|s: String| s@),
                self.meta.logs == old(self).meta.logs,
                self.meta.term == old(self).meta.term,
                self.meta.membership == old(self).meta.membership,
                self.meta.vote_for == old(self).meta.vote_for,
                self.meta.commit_index == old(self).meta.commit_index,
                self.meta.last_applied == old(self).meta.last_applied,
                self.meta.state_machine@.subs == old(self).meta.state_machine@.subs,
                self.meta.state_machine@.configs == crate::config::spec_add_members(
                    old(self).meta.state_machine@.configs,
                    addr_views.subrange(0, i as int),
                ),
                self.id == old(self).id,
                self.options == old(self).options,
            decreases n - i,
        {
            proof {
                assert(addr_views.subrange(0, i + 1).drop_last() =~= addr_views.subrange(
                    0,
                    i as int,
                ));
                assert(addr_views.subrange(0, i + 1).last() == members@[i as int]@);
            }
            let addr = members[i].clone();
            let ghost subs_before = self.meta.state_machine@.subs;
            self.meta.state_machine.configs.new_member(addr);
            proof {
                assert(self.meta.state_machine@.subs =~= subs_before);
            }
            i = i + 1;
        }
        proof {
            assert(addr_views.subrange(0, n as int) =~= addr_views);
        }
        self.become_follower(0, leader_id, now);
    }

    /// Steps out of the cluster: the node goes offline for good and
    /// releases its registered sub state machines.
    pub fn go_offline(&mut self)
        requires
            old(self).wf(),
        ensures
            final(self).wf(),
            final(self).meta.membership is Offline,
            final(self).meta.state_machine@.subs == Seq::<crate::master::SubView>::empty(),
            final(self).meta.state_machine@.configs == old(self).meta.state_machine@.configs,
            final(self).meta.logs == old(self).meta.logs,
            final(self).meta.term == old(self).meta.term,
            final(self).id == old(self).id,
            final(self).options == old(self).options,
    {
        self.meta.membership = Membership::Offline;
        self.meta.state_machine.clear_subs();
    }
}

/// One entry offered to the store: it attaches exactly when its id is the
/// next free one; a present or detached id changes nothing (overwrite is
/// forbidden).
pub open spec fn spec_append_one(v: LogStoreView, e: LogEntryView) -> LogStoreView {
    if e.id == v.last_id() + 1 && v.last_id() < u64::MAX {
        LogStoreView { first: v.first, base_term: v.base_term, entries: v.entries.push(e) }
    } else {
        v
    }
}

/// A row of offered entries, first to last.
pub open spec fn spec_absorb(v: LogStoreView, es: Seq<LogEntryView>) -> LogStoreView
    decreases es.len(),
{
    if es.len() == 0 {
        v
    } else {
        spec_append_one(spec_absorb(v, es.drop_last()), es.last())
    }
}

/// Entries already stored keep their payloads: absorbing a batch never
/// overwrites a present entry, whatever the batch holds.
pub proof fn lemma_absorb_preserves_stored(v: LogStoreView, es: Seq<LogEntryView>)
    ensures
        spec_absorb(v, es).first == v.first,
        spec_absorb(v, es).base_term == v.base_term,
        spec_absorb(v, es).entries.len() >= v.entries.len(),
        forall|id: u64|
            v.contains_id(id) ==> spec_absorb(v, es).contains_id(id) && spec_absorb(
                v,
                es,
            ).entry_at(id) == v.entry_at(id),
    decreases es.len(),
{
    if es.len() > 0 {
        lemma_absorb_preserves_stored(v, es.drop_last());
    }
}

/// Absorbing a contiguous batch that starts just past a known position
/// keeps the store well formed and lands its newest id at the larger of
/// the old newest id and the batch's last id.
pub proof fn lemma_absorb_contiguous(v: LogStoreView, es: Seq<LogEntryView>, prev: u64)
    requires
        v.wf(),
        prev <= v.last_id(),
        prev + es.len() <= u64::MAX,
        forall|i: int| 0 <= i < es.len() ==> (#[trigger] es[i]).id == prev + 1 + i,
    ensures
        spec_absorb(v, es).wf(),
        spec_absorb(v, es).last_id() >= prev + es.len(),
        spec_absorb(v, es).last_id() == (if v.last_id() >= prev + es.len() {
            v.last_id() as int
        } else {
            prev + es.len()
        }),
    decreases es.len(),
{
    if es.len() > 0 {
        lemma_absorb_contiguous(v, es.drop_last(), prev);
    }
}

/// Whether the consistency check can see `prev`: either the entry stands
/// in the store, or it is the snapshot boundary just below the first
/// retained id.
pub open spec fn spec_prev_known(logs: LogStoreView, prev: u64) -> bool {
    logs.contains_id(prev) || prev + 1 == logs.first
}

/// When the append-entries receiver answers LogMismatch: a positive prev
/// position that is unknown, or known under a different term.
pub open spec fn spec_log_mismatch(logs: LogStoreView, prev: u64, prev_term: u64) -> bool {
    prev > 0 && (!spec_prev_known(logs, prev) || logs.term_at(prev) != prev_term)
}

/// The store after removing `id` and everything greater.
pub open spec fn spec_truncate_from(v: LogStoreView, id: u64) -> LogStoreView {
    LogStoreView {
        first: v.first,
        base_term: v.base_term,
        entries: (if id <= v.first {
            Seq::<LogEntryView>::empty()
        } else if id - v.first <= v.entries.len() {
            v.entries.subrange(0, id - v.first)
        } else {
            v.entries
        }),
    }
}

/// The store after the trimming rule has run once.
pub open spec fn spec_post_trim(v: LogStoreView, last_applied: u64) -> LogStoreView {
    if spec_trim_due(v, last_applied) && v.entries.len() > MAX_LOG_CAPACITY {
        LogStoreView {
            first: (v.first + (v.entries.len() - MAX_LOG_CAPACITY)) as u64,
            base_term: v.entries[v.entries.len() - MAX_LOG_CAPACITY - 1].term,
            entries: v.entries.skip(v.entries.len() - MAX_LOG_CAPACITY as int),
        }
    } else {
        v
    }
}

/// Whether a batch is non-empty and contiguous from just past `prev`:
/// what the replication sender always produces, and what the transport
/// checks on a batch from the network before handing it to the receiver.
pub fn batch_contiguous(prev_log_id: u64, entries: &Vec<LogEntry>) -> (r: bool)
    ensures
        r == (entries@.len() >= 1 && prev_log_id + entries@.len() <= u64::MAX && (forall|
            i: int,
        |
            0 <= i < entries@.len() ==> (#[trigger] entries@[i])@.id == prev_log_id + 1 + i)),
{
    let n = entries.len();
    if n == 0 {
        return false;
    }
    if n as u64 > u64::MAX - prev_log_id {
        return false;
    }
    let mut i: usize = 0;
    while i < n
        invariant
            i <= n == entries@.len(),
            prev_log_id + n <= u64::MAX,
            forall|j: int| 0 <= j < i ==> (#[trigger] entries@[j])@.id == prev_log_id + 1 + j,
        decreases n - i,
    {
        if entries[i].id != prev_log_id + 1 + (i as u64) {
            return false;
        }
        i = i + 1;
    }
    true
}

impl RaftService {
    /// The follower semantics of append-entries: reset the election clock,
    /// adopt a newer term, step a candidate down, check the consistency of
    /// `prev`, insert what is missing (never overwriting), advance the
    /// commit mark to what the leader has committed, and apply. A supplied
    /// batch must be non-empty and contiguous from just past `prev`, as
    /// the data model's dense-id invariant demands: the replication sender
    /// only produces such batches, and a transport validates a batch from
    /// the network with `batch_contiguous` before this call.
    pub fn append_entries(
        &mut self,
        term: u64,
        leader_id: u64,
        prev_log_id: u64,
        prev_log_term: u64,
        entries: Option<Vec<LogEntry>>,
        leader_commit: u64,
        now: i64,
    ) -> (r: (u64, AppendEntriesResult))
        requires
            old(self).wf(),
            (entries matches Some(es) ==> es@.len() >= 1 && prev_log_id + es@.len() <= u64::MAX
                && (forall|i: int|
                0 <= i < es@.len() ==> (#[trigger] es@[i])@.id == prev_log_id + 1 + i)),
        ensures
            final(self).wf(),
            final(self).meta.last_checked == now,
            10000 <= final(self).meta.timeout < 15000,
            r.0 == final(self).meta.term,
            final(self).id == old(self).id,
            final(self).options == old(self).options,
            // a stale sender changes nothing but the clock
            term < old(self).meta.term ==> r.1 == AppendEntriesResult::TermOut(
                old(self).meta.leader_id,
            ) && final(self).meta == (RaftMeta {
                last_checked: final(self).meta.last_checked,
                timeout: final(self).meta.timeout,
                ..old(self).meta
            }),
            // term adoption and the vote's stability within a term
            term >= old(self).meta.term ==> final(self).meta.term == term,
            term > old(self).meta.term ==> (final(self).meta.vote_for is None) && final(self).meta.leader_id == leader_id && (final(self).meta.membership is Follower),
            term == old(self).meta.term ==> final(self).meta.vote_for == old(self).meta.vote_for,
            (term == old(self).meta.term && old(self).meta.membership is Candidate) ==> (final(self).meta.membership is Follower) && final(self).meta.leader_id == leader_id,
            (term == old(self).meta.term && !(old(self).meta.membership is Candidate)) ==> final(self).meta.membership == old(self).meta.membership && final(self).meta.leader_id == old(self).meta.leader_id,
            // when the answer is LogMismatch, and what it leaves behind
            term >= old(self).meta.term ==> (r.1 == AppendEntriesResult::LogMismatch
                <==> spec_log_mismatch(old(self).meta.logs@, prev_log_id, prev_log_term)),
            (term >= old(self).meta.term && spec_log_mismatch(
                old(self).meta.logs@,
                prev_log_id,
                prev_log_term,
            )) ==> {
                &&& (spec_prev_known(old(self).meta.logs@, prev_log_id) ==> final(self).meta.logs@ == spec_truncate_from(old(self).meta.logs@, prev_log_id))
                &&& (!spec_prev_known(old(self).meta.logs@, prev_log_id) ==> final(self).meta.logs@ == old(self).meta.logs@)
                &&& final(self).meta.commit_index == old(self).meta.commit_index
            },
            // when the answer is Accepted, and everything it did
            (term >= old(self).meta.term && !spec_log_mismatch(
                old(self).meta.logs@,
                prev_log_id,
                prev_log_term,
            )) ==> {
                let drained_applied: u64 = if prev_log_id > 0 && old(self).meta.commit_index
                    > old(self).meta.last_applied {
                    old(self).meta.commit_index
                } else {
                    old(self).meta.last_applied
                };
                let drained_master = (if prev_log_id > 0 {
                    spec_apply_upto(
                        old(self).meta.state_machine@,
                        old(self).meta.logs@,
                        old(self).meta.last_applied,
                        old(self).meta.commit_index,
                    )
                } else {
                    old(self).meta.state_machine@
                });
                let absorbed = (match entries {
                    Some(es) => spec_absorb(
                        old(self).meta.logs@,
                        es@.map_values(|e: LogEntry| e@),
                    ),
                    _ => old(self).meta.logs@,
                });
                let last_new: u64 = (match entries {
                    Some(es) => (prev_log_id + es@.len()) as u64,
                    _ => old(self).meta.logs@.last_id(),
                });
                let advance = leader_commit > old(self).meta.commit_index;
                let new_commit: u64 = if advance {
                    if leader_commit < last_new {
                        leader_commit
                    } else {
                        last_new
                    }
                } else {
                    old(self).meta.commit_index
                };
                &&& r.1 == AppendEntriesResult::Accepted
                &&& final(self).meta.logs@ == spec_post_trim(absorbed, drained_applied)
                &&& final(self).meta.commit_index == new_commit
                &&& final(self).meta.last_applied == (if advance && new_commit
                    > drained_applied {
                    new_commit
                } else {
                    drained_applied
                })
                &&& final(self).meta.state_machine@ == (if advance {
                    spec_apply_upto(
                        drained_master,
                        final(self).meta.logs@,
                        drained_applied,
                        new_commit,
                    )
                } else {
                    drained_master
                })
            },
            // the marks stay ordered wherever the sender does not conflict
            // with an already committed position
            (old(self).indexes_ordered() && (spec_log_mismatch(
                old(self).meta.logs@,
                prev_log_id,
                prev_log_term,
            ) && spec_prev_known(old(self).meta.logs@, prev_log_id)
                ==> prev_log_id > old(self).meta.commit_index) && (entries matches Some(es)
                ==> prev_log_id + es@.len() >= old(self).meta.commit_index)) ==> final(self).indexes_ordered(),
    {
        self.reset_last_checked(now);
        let term_ok: bool = if term > self.meta.term {
            self.become_follower(term, leader_id, now);
            true
        } else {
            term >= self.meta.term
        };
        if !term_ok {
            let reply_term = self.meta.term;
            let reply_leader = self.meta.leader_id;
            self.reset_last_checked(now);
            return (reply_term, AppendEntriesResult::TermOut(reply_leader));
        }
        let is_candidate = match &self.meta.membership {
            Membership::Candidate => true,
            _ => false,
        };
        if is_candidate {
            self.become_follower(term, leader_id, now);
        }
        if prev_log_id > 0 {
            self.check_commit();
            let contains_prev = self.meta.logs.contains(prev_log_id);
            let boundary = !contains_prev && prev_log_id < u64::MAX && prev_log_id + 1
                == self.meta.logs.first;
            if !contains_prev && !boundary {
                let reply_term = self.meta.term;
                self.reset_last_checked(now);
                return (reply_term, AppendEntriesResult::LogMismatch);
            }
            let local_term = self.meta.logs.term_of(prev_log_id);
            if local_term != prev_log_term {
                self.meta.logs.truncate_from(prev_log_id);
                let reply_term = self.meta.term;
                self.reset_last_checked(now);
                return (reply_term, AppendEntriesResult::LogMismatch);
            }
        }
        let ghost logs0 = self.meta.logs@;
        let ghost mid = *self;
        let mut last_new: u64 = 0;
        match &entries {
            Some(es) => {
                let n = es.len();
                let mut i: usize = 0;
                while i < n
                    invariant
                        self.wf(),
                        i <= n == es@.len(),
                        self.meta.logs@ == spec_absorb(
                            logs0,
                            es@.map_values(|e: LogEntry| e@).subrange(0, i as int),
                        ),
                        self.meta == (RaftMeta { logs: self.meta.logs, ..mid.meta }),
                        self.id == mid.id,
                        self.options == mid.options,
                    decreases n - i,
                {
                    proof {
                        let views = es@.map_values(|e: LogEntry| e@);
                        assert(views.subrange(0, 0int) =~= Seq::<LogEntryView>::empty());
                        assert(views.subrange(0, i + 1).drop_last() =~= views.subrange(
                            0,
                            i as int,
                        ));
                        assert(views.subrange(0, i + 1).last() == es@[i as int]@);
                    }
                    let e = es[i].clone();
                    self.meta.logs.append(e);
                    i = i + 1;
                }
                proof {
                    let views = es@.map_values(|e: LogEntry| e@);
                    assert(views.subrange(0, 0int) =~= Seq::<LogEntryView>::empty());
                    assert(views.subrange(0, n as int) =~= views);
                }
                last_new = prev_log_id + (n as u64);
            },
            _ => {
                let (last_id, _) = self.meta.logs.last_info();
                last_new = last_id;
            },
        }
        self.logs_post_processing();
        if leader_commit > self.meta.commit_index {
            self.meta.commit_index = if leader_commit < last_new {
                leader_commit
            } else {
                last_new
            };
            self.check_commit();
        }
        let reply_term = self.meta.term;
        self.reset_last_checked(now);
        proof {
            if old(self).indexes_ordered() {
                match entries {
                    Some(es) => {
                        lemma_absorb_contiguous(
                            logs0,
                            es@.map_values(|e: LogEntry| e@),
                            prev_log_id,
                        );
                    },
                    _ => {},
                }
            }
        }
        (reply_term, AppendEntriesResult::Accepted)
    }
}

impl RaftService {
    /// The request-vote receiver: a vote is granted exactly to a candidate
    /// from a newer term, configured as a member, not conflicting with a
    /// vote already cast, and whose log is at least as complete as ours.
    /// The local term itself does not move here.
    pub fn request_vote(
        &mut self,
        term: u64,
        candidate_id: u64,
        last_log_id: u64,
        last_log_term: u64,
    ) -> (r: ((u64, u64), bool))
        requires
            old(self).wf(),
        ensures
            final(self).wf(),
            r.0 == (final(self).meta.term, final(self).meta.leader_id),
            final(self).meta.term == old(self).meta.term,
            final(self).meta.leader_id == old(self).meta.leader_id,
            final(self).meta.logs == old(self).meta.logs,
            final(self).meta.membership == old(self).meta.membership,
            final(self).meta.commit_index == old(self).meta.commit_index,
            final(self).meta.timeout == old(self).meta.timeout,
            final(self).meta.last_checked == old(self).meta.last_checked,
            final(self).id == old(self).id,
            final(self).options == old(self).options,
            // exactly when the vote is granted
            ({
                let drained = (if term > old(self).meta.term {
                    spec_apply_upto(
                        old(self).meta.state_machine@,
                        old(self).meta.logs@,
                        old(self).meta.last_applied,
                        old(self).meta.commit_index,
                    )
                } else {
                    old(self).meta.state_machine@
                });
                r.1 <==> {
                    &&& term > old(self).meta.term
                    &&& has_member(drained.configs, candidate_id)
                    &&& (old(self).meta.vote_for is None || old(self).meta.vote_for == Some(
                        candidate_id,
                    ))
                    &&& last_log_id >= old(self).meta.logs@.last_id()
                    &&& last_log_term >= old(self).meta.logs@.last_term()
                }
            }),
            // the vote is monotone within a term: it moves only to the
            // granted candidate, never away from a cast vote
            final(self).meta.vote_for == (if r.1 {
                Some(candidate_id)
            } else {
                old(self).meta.vote_for
            }),
            // pending commits drain before the vote is judged
            final(self).meta.state_machine@ == (if term > old(self).meta.term {
                spec_apply_upto(
                    old(self).meta.state_machine@,
                    old(self).meta.logs@,
                    old(self).meta.last_applied,
                    old(self).meta.commit_index,
                )
            } else {
                old(self).meta.state_machine@
            }),
            final(self).meta.last_applied == (if term > old(self).meta.term && old(self).meta.commit_index > old(self).meta.last_applied {
                old(self).meta.commit_index
            } else {
                old(self).meta.last_applied
            }),
            old(self).indexes_ordered() ==> final(self).indexes_ordered(),
    {
        let vote_for = self.meta.vote_for;
        let mut vote_granted = false;
        if term > self.meta.term {
            self.check_commit();
            let candidate_valid = self.meta.state_machine.configs.member_existed(candidate_id);
            let vote_ok = match vote_for {
                Option::Some(v) => v == candidate_id,
                _ => true,
            };
            if vote_ok && candidate_valid {
                let (last_id, last_term) = self.meta.logs.last_info();
                if last_log_id >= last_id && last_log_term >= last_term {
                    vote_granted = true;
                }
            }
        }
        if vote_granted {
            self.meta.vote_for = Some(candidate_id);
        }
        ((self.meta.term, self.meta.leader_id), vote_granted)
    }

    /// The install-snapshot receiver: with a current term, drain pending
    /// commits, replace the member set with the image, adopt the included
    /// term, move both marks to the included index and resume the log just
    /// past it. A malformed image or a stale sender changes nothing
    /// lasting.
    pub fn install_snapshot(
        &mut self,
        term: u64,
        leader_id: u64,
        last_included_index: u64,
        last_included_term: u64,
        data: &Vec<u8>,
        now: i64,
    ) -> (r: u64)
        requires
            old(self).wf(),
            last_included_index < u64::MAX,
        ensures
            final(self).wf(),
            r == final(self).meta.term,
            final(self).meta.last_checked == now,
            10000 <= final(self).meta.timeout < 15000,
            final(self).id == old(self).id,
            final(self).options == old(self).options,
            term < old(self).meta.term ==> final(self).meta == (RaftMeta {
                last_checked: final(self).meta.last_checked,
                timeout: final(self).meta.timeout,
                ..old(self).meta
            }),
            term >= old(self).meta.term ==> ({
                let drained = spec_apply_upto(
                    old(self).meta.state_machine@,
                    old(self).meta.logs@,
                    old(self).meta.last_applied,
                    old(self).meta.commit_index,
                );
                match crate::master::spec_master_recovered(drained, data@) {
                    Some(m2) => {
                        &&& final(self).meta.state_machine@ == m2
                        &&& final(self).meta.term == last_included_term
                        &&& final(self).meta.commit_index == last_included_index
                        &&& final(self).meta.last_applied == last_included_index
                        &&& final(self).meta.logs@.first == last_included_index + 1
                        &&& final(self).meta.logs@.base_term == last_included_term
                        &&& final(self).meta.logs@.entries == Seq::<LogEntryView>::empty()
                        &&& final(self).indexes_ordered()
                    },
                    _ => {
                        &&& final(self).meta.state_machine@ == drained
                        &&& final(self).meta.term == term
                        &&& final(self).meta.commit_index == old(self).meta.commit_index
                        &&& final(self).meta.logs@ == old(self).meta.logs@
                    },
                }
            }),
            term > old(self).meta.term ==> (final(self).meta.membership is Follower),
    {
        let term_ok: bool = if term > self.meta.term {
            self.become_follower(term, leader_id, now);
            true
        } else {
            term >= self.meta.term
        };
        if term_ok {
            self.check_commit();
            let rec = self.meta.state_machine.recover(data);
            match rec {
                Ok(()) => {
                    self.meta.logs = LogStore::after_snapshot(
                        last_included_index,
                        last_included_term,
                    );
                    self.meta.term = last_included_term;
                    self.meta.commit_index = last_included_index;
                    self.meta.last_applied = last_included_index;
                },
                _ => {},
            }
        }
        self.reset_last_checked(now);
        self.meta.term
    }

    /// The client query path: a query from a client that has seen a newer
    /// log position than ours is told it fell behind; otherwise the
    /// read-only dispatch answers, stamped with our newest position.
    pub fn c_query(&self, entry: &LogEntry) -> (r: ClientQryResponse)
        requires
            self.wf(),
        ensures
            (r is LeftBehind) <==> (entry.term > self.meta.logs@.last_term() || entry.id
                > self.meta.logs@.last_id()),
            (r matches ClientQryResponse::Success { data, last_log_term, last_log_id } ==> {
                &&& last_log_id == self.meta.logs@.last_id()
                &&& last_log_term == self.meta.logs@.last_term()
                &&& view_exec_result(data) == spec_master_query(
                    self.meta.state_machine@,
                    entry@,
                )
            }),
    {
        let (last_log_id, last_log_term) = self.meta.logs.last_info();
        if entry.term > last_log_term || entry.id > last_log_id {
            ClientQryResponse::LeftBehind
        } else {
            let data = self.meta.state_machine.exec_qry(entry);
            ClientQryResponse::Success { data, last_log_id, last_log_term }
        }
    }
}

/// How many of the reported match positions reach `x`.
pub open spec fn spec_count_ge(s: Seq<u64>, x: u64) -> int
    decreases s.len(),
{
    if s.len() == 0 {
        0
    } else {
        spec_count_ge(s.drop_last(), x) + (if s.last() >= x {
            1int
        } else {
            0int
        })
    }
}

pub proof fn lemma_count_ge_bound(s: Seq<u64>, x: u64)
    ensures
        0 <= spec_count_ge(s, x) <= s.len(),
    decreases s.len(),
{
    if s.len() > 0 {
        lemma_count_ge_bound(s.drop_last(), x);
    }
}

/// Whether the responding peers that have matched `log_id` form a majority
/// of the follower set, under the half test.
pub fn replication_committed(followers: u64, match_indexes: &Vec<u64>, log_id: u64) -> (r: bool)
    requires
        match_indexes@.len() <= followers <= u64::MAX,
    ensures
        r == spec_is_majority(followers, spec_count_ge(match_indexes@, log_id) as u64),
{
    proof {
        lemma_count_ge_bound(match_indexes@, log_id);
    }
    let n = match_indexes.len();
    let mut count: u64 = 0;
    let mut i: usize = 0;
    while i < n
        invariant
            i <= n == match_indexes@.len(),
            match_indexes@.len() <= followers,
            count == spec_count_ge(match_indexes@.subrange(0, i as int), log_id),
            count <= i,
        decreases n - i,
    {
        proof {
            assert(match_indexes@.subrange(0, i + 1).drop_last() =~= match_indexes@.subrange(
                0,
                i as int,
            ));
            assert(match_indexes@.subrange(0, i + 1).last() == match_indexes@[i as int]);
        }
        if match_indexes[i] >= log_id {
            count = count + 1;
        }
        i = i + 1;
    }
    proof {
        assert(match_indexes@.subrange(0, n as int) =~= match_indexes@);
    }
    is_majority(followers, count)
}

/// What the per-follower replication stream does next.
#[derive(Debug)]
pub enum ReplicationStep {
    /// The follower is behind the trimmed log: ship the state image first.
    InstallSnapshot { last_applied: u64, term: u64, data: Vec<u8> },
    /// Send entries (possibly none) with the consistency position.
    Append {
        term: u64,
        leader_id: u64,
        prev_log_id: u64,
        prev_log_term: u64,
        entries: Option<Vec<LogEntry>>,
        leader_commit: u64,
    },
    /// A retry found nothing left to send: stop this stream.
    Stop,
}

/// The members the leader streams to, read off the member row and the
/// follower table: every member that is not the leader itself and has a
/// row, in member order.
pub open spec fn spec_targets(
    configs: Seq<MemberView>,
    followers: Seq<(u64, FollowerStatus)>,
    self_id: u64,
) -> Seq<(u64, Seq<char>)>
    decreases configs.len(),
{
    if configs.len() == 0 {
        Seq::<(u64, Seq<char>)>::empty()
    } else {
        let rest = spec_targets(configs.drop_last(), followers, self_id);
        let m = configs.last();
        if m.id != self_id && (exists|j: int|
            0 <= j < followers.len() && (#[trigger] followers[j]).0 == m.id) {
            rest.push((m.id, m.address))
        } else {
            rest
        }
    }
}

/// The outcome of the local half of a client command.
#[derive(Debug)]
pub enum CommandStart {
    /// This node does not lead; the hint names who might.
    NotLeader(u64),
    /// A membership change: committed locally at once, heartbeats follow.
    Committed(ClientCmdResponse),
    /// An ordinary command: appended, now awaiting majority replication.
    AwaitReplication { new_log_id: u64, new_log_term: u64 },
}

impl RaftService {
    /// Appends a client entry as leader: the entry takes the next id and
    /// the current term, lands in the log, and the trimming rule runs.
    fn leader_append_log(&mut self, entry: &mut LogEntry) -> (r: (u64, u64))
        requires
            old(self).wf(),
            old(self).meta.logs@.last_id() < u64::MAX,
        ensures
            final(self).wf(),
            r.0 == old(self).meta.logs@.last_id() + 1,
            r.1 == old(self).meta.term,
            final(entry)@ == (LogEntryView {
                id: r.0,
                term: r.1,
                sm_id: old(entry)@.sm_id,
                fn_id: old(entry)@.fn_id,
                data: old(entry)@.data,
            }),
            final(self).meta.logs@ == spec_post_trim(
                spec_append_one(old(self).meta.logs@, final(entry)@),
                old(self).meta.last_applied,
            ),
            final(self).meta.logs@.last_id() == old(self).meta.logs@.last_id() + 1,
            final(self).meta == (RaftMeta { logs: final(self).meta.logs, ..old(self).meta }),
            final(self).id == old(self).id,
            final(self).options == old(self).options,
    {
        let (last_log_id, _) = self.meta.logs.last_info();
        let new_log_id = last_log_id + 1;
        let new_log_term = self.meta.term;
        entry.id = new_log_id;
        entry.term = new_log_term;
        let e = entry.clone();
        self.meta.logs.append(e);
        self.logs_post_processing();
        (new_log_id, new_log_term)
    }

    /// Drains pending commits and hands back what the registry returned
    /// for the entry standing at the commit mark itself.
    fn commit_and_capture(&mut self) -> (r: ExecResult)
        requires
            old(self).wf(),
            old(self).meta.last_applied < old(self).meta.commit_index,
        ensures
            final(self).wf(),
            final(self).meta.last_applied == old(self).meta.commit_index,
            final(self).meta.state_machine@ == spec_apply_upto(
                old(self).meta.state_machine@,
                old(self).meta.logs@,
                old(self).meta.last_applied,
                old(self).meta.commit_index,
            ),
            old(self).meta.logs@.contains_id(old(self).meta.commit_index)
                ==> view_exec_result(r) == spec_master_commit(
                spec_apply_upto(
                    old(self).meta.state_machine@,
                    old(self).meta.logs@,
                    old(self).meta.last_applied,
                    (old(self).meta.commit_index - 1) as u64,
                ),
                old(self).meta.logs@.entry_at(old(self).meta.commit_index),
            ).1,
            final(self).meta == (RaftMeta {
                last_applied: final(self).meta.last_applied,
                state_machine: final(self).meta.state_machine,
                ..old(self).meta
            }),
            final(self).id == old(self).id,
            final(self).options == old(self).options,
    {
        let target = self.meta.commit_index;
        self.meta.commit_index = target - 1;
        self.check_commit();
        self.meta.commit_index = target;
        self.meta.last_applied = target;
        proof {
            lemma_apply_upto_snoc(
                old(self).meta.state_machine@,
                old(self).meta.logs@,
                old(self).meta.last_applied,
                target,
            );
        }
        if self.meta.logs.contains(target) {
            let entry = self.meta.logs.entry(target);
            self.meta.state_machine.commit_cmd(&entry)
        } else {
            let out: Vec<u8> = Vec::new();
            Ok(out)
        }
    }

    /// The local half of a client command. A non-leader refuses with a
    /// routing hint. A membership change is appended, committed at once,
    /// applied, and the leader's follower table is reloaded from the new
    /// member set; the caller then forces heartbeats out. Any other
    /// command is appended and waits for majority replication.
    pub fn c_command(&mut self, entry: &mut LogEntry, now: i64) -> (r: CommandStart)
        requires
            old(self).wf(),
            old(self).indexes_ordered(),
            old(self).meta.logs@.last_id() + 1 < u64::MAX,
        ensures
            final(self).wf(),
            final(self).indexes_ordered(),
            final(self).id == old(self).id,
            final(self).options == old(self).options,
            !(old(self).meta.membership is Leader) ==> r == CommandStart::NotLeader(
                old(self).meta.leader_id,
            ) && *final(self) == *old(self),
            (old(self).meta.membership is Leader && old(entry).sm_id != CONFIG_SM_ID) ==> ({
                let new_id = (old(self).meta.logs@.last_id() + 1) as u64;
                &&& r == CommandStart::AwaitReplication {
                    new_log_id: new_id,
                    new_log_term: old(self).meta.term,
                }
                &&& final(self).meta.logs@ == spec_post_trim(
                    spec_append_one(old(self).meta.logs@, final(entry)@),
                    old(self).meta.last_applied,
                )
                &&& final(entry)@ == (LogEntryView {
                    id: new_id,
                    term: old(self).meta.term,
                    sm_id: old(entry)@.sm_id,
                    fn_id: old(entry)@.fn_id,
                    data: old(entry)@.data,
                })
                &&& final(self).meta.commit_index == old(self).meta.commit_index
                &&& final(self).meta.last_applied == old(self).meta.last_applied
                &&& final(self).meta.term == old(self).meta.term
                &&& final(self).meta.vote_for == old(self).meta.vote_for
                &&& final(self).meta.membership == old(self).meta.membership
                &&& final(self).meta.leader_id == old(self).meta.leader_id
                &&& final(self).meta.state_machine == old(self).meta.state_machine
            }),
            (old(self).meta.membership is Leader && old(entry).sm_id == CONFIG_SM_ID) ==> ({
                let new_id = (old(self).meta.logs@.last_id() + 1) as u64;
                &&& final(self).meta.commit_index == new_id
                &&& final(self).meta.last_applied == new_id
                &&& final(self).meta.term == old(self).meta.term
                &&& final(self).meta.vote_for == old(self).meta.vote_for
                &&& final(self).meta.leader_id == old(self).meta.leader_id
                &&& (final(self).meta.membership is Leader)
                &&& (match (old(self).meta.membership, final(self).meta.membership) {
                    (Membership::Leader(l0), Membership::Leader(l1)) => spec_table_reloaded(
                        final(self).meta.state_machine@.configs,
                        l0.followers@,
                        l1.followers@,
                        old(self).id,
                        new_id,
                    ),
                    _ => false,
                })
                &&& final(self).meta.state_machine@ == spec_apply_upto(
                    old(self).meta.state_machine@,
                    final(self).meta.logs@,
                    old(self).meta.last_applied,
                    new_id,
                )
                &&& (r matches CommandStart::Committed(resp) && (
                resp matches ClientCmdResponse::Success {
                    data,
                    last_log_term,
                    last_log_id,
                } && last_log_id == new_id && last_log_term == old(self).meta.term
                    && view_exec_result(data) == spec_master_commit(
                    spec_apply_upto(
                        old(self).meta.state_machine@,
                        final(self).meta.logs@,
                        old(self).meta.last_applied,
                        (new_id - 1) as u64,
                    ),
                    final(self).meta.logs@.entry_at(new_id),
                ).1))
            }),
    {
        let is_leader = match &self.meta.membership {
            Membership::Leader(_) => true,
            _ => false,
        };
        if !is_leader {
            return CommandStart::NotLeader(self.meta.leader_id);
        }
        let (new_log_id, new_log_term) = self.leader_append_log(entry);
        if entry.sm_id == CONFIG_SM_ID {
            self.meta.commit_index = new_log_id;
            let data = self.commit_and_capture();
            self.reload_leader_meta(new_log_id);
            CommandStart::Committed(
                ClientCmdResponse::Success {
                    data,
                    last_log_term: new_log_term,
                    last_log_id: new_log_id,
                },
            )
        } else {
            CommandStart::AwaitReplication { new_log_id, new_log_term }
        }
    }

    /// The conclusion of a client command once replication has spoken: a
    /// majority advances the commit mark, applies, and answers with the
    /// entry's own result; anything less leaves the entry uncommitted and
    /// tells the client to retry.
    pub fn c_command_conclude(
        &mut self,
        new_log_id: u64,
        new_log_term: u64,
        majority: bool,
    ) -> (r: ClientCmdResponse)
        requires
            old(self).wf(),
            old(self).indexes_ordered(),
            old(self).meta.commit_index < new_log_id <= old(self).meta.logs@.last_id(),
            old(self).meta.logs@.contains_id(new_log_id),
        ensures
            final(self).wf(),
            final(self).indexes_ordered(),
            final(self).id == old(self).id,
            final(self).options == old(self).options,
            !majority ==> r == ClientCmdResponse::NotCommitted && *final(self) == *old(self),
            majority ==> ({
                &&& final(self).meta.commit_index == new_log_id
                &&& final(self).meta.last_applied == new_log_id
                &&& final(self).meta.state_machine@ == spec_apply_upto(
                    old(self).meta.state_machine@,
                    old(self).meta.logs@,
                    old(self).meta.last_applied,
                    new_log_id,
                )
                &&& (r matches ClientCmdResponse::Success { data, last_log_term, last_log_id }
                    && last_log_id == new_log_id && last_log_term == new_log_term
                    && view_exec_result(data) == spec_master_commit(
                    spec_apply_upto(
                        old(self).meta.state_machine@,
                        old(self).meta.logs@,
                        old(self).meta.last_applied,
                        (new_log_id - 1) as u64,
                    ),
                    old(self).meta.logs@.entry_at(new_log_id),
                ).1)
            }),
    {
        if majority {
            self.meta.commit_index = new_log_id;
            let data = self.commit_and_capture();
            ClientCmdResponse::Success {
                data,
                last_log_term: new_log_term,
                last_log_id: new_log_id,
            }
        } else {
            ClientCmdResponse::NotCommitted
        }
    }
}

/// Applying a range is applying all but the last id, then the last.
pub proof fn lemma_apply_upto_snoc(m: MasterView, logs: LogStoreView, applied: u64, commit: u64)
    requires
        applied < commit,
    ensures
        spec_apply_upto(m, logs, applied, commit) == spec_apply_one(
            spec_apply_upto(m, logs, applied, (commit - 1) as u64),
            logs,
            commit,
        ),
    decreases commit - applied,
{
    let m1 = spec_apply_one(m, logs, (applied + 1) as u64);
    if applied + 1 == commit {
        assert(spec_apply_upto(m, logs, applied, (commit - 1) as u64) == m);
        assert(spec_apply_upto(m, logs, applied, commit) == spec_apply_upto(
            m1,
            logs,
            (applied + 1) as u64,
            commit,
        ));
    } else {
        lemma_apply_upto_snoc(m1, logs, (applied + 1) as u64, commit);
        assert(spec_apply_upto(m, logs, applied, commit) == spec_apply_upto(
            m1,
            logs,
            (applied + 1) as u64,
            commit,
        ));
        assert(spec_apply_upto(m, logs, applied, (commit - 1) as u64) == spec_apply_upto(
            m1,
            logs,
            (applied + 1) as u64,
            (commit - 1) as u64,
        ));
    }
}

/// What a candidate carries into its election: the term it stands in, the
/// log position it advertises, and the members to canvass.
#[derive(Debug)]
pub struct ElectionBallot {
    pub term: u64,
    pub last_log_id: u64,
    pub last_log_term: u64,
    pub members: Vec<(u64, String)>,
}

impl RaftService {
    /// Stands for election: the term advances by one, the node votes for
    /// itself, becomes candidate, restarts its clock, and canvasses every
    /// member (itself included; its own vote counts as granted).
    pub fn start_election(&mut self, now: i64) -> (r: ElectionBallot)
        requires
            old(self).wf(),
            old(self).meta.term < u64::MAX,
        ensures
            final(self).wf(),
            final(self).meta.term == old(self).meta.term + 1,
            final(self).meta.vote_for == Some(old(self).id),
            final(self).meta.membership is Candidate,
            final(self).meta.last_checked == now,
            10000 <= final(self).meta.timeout < 15000,
            final(self).meta.logs == old(self).meta.logs,
            final(self).meta.state_machine == old(self).meta.state_machine,
            final(self).meta.commit_index == old(self).meta.commit_index,
            final(self).meta.last_applied == old(self).meta.last_applied,
            final(self).meta.leader_id == old(self).meta.leader_id,
            final(self).id == old(self).id,
            final(self).options == old(self).options,
            r.term == final(self).meta.term,
            r.last_log_id == old(self).meta.logs@.last_id(),
            r.last_log_term == old(self).meta.logs@.last_term(),
            r.members@.len() == old(self).meta.state_machine@.configs.len(),
            forall|i: int|
                0 <= i < r.members@.len() ==> (#[trigger] r.members@[i]).0 == old(self).meta.state_machine@.configs[i].id && r.members@[i].1@ == old(self).meta.state_machine@.configs[i].address,
    {
        self.reset_last_checked(now);
        let term = self.meta.term;
        self.alter_term(term + 1);
        self.meta.vote_for = Some(self.id);
        self.reset_last_checked(now);
        self.meta.membership = Membership::Candidate;
        let term = self.meta.term;
        let (last_log_id, last_log_term) = self.meta.logs.last_info();
        let n = self.meta.state_machine.configs.len();
        let mut members: Vec<(u64, String)> = Vec::new();
        let mut i: usize = 0;
        while i < n
            invariant
                i <= n == self.meta.state_machine.configs.members@.len(),
                self.wf(),
                members@.len() == i,
                forall|j: int|
                    0 <= j < i ==> (#[trigger] members@[j]).0
                        == self.meta.state_machine@.configs[j].id && members@[j].1@
                        == self.meta.state_machine@.configs[j].address,
            decreases n - i,
        {
            let m = &self.meta.state_machine.configs.members[i];
            proof {
                assert(self.meta.state_machine@.configs[i as int]
                    == self.meta.state_machine.configs.members@[i as int]@);
            }
            members.push((m.id, m.address.clone()));
            i = i + 1;
        }
        ElectionBallot { term, last_log_id, last_log_term, members }
    }

    /// Tallies one answer during an election. A reply from a newer term
    /// makes the node follow its reporter and ends the election; a grant
    /// is counted and, at a majority under the half test, the node takes
    /// the lead; the ballot is dead as soon as the local term has moved
    /// on. Returns the new granted count and whether the tally is over.
    pub fn process_vote_response(
        &mut self,
        ballot: &ElectionBallot,
        granted_so_far: u64,
        resp: &RequestVoteResponse,
        now: i64,
    ) -> (r: (u64, bool))
        requires
            old(self).wf(),
            ballot.last_log_id < u64::MAX,
            granted_so_far < u64::MAX,
            ballot.members@.len() <= u64::MAX,
        ensures
            final(self).wf(),
            final(self).id == old(self).id,
            final(self).options == old(self).options,
            old(self).meta.term != ballot.term ==> r == (granted_so_far, true) && *final(self)
                == *old(self),
            old(self).meta.term == ballot.term ==> (resp
                matches RequestVoteResponse::TermOut(rt, rl) ==> ({
                &&& r == (granted_so_far, true)
                &&& final(self).meta.membership is Follower
                &&& final(self).meta.term == rt
                &&& final(self).meta.leader_id == rl
            })),
            (old(self).meta.term == ballot.term && resp
                is NotGranted) ==> r == (granted_so_far, false) && *final(self) == *old(self),
            (old(self).meta.term == ballot.term && resp is Granted) ==> ({
                let g = (granted_so_far + 1) as u64;
                &&& r == (
                    g,
                    spec_is_majority(ballot.members@.len() as u64, g),
                )
                &&& (spec_is_majority(ballot.members@.len() as u64, g) ==> (final(self).meta.membership is Leader) && final(self).meta.leader_id == old(self).id
                    && (match final(self).meta.membership {
                    Membership::Leader(lm) => spec_table_reloaded(
                        old(self).meta.state_machine@.configs,
                        Seq::<(u64, FollowerStatus)>::empty(),
                        lm.followers@,
                        old(self).id,
                        ballot.last_log_id,
                    ),
                    _ => false,
                }))
                &&& (!spec_is_majority(ballot.members@.len() as u64, g) ==> *final(self)
                    == *old(self))
                &&& final(self).meta.term == old(self).meta.term
                &&& final(self).meta.vote_for == old(self).meta.vote_for
            }),
    {
        if self.meta.term != ballot.term {
            return (granted_so_far, true);
        }
        match resp {
            RequestVoteResponse::TermOut(remote_term, remote_leader) => {
                self.become_follower(*remote_term, *remote_leader, now);
                (granted_so_far, true)
            },
            RequestVoteResponse::Granted => {
                let granted = granted_so_far + 1;
                if is_majority(ballot.members.len() as u64, granted) {
                    self.become_leader(ballot.last_log_id, now);
                    (granted, true)
                } else {
                    (granted, false)
                }
            },
            RequestVoteResponse::NotGranted => (granted_so_far, false),
        }
    }

    /// Whether heartbeats go out now: a throttled call inside the
    /// heartbeat window is refused unless the caller insists.
    pub fn heartbeat_due(&self, now: i64, no_delay: bool) -> (r: bool)
        ensures
            r == !(self.meta.last_checked + HEARTBEAT_MS > now && !no_delay),
    {
        if no_delay {
            true
        } else {
            ((self.meta.last_checked as i128) + (HEARTBEAT_MS as i128)) <= (now as i128)
        }
    }

    /// The members the leader streams to: every configured member but
    /// itself that has a row in its table, with their addresses, in
    /// member order.
    pub fn heartbeat_targets(&self) -> (r: Vec<(u64, String)>)
        requires
            self.wf(),
            self.meta.membership is Leader,
        ensures
            (match self.meta.membership {
                Membership::Leader(lm) => r@.map_values(|p: (u64, String)| (p.0, p.1@))
                    == spec_targets(
                    self.meta.state_machine@.configs,
                    lm.followers@,
                    self.id,
                ),
                _ => false,
            }),
            forall|i: int|
                0 <= i < r@.len() ==> (#[trigger] r@[i]).0 != self.id && has_member(
                    self.meta.state_machine@.configs,
                    r@[i].0,
                ),
    {
        let n = self.meta.state_machine.configs.len();
        let mut r: Vec<(u64, String)> = Vec::new();
        let mut i: usize = 0;
        while i < n
            invariant
                i <= n == self.meta.state_machine.configs.members@.len(),
                self.wf(),
                self.meta.membership is Leader,
                (match self.meta.membership {
                    Membership::Leader(lm) => r@.map_values(|p: (u64, String)| (p.0, p.1@))
                        == spec_targets(
                        self.meta.state_machine@.configs.subrange(0, i as int),
                        lm.followers@,
                        self.id,
                    ),
                    _ => false,
                }),
                forall|j: int|
                    0 <= j < r@.len() ==> (#[trigger] r@[j]).0 != self.id && has_member(
                        self.meta.state_machine@.configs,
                        r@[j].0,
                    ),
            decreases n - i,
        {
            proof {
                let configs = self.meta.state_machine@.configs;
                assert(configs.subrange(0, i + 1).drop_last() =~= configs.subrange(0, i as int));
                assert(configs.subrange(0, i + 1).last() == configs[i as int]);
            }
            let m_id = self.meta.state_machine.configs.members[i].id;
            proof {
                assert(self.meta.state_machine@.configs[i as int]
                    == self.meta.state_machine.configs.members@[i as int]@);
            }
            if m_id != self.id {
                let k = self.find_follower(m_id);
                let has_row = match &self.meta.membership {
                    Membership::Leader(lm) => k < lm.followers.len(),
                    _ => false,
                };
                if has_row {
                    let addr = self.meta.state_machine.configs.members[i].address.clone();
                    let ghost r0 = r@;
                    r.push((m_id, addr));
                    proof {
                        r0.lemma_push_map_commute(
                            |p: (u64, String)| (p.0, p.1@),
                            r@.last(),
                        );
                        assert(r@ == r0.push(r@.last()));
                    }
                }
            }
            i = i + 1;
        }
        proof {
            assert(self.meta.state_machine@.configs.subrange(0, n as int)
                =~= self.meta.state_machine@.configs);
        }
        r
    }

    /// The leader's record of one follower, when it has one.
    pub fn follower_status(&self, member_id: u64) -> (r: Option<FollowerStatus>)
        requires
            self.meta.membership is Leader,
        ensures
            (match self.meta.membership {
                Membership::Leader(lm) => {
                    &&& ((r is Some) <==> exists|j: int|
                        0 <= j < lm.followers@.len() && (#[trigger] lm.followers@[j]).0
                            == member_id)
                    &&& (r matches Some(st) ==> exists|j: int|
                        0 <= j < lm.followers@.len() && #[trigger] lm.followers@[j] == (
                        member_id, st))
                },
                _ => false,
            }),
    {
        let k = self.find_follower(member_id);
        match &self.meta.membership {
            Membership::Leader(lm) => {
                if k < lm.followers.len() {
                    Some(lm.followers[k].1)
                } else {
                    None
                }
            },
            _ => None,
        }
    }

    /// What the stream to one follower does next, given the next id to
    /// send it: a follower whose next position was trimmed away gets the
    /// state image; otherwise the entries from its next position onward
    /// with the consistency pair, unless a retry has nothing left to send.
    pub fn replication_plan(&self, next_index: u64, is_retry: bool) -> (r: ReplicationStep)
        requires
            self.wf(),
        ensures
            ({
                let v = self.meta.logs@;
                let start: u64 = if next_index < v.first {
                    v.first
                } else {
                    next_index
                };
                let entries_view = v.entries.skip(
                    if next_index <= v.first {
                        0
                    } else if next_index - v.first <= v.entries.len() {
                        next_index - v.first
                    } else {
                        v.entries.len() as int
                    },
                );
                let prev: u64 = if next_index == 0 {
                    0
                } else {
                    (next_index - 1) as u64
                };
                if is_retry && entries_view.len() == 0 {
                    r is Stop
                } else if prev + 1 < v.first {
                    r matches ReplicationStep::InstallSnapshot { last_applied, term, data } && ({
                        &&& last_applied == self.meta.last_applied
                        &&& term == self.meta.term
                        &&& data@ == crate::master::spec_master_image(self.meta.state_machine@)
                    })
                } else {
                    r matches ReplicationStep::Append {
                        term,
                        leader_id,
                        prev_log_id,
                        prev_log_term,
                        entries,
                        leader_commit,
                    } && ({
                        &&& term == self.meta.term
                        &&& leader_id == self.meta.leader_id
                        &&& prev_log_id == prev
                        &&& prev_log_term == (if v.contains_id(prev) || prev + 1 == v.first {
                            v.term_at(prev)
                        } else {
                            0u64
                        })
                        &&& leader_commit == self.meta.commit_index
                        &&& (entries_view.len() == 0 ==> entries is None)
                        &&& (entries_view.len() > 0 ==> (entries matches Some(es) && es@.map_values(
                            |e: LogEntry| e@,
                        ) == entries_view))
                    })
                }
            }),
    {
        let entries_vec = self.meta.logs.range_from(next_index);
        let prev: u64 = if next_index == 0 {
            0
        } else {
            next_index - 1
        };
        if is_retry && entries_vec.len() == 0 {
            return ReplicationStep::Stop;
        }
        if prev < u64::MAX && prev + 1 < self.meta.logs.first {
            let data = self.meta.state_machine.snapshot();
            return ReplicationStep::InstallSnapshot {
                last_applied: self.meta.last_applied,
                term: self.meta.term,
                data,
            };
        }
        let known = self.meta.logs.contains(prev) || (prev < u64::MAX && prev + 1
            == self.meta.logs.first);
        let prev_log_term: u64 = if known {
            self.meta.logs.term_of(prev)
        } else {
            0
        };
        let entries: Option<Vec<LogEntry>> = if entries_vec.len() == 0 {
            None
        } else {
            Some(entries_vec)
        };
        ReplicationStep::Append {
            term: self.meta.term,
            leader_id: self.meta.leader_id,
            prev_log_id: prev,
            prev_log_term,
            entries,
            leader_commit: self.meta.commit_index,
        }
    }

    /// Updates the follower's row from one append reply: acceptance moves
    /// both positions past what was sent; a mismatch backs the next
    /// position off by one and asks for a retry; a newer term ends the
    /// stream for the next heartbeat to sort out.
    pub fn replication_result(
        &mut self,
        member_id: u64,
        sent_last: Option<u64>,
        result: &AppendEntriesResult,
    ) -> (cont: bool)
        requires
            old(self).wf(),
            old(self).meta.membership is Leader,
            (sent_last matches Some(l) ==> l < u64::MAX),
        ensures
            final(self).wf(),
            final(self).meta.membership is Leader,
            cont == (result is LogMismatch),
            final(self).meta == (RaftMeta {
                membership: final(self).meta.membership,
                ..old(self).meta
            }),
            final(self).id == old(self).id,
            final(self).options == old(self).options,
            (match (old(self).meta.membership, final(self).meta.membership) {
                (Membership::Leader(l0), Membership::Leader(l1)) => {
                    &&& l1.followers@.len() == l0.followers@.len()
                    &&& l1.last_updated == l0.last_updated
                    &&& forall|j: int|
                        0 <= j < l0.followers@.len() && (#[trigger] l0.followers@[j]).0
                            != member_id ==> l1.followers@[j] == l0.followers@[j]
                    &&& forall|j: int|
                        0 <= j < l0.followers@.len() && (#[trigger] l0.followers@[j]).0
                            == member_id ==> l1.followers@[j] == (
                        member_id,
                        (match result {
                            AppendEntriesResult::Accepted => (match sent_last {
                                Some(l) => FollowerStatus {
                                    next_index: (l + 1) as u64,
                                    match_index: l,
                                },
                                _ => l0.followers@[j].1,
                            }),
                            AppendEntriesResult::LogMismatch => FollowerStatus {
                                next_index: (if l0.followers@[j].1.next_index > 0 {
                                    (l0.followers@[j].1.next_index - 1) as u64
                                } else {
                                    0u64
                                }),
                                match_index: l0.followers@[j].1.match_index,
                            },
                            AppendEntriesResult::TermOut(_) => l0.followers@[j].1,
                        }),
                        )
                },
                _ => false,
            }),
    {
        let k = self.find_follower(member_id);
        match &mut self.meta.membership {
            Membership::Leader(lm) => {
                if k < lm.followers.len() {
                    let row = lm.followers[k].1;
                    match result {
                        AppendEntriesResult::Accepted => {
                            match sent_last {
                                Some(l) => {
                                    lm.followers.set(
                                        k,
                                        (
                                            member_id,
                                            FollowerStatus {
                                                next_index: l + 1,
                                                match_index: l,
                                            },
                                        ),
                                    );
                                },
                                _ => {},
                            }
                        },
                        AppendEntriesResult::LogMismatch => {
                            let nx = if row.next_index > 0 {
                                row.next_index - 1
                            } else {
                                0
                            };
                            lm.followers.set(
                                k,
                                (
                                    member_id,
                                    FollowerStatus {
                                        next_index: nx,
                                        match_index: row.match_index,
                                    },
                                ),
                            );
                        },
                        AppendEntriesResult::TermOut(_) => {},
                    }
                }
            },
            _ => {},
        }
        match result {
            AppendEntriesResult::LogMismatch => true,
            _ => false,
        }
    }

    /// After the state image went over: the follower stands at the
    /// leader's applied mark, and the stream resumes just past it.
    pub fn replication_installed(&mut self, member_id: u64)
        requires
            old(self).wf(),
            old(self).meta.membership is Leader,
            old(self).meta.last_applied < u64::MAX,
        ensures
            final(self).wf(),
            final(self).meta.membership is Leader,
            final(self).meta == (RaftMeta {
                membership: final(self).meta.membership,
                ..old(self).meta
            }),
            final(self).id == old(self).id,
            final(self).options == old(self).options,
            (match (old(self).meta.membership, final(self).meta.membership) {
                (Membership::Leader(l0), Membership::Leader(l1)) => {
                    &&& l1.followers@.len() == l0.followers@.len()
                    &&& forall|j: int|
                        0 <= j < l0.followers@.len() && (#[trigger] l0.followers@[j]).0
                            != member_id ==> l1.followers@[j] == l0.followers@[j]
                    &&& forall|j: int|
                        0 <= j < l0.followers@.len() && (#[trigger] l0.followers@[j]).0
                            == member_id ==> l1.followers@[j] == (
                        member_id,
                        FollowerStatus {
                            next_index: (old(self).meta.last_applied + 1) as u64,
                            match_index: old(self).meta.last_applied,
                        },
                        )
                },
                _ => false,
            }),
    {
        let k = self.find_follower(member_id);
        let applied = self.meta.last_applied;
        match &mut self.meta.membership {
            Membership::Leader(lm) => {
                if k < lm.followers.len() {
                    lm.followers.set(
                        k,
                        (
                            member_id,
                            FollowerStatus { next_index: applied + 1, match_index: applied },
                        ),
                    );
                }
            },
            _ => {},
        }
    }

    /// Rebuilds a node's durable state from the two files it keeps: the
    /// checkpoint gives the term and marks and the member-set image, the
    /// log file gives the retained entries. It succeeds exactly when the
    /// checkpoint parses, the log image parses to a well-formed store and
    /// the member-set image recovers; nothing changes otherwise.
    pub fn recover_from_storage(
        &mut self,
        snapshot_bytes: &Vec<u8>,
        log_bytes: &Vec<u8>,
    ) -> (r: Result<(), ExecError>)
        requires
            old(self).wf(),
        ensures
            final(self).wf(),
            final(self).id == old(self).id,
            final(self).options == old(self).options,
            (r is Ok) <==> (match sdec_snapshot(snapshot_bytes@) {
                Some(sv) => (match sdec_log_image(log_bytes@) {
                    Some(lv) => lv.wf() && (crate::master::spec_master_recovered(
                        old(self).meta.state_machine@,
                        sv.snapshot,
                    ) is Some),
                    _ => false,
                }),
                _ => false,
            }),
            r is Err ==> final(self).meta.term == old(self).meta.term && final(self).meta.commit_index == old(self).meta.commit_index && final(self).meta.last_applied == old(self).meta.last_applied && final(self).meta.logs == old(
                self,
            ).meta.logs && final(self).meta.state_machine@ == old(self).meta.state_machine@,
            r matches Ok(()) ==> (match sdec_snapshot(snapshot_bytes@) {
                Some(sv) => {
                    &&& final(self).meta.term == sv.term
                    &&& final(self).meta.commit_index == sv.commit_index
                    &&& final(self).meta.last_applied == sv.last_applied
                    &&& crate::master::spec_master_recovered(
                        old(self).meta.state_machine@,
                        sv.snapshot,
                    ) == Some(final(self).meta.state_machine@)
                    &&& sdec_log_image(log_bytes@) == Some(final(self).meta.logs@)
                },
                _ => false,
            }),
    {
        let parsed_snapshot = SnapshotEntity::from_bytes(snapshot_bytes);
        let snap = match parsed_snapshot {
            Some(s) => s,
            _ => {
                return Err(ExecError::DecodeFailed);
            },
        };
        let parsed_log = LogStore::from_bytes(log_bytes);
        let logs = match parsed_log {
            Some(l) => l,
            _ => {
                return Err(ExecError::DecodeFailed);
            },
        };
        let rec = self.meta.state_machine.recover(&snap.snapshot);
        match rec {
            Ok(()) => {
                self.meta.term = snap.term;
                self.meta.commit_index = snap.commit_index;
                self.meta.last_applied = snap.last_applied;
                self.meta.logs = logs;
                Ok(())
            },
            _ => Err(ExecError::DecodeFailed),
        }
    }
}

} // verus!
