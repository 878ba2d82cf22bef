//! The heartbeat/liveness service: a transient per-member ping tracker that
//! the leader sweeps once a second, and the replicated membership sub state
//! machine it drives through the consensus log. Groups partition members
//! into named sets; an id may belong to many groups.
use crate::codec::{
    dec_id_list, dec_str, dec_u64, enc_id_list, enc_u64, sdec_id_list, sdec_str, sdec_u64,
    spec_enc_id_list, spec_enc_u64,
};
use crate::hashing::{hash_str, spec_hash_str};
use crate::master::{ExecError, ExecResult, ExecResultView};
use crate::seqs::{
    contains_u64, dedup_u64, find_by_key, find_u64, find_u64_index, lemma_find_by_key_char,
    spec_dedup,
};
use vstd::prelude::*;

verus! {

/// The id under which the membership service registers its sub state
/// machine.
pub const DEFAULT_SERVICE_ID: u64 = 0x4d454d4253485042;

/// A member is considered dead after this many milliseconds without a ping
/// (ten 500 ms heartbeats).
pub const MAX_TIMEOUT: i64 = 5000;

/// Command and query selectors of the membership sub state machine.
pub const FN_HB_ONLINE_CHANGED: u64 = 1;

pub const FN_JOIN: u64 = 2;

pub const FN_LEAVE: u64 = 3;

pub const FN_MEMBERS: u64 = 4;

pub const FN_LEADER: u64 = 5;

pub const FN_GROUP_MEMBERS: u64 = 6;

pub const FN_ALL_MEMBERS: u64 = 7;

/// Liveness record of one monitored member.
#[derive(Debug, Clone, Copy, PartialEq, Eq, Structural)]
pub struct HBStatus {
    pub alive: bool,
    pub last_updated: i64,
}

/// Whether a record counts as alive at `now`.
pub open spec fn spec_alive(st: HBStatus, now: i64) -> bool {
    now - st.last_updated < MAX_TIMEOUT
}

pub open spec fn status_key() -> spec_fn((u64, HBStatus)) -> u64 {
    |p: (u64, HBStatus)| p.0
}

/// What a ping does: refresh the member's timestamp, leaving its alive flag
/// for the sweeper to decide; a first ping starts the record as dead.
pub open spec fn spec_ping(s: Seq<(u64, HBStatus)>, id: u64, now: i64) -> Seq<(u64, HBStatus)> {
    let i = find_by_key(s, status_key(), id);
    if i < s.len() {
        s.update(i, (id, HBStatus { alive: s[i].1.alive, last_updated: now }))
    } else {
        s.push((id, HBStatus { alive: false, last_updated: now }))
    }
}

/// Every record with its alive flag recomputed at `now`.
pub open spec fn spec_swept(s: Seq<(u64, HBStatus)>, now: i64) -> Seq<(u64, HBStatus)> {
    s.map_values(
        |p: (u64, HBStatus)| (p.0, HBStatus { alive: spec_alive(p.1, now), last_updated: p.1.last_updated }),
    )
}

/// The ids whose alive flag flips to `to_alive` at `now`, in record order.
pub open spec fn spec_flipped(s: Seq<(u64, HBStatus)>, now: i64, to_alive: bool) -> Seq<u64>
    decreases s.len(),
{
    if s.len() == 0 {
        Seq::<u64>::empty()
    } else {
        let rest = spec_flipped(s.drop_last(), now, to_alive);
        let p = s.last();
        if p.1.alive != spec_alive(p.1, now) && spec_alive(p.1, now) == to_alive {
            rest.push(p.0)
        } else {
            rest
        }
    }
}

/// The transient ping tracker: one record per monitored member id.
pub struct HeartbeatState {
    pub status: Vec<(u64, HBStatus)>,
}

impl View for HeartbeatState {
    type V = Seq<(u64, HBStatus)>;

    open spec fn view(&self) -> Seq<(u64, HBStatus)> {
        self.status@
    }
}

impl HeartbeatState {
    pub open spec fn wf(self) -> bool {
        forall|i: int, j: int|
            0 <= i < j < self@.len() ==> (#[trigger] self@[i]).0 != (#[trigger] self@[j]).0
    }

    pub fn new() -> (r: HeartbeatState)
        ensures
            r.wf(),
            r@ == Seq::<(u64, HBStatus)>::empty(),
    {
        HeartbeatState { status: Vec::new() }
    }

    fn find(&self, id: u64) -> (r: usize)
        requires
            self.wf(),
        ensures
            r == find_by_key(self@, status_key(), id),
            r <= self@.len(),
            r < self@.len() ==> self@[r as int].0 == id,
            r == self@.len() ==> forall|j: int| 0 <= j < self@.len() ==> (#[trigger] self@[j]).0
                != id,
    {
        let n = self.status.len();
        let mut i: usize = 0;
        while i < n
            invariant
                i <= n == self@.len(),
                forall|j: int| 0 <= j < i ==> (#[trigger] self@[j]).0 != id,
            decreases n - i,
        {
            if self.status[i].0 == id {
                proof {
                    lemma_find_by_key_char(self@, status_key(), id, i as int);
                }
                return i;
            }
            i = i + 1;
        }
        proof {
            lemma_find_by_key_char(self@, status_key(), id, n as int);
        }
        n
    }

    /// Records a ping from `id`: only the timestamp moves; the watcher
    /// decides alive or dead on its own tick.
    pub fn ping(&mut self, id: u64, now: i64)
        requires
            old(self).wf(),
        ensures
            final(self).wf(),
            final(self)@ == spec_ping(old(self)@, id, now),
    {
        let i = self.find(id);
        if i < self.status.len() {
            let alive = self.status[i].1.alive;
            self.status.set(i, (id, HBStatus { alive, last_updated: now }));
        } else {
            self.status.push((id, HBStatus { alive: false, last_updated: now }));
        }
    }

    /// One watcher tick: recomputes every alive flag at `now` and reports
    /// the members that came back and the members that fell silent.
    pub fn liveness_sweep(&mut self, now: i64) -> (r: (Vec<u64>, Vec<u64>))
        requires
            old(self).wf(),
        ensures
            final(self).wf(),
            final(self)@ == spec_swept(old(self)@, now),
            r.0@ == spec_flipped(old(self)@, now, true),
            r.1@ == spec_flipped(old(self)@, now, false),
    {
        let ghost s0 = self@;
        let n = self.status.len();
        let mut online: Vec<u64> = Vec::new();
        let mut offline: Vec<u64> = Vec::new();
        let mut i: usize = 0;
        proof {
            assert(s0.subrange(0, 0int) =~= Seq::<(u64, HBStatus)>::empty());
            assert(self@.subrange(0, 0int) =~= spec_swept(s0, now).subrange(0, 0int));
        }
        while i < n
            invariant
                i <= n == self@.len(),
                self@.len() == s0.len(),
                self@.subrange(i as int, n as int) == s0.subrange(i as int, n as int),
                self@.subrange(0, i as int) == spec_swept(s0, now).subrange(0, i as int),
                online@ == spec_flipped(s0.subrange(0, i as int), now, true),
                offline@ == spec_flipped(s0.subrange(0, i as int), now, false),
            decreases n - i,
    {
            let (id, st) = self.status[i];
            proof {
                assert(self@.subrange(i as int, n as int)[0] == s0.subrange(
                    i as int,
                    n as int,
                )[0]);
                assert(self@[i as int] == s0[i as int]);
            }
            let was_alive = st.alive;
            let is_alive = ((now as i128) - (st.last_updated as i128)) < (MAX_TIMEOUT as i128);
            if was_alive && !is_alive {
                offline.push(id);
            }
            if !was_alive && is_alive {
                online.push(id);
            }
            let ghost before = self@;
            self.status.set(i, (id, HBStatus { alive: is_alive, last_updated: st.last_updated }));
            proof {
                assert(s0.subrange(0, i + 1).drop_last() =~= s0.subrange(0, i as int));
                assert(s0.subrange(0, i + 1).last() == s0[i as int]);
                assert(self@.subrange(0, i + 1) =~= spec_swept(s0, now).subrange(0, i + 1));
                assert(self@.subrange(i + 1, n as int) =~= before.subrange(i + 1, n as int));
                assert forall|j: int|
                    0 <= j < n - (i + 1) implies #[trigger] before.subrange(i + 1, n as int)[j]
                    == s0.subrange(i + 1, n as int)[j] by {
                    assert(before.subrange(i as int, n as int)[j + 1] == s0.subrange(
                        i as int,
                        n as int,
                    )[j + 1]);
                    assert(before.subrange(i + 1, n as int)[j] == before[i + 1 + j]);
                    assert(s0.subrange(i + 1, n as int)[j] == s0[i + 1 + j]);
                }
                assert(before.subrange(i + 1, n as int) =~= s0.subrange(i + 1, n as int));
            }
            i = i + 1;
        }
        proof {
            assert(self@.subrange(0, n as int) =~= self@);
            assert(spec_swept(s0, now).subrange(0, n as int) =~= spec_swept(s0, now));
            assert(s0.subrange(0, n as int) =~= s0);
        }
        (online, offline)
    }
}

/// One named group of member ids.
#[derive(Debug)]
pub struct MemberGroup {
    pub name: String,
    pub id: u64,
    pub members: Vec<u64>,
}

/// The mathematical image of a group.
pub struct GroupView {
    pub name: Seq<char>,
    pub id: u64,
    pub members: Seq<u64>,
}

impl View for MemberGroup {
    type V = GroupView;

    open spec fn view(&self) -> GroupView {
        GroupView { name: self.name@, id: self.id, members: self.members@ }
    }
}

pub open spec fn group_views(s: Seq<MemberGroup>) -> Seq<GroupView> {
    s.map_values(|g: MemberGroup| g@)
}

pub open spec fn group_key() -> spec_fn(GroupView) -> u64 {
    |g: GroupView| g.id
}

pub open spec fn flag_key() -> spec_fn((u64, bool)) -> u64 {
    |p: (u64, bool)| p.0
}

/// The mathematical image of the membership sub state machine.
pub struct MembershipView {
    pub groups: Seq<GroupView>,
    pub statuses: Seq<(u64, bool)>,
}

/// Marks `id` alive or dead in the replicated flags, first ping creating
/// the record.
pub open spec fn spec_set_alive(s: Seq<(u64, bool)>, id: u64, alive: bool) -> Seq<(u64, bool)> {
    let i = find_by_key(s, flag_key(), id);
    if i < s.len() {
        s.update(i, (id, alive))
    } else {
        s.push((id, alive))
    }
}

/// Applies one liveness verdict to every id in the row, first to last.
pub open spec fn spec_apply_alive(s: Seq<(u64, bool)>, ids: Seq<u64>, alive: bool) -> Seq<
    (u64, bool),
>
    decreases ids.len(),
{
    if ids.len() == 0 {
        s
    } else {
        spec_set_alive(spec_apply_alive(s, ids.drop_last(), alive), ids.last(), alive)
    }
}

/// Adds `member` to the group `gid`, creating the group (with an empty
/// name) when it does not exist; adding a present member changes nothing.
pub open spec fn spec_join_group(gs: Seq<GroupView>, gid: u64, member: u64) -> Seq<GroupView> {
    let i = find_by_key(gs, group_key(), gid);
    if i < gs.len() {
        if gs[i].members.contains(member) {
            gs
        } else {
            gs.update(
                i,
                GroupView { name: gs[i].name, id: gs[i].id, members: gs[i].members.push(member) },
            )
        }
    } else {
        gs.push(GroupView { name: Seq::<char>::empty(), id: gid, members: seq![member] })
    }
}

/// Removes `member` from the group `gid` when both exist; the group stays,
/// possibly empty.
pub open spec fn spec_leave_group(gs: Seq<GroupView>, gid: u64, member: u64) -> Seq<GroupView> {
    let i = find_by_key(gs, group_key(), gid);
    if i < gs.len() {
        let ms = gs[i].members;
        let k = find_u64(ms, member);
        if k < ms.len() {
            gs.update(
                i,
                GroupView {
                    name: gs[i].name,
                    id: gs[i].id,
                    members: ms.subrange(0, k) + ms.subrange(k + 1, ms.len() as int),
                },
            )
        } else {
            gs
        }
    } else {
        gs
    }
}

/// The member ids of the group `gid`, empty when there is no such group.
pub open spec fn spec_group_members(gs: Seq<GroupView>, gid: u64) -> Seq<u64> {
    let i = find_by_key(gs, group_key(), gid);
    if i < gs.len() {
        gs[i].members
    } else {
        Seq::<u64>::empty()
    }
}

/// The deterministic head of the group: its first member, 0 when none.
pub open spec fn spec_group_leader(gs: Seq<GroupView>, gid: u64) -> u64 {
    let ms = spec_group_members(gs, gid);
    if ms.len() > 0 {
        ms[0]
    } else {
        0
    }
}

/// Every group's members, group after group, duplicates kept.
pub open spec fn spec_group_concat(gs: Seq<GroupView>) -> Seq<u64>
    decreases gs.len(),
{
    if gs.len() == 0 {
        Seq::<u64>::empty()
    } else {
        spec_group_concat(gs.drop_last()) + gs.last().members
    }
}

/// The replicated membership sub state machine: named groups of member ids
/// and the liveness flags the leader's sweeps have committed.
#[derive(Debug)]
pub struct Membership {
    pub groups: Vec<MemberGroup>,
    pub statuses: Vec<(u64, bool)>,
}

impl View for Membership {
    type V = MembershipView;

    open spec fn view(&self) -> MembershipView {
        MembershipView { groups: group_views(self.groups@), statuses: self.statuses@ }
    }
}

/// What a committed membership command does to the state and returns.
pub open spec fn spec_membership_commit(v: MembershipView, fn_id: u64, data: Seq<u8>) -> (
    MembershipView,
    ExecResultView,
) {
    if fn_id == FN_HB_ONLINE_CHANGED {
        match sdec_id_list(data, 0) {
            Some((online, p1)) => match sdec_id_list(data, p1) {
                Some((offline, p2)) => {
                    if p2 == data.len() {
                        (
                            MembershipView {
                                groups: v.groups,
                                statuses: spec_apply_alive(
                                    spec_apply_alive(v.statuses, online, true),
                                    offline,
                                    false,
                                ),
                            },
                            Ok(Seq::<u8>::empty()),
                        )
                    } else {
                        (v, Err(ExecError::DecodeFailed))
                    }
                },
                _ => (v, Err(ExecError::DecodeFailed)),
            },
            _ => (v, Err(ExecError::DecodeFailed)),
        }
    } else if fn_id == FN_JOIN || fn_id == FN_LEAVE {
        match sdec_u64(data, 0) {
            Some((gid, p1)) => match sdec_str(data, p1) {
                Some((addr, p2)) => {
                    if p2 == data.len() {
                        let member = spec_hash_str(addr);
                        let groups = if fn_id == FN_JOIN {
                            spec_join_group(v.groups, gid, member)
                        } else {
                            spec_leave_group(v.groups, gid, member)
                        };
                        (
                            MembershipView { groups, statuses: v.statuses },
                            Ok(Seq::<u8>::empty()),
                        )
                    } else {
                        (v, Err(ExecError::DecodeFailed))
                    }
                },
                _ => (v, Err(ExecError::DecodeFailed)),
            },
            _ => (v, Err(ExecError::DecodeFailed)),
        }
    } else {
        (v, Err(ExecError::UnknownFunction))
    }
}

/// What a membership query returns; it never changes the state.
pub open spec fn spec_membership_query(v: MembershipView, fn_id: u64, data: Seq<u8>) -> ExecResultView {
    if fn_id == FN_MEMBERS || fn_id == FN_GROUP_MEMBERS {
        match sdec_u64(data, 0) {
            Some((gid, p1)) => {
                if p1 == data.len() {
                    Ok(spec_enc_id_list(spec_group_members(v.groups, gid)))
                } else {
                    Err(ExecError::DecodeFailed)
                }
            },
            _ => Err(ExecError::DecodeFailed),
        }
    } else if fn_id == FN_LEADER {
        match sdec_u64(data, 0) {
            Some((gid, p1)) => {
                if p1 == data.len() {
                    Ok(spec_enc_u64(spec_group_leader(v.groups, gid)))
                } else {
                    Err(ExecError::DecodeFailed)
                }
            },
            _ => Err(ExecError::DecodeFailed),
        }
    } else if fn_id == FN_ALL_MEMBERS {
        if data.len() == 0 {
            Ok(spec_enc_id_list(spec_dedup(spec_group_concat(v.groups))))
        } else {
            Err(ExecError::DecodeFailed)
        }
    } else {
        Err(ExecError::UnknownFunction)
    }
}

impl Membership {
    pub fn new() -> (r: Membership)
        ensures
            r@.groups == Seq::<GroupView>::empty(),
            r@.statuses == Seq::<(u64, bool)>::empty(),
    {
        let r = Membership { groups: Vec::new(), statuses: Vec::new() };
        proof {
            assert(r@.groups =~= Seq::<GroupView>::empty());
        }
        r
    }

    /// The sub state machine's own id.
    pub fn id(&self) -> (r: u64)
        ensures
            r == DEFAULT_SERVICE_ID,
    {
        DEFAULT_SERVICE_ID
    }

    fn find_group(&self, gid: u64) -> (r: usize)
        ensures
            r == find_by_key(self@.groups, group_key(), gid),
            r <= self@.groups.len(),
            r < self@.groups.len() ==> self@.groups[r as int].id == gid,
    {
        let n = self.groups.len();
        let mut i: usize = 0;
        while i < n
            invariant
                i <= n == self@.groups.len(),
                forall|j: int| 0 <= j < i ==> (#[trigger] self@.groups[j]).id != gid,
            decreases n - i,
        {
            if self.groups[i].id == gid {
                proof {
                    lemma_find_by_key_char(self@.groups, group_key(), gid, i as int);
                }
                return i;
            }
            i = i + 1;
        }
        proof {
            lemma_find_by_key_char(self@.groups, group_key(), gid, n as int);
        }
        n
    }

    fn find_flag(&self, id: u64) -> (r: usize)
        ensures
            r == find_by_key(self@.statuses, flag_key(), id),
            r <= self@.statuses.len(),
            r < self@.statuses.len() ==> self@.statuses[r as int].0 == id,
    {
        let n = self.statuses.len();
        let mut i: usize = 0;
        while i < n
            invariant
                i <= n == self@.statuses.len(),
                forall|j: int| 0 <= j < i ==> (#[trigger] self@.statuses[j]).0 != id,
            decreases n - i,
        {
            if self.statuses[i].0 == id {
                proof {
                    lemma_find_by_key_char(self@.statuses, flag_key(), id, i as int);
                }
                return i;
            }
            i = i + 1;
        }
        proof {
            lemma_find_by_key_char(self@.statuses, flag_key(), id, n as int);
        }
        n
    }

    fn set_alive(&mut self, id: u64, alive: bool)
        ensures
            final(self)@.groups == old(self)@.groups,
            final(self)@.statuses == spec_set_alive(old(self)@.statuses, id, alive),
    {
        let i = self.find_flag(id);
        if i < self.statuses.len() {
            self.statuses.set(i, (id, alive));
        } else {
            self.statuses.push((id, alive));
        }
    }

    fn apply_alive(&mut self, ids: &Vec<u64>, alive: bool)
        ensures
            final(self)@.groups == old(self)@.groups,
            final(self)@.statuses == spec_apply_alive(old(self)@.statuses, ids@, alive),
    {
        let ghost s0 = self@.statuses;
        let n = ids.len();
        let mut i: usize = 0;
        while i < n
            invariant
                i <= n == ids@.len(),
                self@.groups == old(self)@.groups,
                self@.statuses == spec_apply_alive(s0, ids@.subrange(0, i as int), alive),
            decreases n - i,
        {
            proof {
                assert(spec_apply_alive(s0, ids@.subrange(0, 0int), alive) == s0);
                assert(ids@.subrange(0, i + 1).drop_last() =~= ids@.subrange(0, i as int));
                assert(ids@.subrange(0, i + 1).last() == ids@[i as int]);
            }
            self.set_alive(ids[i], alive);
            i = i + 1;
        }
        proof {
            assert(spec_apply_alive(s0, ids@.subrange(0, 0int), alive) == s0);
            assert(ids@.subrange(0, n as int) =~= ids@);
        }
    }

    /// Commits one liveness sweep: the listed members come online and go
    /// offline in the replicated flags.
    pub fn hb_online_changed(&mut self, online: &Vec<u64>, offline: &Vec<u64>)
        ensures
            final(self)@.groups == old(self)@.groups,
            final(self)@.statuses == spec_apply_alive(
                spec_apply_alive(old(self)@.statuses, online@, true),
                offline@,
                false,
            ),
    {
        self.apply_alive(online, true);
        self.apply_alive(offline, false);
    }

    /// Adds the member with this address to the group, creating the group
    /// when needed; a member already present is left alone.
    pub fn join(&mut self, group: u64, address: &String)
        ensures
            final(self)@.statuses == old(self)@.statuses,
            final(self)@.groups == spec_join_group(
                old(self)@.groups,
                group,
                spec_hash_str(address@),
            ),
    {
        let member = hash_str(address.as_str());
        let i = self.find_group(group);
        if i < self.groups.len() {
            let g = vstd::std_specs::vec::vec_index_mut(&mut self.groups, i);
            if !contains_u64(&g.members, member) {
                g.members.push(member);
                proof {
                    assert(self@.groups =~= spec_join_group(
                        old(self)@.groups,
                        group,
                        spec_hash_str(address@),
                    ));
                }
            } else {
                proof {
                    assert(self@.groups =~= old(self)@.groups);
                }
            }
        } else {
            let mut members: Vec<u64> = Vec::new();
            members.push(member);
            self.groups.push(MemberGroup { name: String::new(), id: group, members });
            proof {
                let gs0 = old(self)@.groups;
                self.groups@.drop_last().lemma_push_map_commute(
                    |g: MemberGroup| g@,
                    self.groups@.last(),
                );
                assert(self.groups@.drop_last() =~= old(self).groups@);
                assert(self.groups@ == old(self).groups@.push(self.groups@.last()));
                assert(self@.groups =~= spec_join_group(
                    gs0,
                    group,
                    spec_hash_str(address@),
                ));
            }
        }
    }

    /// Removes the member with this address from the group, when both
    /// exist.
    pub fn leave(&mut self, group: u64, address: &String)
        ensures
            final(self)@.statuses == old(self)@.statuses,
            final(self)@.groups == spec_leave_group(
                old(self)@.groups,
                group,
                spec_hash_str(address@),
            ),
    {
        let member = hash_str(address.as_str());
        let i = self.find_group(group);
        if i < self.groups.len() {
            let k = find_u64_index(&self.groups[i].members, member);
            if k < self.groups[i].members.len() {
                let ghost gs0 = self@.groups;
                let g = vstd::std_specs::vec::vec_index_mut(&mut self.groups, i);
                let ghost ms0 = g.members@;
                g.members.remove(k);
                proof {
                    assert(ms0.remove(k as int) =~= ms0.subrange(0, k as int) + ms0.subrange(
                        k + 1,
                        ms0.len() as int,
                    ));
                    assert(self@.groups =~= spec_leave_group(
                        gs0,
                        group,
                        spec_hash_str(address@),
                    ));
                }
            } else {
                proof {
                    assert(self@.groups =~= spec_leave_group(
                        old(self)@.groups,
                        group,
                        spec_hash_str(address@),
                    ));
                }
            }
        } else {
            proof {
                assert(self@.groups =~= spec_leave_group(
                    old(self)@.groups,
                    group,
                    spec_hash_str(address@),
                ));
            }
        }
    }

    /// The member ids of a group, in join order; empty when the group does
    /// not exist.
    pub fn members(&self, group: u64) -> (r: Vec<u64>)
        ensures
            r@ == spec_group_members(self@.groups, group),
    {
        let i = self.find_group(group);
        if i < self.groups.len() {
            let r = self.groups[i].members.clone();
            proof {
                assert(r@ =~= spec_group_members(self@.groups, group));
            }
            r
        } else {
            let r: Vec<u64> = Vec::new();
            proof {
                assert(r@ =~= spec_group_members(self@.groups, group));
            }
            r
        }
    }

    /// The deterministic head of a group: its first member, 0 when none.
    pub fn leader(&self, group: u64) -> (r: u64)
        ensures
            r == spec_group_leader(self@.groups, group),
    {
        let i = self.find_group(group);
        if i < self.groups.len() {
            if self.groups[i].members.len() > 0 {
                self.groups[i].members[0]
            } else {
                0
            }
        } else {
            0
        }
    }

    /// The same view as `members`: the ids that belong to the group.
    pub fn group_members(&self, group: u64) -> (r: Vec<u64>)
        ensures
            r@ == spec_group_members(self@.groups, group),
    {
        self.members(group)
    }

    /// Every member of any group, once each, in first-appearance order.
    pub fn all_members(&self) -> (r: Vec<u64>)
        ensures
            r@ == spec_dedup(spec_group_concat(self@.groups)),
    {
        let n = self.groups.len();
        let mut acc: Vec<u64> = Vec::new();
        let mut i: usize = 0;
        proof {
            assert(acc@ =~= spec_group_concat(self@.groups.subrange(0, 0int)));
        }
        while i < n
            invariant
                i <= n == self@.groups.len(),
                acc@ == spec_group_concat(self@.groups.subrange(0, i as int)),
            decreases n - i,
        {
            acc.extend_from_slice(self.groups[i].members.as_slice());
            proof {
                assert(self@.groups.subrange(0, i + 1).drop_last() =~= self@.groups.subrange(
                    0,
                    i as int,
                ));
                assert(self@.groups.subrange(0, i + 1).last() == self@.groups[i as int]);
                assert(acc@ =~= spec_group_concat(self@.groups.subrange(0, i + 1)));
            }
            i = i + 1;
        }
        proof {
            assert(self@.groups.subrange(0, n as int) =~= self@.groups);
        }
        dedup_u64(&acc)
    }

    /// Dispatches one committed command by fn_id, as
    /// `spec_membership_commit` describes.
    pub fn commit_cmd_sub(&mut self, fn_id: u64, data: &Vec<u8>) -> (r: ExecResult)
        ensures
            (final(self)@, crate::master::view_exec_result(r)) == spec_membership_commit(
                old(self)@,
                fn_id,
                data@,
            ),
    {
        if fn_id == FN_HB_ONLINE_CHANGED {
            let s1 = dec_id_list(data, 0);
            match s1 {
                Some((online, p1)) => {
                    let s2 = dec_id_list(data, p1);
                    match s2 {
                        Some((offline, p2)) => {
                            if p2 == data.len() {
                                self.hb_online_changed(&online, &offline);
                                let out: Vec<u8> = Vec::new();
                                proof {
                                    assert(out@ =~= Seq::<u8>::empty());
                                }
                                Ok(out)
                            } else {
                                Err(ExecError::DecodeFailed)
                            }
                        },
                        _ => Err(ExecError::DecodeFailed),
                    }
                },
                _ => Err(ExecError::DecodeFailed),
            }
        } else if fn_id == FN_JOIN || fn_id == FN_LEAVE {
            let s1 = dec_u64(data, 0);
            match s1 {
                Some((gid, p1)) => {
                    let s2 = dec_str(data, p1);
                    match s2 {
                        Some((addr, p2)) => {
                            if p2 == data.len() {
                                if fn_id == FN_JOIN {
                                    self.join(gid, &addr);
                                } else {
                                    self.leave(gid, &addr);
                                }
                                let out: Vec<u8> = Vec::new();
                                proof {
                                    assert(out@ =~= Seq::<u8>::empty());
                                }
                                Ok(out)
                            } else {
                                Err(ExecError::DecodeFailed)
                            }
                        },
                        _ => Err(ExecError::DecodeFailed),
                    }
                },
                _ => Err(ExecError::DecodeFailed),
            }
        } else {
            Err(ExecError::UnknownFunction)
        }
    }

    /// Dispatches one read-only query by fn_id, as `spec_membership_query`
    /// describes.
    pub fn exec_qry_sub(&self, fn_id: u64, data: &Vec<u8>) -> (r: ExecResult)
        ensures
            crate::master::view_exec_result(r) == spec_membership_query(self@, fn_id, data@),
    {
        if fn_id == FN_MEMBERS || fn_id == FN_GROUP_MEMBERS {
            let s1 = dec_u64(data, 0);
            match s1 {
                Some((gid, p1)) => {
                    if p1 == data.len() {
                        let ids = self.members(gid);
                        let mut out: Vec<u8> = Vec::new();
                        enc_id_list(&mut out, &ids);
                        Ok(out)
                    } else {
                        Err(ExecError::DecodeFailed)
                    }
                },
                _ => Err(ExecError::DecodeFailed),
            }
        } else if fn_id == FN_LEADER {
            let s1 = dec_u64(data, 0);
            match s1 {
                Some((gid, p1)) => {
                    if p1 == data.len() {
                        let head = self.leader(gid);
                        let mut out: Vec<u8> = Vec::new();
                        enc_u64(&mut out, head);
                        Ok(out)
                    } else {
                        Err(ExecError::DecodeFailed)
                    }
                },
                _ => Err(ExecError::DecodeFailed),
            }
        } else if fn_id == FN_ALL_MEMBERS {
            if data.len() == 0 {
                let ids = self.all_members();
                let mut out: Vec<u8> = Vec::new();
                enc_id_list(&mut out, &ids);
                Ok(out)
            } else {
                Err(ExecError::DecodeFailed)
            }
        } else {
            Err(ExecError::UnknownFunction)
        }
    }
}

} // verus!
