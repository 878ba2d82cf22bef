//! The state-machine registry ("master"): the built-in configuration state
//! machine at its reserved id plus the registered sub state machines,
//! dispatched by sm_id and fn_id. Dispatch is deterministic: identical
//! ordered inputs produce identical state and outputs on all replicas.
use crate::codec::{
    dec_bytes, dec_u64, enc_bytes, enc_u64, lemma_dec_enc_bytes, lemma_dec_enc_u64,
    lemma_spec_le_len, sdec_bytes, sdec_str_list, sdec_u64, spec_enc_bytes, spec_enc_u64,
    spec_enc_str_list,
};
use crate::config::{
    has_member, lemma_members_rebuild, member_addresses_of, spec_add_member, spec_del_member,
    spec_members_from_addrs, ConfigSm, MemberView, CONFIG_SM_ID, FN_DEL_MEMBER,
    FN_MEMBER_ADDRESSES, FN_MEMBER_EXISTED, FN_NEW_MEMBER,
};
use crate::hashing::spec_hash_str;
use crate::heartbeat::{
    spec_membership_commit, spec_membership_query, Membership, MembershipView,
};
use crate::log::{LogEntry, LogEntryView};
use vstd::prelude::*;

verus! {

/// How a dispatched call can fail, and the client-side bootstrap failures
/// that share the taxonomy.
#[derive(Debug, Clone, Copy, PartialEq, Eq, Structural)]
pub enum ExecError {
    ServersUnreachable,
    CannotConstructClient,
    UnknownStateMachine,
    UnknownFunction,
    DecodeFailed,
}

/// What a dispatched command or query hands back: serialized return data,
/// or how it failed.
pub type ExecResult = Result<Vec<u8>, ExecError>;

/// The spec-level image of an `ExecResult`.
pub type ExecResultView = Result<Seq<u8>, ExecError>;

/// Whether a message encodes a state-changing command or a read-only query.
#[derive(Debug, Clone, Copy, PartialEq, Eq, Structural)]
pub enum OpType {
    Command,
    Query,
}

/// A typed message addressed to a sub state machine: how it serializes
/// itself and how its reply is read back. Users implement this for their
/// own command types.
pub trait RaftMsg<R>: Send + Sync {
    fn encode(self) -> (u64, OpType, Vec<u8>);

    fn decode_return(data: &Vec<u8>) -> R;
}

pub open spec fn view_exec_result(r: ExecResult) -> ExecResultView {
    match r {
        Ok(v) => Ok(v@),
        Err(e) => Err(e),
    }
}

/// A registered sub state machine: the tagged registry's capability set of
/// commit, query, snapshot and recover, dispatched by variant.
#[derive(Debug)]
pub enum SubStateMachine {
    Membership(Membership),
}

/// The mathematical image of a registered sub state machine.
pub enum SubView {
    Membership(MembershipView),
}

impl View for SubStateMachine {
    type V = SubView;

    open spec fn view(&self) -> SubView {
        match self {
            SubStateMachine::Membership(m) => SubView::Membership(m@),
        }
    }
}

pub open spec fn sub_id(s: SubView) -> u64 {
    match s {
        SubView::Membership(_) => crate::heartbeat::DEFAULT_SERVICE_ID,
    }
}

impl SubStateMachine {
    /// The id under which this sub state machine is addressed.
    pub fn id(&self) -> (r: u64)
        ensures
            r == sub_id(self@),
    {
        match self {
            SubStateMachine::Membership(m) => m.id(),
        }
    }
}

/// The mathematical image of the whole registry.
pub struct MasterView {
    pub configs: Seq<MemberView>,
    pub subs: Seq<SubView>,
}

/// What a committed command does to one sub state machine and returns.
pub open spec fn spec_sub_commit(s: SubView, fn_id: u64, data: Seq<u8>) -> (SubView, ExecResultView) {
    match s {
        SubView::Membership(m) => {
            let (m2, r) = spec_membership_commit(m, fn_id, data);
            (SubView::Membership(m2), r)
        },
    }
}

/// What a read-only query on one sub state machine returns.
pub open spec fn spec_sub_query(s: SubView, fn_id: u64, data: Seq<u8>) -> ExecResultView {
    match s {
        SubView::Membership(m) => spec_membership_query(m, fn_id, data),
    }
}

/// What the configuration state machine does with a committed command.
pub open spec fn spec_config_commit(s: Seq<MemberView>, fn_id: u64, data: Seq<u8>) -> (
    Seq<MemberView>,
    ExecResultView,
) {
    if fn_id == FN_NEW_MEMBER || fn_id == FN_DEL_MEMBER {
        match crate::codec::sdec_str(data, 0) {
            Some((addr, p)) => {
                if p == data.len() {
                    if fn_id == FN_NEW_MEMBER {
                        let added = !has_member(s, spec_hash_str(addr));
                        (
                            spec_add_member(s, addr),
                            Ok(spec_enc_u64(if added { 1u64 } else { 0u64 })),
                        )
                    } else {
                        let existed = has_member(s, spec_hash_str(addr));
                        (
                            spec_del_member(s, addr),
                            Ok(spec_enc_u64(if existed { 1u64 } else { 0u64 })),
                        )
                    }
                } else {
                    (s, Err(ExecError::DecodeFailed))
                }
            },
            _ => (s, Err(ExecError::DecodeFailed)),
        }
    } else {
        (s, Err(ExecError::UnknownFunction))
    }
}

/// What a configuration query returns.
pub open spec fn spec_config_query(s: Seq<MemberView>, fn_id: u64, data: Seq<u8>) -> ExecResultView {
    if fn_id == FN_MEMBER_ADDRESSES {
        if data.len() == 0 {
            Ok(spec_enc_str_list(member_addresses_of(s)))
        } else {
            Err(ExecError::DecodeFailed)
        }
    } else if fn_id == FN_MEMBER_EXISTED {
        match sdec_u64(data, 0) {
            Some((id, p)) => {
                if p == data.len() {
                    Ok(spec_enc_u64(if has_member(s, id) { 1u64 } else { 0u64 }))
                } else {
                    Err(ExecError::DecodeFailed)
                }
            },
            _ => Err(ExecError::DecodeFailed),
        }
    } else {
        Err(ExecError::UnknownFunction)
    }
}

/// The position of the sub state machine with `id`, or the length.
pub open spec fn find_sub(subs: Seq<SubView>, id: u64) -> int
    decreases subs.len(),
{
    if subs.len() == 0 {
        0
    } else if sub_id(subs[0]) == id {
        0
    } else {
        1 + find_sub(subs.drop_first(), id)
    }
}

pub proof fn lemma_find_sub_char(subs: Seq<SubView>, id: u64, k: int)
    requires
        0 <= k <= subs.len(),
        forall|j: int| 0 <= j < k ==> sub_id(#[trigger] subs[j]) != id,
        k < subs.len() ==> sub_id(subs[k]) == id,
    ensures
        k < subs.len() ==> find_sub(subs, id) == k,
        k == subs.len() ==> find_sub(subs, id) == subs.len(),
    decreases subs.len(),
{
    if subs.len() > 0 {
        if sub_id(subs[0]) == id {
        } else {
            assert(forall|j: int|
                0 <= j < k - 1 ==> sub_id(#[trigger] subs.drop_first()[j]) != id);
            lemma_find_sub_char(subs.drop_first(), id, k - 1);
        }
    }
}

/// What dispatching one committed entry does to the registry and returns.
/// Dispatch is by the entry's sm_id: the reserved id selects the
/// configuration state machine, any other id a registered sub state
/// machine; an unknown id fails without mutating anything.
pub open spec fn spec_master_commit(m: MasterView, e: LogEntryView) -> (
    MasterView,
    ExecResultView,
) {
    if e.sm_id == CONFIG_SM_ID {
        let (c2, r) = spec_config_commit(m.configs, e.fn_id, e.data);
        (MasterView { configs: c2, subs: m.subs }, r)
    } else {
        let i = find_sub(m.subs, e.sm_id);
        if i < m.subs.len() {
            let (s2, r) = spec_sub_commit(m.subs[i], e.fn_id, e.data);
            (MasterView { configs: m.configs, subs: m.subs.update(i, s2) }, r)
        } else {
            (m, Err(ExecError::UnknownStateMachine))
        }
    }
}

/// What dispatching one read-only query returns.
pub open spec fn spec_master_query(m: MasterView, e: LogEntryView) -> ExecResultView {
    if e.sm_id == CONFIG_SM_ID {
        spec_config_query(m.configs, e.fn_id, e.data)
    } else {
        let i = find_sub(m.subs, e.sm_id);
        if i < m.subs.len() {
            spec_sub_query(m.subs[i], e.fn_id, e.data)
        } else {
            Err(ExecError::UnknownStateMachine)
        }
    }
}

/// The registry: the built-in configuration state machine plus the
/// registered sub state machines, in registration order.
#[derive(Debug)]
pub struct MasterStateMachine {
    pub service_id: u64,
    pub configs: ConfigSm,
    pub subs: Vec<SubStateMachine>,
}

pub open spec fn sub_views(s: Seq<SubStateMachine>) -> Seq<SubView> {
    s.map_values(|x: SubStateMachine| x@)
}

impl View for MasterStateMachine {
    type V = MasterView;

    open spec fn view(&self) -> MasterView {
        MasterView { configs: self.configs@, subs: sub_views(self.subs@) }
    }
}

impl MasterStateMachine {
    /// Registered ids are distinct and none shadows the reserved
    /// configuration id; the member set is well formed.
    pub open spec fn wf(self) -> bool {
        &&& self.configs.wf()
        &&& forall|i: int|
            0 <= i < self@.subs.len() ==> sub_id(#[trigger] self@.subs[i]) != CONFIG_SM_ID
        &&& forall|i: int, j: int|
            0 <= i < j < self@.subs.len() ==> sub_id(#[trigger] self@.subs[i]) != sub_id(
                #[trigger] self@.subs[j],
            )
    }

    pub fn new(service_id: u64) -> (r: MasterStateMachine)
        ensures
            r.wf(),
            r@.configs == Seq::<MemberView>::empty(),
            r@.subs == Seq::<SubView>::empty(),
            r.service_id == service_id,
    {
        let r = MasterStateMachine { service_id, configs: ConfigSm::new(), subs: Vec::new() };
        proof {
            assert(r@.subs =~= Seq::<SubView>::empty());
        }
        r
    }

    fn find_sub_index(&self, id: u64) -> (r: usize)
        ensures
            r == find_sub(self@.subs, id),
            r <= self@.subs.len(),
            r < self@.subs.len() ==> sub_id(self@.subs[r as int]) == id,
    {
        let n = self.subs.len();
        let mut i: usize = 0;
        while i < n
            invariant
                i <= n == self@.subs.len(),
                n == self.subs@.len(),
                forall|j: int| 0 <= j < i ==> sub_id(#[trigger] self@.subs[j]) != id,
            decreases n - i,
        {
            if self.subs[i].id() == id {
                proof {
                    lemma_find_sub_char(self@.subs, id, i as int);
                }
                return i;
            }
            i = i + 1;
        }
        proof {
            lemma_find_sub_char(self@.subs, id, n as int);
        }
        n
    }

    /// Whether a sub state machine with this id is registered (the
    /// reserved configuration id counts).
    pub fn has_sub(&self, id: &u64) -> (r: bool)
        ensures
            r == (*id == CONFIG_SM_ID || find_sub(self@.subs, *id) < self@.subs.len()),
    {
        if *id == CONFIG_SM_ID {
            return true;
        }
        let i = self.find_sub_index(*id);
        i < self.subs.len()
    }

    /// Registers a sub state machine; an id already taken (or the reserved
    /// one) is refused.
    pub fn register(&mut self, sm: SubStateMachine) -> (r: bool)
        requires
            old(self).wf(),
        ensures
            final(self).wf(),
            final(self)@.configs == old(self)@.configs,
            r == (sub_id(sm@) != CONFIG_SM_ID && find_sub(old(self)@.subs, sub_id(sm@))
                == old(self)@.subs.len()),
            r ==> final(self)@.subs == old(self)@.subs.push(sm@),
            !r ==> final(self)@.subs == old(self)@.subs,
    {
        let id = sm.id();
        if id == CONFIG_SM_ID {
            return false;
        }
        let i = self.find_sub_index(id);
        if i < self.subs.len() {
            false
        } else {
            let ghost s0 = self@.subs;
            self.subs.push(sm);
            proof {
                self.subs@.drop_last().lemma_push_map_commute(
                    |x: SubStateMachine| x@,
                    self.subs@.last(),
                );
                assert(self.subs@.drop_last() =~= old(self).subs@);
                assert(self.subs@ == old(self).subs@.push(self.subs@.last()));
                assert(self@.subs =~= s0.push(self.subs@.last()@));
            }
            true
        }
    }

    /// Releases every registered sub state machine; the configuration set
    /// stays.
    pub fn clear_subs(&mut self)
        ensures
            final(self)@.configs == old(self)@.configs,
            final(self)@.subs == Seq::<SubView>::empty(),
            final(self).service_id == old(self).service_id,
    {
        self.subs.clear();
        proof {
            assert(self@.subs =~= Seq::<SubView>::empty());
        }
    }

    /// The ids of the configured members, in committed order.
    pub fn members(&self) -> (r: Vec<u64>)
        requires
            self.wf(),
        ensures
            r@ == self@.configs.map_values(|m: MemberView| m.id),
    {
        self.configs.member_ids()
    }

    /// Applies one committed entry, as `spec_master_commit` describes:
    /// identical ordered inputs produce identical state and outputs on all
    /// replicas.
    pub fn commit_cmd(&mut self, entry: &LogEntry) -> (r: ExecResult)
        requires
            old(self).wf(),
        ensures
            final(self).wf(),
            final(self).service_id == old(self).service_id,
            (final(self)@, view_exec_result(r)) == spec_master_commit(old(self)@, entry@),
    {
        if entry.sm_id == CONFIG_SM_ID {
            if entry.fn_id == FN_NEW_MEMBER || entry.fn_id == FN_DEL_MEMBER {
                let parsed = crate::codec::dec_str(&entry.data, 0);
                match parsed {
                    Some((addr, p)) => {
                        if p == entry.data.len() {
                            let flag: u64 = if entry.fn_id == FN_NEW_MEMBER {
                                if self.configs.new_member(addr) {
                                    1
                                } else {
                                    0
                                }
                            } else {
                                if self.configs.del_member(&addr) {
                                    1
                                } else {
                                    0
                                }
                            };
                            let mut out: Vec<u8> = Vec::new();
                            enc_u64(&mut out, flag);
                            Ok(out)
                        } else {
                            Err(ExecError::DecodeFailed)
                        }
                    },
                    _ => Err(ExecError::DecodeFailed),
                }
            } else {
                Err(ExecError::UnknownFunction)
            }
        } else {
            let i = self.find_sub_index(entry.sm_id);
            if i < self.subs.len() {
                let ghost subs0 = self@.subs;
                let sub = vstd::std_specs::vec::vec_index_mut(&mut self.subs, i);
                let r = match sub {
                    SubStateMachine::Membership(m) => m.commit_cmd_sub(entry.fn_id, &entry.data),
                };
                proof {
                    assert(self@.subs =~= subs0.update(
                        i as int,
                        spec_sub_commit(subs0[i as int], entry@.fn_id, entry@.data).0,
                    ));
                }
                r
            } else {
                Err(ExecError::UnknownStateMachine)
            }
        }
    }

    /// Runs one read-only query, as `spec_master_query` describes.
    pub fn exec_qry(&self, entry: &LogEntry) -> (r: ExecResult)
        requires
            self.wf(),
        ensures
            view_exec_result(r) == spec_master_query(self@, entry@),
    {
        if entry.sm_id == CONFIG_SM_ID {
            if entry.fn_id == FN_MEMBER_ADDRESSES {
                if entry.data.len() == 0 {
                    let addrs = self.configs.member_addresses();
                    let mut out: Vec<u8> = Vec::new();
                    crate::codec::enc_str_list(&mut out, &addrs);
                    Ok(out)
                } else {
                    Err(ExecError::DecodeFailed)
                }
            } else if entry.fn_id == FN_MEMBER_EXISTED {
                let parsed = dec_u64(&entry.data, 0);
                match parsed {
                    Some((id, p)) => {
                        if p == entry.data.len() {
                            let flag: u64 = if self.configs.member_existed(id) {
                                1
                            } else {
                                0
                            };
                            let mut out: Vec<u8> = Vec::new();
                            enc_u64(&mut out, flag);
                            Ok(out)
                        } else {
                            Err(ExecError::DecodeFailed)
                        }
                    },
                    _ => Err(ExecError::DecodeFailed),
                }
            } else {
                Err(ExecError::UnknownFunction)
            }
        } else {
            let i = self.find_sub_index(entry.sm_id);
            if i < self.subs.len() {
                match &self.subs[i] {
                    SubStateMachine::Membership(m) => m.exec_qry_sub(entry.fn_id, &entry.data),
                }
            } else {
                Err(ExecError::UnknownStateMachine)
            }
        }
    }

    /// The deterministic byte image of the registry: the configuration
    /// state machine's image under its reserved id. Registered sub state
    /// machines contribute no image of their own; their state is rebuilt
    /// by replaying the log.
    pub fn snapshot(&self) -> (r: Vec<u8>)
        requires
            self.wf(),
        ensures
            r@ == spec_master_image(self@),
    {
        let mut out: Vec<u8> = Vec::new();
        enc_u64(&mut out, 1);
        enc_u64(&mut out, CONFIG_SM_ID);
        let config_bytes = self.configs.snapshot_bytes();
        enc_bytes(&mut out, &config_bytes);
        proof {
            assert(out@ =~= spec_master_image(self@));
        }
        out
    }

    /// Replaces the configured member set with the one in the image;
    /// registered sub state machines keep their state. A malformed image
    /// changes nothing.
    pub fn recover(&mut self, data: &Vec<u8>) -> (r: Result<(), ExecError>)
        requires
            old(self).wf(),
        ensures
            final(self).wf(),
            final(self)@.subs == old(self)@.subs,
            final(self).service_id == old(self).service_id,
            r matches Ok(()) ==> spec_master_recovered(old(self)@, data@) == Some(final(self)@),
            r is Err ==> spec_master_recovered(old(self)@, data@) is None && final(self)@
                == old(self)@,
    {
        let parsed = dec_u64(data, 0);
        let (count, p1) = match parsed {
            Some(x) => x,
            _ => {
                return Err(ExecError::DecodeFailed);
            },
        };
        if count != 1 {
            return Err(ExecError::DecodeFailed);
        }
        let parsed2 = dec_u64(data, p1);
        let (sm_id, p2) = match parsed2 {
            Some(x) => x,
            _ => {
                return Err(ExecError::DecodeFailed);
            },
        };
        if sm_id != CONFIG_SM_ID {
            return Err(ExecError::DecodeFailed);
        }
        let parsed3 = dec_bytes(data, p2);
        let (config_bytes, p3) = match parsed3 {
            Some(x) => x,
            _ => {
                return Err(ExecError::DecodeFailed);
            },
        };
        if p3 != data.len() {
            return Err(ExecError::DecodeFailed);
        }
        let inner = sdec_config_probe(&config_bytes);
        if !inner {
            return Err(ExecError::DecodeFailed);
        }
        let r = self.configs.recover_bytes(&config_bytes);
        match r {
            Ok(()) => Ok(()),
            _ => Err(ExecError::DecodeFailed),
        }
    }
}

/// The composite image: a count of (sm_id, bytes) pairs followed by the
/// pairs; only the configuration state machine contributes one.
pub open spec fn spec_master_image(m: MasterView) -> Seq<u8> {
    spec_enc_u64(1) + spec_enc_u64(CONFIG_SM_ID) + spec_enc_bytes(
        spec_enc_str_list(member_addresses_of(m.configs)),
    )
}

/// What recovering from `data` yields: the registry with its member set
/// rebuilt from the image, or nothing when the image is malformed.
pub open spec fn spec_master_recovered(m: MasterView, data: Seq<u8>) -> Option<MasterView> {
    match sdec_u64(data, 0) {
        Some((count, p1)) => {
            if count != 1 {
                Option::<MasterView>::None
            } else {
                match sdec_u64(data, p1) {
                    Some((sm_id, p2)) => {
                        if sm_id != CONFIG_SM_ID {
                            Option::<MasterView>::None
                        } else {
                            match sdec_bytes(data, p2) {
                                Some((config_bytes, p3)) => {
                                    if p3 != data.len() {
                                        Option::<MasterView>::None
                                    } else {
                                        match sdec_str_list(config_bytes, 0) {
                                            Some((addrs, q)) => {
                                                if q == config_bytes.len() {
                                                    Some(
                                                        MasterView {
                                                            configs: spec_members_from_addrs(
                                                                addrs,
                                                            ),
                                                            subs: m.subs,
                                                        },
                                                    )
                                                } else {
                                                    Option::<MasterView>::None
                                                }
                                            },
                                            _ => Option::<MasterView>::None,
                                        }
                                    }
                                },
                                _ => Option::<MasterView>::None,
                            }
                        }
                    },
                    _ => Option::<MasterView>::None,
                }
            }
        },
        _ => Option::<MasterView>::None,
    }
}

/// Whether the inner configuration image parses exactly.
fn sdec_config_probe(bytes: &Vec<u8>) -> (r: bool)
    ensures
        r == (match sdec_str_list(bytes@, 0) {
            Some((addrs, q)) => q == bytes@.len(),
            _ => false,
        }),
{
    let parsed = crate::codec::dec_str_list(bytes, 0);
    match parsed {
        Some((_, q)) => q == bytes.len(),
        _ => false,
    }
}

/// Snapshot then recover yields equal master state: reading back a
/// well-formed registry's own image rebuilds exactly its member set and
/// leaves the registered sub state machines as they were.
#[verifier::rlimit(50)]
pub proof fn lemma_master_snapshot_recover(m: MasterView)
    requires
        crate::config::members_wf(m.configs),
        m.configs.len() < 0x10000000000000000,
        spec_enc_str_list(member_addresses_of(m.configs)).len() < 0x10000000000000000,
    ensures
        spec_master_recovered(m, spec_master_image(m)) == Some(m),
{
    let config_image = spec_enc_str_list(member_addresses_of(m.configs));
    let data = spec_master_image(m);
    let r1 = spec_enc_u64(CONFIG_SM_ID) + spec_enc_bytes(config_image);
    assert(data =~= Seq::<u8>::empty() + spec_enc_u64(1) + r1);
    lemma_dec_enc_u64(Seq::<u8>::empty(), 1, r1);
    let pre1 = Seq::<u8>::empty() + spec_enc_u64(1);
    assert(data =~= pre1 + spec_enc_u64(CONFIG_SM_ID) + spec_enc_bytes(config_image));
    lemma_dec_enc_u64(pre1, CONFIG_SM_ID, spec_enc_bytes(config_image));
    let pre2 = pre1 + spec_enc_u64(CONFIG_SM_ID);
    assert(data =~= pre2 + spec_enc_bytes(config_image) + Seq::<u8>::empty());
    lemma_dec_enc_bytes(pre2, config_image, Seq::<u8>::empty());
    lemma_spec_le_len(1nat, 8);
    lemma_spec_le_len(CONFIG_SM_ID as nat, 8);
    lemma_spec_le_len(config_image.len() as u64 as nat, 8);
    lemma_spec_le_len(member_addresses_of(m.configs).len() as u64 as nat, 8);
    crate::codec::lemma_dec_enc_str_list(
        Seq::<u8>::empty(),
        member_addresses_of(m.configs),
        Seq::<u8>::empty(),
    );
    assert(Seq::<u8>::empty() + config_image + Seq::<u8>::empty() =~= config_image);
    lemma_members_rebuild(m.configs);
}

} // verus!
