//! The reserved membership-configuration state machine: the authoritative
//! set of cluster members, keyed by the stable hash of each address.
use crate::codec::{dec_str_list, enc_str_list, sdec_str_list, spec_enc_str_list};
use crate::hashing::{hash_str, spec_hash_str};
use crate::master::ExecError;
use vstd::prelude::*;
use vstd::utf8::encode_utf8;

verus! {

/// The reserved sm_id under which the configuration state machine is
/// addressed.
pub const CONFIG_SM_ID: u64 = 1;

/// Command and query selectors of the configuration state machine.
pub const FN_NEW_MEMBER: u64 = 1;

pub const FN_DEL_MEMBER: u64 = 2;

pub const FN_MEMBER_ADDRESSES: u64 = 3;

pub const FN_MEMBER_EXISTED: u64 = 4;

/// A participating node: its stable id (the hash of its address) and the
/// address itself. The peer RPC handle that rides beside these at runtime
/// is reconstructible from the address and lives with the transport.
#[derive(Debug)]
pub struct RaftMember {
    pub id: u64,
    pub address: String,
}

/// The mathematical image of a member.
pub struct MemberView {
    pub id: u64,
    pub address: Seq<char>,
}

impl View for RaftMember {
    type V = MemberView;

    open spec fn view(&self) -> MemberView {
        MemberView { id: self.id, address: self.address@ }
    }
}

impl Clone for RaftMember {
    fn clone(&self) -> (r: Self)
        ensures
            r@ == self@,
    {
        RaftMember { id: self.id, address: self.address.clone() }
    }
}

/// The images of a row of members.
pub open spec fn member_views(s: Seq<RaftMember>) -> Seq<MemberView> {
    s.map_values(|m: RaftMember| m@)
}

pub open spec fn has_member(s: Seq<MemberView>, id: u64) -> bool {
    exists|i: int| 0 <= i < s.len() && (#[trigger] s[i]).id == id
}

/// Each member's id is the hash of its address, ids are distinct, and each
/// address fits the codec.
pub open spec fn members_wf(s: Seq<MemberView>) -> bool {
    &&& forall|i: int|
        0 <= i < s.len() ==> (#[trigger] s[i]).id == spec_hash_str(s[i].address)
    &&& forall|i: int, j: int|
        0 <= i < j < s.len() ==> (#[trigger] s[i]).id != (#[trigger] s[j]).id
    &&& forall|i: int|
        0 <= i < s.len() ==> encode_utf8((#[trigger] s[i]).address).len() < 0x10000000000000000
}

/// Adding a member is idempotent: a second add of the same address leaves
/// the set as it was.
pub open spec fn spec_add_member(s: Seq<MemberView>, addr: Seq<char>) -> Seq<MemberView> {
    if has_member(s, spec_hash_str(addr)) {
        s
    } else {
        s.push(MemberView { id: spec_hash_str(addr), address: addr })
    }
}

/// The position of the member with `id`, or the length when there is none.
pub open spec fn find_member(s: Seq<MemberView>, id: u64) -> int
    decreases s.len(),
{
    if s.len() == 0 {
        0
    } else if s[0].id == id {
        0
    } else {
        1 + find_member(s.drop_first(), id)
    }
}

/// `find_member` returns the first matching position.
pub proof fn lemma_find_member_char(s: Seq<MemberView>, id: u64, k: int)
    requires
        0 <= k <= s.len(),
        forall|j: int| 0 <= j < k ==> (#[trigger] s[j]).id != id,
        k < s.len() ==> s[k].id == id,
    ensures
        k < s.len() ==> find_member(s, id) == k,
        k == s.len() ==> find_member(s, id) == s.len(),
    decreases s.len(),
{
    if s.len() > 0 {
        if s[0].id == id {
        } else {
            assert(forall|j: int|
                0 <= j < k - 1 ==> (#[trigger] s.drop_first()[j]).id != id);
            lemma_find_member_char(s.drop_first(), id, k - 1);
        }
    }
}

/// Removing a member deletes the first (under `members_wf`: the only)
/// entry with the address's id and keeps the others in order.
pub open spec fn spec_del_member(s: Seq<MemberView>, addr: Seq<char>) -> Seq<MemberView> {
    let i = find_member(s, spec_hash_str(addr));
    if i < s.len() {
        s.subrange(0, i) + s.subrange(i + 1, s.len() as int)
    } else {
        s
    }
}

/// The member set after adding a row of addresses in order, each under
/// the same idempotent rule as a committed add.
pub open spec fn spec_add_members(s: Seq<MemberView>, addrs: Seq<Seq<char>>) -> Seq<MemberView>
    decreases addrs.len(),
{
    if addrs.len() == 0 {
        s
    } else {
        spec_add_member(spec_add_members(s, addrs.drop_last()), addrs.last())
    }
}

pub open spec fn member_addresses_of(s: Seq<MemberView>) -> Seq<Seq<char>> {
    s.map_values(|m: MemberView| m.address)
}

/// The member set rebuilt from a row of addresses, first to last.
pub open spec fn spec_members_from_addrs(addrs: Seq<Seq<char>>) -> Seq<MemberView>
    decreases addrs.len(),
{
    if addrs.len() == 0 {
        Seq::<MemberView>::empty()
    } else {
        spec_add_member(spec_members_from_addrs(addrs.drop_last()), addrs.last())
    }
}

/// Snapshot then recover yields the same member set: rebuilding from a
/// well-formed set's own addresses gives that set back.
pub proof fn lemma_members_rebuild(s: Seq<MemberView>)
    requires
        members_wf(s),
    ensures
        spec_members_from_addrs(member_addresses_of(s)) == s,
    decreases s.len(),
{
    let addrs = member_addresses_of(s);
    if s.len() == 0 {
        assert(spec_members_from_addrs(addrs) =~= s);
    } else {
        let head = s.drop_last();
        assert(addrs.drop_last() =~= member_addresses_of(head));
        assert(members_wf(head));
        lemma_members_rebuild(head);
        let m = s.last();
        assert(m.id == spec_hash_str(m.address));
        assert(!has_member(head, m.id)) by {
            if has_member(head, m.id) {
                let i = choose|i: int|
                    0 <= i < head.len() && (#[trigger] head[i]).id == m.id;
                assert(s[i].id == s[s.len() - 1].id);
            }
        }
        assert(spec_add_member(head, m.address) =~= s);
    }
}

/// The configuration state machine: the authoritative member set, in the
/// order the adds were committed.
#[derive(Debug)]
pub struct ConfigSm {
    pub members: Vec<RaftMember>,
}

impl View for ConfigSm {
    type V = Seq<MemberView>;

    open spec fn view(&self) -> Seq<MemberView> {
        member_views(self.members@)
    }
}

impl ConfigSm {
    pub open spec fn wf(self) -> bool {
        members_wf(self@)
    }

    pub fn new() -> (r: ConfigSm)
        ensures
            r.wf(),
            r@ == Seq::<MemberView>::empty(),
    {
        let r = ConfigSm { members: Vec::new() };
        proof {
            assert(r@ =~= Seq::<MemberView>::empty());
        }
        r
    }

    pub fn len(&self) -> (n: usize)
        ensures
            n == self@.len(),
    {
        self.members.len()
    }

    /// The position of the member with `id`, or the member count.
    fn find(&self, id: u64) -> (r: usize)
        requires
            self.wf(),
        ensures
            r == find_member(self@, id),
            r <= self@.len(),
            r < self@.len() ==> self@[r as int].id == id,
            r == self@.len() ==> !has_member(self@, id),
    {
        let n = self.members.len();
        let mut i: usize = 0;
        while i < n
            invariant
                i <= n == self.members@.len(),
                self.wf(),
                forall|j: int| 0 <= j < i ==> (#[trigger] self@[j]).id != id,
            decreases n - i,
        {
            if self.members[i].id == id {
                proof {
                    lemma_find_member_char(self@, id, i as int);
                }
                return i;
            }
            i = i + 1;
        }
        proof {
            lemma_find_member_char(self@, id, n as int);
            if has_member(self@, id) {
                let w = choose|w: int| 0 <= w < self@.len() && (#[trigger] self@[w]).id == id;
            }
        }
        n
    }

    pub fn member_existed(&self, id: u64) -> (r: bool)
        requires
            self.wf(),
        ensures
            r == has_member(self@, id),
    {
        let i = self.find(id);
        i < self.members.len()
    }

    /// Idempotent add: returns true when the address was newly added, false
    /// when the member existed before this call.
    pub fn new_member(&mut self, address: String) -> (added: bool)
        requires
            old(self).wf(),
        ensures
            final(self).wf(),
            final(self)@ == spec_add_member(old(self)@, address@),
            added == !has_member(old(self)@, spec_hash_str(address@)),
    {
        let byte_len = address.as_str().as_bytes().len();
        proof {
            assert(encode_utf8(address@).len() == byte_len);
        }
        let id = hash_str(address.as_str());
        let i = self.find(id);
        if i < self.members.len() {
            false
        } else {
            let ghost s0 = self@;
            let ghost addr_view = address@;
            self.members.push(RaftMember { id, address });
            proof {
                assert(self@ =~= s0.push(MemberView { id, address: addr_view }));
            }
            true
        }
    }

    /// Removes the member with this address, if present; returns whether
    /// one was removed.
    pub fn del_member(&mut self, address: &String) -> (removed: bool)
        requires
            old(self).wf(),
        ensures
            final(self).wf(),
            final(self)@ == spec_del_member(old(self)@, address@),
            removed == has_member(old(self)@, spec_hash_str(address@)),
    {
        let id = hash_str(address.as_str());
        let i = self.find(id);
        if i < self.members.len() {
            let ghost s0 = self@;
            self.members.remove(i);
            proof {
                assert(self@ =~= s0.subrange(0, i as int) + s0.subrange(
                    i + 1,
                    s0.len() as int,
                ));
                assert forall|a: int, b: int|
                    0 <= a < b < self@.len() implies (#[trigger] self@[a]).id != (
                #[trigger] self@[b]).id by {
                    if a < i && b < i {
                    } else if a < i {
                        assert(self@[b] == s0[b + 1]);
                    } else {
                        assert(self@[a] == s0[a + 1]);
                        assert(self@[b] == s0[b + 1]);
                    }
                }
            }
            true
        } else {
            false
        }
    }

    /// The member addresses, in committed order.
    pub fn member_addresses(&self) -> (r: Vec<String>)
        requires
            self.wf(),
        ensures
            r@.map_values(|x: String| x@) == member_addresses_of(self@),
    {
        let n = self.members.len();
        let mut r: Vec<String> = Vec::new();
        let mut i: usize = 0;
        proof {
            assert(r@.map_values(|x: String| x@) =~= member_addresses_of(self@).subrange(
                0,
                0int,
            ));
        }
        while i < n
            invariant
                i <= n == self.members@.len(),
                self.wf(),
                r@.map_values(|x: String| x@) == member_addresses_of(self@).subrange(
                    0,
                    i as int,
                ),
            decreases n - i,
        {
            let ghost r0 = r@;
            r.push(self.members[i].address.clone());
            proof {
                r0.lemma_push_map_commute(|x: String| x@, r@.last());
                assert(r@ == r0.push(r@.last()));
                assert(r@.map_values(|x: String| x@) =~= member_addresses_of(self@).subrange(
                    0,
                    i + 1,
                ));
            }
            i = i + 1;
        }
        proof {
            assert(member_addresses_of(self@).subrange(0, n as int) =~= member_addresses_of(
                self@,
            ));
        }
        r
    }

    /// The ids of all members, in committed order.
    pub fn member_ids(&self) -> (r: Vec<u64>)
        requires
            self.wf(),
        ensures
            r@ == self@.map_values(|m: MemberView| m.id),
    {
        let n = self.members.len();
        let mut r: Vec<u64> = Vec::new();
        let mut i: usize = 0;
        while i < n
            invariant
                i <= n == self.members@.len(),
                self.wf(),
                r@ == self@.map_values(|m: MemberView| m.id).subrange(0, i as int),
            decreases n - i,
        {
            r.push(self.members[i].id);
            proof {
                assert(r@ =~= self@.map_values(|m: MemberView| m.id).subrange(0, i + 1));
            }
            i = i + 1;
        }
        proof {
            assert(self@.map_values(|m: MemberView| m.id).subrange(0, n as int)
                =~= self@.map_values(|m: MemberView| m.id));
        }
        r
    }

    /// The deterministic image of the member set: its addresses; the ids are
    /// recomputed from them on recovery.
    pub fn snapshot_bytes(&self) -> (r: Vec<u8>)
        requires
            self.wf(),
        ensures
            r@ == spec_enc_str_list(member_addresses_of(self@)),
    {
        let addrs = self.member_addresses();
        let mut out: Vec<u8> = Vec::new();
        enc_str_list(&mut out, &addrs);
        proof {
            assert(out@ =~= spec_enc_str_list(member_addresses_of(self@)));
        }
        out
    }

    /// Rebuilds the member set from an image: each address is added in
    /// order, under the same idempotent rule as a committed add.
    pub fn recover_bytes(&mut self, bytes: &Vec<u8>) -> (r: Result<(), ExecError>)
        ensures
            final(self).wf(),
            r matches Ok(()) ==> (match sdec_str_list(bytes@, 0) {
                Some((addrs, p)) => p == bytes@.len() && final(self)@ == spec_members_from_addrs(
                    addrs,
                ),
                _ => false,
            }),
            r is Err ==> (match sdec_str_list(bytes@, 0) {
                Some((addrs, p)) => p != bytes@.len(),
                _ => true,
            }) && final(self)@ == Seq::<MemberView>::empty(),
    {
        let mut fresh = ConfigSm::new();
        let parsed = dec_str_list(bytes, 0);
        match parsed {
            Some((addrs, end)) => {
                if end != bytes.len() {
                    *self = fresh;
                    return Err(ExecError::DecodeFailed);
                }
                let ghost addr_views = addrs@.map_values(|x: String| x@);
                let n = addrs.len();
                let mut i: usize = 0;
                while i < n
                    invariant
                        i <= n == addrs@.len(),
                        addr_views == addrs@.map_values(|x: String| x@),
                        fresh.wf(),
                        fresh@ == spec_members_from_addrs(addr_views.subrange(0, i as int)),
                    decreases n - i,
                {
                    proof {
                        assert(addr_views.subrange(0, i + 1).drop_last() =~= addr_views.subrange(
                            0,
                            i as int,
                        ));
                        assert(addr_views.subrange(0, i + 1).last() == addrs@[i as int]@);
                    }
                    fresh.new_member(addrs[i].clone());
                    i = i + 1;
                }
                proof {
                    assert(addr_views.subrange(0, n as int) =~= addr_views);
                }
                *self = fresh;
                Ok(())
            },
            _ => {
                *self = fresh;
                Err(ExecError::DecodeFailed)
            },
        }
    }
}

} // verus!
