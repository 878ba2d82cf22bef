//! Laws that tie the pieces together: replicas that apply the same
//! committed prefix agree, and two leaders cannot stand in one term under
//! a strict majority rule.
use crate::log::LogStoreView;
use crate::master::MasterView;
use crate::raft::{spec_apply_one, spec_apply_upto};
use vstd::prelude::*;
use vstd::set_lib::lemma_len_subset;

verus! {

/// Replicas agree: two nodes whose registries agree and whose logs agree
/// entry for entry over the committed range end with identical registry
/// state after applying that range. Dispatch is deterministic, so the
/// state after applying ids 1..i is a function of the log prefix alone.
pub proof fn lemma_apply_prefix_deterministic(
    m1: MasterView,
    m2: MasterView,
    logs1: LogStoreView,
    logs2: LogStoreView,
    applied: u64,
    commit: u64,
)
    requires
        m1 == m2,
        forall|id: u64|
            applied < id <= commit ==> #[trigger] logs1.contains_id(id)
                == logs2.contains_id(id) && (logs1.contains_id(id) ==> logs1.entry_at(id)
                == logs2.entry_at(id)),
    ensures
        spec_apply_upto(m1, logs1, applied, commit) == spec_apply_upto(
            m2,
            logs2,
            applied,
            commit,
        ),
    decreases commit - applied,
{
    if applied < commit {
        let next = (applied + 1) as u64;
        assert(spec_apply_one(m1, logs1, next) == spec_apply_one(m2, logs2, next));
        lemma_apply_prefix_deterministic(
            spec_apply_one(m1, logs1, next),
            spec_apply_one(m2, logs2, next),
            logs1,
            logs2,
            next,
            commit,
        );
    }
}

/// The members that granted their vote to `candidate` in some term, out
/// of the configured member set, under a voting record that gives each
/// member at most one candidate.
pub open spec fn spec_voters_for(all: Set<u64>, votes: Map<u64, u64>, candidate: u64) -> Set<
    u64,
> {
    all.filter(|m: u64| votes.dom().contains(m) && votes[m] == candidate)
}

/// At most one node leads a term, provided each leader collected a strict
/// majority of the member set: each member votes for at most one
/// candidate per term, and two strict majorities of one finite set must
/// share a voter, who would then have voted for both.
pub proof fn lemma_at_most_one_leader_per_term(
    all: Set<u64>,
    votes: Map<u64, u64>,
    c1: u64,
    c2: u64,
)
    requires
        all.finite(),
        2 * spec_voters_for(all, votes, c1).len() > all.len(),
        2 * spec_voters_for(all, votes, c2).len() > all.len(),
    ensures
        c1 == c2,
{
    if c1 != c2 {
        let v1 = spec_voters_for(all, votes, c1);
        let v2 = spec_voters_for(all, votes, c2);
        assert(v1.disjoint(v2)) by {
            assert forall|m: u64| !(v1.contains(m) && v2.contains(m)) by {
                if v1.contains(m) && v2.contains(m) {
                    assert(votes[m] == c1 && votes[m] == c2);
                }
            }
        }
        assert(v1.subset_of(all));
        assert(v2.subset_of(all));
        lemma_len_subset(v1, all);
        lemma_len_subset(v2, all);
        assert(v1 + v2 =~= all.filter(
            |m: u64| votes.dom().contains(m) && (votes[m] == c1 || votes[m] == c2),
        ));
        assert((v1 + v2).subset_of(all));
        lemma_len_subset(v1 + v2, all);
        vstd::set_lib::lemma_set_disjoint_lens(v1, v2);
        assert((v1 + v2).len() == v1.len() + v2.len());
        assert(2 * (v1.len() + v2.len()) > 2 * all.len());
        assert(false);
    }
}

} // verus!
