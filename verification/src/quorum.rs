//! The majority rule used by elections and by commit advancement.
use vstd::prelude::*;

verus! {

/// The half test the node uses as its majority rule: a candidate or a log id
/// is accepted as soon as the granted count reaches half of the member count
/// (integer division). The candidate's own vote is included in `granted`.
pub open spec fn spec_is_majority(members: u64, granted: u64) -> bool {
    granted >= members / 2
}

/// Decides whether `granted` acknowledgements out of `members` members carry
/// the day under the half test.
pub fn is_majority(members: u64, granted: u64) -> (r: bool)
    ensures
        r == spec_is_majority(members, granted),
{
    granted >= members / 2
}

} // verus!
