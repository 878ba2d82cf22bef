//! Small helpers over sequences keyed by 64-bit ids: first-match lookup and
//! order-keeping duplicate removal.
use vstd::prelude::*;

verus! {

/// The first position whose key is `id`, or the length when there is none.
pub open spec fn find_by_key<T>(s: Seq<T>, key: spec_fn(T) -> u64, id: u64) -> int
    decreases s.len(),
{
    if s.len() == 0 {
        0
    } else if key(s[0]) == id {
        0
    } else {
        1 + find_by_key(s.drop_first(), key, id)
    }
}

/// `find_by_key` returns the first matching position.
pub proof fn lemma_find_by_key_char<T>(s: Seq<T>, key: spec_fn(T) -> u64, id: u64, k: int)
    requires
        0 <= k <= s.len(),
        forall|j: int| 0 <= j < k ==> key(#[trigger] s[j]) != id,
        k < s.len() ==> key(s[k]) == id,
    ensures
        k < s.len() ==> find_by_key(s, key, id) == k,
        k == s.len() ==> find_by_key(s, key, id) == s.len(),
    decreases s.len(),
{
    if s.len() > 0 {
        if key(s[0]) == id {
        } else {
            assert(forall|j: int| 0 <= j < k - 1 ==> key(#[trigger] s.drop_first()[j]) != id);
            lemma_find_by_key_char(s.drop_first(), key, id, k - 1);
        }
    }
}

/// Whether the sequence holds `x`.
pub fn contains_u64(v: &Vec<u64>, x: u64) -> (r: bool)
    ensures
        r == v@.contains(x),
{
    let n = v.len();
    let mut i: usize = 0;
    while i < n
        invariant
            i <= n == v@.len(),
            forall|j: int| 0 <= j < i ==> v@[j] != x,
        decreases n - i,
    {
        if v[i] == x {
            return true;
        }
        i = i + 1;
    }
    false
}

/// The position of `x` in a row of ids, or the length when absent.
pub open spec fn find_u64(s: Seq<u64>, x: u64) -> int
    decreases s.len(),
{
    if s.len() == 0 {
        0
    } else if s[0] == x {
        0
    } else {
        1 + find_u64(s.drop_first(), x)
    }
}

pub proof fn lemma_find_u64_char(s: Seq<u64>, x: u64, k: int)
    requires
        0 <= k <= s.len(),
        forall|j: int| 0 <= j < k ==> s[j] != x,
        k < s.len() ==> s[k] == x,
    ensures
        k < s.len() ==> find_u64(s, x) == k,
        k == s.len() ==> find_u64(s, x) == s.len(),
    decreases s.len(),
{
    if s.len() > 0 {
        if s[0] == x {
        } else {
            lemma_find_u64_char(s.drop_first(), x, k - 1);
        }
    }
}

/// The position of the first `x`, or the length when absent.
pub fn find_u64_index(v: &Vec<u64>, x: u64) -> (r: usize)
    ensures
        r == find_u64(v@, x),
        r <= v@.len(),
        r < v@.len() ==> v@[r as int] == x,
{
    let n = v.len();
    let mut i: usize = 0;
    while i < n
        invariant
            i <= n == v@.len(),
            forall|j: int| 0 <= j < i ==> v@[j] != x,
        decreases n - i,
    {
        if v[i] == x {
            proof {
                lemma_find_u64_char(v@, x, i as int);
            }
            return i;
        }
        i = i + 1;
    }
    proof {
        lemma_find_u64_char(v@, x, n as int);
    }
    n
}

/// The sequence with later duplicates dropped, keeping first appearances in
/// order.
pub open spec fn spec_dedup(s: Seq<u64>) -> Seq<u64>
    decreases s.len(),
{
    if s.len() == 0 {
        Seq::<u64>::empty()
    } else {
        let rest = spec_dedup(s.drop_last());
        if rest.contains(s.last()) {
            rest
        } else {
            rest.push(s.last())
        }
    }
}

/// Drops later duplicates, keeping first appearances in order.
pub fn dedup_u64(v: &Vec<u64>) -> (r: Vec<u64>)
    ensures
        r@ == spec_dedup(v@),
{
    let n = v.len();
    let mut r: Vec<u64> = Vec::new();
    let mut i: usize = 0;
    proof {
        assert(v@.subrange(0, 0int) =~= Seq::<u64>::empty());
    }
    while i < n
        invariant
            i <= n == v@.len(),
            r@ == spec_dedup(v@.subrange(0, i as int)),
        decreases n - i,
    {
        proof {
            assert(v@.subrange(0, i + 1).drop_last() =~= v@.subrange(0, i as int));
            assert(v@.subrange(0, i + 1).last() == v@[i as int]);
        }
        if !contains_u64(&r, v[i]) {
            r.push(v[i]);
        }
        i = i + 1;
    }
    proof {
        assert(v@.subrange(0, n as int) =~= v@);
    }
    r
}

} // verus!
