//! Stable 64-bit identifiers. Every peer id is the hash of its address under
//! a fixed function (FNV-1a with 64-bit state), so that all nodes agree on
//! the id of a member without coordination.
use vstd::prelude::*;
use vstd::utf8::encode_utf8;

verus! {

pub const FNV_OFFSET_BASIS: u64 = 0xcbf29ce484222325;

pub const FNV_PRIME: u64 = 0x100000001b3;

/// FNV-1a over a byte sequence: fold each byte into the state by xor, then
/// multiply by the prime modulo 2^64.
pub open spec fn spec_fnv1a(bytes: Seq<u8>) -> u64
    decreases bytes.len(),
{
    if bytes.len() == 0 {
        FNV_OFFSET_BASIS
    } else {
        (spec_fnv1a(bytes.drop_last()) ^ (bytes.last() as u64)).wrapping_mul(FNV_PRIME)
    }
}

/// The id of an address: FNV-1a over its UTF-8 bytes.
pub open spec fn spec_hash_str(s: Seq<char>) -> u64 {
    spec_fnv1a(encode_utf8(s))
}

/// Hashes a byte string with FNV-1a.
pub fn fnv1a(bytes: &[u8]) -> (h: u64)
    ensures
        h == spec_fnv1a(bytes@),
{
    let mut h: u64 = FNV_OFFSET_BASIS;
    let n: usize = bytes.len();
    let mut i: usize = 0;
    while i < n
        invariant
            n == bytes@.len(),
            i <= n,
            h == spec_fnv1a(bytes@.subrange(0, i as int)),
        decreases n - i,
    {
        proof {
            assert(bytes@.subrange(0, i + 1).drop_last() =~= bytes@.subrange(0, i as int));
            assert(bytes@.subrange(0, i + 1).last() == bytes@[i as int]);
        }
        h = (h ^ (bytes[i] as u64)).wrapping_mul(FNV_PRIME);
        i = i + 1;
    }
    proof {
        assert(bytes@.subrange(0, n as int) =~= bytes@);
    }
    h
}

/// The stable string-to-64-bit function that turns a member address into its
/// peer id.
pub fn hash_str(s: &str) -> (h: u64)
    ensures
        h == spec_hash_str(s@),
{
    fnv1a(s.as_bytes())
}

} // verus!
