//! The deterministic binary codec behind the durable files and the composite
//! state-machine image: little-endian integers, length-prefixed byte strings
//! and length-prefixed UTF-8 text. Each decoder is proved equal to a spec
//! mirror, and the round-trip lemmas show that the mirrors invert the
//! encoders; the entity codecs build on both.
use vstd::prelude::*;
use vstd::utf8::{decode_utf8, encode_utf8, valid_utf8};

verus! {

/// 256^k, the number of values a k-byte little-endian field can hold.
pub open spec fn pow256(k: nat) -> nat
    decreases k,
{
    if k == 0 {
        1
    } else {
        256 * pow256((k - 1) as nat)
    }
}

pub proof fn lemma_pow256_values()
    ensures
        pow256(7) == 0x100000000000000,
        pow256(8) == 0x10000000000000000,
{
    assert(pow256(0) == 1);
    assert(pow256(1) == 256);
    assert(pow256(2) == 0x10000);
    assert(pow256(3) == 0x1000000);
    assert(pow256(4) == 0x100000000);
    assert(pow256(5) == 0x10000000000);
    assert(pow256(6) == 0x1000000000000);
    assert(pow256(7) == 0x100000000000000);
    assert(pow256(8) == 0x10000000000000000);
}

pub proof fn lemma_pow256_mono(a: nat, b: nat)
    requires
        a <= b,
    ensures
        pow256(a) <= pow256(b),
    decreases b,
{
    if a < b {
        lemma_pow256_mono(a, (b - 1) as nat);
    }
}

/// The little-endian encoding of `v` in `n` bytes, least significant first.
pub open spec fn spec_le(v: nat, n: nat) -> Seq<u8>
    decreases n,
{
    if n == 0 {
        Seq::empty()
    } else {
        seq![(v % 256) as u8] + spec_le(v / 256, (n - 1) as nat)
    }
}

/// The value a little-endian byte sequence stands for.
pub open spec fn spec_le_val(bs: Seq<u8>) -> nat
    decreases bs.len(),
{
    if bs.len() == 0 {
        0
    } else {
        (bs[0] + 256 * spec_le_val(bs.drop_first())) as nat
    }
}

pub proof fn lemma_spec_le_len(v: nat, n: nat)
    ensures
        spec_le(v, n).len() == n,
    decreases n,
{
    if n > 0 {
        lemma_spec_le_len(v / 256, (n - 1) as nat);
    }
}

pub proof fn lemma_le_val_bound(bs: Seq<u8>)
    ensures
        spec_le_val(bs) < pow256(bs.len()),
    decreases bs.len(),
{
    if bs.len() > 0 {
        lemma_le_val_bound(bs.drop_first());
    }
}

/// Reading back the `n` bytes of `v` yields `v` again, for every `v` that
/// fits in `n` bytes.
pub proof fn lemma_le_round_trip(v: nat, n: nat)
    requires
        v < pow256(n),
    ensures
        spec_le_val(spec_le(v, n)) == v,
    decreases n,
{
    if n > 0 {
        lemma_le_round_trip(v / 256, (n - 1) as nat);
        lemma_spec_le_len(v / 256, (n - 1) as nat);
        assert(spec_le(v, n).drop_first() =~= spec_le(v / 256, (n - 1) as nat));
    }
}

/// The eight-byte encoding of a `u64`.
pub open spec fn spec_enc_u64(v: u64) -> Seq<u8> {
    spec_le(v as nat, 8)
}

/// What reading a `u64` at `pos` yields: the value and the position after
/// it, or nothing when fewer than eight bytes remain.
pub open spec fn sdec_u64(buf: Seq<u8>, pos: int) -> Option<(u64, int)> {
    if 0 <= pos && pos + 8 <= buf.len() {
        Some((spec_le_val(buf.subrange(pos, pos + 8)) as u64, pos + 8))
    } else {
        Option::<(u64, int)>::None
    }
}

/// Reading at the front of an encoded `u64` yields that `u64`.
pub proof fn lemma_dec_enc_u64(pre: Seq<u8>, v: u64, suf: Seq<u8>)
    ensures
        sdec_u64(pre + spec_enc_u64(v) + suf, pre.len() as int) == Some(
            (v, (pre.len() + 8) as int),
        ),
{
    let buf = pre + spec_enc_u64(v) + suf;
    lemma_spec_le_len(v as nat, 8);
    assert(buf.subrange(pre.len() as int, pre.len() + 8int) =~= spec_enc_u64(v));
    lemma_pow256_values();
    lemma_le_round_trip(v as nat, 8);
}

/// Appends the eight little-endian bytes of `v`.
pub fn enc_u64(out: &mut Vec<u8>, v: u64)
    ensures
        final(out)@ == old(out)@ + spec_enc_u64(v),
{
    let mut x: u64 = v;
    let mut i: usize = 0;
    while i < 8
        invariant
            i <= 8,
            out@ + spec_le(x as nat, (8 - i) as nat) == old(out)@ + spec_le(v as nat, 8),
        decreases 8 - i,
    {
        proof {
            assert(spec_le(x as nat, (8 - i) as nat) =~= seq![(x % 256) as u8] + spec_le(
                (x / 256) as nat,
                (8 - (i + 1)) as nat,
            ));
            assert(out@.push((x % 256) as u8) + spec_le((x / 256) as nat, (8 - (i + 1)) as nat)
                =~= out@ + spec_le(x as nat, (8 - i) as nat));
        }
        out.push((x % 256) as u8);
        x = x / 256;
        i = i + 1;
    }
    proof {
        assert(out@ + spec_le(x as nat, 0) =~= out@);
    }
}

/// Reads a `u64` at `pos`, as `sdec_u64` describes.
pub fn dec_u64(buf: &Vec<u8>, pos: usize) -> (r: Option<(u64, usize)>)
    ensures
        r matches Some((v, end)) ==> sdec_u64(buf@, pos as int) == Some((v, end as int)),
        r is None ==> sdec_u64(buf@, pos as int) is None,
{
    if buf.len() < 8 || pos > buf.len() - 8 {
        return None;
    }
    proof {
        lemma_le_val_bound(buf@.subrange(pos as int, pos + 8));
        lemma_pow256_values();
    }
    let mut v: u64 = 0;
    let mut j: usize = 8;
    while j > 0
        invariant
            j <= 8,
            pos + 8 <= buf@.len(),
            buf@.len() <= usize::MAX,
            v == spec_le_val(buf@.subrange(pos + j, pos + 8)),
            v < pow256((8 - j) as nat),
        decreases j,
    {
        j = j - 1;
        proof {
            lemma_pow256_mono((7 - j) as nat, 7);
            lemma_pow256_values();
            assert(buf@.subrange(pos + j, pos + 8).drop_first() =~= buf@.subrange(
                pos + j + 1,
                pos + 8,
            ));
        }
        v = v * 256 + (buf[pos + j] as u64);
    }
    proof {
        assert(buf@.subrange(pos as int, pos + 8) =~= buf@.subrange(pos + 0, pos + 8));
        lemma_le_val_bound(buf@.subrange(pos as int, pos + 8));
        lemma_pow256_values();
    }
    Some((v, pos + 8))
}

/// The encoding of a byte string: its length, then its bytes.
pub open spec fn spec_enc_bytes(b: Seq<u8>) -> Seq<u8> {
    spec_enc_u64(b.len() as u64) + b
}

/// What reading a length-prefixed byte string at `pos` yields.
pub open spec fn sdec_bytes(buf: Seq<u8>, pos: int) -> Option<(Seq<u8>, int)> {
    match sdec_u64(buf, pos) {
        Some((n, p)) => {
            if p + n <= buf.len() {
                Some((buf.subrange(p, p + n), p + n))
            } else {
                Option::<(Seq<u8>, int)>::None
            }
        },
        _ => Option::<(Seq<u8>, int)>::None,
    }
}

/// Reading at the front of an encoded byte string yields that byte string.
pub proof fn lemma_dec_enc_bytes(pre: Seq<u8>, b: Seq<u8>, suf: Seq<u8>)
    requires
        b.len() < 0x10000000000000000,
    ensures
        sdec_bytes(pre + spec_enc_bytes(b) + suf, pre.len() as int) == Some(
            (b, (pre.len() + 8 + b.len()) as int),
        ),
{
    let buf = pre + spec_enc_bytes(b) + suf;
    lemma_spec_le_len(b.len() as u64 as nat, 8);
    assert(buf =~= pre + spec_enc_u64(b.len() as u64) + (b + suf));
    lemma_dec_enc_u64(pre, b.len() as u64, b + suf);
    assert(buf.subrange(pre.len() + 8int, pre.len() + 8 + b.len() as int) =~= b);
}

/// Appends `b` with its length in front.
pub fn enc_bytes(out: &mut Vec<u8>, b: &Vec<u8>)
    ensures
        final(out)@ == old(out)@ + spec_enc_bytes(b@),
{
    enc_u64(out, b.len() as u64);
    out.extend_from_slice(b.as_slice());
    proof {
        assert(out@ =~= old(out)@ + spec_enc_bytes(b@));
    }
}

/// Reads a length-prefixed byte string at `pos`, as `sdec_bytes` describes.
pub fn dec_bytes(buf: &Vec<u8>, pos: usize) -> (r: Option<(Vec<u8>, usize)>)
    ensures
        r matches Some((b, end)) ==> sdec_bytes(buf@, pos as int) == Some((b@, end as int)),
        r is None ==> sdec_bytes(buf@, pos as int) is None,
{
    let step = dec_u64(buf, pos);
    match step {
        Some((n, p)) => {
            if n > (buf.len() - p) as u64 {
                return None;
            }
            let end: usize = p + (n as usize);
            let mut b: Vec<u8> = Vec::new();
            let mut i: usize = p;
            while i < end
                invariant
                    p <= i <= end <= buf@.len(),
                    b@ == buf@.subrange(p as int, i as int),
                decreases end - i,
            {
                b.push(buf[i]);
                proof {
                    assert(b@ =~= buf@.subrange(p as int, i + 1));
                }
                i = i + 1;
            }
            Some((b, end))
        },
        _ => None,
    }
}

/// The encoding of a text field: the length of its UTF-8 image, then that
/// image.
pub open spec fn spec_enc_str(s: Seq<char>) -> Seq<u8> {
    spec_enc_bytes(encode_utf8(s))
}

/// What reading a text field at `pos` yields.
pub open spec fn sdec_str(buf: Seq<u8>, pos: int) -> Option<(Seq<char>, int)> {
    match sdec_bytes(buf, pos) {
        Some((bs, p)) => {
            if valid_utf8(bs) {
                Some((decode_utf8(bs), p))
            } else {
                Option::<(Seq<char>, int)>::None
            }
        },
        _ => Option::<(Seq<char>, int)>::None,
    }
}

/// Reading at the front of an encoded text field yields the text itself.
pub proof fn lemma_dec_enc_str(pre: Seq<u8>, s: Seq<char>, suf: Seq<u8>)
    requires
        encode_utf8(s).len() < 0x10000000000000000,
    ensures
        sdec_str(pre + spec_enc_str(s) + suf, pre.len() as int) == Some(
            (s, (pre.len() + 8 + encode_utf8(s).len()) as int),
        ),
{
    lemma_dec_enc_bytes(pre, encode_utf8(s), suf);
    vstd::utf8::encode_utf8_valid_utf8(s);
    vstd::utf8::encode_utf8_decode_utf8(s);
}

/// Relies on String::from_utf8: it returns `Ok` exactly on valid UTF-8
/// input, and the string it returns holds those bytes.
#[verifier::external_body]
fn bytes_to_string(bytes: Vec<u8>) -> (r: Option<String>)
    ensures
        r matches Some(s) ==> encode_utf8(s@) == bytes@,
        valid_utf8(bytes@) ==> r is Some,
{
    String::from_utf8(bytes).ok()
}

/// Appends the text field encoding of `s`.
pub fn enc_str(out: &mut Vec<u8>, s: &str)
    ensures
        final(out)@ == old(out)@ + spec_enc_str(s@),
{
    let bytes = s.as_bytes_vec();
    enc_bytes(out, &bytes);
}

/// Reads a text field at `pos`, as `sdec_str` describes.
pub fn dec_str(buf: &Vec<u8>, pos: usize) -> (r: Option<(String, usize)>)
    ensures
        r matches Some((s, end)) ==> sdec_str(buf@, pos as int) == Some((s@, end as int)),
        r is None ==> sdec_str(buf@, pos as int) is None,
{
    let step = dec_bytes(buf, pos);
    match step {
        Some((b, end)) => {
            let ghost bs = b@;
            let s_opt = bytes_to_string(b);
            match s_opt {
                Some(s) => {
                    proof {
                        vstd::utf8::encode_utf8_valid_utf8(s@);
                        vstd::utf8::encode_utf8_decode_utf8(s@);
                    }
                    Some((s, end))
                },
                _ => None,
            }
        },
        _ => None,
    }
}

/// The image of a row of 64-bit values, in order.
pub open spec fn spec_enc_u64s(s: Seq<u64>) -> Seq<u8>
    decreases s.len(),
{
    if s.len() == 0 {
        Seq::empty()
    } else {
        spec_enc_u64(s[0]) + spec_enc_u64s(s.drop_first())
    }
}

/// Encoding distributes over appending one value at the back.
pub proof fn lemma_enc_u64s_snoc(s: Seq<u64>, x: u64)
    ensures
        spec_enc_u64s(s.push(x)) == spec_enc_u64s(s) + spec_enc_u64(x),
    decreases s.len(),
{
    if s.len() == 0 {
        assert(s.push(x)[0] == x);
        assert(s.push(x).drop_first() =~= Seq::<u64>::empty());
        assert(spec_enc_u64s(Seq::<u64>::empty()) == Seq::<u8>::empty());
        assert(spec_enc_u64s(s.push(x)) =~= spec_enc_u64s(s) + spec_enc_u64(x));
    } else {
        assert(s.push(x).drop_first() =~= s.drop_first().push(x));
        lemma_enc_u64s_snoc(s.drop_first(), x);
        assert(spec_enc_u64(s[0]) + (spec_enc_u64s(s.drop_first()) + spec_enc_u64(x)) =~= (
        spec_enc_u64(s[0]) + spec_enc_u64s(s.drop_first())) + spec_enc_u64(x));
    }
}

/// What reading `n` 64-bit values from `pos` yields.
pub open spec fn sdec_u64s(buf: Seq<u8>, pos: int, n: nat) -> Option<(Seq<u64>, int)>
    decreases n,
{
    if n == 0 {
        Some((Seq::<u64>::empty(), pos))
    } else {
        match sdec_u64(buf, pos) {
            Some((x, p)) => match sdec_u64s(buf, p, (n - 1) as nat) {
                Some((s, p2)) => Some((seq![x] + s, p2)),
                _ => Option::<(Seq<u64>, int)>::None,
            },
            _ => Option::<(Seq<u64>, int)>::None,
        }
    }
}

/// Reading at the front of an encoded row of values yields that row.
pub proof fn lemma_dec_enc_u64s(pre: Seq<u8>, s: Seq<u64>, suf: Seq<u8>)
    ensures
        sdec_u64s(pre + spec_enc_u64s(s) + suf, pre.len() as int, s.len()) == Some(
            (s, (pre.len() + 8 * s.len()) as int),
        ),
    decreases s.len(),
{
    if s.len() == 0 {
        assert(pre + spec_enc_u64s(s) + suf =~= pre + suf);
    } else {
        let buf = pre + spec_enc_u64s(s) + suf;
        let rest = spec_enc_u64s(s.drop_first()) + suf;
        assert(buf =~= pre + spec_enc_u64(s[0]) + rest);
        lemma_dec_enc_u64(pre, s[0], rest);
        let pre1 = pre + spec_enc_u64(s[0]);
        assert(buf =~= pre1 + spec_enc_u64s(s.drop_first()) + suf);
        lemma_dec_enc_u64s(pre1, s.drop_first(), suf);
        assert(seq![s[0]] + s.drop_first() =~= s);
        lemma_spec_le_len(s[0] as nat, 8);
    }
}

/// The encoding of an id list: its count, then the ids.
pub open spec fn spec_enc_id_list(s: Seq<u64>) -> Seq<u8> {
    spec_enc_u64(s.len() as u64) + spec_enc_u64s(s)
}

/// What reading an id list at `pos` yields.
pub open spec fn sdec_id_list(buf: Seq<u8>, pos: int) -> Option<(Seq<u64>, int)> {
    match sdec_u64(buf, pos) {
        Some((n, p)) => sdec_u64s(buf, p, n as nat),
        _ => Option::<(Seq<u64>, int)>::None,
    }
}

/// Appends the id list encoding of `s`.
pub fn enc_id_list(out: &mut Vec<u8>, s: &Vec<u64>)
    ensures
        final(out)@ == old(out)@ + spec_enc_id_list(s@),
{
    enc_u64(out, s.len() as u64);
    let ghost head = out@;
    let mut i: usize = 0;
    while i < s.len()
        invariant
            i <= s@.len(),
            out@ == head + spec_enc_u64s(s@.subrange(0, i as int)),
        decreases s@.len() - i,
    {
        proof {
            assert(spec_enc_u64s(s@.subrange(0, 0int)) =~= Seq::<u8>::empty());
        }
        enc_u64(out, s[i]);
        proof {
            assert(s@.subrange(0, i + 1) =~= s@.subrange(0, i as int).push(s@[i as int]));
            lemma_enc_u64s_snoc(s@.subrange(0, i as int), s@[i as int]);
        }
        i = i + 1;
    }
    proof {
        assert(spec_enc_u64s(s@.subrange(0, 0int)) =~= Seq::<u8>::empty());
        assert(s@.subrange(0, s@.len() as int) =~= s@);
        assert(out@ =~= old(out)@ + spec_enc_id_list(s@));
    }
}

/// Reads an id list at `pos`, as `sdec_id_list` describes.
pub fn dec_id_list(buf: &Vec<u8>, pos: usize) -> (r: Option<(Vec<u64>, usize)>)
    ensures
        r matches Some((s, end)) ==> sdec_id_list(buf@, pos as int) == Some((s@, end as int)),
        r is None ==> sdec_id_list(buf@, pos as int) is None,
{
    let s0 = dec_u64(buf, pos);
    let (n, p0) = match s0 {
        Some(x) => x,
        _ => {
            return None;
        },
    };
    let mut ids: Vec<u64> = Vec::new();
    let mut p: usize = p0;
    let mut k: u64 = 0;
    proof {
        assert(ids@ =~= Seq::<u64>::empty());
    }
    while k < n
        invariant
            0 <= k <= n,
            ids@.len() == k,
            sdec_id_list(buf@, pos as int) == sdec_u64s(buf@, p0 as int, n as nat),
            sdec_u64s(buf@, p0 as int, n as nat) == (match sdec_u64s(
                buf@,
                p as int,
                (n - k) as nat,
            ) {
                Some((s, q)) => Some((ids@ + s, q)),
                _ => Option::<(Seq<u64>, int)>::None,
            }),
        decreases n - k,
    {
        let step = dec_u64(buf, p);
        let (x, q) = match step {
            Some(y) => y,
            _ => {
                proof {
                    assert(sdec_u64s(buf@, p as int, (n - k) as nat) is None);
                }
                return None;
            },
        };
        let ghost ids0 = ids@;
        ids.push(x);
        p = q;
        k = k + 1;
        proof {
            let tail = sdec_u64s(buf@, p as int, (n - k) as nat);
            match tail {
                Some((s2, q2)) => {
                    assert(ids0 + (seq![x] + s2) =~= ids@ + s2);
                },
                _ => {},
            }
        }
    }
    proof {
        assert(ids@ + Seq::<u64>::empty() =~= ids@);
    }
    Some((ids, p))
}

/// The image of a row of text fields, in order.
pub open spec fn spec_enc_strs(s: Seq<Seq<char>>) -> Seq<u8>
    decreases s.len(),
{
    if s.len() == 0 {
        Seq::empty()
    } else {
        spec_enc_str(s[0]) + spec_enc_strs(s.drop_first())
    }
}

/// Encoding distributes over appending one text field at the back.
pub proof fn lemma_enc_strs_snoc(s: Seq<Seq<char>>, x: Seq<char>)
    ensures
        spec_enc_strs(s.push(x)) == spec_enc_strs(s) + spec_enc_str(x),
    decreases s.len(),
{
    if s.len() == 0 {
        assert(s.push(x)[0] == x);
        assert(s.push(x).drop_first() =~= Seq::<Seq<char>>::empty());
        assert(spec_enc_strs(Seq::<Seq<char>>::empty()) == Seq::<u8>::empty());
        assert(spec_enc_strs(s.push(x)) =~= spec_enc_strs(s) + spec_enc_str(x));
    } else {
        assert(s.push(x).drop_first() =~= s.drop_first().push(x));
        lemma_enc_strs_snoc(s.drop_first(), x);
        assert(spec_enc_str(s[0]) + (spec_enc_strs(s.drop_first()) + spec_enc_str(x)) =~= (
        spec_enc_str(s[0]) + spec_enc_strs(s.drop_first())) + spec_enc_str(x));
    }
}

/// What reading `n` text fields from `pos` yields.
pub open spec fn sdec_strs(buf: Seq<u8>, pos: int, n: nat) -> Option<(Seq<Seq<char>>, int)>
    decreases n,
{
    if n == 0 {
        Some((Seq::<Seq<char>>::empty(), pos))
    } else {
        match sdec_str(buf, pos) {
            Some((x, p)) => match sdec_strs(buf, p, (n - 1) as nat) {
                Some((s, p2)) => Some((seq![x] + s, p2)),
                _ => Option::<(Seq<Seq<char>>, int)>::None,
            },
            _ => Option::<(Seq<Seq<char>>, int)>::None,
        }
    }
}

/// Reading at the front of an encoded row of text fields yields that row.
pub proof fn lemma_dec_enc_strs(pre: Seq<u8>, s: Seq<Seq<char>>, suf: Seq<u8>)
    requires
        forall|i: int| 0 <= i < s.len() ==> encode_utf8(#[trigger] s[i]).len()
            < 0x10000000000000000,
    ensures
        sdec_strs(pre + spec_enc_strs(s) + suf, pre.len() as int, s.len()) == Some(
            (s, (pre.len() + spec_enc_strs(s).len()) as int),
        ),
    decreases s.len(),
{
    if s.len() == 0 {
        assert(pre + spec_enc_strs(s) + suf =~= pre + suf);
    } else {
        let buf = pre + spec_enc_strs(s) + suf;
        let rest = spec_enc_strs(s.drop_first()) + suf;
        assert(buf =~= pre + spec_enc_str(s[0]) + rest);
        lemma_dec_enc_str(pre, s[0], rest);
        let pre1 = pre + spec_enc_str(s[0]);
        assert(buf =~= pre1 + spec_enc_strs(s.drop_first()) + suf);
        lemma_dec_enc_strs(pre1, s.drop_first(), suf);
        assert(seq![s[0]] + s.drop_first() =~= s);
        lemma_spec_le_len(encode_utf8(s[0]).len() as u64 as nat, 8);
    }
}

/// The encoding of a text list: its count, then the fields.
pub open spec fn spec_enc_str_list(s: Seq<Seq<char>>) -> Seq<u8> {
    spec_enc_u64(s.len() as u64) + spec_enc_strs(s)
}

/// What reading a text list at `pos` yields.
pub open spec fn sdec_str_list(buf: Seq<u8>, pos: int) -> Option<(Seq<Seq<char>>, int)> {
    match sdec_u64(buf, pos) {
        Some((n, p)) => sdec_strs(buf, p, n as nat),
        _ => Option::<(Seq<Seq<char>>, int)>::None,
    }
}

/// Reading at the front of an encoded text list yields that list.
pub proof fn lemma_dec_enc_str_list(pre: Seq<u8>, s: Seq<Seq<char>>, suf: Seq<u8>)
    requires
        s.len() < 0x10000000000000000,
        forall|i: int| 0 <= i < s.len() ==> encode_utf8(#[trigger] s[i]).len()
            < 0x10000000000000000,
    ensures
        sdec_str_list(pre + spec_enc_str_list(s) + suf, pre.len() as int) == Some(
            (s, (pre.len() + 8 + spec_enc_strs(s).len()) as int),
        ),
{
    let buf = pre + spec_enc_str_list(s) + suf;
    let rest = spec_enc_strs(s) + suf;
    assert(buf =~= pre + spec_enc_u64(s.len() as u64) + rest);
    lemma_dec_enc_u64(pre, s.len() as u64, rest);
    let pre1 = pre + spec_enc_u64(s.len() as u64);
    assert(buf =~= pre1 + spec_enc_strs(s) + suf);
    lemma_dec_enc_strs(pre1, s, suf);
    lemma_spec_le_len(s.len() as u64 as nat, 8);
}

/// Appends the text list encoding of the views of `s`.
pub fn enc_str_list(out: &mut Vec<u8>, s: &Vec<String>)
    ensures
        final(out)@ == old(out)@ + spec_enc_str_list(s@.map_values(|x: String| x@)),
{
    let ghost views = s@.map_values(|x: String| x@);
    enc_u64(out, s.len() as u64);
    let ghost head = out@;
    let mut i: usize = 0;
    while i < s.len()
        invariant
            i <= s@.len(),
            views == s@.map_values(|x: String| x@),
            out@ == head + spec_enc_strs(views.subrange(0, i as int)),
        decreases s@.len() - i,
    {
        proof {
            assert(spec_enc_strs(views.subrange(0, 0int)) =~= Seq::<u8>::empty());
        }
        enc_str(out, s[i].as_str());
        proof {
            assert(views.subrange(0, i + 1) =~= views.subrange(0, i as int).push(
                views[i as int],
            ));
            lemma_enc_strs_snoc(views.subrange(0, i as int), views[i as int]);
        }
        i = i + 1;
    }
    proof {
        assert(spec_enc_strs(views.subrange(0, 0int)) =~= Seq::<u8>::empty());
        assert(views.subrange(0, views.len() as int) =~= views);
        assert(out@ =~= old(out)@ + spec_enc_str_list(views));
    }
}

/// Reads a text list at `pos`, as `sdec_str_list` describes.
pub fn dec_str_list(buf: &Vec<u8>, pos: usize) -> (r: Option<(Vec<String>, usize)>)
    ensures
        r matches Some((s, end)) ==> sdec_str_list(buf@, pos as int) == Some(
            (s@.map_values(|x: String| x@), end as int),
        ),
        r is None ==> sdec_str_list(buf@, pos as int) is None,
{
    let s0 = dec_u64(buf, pos);
    let (n, p0) = match s0 {
        Some(x) => x,
        _ => {
            return None;
        },
    };
    let mut out: Vec<String> = Vec::new();
    let mut p: usize = p0;
    let mut k: u64 = 0;
    proof {
        assert(out@.map_values(|x: String| x@) =~= Seq::<Seq<char>>::empty());
    }
    while k < n
        invariant
            0 <= k <= n,
            out@.len() == k,
            sdec_str_list(buf@, pos as int) == sdec_strs(buf@, p0 as int, n as nat),
            sdec_strs(buf@, p0 as int, n as nat) == (match sdec_strs(
                buf@,
                p as int,
                (n - k) as nat,
            ) {
                Some((s, q)) => Some((out@.map_values(|x: String| x@) + s, q)),
                _ => Option::<(Seq<Seq<char>>, int)>::None,
            }),
        decreases n - k,
    {
        let step = dec_str(buf, p);
        let (x, q) = match step {
            Some(y) => y,
            _ => {
                proof {
                    assert(sdec_strs(buf@, p as int, (n - k) as nat) is None);
                }
                return None;
            },
        };
        let ghost out0 = out@;
        out.push(x);
        p = q;
        k = k + 1;
        proof {
            out0.lemma_push_map_commute(|y: String| y@, out@.last());
            assert(out@ == out0.push(out@.last()));
            let tail = sdec_strs(buf@, p as int, (n - k) as nat);
            match tail {
                Some((s2, q2)) => {
                    assert(out0.map_values(|y: String| y@) + (seq![out@.last()@] + s2)
                        =~= out@.map_values(|y: String| y@) + s2);
                },
                _ => {},
            }
        }
    }
    proof {
        assert(out@.map_values(|x: String| x@) + Seq::<Seq<char>>::empty() =~= out@.map_values(
            |x: String| x@,
        ));
    }
    Some((out, p))
}

} // verus!
