//! Value generators biased towards edge cases.

use vstd::prelude::*;
use vstd::utf8::*;

use crate::cesu8::{lemma_encode_utf8_push, push_utf8, string_from_utf8};
use crate::testkit::rng::{draw_below, draw_below_u64, draw_index, draw_u64, fill_byte, steps, Pcg32};

verus! {

broadcast use vstd::utf8::encode_utf8_valid_utf8, vstd::utf8::encode_utf8_decode_utf8;

/// The boundary values [`u64_edgy`] picks from.
pub open spec fn u64_boundaries() -> Seq<u64> {
    seq![0, 1, 127, 128, 16_383, 16_384, 0xffff_ffff_ffff_ffff, 0xffff_ffff_ffff_fffe]
}

/// What [`u64_edgy`] gives from generator state `s`, and the state after.
pub open spec fn edgy_u64(s: (u64, u64)) -> (u64, (u64, u64)) {
    let (pick, s1) = draw_below(s, 9);
    if pick == 0 {
        let (i, s2) = draw_index(s1, 8);
        (u64_boundaries()[i as int], s2)
    } else if pick == 1 {
        let (shift, s2) = draw_below(s1, 64);
        let v = 1u64 << shift;
        let (how, s3) = draw_below(s2, 3);
        (if how == 0 {
            v
        } else if how == 1 {
            v.wrapping_sub(1)
        } else {
            v.wrapping_add(1)
        }, s3)
    } else if pick == 2 {
        draw_below_u64(s1, 256)
    } else {
        draw_u64(s1)
    }
}

/// A `u64` that is an "interesting" boundary value about a third of the time.
pub fn u64_edgy(rng: &mut Pcg32) -> (r: u64)
    ensures
        (r, final(rng)@) == edgy_u64(old(rng)@),
{
    let pick = rng.below(9);
    if pick == 0 {
        let table: [u64; 8] = [0, 1, 127, 128, 16_383, 16_384, u64::MAX, u64::MAX - 1];
        assert(table@ =~= u64_boundaries());
        let i = rng.index(8);
        table[i]
    } else if pick == 1 {
        let shift = rng.below(64);
        let v = 1u64 << shift;
        let how = rng.below(3);
        if how == 0 {
            v
        } else if how == 1 {
            v.wrapping_sub(1)
        } else {
            v.wrapping_add(1)
        }
    } else if pick == 2 {
        rng.below_u64(256)
    } else {
        rng.next_u64()
    }
}

/// The boundary values [`i64_edgy`] picks from.
pub open spec fn i64_boundaries() -> Seq<i64> {
    seq![0i64, 1i64, -1i64, i64::MAX, i64::MIN, -64i64, 63i64]
}

/// What [`i64_edgy`] gives from generator state `s`, and the state after.
pub open spec fn edgy_i64(s: (u64, u64)) -> (i64, (u64, u64)) {
    let (pick, s1) = draw_below(s, 6);
    if pick == 0 {
        let (i, s2) = draw_index(s1, 7);
        (i64_boundaries()[i as int], s2)
    } else {
        let (v, s2) = edgy_u64(s1);
        (v as i64, s2)
    }
}

/// An `i64` that is an "interesting" boundary value about half of the time;
/// otherwise the bits of [`u64_edgy`].
pub fn i64_edgy(rng: &mut Pcg32) -> (r: i64)
    ensures
        (r, final(rng)@) == edgy_i64(old(rng)@),
{
    let pick = rng.below(6);
    if pick == 0 {
        let table: [i64; 7] = [0, 1, -1, i64::MAX, i64::MIN, -64, 63];
        assert(table@ =~= i64_boundaries());
        let i = rng.index(7);
        table[i]
    } else {
        u64_edgy(rng) as i64
    }
}

/// What [`len`] gives from generator state `s`, and the state after.
pub open spec fn gen_len(s: (u64, u64), max: usize) -> (usize, (u64, u64)) {
    let (r, s1) = draw_below(s, 4);
    if r < 1 {
        draw_index(s1, (max + 1) as usize)
    } else {
        draw_index(s1, ((if max < 8 { max } else { 8 }) + 1) as usize)
    }
}

/// Length in `0..=max`, biased towards short.
pub fn len(rng: &mut Pcg32, max: usize) -> (r: usize)
    requires
        max < usize::MAX,
    ensures
        (r, final(rng)@) == gen_len(old(rng)@, max),
        r <= max,
{
    if rng.ratio(1, 4) {
        rng.index(max + 1)
    } else {
        let small = if max < 8 { max } else { 8 };
        rng.index(small + 1)
    }
}

/// What [`bytes`] gives from generator state `s`, and the state after.
pub open spec fn gen_bytes(s: (u64, u64), max_len: usize) -> (Seq<u8>, (u64, u64)) {
    let (n, s1) = gen_len(s, max_len);
    (Seq::new(n as nat, |i: int| fill_byte(s1, i as nat)), steps(s1, ((n + 3) / 4) as nat))
}

/// Random bytes, as many as [`len`] picks.
pub fn bytes(rng: &mut Pcg32, max_len: usize) -> (out: Vec<u8>)
    requires
        max_len < usize::MAX,
    ensures
        (out@, final(rng)@) == gen_bytes(old(rng)@, max_len),
{
    let n = len(rng, max_len);
    let ghost s1 = rng@;
    let mut out = vec![0u8; n];
    rng.fill_bytes(out.as_mut_slice());
    assert(out@ =~= gen_bytes(old(rng)@, max_len).0);
    out
}

/// The non-ASCII characters [`string`] picks from, by code point.
pub open spec fn special_chars() -> Seq<u32> {
    seq![0xe9, 0xdf, 0x65e5, 0x1_f980, 0]
}

/// What one character of [`string`] is from generator state `s`, by code
/// point, and the state after.
pub open spec fn gen_char(s: (u64, u64)) -> (u32, (u64, u64)) {
    let (kind, s1) = draw_below(s, 4);
    if kind == 0 {
        let (v, s2) = draw_below(s1, 0xd7ff);
        ((v + 1) as u32, s2)
    } else if kind == 1 {
        let (i, s2) = draw_index(s1, 5);
        (special_chars()[i as int], s2)
    } else {
        let (v, s2) = draw_below(s1, 95);
        ((0x20 + v) as u32, s2)
    }
}

/// The first `n` characters [`string`] draws from state `s`, and the state
/// after.
pub open spec fn gen_chars(s: (u64, u64), n: nat) -> (Seq<char>, (u64, u64))
    decreases n,
{
    if n == 0 {
        (Seq::empty(), s)
    } else {
        let (cs, s1) = gen_chars(s, (n - 1) as nat);
        let (c, s2) = gen_char(s1);
        (cs.push(c as char), s2)
    }
}

/// What [`string`] gives from generator state `s`, and the state after.
pub open spec fn gen_string(s: (u64, u64), max_chars: usize) -> (Seq<char>, (u64, u64)) {
    let (n, s1) = gen_len(s, max_chars);
    gen_chars(s1, n as nat)
}

/// A string mixing ASCII and multi-byte scalar values.
pub fn string(rng: &mut Pcg32, max_chars: usize) -> (text: String)
    requires
        max_chars < usize::MAX,
    ensures
        (text@, final(rng)@) == gen_string(old(rng)@, max_chars),
{
    let n = len(rng, max_chars);
    let ghost s1 = rng@;
    let mut out: Vec<u8> = Vec::new();
    let ghost mut chars: Seq<char> = Seq::empty();
    let mut i: usize = 0;
    while i < n
        invariant
            i <= n,
            out@ == encode_utf8(chars),
            (chars, rng@) == gen_chars(s1, i as nat),
        decreases n - i,
    {
        let ghost before = rng@;
        let kind = rng.below(4);
        let cp: u32 = if kind == 0 {
            rng.below(0xd7ff) + 1
        } else if kind == 1 {
            let table: [u32; 5] = [0xe9, 0xdf, 0x65e5, 0x1_f980, 0];
            assert(table@ =~= special_chars());
            let j = rng.index(5);
            table[j]
        } else {
            0x20 + rng.below(95)
        };
        assert((cp, rng@) == gen_char(before));
        assert(is_scalar(cp));
        let ghost c = cp as char;
        assert(c as u32 == cp);
        push_utf8(&mut out, cp);
        proof {
            lemma_encode_utf8_push(chars, c);
            chars = chars.push(c);
        }
        i = i + 1;
    }
    string_from_utf8(out).unwrap()
}

/// What [`mutate`] gives from generator state `s`, and the state after.
pub open spec fn gen_mutation(s: (u64, u64), valid: Seq<u8>) -> (Seq<u8>, (u64, u64)) {
    let (how, s1) = draw_below(s, 5);
    let n = valid.len();
    if how == 0 && n > 0 {
        let (i, s2) = draw_index(s1, n as usize);
        let (bit, s3) = draw_below(s2, 8);
        (valid.update(i as int, valid[i as int] ^ (1u8 << bit)), s3)
    } else if how == 1 && n > 0 {
        let (keep, s2) = draw_index(s1, n as usize);
        (valid.take(keep as int), s2)
    } else if how == 2 {
        let (at, s2) = draw_index(s1, (n + 1) as usize);
        let (b, s3) = draw_below(s2, 256);
        (valid.insert(at as int, b as u8), s3)
    } else if how == 3 && n > 0 {
        let (i, s2) = draw_index(s1, n as usize);
        let (j, s3) = draw_index(s2, 4);
        (valid.update(i as int, seq![0x00u8, 0x7f, 0x80, 0xff][j as int]), s3)
    } else {
        gen_bytes(s1, 64)
    }
}

/// A buffer that is either random bytes or a mutation of `valid`: one bit
/// flipped, cut short, one byte inserted or one byte overwritten.
pub fn mutate(rng: &mut Pcg32, valid: &[u8]) -> (out: Vec<u8>)
    requires
        valid@.len() < usize::MAX,
    ensures
        (out@, final(rng)@) == gen_mutation(old(rng)@, valid@),
{
    let mut out: Vec<u8> = Vec::new();
    crate::write::append_bytes(&mut out, valid);
    assert(out@ =~= valid@);
    let how = rng.below(5);
    if how == 0 && out.len() > 0 {
        let i = rng.index(out.len());
        let bit = rng.below(8);
        let flipped = out[i] ^ (1u8 << bit);
        out[i] = flipped;
    } else if how == 1 && out.len() > 0 {
        let keep = rng.index(out.len());
        out.truncate(keep);
    } else if how == 2 {
        let at = rng.index(out.len() + 1);
        let b = rng.below(256);
        out.insert(at, b as u8);
    } else if how == 3 && out.len() > 0 {
        let i = rng.index(out.len());
        let table: [u8; 4] = [0x00, 0x7f, 0x80, 0xff];
        assert(table@ =~= seq![0x00u8, 0x7f, 0x80, 0xff]);
        let j = rng.index(4);
        out[i] = table[j];
    } else {
        out = bytes(rng, 64);
    }
    out
}

} // verus!
