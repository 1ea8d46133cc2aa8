//! Java's "modified UTF-8", the string encoding of NBT.
//!
//! It differs from UTF-8 in two ways: NUL is written as the two bytes
//! `C0 80`, and characters outside the Basic Multilingual Plane are written
//! as a UTF-16 surrogate pair, each half encoded as three bytes.

use std::borrow::Cow;
use vstd::prelude::*;
use vstd::utf8::*;

verus! {

broadcast use vstd::utf8::encode_utf8_valid_utf8, vstd::utf8::encode_utf8_decode_utf8;

/// The bytes are neither UTF-8 nor modified UTF-8.
#[derive(Debug, Clone, Copy, PartialEq, Eq)]
pub struct DecodeError;

/// The code unit that three bytes `ED xx yy` spell, a surrogate half when
/// `xx` is in `A0..=BF`.
pub open spec fn surrogate_half(second: u8, third: u8) -> u32 {
    0xd000u32 | (((second & 0x3f) as u32) << 6u32) | ((third & 0x3f) as u32)
}

/// The scalar value a high and a low surrogate half stand for together.
pub open spec fn pair_scalar(high: u32, low: u32) -> u32 {
    (0x1_0000u32 + ((((high - 0xd800) as u32) << 10u32) | ((low - 0xdc00) as u32))) as u32
}

/// The first unit of modified UTF-8 at the front of `b`: the scalar value
/// it stands for, and how many bytes it takes. `None` when `b` does not
/// start with one.
///
/// NUL must be written as `C0 80`, a character outside the Basic
/// Multilingual Plane as a pair of three-byte surrogate halves, and every
/// other character as in UTF-8.
pub open spec fn java_unit(b: Seq<u8>) -> Option<(u32, nat)> {
    if b.len() == 0 {
        None
    } else {
        let b0 = b[0];
        if 0x01 <= b0 <= 0x7f {
            Some((b0 as u32, 1))
        } else if b0 == 0xc0 {
            if b.len() >= 2 && b[1] == 0x80 {
                Some((0, 2))
            } else {
                None
            }
        } else if 0xc2 <= b0 <= 0xdf {
            if b.len() >= 2 && is_continuation_byte(b[1]) {
                Some((codepoint_width_2(b0, b[1]), 2))
            } else {
                None
            }
        } else if 0xe0 <= b0 <= 0xef {
            if b.len() >= 3 && is_continuation_byte(b[1]) && is_continuation_byte(b[2]) {
                let b1 = b[1];
                if (b0 == 0xe0 && 0xa0 <= b1) || (b0 != 0xe0 && b0 != 0xed) || (b0 == 0xed && b1
                    <= 0x9f) {
                    Some((codepoint_width_3(b0, b1, b[2]), 3))
                } else if b0 == 0xed && b1 <= 0xaf {
                    if b.len() >= 6 && b[3] == 0xed && 0xb0 <= b[4] <= 0xbf && is_continuation_byte(
                        b[5],
                    ) {
                        Some((pair_scalar(surrogate_half(b1, b[2]), surrogate_half(b[4], b[5])), 6))
                    } else {
                        None
                    }
                } else {
                    None
                }
            } else {
                None
            }
        } else {
            None
        }
    }
}

/// `prefix` in front of `rest`, when there is a rest.
pub open spec fn prepend_chars(prefix: Seq<char>, rest: Option<Seq<char>>) -> Option<Seq<char>> {
    match rest {
        Some(r) => Some(prefix + r),
        None => None,
    }
}

/// The characters that `b` spells in modified UTF-8 throughout.
pub open spec fn java_decode(b: Seq<u8>) -> Option<Seq<char>>
    decreases b.len(),
{
    if b.len() == 0 {
        Some(Seq::empty())
    } else {
        match java_unit(b) {
            Some((c, n)) => if 1 <= n <= b.len() {
                prepend_chars(seq![c as char], java_decode(b.skip(n as int)))
            } else {
                None
            },
            None => None,
        }
    }
}

/// What NBT reads a string's bytes as: plain UTF-8 as it is, raw NUL and
/// four-byte sequences included; anything else as modified UTF-8
/// throughout.
pub open spec fn cesu8_decode(b: Seq<u8>) -> Option<Seq<char>> {
    if valid_utf8(b) {
        Some(decode_utf8(b))
    } else {
        java_decode(b)
    }
}

/// The three-byte form of a lone surrogate code unit.
pub open spec fn surrogate_bytes(unit: u16) -> Seq<u8> {
    seq![
        0xe0u8 | ((unit >> 12u16) as u8),
        0x80u8 | (((unit >> 6u16) & 0x3f) as u8),
        0x80u8 | ((unit & 0x3f) as u8),
    ]
}

/// The high surrogate of a scalar value above the Basic Multilingual Plane.
pub open spec fn high_surrogate(c: u32) -> u16 {
    (0xd800u32 + (((c - 0x1_0000) as u32) >> 10u32)) as u16
}

/// The low surrogate of a scalar value above the Basic Multilingual Plane.
pub open spec fn low_surrogate(c: u32) -> u16 {
    (0xdc00u32 + (((c - 0x1_0000) as u32) & 0x3ff)) as u16
}

/// The modified UTF-8 spelling of one character.
pub open spec fn java_encode_char(c: char) -> Seq<u8> {
    let u = c as u32;
    if u == 0 {
        seq![0xc0u8, 0x80u8]
    } else if u >= 0x1_0000 {
        surrogate_bytes(high_surrogate(u)) + surrogate_bytes(low_surrogate(u))
    } else {
        encode_scalar(u)
    }
}

/// The modified UTF-8 spelling of `chars`.
pub open spec fn java_encode(chars: Seq<char>) -> Seq<u8>
    decreases chars.len(),
{
    if chars.len() == 0 {
        Seq::empty()
    } else {
        java_encode_char(chars[0]) + java_encode(chars.drop_first())
    }
}

/// `core::str::from_utf8`: the text when the bytes are valid UTF-8, and
/// nothing when they are not, as its documentation says.
#[verifier::external_body]
fn str_from_utf8(bytes: &[u8]) -> (text: Option<&str>)
    ensures
        text is Some <==> valid_utf8(bytes@),
        text matches Some(t) ==> t@ == decode_utf8(bytes@),
{
    core::str::from_utf8(bytes).ok()
}

/// `String::from_utf8`: the text when the bytes are valid UTF-8, and
/// nothing when they are not, as its documentation says.
#[verifier::external_body]
pub(crate) fn string_from_utf8(bytes: Vec<u8>) -> (text: Option<String>)
    ensures
        text is Some <==> valid_utf8(bytes@),
        text matches Some(t) ==> t@ == decode_utf8(bytes@),
{
    String::from_utf8(bytes).ok()
}

/* Facts about single units, settled bit by bit. */

proof fn lemma_unit_width_1(b0: u8)
    requires
        0x01 <= b0 <= 0x7f,
    ensures
        is_scalar(b0 as u32),
        encode_scalar(b0 as u32) == seq![b0],
{
    let c = b0 as u32;
    assert(has_width_1_encoding(c) && leading_byte_width_1(c) == b0) by (bit_vector)
        requires
            0x01 <= b0 <= 0x7f,
            c == b0 as u32,
    ;
}

proof fn lemma_unit_nul()
    ensures
        is_scalar(0),
        encode_scalar(0) == seq![0u8],
{
    assert(leading_byte_width_1(0) == 0) by (bit_vector);
}

proof fn lemma_unit_width_2(b0: u8, b1: u8)
    requires
        0xc2 <= b0 <= 0xdf,
        is_continuation_byte(b1),
    ensures
        is_scalar(codepoint_width_2(b0, b1)),
        encode_scalar(codepoint_width_2(b0, b1)) == seq![b0, b1],
{
    let c = codepoint_width_2(b0, b1);
    assert(has_width_2_encoding(c) && leading_byte_width_2(c) == b0 && last_continuation_byte(c)
        == b1) by (bit_vector)
        requires
            0xc2 <= b0 <= 0xdf,
            0x80 <= b1 <= 0xbf,
            c == codepoint_width_2(b0, b1),
    ;
}

proof fn lemma_unit_width_3(b0: u8, b1: u8, b2: u8)
    requires
        0xe0 <= b0 <= 0xef,
        is_continuation_byte(b1),
        is_continuation_byte(b2),
        (b0 == 0xe0 && 0xa0 <= b1) || (b0 != 0xe0 && b0 != 0xed) || (b0 == 0xed && b1 <= 0x9f),
    ensures
        is_scalar(codepoint_width_3(b0, b1, b2)),
        encode_scalar(codepoint_width_3(b0, b1, b2)) == seq![b0, b1, b2],
{
    let c = codepoint_width_3(b0, b1, b2);
    assert(has_width_3_encoding(c) && leading_byte_width_3(c) == b0
        && second_last_continuation_byte(c) == b1 && last_continuation_byte(c) == b2)
        by (bit_vector)
        requires
            0xe0 <= b0 <= 0xef,
            0x80 <= b1 <= 0xbf,
            0x80 <= b2 <= 0xbf,
            (b0 == 0xe0 && 0xa0 <= b1) || (b0 != 0xe0 && b0 != 0xed) || (b0 == 0xed && b1 <= 0x9f),
            c == codepoint_width_3(b0, b1, b2),
    ;
}

proof fn lemma_unit_pair(b1: u8, b2: u8, b4: u8, b5: u8)
    requires
        0xa0 <= b1 <= 0xaf,
        is_continuation_byte(b2),
        0xb0 <= b4 <= 0xbf,
        is_continuation_byte(b5),
    ensures
        has_width_4_encoding(pair_scalar(surrogate_half(b1, b2), surrogate_half(b4, b5))),
        0xd800 <= surrogate_half(b1, b2) <= 0xdbff,
        0xdc00 <= surrogate_half(b4, b5) <= 0xdfff,
{
    let high = surrogate_half(b1, b2);
    let low = surrogate_half(b4, b5);
    let c = pair_scalar(high, low);
    assert(0xd800 <= high <= 0xdbff && 0xdc00 <= low <= 0xdfff && 0x1_0000 <= c <= 0x10_ffff)
        by (bit_vector)
        requires
            0xa0 <= b1 <= 0xaf,
            0x80 <= b2 <= 0xbf,
            0xb0 <= b4 <= 0xbf,
            0x80 <= b5 <= 0xbf,
            high == surrogate_half(b1, b2),
            low == surrogate_half(b4, b5),
            c == pair_scalar(high, low),
    ;
}

pub(crate) proof fn lemma_encode_utf8_push(chars: Seq<char>, c: char)
    ensures
        encode_utf8(chars.push(c)) == encode_utf8(chars) + encode_scalar(c as u32),
    decreases chars.len(),
{
    if chars.len() == 0 {
        assert(chars.push(c).drop_first() =~= Seq::<char>::empty());
        assert(chars.push(c)[0] == c);
        assert(encode_utf8(chars.push(c)) == encode_scalar(c as u32) + encode_utf8(
            Seq::<char>::empty(),
        ));
        assert(encode_utf8(chars) == Seq::<u8>::empty());
        assert(encode_utf8(chars.push(c)) =~= encode_utf8(chars) + encode_scalar(c as u32));
    } else {
        lemma_encode_utf8_push(chars.drop_first(), c);
        assert(chars.push(c).drop_first() =~= chars.drop_first().push(c));
        assert(chars.push(c)[0] == chars[0]);
        let head = encode_scalar(chars[0] as u32);
        assert(encode_utf8(chars.push(c)) == head + encode_utf8(chars.drop_first().push(c)));
        assert(encode_utf8(chars) == head + encode_utf8(chars.drop_first()));
        assert(encode_utf8(chars.push(c)) =~= encode_utf8(chars) + encode_scalar(c as u32));
    }
}

/// Takes the byte at `pos`, if it is `want`.
fn expect(bytes: &[u8], pos: &mut usize, want: u8) -> (r: Result<u8, DecodeError>)
    requires
        *old(pos) <= bytes@.len(),
    ensures
        match r {
            Ok(b) => *old(pos) < bytes@.len() && bytes@[*old(pos) as int] == want && b == want
                && *final(pos) == *old(pos) + 1,
            Err(_) => *old(pos) >= bytes@.len() || bytes@[*old(pos) as int] != want,
        },
{
    if *pos < bytes.len() && bytes[*pos] == want {
        *pos = *pos + 1;
        Ok(want)
    } else {
        Err(DecodeError)
    }
}

/// Takes the byte at `pos`, if it is a continuation byte.
fn continuation(bytes: &[u8], pos: &mut usize) -> (r: Result<u8, DecodeError>)
    requires
        *old(pos) <= bytes@.len(),
    ensures
        match r {
            Ok(b) => *old(pos) < bytes@.len() && bytes@[*old(pos) as int] == b
                && is_continuation_byte(b) && *final(pos) == *old(pos) + 1,
            Err(_) => *old(pos) >= bytes@.len() || !is_continuation_byte(bytes@[*old(pos) as int]),
        },
{
    if *pos < bytes.len() && bytes[*pos] & 0xc0 == 0x80 {
        let b = bytes[*pos];
        assert(b & 0xc0 == 0x80 ==> is_continuation_byte(b)) by (bit_vector);
        *pos = *pos + 1;
        Ok(b)
    } else {
        if *pos < bytes.len() {
            let b = bytes[*pos];
            assert(b & 0xc0 != 0x80 ==> !is_continuation_byte(b)) by (bit_vector);
        }
        Err(DecodeError)
    }
}

/// The code unit of a three-byte surrogate half.
fn decode_surrogate(second: u8, third: u8) -> (unit: u32)
    ensures
        unit == surrogate_half(second, third),
{
    0xd000 | (((second & 0x3f) as u32) << 6) | ((third & 0x3f) as u32)
}

/// Every surrogate code unit is spelled `ED` and two continuation bytes,
/// and reading those two bytes back gives the unit.
pub proof fn lemma_surrogate_round_trip(unit: u16)
    requires
        0xd000 <= unit <= 0xdfff,
    ensures
        surrogate_bytes(unit)[0] == 0xed,
        surrogate_half(surrogate_bytes(unit)[1], surrogate_bytes(unit)[2]) == unit as u32,
{
    let b = surrogate_bytes(unit);
    assert(0xe0u8 | ((unit >> 12u16) as u8) == 0xed) by (bit_vector)
        requires
            0xd000 <= unit <= 0xdfff,
    ;
    let b1 = 0x80u8 | (((unit >> 6u16) & 0x3f) as u8);
    let b2 = 0x80u8 | ((unit & 0x3f) as u8);
    assert(0xd000u32 | (((b1 & 0x3f) as u32) << 6u32) | ((b2 & 0x3f) as u32) == unit as u32) by (bit_vector)
        requires
            0xd000 <= unit <= 0xdfff,
            b1 == 0x80u8 | (((unit >> 6u16) & 0x3f) as u8),
            b2 == 0x80u8 | ((unit & 0x3f) as u8),
    ;
}

/// Appends the UTF-8 encoding of a scalar value.
pub(crate) fn push_utf8(out: &mut Vec<u8>, u: u32)
    requires
        is_scalar(u),
    ensures
        final(out)@ == old(out)@ + encode_scalar(u),
{
    if u <= 0x7f {
        out.push((u & 0x7f) as u8);
    } else if u <= 0x7ff {
        out.push(0xc0 | ((u >> 6) & 0x1f) as u8);
        out.push(0x80 | (u & 0x3f) as u8);
    } else if u <= 0xffff {
        out.push(0xe0 | ((u >> 12) & 0x0f) as u8);
        out.push(0x80 | ((u >> 6) & 0x3f) as u8);
        out.push(0x80 | (u & 0x3f) as u8);
    } else {
        out.push(0xf0 | ((u >> 18) & 0x7) as u8);
        out.push(0x80 | ((u >> 12) & 0x3f) as u8);
        out.push(0x80 | ((u >> 6) & 0x3f) as u8);
        out.push(0x80 | (u & 0x3f) as u8);
    }
    assert(final(out)@ =~= old(out)@ + encode_scalar(u));
}

/// Decodes `bytes`, borrowing them when they are already UTF-8.
///
/// Plain UTF-8 is accepted as is, raw NUL and four-byte sequences included.
/// Anything else must be modified UTF-8 throughout.
pub fn from_java_cesu8(bytes: &[u8]) -> (res: Result<Cow<'_, str>, DecodeError>)
    ensures
        match res {
            Ok(text) => cesu8_decode(bytes@) == Some(text@),
            Err(_) => cesu8_decode(bytes@) is None,
        },
        valid_utf8(bytes@) <==> res matches Ok(Cow::Borrowed(_)),
{
    if let Some(text) = str_from_utf8(bytes) {
        return Ok(Cow::Borrowed(text));
    }
    let mut out: Vec<u8> = Vec::with_capacity(bytes.len());
    let mut i: usize = 0;
    let ghost mut chars: Seq<char> = Seq::empty();
    assert(bytes@.skip(0) =~= bytes@);
    while i < bytes.len()
        invariant
            i <= bytes@.len(),
            !valid_utf8(bytes@),
            out@ == encode_utf8(chars),
            java_decode(bytes@) == prepend_chars(chars, java_decode(bytes@.skip(i as int))),
        decreases bytes@.len() - i,
    {
        let ghost start = i;
        let ghost rest = bytes@.skip(start as int);
        assert(rest.len() > 0 && rest[0] == bytes@[start as int]);
        let first = bytes[i];
        i = i + 1;
        let ghost c: u32;
        let ghost n: nat;
        if 0x01 <= first && first <= 0x7f {
            out.push(first);
            proof {
                lemma_unit_width_1(first);
                c = first as u32;
                n = 1;
            }
        } else if first == 0xc0 {
            match expect(bytes, &mut i, 0x80) {
                Ok(_) => {},
                Err(e) => {
                    assert(java_unit(rest) is None);
                    return Err(e);
                },
            }
            out.push(0);
            proof {
                lemma_unit_nul();
                c = 0;
                n = 2;
            }
        } else if 0xc2 <= first && first <= 0xdf {
            let second = match continuation(bytes, &mut i) {
                Ok(b) => b,
                Err(e) => {
                    assert(java_unit(rest) is None);
                    return Err(e);
                },
            };
            out.push(first);
            out.push(second);
            proof {
                lemma_unit_width_2(first, second);
                c = codepoint_width_2(first, second);
                n = 2;
            }
        } else if 0xe0 <= first && first <= 0xef {
            let second = match continuation(bytes, &mut i) {
                Ok(b) => b,
                Err(e) => {
                    assert(java_unit(rest) is None);
                    return Err(e);
                },
            };
            let third = match continuation(bytes, &mut i) {
                Ok(b) => b,
                Err(e) => {
                    assert(java_unit(rest) is None);
                    return Err(e);
                },
            };
            if (first == 0xe0 && second >= 0xa0) || (first != 0xe0 && first != 0xed) || (first
                == 0xed && second <= 0x9f) {
                out.push(first);
                out.push(second);
                out.push(third);
                proof {
                    lemma_unit_width_3(first, second, third);
                    c = codepoint_width_3(first, second, third);
                    n = 3;
                }
            } else if first == 0xed && second <= 0xaf {
                match expect(bytes, &mut i, 0xed) {
                    Ok(_) => {},
                    Err(e) => {
                        assert(java_unit(rest) is None);
                        return Err(e);
                    },
                }
                let fifth = match continuation(bytes, &mut i) {
                    Ok(b) => b,
                    Err(e) => {
                        assert(java_unit(rest) is None);
                        return Err(e);
                    },
                };
                if fifth < 0xb0 {
                    assert(java_unit(rest) is None);
                    return Err(DecodeError);
                }
                let sixth = match continuation(bytes, &mut i) {
                    Ok(b) => b,
                    Err(e) => {
                        assert(java_unit(rest) is None);
                        return Err(e);
                    },
                };
                let high = decode_surrogate(second, third);
                let low = decode_surrogate(fifth, sixth);
                proof {
                    lemma_unit_pair(second, third, fifth, sixth);
                }
                let bits = ((high - 0xd800) << 10) | (low - 0xdc00);
                assert(bits <= 0xf_ffff) by (bit_vector)
                    requires
                        0xd800 <= high <= 0xdbff,
                        0xdc00 <= low <= 0xdfff,
                        bits == (((high - 0xd800) as u32) << 10u32) | ((low - 0xdc00) as u32),
                ;
                let u = 0x1_0000 + bits;
                assert(u == pair_scalar(high, low));
                push_utf8(&mut out, u);
                proof {
                    c = u;
                    n = 6;
                }
            } else {
                assert(java_unit(rest) is None);
                return Err(DecodeError);
            }
        } else {
            assert(java_unit(rest) is None);
            return Err(DecodeError);
        }
        proof {
            assert(java_unit(rest) == Some((c, n)));
            assert(i == start + n);
            assert(rest.skip(n as int) =~= bytes@.skip(i as int));
            assert((c as char) as u32 == c);
            lemma_encode_utf8_push(chars, c as char);
            assert(chars + (seq![c as char] + java_decode(bytes@.skip(i as int))->0) =~= chars.push(
                c as char,
            ) + java_decode(bytes@.skip(i as int))->0);
            chars = chars.push(c as char);
        }
    }
    assert(bytes@.skip(i as int) =~= Seq::<u8>::empty());
    assert(chars + Seq::<char>::empty() =~= chars);
    match string_from_utf8(out) {
        Some(text) => Ok(Cow::Owned(text)),
        None => Err(DecodeError),
    }
}

/// The three-byte form of a lone surrogate code unit.
fn encode_surrogate(unit: u16) -> (bytes: [u8; 3])
    ensures
        bytes@ == surrogate_bytes(unit),
{
    let bytes = [0xe0 | (unit >> 12) as u8, 0x80 | ((unit >> 6) & 0x3f) as u8, 0x80 | (unit & 0x3f) as u8];
    assert(bytes@ =~= surrogate_bytes(unit));
    bytes
}

proof fn lemma_java_encode_push(chars: Seq<char>, c: char)
    ensures
        java_encode(chars.push(c)) == java_encode(chars) + java_encode_char(c),
    decreases chars.len(),
{
    if chars.len() == 0 {
        assert(chars.push(c).drop_first() =~= Seq::<char>::empty());
        assert(chars.push(c)[0] == c);
        assert(java_encode(chars.push(c)) == java_encode_char(c) + java_encode(
            Seq::<char>::empty(),
        ));
        assert(java_encode(chars.push(c)) =~= java_encode(chars) + java_encode_char(c));
    } else {
        lemma_java_encode_push(chars.drop_first(), c);
        assert(chars.push(c).drop_first() =~= chars.drop_first().push(c));
        assert(chars.push(c)[0] == chars[0]);
        let head = java_encode_char(chars[0]);
        assert(java_encode(chars.push(c)) == head + java_encode(chars.drop_first().push(c)));
        assert(java_encode(chars) == head + java_encode(chars.drop_first()));
        assert(java_encode(chars.push(c)) =~= java_encode(chars) + java_encode_char(c));
    }
}

/// Text whose UTF-8 has no NUL and no four-byte sequence is already
/// modified UTF-8.
proof fn lemma_plain_text(chars: Seq<char>)
    requires
        forall|j: int|
            0 <= j < encode_utf8(chars).len() ==> #[trigger] encode_utf8(chars)[j] != 0
                && encode_utf8(chars)[j] < 0xf0,
    ensures
        java_encode(chars) == encode_utf8(chars),
    decreases chars.len(),
{
    if chars.len() > 0 {
        let c = chars[0] as u32;
        vstd::utf8::char_is_scalar(chars[0]);
        let head = encode_scalar(c);
        let all = encode_utf8(chars);
        assert(all == head + encode_utf8(chars.drop_first()));
        assert(head.len() > 0 && all[0] == head[0]);
        assert(has_width_4_encoding(c) ==> leading_byte_width_4(c) >= 0xf0) by (bit_vector);
        assert(c == 0 ==> leading_byte_width_1(c) == 0) by (bit_vector);
        assert forall|j: int| 0 <= j < encode_utf8(chars.drop_first()).len() implies #[trigger] encode_utf8(
            chars.drop_first(),
        )[j] != 0 && encode_utf8(chars.drop_first())[j] < 0xf0 by {
            assert(encode_utf8(chars.drop_first())[j] == all[head.len() + j]);
        }
        lemma_plain_text(chars.drop_first());
    }
}

/// Encodes `text`, borrowing it when it is already valid modified UTF-8.
pub fn to_java_cesu8(text: &str) -> (res: Cow<'_, [u8]>)
    ensures
        res@ == java_encode(text@),
        (res matches Cow::Borrowed(_)) <==> forall|j: int|
            0 <= j < encode_utf8(text@).len() ==> #[trigger] encode_utf8(text@)[j] != 0 && encode_utf8(
                text@,
            )[j] < 0xf0,
{
    let bytes = text.as_bytes();
    let mut i: usize = 0;
    let mut plain = true;
    while i < bytes.len()
        invariant
            i <= bytes@.len(),
            bytes@ == encode_utf8(text@),
            plain ==> forall|j: int| 0 <= j < i ==> #[trigger] bytes@[j] != 0 && bytes@[j] < 0xf0,
            !plain ==> exists|j: int| 0 <= j < i && !(#[trigger] bytes@[j] != 0 && bytes@[j] < 0xf0),
        decreases bytes@.len() - i,
    {
        if bytes[i] == 0 || bytes[i] >= 0xf0 {
            plain = false;
        }
        i = i + 1;
    }
    if plain {
        proof {
            lemma_plain_text(text@);
        }
        return Cow::Borrowed(bytes);
    }
    // NUL doubles and a four-byte sequence grows by half, so twice the
    // length is the exact bound and never has to grow.
    let mut out: Vec<u8> = if bytes.len() <= usize::MAX / 2 {
        Vec::with_capacity(bytes.len() * 2)
    } else {
        Vec::new()
    };
    for c in it: text.chars()
        invariant
            it.seq() == text@,
            out@ == java_encode(it.seq().take(it.index())),
    {
        proof {
            vstd::utf8::char_is_scalar(c);
            lemma_java_encode_push(it.seq().take(it.index()), c);
            assert(it.seq().take(it.index() + 1) =~= it.seq().take(it.index()).push(c));
        }
        let u = c as u32;
        if u == 0 {
            out.push(0xc0);
            out.push(0x80);
        } else if u >= 0x1_0000 {
            let v = u - 0x1_0000;
            assert(v <= 0xf_ffff);
            assert((v >> 10u32) <= 0x3ff && (v & 0x3ff) <= 0x3ff) by (bit_vector)
                requires
                    v <= 0xf_ffff,
            ;
            let high = (0xd800 + (v >> 10)) as u16;
            let low = (0xdc00 + (v & 0x3ff)) as u16;
            let hb = encode_surrogate(high);
            let lb = encode_surrogate(low);
            out.push(hb[0]);
            out.push(hb[1]);
            out.push(hb[2]);
            out.push(lb[0]);
            out.push(lb[1]);
            out.push(lb[2]);
        } else {
            push_utf8(&mut out, u);
        }
        assert(out@ =~= java_encode(it.seq().take(it.index())) + java_encode_char(c));
    }
    assert(text@.take(text@.len() as int) =~= text@);
    Cow::Owned(out)
}

/// The unit that starts the modified UTF-8 spelling of `c` is `c` itself,
/// taking as many bytes as `c`'s spelling has.
proof fn lemma_java_unit_of_char(c: char, rest: Seq<u8>)
    ensures
        java_encode_char(c).len() >= 1,
        java_unit(java_encode_char(c) + rest) == Some(
            (c as u32, java_encode_char(c).len() as nat),
        ),
{
    let u = c as u32;
    vstd::utf8::char_is_scalar(c);
    let e = java_encode_char(c);
    let b = e + rest;
    if u == 0 {
        assert(b[0] == 0xc0 && b[1] == 0x80);
    } else if u >= 0x1_0000 {
        let high = high_surrogate(u);
        let low = low_surrogate(u);
        let b0 = 0xe0u8 | ((high >> 12u16) as u8);
        let b1 = 0x80u8 | (((high >> 6u16) & 0x3f) as u8);
        let b2 = 0x80u8 | ((high & 0x3f) as u8);
        let b3 = 0xe0u8 | ((low >> 12u16) as u8);
        let b4 = 0x80u8 | (((low >> 6u16) & 0x3f) as u8);
        let b5 = 0x80u8 | ((low & 0x3f) as u8);
        assert(b0 == 0xed && 0xa0 <= b1 <= 0xaf && 0x80 <= b2 <= 0xbf && b3 == 0xed && 0xb0 <= b4
            <= 0xbf && 0x80 <= b5 <= 0xbf && pair_scalar(surrogate_half(b1, b2), surrogate_half(b4, b5))
            == u) by (bit_vector)
            requires
                0x1_0000 <= u <= 0x10_ffff,
                high == high_surrogate(u),
                low == low_surrogate(u),
                b0 == 0xe0u8 | ((high >> 12u16) as u8),
                b1 == 0x80u8 | (((high >> 6u16) & 0x3f) as u8),
                b2 == 0x80u8 | ((high & 0x3f) as u8),
                b3 == 0xe0u8 | ((low >> 12u16) as u8),
                b4 == 0x80u8 | (((low >> 6u16) & 0x3f) as u8),
                b5 == 0x80u8 | ((low & 0x3f) as u8),
        ;
        assert(b[0] == b0 && b[1] == b1 && b[2] == b2 && b[3] == b3 && b[4] == b4 && b[5] == b5);
    } else if has_width_1_encoding(u) {
        let b0 = leading_byte_width_1(u);
        assert(1 <= b0 <= 0x7f && b0 as u32 == u) by (bit_vector)
            requires
                1 <= u <= 0x7f,
                b0 == leading_byte_width_1(u),
        ;
        assert(b[0] == b0);
    } else if has_width_2_encoding(u) {
        let b0 = leading_byte_width_2(u);
        let b1 = last_continuation_byte(u);
        assert(0xc2 <= b0 <= 0xdf && 0x80 <= b1 <= 0xbf && codepoint_width_2(b0, b1) == u)
            by (bit_vector)
            requires
                0x80 <= u <= 0x7ff,
                b0 == leading_byte_width_2(u),
                b1 == last_continuation_byte(u),
        ;
        assert(b[0] == b0 && b[1] == b1);
    } else {
        let b0 = leading_byte_width_3(u);
        let b1 = second_last_continuation_byte(u);
        let b2 = last_continuation_byte(u);
        assert(0xe0 <= b0 <= 0xef && 0x80 <= b1 <= 0xbf && 0x80 <= b2 <= 0xbf && ((b0 == 0xe0
            && 0xa0 <= b1) || (b0 != 0xe0 && b0 != 0xed) || (b0 == 0xed && b1 <= 0x9f))
            && codepoint_width_3(b0, b1, b2) == u) by (bit_vector)
            requires
                0x800 <= u <= 0xffff,
                !(0xd800 <= u <= 0xdfff),
                b0 == leading_byte_width_3(u),
                b1 == second_last_continuation_byte(u),
                b2 == last_continuation_byte(u),
        ;
        assert(b[0] == b0 && b[1] == b1 && b[2] == b2);
    }
}

/// Decoding the modified UTF-8 spelling of text gives back the text.
pub proof fn lemma_java_round_trip(chars: Seq<char>)
    ensures
        java_decode(java_encode(chars)) == Some(chars),
    decreases chars.len(),
{
    let e = java_encode(chars);
    if chars.len() == 0 {
        assert(e =~= Seq::<u8>::empty());
    } else {
        let c = chars[0];
        let head = java_encode_char(c);
        let tail = java_encode(chars.drop_first());
        lemma_java_unit_of_char(c, tail);
        lemma_java_round_trip(chars.drop_first());
        assert(e == head + tail);
        assert(e.skip(head.len() as int) =~= tail);
        vstd::utf8::char_u32_cast(c, c as u32);
        assert(seq![c] + chars.drop_first() =~= chars);
    }
}

/// Where modified UTF-8 decodes bytes that are also valid UTF-8, the two
/// decodings agree.
pub proof fn lemma_decoders_agree(b: Seq<u8>)
    requires
        valid_utf8(b),
        java_decode(b) is Some,
    ensures
        java_decode(b) == Some(decode_utf8(b)),
    decreases b.len(),
{
    if b.len() > 0 {
        let (c, n) = java_unit(b)->0;
        let b0 = b[0];
        if 0x01 <= b0 <= 0x7f {
            assert(codepoint_width_1(b0) == b0 as u32) by (bit_vector)
                requires
                    0x01 <= b0 <= 0x7f,
            ;
        } else if b0 == 0xc0 {
            assert(codepoint_width_2(0xc0, 0x80) == 0) by (bit_vector);
            assert(false);
        } else if 0xc2 <= b0 <= 0xdf {
        } else {
            let b1 = b[1];
            let b2 = b[2];
            if b0 == 0xed && 0xa0 <= b1 <= 0xaf {
                assert(0xd800 <= codepoint_width_3(b0, b1, b2) <= 0xdfff) by (bit_vector)
                    requires
                        b0 == 0xed,
                        0xa0 <= b1 <= 0xaf,
                        0x80 <= b2 <= 0xbf,
                ;
                assert(false);
            }
        }
        assert(decode_first_scalar(b) == c);
        assert(length_of_first_scalar(b) == n);
        assert(pop_first_scalar(b) =~= b.skip(n as int));
        lemma_decoders_agree(b.skip(n as int));
    }
}

/// Reading back the modified UTF-8 spelling of text, as NBT reads a
/// string's bytes, gives back the text.
pub proof fn lemma_cesu8_round_trip(chars: Seq<char>)
    ensures
        cesu8_decode(java_encode(chars)) == Some(chars),
{
    lemma_java_round_trip(chars);
    if valid_utf8(java_encode(chars)) {
        lemma_decoders_agree(java_encode(chars));
    }
}

} // verus!
