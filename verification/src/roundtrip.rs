//! What a read gives back of a write, and what a skip passes over.
//!
//! For every type that both writes and reads NBT, reading back the payload
//! a value was written as, under the tag it was written with, gives back the
//! value and takes exactly the bytes written, whatever follows them: as
//! long as the value is within the limits the reader was given.

use std::borrow::Cow;
use vstd::prelude::*;

use crate::be::{
    be_encode, be_encode_signed, be_uint, lemma_be_encode_decode,
    lemma_be_signed_encode_decode, pow256, F32Be, F64Be, I16Be, I32Be, I64Be, U16Be, U32Be, U64Be,
};
use crate::cesu8::{java_encode, lemma_cesu8_round_trip};
use crate::error::ErrorKind;
use crate::opts::{default_de_opts, DeOptsView};
use crate::read::{
    after, parse_len, parse_seq, parse_str, parse_tag, skip_array_len, skip_elements_len,
    skip_entries_len, skip_len, then_seq, FromNBT,
};
use crate::tag::{TAG_END, TAG_MAX};
use crate::value::{
    bytes_less, compound_of, element_tag, encode_entries, encode_value, encode_values, key_less,
    keys_sorted, parse_entries, parse_value, parse_values, tree_sorted, value_fits, value_of,
    value_tag, with_entry, Value, ValueView,
};
use crate::write::{encode_len, encode_seq, encode_str, list_element_tag, ToNBT};

verus! {

/// A type whose values read back as they were written.
pub trait RoundTrip<'de>: FromNBT<'de> + ToNBT {
    /// Whether a value is within the limits `opts` sets, read `depth` levels
    /// deep.
    spec fn nbt_fits(v: <Self as DeepView>::V, depth: nat, opts: DeOptsView) -> bool;

    /// Reading back the payload a value is written as, under the tag it is
    /// written with, gives back the value and takes exactly the bytes
    /// written, whatever follows them.
    proof fn lemma_round_trip(v: <Self as DeepView>::V, rest: Seq<u8>, depth: nat, opts: DeOptsView)
        requires
            Self::nbt_payload(v) is Ok,
            Self::nbt_fits(v, depth, opts),
        ensures
            1 <= Self::nbt_tag(v) <= TAG_MAX,
            Self::nbt_parse(Self::nbt_tag(v), Self::nbt_payload(v)->Ok_0 + rest, depth, opts) == Ok::<
                (<Self as DeepView>::V, nat),
                ErrorKind,
            >((v, Self::nbt_payload(v)->Ok_0.len())),
    ;

    /// Skipping the payload a value is written as, under the tag it is
    /// written with, takes exactly the bytes written, whatever follows them.
    ///
    /// Skipping wants one level more than reading: a list, even an empty
    /// one, is only skipped below `max_depth`.
    proof fn lemma_skip(v: <Self as DeepView>::V, rest: Seq<u8>, depth: nat, opts: DeOptsView)
        requires
            Self::nbt_payload(v) is Ok,
            depth < opts.max_depth,
            Self::nbt_fits(v, depth + 1, opts),
        ensures
            skip_len(Self::nbt_tag(v), Self::nbt_payload(v)->Ok_0 + rest, depth, opts) == Ok::<nat, ErrorKind>(
                Self::nbt_payload(v)->Ok_0.len(),
            ),
    ;
}

/// A list's or array's length reads back as it was written.
pub proof fn lemma_len_round_trip(len: nat, rest: Seq<u8>, opts: DeOptsView)
    requires
        encode_len(len) is Ok,
        len <= opts.max_seq_len,
    ensures
        parse_len(encode_len(len)->Ok_0 + rest, opts) == Ok::<(nat, nat), ErrorKind>((len, 4)),
{
    reveal_with_fuel(pow256, 5);
    lemma_be_encode_decode(len, 4);
    let e = encode_len(len)->Ok_0;
    assert((e + rest).take(4) =~= e);
}

/// A string reads back as it was written.
pub proof fn lemma_str_round_trip(text: Seq<char>, rest: Seq<u8>)
    requires
        encode_str(text) is Ok,
    ensures
        parse_str(encode_str(text)->Ok_0 + rest) == Ok::<(Seq<char>, nat), ErrorKind>(
            (text, encode_str(text)->Ok_0.len()),
        ),
{
    let body = java_encode(text);
    let e = encode_str(text)->Ok_0;
    reveal_with_fuel(pow256, 3);
    lemma_be_encode_decode(body.len(), 2);
    let all = e + rest;
    assert(all.take(2) =~= be_encode(body.len(), 2));
    assert(all.subrange(2, 2 + body.len() as int) =~= body);
    lemma_cesu8_round_trip(text);
}

impl<'de> RoundTrip<'de> for i8 {
    open spec fn nbt_fits(v: i8, depth: nat, opts: DeOptsView) -> bool {
        true
    }

    proof fn lemma_round_trip(v: i8, rest: Seq<u8>, depth: nat, opts: DeOptsView) {
        reveal_with_fuel(pow256, 2);
        lemma_be_signed_encode_decode(v as int, 1);
        let e = be_encode_signed(v as int, 1);
        assert((e + rest).take(1) =~= e);
    }

    proof fn lemma_skip(v: i8, rest: Seq<u8>, depth: nat, opts: DeOptsView) {
        Self::lemma_round_trip(v, rest, depth, opts);
    }
}

impl<'de> RoundTrip<'de> for i16 {
    open spec fn nbt_fits(v: i16, depth: nat, opts: DeOptsView) -> bool {
        true
    }

    proof fn lemma_round_trip(v: i16, rest: Seq<u8>, depth: nat, opts: DeOptsView) {
        reveal_with_fuel(pow256, 3);
        lemma_be_signed_encode_decode(v as int, 2);
        let e = be_encode_signed(v as int, 2);
        assert((e + rest).take(2) =~= e);
    }

    proof fn lemma_skip(v: i16, rest: Seq<u8>, depth: nat, opts: DeOptsView) {
        Self::lemma_round_trip(v, rest, depth, opts);
    }
}

impl<'de> RoundTrip<'de> for i32 {
    open spec fn nbt_fits(v: i32, depth: nat, opts: DeOptsView) -> bool {
        true
    }

    proof fn lemma_round_trip(v: i32, rest: Seq<u8>, depth: nat, opts: DeOptsView) {
        reveal_with_fuel(pow256, 5);
        lemma_be_signed_encode_decode(v as int, 4);
        let e = be_encode_signed(v as int, 4);
        assert((e + rest).take(4) =~= e);
    }

    proof fn lemma_skip(v: i32, rest: Seq<u8>, depth: nat, opts: DeOptsView) {
        Self::lemma_round_trip(v, rest, depth, opts);
    }
}

impl<'de> RoundTrip<'de> for i64 {
    open spec fn nbt_fits(v: i64, depth: nat, opts: DeOptsView) -> bool {
        true
    }

    proof fn lemma_round_trip(v: i64, rest: Seq<u8>, depth: nat, opts: DeOptsView) {
        reveal_with_fuel(pow256, 9);
        lemma_be_signed_encode_decode(v as int, 8);
        let e = be_encode_signed(v as int, 8);
        assert((e + rest).take(8) =~= e);
    }

    proof fn lemma_skip(v: i64, rest: Seq<u8>, depth: nat, opts: DeOptsView) {
        Self::lemma_round_trip(v, rest, depth, opts);
    }
}

impl<'de> RoundTrip<'de> for u8 {
    open spec fn nbt_fits(v: u8, depth: nat, opts: DeOptsView) -> bool {
        true
    }

    proof fn lemma_round_trip(v: u8, rest: Seq<u8>, depth: nat, opts: DeOptsView) {
        reveal_with_fuel(pow256, 2);
        lemma_be_encode_decode(v as nat, 1);
        let e = be_encode(v as nat, 1);
        assert((e + rest).take(1) =~= e);
    }

    proof fn lemma_skip(v: u8, rest: Seq<u8>, depth: nat, opts: DeOptsView) {
        Self::lemma_round_trip(v, rest, depth, opts);
    }
}

impl<'de> RoundTrip<'de> for u16 {
    open spec fn nbt_fits(v: u16, depth: nat, opts: DeOptsView) -> bool {
        true
    }

    proof fn lemma_round_trip(v: u16, rest: Seq<u8>, depth: nat, opts: DeOptsView) {
        reveal_with_fuel(pow256, 3);
        lemma_be_encode_decode(v as nat, 2);
        let e = be_encode(v as nat, 2);
        assert((e + rest).take(2) =~= e);
    }

    proof fn lemma_skip(v: u16, rest: Seq<u8>, depth: nat, opts: DeOptsView) {
        Self::lemma_round_trip(v, rest, depth, opts);
    }
}

impl<'de> RoundTrip<'de> for u32 {
    open spec fn nbt_fits(v: u32, depth: nat, opts: DeOptsView) -> bool {
        true
    }

    proof fn lemma_round_trip(v: u32, rest: Seq<u8>, depth: nat, opts: DeOptsView) {
        reveal_with_fuel(pow256, 5);
        lemma_be_encode_decode(v as nat, 4);
        let e = be_encode(v as nat, 4);
        assert((e + rest).take(4) =~= e);
    }

    proof fn lemma_skip(v: u32, rest: Seq<u8>, depth: nat, opts: DeOptsView) {
        Self::lemma_round_trip(v, rest, depth, opts);
    }
}

impl<'de> RoundTrip<'de> for u64 {
    open spec fn nbt_fits(v: u64, depth: nat, opts: DeOptsView) -> bool {
        true
    }

    proof fn lemma_round_trip(v: u64, rest: Seq<u8>, depth: nat, opts: DeOptsView) {
        reveal_with_fuel(pow256, 9);
        lemma_be_encode_decode(v as nat, 8);
        let e = be_encode(v as nat, 8);
        assert((e + rest).take(8) =~= e);
    }

    proof fn lemma_skip(v: u64, rest: Seq<u8>, depth: nat, opts: DeOptsView) {
        Self::lemma_round_trip(v, rest, depth, opts);
    }
}

impl<'de> RoundTrip<'de> for U16Be {
    /// The bytes of a value number 2.
    open spec fn nbt_fits(v: Seq<u8>, depth: nat, opts: DeOptsView) -> bool {
        v.len() == 2
    }

    proof fn lemma_round_trip(v: Seq<u8>, rest: Seq<u8>, depth: nat, opts: DeOptsView) {
        assert((v + rest).take(2) =~= v);
    }

    proof fn lemma_skip(v: Seq<u8>, rest: Seq<u8>, depth: nat, opts: DeOptsView) {
        Self::lemma_round_trip(v, rest, depth, opts);
    }
}

impl<'de> RoundTrip<'de> for I16Be {
    /// The bytes of a value number 2.
    open spec fn nbt_fits(v: Seq<u8>, depth: nat, opts: DeOptsView) -> bool {
        v.len() == 2
    }

    proof fn lemma_round_trip(v: Seq<u8>, rest: Seq<u8>, depth: nat, opts: DeOptsView) {
        assert((v + rest).take(2) =~= v);
    }

    proof fn lemma_skip(v: Seq<u8>, rest: Seq<u8>, depth: nat, opts: DeOptsView) {
        Self::lemma_round_trip(v, rest, depth, opts);
    }
}

impl<'de> RoundTrip<'de> for U32Be {
    /// The bytes of a value number 4.
    open spec fn nbt_fits(v: Seq<u8>, depth: nat, opts: DeOptsView) -> bool {
        v.len() == 4
    }

    proof fn lemma_round_trip(v: Seq<u8>, rest: Seq<u8>, depth: nat, opts: DeOptsView) {
        assert((v + rest).take(4) =~= v);
    }

    proof fn lemma_skip(v: Seq<u8>, rest: Seq<u8>, depth: nat, opts: DeOptsView) {
        Self::lemma_round_trip(v, rest, depth, opts);
    }
}

impl<'de> RoundTrip<'de> for I32Be {
    /// The bytes of a value number 4.
    open spec fn nbt_fits(v: Seq<u8>, depth: nat, opts: DeOptsView) -> bool {
        v.len() == 4
    }

    proof fn lemma_round_trip(v: Seq<u8>, rest: Seq<u8>, depth: nat, opts: DeOptsView) {
        assert((v + rest).take(4) =~= v);
    }

    proof fn lemma_skip(v: Seq<u8>, rest: Seq<u8>, depth: nat, opts: DeOptsView) {
        Self::lemma_round_trip(v, rest, depth, opts);
    }
}

impl<'de> RoundTrip<'de> for U64Be {
    /// The bytes of a value number 8.
    open spec fn nbt_fits(v: Seq<u8>, depth: nat, opts: DeOptsView) -> bool {
        v.len() == 8
    }

    proof fn lemma_round_trip(v: Seq<u8>, rest: Seq<u8>, depth: nat, opts: DeOptsView) {
        assert((v + rest).take(8) =~= v);
    }

    proof fn lemma_skip(v: Seq<u8>, rest: Seq<u8>, depth: nat, opts: DeOptsView) {
        Self::lemma_round_trip(v, rest, depth, opts);
    }
}

impl<'de> RoundTrip<'de> for I64Be {
    /// The bytes of a value number 8.
    open spec fn nbt_fits(v: Seq<u8>, depth: nat, opts: DeOptsView) -> bool {
        v.len() == 8
    }

    proof fn lemma_round_trip(v: Seq<u8>, rest: Seq<u8>, depth: nat, opts: DeOptsView) {
        assert((v + rest).take(8) =~= v);
    }

    proof fn lemma_skip(v: Seq<u8>, rest: Seq<u8>, depth: nat, opts: DeOptsView) {
        Self::lemma_round_trip(v, rest, depth, opts);
    }
}

impl<'de> RoundTrip<'de> for F32Be {
    /// The bytes of a value number 4.
    open spec fn nbt_fits(v: Seq<u8>, depth: nat, opts: DeOptsView) -> bool {
        v.len() == 4
    }

    proof fn lemma_round_trip(v: Seq<u8>, rest: Seq<u8>, depth: nat, opts: DeOptsView) {
        assert((v + rest).take(4) =~= v);
    }

    proof fn lemma_skip(v: Seq<u8>, rest: Seq<u8>, depth: nat, opts: DeOptsView) {
        Self::lemma_round_trip(v, rest, depth, opts);
    }
}

impl<'de> RoundTrip<'de> for F64Be {
    /// The bytes of a value number 8.
    open spec fn nbt_fits(v: Seq<u8>, depth: nat, opts: DeOptsView) -> bool {
        v.len() == 8
    }

    proof fn lemma_round_trip(v: Seq<u8>, rest: Seq<u8>, depth: nat, opts: DeOptsView) {
        assert((v + rest).take(8) =~= v);
    }

    proof fn lemma_skip(v: Seq<u8>, rest: Seq<u8>, depth: nat, opts: DeOptsView) {
        Self::lemma_round_trip(v, rest, depth, opts);
    }
}

impl<'de> RoundTrip<'de> for bool {
    open spec fn nbt_fits(v: bool, depth: nat, opts: DeOptsView) -> bool {
        true
    }

    proof fn lemma_round_trip(v: bool, rest: Seq<u8>, depth: nat, opts: DeOptsView) {
        reveal_with_fuel(be_uint, 2);
        let e = seq![if v { 1u8 } else { 0u8 }];
        assert((e + rest).take(1) =~= e);
    }

    proof fn lemma_skip(v: bool, rest: Seq<u8>, depth: nat, opts: DeOptsView) {
        Self::lemma_round_trip(v, rest, depth, opts);
    }
}

impl<'de> RoundTrip<'de> for String {
    open spec fn nbt_fits(v: Seq<char>, depth: nat, opts: DeOptsView) -> bool {
        true
    }

    proof fn lemma_round_trip(v: Seq<char>, rest: Seq<u8>, depth: nat, opts: DeOptsView) {
        lemma_str_round_trip(v, rest);
    }

    proof fn lemma_skip(v: Seq<char>, rest: Seq<u8>, depth: nat, opts: DeOptsView) {
        Self::lemma_round_trip(v, rest, depth, opts);
    }
}

/// The payload of a sequence starts with its first element's.
pub proof fn lemma_encode_seq_front<T: ToNBT>(vs: Seq<<T as DeepView>::V>)
    requires
        vs.len() > 0,
        encode_seq::<T>(vs) is Ok,
    ensures
        T::nbt_payload(vs[0]) is Ok,
        encode_seq::<T>(vs.drop_first()) is Ok,
        encode_seq::<T>(vs)->Ok_0 == T::nbt_payload(vs[0])->Ok_0 + encode_seq::<T>(
            vs.drop_first(),
        )->Ok_0,
    decreases vs.len(),
{
    if vs.len() == 1 {
        assert(vs.drop_last() =~= Seq::<<T as DeepView>::V>::empty());
        assert(vs.drop_first() =~= Seq::<<T as DeepView>::V>::empty());
        assert(vs.last() == vs[0]);
        assert(encode_seq::<T>(vs)->Ok_0 =~= T::nbt_payload(vs[0])->Ok_0 + Seq::<u8>::empty());
    } else {
        let init = vs.drop_last();
        lemma_encode_seq_front::<T>(init);
        assert(init[0] == vs[0]);
        assert(vs.drop_first().drop_last() =~= init.drop_first());
        assert(vs.drop_first().last() == vs.last());
        let p0 = T::nbt_payload(vs[0])->Ok_0;
        let mid = encode_seq::<T>(init.drop_first())->Ok_0;
        let q = T::nbt_payload(vs.last())->Ok_0;
        assert(p0 + mid + q =~= p0 + (mid + q));
    }
}

/// A sequence of values that all read back, written one after the other
/// under one element tag, reads back as the sequence.
pub proof fn lemma_seq_round_trip<'de, T: RoundTrip<'de>>(
    element: u8,
    vs: Seq<<T as DeepView>::V>,
    rest: Seq<u8>,
    depth: nat,
    opts: DeOptsView,
)
    requires
        encode_seq::<T>(vs) is Ok,
        forall|i: int| 0 <= i < vs.len() ==> #[trigger] T::nbt_fits(vs[i], depth, opts),
        forall|i: int| 0 <= i < vs.len() ==> #[trigger] T::nbt_tag(vs[i]) == element,
    ensures
        parse_seq::<T>(element, vs.len(), encode_seq::<T>(vs)->Ok_0 + rest, depth, opts) == Ok::<
            (Seq<<T as DeepView>::V>, nat),
            ErrorKind,
        >((vs, encode_seq::<T>(vs)->Ok_0.len())),
    decreases vs.len(),
{
    if vs.len() == 0 {
        assert(encode_seq::<T>(vs)->Ok_0 =~= Seq::<u8>::empty());
        assert(vs =~= Seq::<<T as DeepView>::V>::empty());
    } else {
        lemma_encode_seq_front::<T>(vs);
        let tail = vs.drop_first();
        let p0 = T::nbt_payload(vs[0])->Ok_0;
        let pt = encode_seq::<T>(tail)->Ok_0;
        assert(T::nbt_fits(vs[0], depth, opts) && T::nbt_tag(vs[0]) == element);
        assert forall|i: int| 0 <= i < tail.len() implies #[trigger] T::nbt_fits(tail[i], depth, opts) by {
            assert(tail[i] == vs[i + 1]);
            assert(T::nbt_fits(vs[i + 1], depth, opts));
        }
        assert forall|i: int| 0 <= i < tail.len() implies #[trigger] T::nbt_tag(tail[i]) == element by {
            assert(tail[i] == vs[i + 1]);
            assert(T::nbt_tag(vs[i + 1]) == element);
        }
        lemma_seq_round_trip::<T>(element, tail, rest, depth, opts);
        T::lemma_round_trip(vs[0], pt + rest, depth, opts);
        let all = p0 + pt + rest;
        assert(all =~= p0 + (pt + rest));
        assert(encode_seq::<T>(vs)->Ok_0 + rest == all);
        assert(all.skip(p0.len() as int) =~= pt + rest);
        assert(T::nbt_parse(element, all, depth, opts) == Ok::<(<T as DeepView>::V, nat), ErrorKind>((vs[0], p0.len())));
        assert(tail.len() == (vs.len() - 1) as nat);
        assert(parse_seq::<T>(element, tail.len(), pt + rest, depth, opts) == Ok::<(Seq<<T as DeepView>::V>, nat), ErrorKind>((tail, pt.len())));
        assert(seq![vs[0]] + tail =~= vs);
    }
}

/// A sequence of values, written one after the other under one element
/// tag, is skipped exactly, one level of headroom provided.
pub proof fn lemma_seq_skip<'de, T: RoundTrip<'de>>(
    element: u8,
    vs: Seq<<T as DeepView>::V>,
    rest: Seq<u8>,
    depth: nat,
    opts: DeOptsView,
)
    requires
        encode_seq::<T>(vs) is Ok,
        vs.len() > 0 ==> depth < opts.max_depth,
        forall|i: int| 0 <= i < vs.len() ==> #[trigger] T::nbt_fits(vs[i], depth + 1, opts),
        forall|i: int| 0 <= i < vs.len() ==> #[trigger] T::nbt_tag(vs[i]) == element,
    ensures
        skip_elements_len(element, vs.len(), encode_seq::<T>(vs)->Ok_0 + rest, depth, opts) == Ok::<nat, ErrorKind>(
            encode_seq::<T>(vs)->Ok_0.len(),
        ),
    decreases vs.len(),
{
    if vs.len() == 0 {
        assert(encode_seq::<T>(vs)->Ok_0 =~= Seq::<u8>::empty());
    } else {
        lemma_encode_seq_front::<T>(vs);
        let tail = vs.drop_first();
        let p0 = T::nbt_payload(vs[0])->Ok_0;
        let pt = encode_seq::<T>(tail)->Ok_0;
        assert(T::nbt_fits(vs[0], depth + 1, opts) && T::nbt_tag(vs[0]) == element);
        assert forall|i: int| 0 <= i < tail.len() implies #[trigger] T::nbt_fits(tail[i], depth + 1, opts) by {
            assert(tail[i] == vs[i + 1]);
        }
        assert forall|i: int| 0 <= i < tail.len() implies #[trigger] T::nbt_tag(tail[i]) == element by {
            assert(tail[i] == vs[i + 1]);
        }
        lemma_seq_skip::<T>(element, tail, rest, depth, opts);
        T::lemma_skip(vs[0], pt + rest, depth, opts);
        let all = p0 + pt + rest;
        assert(all =~= p0 + (pt + rest));
        assert(encode_seq::<T>(vs)->Ok_0 + rest == all);
        assert(all.skip(p0.len() as int) =~= pt + rest);
        assert(tail.len() == (vs.len() - 1) as nat);
    }
}

/// A list is within the limits when it is not longer than `max_seq_len`, its
/// elements are within the limits one level deeper, which must not be
/// deeper than `max_depth`, and its elements all have the first one's tag.
impl<'de, T: RoundTrip<'de>> RoundTrip<'de> for Vec<T> {
    open spec fn nbt_fits(v: Seq<<T as DeepView>::V>, depth: nat, opts: DeOptsView) -> bool {
        &&& v.len() <= opts.max_seq_len
        &&& v.len() > 0 ==> depth < opts.max_depth
        &&& forall|i: int| 0 <= i < v.len() ==> #[trigger] T::nbt_fits(v[i], depth + 1, opts)
        &&& forall|i: int| 0 <= i < v.len() ==> #[trigger] T::nbt_tag(v[i]) == T::nbt_tag(v[0])
    }

    proof fn lemma_round_trip(v: Seq<<T as DeepView>::V>, rest: Seq<u8>, depth: nat, opts: DeOptsView) {
        let l = encode_len(v.len())->Ok_0;
        let p = encode_seq::<T>(v)->Ok_0;
        let element = list_element_tag::<T>(v);
        crate::be::lemma_be_encode_len(v.len(), 4);
        let all = seq![element] + l + p + rest;
        assert(all =~= seq![element] + (l + (p + rest)));
        if v.len() > 0 {
            assert(T::nbt_fits(v[0], depth + 1, opts));
            lemma_encode_seq_front::<T>(v);
            T::lemma_round_trip(v[0], rest, depth + 1, opts);
        }
        assert(all.skip(1) =~= l + (p + rest));
        assert(all[0] == element);
        lemma_len_round_trip(v.len(), p + rest, opts);
        assert(all.skip(5) =~= p + rest);
        if v.len() > 0 {
            lemma_seq_round_trip::<T>(element, v, rest, depth + 1, opts);
            assert(Seq::<<T as DeepView>::V>::empty() + v =~= v);
        } else {
            assert(p =~= Seq::<u8>::empty());
            assert(v =~= Seq::<<T as DeepView>::V>::empty());
        }
    }

    proof fn lemma_skip(v: Seq<<T as DeepView>::V>, rest: Seq<u8>, depth: nat, opts: DeOptsView) {
        let l = encode_len(v.len())->Ok_0;
        let p = encode_seq::<T>(v)->Ok_0;
        let element = list_element_tag::<T>(v);
        reveal_with_fuel(pow256, 5);
        lemma_be_encode_decode(v.len(), 4);
        let all = seq![element] + l + p + rest;
        assert(all =~= seq![element] + (l + (p + rest)));
        let inner = depth + 1;
        if v.len() > 0 {
            assert(T::nbt_fits(v[0], inner + 1, opts));
            lemma_encode_seq_front::<T>(v);
            T::lemma_round_trip(v[0], rest, inner + 1, opts);
        }
        assert(all[0] == element);
        assert(all.subrange(1, 5) =~= l);
        assert(all.skip(5) =~= p + rest);
        lemma_seq_skip::<T>(element, v, rest, inner, opts);
    }
}

/// A fixed-size array is within the limits when it is as a list, and has
/// its `N` elements.
impl<'de, T: RoundTrip<'de>, const N: usize> RoundTrip<'de> for [T; N] {
    open spec fn nbt_fits(v: Seq<<T as DeepView>::V>, depth: nat, opts: DeOptsView) -> bool {
        &&& v.len() == N
        &&& <Vec<T> as RoundTrip<'de>>::nbt_fits(v, depth, opts)
    }

    proof fn lemma_round_trip(v: Seq<<T as DeepView>::V>, rest: Seq<u8>, depth: nat, opts: DeOptsView) {
        <Vec<T> as RoundTrip<'de>>::lemma_round_trip(v, rest, depth, opts);
    }

    proof fn lemma_skip(v: Seq<<T as DeepView>::V>, rest: Seq<u8>, depth: nat, opts: DeOptsView) {
        <Vec<T> as RoundTrip<'de>>::lemma_skip(v, rest, depth, opts);
    }
}

impl<'de> RoundTrip<'de> for char {
    open spec fn nbt_fits(v: char, depth: nat, opts: DeOptsView) -> bool {
        true
    }

    proof fn lemma_round_trip(v: char, rest: Seq<u8>, depth: nat, opts: DeOptsView) {
        reveal_with_fuel(pow256, 5);
        lemma_be_encode_decode(v as u32 as nat, 4);
        let e = be_encode(v as u32 as nat, 4);
        assert((e + rest).take(4) =~= e);
        vstd::utf8::char_u32_cast(v, v as u32);
    }

    proof fn lemma_skip(v: char, rest: Seq<u8>, depth: nat, opts: DeOptsView) {
        Self::lemma_round_trip(v, rest, depth, opts);
    }
}

/// The sixteen bytes of a 128-bit integer, after its length 4, read back
/// as they were written; `opts` must admit an array of four.
proof fn lemma_int_array_16_round_trip(bytes: Seq<u8>, rest: Seq<u8>, opts: DeOptsView)
    requires
        bytes.len() == 16,
        4 <= opts.max_seq_len,
    ensures
        crate::impls::parse_int_array_16(crate::tag::TAG_INT_ARRAY, be_encode(4, 4) + bytes + rest, opts)
            == Ok::<(Seq<u8>, nat), ErrorKind>((bytes, 20)),
{
    reveal_with_fuel(pow256, 5);
    reveal_with_fuel(be_encode, 5);
    assert(encode_len(4) == Ok::<Seq<u8>, ErrorKind>(be_encode(4, 4)));
    lemma_len_round_trip(4, bytes + rest, opts);
    let all = be_encode(4, 4) + bytes + rest;
    assert(all =~= be_encode(4, 4) + (bytes + rest));
    assert(all.skip(4) =~= bytes + rest);
    assert((bytes + rest).take(16) =~= bytes);
}

impl<'de> RoundTrip<'de> for i128 {
    open spec fn nbt_fits(v: i128, depth: nat, opts: DeOptsView) -> bool {
        4 <= opts.max_seq_len
    }

    proof fn lemma_round_trip(v: i128, rest: Seq<u8>, depth: nat, opts: DeOptsView) {
        reveal_with_fuel(pow256, 17);
        assert(pow256(16) == 0x1_0000_0000_0000_0000_0000_0000_0000_0000);
        lemma_be_signed_encode_decode(v as int, 16);
        let b = be_encode_signed(v as int, 16);
        lemma_int_array_16_round_trip(b, rest, opts);
        reveal_with_fuel(be_encode, 5);
        assert(be_encode(4, 4).len() == 4);
        assert(be_encode(4, 4) + b + rest =~= (be_encode(4, 4) + b) + rest);
    }

    proof fn lemma_skip(v: i128, rest: Seq<u8>, depth: nat, opts: DeOptsView) {
        Self::lemma_round_trip(v, rest, depth, opts);
    }
}

impl<'de> RoundTrip<'de> for u128 {
    open spec fn nbt_fits(v: u128, depth: nat, opts: DeOptsView) -> bool {
        4 <= opts.max_seq_len
    }

    proof fn lemma_round_trip(v: u128, rest: Seq<u8>, depth: nat, opts: DeOptsView) {
        reveal_with_fuel(pow256, 17);
        assert(pow256(16) == 0x1_0000_0000_0000_0000_0000_0000_0000_0000);
        lemma_be_encode_decode(v as nat, 16);
        let b = be_encode(v as nat, 16);
        lemma_int_array_16_round_trip(b, rest, opts);
        reveal_with_fuel(be_encode, 5);
        assert(be_encode(4, 4).len() == 4);
        assert(be_encode(4, 4) + b + rest =~= (be_encode(4, 4) + b) + rest);
    }

    proof fn lemma_skip(v: u128, rest: Seq<u8>, depth: nat, opts: DeOptsView) {
        Self::lemma_round_trip(v, rest, depth, opts);
    }
}

impl<'de> RoundTrip<'de> for Cow<'de, str> {
    open spec fn nbt_fits(v: Seq<char>, depth: nat, opts: DeOptsView) -> bool {
        true
    }

    proof fn lemma_round_trip(v: Seq<char>, rest: Seq<u8>, depth: nat, opts: DeOptsView) {
        lemma_str_round_trip(v, rest);
    }

    proof fn lemma_skip(v: Seq<char>, rest: Seq<u8>, depth: nat, opts: DeOptsView) {
        Self::lemma_round_trip(v, rest, depth, opts);
    }
}

/// No byte string sorts before itself.
proof fn lemma_bytes_less_irreflexive(a: Seq<u8>)
    ensures
        !bytes_less(a, a),
    decreases a.len(),
{
    if a.len() > 0 {
        lemma_bytes_less_irreflexive(a.drop_first());
    }
}

/// Of two byte strings, at most one sorts before the other.
proof fn lemma_bytes_less_asymmetric(a: Seq<u8>, b: Seq<u8>)
    ensures
        bytes_less(a, b) ==> !bytes_less(b, a),
    decreases a.len(),
{
    if a.len() > 0 && b.len() > 0 && a[0] == b[0] {
        lemma_bytes_less_asymmetric(a.drop_first(), b.drop_first());
    }
}

/// A key that sorts before another is not that key, and the other does not
/// sort before it.
proof fn lemma_key_less_strict(a: Seq<char>, b: Seq<char>)
    requires
        key_less(a, b),
    ensures
        a != b,
        !key_less(b, a),
{
    lemma_bytes_less_irreflexive(vstd::utf8::encode_utf8(a));
    lemma_bytes_less_asymmetric(vstd::utf8::encode_utf8(a), vstd::utf8::encode_utf8(b));
}

/// Entries whose keys are sorted make the compound they are, in that
/// order.
pub proof fn lemma_compound_of_sorted(es: Seq<(Seq<char>, ValueView)>)
    requires
        keys_sorted(es),
    ensures
        compound_of(es) == es,
    decreases es.len(),
{
    if es.len() > 0 {
        let init = es.drop_last();
        let (k, v) = es.last();
        assert(keys_sorted(init)) by {
            assert forall|i: int, j: int| 0 <= i < j < init.len() implies key_less(#[trigger] init[i].0, #[trigger] init[j].0) by {
                assert(init[i] == es[i] && init[j] == es[j]);
            }
        }
        lemma_compound_of_sorted(init);
        assert forall|j: int| 0 <= j < init.len() implies init[j].0 != k && !key_less(k, #[trigger] init[j].0) by {
            assert(init[j] == es[j]);
            assert(key_less(es[j].0, es[es.len() - 1].0));
            lemma_key_less_strict(es[j].0, k);
        }
        crate::value::lemma_with_entry_skip(init, k, v, init.len() as int);
        assert(init.skip(init.len() as int) =~= Seq::<(Seq<char>, ValueView)>::empty());
        assert(init.take(init.len() as int) + seq![(k, v)] =~= es);
    }
}

/// The payloads of a sequence of values start with the first one's.
proof fn lemma_encode_values_front(vs: Seq<ValueView>)
    requires
        vs.len() > 0,
        encode_values(vs) is Ok,
    ensures
        encode_value(vs[0]) is Ok,
        encode_values(vs.drop_first()) is Ok,
        encode_values(vs)->Ok_0 == encode_value(vs[0])->Ok_0 + encode_values(vs.drop_first())->Ok_0,
    decreases vs.len(),
{
    if vs.len() == 1 {
        assert(vs.drop_last() =~= Seq::<ValueView>::empty());
        assert(vs.drop_first() =~= Seq::<ValueView>::empty());
        assert(vs.last() == vs[0]);
        assert(encode_values(vs)->Ok_0 =~= encode_value(vs[0])->Ok_0 + Seq::<u8>::empty());
    } else {
        let init = vs.drop_last();
        lemma_encode_values_front(init);
        assert(init[0] == vs[0]);
        assert(vs.drop_first().drop_last() =~= init.drop_first());
        assert(vs.drop_first().last() == vs.last());
        let p0 = encode_value(vs[0])->Ok_0;
        let mid = encode_values(init.drop_first())->Ok_0;
        let q = encode_value(vs.last())->Ok_0;
        assert(p0 + mid + q =~= p0 + (mid + q));
    }
}

/// The bytes one compound entry is written as: its value's tag, its name,
/// then its payload.
pub open spec fn entry_bytes(e: (Seq<char>, ValueView)) -> Seq<u8> {
    seq![value_tag(e.1)] + encode_str(e.0)->Ok_0 + encode_value(e.1)->Ok_0
}

/// The entries of a compound start with the first one's.
proof fn lemma_encode_entries_front(es: Seq<(Seq<char>, ValueView)>)
    requires
        es.len() > 0,
        encode_entries(es) is Ok,
    ensures
        encode_str(es[0].0) is Ok,
        encode_value(es[0].1) is Ok,
        encode_entries(es.drop_first()) is Ok,
        encode_entries(es)->Ok_0 == entry_bytes(es[0]) + encode_entries(es.drop_first())->Ok_0,
    decreases es.len(),
{
    if es.len() == 1 {
        assert(es.drop_last() =~= Seq::<(Seq<char>, ValueView)>::empty());
        assert(es.drop_first() =~= Seq::<(Seq<char>, ValueView)>::empty());
        assert(es.last() == es[0]);
        assert(encode_entries(es)->Ok_0 =~= entry_bytes(es[0]) + Seq::<u8>::empty());
    } else {
        let init = es.drop_last();
        lemma_encode_entries_front(init);
        assert(init[0] == es[0]);
        assert(es.drop_first().drop_last() =~= init.drop_first());
        assert(es.drop_first().last() == es.last());
        let p0 = entry_bytes(es[0]);
        let mid = encode_entries(init.drop_first())->Ok_0;
        let q = entry_bytes(es.last());
        assert(p0 + mid + q =~= p0 + (mid + q));
    }
}

/// A value that fits reads back as it was written, taking exactly the
/// bytes written, whatever follows them.
pub proof fn lemma_value_round_trip(v: ValueView, rest: Seq<u8>, depth: nat, opts: DeOptsView)
    requires
        encode_value(v) is Ok,
        value_fits(v, depth, opts),
    ensures
        1 <= value_tag(v) <= TAG_MAX,
        parse_value(value_tag(v), encode_value(v)->Ok_0 + rest, depth, opts) == Ok::<(ValueView, nat), ErrorKind>(
            (v, encode_value(v)->Ok_0.len()),
        ),
    decreases v, 0nat,
{
    let p = encode_value(v)->Ok_0;
    match v {
        ValueView::Byte(x) => {
            <i8 as RoundTrip>::lemma_round_trip(x, rest, depth, opts);
        },
        ValueView::Short(x) => {
            <i16 as RoundTrip>::lemma_round_trip(x, rest, depth, opts);
        },
        ValueView::Int(x) => {
            <i32 as RoundTrip>::lemma_round_trip(x, rest, depth, opts);
        },
        ValueView::Long(x) => {
            <i64 as RoundTrip>::lemma_round_trip(x, rest, depth, opts);
        },
        ValueView::Float(b) => {
            assert((b + rest).take(4) =~= b);
        },
        ValueView::Double(b) => {
            assert((b + rest).take(8) =~= b);
        },
        ValueView::String(t) => {
            lemma_str_round_trip(t, rest);
        },
        ValueView::ByteArray(a) => {
            crate::arrays::lemma_array_round_trip::<i8>(a, rest, opts);
        },
        ValueView::IntArray(a) => {
            crate::arrays::lemma_array_round_trip::<i32>(a, rest, opts);
        },
        ValueView::LongArray(a) => {
            crate::arrays::lemma_array_round_trip::<i64>(a, rest, opts);
        },
        ValueView::List(vs) => {
            let l = encode_len(vs.len())->Ok_0;
            let q = encode_values(vs)->Ok_0;
            let element = element_tag(vs);
            crate::be::lemma_be_encode_len(vs.len(), 4);
            let all = seq![element] + l + q + rest;
            assert(p + rest =~= all);
            assert(all =~= seq![element] + (l + (q + rest)));
            if vs.len() > 0 {
                lemma_encode_values_front(vs);
                assert(value_fits(vs[0], depth + 1, opts));
                lemma_value_round_trip(vs[0], rest, depth + 1, opts);
            }
            assert(all.skip(1) =~= l + (q + rest));
            assert(all[0] == element);
            lemma_len_round_trip(vs.len(), q + rest, opts);
            assert(all.skip(5) =~= q + rest);
            if vs.len() > 0 {
                lemma_values_round_trip(element, vs, rest, depth + 1, opts);
                assert(Seq::<ValueView>::empty() + vs =~= vs);
            } else {
                assert(q =~= Seq::<u8>::empty());
                assert(vs =~= Seq::<ValueView>::empty());
            }
        },
        ValueView::Compound(es) => {
            let q = encode_entries(es)->Ok_0;
            assert(p + rest =~= q + (seq![TAG_END] + rest));
            lemma_entries_round_trip(es, seq![TAG_END] + rest, depth + 1, opts);
            lemma_compound_of_sorted(es);
        },
    }
}

/// Values that fit, all of one tag, written one after the other, read back
/// as they were written.
proof fn lemma_values_round_trip(element: u8, vs: Seq<ValueView>, rest: Seq<u8>, depth: nat, opts: DeOptsView)
    requires
        encode_values(vs) is Ok,
        forall|i: int| 0 <= i < vs.len() ==> value_tag(#[trigger] vs[i]) == element,
        forall|i: int| 0 <= i < vs.len() ==> value_fits(#[trigger] vs[i], depth, opts),
    ensures
        parse_values(element, vs.len(), encode_values(vs)->Ok_0 + rest, depth, opts) == Ok::<(Seq<ValueView>, nat), ErrorKind>(
            (vs, encode_values(vs)->Ok_0.len()),
        ),
    decreases vs, 1nat,
{
    if vs.len() == 0 {
        assert(encode_values(vs)->Ok_0 =~= Seq::<u8>::empty());
        assert(vs =~= Seq::<ValueView>::empty());
    } else {
        lemma_encode_values_front(vs);
        let tail = vs.drop_first();
        let p0 = encode_value(vs[0])->Ok_0;
        let pt = encode_values(tail)->Ok_0;
        assert(value_tag(vs[0]) == element && value_fits(vs[0], depth, opts));
        assert forall|i: int| 0 <= i < tail.len() implies value_tag(#[trigger] tail[i]) == element && value_fits(tail[i], depth, opts) by {
            assert(tail[i] == vs[i + 1]);
        }
        assert(decreases_to!(vs => tail));
        lemma_values_round_trip(element, tail, rest, depth, opts);
        lemma_value_round_trip(vs[0], pt + rest, depth, opts);
        let all = p0 + pt + rest;
        assert(all =~= p0 + (pt + rest));
        assert(encode_values(vs)->Ok_0 + rest == all);
        assert(all.skip(p0.len() as int) =~= pt + rest);
        assert(tail.len() == (vs.len() - 1) as nat);
        assert(seq![vs[0]] + tail =~= vs);
    }
}

/// How reading a compound's entries goes on after one whose tag, name and
/// value read: `after_name` is what follows the name, `after_value` what
/// follows the value.
proof fn lemma_parse_entries_step(
    all: Seq<u8>,
    tag: u8,
    name: Seq<char>,
    m: nat,
    v: ValueView,
    n: nat,
    after_name: Seq<u8>,
    after_value: Seq<u8>,
    depth: nat,
    opts: DeOptsView,
)
    requires
        parse_tag(all) == Ok::<(u8, nat), ErrorKind>((tag, 1)),
        tag != TAG_END,
        parse_str(all.skip(1)) == Ok::<(Seq<char>, nat), ErrorKind>((name, m)),
        1 + m + n <= all.len(),
        all.skip((1 + m) as int) == after_name,
        all.skip((1 + m + n) as int) == after_value,
        parse_value(tag, after_name, depth, opts) == Ok::<(ValueView, nat), ErrorKind>((v, n)),
    ensures
        parse_entries(all, depth, opts) == then_seq(seq![(name, v)], 1 + m + n, parse_entries(after_value, depth, opts)),
{
}

/// One entry in front of others that read back: if its name and value
/// read back, the whole reads back.
proof fn lemma_entries_cons(
    name: Seq<char>,
    v: ValueView,
    tail: Seq<(Seq<char>, ValueView)>,
    n: Seq<u8>,
    p0: Seq<u8>,
    pt: Seq<u8>,
    rest: Seq<u8>,
    depth: nat,
    opts: DeOptsView,
)
    requires
        encode_str(name) == Ok::<Seq<u8>, ErrorKind>(n),
        1 <= value_tag(v) <= TAG_MAX,
        parse_value(value_tag(v), p0 + (pt + rest), depth, opts) == Ok::<(ValueView, nat), ErrorKind>((v, p0.len())),
        parse_entries(pt + rest, depth, opts) == Ok::<(Seq<(Seq<char>, ValueView)>, nat), ErrorKind>((tail, pt.len() + 1)),
    ensures
        parse_entries(seq![value_tag(v)] + n + p0 + pt + rest, depth, opts) == Ok::<(Seq<(Seq<char>, ValueView)>, nat), ErrorKind>(
            (seq![(name, v)] + tail, 1 + n.len() + p0.len() + pt.len() + 1),
        ),
{
    let tag = value_tag(v);
    let all = seq![tag] + n + p0 + pt + rest;
    assert(all[0] == tag);
    assert(parse_str(all.skip(1)) == Ok::<(Seq<char>, nat), ErrorKind>((name, n.len()))) by {
        lemma_str_round_trip(name, p0 + pt + rest);
        assert(all.skip(1) =~= n + (p0 + pt + rest));
    }
    assert(all.skip((1 + n.len()) as int) =~= p0 + (pt + rest));
    assert(all.skip((1 + n.len() + p0.len()) as int) =~= pt + rest);
    lemma_parse_entries_step(all, tag, name, n.len(), v, p0.len(), p0 + (pt + rest), pt + rest, depth, opts);
}

/// Entries whose values fit, written one after the other and closed by
/// End, read back as they were written.
proof fn lemma_entries_round_trip(es: Seq<(Seq<char>, ValueView)>, rest: Seq<u8>, depth: nat, opts: DeOptsView)
    requires
        encode_entries(es) is Ok,
        rest.len() > 0,
        rest[0] == TAG_END,
        forall|i: int| 0 <= i < es.len() ==> value_fits(#[trigger] es[i].1, depth, opts),
    ensures
        parse_entries(encode_entries(es)->Ok_0 + rest, depth, opts) == Ok::<(Seq<(Seq<char>, ValueView)>, nat), ErrorKind>(
            (es, encode_entries(es)->Ok_0.len() + 1),
        ),
    decreases es, 1nat,
{
    if es.len() == 0 {
        assert(encode_entries(es)->Ok_0 + rest =~= rest);
        assert(es =~= Seq::<(Seq<char>, ValueView)>::empty());
    } else {
        lemma_encode_entries_front(es);
        let tail = es.drop_first();
        assert(value_fits(es[0].1, depth, opts));
        assert forall|i: int| 0 <= i < tail.len() implies value_fits(#[trigger] tail[i].1, depth, opts) by {
            assert(tail[i] == es[i + 1]);
        }
        assert(decreases_to!(es => tail));
        assert(decreases_to!(es => es[0]));
        assert(decreases_to!(es[0] => es[0].1));
        lemma_entries_round_trip(tail, rest, depth, opts);
        let n = encode_str(es[0].0)->Ok_0;
        let p0 = encode_value(es[0].1)->Ok_0;
        let pt = encode_entries(tail)->Ok_0;
        lemma_value_round_trip(es[0].1, pt + rest, depth, opts);
        lemma_entries_cons(es[0].0, es[0].1, tail, n, p0, pt, rest, depth, opts);
        assert(encode_entries(es)->Ok_0 + rest =~= seq![value_tag(es[0].1)] + n + p0 + pt + rest);
        assert(seq![(es[0].0, es[0].1)] + tail =~= es);
    }
}

/// An array's payload is skipped exactly.
proof fn lemma_array_skip<E: crate::arrays::ArrayElement>(elements: Seq<E>, rest: Seq<u8>, opts: DeOptsView)
    requires
        crate::arrays::array_payload(elements) is Ok,
        elements.len() <= opts.max_seq_len,
        elements.len() * E::width() <= usize::MAX,
    ensures
        skip_array_len(crate::arrays::array_payload(elements)->Ok_0 + rest, E::width()) == Ok::<nat, ErrorKind>(
            crate::arrays::array_payload(elements)->Ok_0.len(),
        ),
{
    crate::arrays::lemma_array_round_trip::<E>(elements, rest, opts);
    crate::arrays::lemma_decode_encode::<E>(elements);
    crate::be::lemma_be_encode_len(elements.len(), 4);
}

/// A value that fits one level deeper is skipped exactly, whatever
/// follows it.
pub proof fn lemma_value_skip(v: ValueView, rest: Seq<u8>, depth: nat, opts: DeOptsView)
    requires
        encode_value(v) is Ok,
        depth < opts.max_depth,
        value_fits(v, depth + 1, opts),
    ensures
        skip_len(value_tag(v), encode_value(v)->Ok_0 + rest, depth, opts) == Ok::<nat, ErrorKind>(
            encode_value(v)->Ok_0.len(),
        ),
    decreases v, 0nat,
{
    let p = encode_value(v)->Ok_0;
    match v {
        ValueView::Byte(x) => {
            <i8 as RoundTrip>::lemma_skip(x, rest, depth, opts);
        },
        ValueView::Short(x) => {
            <i16 as RoundTrip>::lemma_skip(x, rest, depth, opts);
        },
        ValueView::Int(x) => {
            <i32 as RoundTrip>::lemma_skip(x, rest, depth, opts);
        },
        ValueView::Long(x) => {
            <i64 as RoundTrip>::lemma_skip(x, rest, depth, opts);
        },
        ValueView::Float(b) => {},
        ValueView::Double(b) => {},
        ValueView::String(t) => {
            lemma_str_round_trip(t, rest);
        },
        ValueView::ByteArray(a) => {
            lemma_array_skip::<i8>(a, rest, opts);
        },
        ValueView::IntArray(a) => {
            lemma_array_skip::<i32>(a, rest, opts);
        },
        ValueView::LongArray(a) => {
            lemma_array_skip::<i64>(a, rest, opts);
        },
        ValueView::List(vs) => {
            let l = encode_len(vs.len())->Ok_0;
            let q = encode_values(vs)->Ok_0;
            let element = element_tag(vs);
            reveal_with_fuel(pow256, 5);
            lemma_be_encode_decode(vs.len(), 4);
            let all = seq![element] + l + q + rest;
            assert(p + rest =~= all);
            if vs.len() > 0 {
                assert(value_tag(vs[0]) == element);
            }
            assert(all[0] == element);
            assert(all.subrange(1, 5) =~= l);
            assert(all.skip(5) =~= q + rest);
            lemma_values_skip(element, vs, rest, depth + 1, opts);
        },
        ValueView::Compound(es) => {
            let q = encode_entries(es)->Ok_0;
            assert(p + rest =~= q + (seq![TAG_END] + rest));
            lemma_entries_skip(es, seq![TAG_END] + rest, depth + 1, opts);
        },
    }
}

/// Values of one tag, written one after the other, are skipped exactly,
/// one level of headroom provided.
proof fn lemma_values_skip(element: u8, vs: Seq<ValueView>, rest: Seq<u8>, depth: nat, opts: DeOptsView)
    requires
        encode_values(vs) is Ok,
        vs.len() > 0 ==> depth < opts.max_depth,
        forall|i: int| 0 <= i < vs.len() ==> value_tag(#[trigger] vs[i]) == element,
        forall|i: int| 0 <= i < vs.len() ==> value_fits(#[trigger] vs[i], depth + 1, opts),
    ensures
        skip_elements_len(element, vs.len(), encode_values(vs)->Ok_0 + rest, depth, opts) == Ok::<nat, ErrorKind>(
            encode_values(vs)->Ok_0.len(),
        ),
    decreases vs, 1nat,
{
    if vs.len() == 0 {
        assert(encode_values(vs)->Ok_0 =~= Seq::<u8>::empty());
    } else {
        lemma_encode_values_front(vs);
        let tail = vs.drop_first();
        let p0 = encode_value(vs[0])->Ok_0;
        let pt = encode_values(tail)->Ok_0;
        assert(value_tag(vs[0]) == element && value_fits(vs[0], depth + 1, opts));
        assert forall|i: int| 0 <= i < tail.len() implies value_tag(#[trigger] tail[i]) == element && value_fits(tail[i], depth + 1, opts) by {
            assert(tail[i] == vs[i + 1]);
        }
        assert(decreases_to!(vs => tail));
        lemma_values_skip(element, tail, rest, depth, opts);
        lemma_value_skip(vs[0], pt + rest, depth, opts);
        let all = p0 + pt + rest;
        assert(all =~= p0 + (pt + rest));
        assert(encode_values(vs)->Ok_0 + rest == all);
        assert(all.skip(p0.len() as int) =~= pt + rest);
        assert(tail.len() == (vs.len() - 1) as nat);
    }
}

/// One entry in front of others that are skipped exactly: if its value is
/// skipped exactly, so is the whole.
proof fn lemma_skip_entries_cons(
    name: Seq<char>,
    tag: u8,
    n: Seq<u8>,
    p0: Seq<u8>,
    pt: Seq<u8>,
    rest: Seq<u8>,
    depth: nat,
    opts: DeOptsView,
)
    requires
        encode_str(name) == Ok::<Seq<u8>, ErrorKind>(n),
        1 <= tag <= TAG_MAX,
        skip_len(tag, p0 + (pt + rest), depth, opts) == Ok::<nat, ErrorKind>(p0.len()),
        skip_entries_len(pt + rest, depth, opts) == Ok::<nat, ErrorKind>(pt.len() + 1),
    ensures
        skip_entries_len(seq![tag] + n + p0 + pt + rest, depth, opts) == Ok::<nat, ErrorKind>(
            1 + n.len() + p0.len() + pt.len() + 1,
        ),
{
    let all = seq![tag] + n + p0 + pt + rest;
    assert(all[0] == tag);
    assert(crate::read::parse_str_bytes(all.skip(1)) is Ok && crate::read::parse_str_bytes(all.skip(1))->Ok_0.1 == n.len()) by {
        lemma_str_round_trip(name, p0 + pt + rest);
        assert(all.skip(1) =~= n + (p0 + pt + rest));
    }
    assert(all.skip((1 + n.len()) as int) =~= p0 + (pt + rest));
    assert(all.skip((1 + n.len() + p0.len()) as int) =~= pt + rest);
}

/// Entries whose values fit one level deeper, closed by End, are skipped
/// exactly.
proof fn lemma_entries_skip(es: Seq<(Seq<char>, ValueView)>, rest: Seq<u8>, depth: nat, opts: DeOptsView)
    requires
        encode_entries(es) is Ok,
        rest.len() > 0,
        rest[0] == TAG_END,
        depth < opts.max_depth,
        forall|i: int| 0 <= i < es.len() ==> value_fits(#[trigger] es[i].1, depth + 1, opts),
    ensures
        skip_entries_len(encode_entries(es)->Ok_0 + rest, depth, opts) == Ok::<nat, ErrorKind>(
            encode_entries(es)->Ok_0.len() + 1,
        ),
    decreases es, 1nat,
{
    if es.len() == 0 {
        assert(encode_entries(es)->Ok_0 + rest =~= rest);
    } else {
        lemma_encode_entries_front(es);
        let tail = es.drop_first();
        assert(value_fits(es[0].1, depth + 1, opts));
        assert forall|i: int| 0 <= i < tail.len() implies value_fits(#[trigger] tail[i].1, depth + 1, opts) by {
            assert(tail[i] == es[i + 1]);
        }
        assert(decreases_to!(es => tail));
        assert(decreases_to!(es => es[0]));
        assert(decreases_to!(es[0] => es[0].1));
        lemma_entries_skip(tail, rest, depth, opts);
        let n = encode_str(es[0].0)->Ok_0;
        let p0 = encode_value(es[0].1)->Ok_0;
        let pt = encode_entries(tail)->Ok_0;
        lemma_value_skip(es[0].1, pt + rest, depth, opts);
        lemma_value_round_trip(es[0].1, pt + rest, depth + 1, opts);
        lemma_skip_entries_cons(es[0].0, value_tag(es[0].1), n, p0, pt, rest, depth, opts);
        assert(encode_entries(es)->Ok_0 + rest =~= seq![value_tag(es[0].1)] + n + p0 + pt + rest);
    }
}

/// Values are within the limits as [`value_fits`] says, and read and skip
/// by their own tags.
impl<'de> RoundTrip<'de> for Value {
    open spec fn nbt_fits(v: ValueView, depth: nat, opts: DeOptsView) -> bool {
        value_fits(v, depth, opts)
    }

    proof fn lemma_round_trip(v: ValueView, rest: Seq<u8>, depth: nat, opts: DeOptsView) {
        lemma_value_round_trip(v, rest, depth, opts);
    }

    proof fn lemma_skip(v: ValueView, rest: Seq<u8>, depth: nat, opts: DeOptsView) {
        lemma_value_skip(v, rest, depth, opts);
    }
}

/// Converting a tree that fits the reader's default limits into a tree
/// gives back the same tree.
pub proof fn lemma_to_value_keeps_trees(v: ValueView)
    requires
        encode_value(v) is Ok,
        value_fits(v, 0, default_de_opts()),
    ensures
        value_of::<Value>(v) == Ok::<ValueView, ErrorKind>(v),
{
    let p = encode_value(v)->Ok_0;
    lemma_value_round_trip(v, Seq::empty(), 0, default_de_opts());
    let bytes = seq![value_tag(v)] + p;
    assert(bytes.skip(1) =~= p + Seq::<u8>::empty());
}

/// Sorting byte strings is transitive.
proof fn lemma_bytes_less_transitive(a: Seq<u8>, b: Seq<u8>, c: Seq<u8>)
    requires
        bytes_less(a, b),
        bytes_less(b, c),
    ensures
        bytes_less(a, c),
    decreases a.len(),
{
    if a.len() > 0 && b.len() > 0 && c.len() > 0 && a[0] == b[0] && b[0] == c[0] {
        lemma_bytes_less_transitive(a.drop_first(), b.drop_first(), c.drop_first());
    }
}

/// Of two different byte strings, one sorts before the other.
proof fn lemma_bytes_less_total(a: Seq<u8>, b: Seq<u8>)
    requires
        a != b,
    ensures
        bytes_less(a, b) || bytes_less(b, a),
    decreases a.len(),
{
    if a.len() > 0 && b.len() > 0 && a[0] == b[0] {
        if a.drop_first() == b.drop_first() {
            assert(a =~= seq![a[0]] + a.drop_first());
            assert(b =~= seq![b[0]] + b.drop_first());
        }
        lemma_bytes_less_total(a.drop_first(), b.drop_first());
    } else if a.len() == 0 && b.len() == 0 {
        assert(a =~= b);
    }
}

/// Keys sort as a strict total order.
proof fn lemma_key_order(a: Seq<char>, b: Seq<char>, c: Seq<char>)
    ensures
        a != b ==> key_less(a, b) || key_less(b, a),
        key_less(a, b) && key_less(b, c) ==> key_less(a, c),
{
    vstd::utf8::encode_utf8_decode_utf8(a);
    vstd::utf8::encode_utf8_decode_utf8(b);
    let (x, y, z) = (vstd::utf8::encode_utf8(a), vstd::utf8::encode_utf8(b), vstd::utf8::encode_utf8(c));
    if a != b {
        lemma_bytes_less_total(x, y);
    }
    if key_less(a, b) && key_less(b, c) {
        lemma_bytes_less_transitive(x, y, z);
    }
}

/// A key below every key of a compound and below the key put in is below
/// every key of the result.
proof fn lemma_with_entry_bound(es: Seq<(Seq<char>, ValueView)>, key: Seq<char>, value: ValueView, x: Seq<char>)
    requires
        forall|j: int| 0 <= j < es.len() ==> key_less(x, #[trigger] es[j].0),
        key_less(x, key),
    ensures
        forall|i: int| 0 <= i < with_entry(es, key, value).len() ==> key_less(x, #[trigger] with_entry(es, key, value)[i].0),
    decreases es.len(),
{
    let r = with_entry(es, key, value);
    if es.len() > 0 && es[0].0 != key && !key_less(key, es[0].0) {
        let t = es.drop_first();
        assert forall|j: int| 0 <= j < t.len() implies key_less(x, #[trigger] t[j].0) by {
            assert(t[j] == es[j + 1]);
        }
        lemma_with_entry_bound(t, key, value, x);
        assert forall|i: int| 0 <= i < r.len() implies key_less(x, #[trigger] r[i].0) by {
            if i > 0 {
                assert(r[i] == with_entry(t, key, value)[i - 1]);
            }
        }
    }
}

/// Putting an entry into a compound whose keys are sorted keeps them
/// sorted.
proof fn lemma_with_entry_sorted(es: Seq<(Seq<char>, ValueView)>, key: Seq<char>, value: ValueView)
    requires
        keys_sorted(es),
    ensures
        keys_sorted(with_entry(es, key, value)),
    decreases es.len(),
{
    let r = with_entry(es, key, value);
    if es.len() == 0 {
    } else if es[0].0 == key {
        assert forall|i: int, j: int| 0 <= i < j < r.len() implies key_less(#[trigger] r[i].0, #[trigger] r[j].0) by {
            assert(r[i].0 == es[i].0 && r[j].0 == es[j].0);
        }
    } else if key_less(key, es[0].0) {
        assert forall|i: int, j: int| 0 <= i < j < r.len() implies key_less(#[trigger] r[i].0, #[trigger] r[j].0) by {
            if i == 0 {
                assert(r[j] == es[j - 1]);
                if j > 1 {
                    assert(key_less(es[0].0, es[j - 1].0));
                    lemma_key_order(key, es[0].0, es[j - 1].0);
                }
            } else {
                assert(r[i] == es[i - 1] && r[j] == es[j - 1]);
            }
        }
    } else {
        let t = es.drop_first();
        lemma_key_order(es[0].0, key, key);
        assert(key_less(es[0].0, key));
        assert(keys_sorted(t)) by {
            assert forall|i: int, j: int| 0 <= i < j < t.len() implies key_less(#[trigger] t[i].0, #[trigger] t[j].0) by {
                assert(t[i] == es[i + 1] && t[j] == es[j + 1]);
            }
        }
        lemma_with_entry_sorted(t, key, value);
        assert forall|j: int| 0 <= j < t.len() implies key_less(es[0].0, #[trigger] t[j].0) by {
            assert(t[j] == es[j + 1]);
        }
        lemma_with_entry_bound(t, key, value, es[0].0);
        let rt = with_entry(t, key, value);
        assert forall|i: int, j: int| 0 <= i < j < r.len() implies key_less(#[trigger] r[i].0, #[trigger] r[j].0) by {
            assert(r[j] == rt[j - 1]);
            if i > 0 {
                assert(r[i] == rt[i - 1]);
            }
        }
    }
}

/// A compound read from any entries holds its keys in sorted order, each
/// once.
pub proof fn lemma_compound_of_is_sorted(es: Seq<(Seq<char>, ValueView)>)
    ensures
        keys_sorted(compound_of(es)),
    decreases es.len(),
{
    if es.len() > 0 {
        lemma_compound_of_is_sorted(es.drop_last());
        lemma_with_entry_sorted(compound_of(es.drop_last()), es.last().0, es.last().1);
    }
}

/// Putting an entry into a compound keeps the values a property holds of
/// every value: the result holds only the old values and the new one.
proof fn lemma_with_entry_sorted_values(es: Seq<(Seq<char>, ValueView)>, key: Seq<char>, value: ValueView)
    requires
        forall|j: int| 0 <= j < es.len() ==> tree_sorted(#[trigger] es[j].1),
        tree_sorted(value),
    ensures
        forall|i: int| 0 <= i < with_entry(es, key, value).len() ==> tree_sorted(#[trigger] with_entry(es, key, value)[i].1),
    decreases es.len(),
{
    let r = with_entry(es, key, value);
    if es.len() == 0 {
    } else if es[0].0 == key {
        assert forall|i: int| 0 <= i < r.len() implies tree_sorted(#[trigger] r[i].1) by {
            if i > 0 {
                assert(r[i] == es[i]);
            }
        }
    } else if key_less(key, es[0].0) {
        assert forall|i: int| 0 <= i < r.len() implies tree_sorted(#[trigger] r[i].1) by {
            if i > 0 {
                assert(r[i] == es[i - 1]);
            }
        }
    } else {
        let t = es.drop_first();
        assert forall|j: int| 0 <= j < t.len() implies tree_sorted(#[trigger] t[j].1) by {
            assert(t[j] == es[j + 1]);
        }
        lemma_with_entry_sorted_values(t, key, value);
        assert forall|i: int| 0 <= i < r.len() implies tree_sorted(#[trigger] r[i].1) by {
            if i > 0 {
                assert(r[i] == with_entry(t, key, value)[i - 1]);
            }
        }
    }
}

/// The compound that entries make holds only their values.
proof fn lemma_compound_of_values(es: Seq<(Seq<char>, ValueView)>)
    requires
        forall|j: int| 0 <= j < es.len() ==> tree_sorted(#[trigger] es[j].1),
    ensures
        forall|i: int| 0 <= i < compound_of(es).len() ==> tree_sorted(#[trigger] compound_of(es)[i].1),
    decreases es.len(),
{
    if es.len() > 0 {
        let init = es.drop_last();
        assert forall|j: int| 0 <= j < init.len() implies tree_sorted(#[trigger] init[j].1) by {
            assert(init[j] == es[j]);
        }
        lemma_compound_of_values(init);
        assert(tree_sorted(es[es.len() - 1].1));
        lemma_with_entry_sorted_values(compound_of(init), es.last().0, es.last().1);
    }
}

/// Every compound in a tree that reading gives holds its keys in sorted
/// order, each once, whatever order the document wrote them in.
pub proof fn lemma_read_trees_are_sorted(tag: u8, rest: Seq<u8>, depth: nat, opts: DeOptsView)
    ensures
        parse_value(tag, rest, depth, opts) matches Ok((v, _)) ==> tree_sorted(v),
    decreases opts.max_depth - depth, rest.len(), 0nat,
{
    if tag == crate::tag::TAG_LIST {
        if let Ok(((element, len), _)) = crate::read::parse_list_header(rest, opts) {
            if element != TAG_END && depth < opts.max_depth {
                lemma_read_values_sorted(element, len, rest.skip(5), depth + 1, opts);
            }
        }
    } else if tag == crate::tag::TAG_COMPOUND {
        if depth < opts.max_depth {
            lemma_read_entries_sorted(rest, depth + 1, opts);
            if let Ok((es, _)) = parse_entries(rest, depth + 1, opts) {
                lemma_compound_of_is_sorted(es);
                lemma_compound_of_values(es);
            }
        }
    }
}

/// Every value read in a list is sorted throughout.
proof fn lemma_read_values_sorted(element: u8, count: nat, rest: Seq<u8>, depth: nat, opts: DeOptsView)
    ensures
        parse_values(element, count, rest, depth, opts) matches Ok((vs, _)) ==> forall|i: int|
            0 <= i < vs.len() ==> tree_sorted(#[trigger] vs[i]),
    decreases opts.max_depth - depth, rest.len(), count + 1,
{
    if count > 0 {
        lemma_read_trees_are_sorted(element, rest, depth, opts);
        if let Ok((v, n)) = parse_value(element, rest, depth, opts) {
            if n <= rest.len() {
                lemma_read_values_sorted(element, (count - 1) as nat, rest.skip(n as int), depth, opts);
                if let Ok((vs, _)) = parse_values(element, count, rest, depth, opts) {
                    let tail = parse_values(element, (count - 1) as nat, rest.skip(n as int), depth, opts)->Ok_0.0;
                    assert(vs == seq![v] + tail);
                    assert forall|i: int| 0 <= i < vs.len() implies tree_sorted(#[trigger] vs[i]) by {
                        if i > 0 {
                            assert(vs[i] == tail[i - 1]);
                        }
                    }
                }
            }
        }
    }
}

/// Every value read in a compound's entries is sorted throughout.
proof fn lemma_read_entries_sorted(rest: Seq<u8>, depth: nat, opts: DeOptsView)
    ensures
        parse_entries(rest, depth, opts) matches Ok((es, _)) ==> forall|i: int|
            0 <= i < es.len() ==> tree_sorted(#[trigger] es[i].1),
    decreases opts.max_depth - depth, rest.len(), 1nat,
{
    if let Ok((tag, _)) = parse_tag(rest) {
        if tag != TAG_END {
            if let Ok((name, m)) = parse_str(rest.skip(1)) {
                if 1 + m <= rest.len() {
                    lemma_read_trees_are_sorted(tag, rest.skip((1 + m) as int), depth, opts);
                    if let Ok((v, n)) = parse_value(tag, rest.skip((1 + m) as int), depth, opts) {
                        if 1 + m + n <= rest.len() {
                            lemma_read_entries_sorted(rest.skip((1 + m + n) as int), depth, opts);
                            if let Ok((es, _)) = parse_entries(rest, depth, opts) {
                                let tail = parse_entries(rest.skip((1 + m + n) as int), depth, opts)->Ok_0.0;
                                assert(es == seq![(name, v)] + tail);
                                assert forall|i: int| 0 <= i < es.len() implies tree_sorted(#[trigger] es[i].1) by {
                                    if i > 0 {
                                        assert(es[i] == tail[i - 1]);
                                    }
                                }
                            }
                        }
                    }
                }
            }
        }
    }
}

/// Wherever the reader's skip passes over a value, the serde side's skip
/// passes over exactly the same bytes.
pub proof fn lemma_de_skip_agrees(tag: u8, rest: Seq<u8>, depth: nat, opts: DeOptsView)
    ensures
        skip_len(tag, rest, depth, opts) matches Ok(n) ==> crate::de::de_skip_len(tag, rest, depth, opts)
            == Ok::<nat, ErrorKind>(n),
    decreases opts.max_depth - depth, rest.len(), 0nat,
{
    if tag == crate::tag::TAG_COMPOUND && depth < opts.max_depth {
        lemma_de_skip_entries_agree(rest, depth + 1, opts);
    }
    if tag == crate::tag::TAG_LIST && rest.len() >= 5 && depth < opts.max_depth {
        if let Ok((element, _)) = parse_tag(rest) {
            let len = crate::be::be_sint(rest.subrange(1, 5));
            let count: nat = if len < 0 { 0 } else { len as nat };
            lemma_de_skip_elements_agree(element, count, rest.skip(5), depth + 1, opts);
        }
    }
}

/// The serde side skips a compound's entries exactly as the reader does.
proof fn lemma_de_skip_entries_agree(rest: Seq<u8>, depth: nat, opts: DeOptsView)
    ensures
        skip_entries_len(rest, depth, opts) matches Ok(n) ==> crate::de::de_skip_entries_len(rest, depth, opts)
            == Ok::<nat, ErrorKind>(n),
    decreases opts.max_depth - depth, rest.len(), 1nat,
{
    if let Ok((tag, _)) = parse_tag(rest) {
        if tag != TAG_END {
            if let Ok((_, m)) = crate::read::parse_str_bytes(rest.skip(1)) {
                if 1 + m <= rest.len() {
                    lemma_de_skip_agrees(tag, rest.skip((1 + m) as int), depth, opts);
                    if let Ok(v) = skip_len(tag, rest.skip((1 + m) as int), depth, opts) {
                        if 1 + m + v <= rest.len() {
                            lemma_de_skip_entries_agree(rest.skip((1 + m + v) as int), depth, opts);
                        }
                    }
                }
            }
        }
    }
}

/// The serde side skips a list's elements exactly as the reader does.
proof fn lemma_de_skip_elements_agree(element: u8, count: nat, rest: Seq<u8>, depth: nat, opts: DeOptsView)
    ensures
        skip_elements_len(element, count, rest, depth, opts) matches Ok(n)
            ==> crate::de::de_skip_elements_len(element, count, rest, depth, opts) == Ok::<nat, ErrorKind>(n),
    decreases opts.max_depth - depth, rest.len(), count + 1,
{
    if count > 0 {
        lemma_de_skip_agrees(element, rest, depth, opts);
        if let Ok(v) = skip_len(element, rest, depth, opts) {
            if v <= rest.len() {
                lemma_de_skip_elements_agree(element, (count - 1) as nat, rest.skip(v as int), depth, opts);
            }
        }
    }
}

/// The serde side skips exactly the bytes a value was written as, whatever
/// follows them, one level of headroom provided: a field the target type
/// ignores leaves the next entry's tag next.
pub proof fn lemma_serde_skip<'de, T: RoundTrip<'de>>(v: <T as DeepView>::V, rest: Seq<u8>, depth: nat, opts: DeOptsView)
    requires
        T::nbt_payload(v) is Ok,
        depth < opts.max_depth,
        T::nbt_fits(v, depth + 1, opts),
    ensures
        crate::de::de_skip_len(T::nbt_tag(v), T::nbt_payload(v)->Ok_0 + rest, depth, opts) == Ok::<nat, ErrorKind>(
            T::nbt_payload(v)->Ok_0.len(),
        ),
{
    T::lemma_skip(v, rest, depth, opts);
    lemma_de_skip_agrees(T::nbt_tag(v), T::nbt_payload(v)->Ok_0 + rest, depth, opts);
}

/// Every tree is skipped on the serde side exactly as it was written: an
/// array by its length and elements, a list and a compound by their
/// contents.
pub proof fn lemma_serde_skip_trees(v: ValueView, rest: Seq<u8>, depth: nat, opts: DeOptsView)
    requires
        encode_value(v) is Ok,
        depth < opts.max_depth,
        value_fits(v, depth + 1, opts),
    ensures
        crate::de::de_skip_len(value_tag(v), encode_value(v)->Ok_0 + rest, depth, opts) == Ok::<nat, ErrorKind>(
            encode_value(v)->Ok_0.len(),
        ),
{
    lemma_value_skip(v, rest, depth, opts);
    lemma_de_skip_agrees(value_tag(v), encode_value(v)->Ok_0 + rest, depth, opts);
}

/// Putting `value` under `key` into a compound keeps every entry with
/// another key, holds `key` with `value`, and holds nothing that was not
/// there or put in.
pub proof fn lemma_with_entry_contents(es: Seq<(Seq<char>, ValueView)>, key: Seq<char>, value: ValueView)
    ensures
        with_entry(es, key, value).contains((key, value)),
        forall|j: int| 0 <= j < es.len() && es[j].0 != key ==> with_entry(es, key, value).contains(#[trigger] es[j]),
        forall|i: int|
            0 <= i < with_entry(es, key, value).len() ==> (#[trigger] with_entry(es, key, value)[i] == (key, value)
                || es.contains(with_entry(es, key, value)[i])),
    decreases es.len(),
{
    let r = with_entry(es, key, value);
    if es.len() == 0 {
        assert(r[0] == (key, value));
    } else if es[0].0 == key {
        assert(r[0] == (key, value));
        assert forall|j: int| 0 <= j < es.len() && es[j].0 != key implies r.contains(#[trigger] es[j]) by {
            assert(r[j] == es[j]);
        }
        assert forall|i: int| 0 <= i < r.len() implies (#[trigger] r[i] == (key, value) || es.contains(r[i])) by {
            if i > 0 {
                assert(r[i] == es[i]);
            }
        }
    } else if key_less(key, es[0].0) {
        assert(r[0] == (key, value));
        assert forall|j: int| 0 <= j < es.len() && es[j].0 != key implies r.contains(#[trigger] es[j]) by {
            assert(r[j + 1] == es[j]);
        }
        assert forall|i: int| 0 <= i < r.len() implies (#[trigger] r[i] == (key, value) || es.contains(r[i])) by {
            if i > 0 {
                assert(r[i] == es[i - 1]);
            }
        }
    } else {
        let t = es.drop_first();
        let rt = with_entry(t, key, value);
        lemma_with_entry_contents(t, key, value);
        assert(r == seq![es[0]] + rt);
        let k = choose|k: int| 0 <= k < rt.len() && rt[k] == (key, value);
        assert(r[k + 1] == (key, value));
        assert forall|j: int| 0 <= j < es.len() && es[j].0 != key implies r.contains(#[trigger] es[j]) by {
            if j == 0 {
                assert(r[0] == es[0]);
            } else {
                assert(es[j] == t[j - 1]);
                let m = choose|m: int| 0 <= m < rt.len() && rt[m] == t[j - 1];
                assert(r[m + 1] == es[j]);
            }
        }
        assert forall|i: int| 0 <= i < r.len() implies (#[trigger] r[i] == (key, value) || es.contains(r[i])) by {
            if i == 0 {
                assert(es[0] == r[0]);
            } else {
                assert(r[i] == rt[i - 1]);
                if rt[i - 1] != (key, value) {
                    let m = choose|m: int| 0 <= m < t.len() && t[m] == rt[i - 1];
                    assert(es[m + 1] == t[m]);
                }
            }
        }
    }
}

/// A compound read from entries holds the last entry of every key, and
/// only entries it was given: later entries with a key replace earlier
/// ones, and no key is lost.
pub proof fn lemma_compound_of_contents(es: Seq<(Seq<char>, ValueView)>)
    ensures
        forall|i: int|
            0 <= i < es.len() && (forall|j: int| i < j < es.len() ==> es[j].0 != es[i].0)
                ==> compound_of(es).contains(#[trigger] es[i]),
        forall|i: int| 0 <= i < compound_of(es).len() ==> es.contains(#[trigger] compound_of(es)[i]),
    decreases es.len(),
{
    if es.len() > 0 {
        let init = es.drop_last();
        let (k, v) = es.last();
        let c = compound_of(init);
        let r = compound_of(es);
        lemma_compound_of_contents(init);
        lemma_with_entry_contents(c, k, v);
        assert(r == with_entry(c, k, v));
        assert forall|i: int|
            0 <= i < es.len() && (forall|j: int| i < j < es.len() ==> es[j].0 != es[i].0) implies r.contains(
            #[trigger] es[i]) by {
            if i == es.len() - 1 {
                assert(es[i] == (k, v));
            } else {
                assert(es[i] == init[i]);
                assert(es[es.len() - 1].0 != es[i].0);
                assert forall|j: int| i < j < init.len() implies init[j].0 != init[i].0 by {
                    assert(init[j] == es[j]);
                }
                assert(c.contains(init[i]));
                let m = choose|m: int| 0 <= m < c.len() && c[m] == init[i];
                assert(c[m].0 != k);
            }
        }
        assert forall|i: int| 0 <= i < r.len() implies es.contains(#[trigger] r[i]) by {
            if r[i] == (k, v) {
                assert(es[es.len() - 1] == r[i]);
            } else {
                let m = choose|m: int| 0 <= m < c.len() && c[m] == r[i];
                let n = choose|n: int| 0 <= n < init.len() && init[n] == c[m];
                assert(es[n] == init[n]);
            }
        }
    }
}

} // verus!
