//! The NBT arrays: their element spellings, and their payloads.
//!
//! A byte array holds `i8` or `u8` elements, an int array `i32` or `u32`,
//! and a long array `i64` or `u64`. The bytes of an unsigned element are the
//! bytes of its signed element, as they are everywhere else in the crate.
//! The elements are big-endian in the document.

use vstd::prelude::*;

use crate::be::{
    be_encode, be_encode_signed, be_sint, be_uint, lemma_be_encode_decode, lemma_be_signed_encode_decode,
    lemma_be_uint_bound, pow256, I32Be, I64Be, U32Be, U64Be,
};
use crate::error::{Error, ErrorKind, Result};
use crate::opts::DeOptsView;
use crate::read::{parse_elements, parse_len, Reader};
use crate::tag::{TAG_BYTE_ARRAY, TAG_INT_ARRAY, TAG_LONG_ARRAY};
use crate::write::{append_bytes, encode_len, Writer};

verus! {

/// An element spelling of the NBT arrays, a scalar integer of `width()`
/// bytes.
pub trait ArrayElement: Sized + Copy {
    /// How many bytes an element takes.
    spec fn width() -> nat;

    /// The element `width()` big-endian bytes spell.
    spec fn decoded(bytes: Seq<u8>) -> Self;

    /// The `width()` big-endian bytes of the element.
    spec fn encoded(self) -> Seq<u8>;

    /// The tag of the arrays that hold this element.
    spec fn array_tag() -> u8;

    /// An element takes one to eight bytes.
    proof fn lemma_width_range()
        ensures
            1 <= Self::width() <= 8,
    ;

    /// Spelling an element and reading the bytes back gives the element.
    proof fn lemma_round_trip(self)
        ensures
            self.encoded().len() == Self::width(),
            Self::decoded(self.encoded()) == self,
    ;

    /// How many bytes an element takes.
    fn byte_width() -> (n: usize)
        ensures
            n == Self::width(),
            1 <= n <= 8,
    ;

    /// The tag of the arrays that hold this element.
    fn tag() -> (tag: u8)
        ensures
            tag == Self::array_tag(),
    ;

    /// The element `bytes` spell.
    fn decode(bytes: &[u8]) -> (e: Self)
        requires
            bytes@.len() == Self::width(),
        ensures
            e == Self::decoded(bytes@),
    ;

    /// Appends the element's bytes to `out`.
    fn encode(self, out: &mut Vec<u8>)
        ensures
            final(out)@ == old(out)@ + self.encoded(),
    ;
}

/// One element spelling a byte array accepts, `i8` or `u8`.
pub trait ByteArrayElement: ArrayElement {
    proof fn lemma_width()
        ensures
            Self::width() == 1,
            Self::array_tag() == TAG_BYTE_ARRAY,
    ;
}

/// One element spelling an int array accepts, `i32` or `u32`.
pub trait IntArrayElement: ArrayElement {
    proof fn lemma_width()
        ensures
            Self::width() == 4,
            Self::array_tag() == TAG_INT_ARRAY,
    ;
}

/// One element spelling a long array accepts, `i64` or `u64`.
pub trait LongArrayElement: ArrayElement {
    proof fn lemma_width()
        ensures
            Self::width() == 8,
            Self::array_tag() == TAG_LONG_ARRAY,
    ;
}

impl ArrayElement for i8 {
    open spec fn width() -> nat {
        1
    }

    open spec fn decoded(bytes: Seq<u8>) -> i8 {
        be_sint(bytes) as i8
    }

    open spec fn encoded(self) -> Seq<u8> {
        be_encode_signed(self as int, 1)
    }

    open spec fn array_tag() -> u8 {
        TAG_BYTE_ARRAY
    }

    proof fn lemma_width_range() {
    }

    proof fn lemma_round_trip(self) {
        reveal_with_fuel(pow256, 2);
        lemma_be_signed_encode_decode(self as int, 1);
    }

    fn byte_width() -> (n: usize) {
        1
    }

    fn tag() -> (tag: u8) {
        TAG_BYTE_ARRAY
    }

    fn decode(bytes: &[u8]) -> (e: i8) {
        proof {
            reveal_with_fuel(be_uint, 2);
            reveal_with_fuel(pow256, 2);
        }
        let b = bytes[0];
        if b >= 128 {
            (b as i16 - 256) as i8
        } else {
            b as i8
        }
    }

    fn encode(self, out: &mut Vec<u8>) {
        let u: u8 = if self < 0 { (self as i16 + 256) as u8 } else { self as u8 };
        proof {
            reveal_with_fuel(be_encode, 2);
            reveal_with_fuel(pow256, 2);
        }
        out.push(u);
        assert(seq![u] =~= be_encode_signed(self as int, 1));
        assert(final(out)@ =~= old(out)@ + seq![u]);
    }
}

impl ByteArrayElement for i8 {
    proof fn lemma_width() {
    }
}

/// The unsigned spelling of a byte, sharing its bits.
impl ArrayElement for u8 {
    open spec fn width() -> nat {
        1
    }

    open spec fn decoded(bytes: Seq<u8>) -> u8 {
        bytes[0]
    }

    open spec fn encoded(self) -> Seq<u8> {
        seq![self]
    }

    open spec fn array_tag() -> u8 {
        TAG_BYTE_ARRAY
    }

    proof fn lemma_width_range() {
    }

    proof fn lemma_round_trip(self) {
    }

    fn byte_width() -> (n: usize) {
        1
    }

    fn tag() -> (tag: u8) {
        TAG_BYTE_ARRAY
    }

    fn decode(bytes: &[u8]) -> (e: u8) {
        bytes[0]
    }

    fn encode(self, out: &mut Vec<u8>) {
        out.push(self);
        assert(final(out)@ =~= old(out)@ + seq![self]);
    }
}

impl ByteArrayElement for u8 {
    proof fn lemma_width() {
    }
}

impl ArrayElement for i32 {
    open spec fn width() -> nat {
        4
    }

    open spec fn decoded(bytes: Seq<u8>) -> i32 {
        be_sint(bytes) as i32
    }

    open spec fn encoded(self) -> Seq<u8> {
        be_encode_signed(self as int, 4)
    }

    open spec fn array_tag() -> u8 {
        TAG_INT_ARRAY
    }

    proof fn lemma_width_range() {
    }

    proof fn lemma_round_trip(self) {
        reveal_with_fuel(pow256, 5);
        lemma_be_signed_encode_decode(self as int, 4);
    }

    fn byte_width() -> (n: usize) {
        4
    }

    fn tag() -> (tag: u8) {
        TAG_INT_ARRAY
    }

    fn decode(bytes: &[u8]) -> (e: i32) {
        let array = [bytes[0], bytes[1], bytes[2], bytes[3]];
        assert(array@ =~= bytes@);
        I32Be::from_bytes(array).get()
    }

    fn encode(self, out: &mut Vec<u8>) {
        let bytes = I32Be::new(self);
        append_bytes(out, bytes.as_bytes());
    }
}

impl IntArrayElement for i32 {
    proof fn lemma_width() {
    }
}

/// The unsigned spelling of an int, sharing its bits.
impl ArrayElement for u32 {
    open spec fn width() -> nat {
        4
    }

    open spec fn decoded(bytes: Seq<u8>) -> u32 {
        be_uint(bytes) as u32
    }

    open spec fn encoded(self) -> Seq<u8> {
        be_encode(self as nat, 4)
    }

    open spec fn array_tag() -> u8 {
        TAG_INT_ARRAY
    }

    proof fn lemma_width_range() {
    }

    proof fn lemma_round_trip(self) {
        reveal_with_fuel(pow256, 5);
        lemma_be_encode_decode(self as nat, 4);
    }

    fn byte_width() -> (n: usize) {
        4
    }

    fn tag() -> (tag: u8) {
        TAG_INT_ARRAY
    }

    fn decode(bytes: &[u8]) -> (e: u32) {
        let array = [bytes[0], bytes[1], bytes[2], bytes[3]];
        assert(array@ =~= bytes@);
        proof {
            reveal_with_fuel(pow256, 5);
            lemma_be_uint_bound(bytes@);
        }
        U32Be::from_bytes(array).get()
    }

    fn encode(self, out: &mut Vec<u8>) {
        let bytes = U32Be::new(self);
        append_bytes(out, bytes.as_bytes());
    }
}

impl IntArrayElement for u32 {
    proof fn lemma_width() {
    }
}

impl ArrayElement for i64 {
    open spec fn width() -> nat {
        8
    }

    open spec fn decoded(bytes: Seq<u8>) -> i64 {
        be_sint(bytes) as i64
    }

    open spec fn encoded(self) -> Seq<u8> {
        be_encode_signed(self as int, 8)
    }

    open spec fn array_tag() -> u8 {
        TAG_LONG_ARRAY
    }

    proof fn lemma_width_range() {
    }

    proof fn lemma_round_trip(self) {
        reveal_with_fuel(pow256, 9);
        lemma_be_signed_encode_decode(self as int, 8);
    }

    fn byte_width() -> (n: usize) {
        8
    }

    fn tag() -> (tag: u8) {
        TAG_LONG_ARRAY
    }

    fn decode(bytes: &[u8]) -> (e: i64) {
        let array = [bytes[0], bytes[1], bytes[2], bytes[3], bytes[4], bytes[5], bytes[6], bytes[7]];
        assert(array@ =~= bytes@);
        I64Be::from_bytes(array).get()
    }

    fn encode(self, out: &mut Vec<u8>) {
        let bytes = I64Be::new(self);
        append_bytes(out, bytes.as_bytes());
    }
}

impl LongArrayElement for i64 {
    proof fn lemma_width() {
    }
}

/// The unsigned spelling of a long, sharing its bits.
impl ArrayElement for u64 {
    open spec fn width() -> nat {
        8
    }

    open spec fn decoded(bytes: Seq<u8>) -> u64 {
        be_uint(bytes) as u64
    }

    open spec fn encoded(self) -> Seq<u8> {
        be_encode(self as nat, 8)
    }

    open spec fn array_tag() -> u8 {
        TAG_LONG_ARRAY
    }

    proof fn lemma_width_range() {
    }

    proof fn lemma_round_trip(self) {
        reveal_with_fuel(pow256, 9);
        lemma_be_encode_decode(self as nat, 8);
    }

    fn byte_width() -> (n: usize) {
        8
    }

    fn tag() -> (tag: u8) {
        TAG_LONG_ARRAY
    }

    fn decode(bytes: &[u8]) -> (e: u64) {
        let array = [bytes[0], bytes[1], bytes[2], bytes[3], bytes[4], bytes[5], bytes[6], bytes[7]];
        assert(array@ =~= bytes@);
        proof {
            reveal_with_fuel(pow256, 9);
            lemma_be_uint_bound(bytes@);
        }
        U64Be::from_bytes(array).get()
    }

    fn encode(self, out: &mut Vec<u8>) {
        let bytes = U64Be::new(self);
        append_bytes(out, bytes.as_bytes());
    }
}

impl LongArrayElement for u64 {
    proof fn lemma_width() {
    }
}

/// The elements `bytes` spell, `E::width()` bytes each; a trailing partial
/// element is ignored.
pub open spec fn decoded_elements<E: ArrayElement>(bytes: Seq<u8>) -> Seq<E> {
    Seq::new(
        bytes.len() / E::width(),
        |i: int| E::decoded(bytes.subrange(i * E::width(), i * E::width() + E::width())),
    )
}

/// The bytes of `elements`, one after the other.
pub open spec fn encoded_elements<E: ArrayElement>(elements: Seq<E>) -> Seq<u8>
    decreases elements.len(),
{
    if elements.len() == 0 {
        Seq::empty()
    } else {
        encoded_elements(elements.drop_last()) + elements.last().encoded()
    }
}

/// Decodes big-endian elements of `E::width()` bytes each; a trailing
/// partial element is ignored.
pub fn decode_be<E: ArrayElement>(bytes: &[u8]) -> (elements: Vec<E>)
    ensures
        elements@ == decoded_elements::<E>(bytes@),
{
    let w = E::byte_width();
    let total = bytes.len();
    let n = total / w;
    let mut out: Vec<E> = Vec::new();
    let mut i: usize = 0;
    let mut pos: usize = 0;
    while i < n
        invariant
            w == E::width(),
            1 <= w <= 8,
            total == bytes@.len(),
            n == bytes@.len() / (w as nat),
            i <= n,
            pos == i * w,
            out@.len() == i,
            forall|j: int| 0 <= j < i ==> #[trigger] out@[j] == E::decoded(bytes@.subrange(j * w, j * w + w)),
        decreases n - i,
    {
        assert(pos + w <= bytes@.len()) by (nonlinear_arith)
            requires
                pos == i * w,
                i < n,
                n == bytes@.len() / (w as nat),
                w >= 1,
        ;
        let chunk = &bytes[pos..pos + w];
        assert(chunk@ =~= bytes@.subrange(pos as int, pos + w));
        let e = E::decode(chunk);
        out.push(e);
        assert((i + 1) * w == pos + w) by (nonlinear_arith)
            requires
                pos == i * w,
        ;
        i = i + 1;
        pos = pos + w;
    }
    assert(out@ =~= decoded_elements::<E>(bytes@));
    out
}

/// The big-endian bytes of `elements`, one after the other.
pub fn encode_be<E: ArrayElement>(elements: &[E]) -> (bytes: Vec<u8>)
    ensures
        bytes@ == encoded_elements(elements@),
{
    let mut out: Vec<u8> = Vec::new();
    let mut i: usize = 0;
    while i < elements.len()
        invariant
            i <= elements@.len(),
            out@ == encoded_elements(elements@.take(i as int)),
        decreases elements@.len() - i,
    {
        assert(elements@.take(i + 1).drop_last() =~= elements@.take(i as int));
        elements[i].encode(&mut out);
        i = i + 1;
    }
    assert(elements@.take(elements@.len() as int) =~= elements@);
    out
}

/// The elements of a payload that must be a whole number of them, as an
/// array module reads it; `None` when it is not.
pub fn whole_elements<E: ArrayElement>(bytes: &[u8]) -> (elements: Option<Vec<E>>)
    ensures
        bytes@.len() % E::width() != 0 ==> elements is None,
        bytes@.len() % E::width() == 0 ==> (elements matches Some(v) && v@ == decoded_elements::<E>(bytes@)),
{
    if bytes.len() % E::byte_width() != 0 {
        return None;
    }
    Some(decode_be(bytes))
}

/// What reading `len` elements of `E` from the front of `rest` gives.
pub open spec fn parse_be<E: ArrayElement>(rest: Seq<u8>, len: nat) -> core::result::Result<(Seq<E>, nat), ErrorKind> {
    match parse_elements(rest, len, E::width()) {
        Ok((bytes, n)) => Ok((decoded_elements::<E>(bytes), n)),
        Err(k) => Err(k),
    }
}

/// Reads `len` big-endian elements: an array's or a list's payload, whose
/// header has been read.
pub fn read_be<'de, E: ArrayElement>(len: usize, reader: &mut Reader<'de>) -> (res: Result<Vec<E>>)
    ensures
        final(reader).depth() == old(reader).depth(),
        final(reader).opts() == old(reader).opts(),
        final(reader).wf() == old(reader).wf(),
        match parse_be::<E>(old(reader).rest(), len as nat) {
            Ok((elements, k)) => (res matches Ok(v) && v@ == elements) && final(reader).rest() == old(
                reader,
            ).rest().skip(k as int),
            Err(kind) => res matches Err(e) && e.0 == kind,
        },
{
    let bytes = reader.take_elements(len, E::byte_width())?;
    Ok(decode_be(bytes))
}

/// What reading an array of `E` whose tag is `tag` from the front of `rest`
/// gives: the tag must be the array's.
pub open spec fn parse_array_of<E: ArrayElement>(tag: u8, rest: Seq<u8>, opts: DeOptsView) -> core::result::Result<(Seq<E>, nat), ErrorKind> {
    if tag != E::array_tag() {
        Err(ErrorKind::InvalidTag(tag))
    } else {
        match parse_len(rest, opts) {
            Err(k) => Err(k),
            Ok((len, _)) => match parse_be::<E>(rest.skip(4), len) {
                Err(k) => Err(k),
                Ok((v, n)) => Ok((v, 4 + n)),
            },
        }
    }
}

/// Reads an array of `E` whose tag has been read, refusing any other tag.
pub fn read_array<'de, E: ArrayElement>(tag: u8, reader: &mut Reader<'de>) -> (res: Result<Vec<E>>)
    ensures
        final(reader).depth() == old(reader).depth(),
        final(reader).opts() == old(reader).opts(),
        final(reader).wf() == old(reader).wf(),
        match parse_array_of::<E>(tag, old(reader).rest(), old(reader).opts()) {
            Ok((elements, k)) => (res matches Ok(v) && v@ == elements) && final(reader).rest() == old(
                reader,
            ).rest().skip(k as int),
            Err(kind) => res matches Err(e) && e.0 == kind,
        },
{
    if tag != E::tag() {
        return Err(Error::invalid_tag(tag));
    }
    let len = reader.read_len()?;
    let v = read_be(len, reader)?;
    proof {
        let r = old(reader).rest();
        if let Ok((_, n)) = parse_be::<E>(r.skip(4), len as nat) {
            assert(r.skip(4).skip(n as int) =~= r.skip(4 + n as int));
        }
    }
    Ok(v)
}

/// The bytes an array of `elements` is written as, after its tag: the
/// `i32` length, then the elements.
pub open spec fn array_payload<E: ArrayElement>(elements: Seq<E>) -> core::result::Result<Seq<u8>, ErrorKind> {
    match encode_len(elements.len()) {
        Ok(len) => Ok(len + encoded_elements(elements)),
        Err(k) => Err(k),
    }
}

/// Writes an array's payload: the `i32` length, then the elements.
pub fn write_array<E: ArrayElement>(elements: &[E], writer: &mut Writer) -> (res: Result<()>)
    ensures
        match array_payload(elements@) {
            Ok(payload) => res is Ok && final(writer).bytes() == old(writer).bytes() + payload,
            Err(kind) => (res matches Err(e) && e.0 == kind) && final(writer).bytes() == old(writer).bytes(),
        },
{
    writer.write_len(elements.len())?;
    let bytes = encode_be(elements);
    writer.write_bytes(bytes.as_slice())?;
    assert(old(writer).bytes() + encode_len(elements@.len() as nat)->Ok_0 + encoded_elements(elements@)
        =~= old(writer).bytes() + (encode_len(elements@.len() as nat)->Ok_0 + encoded_elements(elements@)));
    Ok(())
}

/// Writes a compound entry holding an array: the tag, the name, then the
/// payload.
pub fn write_array_entry<E: ArrayElement>(elements: &[E], name: &str, writer: &mut Writer) -> (res: Result<()>)
    ensures
        match crate::write::encode_str(name@) {
            Err(kind) => (res matches Err(e) && e.0 == kind) && final(writer).bytes() == old(writer).bytes().push(E::array_tag()),
            Ok(n) => match array_payload(elements@) {
                Ok(payload) => res is Ok && final(writer).bytes() == old(writer).bytes().push(E::array_tag()) + n + payload,
                Err(kind) => (res matches Err(e) && e.0 == kind) && final(writer).bytes() == old(writer).bytes().push(E::array_tag()) + n,
            },
        },
{
    writer.write_tag(E::tag())?;
    writer.write_name(name)?;
    let ghost mid = writer.bytes();
    let r = write_array(elements, writer);
    proof {
        if let Ok(payload) = array_payload(elements@) {
            assert(mid + payload =~= old(writer).bytes().push(E::array_tag()) + crate::write::encode_str(name@)->Ok_0 + payload);
        }
    }
    r
}

/// A field type that holds a byte array's elements.
pub trait ByteArrayValue: Sized {
    type Element: ByteArrayElement;

    /// The elements, as the field holds them.
    spec fn elements(&self) -> Seq<Self::Element>;

    /// The elements to write.
    fn as_elements(&self) -> (elements: &[Self::Element])
        ensures
            elements@ == self.elements(),
    ;

    /// The field the elements were read into.
    fn from_elements(elements: Vec<Self::Element>) -> (value: Self)
        ensures
            value.elements() == elements@,
    ;
}

impl<E: ByteArrayElement> ByteArrayValue for Vec<E> {
    type Element = E;

    open spec fn elements(&self) -> Seq<E> {
        self@
    }

    fn as_elements(&self) -> (elements: &[E]) {
        self.as_slice()
    }

    fn from_elements(elements: Vec<E>) -> (value: Self) {
        elements
    }
}

/// A field type that holds an int array's elements.
pub trait IntArrayValue: Sized {
    type Element: IntArrayElement;

    /// The elements, as the field holds them.
    spec fn elements(&self) -> Seq<Self::Element>;

    /// The elements to write.
    fn as_elements(&self) -> (elements: &[Self::Element])
        ensures
            elements@ == self.elements(),
    ;

    /// The field the elements were read into.
    fn from_elements(elements: Vec<Self::Element>) -> (value: Self)
        ensures
            value.elements() == elements@,
    ;
}

impl<E: IntArrayElement> IntArrayValue for Vec<E> {
    type Element = E;

    open spec fn elements(&self) -> Seq<E> {
        self@
    }

    fn as_elements(&self) -> (elements: &[E]) {
        self.as_slice()
    }

    fn from_elements(elements: Vec<E>) -> (value: Self) {
        elements
    }
}

/// A field type that holds a long array's elements.
pub trait LongArrayValue: Sized {
    type Element: LongArrayElement;

    /// The elements, as the field holds them.
    spec fn elements(&self) -> Seq<Self::Element>;

    /// The elements to write.
    fn as_elements(&self) -> (elements: &[Self::Element])
        ensures
            elements@ == self.elements(),
    ;

    /// The field the elements were read into.
    fn from_elements(elements: Vec<Self::Element>) -> (value: Self)
        ensures
            value.elements() == elements@,
    ;
}

impl<E: LongArrayElement> LongArrayValue for Vec<E> {
    type Element = E;

    open spec fn elements(&self) -> Seq<E> {
        self@
    }

    fn as_elements(&self) -> (elements: &[E]) {
        self.as_slice()
    }

    fn from_elements(elements: Vec<E>) -> (value: Self) {
        elements
    }
}

/// The bytes of `elements` take `width()` bytes each, and decode back to
/// the elements.
pub proof fn lemma_decode_encode<E: ArrayElement>(elements: Seq<E>)
    ensures
        encoded_elements(elements).len() == elements.len() * E::width(),
        decoded_elements::<E>(encoded_elements(elements)) == elements,
    decreases elements.len(),
{
    E::lemma_width_range();
    let w = E::width();
    let n = elements.len();
    let enc = encoded_elements(elements);
    if n == 0 {
        assert(enc.len() == 0);
        assert(0int / (w as int) == 0) by (nonlinear_arith)
            requires
                w >= 1,
        ;
        assert(decoded_elements::<E>(enc) =~= elements);
    } else {
        let init = elements.drop_last();
        let last = elements.last();
        lemma_decode_encode(init);
        last.lemma_round_trip();
        let prefix = encoded_elements(init);
        assert(enc == prefix + last.encoded());
        assert(enc.len() == n * w) by (nonlinear_arith)
            requires
                enc.len() == prefix.len() + w,
                prefix.len() == (n - 1) * w,
        ;
        assert(enc.len() / w == n) by (nonlinear_arith)
            requires
                enc.len() == n * w,
                w >= 1,
        ;
        let dec = decoded_elements::<E>(enc);
        assert forall|i: int| 0 <= i < n implies #[trigger] dec[i] == elements[i] by {
            assert(i * w + w <= n * w) by (nonlinear_arith)
                requires
                    0 <= i < n,
                    w >= 1,
            ;
            if i < n - 1 {
                assert(i * w + w <= (n - 1) * w) by (nonlinear_arith)
                    requires
                        0 <= i < n - 1,
                        w >= 1,
                ;
                assert(i * w >= 0) by (nonlinear_arith)
                    requires
                        i >= 0,
                        w >= 1,
                ;
                assert(enc.subrange(i * w, i * w + w) =~= prefix.subrange(i * w, i * w + w));
                assert(decoded_elements::<E>(prefix)[i] == init[i]);
                assert(prefix.len() / w == n - 1);
            } else {
                assert(i * w == (n - 1) * w);
                assert(enc.subrange(i * w, i * w + w) =~= last.encoded());
            }
        }
        assert(dec =~= elements);
    }
}

/// An array reads back as it was written: the elements, taking exactly the
/// bytes written, whatever follows them; `opts` must admit its length.
pub proof fn lemma_array_round_trip<E: ArrayElement>(elements: Seq<E>, rest: Seq<u8>, opts: DeOptsView)
    requires
        array_payload(elements) is Ok,
        elements.len() <= opts.max_seq_len,
        elements.len() * E::width() <= usize::MAX,
    ensures
        parse_array_of::<E>(E::array_tag(), array_payload(elements)->Ok_0 + rest, opts) == Ok::<
            (Seq<E>, nat),
            ErrorKind,
        >((elements, array_payload(elements)->Ok_0.len())),
{
    let n = elements.len();
    let len_bytes = encode_len(n)->Ok_0;
    let enc = encoded_elements(elements);
    lemma_decode_encode(elements);
    crate::roundtrip::lemma_len_round_trip(n, enc + rest, opts);
    let all = array_payload(elements)->Ok_0 + rest;
    assert(all =~= len_bytes + (enc + rest));
    crate::be::lemma_be_encode_len(n, 4);
    assert(len_bytes.len() == 4);
    assert(all.skip(4) =~= enc + rest);
    assert((enc + rest).take(enc.len() as int) =~= enc);
}

} // verus!
