//! The reading side of the serde data model.
//!
//! serde hands a deserializer a visitor and lets it drive; what the
//! deserializer decides is how the bytes in front of it are read for each
//! request. [`Deserializer`] makes those decisions: each method reads one
//! thing and says what it was, and the serde glue around it hands that to
//! the visitor.

use std::borrow::Cow;
use vstd::prelude::*;

use crate::be::{be_sint, be_uint, pow256, F32Be, F64Be, I16Be, I32Be, I64Be};
use crate::cesu8::from_java_cesu8;
use crate::error::{Error, ErrorKind, Result};
use crate::opts::{DeOpts, DeOptsView};
use vstd::utf8::valid_utf8;
use crate::read::{
    after, parse_array, parse_bytes, parse_elements, parse_int, parse_len,
    parse_str, parse_str_bytes, parse_tag, skip_array_len, skip_fixed,
};
use crate::tag::{
    TAG_BYTE, TAG_BYTE_ARRAY, TAG_COMPOUND, TAG_DOUBLE, TAG_END, TAG_FLOAT, TAG_INT, TAG_INT_ARRAY,
    TAG_LIST, TAG_LONG, TAG_LONG_ARRAY, TAG_MAX, TAG_SHORT, TAG_STRING,
};

verus! {

/// How many bytes the serde side skips for a value of `tag` at the front of
/// `rest`, with `depth` lists and compounds open, decoding nothing.
///
/// A list skips its elements one by one, and none for a negative length.
/// Lengths are not bounded by `max_seq_len`; nesting is bounded by
/// `max_depth`.
pub open spec fn de_skip_len(tag: u8, rest: Seq<u8>, depth: nat, opts: DeOptsView) -> core::result::Result<nat, ErrorKind>
    decreases opts.max_depth - depth, rest.len(), 0nat,
{
    if tag == TAG_BYTE {
        skip_fixed(rest, 1)
    } else if tag == TAG_SHORT {
        skip_fixed(rest, 2)
    } else if tag == TAG_INT || tag == TAG_FLOAT {
        skip_fixed(rest, 4)
    } else if tag == TAG_LONG || tag == TAG_DOUBLE {
        skip_fixed(rest, 8)
    } else if tag == TAG_STRING {
        match parse_str_bytes(rest) {
            Ok((_, n)) => Ok(n),
            Err(k) => Err(k),
        }
    } else if tag == TAG_BYTE_ARRAY {
        skip_array_len(rest, 1)
    } else if tag == TAG_INT_ARRAY {
        skip_array_len(rest, 4)
    } else if tag == TAG_LONG_ARRAY {
        skip_array_len(rest, 8)
    } else if tag == TAG_COMPOUND {
        if depth >= opts.max_depth {
            Err(ErrorKind::TooDeep)
        } else {
            de_skip_entries_len(rest, depth + 1, opts)
        }
    } else if tag == TAG_LIST {
        match parse_tag(rest) {
            Err(k) => Err(k),
            Ok((element, _)) => if depth >= opts.max_depth {
                Err(ErrorKind::TooDeep)
            } else if rest.len() < 5 {
                Err(ErrorKind::UnexpectedEof)
            } else {
                let len = be_sint(rest.subrange(1, 5));
                let count: nat = if len < 0 { 0 } else { len as nat };
                after(5, de_skip_elements_len(element, count, rest.skip(5), depth + 1, opts))
            },
        }
    } else {
        // fastnbt panics here, skipping a list of End with elements.
        Err(ErrorKind::ListOfEnd)
    }
}

/// How many bytes the serde side skips for a compound's entries, up to and
/// with its End tag.
pub open spec fn de_skip_entries_len(rest: Seq<u8>, depth: nat, opts: DeOptsView) -> core::result::Result<nat, ErrorKind>
    decreases opts.max_depth - depth, rest.len(), 1nat,
{
    match parse_tag(rest) {
        Err(k) => Err(k),
        Ok((tag, _)) => if tag == TAG_END {
            Ok(1)
        } else {
            match parse_str_bytes(rest.skip(1)) {
                Err(k) => Err(k),
                Ok((_, m)) => if 1 + m > rest.len() {
                    Err(ErrorKind::UnexpectedEof)
                } else {
                    match de_skip_len(tag, rest.skip((1 + m) as int), depth, opts) {
                        Err(k) => Err(k),
                        Ok(v) => if 1 + m + v > rest.len() {
                            Err(ErrorKind::UnexpectedEof)
                        } else {
                            after(1 + m + v, de_skip_entries_len(rest.skip((1 + m + v) as int), depth, opts))
                        },
                    }
                },
            }
        },
    }
}

/// How many bytes the serde side skips for `count` values of `element`.
pub open spec fn de_skip_elements_len(element: u8, count: nat, rest: Seq<u8>, depth: nat, opts: DeOptsView) -> core::result::Result<nat, ErrorKind>
    decreases opts.max_depth - depth, rest.len(), count + 1,
{
    if count == 0 {
        Ok(0)
    } else {
        match de_skip_len(element, rest, depth, opts) {
            Err(k) => Err(k),
            Ok(v) => if v > rest.len() {
                Err(ErrorKind::UnexpectedEof)
            } else {
                after(v, de_skip_elements_len(element, (count - 1) as nat, rest.skip(v as int), depth, opts))
            },
        }
    }
}

/// Skipping an array never takes more bytes than there are.
proof fn lemma_skip_array_bound(rest: Seq<u8>, size: nat)
    ensures
        skip_array_len(rest, size) matches Ok(n) ==> n <= rest.len(),
{
}

/// Skipping on the serde side never takes more bytes than there are.
pub proof fn lemma_de_skip_len_bound(tag: u8, rest: Seq<u8>, depth: nat, opts: DeOptsView)
    ensures
        de_skip_len(tag, rest, depth, opts) matches Ok(n) ==> n <= rest.len(),
        de_skip_entries_len(rest, depth, opts) matches Ok(n) ==> 1 <= n <= rest.len(),
    decreases opts.max_depth - depth, rest.len(), 0nat,
{
    if tag == TAG_COMPOUND && depth < opts.max_depth {
        lemma_de_skip_len_bound(tag, rest, depth + 1, opts);
    }
    if tag == TAG_LIST && rest.len() >= 5 && depth < opts.max_depth {
        let len = be_sint(rest.subrange(1, 5));
        let count: nat = if len < 0 { 0 } else { len as nat };
        lemma_de_skip_elements_bound(parse_tag(rest)->Ok_0.0, count, rest.skip(5), depth + 1, opts);
    }
    if let Ok((t, _)) = parse_tag(rest) {
        if t != TAG_END {
            if let Ok((_, m)) = parse_str_bytes(rest.skip(1)) {
                if 1 + m <= rest.len() {
                    lemma_de_skip_len_bound(t, rest.skip((1 + m) as int), depth, opts);
                    if let Ok(v) = de_skip_len(t, rest.skip((1 + m) as int), depth, opts) {
                        if 1 + m + v <= rest.len() {
                            lemma_de_skip_len_bound(t, rest.skip((1 + m + v) as int), depth, opts);
                        }
                    }
                }
            }
        }
    }
}

/// Skipping elements on the serde side never takes more bytes than there
/// are.
pub proof fn lemma_de_skip_elements_bound(element: u8, count: nat, rest: Seq<u8>, depth: nat, opts: DeOptsView)
    ensures
        de_skip_elements_len(element, count, rest, depth, opts) matches Ok(n) ==> n <= rest.len(),
    decreases opts.max_depth - depth, rest.len(), count + 1,
{
    if count > 0 {
        lemma_de_skip_len_bound(element, rest, depth, opts);
        if let Ok(v) = de_skip_len(element, rest, depth, opts) {
            if v <= rest.len() {
                lemma_de_skip_elements_bound(element, (count - 1) as nat, rest.skip(v as int), depth, opts);
            }
        }
    }
}

/// What the serde side reads for a value: numbers by value, floats by
/// their bytes, strings by their text, and the header of a list (its
/// element tag and length) or of a compound.
pub enum PayloadView {
    Byte(int),
    Short(int),
    Int(int),
    Long(int),
    Float(Seq<u8>),
    Double(Seq<u8>),
    Str(Seq<char>),
    List(u8, usize),
    Compound,
    Bytes(Seq<u8>),
}

/// `r`'s value wrapped by `f`, with the bytes it takes.
pub open spec fn map_int(r: core::result::Result<(int, nat), ErrorKind>, f: spec_fn(int) -> PayloadView) -> core::result::Result<(PayloadView, nat), ErrorKind> {
    match r {
        Ok((v, n)) => Ok((f(v), n)),
        Err(k) => Err(k),
    }
}

/// `r`'s bytes wrapped by `f`, with the bytes it takes.
pub open spec fn map_bytes(r: core::result::Result<(Seq<u8>, nat), ErrorKind>, f: spec_fn(Seq<u8>) -> PayloadView) -> core::result::Result<(PayloadView, nat), ErrorKind> {
    match r {
        Ok((b, n)) => Ok((f(b), n)),
        Err(k) => Err(k),
    }
}

/// What the serde side reads for any value of `tag` at the front of `rest`,
/// with `depth` lists and compounds open, and how many bytes it takes.
///
/// A list's length is sign-extended, so a negative one is too long unless
/// `max_seq_len` admits every length; a list of End must be empty. A list or
/// a compound opens a level, which the caller closes when it has read the
/// contents.
pub open spec fn parse_payload(tag: u8, rest: Seq<u8>, depth: nat, opts: DeOptsView) -> core::result::Result<(PayloadView, nat), ErrorKind> {
    if tag == TAG_BYTE {
        map_int(parse_int(rest, 1), |v: int| PayloadView::Byte(v))
    } else if tag == TAG_SHORT {
        map_int(parse_int(rest, 2), |v: int| PayloadView::Short(v))
    } else if tag == TAG_INT {
        map_int(parse_int(rest, 4), |v: int| PayloadView::Int(v))
    } else if tag == TAG_LONG {
        map_int(parse_int(rest, 8), |v: int| PayloadView::Long(v))
    } else if tag == TAG_FLOAT {
        map_bytes(parse_bytes(rest, 4), |b: Seq<u8>| PayloadView::Float(b))
    } else if tag == TAG_DOUBLE {
        map_bytes(parse_bytes(rest, 8), |b: Seq<u8>| PayloadView::Double(b))
    } else if tag == TAG_STRING {
        match parse_str(rest) {
            Ok((text, n)) => Ok((PayloadView::Str(text), n)),
            Err(k) => Err(k),
        }
    } else if tag == TAG_LIST {
        match parse_tag(rest) {
            Err(k) => Err(k),
            Ok((element, _)) => if rest.len() < 5 {
                Err(ErrorKind::UnexpectedEof)
            } else {
                let remaining = be_sint(rest.subrange(1, 5)) as usize;
                if element == TAG_END && remaining != 0 {
                    Err(ErrorKind::ListOfEnd)
                } else if remaining > opts.max_seq_len {
                    Err(ErrorKind::SeqTooLong)
                } else if depth >= opts.max_depth {
                    Err(ErrorKind::TooDeep)
                } else {
                    Ok((PayloadView::List(element, remaining), 5))
                }
            },
        }
    } else if tag == TAG_COMPOUND {
        if depth >= opts.max_depth {
            Err(ErrorKind::TooDeep)
        } else {
            Ok((PayloadView::Compound, 0))
        }
    } else if tag == TAG_BYTE_ARRAY {
        map_bytes(parse_array(rest, 1, opts), |b: Seq<u8>| PayloadView::Bytes(b))
    } else if tag == TAG_INT_ARRAY {
        map_bytes(parse_array(rest, 4, opts), |b: Seq<u8>| PayloadView::Bytes(b))
    } else if tag == TAG_LONG_ARRAY {
        map_bytes(parse_array(rest, 8, opts), |b: Seq<u8>| PayloadView::Bytes(b))
    } else {
        Err(ErrorKind::ExpectedValue)
    }
}

/// Whether reading this opens a level.
pub open spec fn opens_level(p: PayloadView) -> bool {
    p is List || p is Compound
}

/// The payload bytes the serde side reads for a value of `tag` at the front
/// of `rest`, undecoded, and how many bytes it takes: a string's text, an
/// array's elements, or the elements of a list of integers.
pub open spec fn parse_payload_bytes(tag: u8, rest: Seq<u8>, opts: DeOptsView) -> core::result::Result<(Seq<u8>, nat), ErrorKind> {
    if tag == TAG_STRING {
        parse_str_bytes(rest)
    } else if tag == TAG_LIST {
        match parse_tag(rest) {
            Err(k) => Err(k),
            Ok((element, _)) => match parse_len(rest.skip(1), opts) {
                Err(k) => Err(k),
                Ok((len, _)) => {
                    let size: nat = if element == TAG_BYTE {
                        1
                    } else if element == TAG_SHORT {
                        2
                    } else if element == TAG_INT {
                        4
                    } else if element == TAG_LONG {
                        8
                    } else {
                        0
                    };
                    if size == 0 {
                        Err(ErrorKind::NotBytes)
                    } else {
                        match parse_elements(rest.skip(5), len, size) {
                            Err(k) => Err(k),
                            Ok((bytes, n)) => Ok((bytes, 5 + n)),
                        }
                    }
                },
            },
        }
    } else if tag == TAG_BYTE_ARRAY {
        parse_array(rest, 1, opts)
    } else if tag == TAG_INT_ARRAY {
        parse_array(rest, 4, opts)
    } else if tag == TAG_LONG_ARRAY {
        parse_array(rest, 8, opts)
    } else {
        Err(ErrorKind::NotBytes)
    }
}

/// What the serde side reads for an `i128` or `u128` from a value of `tag`:
/// an int array of exactly four ints, most significant first.
pub open spec fn parse_int_array_128(tag: u8, rest: Seq<u8>, opts: DeOptsView) -> core::result::Result<(int, nat), ErrorKind> {
    if tag != TAG_INT_ARRAY {
        Err(ErrorKind::ExpectedIntArray)
    } else {
        match parse_array(rest, 4, opts) {
            Err(k) => Err(k),
            Ok((bytes, n)) => if bytes.len() != 16 {
                Err(ErrorKind::ExpectedIntArray)
            } else {
                Ok((be_sint(bytes), n))
            },
        }
    }
}

/// The size in bytes of an integer of `tag`, which reads as a bool.
pub open spec fn bool_size(tag: u8) -> nat {
    if tag == TAG_BYTE {
        1
    } else if tag == TAG_SHORT {
        2
    } else if tag == TAG_INT {
        4
    } else if tag == TAG_LONG {
        8
    } else {
        0
    }
}

/// What the serde side reads for a bool from a value of `tag`: an integer
/// is true unless it is zero, and any other value is read as itself
/// (`None`, nothing taken).
pub open spec fn parse_bool(tag: u8, rest: Seq<u8>) -> core::result::Result<(Option<bool>, nat), ErrorKind> {
    let n = bool_size(tag);
    if n == 0 {
        Ok((None, 0))
    } else if rest.len() < n {
        Err(ErrorKind::UnexpectedEof)
    } else {
        Ok((Some(exists|i: int| 0 <= i < n && rest[i] != 0), n))
    }
}

/// What the serde side reads for the document's map, at the front of
/// `rest`: the root compound's tag and, if the options expect one, its name,
/// unless they have been read; then the compound opens a level.
pub open spec fn parse_open_map(seen_root: bool, rest: Seq<u8>, depth: nat, opts: DeOptsView) -> core::result::Result<nat, ErrorKind> {
    let root: core::result::Result<nat, ErrorKind> = if seen_root {
        Ok(0)
    } else {
        match parse_tag(rest) {
            Err(k) => Err(k),
            Ok((tag, _)) => if tag != TAG_COMPOUND {
                Err(ErrorKind::NoRootCompound)
            } else if opts.expect_compound_names {
                match parse_str_bytes(rest.skip(1)) {
                    Err(k) => Err(k),
                    Ok((_, n)) => Ok(1 + n),
                }
            } else {
                Ok(1)
            },
        }
    };
    match root {
        Err(k) => Err(k),
        Ok(n) => if depth >= opts.max_depth {
            Err(ErrorKind::TooDeep)
        } else {
            Ok(n)
        },
    }
}

/// The three NBT array kinds, as the serde side names them.
///
/// An array is written and read through a newtype struct whose name is the
/// kind's token; the serializer and the deserializer recognize the name and
/// write or read the array tag, length and payload.
#[derive(Clone, Copy, PartialEq, Eq, Debug)]
pub enum ArrayKind {
    Byte,
    Int,
    Long,
}

/// The newtype-struct name that marks a byte array on the serde side.
pub const BYTE_ARRAY_TOKEN: &'static str = "$nanonbt::byte_array";

/// The newtype-struct name that marks an int array on the serde side.
pub const INT_ARRAY_TOKEN: &'static str = "$nanonbt::int_array";

/// The newtype-struct name that marks a long array on the serde side.
pub const LONG_ARRAY_TOKEN: &'static str = "$nanonbt::long_array";

/// The kind whose token is `name`.
pub open spec fn token_kind(name: Seq<char>) -> Option<ArrayKind> {
    if name == BYTE_ARRAY_TOKEN@ {
        Some(ArrayKind::Byte)
    } else if name == INT_ARRAY_TOKEN@ {
        Some(ArrayKind::Int)
    } else if name == LONG_ARRAY_TOKEN@ {
        Some(ArrayKind::Long)
    } else {
        None
    }
}

/// Whether two byte strings are equal.
pub fn bytes_eq(a: &[u8], b: &[u8]) -> (eq: bool)
    ensures
        eq == (a@ == b@),
{
    if a.len() != b.len() {
        return false;
    }
    let mut i: usize = 0;
    while i < a.len()
        invariant
            i <= a@.len(),
            a@.len() == b@.len(),
            forall|j: int| 0 <= j < i ==> a@[j] == b@[j],
        decreases a@.len() - i,
    {
        if a[i] != b[i] {
            return false;
        }
        i = i + 1;
    }
    assert(a@ =~= b@);
    true
}

/// Whether two strings are equal, compared by their UTF-8 bytes.
fn str_eq(a: &str, b: &str) -> (eq: bool)
    ensures
        eq == (a@ == b@),
{
    proof {
        vstd::utf8::encode_utf8_decode_utf8(a@);
        vstd::utf8::encode_utf8_decode_utf8(b@);
    }
    bytes_eq(a.as_bytes(), b.as_bytes())
}

impl ArrayKind {
    /// The kind a newtype struct named `name` wraps an array in, or `None`
    /// for every other newtype-struct name.
    pub fn from_token(name: &str) -> (kind: Option<Self>)
        ensures
            kind == token_kind(name@),
    {
        if str_eq(name, BYTE_ARRAY_TOKEN) {
            Some(Self::Byte)
        } else if str_eq(name, INT_ARRAY_TOKEN) {
            Some(Self::Int)
        } else if str_eq(name, LONG_ARRAY_TOKEN) {
            Some(Self::Long)
        } else {
            None
        }
    }

    /// The tag of the kind's arrays.
    pub open spec fn spec_tag(self) -> u8 {
        match self {
            ArrayKind::Byte => TAG_BYTE_ARRAY,
            ArrayKind::Int => TAG_INT_ARRAY,
            ArrayKind::Long => TAG_LONG_ARRAY,
        }
    }

    /// The bytes one element of the kind's arrays takes.
    pub open spec fn spec_size(self) -> nat {
        match self {
            ArrayKind::Byte => 1,
            ArrayKind::Int => 4,
            ArrayKind::Long => 8,
        }
    }

    /// The tag written before the array's payload.
    pub fn tag(self) -> (tag: u8)
        ensures
            tag == self.spec_tag(),
    {
        match self {
            Self::Byte => TAG_BYTE_ARRAY,
            Self::Int => TAG_INT_ARRAY,
            Self::Long => TAG_LONG_ARRAY,
        }
    }

    /// The bytes one element takes.
    pub fn size(self) -> (size: usize)
        ensures
            size == self.spec_size(),
    {
        match self {
            Self::Byte => 1,
            Self::Int => 4,
            Self::Long => 8,
        }
    }
}

/// What reading a value gave the serde side: see [`PayloadView`].
pub enum Payload<'de> {
    Byte(i8),
    Short(i16),
    Int(i32),
    Long(i64),
    Float(F32Be),
    Double(F64Be),
    Str(Cow<'de, str>),
    List { tag: u8, remaining: usize },
    Compound,
    Bytes(&'de [u8]),
}

impl<'de> View for Payload<'de> {
    type V = PayloadView;

    open spec fn view(&self) -> PayloadView {
        match self {
            Payload::Byte(v) => PayloadView::Byte(*v as int),
            Payload::Short(v) => PayloadView::Short(*v as int),
            Payload::Int(v) => PayloadView::Int(*v as int),
            Payload::Long(v) => PayloadView::Long(*v as int),
            Payload::Float(b) => PayloadView::Float(b@),
            Payload::Double(b) => PayloadView::Double(b@),
            Payload::Str(text) => PayloadView::Str(text@),
            Payload::List { tag, remaining } => PayloadView::List(*tag, *remaining),
            Payload::Compound => PayloadView::Compound,
            Payload::Bytes(b) => PayloadView::Bytes(b@),
        }
    }
}

/// Reads a document from a byte slice for serde, borrowing from it where
/// possible.
pub struct Deserializer<'de> {
    input: &'de [u8],
    seen_root: bool,
    /// How many lists and compounds are open, which bounds the recursion.
    depth: usize,
    opts: DeOpts,
}

impl<'de> Deserializer<'de> {
    /// The bytes not read yet.
    pub closed spec fn rest(&self) -> Seq<u8> {
        self.input@
    }

    /// How many lists and compounds are open.
    pub closed spec fn depth(&self) -> nat {
        self.depth as nat
    }

    /// The options the deserializer was made with.
    pub closed spec fn opts(&self) -> DeOptsView {
        self.opts@
    }

    /// Whether the root compound's header has been read.
    pub closed spec fn seen_root(&self) -> bool {
        self.seen_root
    }

    /// Whether the open levels are within the limit, as reading keeps them.
    pub closed spec fn wf(&self) -> bool {
        self.depth <= self.opts@.max_depth
    }

    /// Whether `self` is `old` with only the unread bytes moved on.
    pub open spec fn same_frame(&self, old: &Self) -> bool {
        &&& self.depth() == old.depth()
        &&& self.opts() == old.opts()
        &&& self.seen_root() == old.seen_root()
        &&& self.wf() == old.wf()
    }

    /// A deserializer at the start of `input`, before the root compound.
    pub fn from_bytes(input: &'de [u8], opts: DeOpts) -> (de: Self)
        ensures
            de.rest() == input@,
            de.depth() == 0,
            de.opts() == opts@,
            !de.seen_root(),
            de.wf(),
    {
        Self { input, seen_root: false, depth: 0, opts }
    }

    /// Takes the next `n` bytes.
    fn take(&mut self, n: usize) -> (res: Result<&'de [u8]>)
        ensures
            final(self).same_frame(old(self)),
            match parse_bytes(old(self).rest(), n as nat) {
                Ok((bytes, k)) => (res matches Ok(taken) && taken@ == bytes) && final(self).rest()
                    == old(self).rest().skip(k as int),
                Err(kind) => (res matches Err(e) && e.0 == kind) && final(self).rest() == old(
                    self,
                ).rest(),
            },
    {
        if n > self.input.len() {
            return Err(Error::unexpected_eof());
        }
        let (taken, rest) = self.input.split_at(n);
        self.input = rest;
        assert(taken@ =~= old(self).rest().take(n as int));
        assert(rest@ =~= old(self).rest().skip(n as int));
        Ok(taken)
    }

    /// Reads a tag byte, refusing bytes that name no type.
    pub fn read_tag(&mut self) -> (res: Result<u8>)
        ensures
            final(self).same_frame(old(self)),
            match parse_tag(old(self).rest()) {
                Ok((tag, k)) => res == Ok::<u8, Error>(tag) && final(self).rest() == old(
                    self,
                ).rest().skip(k as int),
                Err(kind) => res matches Err(e) && e.0 == kind,
            },
    {
        let bytes = self.take(1)?;
        let tag = bytes[0];
        if tag > TAG_MAX {
            return Err(Error::invalid_tag(tag));
        }
        Ok(tag)
    }

    /// Reads a big-endian `i32`.
    fn read_i32(&mut self) -> (res: Result<i32>)
        ensures
            final(self).same_frame(old(self)),
            match parse_int(old(self).rest(), 4) {
                Ok((v, k)) => (res matches Ok(x) && x as int == v) && final(self).rest() == old(
                    self,
                ).rest().skip(k as int),
                Err(kind) => res matches Err(e) && e.0 == kind,
            },
    {
        let bytes = self.take(4)?;
        let array = [bytes[0], bytes[1], bytes[2], bytes[3]];
        assert(array@ =~= bytes@);
        Ok(I32Be::from_bytes(array).get())
    }

    /// An array's `i32` length, which must be non-negative and within
    /// [`DeOpts::max_seq_len`].
    fn array_len(&mut self) -> (res: Result<usize>)
        ensures
            final(self).same_frame(old(self)),
            match parse_len(old(self).rest(), old(self).opts()) {
                Ok((len, k)) => res == Ok::<usize, Error>(len as usize) && final(self).rest() == old(
                    self,
                ).rest().skip(k as int),
                Err(kind) => res matches Err(e) && e.0 == kind,
            },
    {
        let len = self.read_i32()?;
        if len < 0 {
            return Err(Error::negative_len());
        }
        let len = len as usize;
        if len > self.opts.seq_limit() {
            return Err(Error::seq_too_long());
        }
        Ok(len)
    }

    /// `len` elements of `size` bytes each.
    fn take_elements(&mut self, len: usize, size: usize) -> (res: Result<&'de [u8]>)
        ensures
            final(self).same_frame(old(self)),
            match parse_elements(old(self).rest(), len as nat, size as nat) {
                Ok((bytes, k)) => (res matches Ok(b) && b@ == bytes) && final(self).rest() == old(
                    self,
                ).rest().skip(k as int),
                Err(kind) => res matches Err(e) && e.0 == kind,
            },
    {
        let n = match len.checked_mul(size) {
            Some(n) => n,
            None => return Err(Error::array_too_large()),
        };
        self.take(n)
    }

    /// An array of `size`-byte elements: the checked length, then the
    /// elements' bytes.
    fn array(&mut self, size: usize) -> (res: Result<&'de [u8]>)
        ensures
            final(self).same_frame(old(self)),
            match parse_array(old(self).rest(), size as nat, old(self).opts()) {
                Ok((bytes, k)) => (res matches Ok(b) && b@ == bytes) && final(self).rest() == old(
                    self,
                ).rest().skip(k as int),
                Err(kind) => res matches Err(e) && e.0 == kind,
            },
    {
        let len = self.array_len()?;
        let bytes = self.take_elements(len, size)?;
        proof {
            let r = old(self).rest();
            if let Ok((_, n)) = parse_elements(r.skip(4), len as nat, size as nat) {
                assert(r.skip(4).skip(n as int) =~= r.skip(4 + n as int));
            }
        }
        Ok(bytes)
    }

    /// The bytes of a length-prefixed string, undecoded.
    fn str_bytes(&mut self) -> (res: Result<&'de [u8]>)
        ensures
            final(self).same_frame(old(self)),
            match parse_str_bytes(old(self).rest()) {
                Ok((bytes, k)) => (res matches Ok(b) && b@ == bytes) && final(self).rest() == old(
                    self,
                ).rest().skip(k as int),
                Err(kind) => res matches Err(e) && e.0 == kind,
            },
    {
        let prefix = self.take(2)?;
        let len = crate::be::U16Be::from_bytes([prefix[0], prefix[1]]).get();
        assert([prefix[0], prefix[1]]@ =~= prefix@);
        let bytes = self.take(len as usize)?;
        proof {
            let r = old(self).rest();
            assert(r.skip(2).take(len as int) =~= r.subrange(2, 2 + len as int));
            assert(r.skip(2).skip(len as int) =~= r.skip(2 + len as int));
        }
        Ok(bytes)
    }

    /// Skips a string without decoding it.
    fn skip_str(&mut self) -> (res: Result<()>)
        ensures
            final(self).same_frame(old(self)),
            match parse_str_bytes(old(self).rest()) {
                Ok((_, k)) => res is Ok && final(self).rest() == old(self).rest().skip(k as int),
                Err(kind) => res matches Err(e) && e.0 == kind,
            },
    {
        self.str_bytes()?;
        Ok(())
    }

    /// Reads a length-prefixed modified UTF-8 string, borrowing it from the
    /// input when it is plain UTF-8: a value, or a compound entry's name.
    pub fn read_str(&mut self) -> (res: Result<Cow<'de, str>>)
        ensures
            final(self).same_frame(old(self)),
            match parse_str(old(self).rest()) {
                Ok((text, k)) => (res matches Ok(t) && t@ == text) && final(self).rest() == old(
                    self,
                ).rest().skip(k as int),
                Err(kind) => res matches Err(e) && e.0 == kind,
            },
            (res matches Ok(Cow::Borrowed(_))) <==> (parse_str_bytes(old(self).rest()) matches Ok(
                (b, _),
            ) && valid_utf8(b)),
    {
        let bytes = self.str_bytes()?;
        match from_java_cesu8(bytes) {
            Ok(text) => Ok(text),
            Err(_) => Err(Error::nonunicode_string()),
        }
    }

    /// Reads a big-endian number of `n` bytes, the raw bytes.
    fn take_fixed(&mut self, n: usize) -> (res: Result<&'de [u8]>)
        ensures
            final(self).same_frame(old(self)),
            match parse_bytes(old(self).rest(), n as nat) {
                Ok((bytes, k)) => (res matches Ok(taken) && taken@ == bytes) && final(self).rest()
                    == old(self).rest().skip(k as int),
                Err(kind) => res matches Err(e) && e.0 == kind,
            },
    {
        self.take(n)
    }

    /// Reads a `TAG_Byte`'s value.
    fn read_i8(&mut self) -> (res: Result<i8>)
        ensures
            final(self).same_frame(old(self)),
            match parse_int(old(self).rest(), 1) {
                Ok((v, k)) => (res matches Ok(x) && x as int == v) && final(self).rest() == old(
                    self,
                ).rest().skip(k as int),
                Err(kind) => res matches Err(e) && e.0 == kind,
            },
    {
        let b = self.take(1)?;
        proof {
            reveal_with_fuel(be_uint, 2);
            reveal_with_fuel(pow256, 2);
        }
        if b[0] >= 128 {
            Ok((b[0] as i16 - 256) as i8)
        } else {
            Ok(b[0] as i8)
        }
    }

    /// Reads a number of `tag`, one of the six number tags.
    fn number(&mut self, tag: u8) -> (res: Result<Payload<'de>>)
        requires
            TAG_BYTE <= tag <= TAG_DOUBLE,
        ensures
            final(self).same_frame(old(self)),
            match parse_payload(tag, old(self).rest(), old(self).depth(), old(self).opts()) {
                Ok((p, k)) => (res matches Ok(x) && x@ == p) && final(self).rest() == old(
                    self,
                ).rest().skip(k as int),
                Err(kind) => res matches Err(e) && e.0 == kind,
            },
    {
        if tag == TAG_BYTE {
            Ok(Payload::Byte(self.read_i8()?))
        } else if tag == TAG_SHORT {
            let b = self.take(2)?;
            let array = [b[0], b[1]];
            assert(array@ =~= b@);
            Ok(Payload::Short(I16Be::from_bytes(array).get()))
        } else if tag == TAG_INT {
            Ok(Payload::Int(self.read_i32()?))
        } else if tag == TAG_LONG {
            let b = self.take(8)?;
            let array = [b[0], b[1], b[2], b[3], b[4], b[5], b[6], b[7]];
            assert(array@ =~= b@);
            Ok(Payload::Long(I64Be::from_bytes(array).get()))
        } else if tag == TAG_FLOAT {
            let b = self.take(4)?;
            let array = [b[0], b[1], b[2], b[3]];
            assert(array@ =~= b@);
            Ok(Payload::Float(F32Be::from_bytes(array)))
        } else {
            let b = self.take(8)?;
            let array = [b[0], b[1], b[2], b[3], b[4], b[5], b[6], b[7]];
            assert(array@ =~= b@);
            Ok(Payload::Double(F64Be::from_bytes(array)))
        }
    }

    /// Reads a list's header and opens a level for its elements.
    fn list_header(&mut self) -> (res: Result<Payload<'de>>)
        requires
            old(self).wf(),
        ensures
            final(self).wf(),
            final(self).opts() == old(self).opts(),
            final(self).seen_root() == old(self).seen_root(),
            match parse_payload(TAG_LIST, old(self).rest(), old(self).depth(), old(self).opts()) {
                Ok((p, k)) => (res matches Ok(x) && x@ == p) && final(self).rest() == old(
                    self,
                ).rest().skip(k as int) && final(self).depth() == old(self).depth() + 1,
                Err(kind) => (res matches Err(e) && e.0 == kind) && final(self).depth() == old(
                    self,
                ).depth(),
            },
    {
        let element = self.read_tag()?;
        let len = self.read_i32()?;
        assert(old(self).rest().skip(1).take(4) =~= old(self).rest().subrange(1, 5));
        assert(old(self).rest().skip(1).skip(4) =~= old(self).rest().skip(5));
        // Sign-extended, so a negative length is too long below.
        let remaining = len as usize;
        // Old chunks store empty lists as lists of End; longer ones would be
        // a cheap way to allocate without bound.
        if element == TAG_END && remaining != 0 {
            return Err(Error::list_of_end());
        }
        if remaining > self.opts.seq_limit() {
            return Err(Error::seq_too_long());
        }
        self.enter()?;
        Ok(Payload::List { tag: element, remaining })
    }

    /// Reads any value of `tag`, the way serde's `deserialize_any` reads a
    /// value whose tag has been read: what it was, for the visitor.
    ///
    /// A list or compound opens a level, which the caller closes with
    /// [`leave`](Deserializer::leave) once it has read the contents.
    pub fn payload(&mut self, tag: u8) -> (res: Result<Payload<'de>>)
        requires
            old(self).wf(),
        ensures
            final(self).wf(),
            final(self).opts() == old(self).opts(),
            final(self).seen_root() == old(self).seen_root(),
            match parse_payload(tag, old(self).rest(), old(self).depth(), old(self).opts()) {
                Ok((p, k)) => (res matches Ok(x) && x@ == p) && final(self).rest() == old(
                    self,
                ).rest().skip(k as int) && final(self).depth() == old(self).depth() + (if opens_level(
                    p,
                ) {
                    1int
                } else {
                    0int
                }),
                Err(kind) => (res matches Err(e) && e.0 == kind) && final(self).depth() == old(
                    self,
                ).depth(),
            },
            tag == TAG_STRING ==> ((res matches Ok(Payload::Str(Cow::Borrowed(_)))) <==> (
            parse_str_bytes(old(self).rest()) matches Ok((b, _)) && valid_utf8(b))),
    {
        if TAG_BYTE <= tag && tag <= TAG_DOUBLE {
            self.number(tag)
        } else if tag == TAG_STRING {
            Ok(Payload::Str(self.read_str()?))
        } else if tag == TAG_LIST {
            self.list_header()
        } else if tag == TAG_COMPOUND {
            self.enter()?;
            assert(old(self).rest().skip(0) =~= old(self).rest());
            Ok(Payload::Compound)
        } else if tag == TAG_BYTE_ARRAY {
            Ok(Payload::Bytes(self.array(1)?))
        } else if tag == TAG_INT_ARRAY {
            Ok(Payload::Bytes(self.array(4)?))
        } else if tag == TAG_LONG_ARRAY {
            Ok(Payload::Bytes(self.array(8)?))
        } else {
            Err(Error::expected_value())
        }
    }

    /// Reads the raw payload of a string, an array or a list of integers, as
    /// serde's `deserialize_bytes` does.
    pub fn payload_bytes(&mut self, tag: u8) -> (res: Result<&'de [u8]>)
        ensures
            final(self).same_frame(old(self)),
            match parse_payload_bytes(tag, old(self).rest(), old(self).opts()) {
                Ok((bytes, k)) => (res matches Ok(b) && b@ == bytes) && final(self).rest() == old(
                    self,
                ).rest().skip(k as int),
                Err(kind) => res matches Err(e) && e.0 == kind,
            },
    {
        if tag == TAG_STRING {
            self.str_bytes()
        } else if tag == TAG_LIST {
            let element = self.read_tag()?;
            let len = self.array_len()?;
            assert(old(self).rest().skip(1).skip(4) =~= old(self).rest().skip(5));
            let size: usize = if element == TAG_BYTE {
                1
            } else if element == TAG_SHORT {
                2
            } else if element == TAG_INT {
                4
            } else if element == TAG_LONG {
                8
            } else {
                0
            };
            if size == 0 {
                return Err(Error::not_bytes());
            }
            let bytes = self.take_elements(len, size)?;
            proof {
                let r = old(self).rest();
                if let Ok((_, n)) = parse_elements(r.skip(5), len as nat, size as nat) {
                    assert(r.skip(5).skip(n as int) =~= r.skip(5 + n as int));
                }
            }
            Ok(bytes)
        } else if tag == TAG_BYTE_ARRAY {
            self.array(1)
        } else if tag == TAG_INT_ARRAY {
            self.array(4)
        } else if tag == TAG_LONG_ARRAY {
            self.array(8)
        } else {
            Err(Error::not_bytes())
        }
    }

    /// Reads the payload of an array of `kind` for an array module's newtype
    /// struct: the value's tag must be the kind's.
    pub fn array_payload(&mut self, tag: u8, kind: ArrayKind) -> (res: Result<&'de [u8]>)
        ensures
            final(self).same_frame(old(self)),
            tag != kind.spec_tag() ==> (res matches Err(e) && e.0 == ErrorKind::InvalidTag(tag))
                && final(self).rest() == old(self).rest(),
            tag == kind.spec_tag() ==> match parse_array(old(self).rest(), kind.spec_size(), old(self).opts()) {
                Ok((bytes, k)) => (res matches Ok(b) && b@ == bytes) && final(self).rest() == old(
                    self,
                ).rest().skip(k as int),
                Err(e) => res matches Err(x) && x.0 == e,
            },
    {
        if tag != kind.tag() {
            return Err(Error::invalid_tag(tag));
        }
        self.array(kind.size())
    }

    /// Reads an `i128` from an int array of exactly four ints, most
    /// significant first; a `u128` is the same bits.
    pub fn int_array_128(&mut self, tag: u8) -> (res: Result<i128>)
        ensures
            final(self).same_frame(old(self)),
            match parse_int_array_128(tag, old(self).rest(), old(self).opts()) {
                Ok((v, k)) => (res matches Ok(x) && x as int == v) && final(self).rest() == old(
                    self,
                ).rest().skip(k as int),
                Err(kind) => res matches Err(e) && e.0 == kind,
            },
    {
        if tag != TAG_INT_ARRAY {
            return Err(Error::expected_int_array());
        }
        let bytes = self.array(4)?;
        if bytes.len() != 16 {
            return Err(Error::expected_int_array());
        }
        let u = crate::be::u128_from_be(bytes);
        proof {
            reveal_with_fuel(pow256, 17);
            assert(pow256(16) == 0x1_0000_0000_0000_0000_0000_0000_0000_0000);
        }
        if u >= 0x8000_0000_0000_0000_0000_0000_0000_0000 {
            let low = (u - 0x8000_0000_0000_0000_0000_0000_0000_0000) as i128;
            Ok(low + i128::MIN)
        } else {
            Ok(u as i128)
        }
    }

    /// Reads a bool from an integer of `tag`, true unless it is zero; for
    /// any other tag, `None`, nothing read.
    pub fn payload_bool(&mut self, tag: u8) -> (res: Result<Option<bool>>)
        ensures
            final(self).same_frame(old(self)),
            match parse_bool(tag, old(self).rest()) {
                Ok((b, k)) => res == Ok::<Option<bool>, Error>(b) && final(self).rest() == old(
                    self,
                ).rest().skip(k as int),
                Err(kind) => res matches Err(e) && e.0 == kind,
            },
    {
        let n: usize = if tag == TAG_BYTE {
            1
        } else if tag == TAG_SHORT {
            2
        } else if tag == TAG_INT {
            4
        } else if tag == TAG_LONG {
            8
        } else {
            0
        };
        if n == 0 {
            assert(old(self).rest().skip(0) =~= old(self).rest());
            return Ok(None);
        }
        let bytes = self.take(n)?;
        let mut nonzero = false;
        let mut i: usize = 0;
        while i < n
            invariant
                i <= n,
                bytes@.len() == n,
                bytes@ == old(self).rest().take(n as int),
                nonzero <==> exists|j: int| 0 <= j < i && bytes@[j] != 0,
            decreases n - i,
        {
            if bytes[i] != 0 {
                nonzero = true;
            }
            i = i + 1;
        }
        proof {
            let r = old(self).rest();
            if nonzero {
                let j = choose|j: int| 0 <= j < n && bytes@[j] != 0;
                assert(r[j] == bytes@[j]);
            }
            if exists|j: int| 0 <= j < n && r[j] != 0 {
                let j = choose|j: int| 0 <= j < n && r[j] != 0;
                assert(bytes@[j] == r[j]);
            }
        }
        Ok(Some(nonzero))
    }

    /// Opens the document's map: reads the root compound's tag and, if the
    /// options expect one, its name, unless they have been read; then opens
    /// a level, which [`leave`](Deserializer::leave) closes.
    pub fn open_map(&mut self) -> (res: Result<()>)
        requires
            old(self).wf(),
        ensures
            final(self).wf(),
            final(self).opts() == old(self).opts(),
            match parse_open_map(old(self).seen_root(), old(self).rest(), old(self).depth(), old(self).opts()) {
                Ok(k) => res is Ok && final(self).rest() == old(self).rest().skip(k as int)
                    && final(self).depth() == old(self).depth() + 1 && final(self).seen_root(),
                Err(kind) => (res matches Err(e) && e.0 == kind) && final(self).depth() == old(
                    self,
                ).depth(),
            },
    {
        if !self.seen_root {
            let tag = self.read_tag()?;
            if tag != TAG_COMPOUND {
                return Err(Error::no_root_compound());
            }
            if self.opts.names_expected() {
                self.skip_str()?;
                proof {
                    let r = old(self).rest();
                    let n = parse_str_bytes(r.skip(1))->Ok_0.1;
                    assert(r.skip(1).skip(n as int) =~= r.skip(1 + n as int));
                }
            }
            self.seen_root = true;
        } else {
            assert(old(self).rest().skip(0) =~= old(self).rest());
        }
        self.enter()
    }

    /// Opens one more list or compound, refusing to go deeper than
    /// [`DeOpts::max_depth`].
    pub fn enter(&mut self) -> (res: Result<()>)
        requires
            old(self).wf(),
        ensures
            final(self).opts() == old(self).opts(),
            final(self).rest() == old(self).rest(),
            final(self).seen_root() == old(self).seen_root(),
            old(self).depth() >= old(self).opts().max_depth ==> (res matches Err(e) && e.0
                == ErrorKind::TooDeep) && final(self).depth() == old(self).depth(),
            old(self).depth() < old(self).opts().max_depth ==> res is Ok && final(self).depth()
                == old(self).depth() + 1,
            final(self).wf(),
    {
        if self.depth >= self.opts.depth_limit() {
            return Err(Error::too_deep());
        }
        self.depth = self.depth + 1;
        Ok(())
    }

    /// How many lists and compounds are open.
    pub fn open_levels(&self) -> (n: usize)
        ensures
            n == self.depth(),
    {
        self.depth
    }

    /// Closes the list or compound the last [`enter`](Deserializer::enter)
    /// opened.
    pub fn leave(&mut self)
        requires
            old(self).depth() > 0,
            old(self).wf(),
        ensures
            final(self).opts() == old(self).opts(),
            final(self).rest() == old(self).rest(),
            final(self).seen_root() == old(self).seen_root(),
            final(self).depth() == old(self).depth() - 1,
            final(self).wf(),
    {
        self.depth = self.depth - 1;
    }

    /// Skips an array of `size`-byte elements.
    fn skip_array(&mut self, size: usize) -> (res: Result<()>)
        ensures
            final(self).same_frame(old(self)),
            match skip_array_len(old(self).rest(), size as nat) {
                Ok(k) => res is Ok && final(self).rest() == old(self).rest().skip(k as int),
                Err(kind) => res matches Err(e) && e.0 == kind,
            },
    {
        let len = self.read_i32()?;
        if len < 0 {
            return Err(Error::negative_len());
        }
        self.take_elements(len as usize, size)?;
        proof {
            let r = old(self).rest();
            if let Ok((_, n)) = parse_elements(r.skip(4), len as nat, size as nat) {
                assert(r.skip(4).skip(n as int) =~= r.skip(4 + n as int));
            }
        }
        Ok(())
    }

    /// Skips a value by its structure alone, decoding nothing: what a unit
    /// or an ignored value reads.
    ///
    /// Unlike reading a value, lengths are not bounded by `max_seq_len`, and
    /// a negative list length skips no elements.
    #[verifier::rlimit(40)]
    pub fn skip_value(&mut self, tag: u8) -> (res: Result<()>)
        requires
            old(self).wf(),
        ensures
            final(self).same_frame(old(self)),
            match de_skip_len(tag, old(self).rest(), old(self).depth(), old(self).opts()) {
                Ok(k) => res is Ok && final(self).rest() == old(self).rest().skip(k as int),
                Err(kind) => res matches Err(e) && e.0 == kind,
            },
        decreases old(self).opts().max_depth - old(self).depth(), old(self).rest().len(), 0nat,
    {
        if tag == TAG_BYTE {
            self.take(1)?;
            Ok(())
        } else if tag == TAG_SHORT {
            self.take(2)?;
            Ok(())
        } else if tag == TAG_INT || tag == TAG_FLOAT {
            self.take(4)?;
            Ok(())
        } else if tag == TAG_LONG || tag == TAG_DOUBLE {
            self.take(8)?;
            Ok(())
        } else if tag == TAG_STRING {
            self.skip_str()
        } else if tag == TAG_BYTE_ARRAY {
            self.skip_array(1)
        } else if tag == TAG_INT_ARRAY {
            self.skip_array(4)
        } else if tag == TAG_LONG_ARRAY {
            self.skip_array(8)
        } else if tag == TAG_COMPOUND {
            if self.depth >= self.opts.depth_limit() {
                return Err(Error::too_deep());
            }
            self.depth = self.depth + 1;
            let result = self.skip_entries();
            self.depth = self.depth - 1;
            result
        } else if tag == TAG_LIST {
            let element = self.read_tag()?;
            if self.depth >= self.opts.depth_limit() {
                return Err(Error::too_deep());
            }
            self.depth = self.depth + 1;
            let len = match self.read_i32() {
                Ok(len) => len,
                Err(e) => {
                    self.depth = self.depth - 1;
                    return Err(e);
                },
            };
            assert(old(self).rest().skip(1).take(4) =~= old(self).rest().subrange(1, 5));
            assert(old(self).rest().skip(1).skip(4) =~= old(self).rest().skip(5));
            let count: u32 = if len < 0 { 0 } else { len as u32 };
            let result = self.skip_elements(element, count);
            self.depth = self.depth - 1;
            proof {
                let r = old(self).rest();
                if let Ok(k) = de_skip_elements_len(element, count as nat, r.skip(5), self.depth() + 1, self.opts()) {
                    lemma_de_skip_elements_bound(element, count as nat, r.skip(5), self.depth() + 1, self.opts());
                    assert(r.skip(5).skip(k as int) =~= r.skip(5 + k as int));
                }
            }
            result
        } else {
            // fastnbt panics here, skipping a list of End with elements.
            Err(Error::list_of_end())
        }
    }

    /// Skips a compound's entries, up to and with its End tag.
    fn skip_entries(&mut self) -> (res: Result<()>)
        requires
            old(self).wf(),
        ensures
            final(self).same_frame(old(self)),
            match de_skip_entries_len(old(self).rest(), old(self).depth(), old(self).opts()) {
                Ok(k) => res is Ok && final(self).rest() == old(self).rest().skip(k as int),
                Err(kind) => res matches Err(e) && e.0 == kind,
            },
        decreases old(self).opts().max_depth - old(self).depth(), old(self).rest().len(), 1nat,
    {
        let ghost start = self.rest();
        assert(start.skip(0) =~= start);
        let ghost mut used: nat = 0;
        loop
            invariant
                self.wf(),
                self.same_frame(old(self)),
                start == old(self).rest(),
                used <= start.len(),
                self.rest() == start.skip(used as int),
                de_skip_entries_len(start, self.depth(), self.opts()) == after(
                    used,
                    de_skip_entries_len(self.rest(), self.depth(), self.opts()),
                ),
            decreases self.rest().len(),
        {
            let ghost cur = self.rest();
            let tag = self.read_tag()?;
            if tag == TAG_END {
                assert(cur.skip(1) =~= start.skip((used + 1) as int));
                return Ok(());
            }
            self.skip_str()?;
            let ghost k = parse_str_bytes(cur.skip(1))->Ok_0.1;
            let ghost m: nat = 1 + k;
            assert(cur.skip(1).skip(k as int) =~= cur.skip(m as int));
            self.skip_value(tag)?;
            proof {
                let mid = cur.skip(m as int);
                let v = de_skip_len(tag, mid, self.depth(), self.opts())->Ok_0;
                lemma_de_skip_len_bound(tag, mid, self.depth(), self.opts());
                assert(mid.skip(v as int) =~= cur.skip(m + v as int));
                assert(cur.skip(m + v as int) =~= start.skip(used + m + v as int));
                used = used + m + v;
            }
        }
    }

    /// Skips `count` values of `element`.
    fn skip_elements(&mut self, element: u8, count: u32) -> (res: Result<()>)
        requires
            old(self).wf(),
        ensures
            final(self).same_frame(old(self)),
            match de_skip_elements_len(element, count as nat, old(self).rest(), old(self).depth(), old(self).opts()) {
                Ok(k) => res is Ok && final(self).rest() == old(self).rest().skip(k as int),
                Err(kind) => res matches Err(e) && e.0 == kind,
            },
        decreases old(self).opts().max_depth - old(self).depth(), old(self).rest().len(), count as nat + 1,
    {
        let ghost start = self.rest();
        assert(start.skip(0) =~= start);
        let ghost mut used: nat = 0;
        let mut i: u32 = 0;
        while i < count
            invariant
                i <= count,
                self.wf(),
                self.same_frame(old(self)),
                start == old(self).rest(),
                used <= start.len(),
                self.rest() == start.skip(used as int),
                de_skip_elements_len(element, count as nat, start, self.depth(), self.opts()) == after(
                    used,
                    de_skip_elements_len(element, (count - i) as nat, self.rest(), self.depth(), self.opts()),
                ),
            decreases count - i,
        {
            let ghost cur = self.rest();
            self.skip_value(element)?;
            proof {
                let v = de_skip_len(element, cur, self.depth(), self.opts())->Ok_0;
                lemma_de_skip_len_bound(element, cur, self.depth(), self.opts());
                assert(cur.skip(v as int) =~= start.skip(used + v as int));
                used = used + v;
            }
            i = i + 1;
        }
        Ok(())
    }
}

} // verus!
