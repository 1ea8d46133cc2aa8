//! Reading NBT from a byte slice.
//!
//! A value's tag is read by whoever owns the entry, and passed along to the
//! code that reads the payload, so that a type can dispatch on it. Strings
//! decode from modified UTF-8, borrowing from the input when they are plain
//! UTF-8.

use std::borrow::Cow;
use vstd::prelude::*;

use crate::be::{be_sint, be_uint, I16Be, I32Be, I64Be, U16Be};
use crate::cesu8::{cesu8_decode, from_java_cesu8};
use vstd::utf8::valid_utf8;
use crate::error::{Error, ErrorKind, Result};
use crate::opts::{DeOpts, DeOptsView};
use crate::tag::{
    TAG_BYTE, TAG_BYTE_ARRAY, TAG_COMPOUND, TAG_DOUBLE, TAG_END, TAG_FLOAT, TAG_INT, TAG_INT_ARRAY,
    TAG_LIST, TAG_LONG, TAG_LONG_ARRAY, TAG_MAX, TAG_SHORT, TAG_STRING,
};

verus! {

/// What reading `n` raw bytes from `rest` gives, and how many bytes it takes.
pub open spec fn parse_bytes(rest: Seq<u8>, n: nat) -> core::result::Result<(Seq<u8>, nat), ErrorKind> {
    if n <= rest.len() {
        Ok((rest.take(n as int), n))
    } else {
        Err(ErrorKind::UnexpectedEof)
    }
}

/// What reading a tag byte from `rest` gives: bytes that name no type are
/// refused.
pub open spec fn parse_tag(rest: Seq<u8>) -> core::result::Result<(u8, nat), ErrorKind> {
    if rest.len() == 0 {
        Err(ErrorKind::UnexpectedEof)
    } else if rest[0] > TAG_MAX {
        Err(ErrorKind::InvalidTag(rest[0]))
    } else {
        Ok((rest[0], 1))
    }
}

/// What reading an `n`-byte big-endian two's complement integer from `rest`
/// gives.
pub open spec fn parse_int(rest: Seq<u8>, n: nat) -> core::result::Result<(int, nat), ErrorKind> {
    if n <= rest.len() {
        Ok((be_sint(rest.take(n as int)), n))
    } else {
        Err(ErrorKind::UnexpectedEof)
    }
}

/// What reading a list's or array's `i32` length from `rest` gives: it must
/// be non-negative and within `opts.max_seq_len`.
pub open spec fn parse_len(rest: Seq<u8>, opts: DeOptsView) -> core::result::Result<(nat, nat), ErrorKind> {
    if rest.len() < 4 {
        Err(ErrorKind::UnexpectedEof)
    } else {
        let len = be_sint(rest.take(4));
        if len < 0 {
            Err(ErrorKind::NegativeLen)
        } else if len > opts.max_seq_len {
            Err(ErrorKind::SeqTooLong)
        } else {
            Ok((len as nat, 4))
        }
    }
}

/// What reading a list header from `rest` gives: the element tag, then the
/// length.
pub open spec fn parse_list_header(rest: Seq<u8>, opts: DeOptsView) -> core::result::Result<((u8, nat), nat), ErrorKind> {
    match parse_tag(rest) {
        Err(k) => Err(k),
        Ok((element, _)) => match parse_len(rest.skip(1), opts) {
            Err(k) => Err(k),
            Ok((len, _)) => Ok(((element, len), 5)),
        },
    }
}

/// What reading the bytes of a `u16`-length-prefixed string from `rest`
/// gives, undecoded.
pub open spec fn parse_str_bytes(rest: Seq<u8>) -> core::result::Result<(Seq<u8>, nat), ErrorKind> {
    if rest.len() < 2 {
        Err(ErrorKind::UnexpectedEof)
    } else {
        let len = be_uint(rest.take(2));
        if rest.len() < 2 + len {
            Err(ErrorKind::UnexpectedEof)
        } else {
            Ok((rest.subrange(2, 2 + len as int), 2 + len))
        }
    }
}

/// What reading a string from `rest` gives, decoded from modified UTF-8.
pub open spec fn parse_str(rest: Seq<u8>) -> core::result::Result<(Seq<char>, nat), ErrorKind> {
    match parse_str_bytes(rest) {
        Err(k) => Err(k),
        Ok((bytes, n)) => match cesu8_decode(bytes) {
            Some(text) => Ok((text, n)),
            None => Err(ErrorKind::NonunicodeString),
        },
    }
}

/// What reading `len` elements of `size` bytes each from `rest` gives.
pub open spec fn parse_elements(rest: Seq<u8>, len: nat, size: nat) -> core::result::Result<(Seq<u8>, nat), ErrorKind> {
    if len * size > usize::MAX {
        Err(ErrorKind::ArrayTooLarge)
    } else {
        parse_bytes(rest, len * size)
    }
}

/// What reading an array of `size`-byte elements from `rest` gives: the
/// length, checked as [`parse_len`] checks it, then the elements' bytes.
pub open spec fn parse_array(rest: Seq<u8>, size: nat, opts: DeOptsView) -> core::result::Result<(Seq<u8>, nat), ErrorKind> {
    match parse_len(rest, opts) {
        Err(k) => Err(k),
        Ok((len, _)) => match parse_elements(rest.skip(4), len, size) {
            Err(k) => Err(k),
            Ok((bytes, n)) => Ok((bytes, 4 + n)),
        },
    }
}

/// `used` bytes, then what `r` takes.
pub open spec fn after(used: nat, r: core::result::Result<nat, ErrorKind>) -> core::result::Result<nat, ErrorKind> {
    match r {
        Ok(n) => Ok(used + n),
        Err(k) => Err(k),
    }
}

/// How many bytes skipping a fixed-size payload of `n` bytes takes.
pub open spec fn skip_fixed(rest: Seq<u8>, n: nat) -> core::result::Result<nat, ErrorKind> {
    if n <= rest.len() {
        Ok(n)
    } else {
        Err(ErrorKind::UnexpectedEof)
    }
}

/// How many bytes skipping an array of `size`-byte elements takes: its
/// length must not be negative, and is not bounded by `max_seq_len`.
pub open spec fn skip_array_len(rest: Seq<u8>, size: nat) -> core::result::Result<nat, ErrorKind> {
    if rest.len() < 4 {
        Err(ErrorKind::UnexpectedEof)
    } else {
        let len = be_sint(rest.take(4));
        if len < 0 {
            Err(ErrorKind::NegativeLen)
        } else {
            match parse_elements(rest.skip(4), len as nat, size) {
                Ok((_, n)) => Ok(4 + n),
                Err(k) => Err(k),
            }
        }
    }
}

/// How many bytes skipping a value of `tag` at the front of `rest` takes,
/// with `depth` lists and compounds open, decoding nothing.
///
/// Lengths are not bounded by `max_seq_len`, and a negative list length
/// skips no elements; nesting is bounded by `max_depth`.
pub open spec fn skip_len(tag: u8, rest: Seq<u8>, depth: nat, opts: DeOptsView) -> core::result::Result<nat, ErrorKind>
    decreases opts.max_depth - depth, rest.len(), 0nat,
{
    if tag == TAG_BYTE {
        skip_fixed(rest, 1)
    } else if tag == TAG_SHORT {
        skip_fixed(rest, 2)
    } else if tag == TAG_INT || tag == TAG_FLOAT {
        skip_fixed(rest, 4)
    } else if tag == TAG_LONG || tag == TAG_DOUBLE {
        skip_fixed(rest, 8)
    } else if tag == TAG_STRING {
        match parse_str_bytes(rest) {
            Ok((_, n)) => Ok(n),
            Err(k) => Err(k),
        }
    } else if tag == TAG_BYTE_ARRAY {
        skip_array_len(rest, 1)
    } else if tag == TAG_INT_ARRAY {
        skip_array_len(rest, 4)
    } else if tag == TAG_LONG_ARRAY {
        skip_array_len(rest, 8)
    } else if tag == TAG_COMPOUND {
        if depth >= opts.max_depth {
            Err(ErrorKind::TooDeep)
        } else {
            skip_entries_len(rest, depth + 1, opts)
        }
    } else if tag == TAG_LIST {
        match parse_tag(rest) {
            Err(k) => Err(k),
            Ok((element, _)) => if rest.len() < 5 {
                Err(ErrorKind::UnexpectedEof)
            } else if depth >= opts.max_depth {
                Err(ErrorKind::TooDeep)
            } else {
                let len = be_sint(rest.subrange(1, 5));
                let count: nat = if len < 0 { 0 } else { len as nat };
                after(5, skip_elements_len(element, count, rest.skip(5), depth + 1, opts))
            },
        }
    } else {
        // fastnbt panics here, skipping a list of End with elements.
        Err(ErrorKind::ListOfEnd)
    }
}

/// How many bytes skipping a compound's entries takes, up to and with its
/// End tag.
pub open spec fn skip_entries_len(rest: Seq<u8>, depth: nat, opts: DeOptsView) -> core::result::Result<nat, ErrorKind>
    decreases opts.max_depth - depth, rest.len(), 1nat,
{
    match parse_tag(rest) {
        Err(k) => Err(k),
        Ok((tag, _)) => if tag == TAG_END {
            Ok(1)
        } else {
            match parse_str_bytes(rest.skip(1)) {
                Err(k) => Err(k),
                Ok((_, m)) => if 1 + m > rest.len() {
                    Err(ErrorKind::UnexpectedEof)
                } else {
                    match skip_len(tag, rest.skip((1 + m) as int), depth, opts) {
                        Err(k) => Err(k),
                        Ok(v) => if 1 + m + v > rest.len() {
                            Err(ErrorKind::UnexpectedEof)
                        } else {
                            after(1 + m + v, skip_entries_len(rest.skip((1 + m + v) as int), depth, opts))
                        },
                    }
                },
            }
        },
    }
}

/// How many bytes skipping `count` values of `element` takes.
pub open spec fn skip_elements_len(element: u8, count: nat, rest: Seq<u8>, depth: nat, opts: DeOptsView) -> core::result::Result<nat, ErrorKind>
    decreases opts.max_depth - depth, rest.len(), count + 1,
{
    if count == 0 {
        Ok(0)
    } else {
        match skip_len(element, rest, depth, opts) {
            Err(k) => Err(k),
            Ok(v) => if v > rest.len() {
                Err(ErrorKind::UnexpectedEof)
            } else {
                after(v, skip_elements_len(element, (count - 1) as nat, rest.skip(v as int), depth, opts))
            },
        }
    }
}

/// Skipping never takes more bytes than there are.
pub proof fn lemma_skip_len_bound(tag: u8, rest: Seq<u8>, depth: nat, opts: DeOptsView)
    ensures
        skip_len(tag, rest, depth, opts) matches Ok(n) ==> n <= rest.len(),
        skip_entries_len(rest, depth, opts) matches Ok(n) ==> 1 <= n <= rest.len(),
    decreases opts.max_depth - depth, rest.len(), 0nat,
{
    if tag == TAG_COMPOUND && depth < opts.max_depth {
        lemma_skip_len_bound(tag, rest, depth + 1, opts);
    }
    if tag == TAG_LIST && rest.len() >= 5 && depth < opts.max_depth {
        let len = be_sint(rest.subrange(1, 5));
        let count: nat = if len < 0 { 0 } else { len as nat };
        lemma_skip_elements_bound(parse_tag(rest)->Ok_0.0, count, rest.skip(5), depth + 1, opts);
    }
    if let Ok((t, _)) = parse_tag(rest) {
        if t != TAG_END {
            if let Ok((_, m)) = parse_str_bytes(rest.skip(1)) {
                if 1 + m <= rest.len() {
                    lemma_skip_len_bound(t, rest.skip((1 + m) as int), depth, opts);
                    if let Ok(v) = skip_len(t, rest.skip((1 + m) as int), depth, opts) {
                        if 1 + m + v <= rest.len() {
                            lemma_skip_len_bound(t, rest.skip((1 + m + v) as int), depth, opts);
                        }
                    }
                }
            }
        }
    }
}

/// Skipping elements never takes more bytes than there are.
pub proof fn lemma_skip_elements_bound(element: u8, count: nat, rest: Seq<u8>, depth: nat, opts: DeOptsView)
    ensures
        skip_elements_len(element, count, rest, depth, opts) matches Ok(n) ==> n <= rest.len(),
    decreases opts.max_depth - depth, rest.len(), count + 1,
{
    if count > 0 {
        lemma_skip_len_bound(element, rest, depth, opts);
        if let Ok(v) = skip_len(element, rest, depth, opts) {
            if v <= rest.len() {
                lemma_skip_elements_bound(element, (count - 1) as nat, rest.skip(v as int), depth, opts);
            }
        }
    }
}

/// A value that can be read from NBT.
///
/// [`read`](FromNBT::read) receives the value's tag, which the owner of the
/// entry has already consumed, and reads the payload that follows.
pub trait FromNBT<'de>: Sized + DeepView {
    /// What reading a value of this type whose tag is `tag` from the front
    /// of `rest` gives, with `depth` lists and compounds open: the value, as
    /// its deep view, and how many bytes it takes; or why it cannot be read.
    spec fn nbt_parse(tag: u8, rest: Seq<u8>, depth: nat, opts: DeOptsView) -> core::result::Result<(<Self as DeepView>::V, nat), ErrorKind>;

    /// Reads the payload of a value whose tag is `tag`.
    fn read(tag: u8, reader: &mut Reader<'de>) -> (res: Result<Self>)
        requires
            old(reader).wf(),
        ensures
            final(reader).wf(),
            final(reader).depth() == old(reader).depth(),
            final(reader).opts() == old(reader).opts(),
            match Self::nbt_parse(tag, old(reader).rest(), old(reader).depth(), old(reader).opts()) {
                Ok((v, k)) => (res matches Ok(x) && x.deep_view() == v) && k <= old(reader).rest().len()
                    && final(reader).rest() == old(reader).rest().skip(k as int),
                Err(kind) => res matches Err(e) && e.0 == kind,
            },
    ;
}

/// What reading `count` values of `element` from the front of `rest`
/// gives, with `depth` lists and compounds open.
pub open spec fn parse_seq<'de, T: FromNBT<'de>>(element: u8, count: nat, rest: Seq<u8>, depth: nat, opts: DeOptsView) -> core::result::Result<(Seq<<T as DeepView>::V>, nat), ErrorKind>
    decreases count,
{
    if count == 0 {
        Ok((Seq::empty(), 0))
    } else {
        match T::nbt_parse(element, rest, depth, opts) {
            Err(k) => Err(k),
            Ok((v, n)) => if n > rest.len() {
                Err(ErrorKind::UnexpectedEof)
            } else {
                match parse_seq::<T>(element, (count - 1) as nat, rest.skip(n as int), depth, opts) {
                    Ok((vs, m)) => Ok((seq![v] + vs, n + m)),
                    Err(k) => Err(k),
                }
            },
        }
    }
}

/// `prefix`, taking `used` bytes, in front of what `r` gives.
pub open spec fn then_seq<V>(prefix: Seq<V>, used: nat, r: core::result::Result<(Seq<V>, nat), ErrorKind>) -> core::result::Result<(Seq<V>, nat), ErrorKind> {
    match r {
        Ok((vs, n)) => Ok((prefix + vs, used + n)),
        Err(k) => Err(k),
    }
}

/// What reading a list's header and elements from the front of `rest`
/// gives. A list of End is the empty list when it is empty, and refused
/// otherwise; the elements are read one level deeper.
pub open spec fn parse_list<'de, T: FromNBT<'de>>(rest: Seq<u8>, depth: nat, opts: DeOptsView) -> core::result::Result<(Seq<<T as DeepView>::V>, nat), ErrorKind> {
    match parse_list_header(rest, opts) {
        Err(k) => Err(k),
        Ok(((element, len), _)) => if element == TAG_END {
            if len == 0 {
                Ok((Seq::empty(), 5))
            } else {
                Err(ErrorKind::ListOfEnd)
            }
        } else if depth >= opts.max_depth {
            Err(ErrorKind::TooDeep)
        } else {
            then_seq(Seq::empty(), 5, parse_seq::<T>(element, len, rest.skip(5), depth + 1, opts))
        },
    }
}

/// Reads `len` values of `element`, the list's header already read.
pub fn read_elements<'de, T: FromNBT<'de>>(element: u8, len: usize, reader: &mut Reader<'de>) -> (res: Result<Vec<T>>)
    requires
        old(reader).wf(),
    ensures
        final(reader).wf(),
        final(reader).depth() == old(reader).depth(),
        final(reader).opts() == old(reader).opts(),
        match parse_seq::<T>(element, len as nat, old(reader).rest(), old(reader).depth(), old(reader).opts()) {
            Ok((vs, k)) => (res matches Ok(x) && x.deep_view() == vs) && k <= old(reader).rest().len()
                && final(reader).rest() == old(reader).rest().skip(k as int),
            Err(kind) => res matches Err(e) && e.0 == kind,
        },
{
    let ghost start = reader.rest();
    let ghost depth = reader.depth();
    let ghost opts = reader.opts();
    let ghost mut used: nat = 0;
    assert(start.skip(0) =~= start);
    let mut items: Vec<T> = Vec::new();
    let mut i: usize = 0;
    while i < len
        invariant
            i <= len,
            reader.wf(),
            reader.depth() == depth,
            reader.opts() == opts,
            depth == old(reader).depth(),
            opts == old(reader).opts(),
            start == old(reader).rest(),
            used <= start.len(),
            reader.rest() == start.skip(used as int),
            parse_seq::<T>(element, len as nat, start, depth, opts) == then_seq(
                items.deep_view(),
                used,
                parse_seq::<T>(element, (len - i) as nat, reader.rest(), depth, opts),
            ),
        decreases len - i,
    {
        let ghost cur = reader.rest();
        let item = T::read(element, reader)?;
        proof {
            let (v, n) = T::nbt_parse(element, cur, depth, opts)->Ok_0;
            assert(cur.skip(n as int) =~= start.skip(used + n as int));
            let ghost before = items.deep_view();
            used = used + n;
            match parse_seq::<T>(element, (len - i - 1) as nat, reader.rest(), depth, opts) {
                Ok((vs, m)) => {
                    assert(before + (seq![v] + vs) =~= before.push(v) + vs);
                },
                Err(_) => {},
            }
        }
        let ghost before = items.deep_view();
        items.push(item);
        assert(items.deep_view() =~= before.push(item.deep_view()));
        i = i + 1;
    }
    assert(items.deep_view() + Seq::<<T as DeepView>::V>::empty() =~= items.deep_view());
    Ok(items)
}

/// Reads a list's header and elements, refusing a list of End with
/// elements; the elements are read one level deeper.
pub fn read_list<'de, T: FromNBT<'de>>(reader: &mut Reader<'de>) -> (res: Result<Vec<T>>)
    requires
        old(reader).wf(),
    ensures
        final(reader).wf(),
        final(reader).depth() == old(reader).depth(),
        final(reader).opts() == old(reader).opts(),
        match parse_list::<T>(old(reader).rest(), old(reader).depth(), old(reader).opts()) {
            Ok((vs, k)) => (res matches Ok(x) && x.deep_view() == vs) && k <= old(reader).rest().len()
                && final(reader).rest() == old(reader).rest().skip(k as int),
            Err(kind) => res matches Err(e) && e.0 == kind,
        },
{
    let (element, len) = reader.read_list_header()?;
    if element == TAG_END {
        // Old chunks store empty lists as lists of End; a longer one would
        // be a cheap way to allocate without bound.
        if len == 0 {
            let empty: Vec<T> = Vec::new();
            assert(empty.deep_view() =~= Seq::<<T as DeepView>::V>::empty());
            return Ok(empty);
        } else {
            return Err(Error::list_of_end());
        }
    }
    reader.enter()?;
    let result = read_elements(element, len, reader);
    reader.leave();
    proof {
        let r = old(reader).rest();
        if let Ok((_, k)) = parse_seq::<T>(element, len as nat, r.skip(5), old(reader).depth() + 1, old(reader).opts()) {
            assert(r.skip(5).skip(k as int) =~= r.skip(5 + k as int));
        }
        if let Ok((vs, _)) = parse_seq::<T>(element, len as nat, r.skip(5), old(reader).depth() + 1, old(reader).opts()) {
            assert(Seq::<<T as DeepView>::V>::empty() + vs =~= vs);
        }
    }
    result
}

/// Reads a document from a byte slice, borrowing from it where possible.
pub struct Reader<'de> {
    input: &'de [u8],
    /// How many lists and compounds are open, which bounds the recursion.
    depth: usize,
    opts: DeOpts,
}

impl<'de> Reader<'de> {
    /// The bytes not read yet.
    pub closed spec fn rest(&self) -> Seq<u8> {
        self.input@
    }

    /// How many lists and compounds are open.
    pub closed spec fn depth(&self) -> nat {
        self.depth as nat
    }

    /// The options the reader was made with.
    pub closed spec fn opts(&self) -> DeOptsView {
        self.opts@
    }

    /// Whether the open levels are within the limit, as reading keeps them.
    pub closed spec fn wf(&self) -> bool {
        self.depth <= self.opts@.max_depth
    }

    /// A reader at the start of `input`.
    pub fn new(input: &'de [u8], opts: DeOpts) -> (reader: Self)
        ensures
            reader.rest() == input@,
            reader.depth() == 0,
            reader.opts() == opts@,
            reader.wf(),
    {
        Self { input, depth: 0, opts }
    }

    /// The bytes not read yet.
    pub fn remaining(&self) -> (rest: &'de [u8])
        ensures
            rest@ == self.rest(),
    {
        self.input
    }

    /// The options the reader was made with.
    pub fn options(&self) -> (opts: DeOpts)
        ensures
            opts@ == self.opts(),
    {
        self.opts
    }

    /// Takes the next `n` bytes.
    pub fn take(&mut self, n: usize) -> (res: Result<&'de [u8]>)
        ensures
            final(self).depth() == old(self).depth(),
            final(self).opts() == old(self).opts(),
            final(self).wf() == old(self).wf(),
            match parse_bytes(old(self).rest(), n as nat) {
                Ok((bytes, k)) => (res matches Ok(taken) && taken@ == bytes) && final(self).rest()
                    == old(self).rest().skip(k as int),
                Err(kind) => (res matches Err(e) && e.0 == kind) && final(self).rest() == old(
                    self,
                ).rest(),
            },
    {
        if n > self.input.len() {
            return Err(Error::unexpected_eof());
        }
        let (taken, rest) = self.input.split_at(n);
        self.input = rest;
        assert(taken@ =~= old(self).rest().take(n as int));
        assert(rest@ =~= old(self).rest().skip(n as int));
        Ok(taken)
    }

    /// Reads one tag byte, refusing bytes that name no type.
    pub fn read_tag(&mut self) -> (res: Result<u8>)
        ensures
            final(self).depth() == old(self).depth(),
            final(self).opts() == old(self).opts(),
            final(self).wf() == old(self).wf(),
            match parse_tag(old(self).rest()) {
                Ok((tag, k)) => res == Ok::<u8, Error>(tag) && final(self).rest() == old(
                    self,
                ).rest().skip(k as int),
                Err(kind) => res matches Err(e) && e.0 == kind,
            },
    {
        let bytes = self.take(1)?;
        let tag = bytes[0];
        if tag > TAG_MAX {
            return Err(Error::invalid_tag(tag));
        }
        Ok(tag)
    }

    pub fn read_i8(&mut self) -> (res: Result<i8>)
        ensures
            final(self).depth() == old(self).depth(),
            final(self).opts() == old(self).opts(),
            final(self).wf() == old(self).wf(),
            match parse_int(old(self).rest(), 1) {
                Ok((v, k)) => (res matches Ok(x) && x as int == v) && final(self).rest() == old(
                    self,
                ).rest().skip(k as int),
                Err(kind) => res matches Err(e) && e.0 == kind,
            },
    {
        let bytes = self.take(1)?;
        let b = bytes[0];
        proof {
            reveal_with_fuel(be_uint, 2);
            reveal_with_fuel(crate::be::pow256, 2);
        }
        if b >= 128 {
            Ok((b as i16 - 256) as i8)
        } else {
            Ok(b as i8)
        }
    }

    pub fn read_i16(&mut self) -> (res: Result<i16>)
        ensures
            final(self).depth() == old(self).depth(),
            final(self).opts() == old(self).opts(),
            final(self).wf() == old(self).wf(),
            match parse_int(old(self).rest(), 2) {
                Ok((v, k)) => (res matches Ok(x) && x as int == v) && final(self).rest() == old(
                    self,
                ).rest().skip(k as int),
                Err(kind) => res matches Err(e) && e.0 == kind,
            },
    {
        let bytes = self.take(2)?;
        let array = [bytes[0], bytes[1]];
        assert(array@ =~= bytes@);
        Ok(I16Be::from_bytes(array).get())
    }

    pub fn read_i32(&mut self) -> (res: Result<i32>)
        ensures
            final(self).depth() == old(self).depth(),
            final(self).opts() == old(self).opts(),
            final(self).wf() == old(self).wf(),
            match parse_int(old(self).rest(), 4) {
                Ok((v, k)) => (res matches Ok(x) && x as int == v) && final(self).rest() == old(
                    self,
                ).rest().skip(k as int),
                Err(kind) => res matches Err(e) && e.0 == kind,
            },
    {
        let bytes = self.take(4)?;
        let array = [bytes[0], bytes[1], bytes[2], bytes[3]];
        assert(array@ =~= bytes@);
        Ok(I32Be::from_bytes(array).get())
    }

    pub fn read_i64(&mut self) -> (res: Result<i64>)
        ensures
            final(self).depth() == old(self).depth(),
            final(self).opts() == old(self).opts(),
            final(self).wf() == old(self).wf(),
            match parse_int(old(self).rest(), 8) {
                Ok((v, k)) => (res matches Ok(x) && x as int == v) && final(self).rest() == old(
                    self,
                ).rest().skip(k as int),
                Err(kind) => res matches Err(e) && e.0 == kind,
            },
    {
        let bytes = self.take(8)?;
        let array = [
            bytes[0],
            bytes[1],
            bytes[2],
            bytes[3],
            bytes[4],
            bytes[5],
            bytes[6],
            bytes[7],
        ];
        assert(array@ =~= bytes@);
        Ok(I64Be::from_bytes(array).get())
    }

    /// Reads a list's or array's `i32` length, which must be non-negative and
    /// within [`DeOpts::max_seq_len`].
    pub fn read_len(&mut self) -> (res: Result<usize>)
        ensures
            final(self).depth() == old(self).depth(),
            final(self).opts() == old(self).opts(),
            final(self).wf() == old(self).wf(),
            match parse_len(old(self).rest(), old(self).opts()) {
                Ok((len, k)) => res == Ok::<usize, Error>(len as usize) && final(self).rest() == old(
                    self,
                ).rest().skip(k as int),
                Err(kind) => res matches Err(e) && e.0 == kind,
            },
    {
        let len = self.read_i32()?;
        if len < 0 {
            return Err(Error::negative_len());
        }
        let len = len as usize;
        if len > self.opts.seq_limit() {
            return Err(Error::seq_too_long());
        }
        Ok(len)
    }

    /// Reads a list header: the element tag, then the `i32` length.
    pub fn read_list_header(&mut self) -> (res: Result<(u8, usize)>)
        ensures
            final(self).depth() == old(self).depth(),
            final(self).opts() == old(self).opts(),
            final(self).wf() == old(self).wf(),
            match parse_list_header(old(self).rest(), old(self).opts()) {
                Ok(((element, len), k)) => res == Ok::<(u8, usize), Error>((element, len as usize))
                    && final(self).rest() == old(self).rest().skip(k as int),
                Err(kind) => res matches Err(e) && e.0 == kind,
            },
    {
        let element = self.read_tag()?;
        let len = self.read_len()?;
        assert(old(self).rest().skip(1).skip(4) =~= old(self).rest().skip(5));
        Ok((element, len))
    }

    /// Reads `len` raw payload bytes, borrowed from the input.
    pub fn read_bytes(&mut self, len: usize) -> (res: Result<Cow<'de, [u8]>>)
        ensures
            final(self).depth() == old(self).depth(),
            final(self).opts() == old(self).opts(),
            final(self).wf() == old(self).wf(),
            match parse_bytes(old(self).rest(), len as nat) {
                Ok((bytes, k)) => (res matches Ok(Cow::Borrowed(b)) && b@ == bytes)
                    && final(self).rest() == old(self).rest().skip(k as int),
                Err(kind) => res matches Err(e) && e.0 == kind,
            },
    {
        let bytes = self.take(len)?;
        Ok(Cow::Borrowed(bytes))
    }

    /// `len` elements of `size` bytes each.
    pub fn take_elements(&mut self, len: usize, size: usize) -> (res: Result<&'de [u8]>)
        ensures
            final(self).depth() == old(self).depth(),
            final(self).opts() == old(self).opts(),
            final(self).wf() == old(self).wf(),
            match parse_elements(old(self).rest(), len as nat, size as nat) {
                Ok((bytes, k)) => (res matches Ok(b) && b@ == bytes) && final(self).rest() == old(
                    self,
                ).rest().skip(k as int),
                Err(kind) => res matches Err(e) && e.0 == kind,
            },
    {
        let n = match len.checked_mul(size) {
            Some(n) => n,
            None => return Err(Error::array_too_large()),
        };
        self.take(n)
    }

    /// Reads an array of `size`-byte elements: the checked length, then the
    /// elements' bytes, borrowed from the input.
    pub fn read_array(&mut self, size: usize) -> (res: Result<&'de [u8]>)
        ensures
            final(self).depth() == old(self).depth(),
            final(self).opts() == old(self).opts(),
            final(self).wf() == old(self).wf(),
            match parse_array(old(self).rest(), size as nat, old(self).opts()) {
                Ok((bytes, k)) => (res matches Ok(b) && b@ == bytes) && final(self).rest() == old(
                    self,
                ).rest().skip(k as int),
                Err(kind) => res matches Err(e) && e.0 == kind,
            },
    {
        let len = self.read_len()?;
        let bytes = self.take_elements(len, size)?;
        proof {
            let r = old(self).rest();
            if let Ok((_, n)) = parse_elements(r.skip(4), len as nat, size as nat) {
                assert(r.skip(4).skip(n as int) =~= r.skip(4 + n as int));
            }
        }
        Ok(bytes)
    }

    /// The bytes of a length-prefixed string, decoded by the caller.
    pub fn take_str_bytes(&mut self) -> (res: Result<&'de [u8]>)
        ensures
            final(self).depth() == old(self).depth(),
            final(self).opts() == old(self).opts(),
            final(self).wf() == old(self).wf(),
            match parse_str_bytes(old(self).rest()) {
                Ok((bytes, k)) => (res matches Ok(b) && b@ == bytes) && final(self).rest() == old(
                    self,
                ).rest().skip(k as int),
                Err(kind) => res matches Err(e) && e.0 == kind,
            },
    {
        let prefix = self.take(2)?;
        let len = U16Be::from_bytes([prefix[0], prefix[1]]).get();
        assert([prefix[0], prefix[1]]@ =~= prefix@);
        let bytes = self.take(len as usize)?;
        proof {
            let r = old(self).rest();
            assert(r.skip(2).take(len as int) =~= r.subrange(2, 2 + len as int));
            assert(r.skip(2).skip(len as int) =~= r.skip(2 + len as int));
        }
        Ok(bytes)
    }

    /// Skips a string without decoding it.
    pub fn skip_str(&mut self) -> (res: Result<()>)
        ensures
            final(self).depth() == old(self).depth(),
            final(self).opts() == old(self).opts(),
            final(self).wf() == old(self).wf(),
            match parse_str_bytes(old(self).rest()) {
                Ok((_, k)) => res is Ok && final(self).rest() == old(self).rest().skip(k as int),
                Err(kind) => res matches Err(e) && e.0 == kind,
            },
    {
        self.take_str_bytes()?;
        Ok(())
    }

    /// Reads a length-prefixed modified UTF-8 string, borrowing it from the
    /// input when it is plain UTF-8.
    pub fn read_str(&mut self) -> (res: Result<Cow<'de, str>>)
        ensures
            final(self).depth() == old(self).depth(),
            final(self).opts() == old(self).opts(),
            final(self).wf() == old(self).wf(),
            match parse_str(old(self).rest()) {
                Ok((text, k)) => (res matches Ok(t) && t@ == text) && final(self).rest() == old(
                    self,
                ).rest().skip(k as int),
                Err(kind) => res matches Err(e) && e.0 == kind,
            },
            (res matches Ok(Cow::Borrowed(_))) <==> (parse_str_bytes(old(self).rest()) matches Ok(
                (b, _),
            ) && valid_utf8(b)),
    {
        let bytes = self.take_str_bytes()?;
        match from_java_cesu8(bytes) {
            Ok(text) => Ok(text),
            Err(_) => Err(Error::nonunicode_string()),
        }
    }

    /// Reads a compound entry's name, which is encoded like a string.
    pub fn read_name(&mut self) -> (res: Result<Cow<'de, str>>)
        ensures
            final(self).depth() == old(self).depth(),
            final(self).opts() == old(self).opts(),
            final(self).wf() == old(self).wf(),
            match parse_str(old(self).rest()) {
                Ok((text, k)) => (res matches Ok(t) && t@ == text) && final(self).rest() == old(
                    self,
                ).rest().skip(k as int),
                Err(kind) => res matches Err(e) && e.0 == kind,
            },
    {
        self.read_str()
    }

    /// Skips a compound entry's name without decoding it.
    ///
    /// The root compound's name is skipped this way, so a document whose
    /// root name is not valid modified UTF-8 is still accepted.
    pub fn skip_name(&mut self) -> (res: Result<()>)
        ensures
            final(self).depth() == old(self).depth(),
            final(self).opts() == old(self).opts(),
            final(self).wf() == old(self).wf(),
            match parse_str_bytes(old(self).rest()) {
                Ok((_, k)) => res is Ok && final(self).rest() == old(self).rest().skip(k as int),
                Err(kind) => res matches Err(e) && e.0 == kind,
            },
    {
        self.skip_str()
    }

    /// Opens one more list or compound, refusing to go deeper than
    /// [`DeOpts::max_depth`]. Every [`enter`](Reader::enter) that succeeds
    /// is paired with a [`leave`](Reader::leave).
    pub fn enter(&mut self) -> (res: Result<()>)
        requires
            old(self).wf(),
        ensures
            final(self).opts() == old(self).opts(),
            final(self).rest() == old(self).rest(),
            old(self).depth() >= old(self).opts().max_depth ==> (res matches Err(e) && e.0
                == ErrorKind::TooDeep) && final(self).depth() == old(self).depth(),
            old(self).depth() < old(self).opts().max_depth ==> res is Ok && final(self).depth()
                == old(self).depth() + 1,
            final(self).wf(),
    {
        if self.depth >= self.opts.depth_limit() {
            return Err(Error::too_deep());
        }
        self.depth = self.depth + 1;
        Ok(())
    }

    /// Closes the list or compound the last [`enter`](Reader::enter) opened.
    pub fn leave(&mut self)
        requires
            old(self).depth() > 0,
            old(self).wf(),
        ensures
            final(self).opts() == old(self).opts(),
            final(self).rest() == old(self).rest(),
            final(self).depth() == old(self).depth() - 1,
            final(self).wf(),
    {
        self.depth = self.depth - 1;
    }

    /// Skips an array of `size`-byte elements.
    fn skip_array(&mut self, size: usize) -> (res: Result<()>)
        ensures
            final(self).depth() == old(self).depth(),
            final(self).opts() == old(self).opts(),
            final(self).wf() == old(self).wf(),
            match skip_array_len(old(self).rest(), size as nat) {
                Ok(k) => res is Ok && final(self).rest() == old(self).rest().skip(k as int),
                Err(kind) => res matches Err(e) && e.0 == kind,
            },
    {
        let len = self.read_i32()?;
        if len < 0 {
            return Err(Error::negative_len());
        }
        self.take_elements(len as usize, size)?;
        proof {
            let r = old(self).rest();
            if let Ok((_, n)) = parse_elements(r.skip(4), len as nat, size as nat) {
                assert(r.skip(4).skip(n as int) =~= r.skip(4 + n as int));
            }
        }
        Ok(())
    }

    /// Skips a value by its structure alone, decoding nothing.
    ///
    /// Unlike reading a value, lengths are not bounded by `max_seq_len`, and
    /// a negative list length skips no elements.
    pub fn skip_value(&mut self, tag: u8) -> (res: Result<()>)
        requires
            old(self).wf(),
        ensures
            final(self).depth() == old(self).depth(),
            final(self).opts() == old(self).opts(),
            final(self).wf(),
            match skip_len(tag, old(self).rest(), old(self).depth(), old(self).opts()) {
                Ok(k) => res is Ok && final(self).rest() == old(self).rest().skip(k as int),
                Err(kind) => res matches Err(e) && e.0 == kind,
            },
        decreases old(self).opts().max_depth - old(self).depth(), old(self).rest().len(), 0nat,
    {
        if tag == TAG_BYTE {
            self.take(1)?;
            Ok(())
        } else if tag == TAG_SHORT {
            self.take(2)?;
            Ok(())
        } else if tag == TAG_INT || tag == TAG_FLOAT {
            self.take(4)?;
            Ok(())
        } else if tag == TAG_LONG || tag == TAG_DOUBLE {
            self.take(8)?;
            Ok(())
        } else if tag == TAG_STRING {
            self.skip_str()
        } else if tag == TAG_BYTE_ARRAY {
            self.skip_array(1)
        } else if tag == TAG_INT_ARRAY {
            self.skip_array(4)
        } else if tag == TAG_LONG_ARRAY {
            self.skip_array(8)
        } else if tag == TAG_COMPOUND {
            if self.depth >= self.opts.depth_limit() {
                return Err(Error::too_deep());
            }
            self.depth = self.depth + 1;
            let result = self.skip_entries();
            self.depth = self.depth - 1;
            result
        } else if tag == TAG_LIST {
            let element = self.read_tag()?;
            let len = self.read_i32()?;
            assert(old(self).rest().skip(1).take(4) =~= old(self).rest().subrange(1, 5));
            assert(old(self).rest().skip(1).skip(4) =~= old(self).rest().skip(5));
            if self.depth >= self.opts.depth_limit() {
                return Err(Error::too_deep());
            }
            let count: u32 = if len < 0 { 0 } else { len as u32 };
            self.depth = self.depth + 1;
            let result = self.skip_elements(element, count);
            self.depth = self.depth - 1;
            proof {
                let r = old(self).rest();
                if let Ok(k) = skip_elements_len(element, count as nat, r.skip(5), self.depth() + 1, self.opts()) {
                    lemma_skip_elements_bound(element, count as nat, r.skip(5), self.depth() + 1, self.opts());
                    assert(r.skip(5).skip(k as int) =~= r.skip(5 + k as int));
                }
            }
            result
        } else {
            // fastnbt panics here, skipping a list of End with elements.
            Err(Error::list_of_end())
        }
    }

    /// Skips a compound's entries, up to and with its End tag.
    fn skip_entries(&mut self) -> (res: Result<()>)
        requires
            old(self).wf(),
        ensures
            final(self).depth() == old(self).depth(),
            final(self).opts() == old(self).opts(),
            final(self).wf(),
            match skip_entries_len(old(self).rest(), old(self).depth(), old(self).opts()) {
                Ok(k) => res is Ok && final(self).rest() == old(self).rest().skip(k as int),
                Err(kind) => res matches Err(e) && e.0 == kind,
            },
        decreases old(self).opts().max_depth - old(self).depth(), old(self).rest().len(), 1nat,
    {
        let ghost start = self.rest();
        let ghost depth = self.depth();
        let ghost opts = self.opts();
        let ghost mut used: nat = 0;
        assert(start.skip(0) =~= start);
        loop
            invariant
                self.wf(),
                self.depth() == depth,
                self.opts() == opts,
                depth == old(self).depth(),
                opts == old(self).opts(),
                start == old(self).rest(),
                used <= start.len(),
                self.rest() == start.skip(used as int),
                skip_entries_len(start, depth, opts) == after(used, skip_entries_len(self.rest(), depth, opts)),
            decreases self.rest().len(),
        {
            let ghost cur = self.rest();
            let tag = self.read_tag()?;
            if tag == TAG_END {
                assert(cur.skip(1) =~= start.skip((used + 1) as int));
                return Ok(());
            }
            self.skip_str()?;
            let ghost k = parse_str_bytes(cur.skip(1))->Ok_0.1;
            let ghost m: nat = 1 + k;
            assert(cur.skip(1).skip(k as int) =~= cur.skip(m as int));
            self.skip_value(tag)?;
            proof {
                let mid = cur.skip(m as int);
                let v = skip_len(tag, mid, depth, opts)->Ok_0;
                lemma_skip_len_bound(tag, mid, depth, opts);
                assert(mid.skip(v as int) =~= cur.skip(m + v as int));
                assert(cur.skip(m + v as int) =~= start.skip(used + m + v as int));
                used = used + m + v;
            }
        }
    }

    /// Skips `count` values of `element`.
    fn skip_elements(&mut self, element: u8, count: u32) -> (res: Result<()>)
        requires
            old(self).wf(),
        ensures
            final(self).depth() == old(self).depth(),
            final(self).opts() == old(self).opts(),
            final(self).wf(),
            match skip_elements_len(element, count as nat, old(self).rest(), old(self).depth(), old(self).opts()) {
                Ok(k) => res is Ok && final(self).rest() == old(self).rest().skip(k as int),
                Err(kind) => res matches Err(e) && e.0 == kind,
            },
        decreases old(self).opts().max_depth - old(self).depth(), old(self).rest().len(), count as nat + 1,
    {
        let ghost start = self.rest();
        let ghost depth = self.depth();
        let ghost opts = self.opts();
        let ghost mut used: nat = 0;
        assert(start.skip(0) =~= start);
        let mut i: u32 = 0;
        while i < count
            invariant
                i <= count,
                self.wf(),
                self.depth() == depth,
                self.opts() == opts,
                depth == old(self).depth(),
                opts == old(self).opts(),
                start == old(self).rest(),
                used <= start.len(),
                self.rest() == start.skip(used as int),
                skip_elements_len(element, count as nat, start, depth, opts) == after(
                    used,
                    skip_elements_len(element, (count - i) as nat, self.rest(), depth, opts),
                ),
            decreases count - i,
        {
            let ghost cur = self.rest();
            self.skip_value(element)?;
            proof {
                let v = skip_len(element, cur, depth, opts)->Ok_0;
                lemma_skip_len_bound(element, cur, depth, opts);
                assert(cur.skip(v as int) =~= start.skip(used + v as int));
                used = used + v;
            }
            i = i + 1;
        }
        assert(start.skip(used as int) == self.rest());
        Ok(())
    }
}

} // verus!
