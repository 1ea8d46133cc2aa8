//! The writing side of the serde data model.
//!
//! NBT writes a value's tag before the value's name, but serde only reveals
//! the type once the value itself is serialized. So the name, or a list's
//! length, is held back as a [`Header`] until then. The types here make
//! those decisions and write the bytes; the serde glue around them calls
//! one method per request.

use vstd::prelude::*;
use vstd::utf8::encode_utf8;

use crate::be::{be_encode, be_encode_signed, lemma_be_encode_split, pow256, I16Be, I32Be, I64Be, U16Be, U32Be, U64Be};
use crate::cesu8::{java_encode, to_java_cesu8};
use crate::de::{
    bytes_eq, parse_int_array_128, parse_open_map, parse_payload, parse_payload_bytes, PayloadView,
    BYTE_ARRAY_TOKEN, INT_ARRAY_TOKEN, LONG_ARRAY_TOKEN,
};
use crate::opts::DeOptsView;
use crate::read::{parse_str, parse_tag};
use crate::error::{Error, ErrorKind, Result};
use crate::tag::{
    TAG_BYTE, TAG_BYTE_ARRAY, TAG_COMPOUND, TAG_DOUBLE, TAG_END, TAG_FLOAT, TAG_INT, TAG_INT_ARRAY,
    TAG_LIST, TAG_LONG, TAG_LONG_ARRAY, TAG_SHORT, TAG_STRING,
};
use crate::write::{encode_len, encode_prefixed, encode_str, Writer};

verus! {

/// The array tag a compound key stands for, if its bytes are an array
/// token.
pub open spec fn array_tag_of(name: Seq<u8>) -> Option<u8> {
    if name == encode_utf8(BYTE_ARRAY_TOKEN@) {
        Some(TAG_BYTE_ARRAY)
    } else if name == encode_utf8(INT_ARRAY_TOKEN@) {
        Some(TAG_INT_ARRAY)
    } else if name == encode_utf8(LONG_ARRAY_TOKEN@) {
        Some(TAG_LONG_ARRAY)
    } else {
        None
    }
}

/// The array tag a compound key stands for, if it is an array token.
pub fn array_tag(name: &[u8]) -> (tag: Option<u8>)
    ensures
        tag == array_tag_of(name@),
{
    if bytes_eq(name, BYTE_ARRAY_TOKEN.as_bytes()) {
        Some(TAG_BYTE_ARRAY)
    } else if bytes_eq(name, INT_ARRAY_TOKEN.as_bytes()) {
        Some(TAG_INT_ARRAY)
    } else if bytes_eq(name, LONG_ARRAY_TOKEN.as_bytes()) {
        Some(TAG_LONG_ARRAY)
    } else {
        None
    }
}

/// What precedes a value, written once the value's tag is known.
pub enum Header {
    /// The root compound, which must be a compound, and its name if any.
    Root(Option<String>),
    /// A compound entry: the tag, then the already encoded name.
    Entry(Vec<u8>),
    /// A list: the element tag, then the number of elements.
    List { len: usize },
}

/// A [`Header`]'s contents.
pub enum HeaderView {
    Root(Option<Seq<char>>),
    Entry(Seq<u8>),
    List(usize),
}

impl View for Header {
    type V = HeaderView;

    open spec fn view(&self) -> HeaderView {
        match self {
            Header::Root(None) => HeaderView::Root(None),
            Header::Root(Some(name)) => HeaderView::Root(Some(name@)),
            Header::Entry(name) => HeaderView::Entry(name@),
            Header::List { len } => HeaderView::List(*len),
        }
    }
}

/// The view of an optional header.
pub open spec fn opt_header(h: Option<Header>) -> Option<HeaderView> {
    match h {
        Some(h) => Some(h@),
        None => None,
    }
}

/// `b`, then what `r` gives.
pub open spec fn prepend(b: u8, r: core::result::Result<Seq<u8>, ErrorKind>) -> core::result::Result<Seq<u8>, ErrorKind> {
    match r {
        Ok(s) => Ok(seq![b] + s),
        Err(k) => Err(k),
    }
}

/// The bytes a header is written as before a value of `tag`, or why it
/// cannot be.
pub open spec fn header_bytes(h: HeaderView, tag: u8) -> core::result::Result<Seq<u8>, ErrorKind> {
    match h {
        HeaderView::Root(name) => if tag != TAG_COMPOUND {
            Err(ErrorKind::NoRootCompound)
        } else {
            match name {
                None => Ok(seq![TAG_COMPOUND]),
                Some(n) => prepend(TAG_COMPOUND, encode_str(n)),
            }
        },
        HeaderView::Entry(name) => prepend(tag, encode_prefixed(name)),
        HeaderView::List(len) => prepend(tag, encode_len(len as nat)),
    }
}

/// What writing a header leaves behind when it fails: its tag, once the
/// tag is settled.
pub open spec fn header_partial(h: HeaderView, tag: u8) -> Seq<u8> {
    match h {
        HeaderView::Root(_) => if tag != TAG_COMPOUND {
            Seq::empty()
        } else {
            seq![TAG_COMPOUND]
        },
        _ => seq![tag],
    }
}

/// What a write that can fail gives: why it failed, if it did, and the
/// bytes it wrote either way.
pub open spec fn outcome(r: core::result::Result<Seq<u8>, ErrorKind>) -> (Option<ErrorKind>, Seq<u8>) {
    match r {
        Ok(b) => (None, b),
        Err(k) => (Some(k), Seq::empty()),
    }
}

/// What writing an optional header before a value of `tag` gives.
pub open spec fn header_outcome(h: Option<HeaderView>, tag: u8) -> (Option<ErrorKind>, Seq<u8>) {
    match h {
        None => (None, Seq::empty()),
        Some(h) => match header_bytes(h, tag) {
            Ok(b) => (None, b),
            Err(k) => (Some(k), header_partial(h, tag)),
        },
    }
}

/// `first`, then `second` unless `first` failed.
pub open spec fn and_then(first: (Option<ErrorKind>, Seq<u8>), second: (Option<ErrorKind>, Seq<u8>)) -> (Option<ErrorKind>, Seq<u8>) {
    if first.0 is Some {
        first
    } else {
        (second.0, first.1 + second.1)
    }
}

/// Whether `res` reports `e`: success for `None`, that error otherwise.
pub open spec fn reports<T>(res: Result<T>, e: Option<ErrorKind>) -> bool {
    match e {
        None => res is Ok,
        Some(k) => res matches Err(x) && x.0 == k,
    }
}

/// Writes a header before a value of `tag`.
pub fn write_header(writer: &mut Writer, header: Header, tag: u8) -> (res: Result<()>)
    ensures
        ({
            let (e, b) = header_outcome(Some(header@), tag);
            reports(res, e) && final(writer).bytes() == old(writer).bytes() + b
        }),
{
    match header {
        Header::Root(name) => {
            if tag != TAG_COMPOUND {
                assert(old(writer).bytes() + Seq::<u8>::empty() =~= old(writer).bytes());
                return Err(Error::no_root_compound());
            }
            writer.write_tag(TAG_COMPOUND)?;
            if let Some(name) = name {
                let ghost mid = writer.bytes();
                writer.write_str(name.as_str())?;
                assert(mid + (encode_str(name@)->Ok_0) =~= old(writer).bytes() + (seq![TAG_COMPOUND]
                    + encode_str(name@)->Ok_0));
            }
            assert(old(writer).bytes().push(TAG_COMPOUND) =~= old(writer).bytes() + seq![TAG_COMPOUND]);
        },
        Header::Entry(name) => {
            writer.write_tag(tag)?;
            let ghost mid = writer.bytes();
            writer.write_prefixed(name.as_slice())?;
            assert(mid + (encode_prefixed(name@)->Ok_0) =~= old(writer).bytes() + (seq![tag]
                + encode_prefixed(name@)->Ok_0));
            assert(old(writer).bytes().push(tag) =~= old(writer).bytes() + seq![tag]);
        },
        Header::List { len } => {
            writer.write_tag(tag)?;
            let ghost mid = writer.bytes();
            writer.write_len(len)?;
            assert(mid + (encode_len(len as nat)->Ok_0) =~= old(writer).bytes() + (seq![tag]
                + encode_len(len as nat)->Ok_0));
            assert(old(writer).bytes().push(tag) =~= old(writer).bytes() + seq![tag]);
        },
    }
    Ok(())
}

/// A [`Delayed`]'s contents: the header still to write, and whether the
/// value is a list element.
pub struct DelayedView {
    pub header: Option<HeaderView>,
    pub in_list: bool,
}

/// A value whose header has not been written yet.
pub struct Delayed {
    header: Option<Header>,
    /// Whether this is a list element, which cannot be left out.
    in_list: bool,
}

impl View for Delayed {
    type V = DelayedView;

    closed spec fn view(&self) -> DelayedView {
        DelayedView { header: opt_header(self.header), in_list: self.in_list }
    }
}

/// What writing a value of `tag` whose payload write gives `body` gives,
/// after the header `d` still holds.
pub open spec fn delayed_outcome(d: DelayedView, tag: u8, body: (Option<ErrorKind>, Seq<u8>)) -> (Option<ErrorKind>, Seq<u8>) {
    and_then(header_outcome(d.header, tag), body)
}

/// The bytes of a list that is empty: End as the element tag, and length 0.
pub open spec fn empty_list_bytes() -> Seq<u8> {
    seq![TAG_END] + be_encode(0, 4)
}

/// The bytes `bytes` are written as in a list of bytes, after its header.
pub open spec fn byte_list_outcome(bytes: Seq<u8>) -> (Option<ErrorKind>, Seq<u8>) {
    match encode_len(bytes.len()) {
        Ok(len) => (None, seq![TAG_BYTE] + len + bytes),
        Err(k) => (Some(k), seq![TAG_BYTE]),
    }
}

impl Delayed {
    /// The value after `header`; `in_list` for a list element.
    pub fn new(header: Option<Header>, in_list: bool) -> (d: Self)
        ensures
            d@ == (DelayedView { header: opt_header(header), in_list }),
    {
        Self { header, in_list }
    }

    /// Writes the header, if it has not been written, before a value of
    /// `tag`.
    fn write_header(&mut self, writer: &mut Writer, tag: u8) -> (res: Result<()>)
        ensures
            final(self)@.header is None,
            final(self)@.in_list == old(self)@.in_list,
            ({
                let (e, b) = header_outcome(old(self)@.header, tag);
                reports(res, e) && final(writer).bytes() == old(writer).bytes() + b
            }),
    {
        match self.header.take() {
            Some(header) => write_header(writer, header, tag),
            None => {
                assert(old(writer).bytes() + Seq::<u8>::empty() =~= old(writer).bytes());
                Ok(())
            },
        }
    }

    /// Writes a value of `tag` whose payload is `payload`.
    pub fn scalar(self, writer: &mut Writer, tag: u8, payload: &[u8]) -> (res: Result<()>)
        ensures
            ({
                let (e, b) = delayed_outcome(self@, tag, (None, payload@));
                reports(res, e) && final(writer).bytes() == old(writer).bytes() + b
            }),
    {
        let mut this = self;
        this.write_header(writer, tag)?;
        let ghost mid = writer.bytes();
        writer.write_bytes(payload)?;
        assert(mid + payload@ =~= old(writer).bytes() + (header_outcome(self@.header, tag).1 + payload@));
        Ok(())
    }

    /// A bool is a byte: 1 for true, 0 for false.
    pub fn serialize_bool(self, writer: &mut Writer, v: bool) -> (res: Result<()>)
        ensures
            ({
                let (e, b) = delayed_outcome(self@, TAG_BYTE, (None, seq![if v { 1u8 } else { 0u8 }]));
                reports(res, e) && final(writer).bytes() == old(writer).bytes() + b
            }),
    {
        self.serialize_u8(writer, if v { 1 } else { 0 })
    }

    pub fn serialize_i8(self, writer: &mut Writer, v: i8) -> (res: Result<()>)
        ensures
            ({
                let (e, b) = delayed_outcome(self@, TAG_BYTE, (None, be_encode_signed(v as int, 1)));
                reports(res, e) && final(writer).bytes() == old(writer).bytes() + b
            }),
    {
        let u: u8 = if v < 0 { (v as i16 + 256) as u8 } else { v as u8 };
        proof {
            reveal_with_fuel(be_encode, 2);
            reveal_with_fuel(pow256, 2);
        }
        let bytes = [u];
        assert(bytes@ =~= be_encode_signed(v as int, 1));
        self.scalar(writer, TAG_BYTE, &bytes)
    }

    pub fn serialize_i16(self, writer: &mut Writer, v: i16) -> (res: Result<()>)
        ensures
            ({
                let (e, b) = delayed_outcome(self@, TAG_SHORT, (None, be_encode_signed(v as int, 2)));
                reports(res, e) && final(writer).bytes() == old(writer).bytes() + b
            }),
    {
        let bytes = I16Be::new(v);
        self.scalar(writer, TAG_SHORT, bytes.as_bytes())
    }

    pub fn serialize_i32(self, writer: &mut Writer, v: i32) -> (res: Result<()>)
        ensures
            ({
                let (e, b) = delayed_outcome(self@, TAG_INT, (None, be_encode_signed(v as int, 4)));
                reports(res, e) && final(writer).bytes() == old(writer).bytes() + b
            }),
    {
        let bytes = I32Be::new(v);
        self.scalar(writer, TAG_INT, bytes.as_bytes())
    }

    pub fn serialize_i64(self, writer: &mut Writer, v: i64) -> (res: Result<()>)
        ensures
            ({
                let (e, b) = delayed_outcome(self@, TAG_LONG, (None, be_encode_signed(v as int, 8)));
                reports(res, e) && final(writer).bytes() == old(writer).bytes() + b
            }),
    {
        let bytes = I64Be::new(v);
        self.scalar(writer, TAG_LONG, bytes.as_bytes())
    }

    pub fn serialize_u8(self, writer: &mut Writer, v: u8) -> (res: Result<()>)
        ensures
            ({
                let (e, b) = delayed_outcome(self@, TAG_BYTE, (None, seq![v]));
                reports(res, e) && final(writer).bytes() == old(writer).bytes() + b
            }),
    {
        let bytes = [v];
        assert(bytes@ =~= seq![v]);
        self.scalar(writer, TAG_BYTE, &bytes)
    }

    pub fn serialize_u16(self, writer: &mut Writer, v: u16) -> (res: Result<()>)
        ensures
            ({
                let (e, b) = delayed_outcome(self@, TAG_SHORT, (None, be_encode(v as nat, 2)));
                reports(res, e) && final(writer).bytes() == old(writer).bytes() + b
            }),
    {
        let bytes = U16Be::new(v);
        self.scalar(writer, TAG_SHORT, bytes.as_bytes())
    }

    pub fn serialize_u32(self, writer: &mut Writer, v: u32) -> (res: Result<()>)
        ensures
            ({
                let (e, b) = delayed_outcome(self@, TAG_INT, (None, be_encode(v as nat, 4)));
                reports(res, e) && final(writer).bytes() == old(writer).bytes() + b
            }),
    {
        let bytes = U32Be::new(v);
        self.scalar(writer, TAG_INT, bytes.as_bytes())
    }

    pub fn serialize_u64(self, writer: &mut Writer, v: u64) -> (res: Result<()>)
        ensures
            ({
                let (e, b) = delayed_outcome(self@, TAG_LONG, (None, be_encode(v as nat, 8)));
                reports(res, e) && final(writer).bytes() == old(writer).bytes() + b
            }),
    {
        let bytes = U64Be::new(v);
        self.scalar(writer, TAG_LONG, bytes.as_bytes())
    }

    /// A `u128` is an int array of four ints, most significant first, as a
    /// UUID is stored.
    pub fn serialize_u128(self, writer: &mut Writer, v: u128) -> (res: Result<()>)
        ensures
            ({
                let (e, b) = delayed_outcome(self@, TAG_INT_ARRAY, (None, be_encode(4, 4) + be_encode(v as nat, 16)));
                reports(res, e) && final(writer).bytes() == old(writer).bytes() + b
            }),
    {
        let mut this = self;
        this.write_header(writer, TAG_INT_ARRAY)?;
        let ghost mid = writer.bytes();
        let count = U32Be::new(4);
        writer.write_bytes(count.as_bytes())?;
        let hi = U64Be::new((v >> 64) as u64);
        let lo = U64Be::new(v as u64);
        writer.write_bytes(hi.as_bytes())?;
        writer.write_bytes(lo.as_bytes())?;
        proof {
            reveal_with_fuel(pow256, 9);
            assert(pow256(8) == 0x1_0000_0000_0000_0000);
            assert((v >> 64) as u64 == v as nat / 0x1_0000_0000_0000_0000) by (bit_vector);
            assert(v as u64 == v as nat % 0x1_0000_0000_0000_0000) by (bit_vector);
            lemma_be_encode_split(v as nat, 8, 8);
            assert(mid + be_encode(4, 4) + be_encode((v >> 64) as u64 as nat, 8) + be_encode(
                v as u64 as nat,
                8,
            ) =~= old(writer).bytes() + (header_outcome(self@.header, TAG_INT_ARRAY).1 + (be_encode(
                4,
                4,
            ) + be_encode(v as nat, 16))));
        }
        Ok(())
    }

    /// An `i128` is the bits of a `u128`.
    pub fn serialize_i128(self, writer: &mut Writer, v: i128) -> (res: Result<()>)
        ensures
            ({
                let (e, b) = delayed_outcome(self@, TAG_INT_ARRAY, (None, be_encode(4, 4) + be_encode_signed(v as int, 16)));
                reports(res, e) && final(writer).bytes() == old(writer).bytes() + b
            }),
    {
        proof {
            reveal_with_fuel(pow256, 17);
            assert(pow256(16) == 0x1_0000_0000_0000_0000_0000_0000_0000_0000);
            assert(v < 0 ==> (v as u128) as int == v + 0x1_0000_0000_0000_0000_0000_0000_0000_0000) by (bit_vector);
            assert(v >= 0 ==> (v as u128) as int == v) by (bit_vector);
        }
        self.serialize_u128(writer, v as u128)
    }

    /// A `char` is its scalar value, as a `TAG_Int`.
    pub fn serialize_char(self, writer: &mut Writer, v: char) -> (res: Result<()>)
        ensures
            ({
                let (e, b) = delayed_outcome(self@, TAG_INT, (None, be_encode(v as nat, 4)));
                reports(res, e) && final(writer).bytes() == old(writer).bytes() + b
            }),
    {
        self.serialize_u32(writer, v as u32)
    }

    /// A string, in modified UTF-8 after its `u16` length.
    pub fn serialize_str(self, writer: &mut Writer, v: &str) -> (res: Result<()>)
        ensures
            ({
                let (e, b) = delayed_outcome(self@, TAG_STRING, outcome(encode_str(v@)));
                reports(res, e) && final(writer).bytes() == old(writer).bytes() + b
            }),
    {
        let mut this = self;
        this.write_header(writer, TAG_STRING)?;
        let ghost mid = writer.bytes();
        let r = writer.write_str(v);
        assert(mid + outcome(encode_str(v@)).1 =~= old(writer).bytes() + (header_outcome(self@.header, TAG_STRING).1 + outcome(encode_str(v@)).1));
        r
    }

    /// A unit enum variant is its name, as a string.
    pub fn serialize_unit_variant(self, writer: &mut Writer, variant: &str) -> (res: Result<()>)
        ensures
            ({
                let (e, b) = delayed_outcome(self@, TAG_STRING, outcome(encode_str(variant@)));
                reports(res, e) && final(writer).bytes() == old(writer).bytes() + b
            }),
    {
        self.serialize_str(writer, variant)
    }

    /// Bytes are a list of bytes, since NBT has no dedicated type for them.
    pub fn serialize_bytes(self, writer: &mut Writer, v: &[u8]) -> (res: Result<()>)
        ensures
            ({
                let (e, b) = delayed_outcome(self@, TAG_LIST, byte_list_outcome(v@));
                reports(res, e) && final(writer).bytes() == old(writer).bytes() + b
            }),
    {
        let mut this = self;
        this.write_header(writer, TAG_LIST)?;
        let ghost mid = writer.bytes();
        writer.write_tag(TAG_BYTE)?;
        let r = writer.write_len(v.len());
        if r.is_err() {
            assert(mid.push(TAG_BYTE) =~= old(writer).bytes() + (header_outcome(self@.header, TAG_LIST).1 + seq![TAG_BYTE]));
            return r;
        }
        writer.write_bytes(v)?;
        assert(mid.push(TAG_BYTE) + encode_len(v@.len())->Ok_0 + v@ =~= old(writer).bytes() + (header_outcome(self@.header, TAG_LIST).1 + (seq![TAG_BYTE] + encode_len(v@.len())->Ok_0 + v@)));
        Ok(())
    }

    /// A tuple of `len` elements is a list; its header is written with the
    /// first element, whose tag it takes, and an empty one is written as a
    /// list of End at once.
    pub fn serialize_tuple(self, writer: &mut Writer, len: usize) -> (res: Result<List>)
        ensures
            ({
                let (e, b) = delayed_outcome(self@, TAG_LIST, (None, if len == 0 { empty_list_bytes() } else { Seq::empty() }));
                reports(res, e) && final(writer).bytes() == old(writer).bytes() + b
                    && (res matches Ok(list) ==> list@ == (len, true))
            }),
    {
        let mut this = self;
        this.write_header(writer, TAG_LIST)?;
        let ghost mid = writer.bytes();
        if len == 0 {
            writer.write_tag(TAG_END)?;
            let zero = U32Be::new(0);
            writer.write_bytes(zero.as_bytes())?;
            assert(mid.push(TAG_END) + be_encode(0, 4) =~= old(writer).bytes() + (header_outcome(self@.header, TAG_LIST).1 + empty_list_bytes()));
        } else {
            assert(mid =~= old(writer).bytes() + (header_outcome(self@.header, TAG_LIST).1 + Seq::<u8>::empty()));
        }
        Ok(List { len, first: true })
    }

    /// A sequence is a tuple of its length, which must be known up front.
    pub fn serialize_seq(self, writer: &mut Writer, len: Option<usize>) -> (res: Result<List>)
        ensures
            len is None ==> (res matches Err(e) && e.0 == ErrorKind::UnknownLen) && final(writer).bytes() == old(writer).bytes(),
            len matches Some(n) ==> ({
                let (e, b) = delayed_outcome(self@, TAG_LIST, (None, if n == 0 { empty_list_bytes() } else { Seq::empty() }));
                reports(res, e) && final(writer).bytes() == old(writer).bytes() + b
                    && (res matches Ok(list) ==> list@ == (n, true))
            }),
    {
        match len {
            Some(n) => self.serialize_tuple(writer, n),
            None => Err(Error::unknown_len()),
        }
    }

    /// A map or struct is a compound, whose header waits for its first
    /// entry.
    pub fn serialize_map(self) -> (compound: Compound)
        ensures
            compound@ == (CompoundView { header: self@.header, key: None, closed_by_end: true }),
    {
        Compound::new(self.header)
    }

    /// `None` leaves a compound entry out; lists have no way to.
    pub fn serialize_none(self) -> (res: Result<()>)
        ensures
            self@.in_list ==> (res matches Err(e) && e.0 == ErrorKind::NoneInList),
            !self@.in_list ==> res is Ok,
    {
        if self.in_list {
            Err(Error::none_in_list())
        } else {
            Ok(())
        }
    }

    /// A unit has no NBT spelling.
    pub fn serialize_unit(self) -> (res: Result<()>)
        ensures
            res matches Err(e) && e.0 == ErrorKind::Unit,
    {
        Err(Error::unit())
    }

    /// Only unit enum variants have an NBT spelling.
    pub fn serialize_variant(self) -> (res: Result<()>)
        ensures
            res matches Err(e) && e.0 == ErrorKind::Variant,
    {
        Err(Error::variant())
    }
}

/// The elements of a list being serialized.
///
/// Only the first element writes the list header, so a list whose elements
/// have different types produces the same malformed NBT fastnbt does.
pub struct List {
    len: usize,
    first: bool,
}

impl View for List {
    type V = (usize, bool);

    /// The length, and whether no element has been written.
    closed spec fn view(&self) -> (usize, bool) {
        (self.len, self.first)
    }
}

impl List {
    /// The next element, which writes the list's header if it is the first.
    pub fn next_element(&self) -> (d: Delayed)
        ensures
            d@ == (DelayedView {
                header: if self@.1 { Some(HeaderView::List(self@.0)) } else { None },
                in_list: true,
            }),
    {
        let header = if self.first { Some(Header::List { len: self.len }) } else { None };
        Delayed { header, in_list: true }
    }

    /// Records that an element has been written.
    pub fn element_written(&mut self)
        ensures
            final(self)@ == (old(self)@.0, false),
    {
        self.first = false;
    }
}

/// A [`Compound`]'s contents: its header until the first entry reveals the
/// tag, the key waiting for its value, and whether an End tag closes it.
pub struct CompoundView {
    pub header: Option<HeaderView>,
    pub key: Option<Seq<u8>>,
    pub closed_by_end: bool,
}

/// The entries of a compound being serialized.
///
/// An entry keyed by an array token turns the whole compound into that
/// array instead, the way fastnbt's array types expect.
pub struct Compound {
    /// The compound's own header, until its first entry reveals the tag.
    header: Option<Header>,
    key: Option<Vec<u8>>,
    /// Whether an End tag closes this, which an array does not have.
    closed_by_end: bool,
}

impl View for Compound {
    type V = CompoundView;

    closed spec fn view(&self) -> CompoundView {
        CompoundView {
            header: opt_header(self.header),
            key: match self.key {
                Some(k) => Some(k@),
                None => None,
            },
            closed_by_end: self.closed_by_end,
        }
    }
}

/// Where a compound entry's value goes: the payload of the array the
/// compound turned out to be, or an entry whose header waits for the value.
pub enum ValueTarget {
    Array(u8),
    Entry(Delayed),
}

impl Compound {
    fn new(header: Option<Header>) -> (c: Self)
        ensures
            c@ == (CompoundView { header: opt_header(header), key: None, closed_by_end: true }),
    {
        Self { header, key: None, closed_by_end: true }
    }

    /// Holds an entry's encoded name until its value arrives.
    pub fn serialize_key(&mut self, name: Vec<u8>)
        ensures
            final(self)@ == (CompoundView { key: Some(name@), ..old(self)@ }),
    {
        self.key = Some(name);
    }

    /// Starts the value of the entry whose key was given last: an array
    /// token turns the compound into that array, any other name makes an
    /// entry. The compound's own header is written first, if it has not
    /// been.
    pub fn serialize_value(&mut self, writer: &mut Writer) -> (res: Result<ValueTarget>)
        ensures
            old(self)@.key is None ==> (res matches Err(e) && e.0 == ErrorKind::ValueBeforeKey)
                && final(self)@ == old(self)@ && final(writer).bytes() == old(writer).bytes(),
            old(self)@.key matches Some(name) ==> ({
                let array = array_tag_of(name);
                let tag = match array {
                    Some(t) => t,
                    None => TAG_COMPOUND,
                };
                let (e, b) = header_outcome(old(self)@.header, tag);
                &&& final(writer).bytes() == old(writer).bytes() + b
                &&& final(self)@.key is None
                &&& final(self)@.header is None
                &&& reports(res, e)
                &&& e is Some ==> final(self)@.closed_by_end == old(self)@.closed_by_end
                &&& e is None ==> match array {
                    Some(t) => (res matches Ok(ValueTarget::Array(x)) && x == t) && !final(self)@.closed_by_end,
                    None => (res matches Ok(ValueTarget::Entry(d)) && d@ == (DelayedView {
                        header: Some(HeaderView::Entry(name)),
                        in_list: false,
                    })) && final(self)@.closed_by_end == old(self)@.closed_by_end,
                }
            }),
    {
        let name = match self.key.take() {
            Some(name) => name,
            None => return Err(Error::value_before_key()),
        };
        let array = array_tag(name.as_slice());
        let tag = match array {
            Some(t) => t,
            None => TAG_COMPOUND,
        };
        match self.header.take() {
            Some(header) => write_header(writer, header, tag)?,
            None => {
                assert(old(writer).bytes() + Seq::<u8>::empty() =~= old(writer).bytes());
            },
        }
        match array {
            Some(t) => {
                self.closed_by_end = false;
                Ok(ValueTarget::Array(t))
            },
            None => Ok(ValueTarget::Entry(Delayed { header: Some(Header::Entry(name)), in_list: false })),
        }
    }

    /// Closes the compound: its header, if no entry has written it, and
    /// the End tag, unless it turned into an array.
    pub fn end(self, writer: &mut Writer) -> (res: Result<()>)
        ensures
            ({
                let (e, b) = if self@.closed_by_end {
                    and_then(header_outcome(self@.header, TAG_COMPOUND), (None, seq![TAG_END]))
                } else {
                    (None, Seq::empty())
                };
                reports(res, e) && final(writer).bytes() == old(writer).bytes() + b
            }),
    {
        if self.closed_by_end {
            match self.header {
                Some(header) => write_header(writer, header, TAG_COMPOUND)?,
                None => {
                    assert(old(writer).bytes() + Seq::<u8>::empty() =~= old(writer).bytes());
                },
            }
            let ghost mid = writer.bytes();
            writer.write_end()?;
            assert(mid.push(TAG_END) =~= old(writer).bytes() + (header_outcome(self@.header, TAG_COMPOUND).1 + seq![TAG_END]));
        } else {
            assert(old(writer).bytes() + Seq::<u8>::empty() =~= old(writer).bytes());
        }
        Ok(())
    }
}

/// Serializes the root of a document, which must be a compound.
pub struct Serializer {
    /// The root compound's name, or `None` to leave it out entirely.
    root_name: Option<String>,
}

impl View for Serializer {
    type V = Option<Seq<char>>;

    closed spec fn view(&self) -> Option<Seq<char>> {
        match self.root_name {
            Some(n) => Some(n@),
            None => None,
        }
    }
}

impl Serializer {
    /// The root of a document whose compound is named `root_name`, or has
    /// no name at all for `None`.
    pub fn new(root_name: Option<String>) -> (s: Self)
        ensures
            s@ == match root_name {
                Some(n) => Some(n@),
                None => None::<Seq<char>>,
            },
    {
        Self { root_name }
    }

    /// The root compound, which takes the name.
    pub fn serialize_map(&mut self) -> (compound: Compound)
        ensures
            compound@ == (CompoundView { header: Some(HeaderView::Root(old(self)@)), key: None, closed_by_end: true }),
            final(self)@ is None,
    {
        let name = self.root_name.take();
        Compound::new(Some(Header::Root(name)))
    }
}

/// Writes the payload of an array of `tag` that arrives as bytes: the
/// element count, then the bytes as they are, even a partial element.
pub fn serialize_array_bytes(writer: &mut Writer, tag: u8, v: &[u8]) -> (res: Result<()>)
    ensures
        ({
            let stride: nat = if tag == TAG_INT_ARRAY { 4 } else if tag == TAG_LONG_ARRAY { 8 } else { 1 };
            match encode_len(v@.len() / stride) {
                Ok(len) => res is Ok && final(writer).bytes() == old(writer).bytes() + len + v@,
                Err(k) => (res matches Err(e) && e.0 == k) && final(writer).bytes() == old(writer).bytes(),
            }
        }),
{
    let stride: usize = if tag == TAG_INT_ARRAY { 4 } else if tag == TAG_LONG_ARRAY { 8 } else { 1 };
    writer.write_len(v.len() / stride)?;
    writer.write_bytes(v)?;
    Ok(())
}

/// A compound key's bytes: the name in modified UTF-8.
pub fn name_bytes(v: &str) -> (name: Vec<u8>)
    ensures
        name@ == java_encode(v@),
{
    let mut name: Vec<u8> = Vec::new();
    match to_java_cesu8(v) {
        std::borrow::Cow::Borrowed(bytes) => crate::write::append_bytes(&mut name, bytes),
        std::borrow::Cow::Owned(bytes) => crate::write::append_bytes(&mut name, bytes.as_slice()),
    }
    assert(name@ =~= java_encode(v@));
    name
}

/// The bytes an `n`-byte two's complement number is written as, after its
/// header, read back on the serde side as that number.
proof fn lemma_serde_int(v: int, n: nat, rest: Seq<u8>)
    requires
        n > 0,
        -pow256(n) <= 2 * v < pow256(n),
    ensures
        crate::read::parse_int(be_encode_signed(v, n) + rest, n) == Ok::<(int, nat), ErrorKind>((v, n)),
{
    crate::be::lemma_be_signed_encode_decode(v, n);
    let e = be_encode_signed(v, n);
    assert((e + rest).take(n as int) =~= e);
}

/// Every integer the serializer writes reads back, on the serde side, as
/// that integer, taking exactly its bytes.
pub proof fn lemma_serde_integers_round_trip(rest: Seq<u8>, depth: nat, opts: DeOptsView)
    ensures
        forall|v: i8|
            parse_payload(TAG_BYTE, #[trigger] be_encode_signed(v as int, 1) + rest, depth, opts) == Ok::<
                (PayloadView, nat),
                ErrorKind,
            >((PayloadView::Byte(v as int), 1)),
        forall|v: i16|
            parse_payload(TAG_SHORT, #[trigger] be_encode_signed(v as int, 2) + rest, depth, opts) == Ok::<
                (PayloadView, nat),
                ErrorKind,
            >((PayloadView::Short(v as int), 2)),
        forall|v: i32|
            parse_payload(TAG_INT, #[trigger] be_encode_signed(v as int, 4) + rest, depth, opts) == Ok::<
                (PayloadView, nat),
                ErrorKind,
            >((PayloadView::Int(v as int), 4)),
        forall|v: i64|
            parse_payload(TAG_LONG, #[trigger] be_encode_signed(v as int, 8) + rest, depth, opts) == Ok::<
                (PayloadView, nat),
                ErrorKind,
            >((PayloadView::Long(v as int), 8)),
{
    reveal_with_fuel(pow256, 9);
    assert forall|v: i8| parse_payload(TAG_BYTE, #[trigger] be_encode_signed(v as int, 1) + rest, depth, opts)
        == Ok::<(PayloadView, nat), ErrorKind>((PayloadView::Byte(v as int), 1)) by {
        lemma_serde_int(v as int, 1, rest);
    }
    assert forall|v: i16| parse_payload(TAG_SHORT, #[trigger] be_encode_signed(v as int, 2) + rest, depth, opts)
        == Ok::<(PayloadView, nat), ErrorKind>((PayloadView::Short(v as int), 2)) by {
        lemma_serde_int(v as int, 2, rest);
    }
    assert forall|v: i32| parse_payload(TAG_INT, #[trigger] be_encode_signed(v as int, 4) + rest, depth, opts)
        == Ok::<(PayloadView, nat), ErrorKind>((PayloadView::Int(v as int), 4)) by {
        lemma_serde_int(v as int, 4, rest);
    }
    assert forall|v: i64| parse_payload(TAG_LONG, #[trigger] be_encode_signed(v as int, 8) + rest, depth, opts)
        == Ok::<(PayloadView, nat), ErrorKind>((PayloadView::Long(v as int), 8)) by {
        lemma_serde_int(v as int, 8, rest);
    }
}

/// A float or a double reads, on the serde side, as exactly the four or
/// eight big-endian bytes that follow its tag, taking just those bytes:
/// what the writer wrote for it, whatever follows.
pub proof fn lemma_serde_floats_round_trip(bytes: Seq<u8>, rest: Seq<u8>, depth: nat, opts: DeOptsView)
    ensures
        bytes.len() == 4 ==> parse_payload(TAG_FLOAT, bytes + rest, depth, opts) == Ok::<(PayloadView, nat), ErrorKind>(
            (PayloadView::Float(bytes), 4),
        ),
        bytes.len() == 8 ==> parse_payload(TAG_DOUBLE, bytes + rest, depth, opts) == Ok::<(PayloadView, nat), ErrorKind>(
            (PayloadView::Double(bytes), 8),
        ),
{
    assert((bytes + rest).take(bytes.len() as int) =~= bytes);
}

/// An integer spelled in `n` bytes reads, on the serde side, as a bool
/// that is true exactly when the integer is not zero, taking its `n` bytes.
proof fn lemma_serde_bool_int(v: int, n: nat, rest: Seq<u8>)
    requires
        n > 0,
        -pow256(n) <= 2 * v < pow256(n),
    ensures
        n <= (be_encode_signed(v, n) + rest).len(),
        (exists|i: int| 0 <= i < n && (be_encode_signed(v, n) + rest)[i] != 0) <==> v != 0,
{
    crate::be::lemma_be_signed_encode_decode(v, n);
    let e = be_encode_signed(v, n);
    let all = e + rest;
    crate::be::lemma_be_uint_zero(e);
    crate::be::lemma_be_uint_bound(e);
    if exists|i: int| 0 <= i < n && all[i] != 0 {
        let i = choose|i: int| 0 <= i < n && all[i] != 0;
        assert(e[i] == all[i]);
    }
    if v != 0 {
        let i = choose|i: int| 0 <= i < e.len() && e[i] != 0;
        assert(all[i] == e[i]);
    }
}

/// Any integer reads, on the serde side, as a bool: zero is false and
/// every other value true, taking the integer's bytes, whatever follows.
pub proof fn lemma_serde_bools_from_integers(rest: Seq<u8>)
    ensures
        forall|v: i8|
            crate::de::parse_bool(TAG_BYTE, #[trigger] be_encode_signed(v as int, 1) + rest) == Ok::<
                (Option<bool>, nat),
                ErrorKind,
            >((Some(v != 0), 1)),
        forall|v: i16|
            crate::de::parse_bool(TAG_SHORT, #[trigger] be_encode_signed(v as int, 2) + rest) == Ok::<
                (Option<bool>, nat),
                ErrorKind,
            >((Some(v != 0), 2)),
        forall|v: i32|
            crate::de::parse_bool(TAG_INT, #[trigger] be_encode_signed(v as int, 4) + rest) == Ok::<
                (Option<bool>, nat),
                ErrorKind,
            >((Some(v != 0), 4)),
        forall|v: i64|
            crate::de::parse_bool(TAG_LONG, #[trigger] be_encode_signed(v as int, 8) + rest) == Ok::<
                (Option<bool>, nat),
                ErrorKind,
            >((Some(v != 0), 8)),
{
    reveal_with_fuel(pow256, 9);
    assert forall|v: i8| crate::de::parse_bool(TAG_BYTE, #[trigger] be_encode_signed(v as int, 1) + rest)
        == Ok::<(Option<bool>, nat), ErrorKind>((Some(v != 0), 1)) by {
        lemma_serde_bool_int(v as int, 1, rest);
    }
    assert forall|v: i16| crate::de::parse_bool(TAG_SHORT, #[trigger] be_encode_signed(v as int, 2) + rest)
        == Ok::<(Option<bool>, nat), ErrorKind>((Some(v != 0), 2)) by {
        lemma_serde_bool_int(v as int, 2, rest);
    }
    assert forall|v: i32| crate::de::parse_bool(TAG_INT, #[trigger] be_encode_signed(v as int, 4) + rest)
        == Ok::<(Option<bool>, nat), ErrorKind>((Some(v != 0), 4)) by {
        lemma_serde_bool_int(v as int, 4, rest);
    }
    assert forall|v: i64| crate::de::parse_bool(TAG_LONG, #[trigger] be_encode_signed(v as int, 8) + rest)
        == Ok::<(Option<bool>, nat), ErrorKind>((Some(v != 0), 8)) by {
        lemma_serde_bool_int(v as int, 8, rest);
    }
}

/// A list's header, its element tag then its length, reads on the serde
/// side as that element tag and that many elements to come, taking its five
/// bytes and opening a level, whatever follows.
pub proof fn lemma_serde_list_header_round_trip(element: u8, len: nat, rest: Seq<u8>, depth: nat, opts: DeOptsView)
    requires
        element <= crate::tag::TAG_MAX,
        element == TAG_END ==> len == 0,
        encode_len(len) is Ok,
        len <= opts.max_seq_len,
        depth < opts.max_depth,
    ensures
        parse_payload(TAG_LIST, seq![element] + encode_len(len)->Ok_0 + rest, depth, opts) == Ok::<
            (PayloadView, nat),
            ErrorKind,
        >((PayloadView::List(element, len as usize), 5)),
{
    reveal_with_fuel(pow256, 5);
    crate::be::lemma_be_encode_decode(len, 4);
    let l = encode_len(len)->Ok_0;
    let all = seq![element] + l + rest;
    assert(all.subrange(1, 5) =~= l);
    assert(crate::be::be_sint(l) == len as int);
}

/// A string the serializer writes reads back, on the serde side, as that
/// string, taking exactly its bytes.
pub proof fn lemma_serde_str_round_trip(text: Seq<char>, rest: Seq<u8>, depth: nat, opts: DeOptsView)
    requires
        encode_str(text) is Ok,
    ensures
        parse_payload(TAG_STRING, encode_str(text)->Ok_0 + rest, depth, opts) == Ok::<(PayloadView, nat), ErrorKind>(
            (PayloadView::Str(text), encode_str(text)->Ok_0.len()),
        ),
{
    crate::roundtrip::lemma_str_round_trip(text, rest);
}

/// A 128-bit integer the serializer writes reads back, on the serde side,
/// as that integer, when the options admit an array of four.
pub proof fn lemma_serde_i128_round_trip(v: i128, rest: Seq<u8>, opts: DeOptsView)
    requires
        4 <= opts.max_seq_len,
    ensures
        parse_int_array_128(TAG_INT_ARRAY, be_encode(4, 4) + be_encode_signed(v as int, 16) + rest, opts)
            == Ok::<(int, nat), ErrorKind>((v as int, 20)),
{
    reveal_with_fuel(pow256, 17);
    reveal_with_fuel(be_encode, 5);
    assert(pow256(16) == 0x1_0000_0000_0000_0000_0000_0000_0000_0000);
    crate::be::lemma_be_signed_encode_decode(v as int, 16);
    crate::be::lemma_be_encode_decode(4, 4);
    let b = be_encode_signed(v as int, 16);
    let all = be_encode(4, 4) + b + rest;
    assert(all.take(4) =~= be_encode(4, 4));
    assert(all.skip(4) =~= b + rest);
    assert((b + rest).take(16) =~= b);
}

/// Bytes the serializer writes as a list of bytes read back, on the serde
/// side, as those bytes, when the options admit their length.
pub proof fn lemma_serde_bytes_round_trip(bytes: Seq<u8>, rest: Seq<u8>, opts: DeOptsView)
    requires
        byte_list_outcome(bytes).0 is None,
        bytes.len() <= opts.max_seq_len,
    ensures
        parse_payload_bytes(TAG_LIST, byte_list_outcome(bytes).1 + rest, opts) == Ok::<(Seq<u8>, nat), ErrorKind>(
            (bytes, byte_list_outcome(bytes).1.len()),
        ),
{
    let len = encode_len(bytes.len())->Ok_0;
    crate::roundtrip::lemma_len_round_trip(bytes.len(), bytes + rest, opts);
    crate::be::lemma_be_encode_len(bytes.len(), 4);
    let all = byte_list_outcome(bytes).1 + rest;
    assert(all =~= seq![TAG_BYTE] + (len + (bytes + rest)));
    assert(all.skip(1) =~= len + (bytes + rest));
    assert(all.skip(5) =~= bytes + rest);
    assert((bytes + rest).take(bytes.len() as int) =~= bytes);
}

/// An array payload the serializer writes from whole elements reads back, on
/// the serde side, as the same bytes, when the options admit its length.
pub proof fn lemma_serde_array_round_trip(tag: u8, v: Seq<u8>, rest: Seq<u8>, opts: DeOptsView)
    requires
        tag == TAG_BYTE_ARRAY || tag == TAG_INT_ARRAY || tag == TAG_LONG_ARRAY,
        ({
            let stride: nat = if tag == TAG_INT_ARRAY { 4 } else if tag == TAG_LONG_ARRAY { 8 } else { 1 };
            &&& v.len() % stride == 0
            &&& encode_len(v.len() / stride) is Ok
            &&& v.len() / stride <= opts.max_seq_len
        }),
        v.len() <= usize::MAX,
    ensures
        ({
            let stride: nat = if tag == TAG_INT_ARRAY { 4 } else if tag == TAG_LONG_ARRAY { 8 } else { 1 };
            let written = encode_len(v.len() / stride)->Ok_0 + v;
            parse_payload_bytes(tag, written + rest, opts) == Ok::<(Seq<u8>, nat), ErrorKind>((v, written.len()))
        }),
{
    let stride: nat = if tag == TAG_INT_ARRAY { 4 } else if tag == TAG_LONG_ARRAY { 8 } else { 1 };
    let count = v.len() / stride;
    assert(count * stride == v.len()) by (nonlinear_arith)
        requires
            v.len() % stride == 0,
            stride >= 1,
            count == v.len() / stride,
    ;
    let len = encode_len(count)->Ok_0;
    crate::roundtrip::lemma_len_round_trip(count, v + rest, opts);
    crate::be::lemma_be_encode_len(count, 4);
    let all = len + v + rest;
    assert(all =~= len + (v + rest));
    assert(all.skip(4) =~= v + rest);
    assert((v + rest).take(v.len() as int) =~= v);
}

/// A compound entry's header, written for a value of `tag` and the name
/// `name`, reads back on the serde side as that tag and that name.
pub proof fn lemma_serde_entry_round_trip(name: Seq<char>, tag: u8, rest: Seq<u8>)
    requires
        1 <= tag <= crate::tag::TAG_MAX,
        encode_prefixed(java_encode(name)) is Ok,
    ensures
        ({
            let h = header_bytes(HeaderView::Entry(java_encode(name)), tag)->Ok_0;
            &&& header_bytes(HeaderView::Entry(java_encode(name)), tag) is Ok
            &&& parse_tag(h + rest) == Ok::<(u8, nat), ErrorKind>((tag, 1))
            &&& parse_str((h + rest).skip(1)) == Ok::<(Seq<char>, nat), ErrorKind>((name, (h.len() - 1) as nat))
        }),
{
    let p = encode_prefixed(java_encode(name))->Ok_0;
    let h = seq![tag] + p;
    assert((h + rest).skip(1) =~= p + rest);
    crate::roundtrip::lemma_str_round_trip(name, rest);
}

/// The root compound's header, written with or without a name, is read on
/// the serde side when the options expect a name exactly when one was
/// written, and opens the document's map.
pub proof fn lemma_serde_root_round_trip(name: Option<Seq<char>>, rest: Seq<u8>, depth: nat, opts: DeOptsView)
    requires
        header_bytes(HeaderView::Root(name), TAG_COMPOUND) is Ok,
        opts.expect_compound_names == (name is Some),
        depth < opts.max_depth,
    ensures
        parse_open_map(false, header_bytes(HeaderView::Root(name), TAG_COMPOUND)->Ok_0 + rest, depth, opts)
            == Ok::<nat, ErrorKind>(header_bytes(HeaderView::Root(name), TAG_COMPOUND)->Ok_0.len()),
{
    let h = header_bytes(HeaderView::Root(name), TAG_COMPOUND)->Ok_0;
    if let Some(n) = name {
        let e = encode_str(n)->Ok_0;
        crate::roundtrip::lemma_str_round_trip(n, rest);
        assert((h + rest).skip(1) =~= e + rest);
    }
}

} // verus!
