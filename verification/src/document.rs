//! Whole documents: a root compound, named or not, and its payload.

use vstd::prelude::*;

use crate::error::{Error, ErrorKind, Result};
use crate::opts::{default_de_opts, default_ser_opts, DeOpts, DeOptsView, SerOpts, SerOptsView};
use crate::read::{parse_str_bytes, parse_tag, FromNBT, Reader};
use crate::roundtrip::RoundTrip;
use crate::tag::TAG_COMPOUND;
use crate::write::{encode_str, ToNBT, Writer};

verus! {

/// What reading a document whose root is a compound gives: its tag, the
/// root's name when `opts` expects one, then the payload as a `T`.
pub open spec fn parse_document<'de, T: FromNBT<'de>>(input: Seq<u8>, opts: DeOptsView) -> core::result::Result<<T as DeepView>::V, ErrorKind> {
    match parse_tag(input) {
        Err(k) => Err(k),
        Ok((tag, _)) => if tag != TAG_COMPOUND {
            Err(ErrorKind::NoRootCompound)
        } else {
            let header: core::result::Result<nat, ErrorKind> = if opts.expect_compound_names {
                match parse_str_bytes(input.skip(1)) {
                    Ok((_, m)) => Ok(1 + m),
                    Err(k) => Err(k),
                }
            } else {
                Ok(1)
            };
            match header {
                Err(k) => Err(k),
                Ok(h) => match T::nbt_parse(tag, input.skip(h as int), 0, opts) {
                    Ok((v, _)) => Ok(v),
                    Err(k) => Err(k),
                },
            }
        },
    }
}

/// The bytes a value is written as the root compound of a document, or why
/// it cannot be: only a compound can be a root.
pub open spec fn encode_document<T: ToNBT + ?Sized>(v: <T as DeepView>::V, opts: SerOptsView) -> core::result::Result<Seq<u8>, ErrorKind> {
    if T::nbt_tag(v) != TAG_COMPOUND {
        Err(ErrorKind::NoRootCompound)
    } else {
        let name = if opts.serialize_root_name {
            encode_str(opts.root_name)
        } else {
            Ok(Seq::empty())
        };
        match name {
            Err(k) => Err(k),
            Ok(n) => match T::nbt_payload(v) {
                Ok(p) => Ok(seq![TAG_COMPOUND] + n + p),
                Err(k) => Err(k),
            },
        }
    }
}

/// Serializes `value` as the root compound, with an empty name.
pub fn to_bytes<T: ToNBT + ?Sized>(value: &T) -> (res: Result<Vec<u8>>)
    ensures
        match encode_document::<T>(value.deep_view(), default_ser_opts()) {
            Ok(bytes) => res matches Ok(out) && out@ == bytes,
            Err(kind) => res matches Err(e) && e.0 == kind,
        },
{
    to_bytes_with_opts(value, SerOpts::new())
}

/// Serializes `value` as the root compound, named as `opts` says.
pub fn to_bytes_with_opts<T: ToNBT + ?Sized>(value: &T, opts: SerOpts) -> (res: Result<Vec<u8>>)
    ensures
        match encode_document::<T>(value.deep_view(), opts@) {
            Ok(bytes) => res matches Ok(out) && out@ == bytes,
            Err(kind) => res matches Err(e) && e.0 == kind,
        },
{
    if value.tag() != TAG_COMPOUND {
        return Err(Error::no_root_compound());
    }
    let mut writer = Writer::new(Vec::new());
    writer.write_tag(TAG_COMPOUND)?;
    if let Some(name) = opts.name() {
        writer.write_name(name)?;
    }
    let ghost header = writer.bytes();
    value.write(&mut writer)?;
    proof {
        if opts@.serialize_root_name {
            assert(header =~= seq![TAG_COMPOUND] + encode_str(opts@.root_name)->Ok_0);
        } else {
            assert(header =~= seq![TAG_COMPOUND] + Seq::<u8>::empty());
        }
    }
    Ok(writer.into_inner())
}

/// Deserializes a `T` from a document whose root is a compound.
pub fn from_bytes<'de, T: FromNBT<'de>>(input: &'de [u8]) -> (res: Result<T>)
    ensures
        match parse_document::<T>(input@, default_de_opts()) {
            Ok(v) => res matches Ok(x) && x.deep_view() == v,
            Err(kind) => res matches Err(e) && e.0 == kind,
        },
{
    from_bytes_with_opts(input, DeOpts::new())
}

/// Deserializes a `T` from a document whose root is a compound.
pub fn from_bytes_with_opts<'de, T: FromNBT<'de>>(input: &'de [u8], opts: DeOpts) -> (res: Result<T>)
    ensures
        match parse_document::<T>(input@, opts@) {
            Ok(v) => res matches Ok(x) && x.deep_view() == v,
            Err(kind) => res matches Err(e) && e.0 == kind,
        },
{
    let expect_names = opts.names_expected();
    let mut reader = Reader::new(input, opts);
    let tag = reader.read_tag()?;
    if tag != TAG_COMPOUND {
        return Err(Error::no_root_compound());
    }
    if expect_names {
        reader.skip_name()?;
        proof {
            let m = parse_str_bytes(input@.skip(1))->Ok_0.1;
            assert(input@.skip(1).skip(m as int) =~= input@.skip(1 + m as int));
        }
    }
    T::read(tag, &mut reader)
}

/// Reading back a value written as the root of a document gives back the
/// value, when the reader expects a root name exactly when the writer wrote
/// one, and the value is within the reader's limits.
pub proof fn lemma_document_round_trip<'de, T: RoundTrip<'de>>(v: <T as DeepView>::V, written: SerOptsView, read: DeOptsView)
    requires
        encode_document::<T>(v, written) is Ok,
        written.serialize_root_name == read.expect_compound_names,
        T::nbt_fits(v, 0, read),
    ensures
        parse_document::<T>(encode_document::<T>(v, written)->Ok_0, read) == Ok::<<T as DeepView>::V, ErrorKind>(v),
{
    let doc = encode_document::<T>(v, written)->Ok_0;
    let p = T::nbt_payload(v)->Ok_0;
    T::lemma_round_trip(v, Seq::empty(), 0, read);
    assert(p + Seq::<u8>::empty() =~= p);
    if written.serialize_root_name {
        let n = encode_str(written.root_name)->Ok_0;
        let body = crate::cesu8::java_encode(written.root_name);
        reveal_with_fuel(crate::be::pow256, 3);
        crate::be::lemma_be_encode_decode(body.len(), 2);
        assert(doc.skip(1) =~= n + p);
        assert((n + p).take(2) =~= crate::be::be_encode(body.len(), 2));
        assert(doc.skip(1).skip(n.len() as int) =~= p);
        assert(doc.skip(1 + n.len() as int) =~= p);
    } else {
        assert(doc.skip(1) =~= p);
    }
}

} // verus!
