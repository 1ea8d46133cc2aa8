//! The [`ToNBT`] and [`FromNBT`] implementations for the standard types.
//!
//! Tags are matched strictly: a value reads its own tag only. An unsigned
//! integer shares its tag with the signed integer of the same width and
//! reinterprets the bits, so every value of either type round trips.

use std::borrow::Cow;
use vstd::prelude::*;

use crate::be::{
    be_encode, be_encode_signed, be_sint, be_uint, pow256, u128_from_be, u128_to_be, F32Be, F64Be,
    I16Be, I32Be, I64Be, U16Be, U32Be, U64Be,
};
use crate::cesu8::java_decode;
use crate::error::{Error, ErrorKind, Result};
use crate::opts::DeOptsView;
use crate::read::{
    parse_bytes, parse_elements, parse_int, parse_len, parse_list, parse_list_header, parse_str,
    parse_str_bytes, read_list, FromNBT, Reader,
};
use crate::tag::{
    TAG_BYTE, TAG_BYTE_ARRAY, TAG_DOUBLE, TAG_END, TAG_FLOAT, TAG_INT, TAG_INT_ARRAY, TAG_LIST,
    TAG_LONG, TAG_SHORT, TAG_STRING,
};
use crate::write::{encode_len, encode_list, encode_str, write_list, ToNBT, Writer};
use vstd::utf8::{decode_utf8, valid_utf8};

verus! {

/// Refuses a tag other than the one the target expects.
fn expect(tag: u8, expected: u8) -> (res: Result<()>)
    ensures
        tag == expected ==> res is Ok,
        tag != expected ==> (res matches Err(e) && e.0 == ErrorKind::InvalidTag(tag)),
{
    if tag == expected {
        Ok(())
    } else {
        Err(Error::invalid_tag(tag))
    }
}

/// What reading an `n`-byte big-endian unsigned integer from `rest` gives.
pub open spec fn parse_uint(rest: Seq<u8>, n: nat) -> core::result::Result<(nat, nat), ErrorKind> {
    if n <= rest.len() {
        Ok((be_uint(rest.take(n as int)), n))
    } else {
        Err(ErrorKind::UnexpectedEof)
    }
}

/// What reading a fixed-size value of `size` bytes and tag `expected` gives:
/// its tag is checked first.
pub open spec fn parse_tagged_bytes(tag: u8, expected: u8, rest: Seq<u8>, size: nat) -> core::result::Result<(Seq<u8>, nat), ErrorKind> {
    if tag != expected {
        Err(ErrorKind::InvalidTag(tag))
    } else {
        parse_bytes(rest, size)
    }
}

impl<'de> FromNBT<'de> for i8 {
    open spec fn nbt_parse(tag: u8, rest: Seq<u8>, depth: nat, opts: DeOptsView) -> core::result::Result<(i8, nat), ErrorKind> {
        if tag != TAG_BYTE {
            Err(ErrorKind::InvalidTag(tag))
        } else {
            match parse_int(rest, 1) {
                Ok((v, k)) => Ok((v as i8, k)),
                Err(kind) => Err(kind),
            }
        }
    }

    fn read(tag: u8, reader: &mut Reader<'de>) -> (res: Result<i8>) {
        expect(tag, TAG_BYTE)?;
        reader.read_i8()
    }
}

impl ToNBT for i8 {
    open spec fn nbt_tag(v: i8) -> u8 {
        TAG_BYTE
    }

    open spec fn nbt_payload(v: i8) -> core::result::Result<Seq<u8>, ErrorKind> {
        Ok(be_encode_signed(v as int, 1))
    }

    fn tag(&self) -> (tag: u8) {
        TAG_BYTE
    }

    fn write(&self, writer: &mut Writer) -> (res: Result<()>) {
        writer.write_i8(*self)
    }
}

impl<'de> FromNBT<'de> for i16 {
    open spec fn nbt_parse(tag: u8, rest: Seq<u8>, depth: nat, opts: DeOptsView) -> core::result::Result<(i16, nat), ErrorKind> {
        if tag != TAG_SHORT {
            Err(ErrorKind::InvalidTag(tag))
        } else {
            match parse_int(rest, 2) {
                Ok((v, k)) => Ok((v as i16, k)),
                Err(kind) => Err(kind),
            }
        }
    }

    fn read(tag: u8, reader: &mut Reader<'de>) -> (res: Result<i16>) {
        expect(tag, TAG_SHORT)?;
        reader.read_i16()
    }
}

impl ToNBT for i16 {
    open spec fn nbt_tag(v: i16) -> u8 {
        TAG_SHORT
    }

    open spec fn nbt_payload(v: i16) -> core::result::Result<Seq<u8>, ErrorKind> {
        Ok(be_encode_signed(v as int, 2))
    }

    fn tag(&self) -> (tag: u8) {
        TAG_SHORT
    }

    fn write(&self, writer: &mut Writer) -> (res: Result<()>) {
        writer.write_i16(*self)
    }
}

impl<'de> FromNBT<'de> for i32 {
    open spec fn nbt_parse(tag: u8, rest: Seq<u8>, depth: nat, opts: DeOptsView) -> core::result::Result<(i32, nat), ErrorKind> {
        if tag != TAG_INT {
            Err(ErrorKind::InvalidTag(tag))
        } else {
            match parse_int(rest, 4) {
                Ok((v, k)) => Ok((v as i32, k)),
                Err(kind) => Err(kind),
            }
        }
    }

    fn read(tag: u8, reader: &mut Reader<'de>) -> (res: Result<i32>) {
        expect(tag, TAG_INT)?;
        reader.read_i32()
    }
}

impl ToNBT for i32 {
    open spec fn nbt_tag(v: i32) -> u8 {
        TAG_INT
    }

    open spec fn nbt_payload(v: i32) -> core::result::Result<Seq<u8>, ErrorKind> {
        Ok(be_encode_signed(v as int, 4))
    }

    fn tag(&self) -> (tag: u8) {
        TAG_INT
    }

    fn write(&self, writer: &mut Writer) -> (res: Result<()>) {
        writer.write_i32(*self)
    }
}

impl<'de> FromNBT<'de> for i64 {
    open spec fn nbt_parse(tag: u8, rest: Seq<u8>, depth: nat, opts: DeOptsView) -> core::result::Result<(i64, nat), ErrorKind> {
        if tag != TAG_LONG {
            Err(ErrorKind::InvalidTag(tag))
        } else {
            match parse_int(rest, 8) {
                Ok((v, k)) => Ok((v as i64, k)),
                Err(kind) => Err(kind),
            }
        }
    }

    fn read(tag: u8, reader: &mut Reader<'de>) -> (res: Result<i64>) {
        expect(tag, TAG_LONG)?;
        reader.read_i64()
    }
}

impl ToNBT for i64 {
    open spec fn nbt_tag(v: i64) -> u8 {
        TAG_LONG
    }

    open spec fn nbt_payload(v: i64) -> core::result::Result<Seq<u8>, ErrorKind> {
        Ok(be_encode_signed(v as int, 8))
    }

    fn tag(&self) -> (tag: u8) {
        TAG_LONG
    }

    fn write(&self, writer: &mut Writer) -> (res: Result<()>) {
        writer.write_i64(*self)
    }
}

/// The unsigned spelling of the integer, sharing the signed one's tag and bits.
impl<'de> FromNBT<'de> for u8 {
    open spec fn nbt_parse(tag: u8, rest: Seq<u8>, depth: nat, opts: DeOptsView) -> core::result::Result<(u8, nat), ErrorKind> {
        if tag != TAG_BYTE {
            Err(ErrorKind::InvalidTag(tag))
        } else {
            match parse_uint(rest, 1) {
                Ok((v, k)) => Ok((v as u8, k)),
                Err(kind) => Err(kind),
            }
        }
    }

    fn read(tag: u8, reader: &mut Reader<'de>) -> (res: Result<u8>) {
        expect(tag, TAG_BYTE)?;
        let bytes = reader.take(1)?;
        proof {
            reveal_with_fuel(be_uint, 2);
        }
        Ok(bytes[0])
    }
}

/// The unsigned spelling of the integer, sharing the signed one's tag and bits.
impl ToNBT for u8 {
    open spec fn nbt_tag(v: u8) -> u8 {
        TAG_BYTE
    }

    open spec fn nbt_payload(v: u8) -> core::result::Result<Seq<u8>, ErrorKind> {
        Ok(be_encode(v as nat, 1))
    }

    fn tag(&self) -> (tag: u8) {
        TAG_BYTE
    }

    fn write(&self, writer: &mut Writer) -> (res: Result<()>) {
        let bytes = [*self];
        proof {
            reveal_with_fuel(be_encode, 2);
        }
        assert(bytes@ =~= be_encode(*self as nat, 1));
        writer.write_bytes(&bytes)
    }
}

/// The unsigned spelling of the integer, sharing the signed one's tag and bits.
impl<'de> FromNBT<'de> for u16 {
    open spec fn nbt_parse(tag: u8, rest: Seq<u8>, depth: nat, opts: DeOptsView) -> core::result::Result<(u16, nat), ErrorKind> {
        if tag != TAG_SHORT {
            Err(ErrorKind::InvalidTag(tag))
        } else {
            match parse_uint(rest, 2) {
                Ok((v, k)) => Ok((v as u16, k)),
                Err(kind) => Err(kind),
            }
        }
    }

    fn read(tag: u8, reader: &mut Reader<'de>) -> (res: Result<u16>) {
        expect(tag, TAG_SHORT)?;
        let bytes = reader.take(2)?;
        let array = [bytes[0], bytes[1]];
        assert(array@ =~= bytes@);
        Ok(U16Be::from_bytes(array).get())
    }
}

/// The unsigned spelling of the integer, sharing the signed one's tag and bits.
impl ToNBT for u16 {
    open spec fn nbt_tag(v: u16) -> u8 {
        TAG_SHORT
    }

    open spec fn nbt_payload(v: u16) -> core::result::Result<Seq<u8>, ErrorKind> {
        Ok(be_encode(v as nat, 2))
    }

    fn tag(&self) -> (tag: u8) {
        TAG_SHORT
    }

    fn write(&self, writer: &mut Writer) -> (res: Result<()>) {
        let bytes = U16Be::new(*self);
        writer.write_bytes(bytes.as_bytes())
    }
}

/// The unsigned spelling of the integer, sharing the signed one's tag and bits.
impl<'de> FromNBT<'de> for u32 {
    open spec fn nbt_parse(tag: u8, rest: Seq<u8>, depth: nat, opts: DeOptsView) -> core::result::Result<(u32, nat), ErrorKind> {
        if tag != TAG_INT {
            Err(ErrorKind::InvalidTag(tag))
        } else {
            match parse_uint(rest, 4) {
                Ok((v, k)) => Ok((v as u32, k)),
                Err(kind) => Err(kind),
            }
        }
    }

    fn read(tag: u8, reader: &mut Reader<'de>) -> (res: Result<u32>) {
        expect(tag, TAG_INT)?;
        let bytes = reader.take(4)?;
        let array = [bytes[0], bytes[1], bytes[2], bytes[3]];
        assert(array@ =~= bytes@);
        Ok(U32Be::from_bytes(array).get())
    }
}

/// The unsigned spelling of the integer, sharing the signed one's tag and bits.
impl ToNBT for u32 {
    open spec fn nbt_tag(v: u32) -> u8 {
        TAG_INT
    }

    open spec fn nbt_payload(v: u32) -> core::result::Result<Seq<u8>, ErrorKind> {
        Ok(be_encode(v as nat, 4))
    }

    fn tag(&self) -> (tag: u8) {
        TAG_INT
    }

    fn write(&self, writer: &mut Writer) -> (res: Result<()>) {
        let bytes = U32Be::new(*self);
        writer.write_bytes(bytes.as_bytes())
    }
}

/// The unsigned spelling of the integer, sharing the signed one's tag and bits.
impl<'de> FromNBT<'de> for u64 {
    open spec fn nbt_parse(tag: u8, rest: Seq<u8>, depth: nat, opts: DeOptsView) -> core::result::Result<(u64, nat), ErrorKind> {
        if tag != TAG_LONG {
            Err(ErrorKind::InvalidTag(tag))
        } else {
            match parse_uint(rest, 8) {
                Ok((v, k)) => Ok((v as u64, k)),
                Err(kind) => Err(kind),
            }
        }
    }

    fn read(tag: u8, reader: &mut Reader<'de>) -> (res: Result<u64>) {
        expect(tag, TAG_LONG)?;
        let bytes = reader.take(8)?;
        let array = [bytes[0], bytes[1], bytes[2], bytes[3], bytes[4], bytes[5], bytes[6], bytes[7]];
        assert(array@ =~= bytes@);
        Ok(U64Be::from_bytes(array).get())
    }
}

/// The unsigned spelling of the integer, sharing the signed one's tag and bits.
impl ToNBT for u64 {
    open spec fn nbt_tag(v: u64) -> u8 {
        TAG_LONG
    }

    open spec fn nbt_payload(v: u64) -> core::result::Result<Seq<u8>, ErrorKind> {
        Ok(be_encode(v as nat, 8))
    }

    fn tag(&self) -> (tag: u8) {
        TAG_LONG
    }

    fn write(&self, writer: &mut Writer) -> (res: Result<()>) {
        let bytes = U64Be::new(*self);
        writer.write_bytes(bytes.as_bytes())
    }
}

/// The bytes of the number as NBT stores them, read without decoding.
impl<'de> FromNBT<'de> for U16Be {
    open spec fn nbt_parse(tag: u8, rest: Seq<u8>, depth: nat, opts: DeOptsView) -> core::result::Result<(Seq<u8>, nat), ErrorKind> {
        parse_tagged_bytes(tag, TAG_SHORT, rest, 2)
    }

    fn read(tag: u8, reader: &mut Reader<'de>) -> (res: Result<U16Be>) {
        expect(tag, TAG_SHORT)?;
        let bytes = reader.take(2)?;
        let array = [bytes[0], bytes[1]];
        assert(array@ =~= bytes@);
        Ok(U16Be::from_bytes(array))
    }
}

/// The bytes of the number as NBT stores them, written as they are.
impl ToNBT for U16Be {
    open spec fn nbt_tag(v: Seq<u8>) -> u8 {
        TAG_SHORT
    }

    open spec fn nbt_payload(v: Seq<u8>) -> core::result::Result<Seq<u8>, ErrorKind> {
        Ok(v)
    }

    fn tag(&self) -> (tag: u8) {
        TAG_SHORT
    }

    fn write(&self, writer: &mut Writer) -> (res: Result<()>) {
        writer.write_bytes(self.as_bytes())
    }
}

/// The bytes of the number as NBT stores them, read without decoding.
impl<'de> FromNBT<'de> for I16Be {
    open spec fn nbt_parse(tag: u8, rest: Seq<u8>, depth: nat, opts: DeOptsView) -> core::result::Result<(Seq<u8>, nat), ErrorKind> {
        parse_tagged_bytes(tag, TAG_SHORT, rest, 2)
    }

    fn read(tag: u8, reader: &mut Reader<'de>) -> (res: Result<I16Be>) {
        expect(tag, TAG_SHORT)?;
        let bytes = reader.take(2)?;
        let array = [bytes[0], bytes[1]];
        assert(array@ =~= bytes@);
        Ok(I16Be::from_bytes(array))
    }
}

/// The bytes of the number as NBT stores them, written as they are.
impl ToNBT for I16Be {
    open spec fn nbt_tag(v: Seq<u8>) -> u8 {
        TAG_SHORT
    }

    open spec fn nbt_payload(v: Seq<u8>) -> core::result::Result<Seq<u8>, ErrorKind> {
        Ok(v)
    }

    fn tag(&self) -> (tag: u8) {
        TAG_SHORT
    }

    fn write(&self, writer: &mut Writer) -> (res: Result<()>) {
        writer.write_bytes(self.as_bytes())
    }
}

/// The bytes of the number as NBT stores them, read without decoding.
impl<'de> FromNBT<'de> for U32Be {
    open spec fn nbt_parse(tag: u8, rest: Seq<u8>, depth: nat, opts: DeOptsView) -> core::result::Result<(Seq<u8>, nat), ErrorKind> {
        parse_tagged_bytes(tag, TAG_INT, rest, 4)
    }

    fn read(tag: u8, reader: &mut Reader<'de>) -> (res: Result<U32Be>) {
        expect(tag, TAG_INT)?;
        let bytes = reader.take(4)?;
        let array = [bytes[0], bytes[1], bytes[2], bytes[3]];
        assert(array@ =~= bytes@);
        Ok(U32Be::from_bytes(array))
    }
}

/// The bytes of the number as NBT stores them, written as they are.
impl ToNBT for U32Be {
    open spec fn nbt_tag(v: Seq<u8>) -> u8 {
        TAG_INT
    }

    open spec fn nbt_payload(v: Seq<u8>) -> core::result::Result<Seq<u8>, ErrorKind> {
        Ok(v)
    }

    fn tag(&self) -> (tag: u8) {
        TAG_INT
    }

    fn write(&self, writer: &mut Writer) -> (res: Result<()>) {
        writer.write_bytes(self.as_bytes())
    }
}

/// The bytes of the number as NBT stores them, read without decoding.
impl<'de> FromNBT<'de> for I32Be {
    open spec fn nbt_parse(tag: u8, rest: Seq<u8>, depth: nat, opts: DeOptsView) -> core::result::Result<(Seq<u8>, nat), ErrorKind> {
        parse_tagged_bytes(tag, TAG_INT, rest, 4)
    }

    fn read(tag: u8, reader: &mut Reader<'de>) -> (res: Result<I32Be>) {
        expect(tag, TAG_INT)?;
        let bytes = reader.take(4)?;
        let array = [bytes[0], bytes[1], bytes[2], bytes[3]];
        assert(array@ =~= bytes@);
        Ok(I32Be::from_bytes(array))
    }
}

/// The bytes of the number as NBT stores them, written as they are.
impl ToNBT for I32Be {
    open spec fn nbt_tag(v: Seq<u8>) -> u8 {
        TAG_INT
    }

    open spec fn nbt_payload(v: Seq<u8>) -> core::result::Result<Seq<u8>, ErrorKind> {
        Ok(v)
    }

    fn tag(&self) -> (tag: u8) {
        TAG_INT
    }

    fn write(&self, writer: &mut Writer) -> (res: Result<()>) {
        writer.write_bytes(self.as_bytes())
    }
}

/// The bytes of the number as NBT stores them, read without decoding.
impl<'de> FromNBT<'de> for U64Be {
    open spec fn nbt_parse(tag: u8, rest: Seq<u8>, depth: nat, opts: DeOptsView) -> core::result::Result<(Seq<u8>, nat), ErrorKind> {
        parse_tagged_bytes(tag, TAG_LONG, rest, 8)
    }

    fn read(tag: u8, reader: &mut Reader<'de>) -> (res: Result<U64Be>) {
        expect(tag, TAG_LONG)?;
        let bytes = reader.take(8)?;
        let array = [bytes[0], bytes[1], bytes[2], bytes[3], bytes[4], bytes[5], bytes[6], bytes[7]];
        assert(array@ =~= bytes@);
        Ok(U64Be::from_bytes(array))
    }
}

/// The bytes of the number as NBT stores them, written as they are.
impl ToNBT for U64Be {
    open spec fn nbt_tag(v: Seq<u8>) -> u8 {
        TAG_LONG
    }

    open spec fn nbt_payload(v: Seq<u8>) -> core::result::Result<Seq<u8>, ErrorKind> {
        Ok(v)
    }

    fn tag(&self) -> (tag: u8) {
        TAG_LONG
    }

    fn write(&self, writer: &mut Writer) -> (res: Result<()>) {
        writer.write_bytes(self.as_bytes())
    }
}

/// The bytes of the number as NBT stores them, read without decoding.
impl<'de> FromNBT<'de> for I64Be {
    open spec fn nbt_parse(tag: u8, rest: Seq<u8>, depth: nat, opts: DeOptsView) -> core::result::Result<(Seq<u8>, nat), ErrorKind> {
        parse_tagged_bytes(tag, TAG_LONG, rest, 8)
    }

    fn read(tag: u8, reader: &mut Reader<'de>) -> (res: Result<I64Be>) {
        expect(tag, TAG_LONG)?;
        let bytes = reader.take(8)?;
        let array = [bytes[0], bytes[1], bytes[2], bytes[3], bytes[4], bytes[5], bytes[6], bytes[7]];
        assert(array@ =~= bytes@);
        Ok(I64Be::from_bytes(array))
    }
}

/// The bytes of the number as NBT stores them, written as they are.
impl ToNBT for I64Be {
    open spec fn nbt_tag(v: Seq<u8>) -> u8 {
        TAG_LONG
    }

    open spec fn nbt_payload(v: Seq<u8>) -> core::result::Result<Seq<u8>, ErrorKind> {
        Ok(v)
    }

    fn tag(&self) -> (tag: u8) {
        TAG_LONG
    }

    fn write(&self, writer: &mut Writer) -> (res: Result<()>) {
        writer.write_bytes(self.as_bytes())
    }
}

/// The bytes of the number as NBT stores them, read without decoding.
impl<'de> FromNBT<'de> for F32Be {
    open spec fn nbt_parse(tag: u8, rest: Seq<u8>, depth: nat, opts: DeOptsView) -> core::result::Result<(Seq<u8>, nat), ErrorKind> {
        parse_tagged_bytes(tag, TAG_FLOAT, rest, 4)
    }

    fn read(tag: u8, reader: &mut Reader<'de>) -> (res: Result<F32Be>) {
        expect(tag, TAG_FLOAT)?;
        let bytes = reader.take(4)?;
        let array = [bytes[0], bytes[1], bytes[2], bytes[3]];
        assert(array@ =~= bytes@);
        Ok(F32Be::from_bytes(array))
    }
}

/// The bytes of the number as NBT stores them, written as they are.
impl ToNBT for F32Be {
    open spec fn nbt_tag(v: Seq<u8>) -> u8 {
        TAG_FLOAT
    }

    open spec fn nbt_payload(v: Seq<u8>) -> core::result::Result<Seq<u8>, ErrorKind> {
        Ok(v)
    }

    fn tag(&self) -> (tag: u8) {
        TAG_FLOAT
    }

    fn write(&self, writer: &mut Writer) -> (res: Result<()>) {
        writer.write_bytes(self.as_bytes())
    }
}

/// The bytes of the number as NBT stores them, read without decoding.
impl<'de> FromNBT<'de> for F64Be {
    open spec fn nbt_parse(tag: u8, rest: Seq<u8>, depth: nat, opts: DeOptsView) -> core::result::Result<(Seq<u8>, nat), ErrorKind> {
        parse_tagged_bytes(tag, TAG_DOUBLE, rest, 8)
    }

    fn read(tag: u8, reader: &mut Reader<'de>) -> (res: Result<F64Be>) {
        expect(tag, TAG_DOUBLE)?;
        let bytes = reader.take(8)?;
        let array = [bytes[0], bytes[1], bytes[2], bytes[3], bytes[4], bytes[5], bytes[6], bytes[7]];
        assert(array@ =~= bytes@);
        Ok(F64Be::from_bytes(array))
    }
}

/// The bytes of the number as NBT stores them, written as they are.
impl ToNBT for F64Be {
    open spec fn nbt_tag(v: Seq<u8>) -> u8 {
        TAG_DOUBLE
    }

    open spec fn nbt_payload(v: Seq<u8>) -> core::result::Result<Seq<u8>, ErrorKind> {
        Ok(v)
    }

    fn tag(&self) -> (tag: u8) {
        TAG_DOUBLE
    }

    fn write(&self, writer: &mut Writer) -> (res: Result<()>) {
        writer.write_bytes(self.as_bytes())
    }
}

/// Any non-zero byte is true.
impl<'de> FromNBT<'de> for bool {
    open spec fn nbt_parse(tag: u8, rest: Seq<u8>, depth: nat, opts: DeOptsView) -> core::result::Result<(bool, nat), ErrorKind> {
        if tag != TAG_BYTE {
            Err(ErrorKind::InvalidTag(tag))
        } else {
            match parse_uint(rest, 1) {
                Ok((v, k)) => Ok((v != 0, k)),
                Err(kind) => Err(kind),
            }
        }
    }

    fn read(tag: u8, reader: &mut Reader<'de>) -> (res: Result<bool>) {
        expect(tag, TAG_BYTE)?;
        let bytes = reader.take(1)?;
        proof {
            reveal_with_fuel(be_uint, 2);
        }
        Ok(bytes[0] != 0)
    }
}

/// `true` is the byte 1, `false` the byte 0.
impl ToNBT for bool {
    open spec fn nbt_tag(v: bool) -> u8 {
        TAG_BYTE
    }

    open spec fn nbt_payload(v: bool) -> core::result::Result<Seq<u8>, ErrorKind> {
        Ok(seq![if v { 1u8 } else { 0u8 }])
    }

    fn tag(&self) -> (tag: u8) {
        TAG_BYTE
    }

    fn write(&self, writer: &mut Writer) -> (res: Result<()>) {
        let bytes = [if *self { 1u8 } else { 0u8 }];
        assert(bytes@ =~= seq![if *self { 1u8 } else { 0u8 }]);
        writer.write_bytes(&bytes)
    }
}

impl<'de> FromNBT<'de> for String {
    open spec fn nbt_parse(tag: u8, rest: Seq<u8>, depth: nat, opts: DeOptsView) -> core::result::Result<(Seq<char>, nat), ErrorKind> {
        if tag != TAG_STRING {
            Err(ErrorKind::InvalidTag(tag))
        } else {
            parse_str(rest)
        }
    }

    fn read(tag: u8, reader: &mut Reader<'de>) -> (res: Result<String>) {
        expect(tag, TAG_STRING)?;
        match reader.read_str()? {
            Cow::Borrowed(text) => Ok(text.to_owned()),
            Cow::Owned(text) => Ok(text),
        }
    }
}

impl<'de> FromNBT<'de> for Cow<'de, str> {
    open spec fn nbt_parse(tag: u8, rest: Seq<u8>, depth: nat, opts: DeOptsView) -> core::result::Result<(Seq<char>, nat), ErrorKind> {
        if tag != TAG_STRING {
            Err(ErrorKind::InvalidTag(tag))
        } else {
            parse_str(rest)
        }
    }

    fn read(tag: u8, reader: &mut Reader<'de>) -> (res: Result<Cow<'de, str>>) {
        expect(tag, TAG_STRING)?;
        reader.read_str()
    }
}

impl ToNBT for str {
    open spec fn nbt_tag(v: Seq<char>) -> u8 {
        TAG_STRING
    }

    open spec fn nbt_payload(v: Seq<char>) -> core::result::Result<Seq<u8>, ErrorKind> {
        encode_str(v)
    }

    fn tag(&self) -> (tag: u8) {
        TAG_STRING
    }

    fn write(&self, writer: &mut Writer) -> (res: Result<()>) {
        writer.write_str(self)
    }
}

impl ToNBT for String {
    open spec fn nbt_tag(v: Seq<char>) -> u8 {
        TAG_STRING
    }

    open spec fn nbt_payload(v: Seq<char>) -> core::result::Result<Seq<u8>, ErrorKind> {
        encode_str(v)
    }

    fn tag(&self) -> (tag: u8) {
        TAG_STRING
    }

    fn write(&self, writer: &mut Writer) -> (res: Result<()>) {
        writer.write_str(self.as_str())
    }
}

impl<'de, T: FromNBT<'de>> FromNBT<'de> for Vec<T> {
    open spec fn nbt_parse(tag: u8, rest: Seq<u8>, depth: nat, opts: DeOptsView) -> core::result::Result<(Seq<<T as DeepView>::V>, nat), ErrorKind> {
        if tag != TAG_LIST {
            Err(ErrorKind::InvalidTag(tag))
        } else {
            parse_list::<T>(rest, depth, opts)
        }
    }

    fn read(tag: u8, reader: &mut Reader<'de>) -> (res: Result<Vec<T>>) {
        expect(tag, TAG_LIST)?;
        read_list(reader)
    }
}

/// A list, whose element tag comes from its first element; an empty list is
/// a list of End, the way fastnbt writes one.
impl<T: ToNBT> ToNBT for Vec<T> {
    open spec fn nbt_tag(v: Seq<<T as DeepView>::V>) -> u8 {
        TAG_LIST
    }

    open spec fn nbt_payload(v: Seq<<T as DeepView>::V>) -> core::result::Result<Seq<u8>, ErrorKind> {
        encode_list::<T>(v)
    }

    fn tag(&self) -> (tag: u8) {
        TAG_LIST
    }

    fn write(&self, writer: &mut Writer) -> (res: Result<()>) {
        write_list(self.as_slice(), writer)
    }
}

/// A list, like a `Vec`.
impl<T: ToNBT> ToNBT for [T] {
    open spec fn nbt_tag(v: Seq<<T as DeepView>::V>) -> u8 {
        TAG_LIST
    }

    open spec fn nbt_payload(v: Seq<<T as DeepView>::V>) -> core::result::Result<Seq<u8>, ErrorKind> {
        encode_list::<T>(v)
    }

    fn tag(&self) -> (tag: u8) {
        TAG_LIST
    }

    fn write(&self, writer: &mut Writer) -> (res: Result<()>) {
        write_list(self, writer)
    }
}

/// A fixed-size array writes as a list, like a slice.
impl<T: ToNBT, const N: usize> ToNBT for [T; N] {
    open spec fn nbt_tag(v: Seq<<T as DeepView>::V>) -> u8 {
        TAG_LIST
    }

    open spec fn nbt_payload(v: Seq<<T as DeepView>::V>) -> core::result::Result<Seq<u8>, ErrorKind> {
        encode_list::<T>(v)
    }

    fn tag(&self) -> (tag: u8) {
        TAG_LIST
    }

    fn write(&self, writer: &mut Writer) -> (res: Result<()>) {
        let elements = self.as_slice();
        assert(elements.deep_view() =~= self.deep_view());
        write_list(elements, writer)
    }
}

/// The elements of `v` as an array of `N`, when there are exactly `N`.
///
/// Calls `<[T; N] as TryFrom<Vec<T>>>::try_from`, which std documents to
/// give the array holding the vector's elements in order when the lengths
/// match, and the vector back otherwise.
#[verifier::external_body]
fn vec_into_array<T, const N: usize>(v: Vec<T>) -> (res: Option<[T; N]>)
    ensures
        res is Some <==> v@.len() == N,
        res matches Some(a) ==> a@ == v@,
{
    <[T; N]>::try_from(v).ok()
}

/// A list of exactly `N` elements.
impl<'de, T: FromNBT<'de>, const N: usize> FromNBT<'de> for [T; N] {
    open spec fn nbt_parse(tag: u8, rest: Seq<u8>, depth: nat, opts: DeOptsView) -> core::result::Result<(Seq<<T as DeepView>::V>, nat), ErrorKind> {
        if tag != TAG_LIST {
            Err(ErrorKind::InvalidTag(tag))
        } else {
            match parse_list::<T>(rest, depth, opts) {
                Err(k) => Err(k),
                Ok((vs, n)) => if vs.len() == N {
                    Ok((vs, n))
                } else {
                    Err(ErrorKind::WrongLen)
                },
            }
        }
    }

    fn read(tag: u8, reader: &mut Reader<'de>) -> (res: Result<[T; N]>) {
        expect(tag, TAG_LIST)?;
        let items: Vec<T> = read_list(reader)?;
        let ghost view = items.deep_view();
        match vec_into_array::<T, N>(items) {
            Some(array) => {
                assert(array.deep_view() =~= view);
                Ok(array)
            },
            None => Err(Error::wrong_len()),
        }
    }
}

/// A reference writes like the value it points at.
impl<T: ToNBT + ?Sized> ToNBT for &T {
    open spec fn nbt_tag(v: <T as DeepView>::V) -> u8 {
        T::nbt_tag(v)
    }

    open spec fn nbt_payload(v: <T as DeepView>::V) -> core::result::Result<Seq<u8>, ErrorKind> {
        T::nbt_payload(v)
    }

    fn tag(&self) -> (tag: u8) {
        (**self).tag()
    }

    fn write(&self, writer: &mut Writer) -> (res: Result<()>) {
        (**self).write(writer)
    }
}

/// Whether `v` is a Unicode scalar value: a code point that is not a
/// surrogate.
pub open spec fn is_char_value(v: u32) -> bool {
    v <= 0xd7ff || (0xe000 <= v && v <= 0x10_ffff)
}

/// `char::from_u32`: the character whose scalar value is `v`, and nothing
/// when `v` is a surrogate or beyond `0x10FFFF`, as its documentation says.
#[verifier::external_body]
fn char_from_u32(v: u32) -> (c: Option<char>)
    ensures
        c is Some <==> is_char_value(v),
        c matches Some(ch) ==> ch as u32 == v,
{
    char::from_u32(v)
}

/// A `TAG_Int` holding a scalar value; any other int is refused.
impl<'de> FromNBT<'de> for char {
    open spec fn nbt_parse(tag: u8, rest: Seq<u8>, depth: nat, opts: DeOptsView) -> core::result::Result<(char, nat), ErrorKind> {
        if tag != TAG_INT {
            Err(ErrorKind::InvalidTag(tag))
        } else {
            match parse_uint(rest, 4) {
                Err(k) => Err(k),
                Ok((u, n)) => if is_char_value(u as u32) {
                    Ok(((u as u32) as char, n))
                } else {
                    Err(ErrorKind::InvalidChar)
                },
            }
        }
    }

    fn read(tag: u8, reader: &mut Reader<'de>) -> (res: Result<char>) {
        expect(tag, TAG_INT)?;
        let b = reader.take(4)?;
        let array = [b[0], b[1], b[2], b[3]];
        assert(array@ =~= b@);
        let u = U32Be::from_bytes(array).get();
        match char_from_u32(u) {
            Some(c) => {
                proof {
                    vstd::utf8::char_u32_cast(c, u);
                }
                Ok(c)
            },
            None => Err(Error::invalid_char()),
        }
    }
}

/// A character is its scalar value, as a `TAG_Int`.
impl ToNBT for char {
    open spec fn nbt_tag(v: char) -> u8 {
        TAG_INT
    }

    open spec fn nbt_payload(v: char) -> core::result::Result<Seq<u8>, ErrorKind> {
        Ok(be_encode(v as u32 as nat, 4))
    }

    fn tag(&self) -> (tag: u8) {
        TAG_INT
    }

    fn write(&self, writer: &mut Writer) -> (res: Result<()>) {
        let bytes = U32Be::new(*self as u32);
        writer.write_bytes(bytes.as_bytes())
    }
}

/// What reading the sixteen bytes of a 128-bit integer gives: an int array
/// whose length must be 4, then the four ints, most significant first.
pub open spec fn parse_int_array_16(tag: u8, rest: Seq<u8>, opts: DeOptsView) -> core::result::Result<(Seq<u8>, nat), ErrorKind> {
    if tag != TAG_INT_ARRAY {
        Err(ErrorKind::InvalidTag(tag))
    } else {
        match parse_len(rest, opts) {
            Err(k) => Err(k),
            Ok((len, _)) => if len != 4 {
                Err(ErrorKind::ExpectedIntArray)
            } else {
                match parse_bytes(rest.skip(4), 16) {
                    Err(k) => Err(k),
                    Ok((b, n)) => Ok((b, 4 + n)),
                }
            },
        }
    }
}

/// Reads the sixteen bytes of a 128-bit integer.
fn int_array_128<'de>(tag: u8, reader: &mut Reader<'de>) -> (res: Result<&'de [u8]>)
    ensures
        final(reader).depth() == old(reader).depth(),
        final(reader).opts() == old(reader).opts(),
        final(reader).wf() == old(reader).wf(),
        match parse_int_array_16(tag, old(reader).rest(), old(reader).opts()) {
            Ok((b, k)) => (res matches Ok(x) && x@ == b) && final(reader).rest() == old(reader).rest().skip(k as int),
            Err(kind) => res matches Err(e) && e.0 == kind,
        },
{
    expect(tag, TAG_INT_ARRAY)?;
    if reader.read_len()? != 4 {
        return Err(Error::expected_int_array());
    }
    let bytes = reader.take(16)?;
    assert(old(reader).rest().skip(4).skip(16) =~= old(reader).rest().skip(20));
    Ok(bytes)
}

/// A UUID-style int array of length 4, most significant int first.
impl<'de> FromNBT<'de> for i128 {
    open spec fn nbt_parse(tag: u8, rest: Seq<u8>, depth: nat, opts: DeOptsView) -> core::result::Result<(i128, nat), ErrorKind> {
        match parse_int_array_16(tag, rest, opts) {
            Err(k) => Err(k),
            Ok((b, n)) => Ok((be_sint(b) as i128, n)),
        }
    }

    fn read(tag: u8, reader: &mut Reader<'de>) -> (res: Result<i128>) {
        let bytes = int_array_128(tag, reader)?;
        let u = u128_from_be(bytes);
        proof {
            reveal_with_fuel(pow256, 17);
            assert(pow256(16) == 0x1_0000_0000_0000_0000_0000_0000_0000_0000);
        }
        if u >= 0x8000_0000_0000_0000_0000_0000_0000_0000 {
            let low = (u - 0x8000_0000_0000_0000_0000_0000_0000_0000) as i128;
            Ok(low + i128::MIN)
        } else {
            Ok(u as i128)
        }
    }
}

/// A UUID-style int array of length 4, most significant int first.
impl<'de> FromNBT<'de> for u128 {
    open spec fn nbt_parse(tag: u8, rest: Seq<u8>, depth: nat, opts: DeOptsView) -> core::result::Result<(u128, nat), ErrorKind> {
        match parse_int_array_16(tag, rest, opts) {
            Err(k) => Err(k),
            Ok((b, n)) => Ok((be_uint(b) as u128, n)),
        }
    }

    fn read(tag: u8, reader: &mut Reader<'de>) -> (res: Result<u128>) {
        let bytes = int_array_128(tag, reader)?;
        Ok(u128_from_be(bytes))
    }
}

/// An int array of length 4, most significant int first.
impl ToNBT for i128 {
    open spec fn nbt_tag(v: i128) -> u8 {
        TAG_INT_ARRAY
    }

    open spec fn nbt_payload(v: i128) -> core::result::Result<Seq<u8>, ErrorKind> {
        Ok(be_encode(4, 4) + be_encode_signed(v as int, 16))
    }

    fn tag(&self) -> (tag: u8) {
        TAG_INT_ARRAY
    }

    fn write(&self, writer: &mut Writer) -> (res: Result<()>) {
        proof {
            reveal_with_fuel(pow256, 17);
            assert(pow256(16) == 0x1_0000_0000_0000_0000_0000_0000_0000_0000);
            let v = *self;
            assert(v < 0 ==> (v as u128) as int == v + 0x1_0000_0000_0000_0000_0000_0000_0000_0000) by (bit_vector);
            assert(v >= 0 ==> (v as u128) as int == v) by (bit_vector);
            reveal_with_fuel(be_encode, 5);
            assert(encode_len(4) == Ok::<Seq<u8>, ErrorKind>(be_encode(4, 4)));
        }
        writer.write_len(4)?;
        let bytes = u128_to_be(*self as u128);
        writer.write_bytes(bytes.as_slice())?;
        assert(old(writer).bytes() + be_encode(4, 4) + bytes@ =~= old(writer).bytes() + (be_encode(4, 4) + bytes@));
        Ok(())
    }
}

/// An int array of length 4, most significant int first.
impl ToNBT for u128 {
    open spec fn nbt_tag(v: u128) -> u8 {
        TAG_INT_ARRAY
    }

    open spec fn nbt_payload(v: u128) -> core::result::Result<Seq<u8>, ErrorKind> {
        Ok(be_encode(4, 4) + be_encode(v as nat, 16))
    }

    fn tag(&self) -> (tag: u8) {
        TAG_INT_ARRAY
    }

    fn write(&self, writer: &mut Writer) -> (res: Result<()>) {
        proof {
            reveal_with_fuel(pow256, 5);
            reveal_with_fuel(be_encode, 5);
            assert(encode_len(4) == Ok::<Seq<u8>, ErrorKind>(be_encode(4, 4)));
        }
        writer.write_len(4)?;
        let bytes = u128_to_be(*self);
        writer.write_bytes(bytes.as_slice())?;
        assert(old(writer).bytes() + be_encode(4, 4) + bytes@ =~= old(writer).bytes() + (be_encode(4, 4) + bytes@));
        Ok(())
    }
}

/// Only a string the input already spells as UTF-8 can be borrowed; one
/// that needs decoding is refused.
impl<'de> FromNBT<'de> for &'de str {
    open spec fn nbt_parse(tag: u8, rest: Seq<u8>, depth: nat, opts: DeOptsView) -> core::result::Result<(Seq<char>, nat), ErrorKind> {
        if tag != TAG_STRING {
            Err(ErrorKind::InvalidTag(tag))
        } else {
            match parse_str_bytes(rest) {
                Err(k) => Err(k),
                Ok((b, n)) => if valid_utf8(b) {
                    Ok((decode_utf8(b), n))
                } else if java_decode(b) is Some {
                    Err(ErrorKind::BorrowedString)
                } else {
                    Err(ErrorKind::NonunicodeString)
                },
            }
        }
    }

    fn read(tag: u8, reader: &mut Reader<'de>) -> (res: Result<&'de str>) {
        expect(tag, TAG_STRING)?;
        match reader.read_str()? {
            Cow::Borrowed(text) => Ok(text),
            Cow::Owned(_) => Err(Error::borrowed_string()),
        }
    }
}

/// A string, like a `str`.
impl<'a> ToNBT for Cow<'a, str> {
    open spec fn nbt_tag(v: Seq<char>) -> u8 {
        TAG_STRING
    }

    open spec fn nbt_payload(v: Seq<char>) -> core::result::Result<Seq<u8>, ErrorKind> {
        encode_str(v)
    }

    fn tag(&self) -> (tag: u8) {
        TAG_STRING
    }

    fn write(&self, writer: &mut Writer) -> (res: Result<()>) {
        match self {
            Cow::Borrowed(text) => writer.write_str(text),
            Cow::Owned(text) => writer.write_str(text.as_str()),
        }
    }
}

/// What reading the raw payload of an array whose tag is `array_tag`, or of
/// a list whose elements are `element_tag`, gives: `size`-byte elements,
/// undecoded. An empty list of End is an empty payload.
pub open spec fn parse_be_slice(tag: u8, rest: Seq<u8>, size: nat, array_tag: Option<u8>, element_tag: u8, opts: DeOptsView) -> core::result::Result<(Seq<u8>, nat), ErrorKind> {
    if array_tag == Some(tag) {
        match parse_len(rest, opts) {
            Err(k) => Err(k),
            Ok((len, _)) => match parse_elements(rest.skip(4), len, size) {
                Err(k) => Err(k),
                Ok((b, n)) => Ok((b, 4 + n)),
            },
        }
    } else if tag == TAG_LIST {
        match parse_list_header(rest, opts) {
            Err(k) => Err(k),
            Ok(((element, len), _)) => if element == TAG_END {
                if len != 0 {
                    Err(ErrorKind::ListOfEnd)
                } else {
                    Ok((Seq::empty(), 5))
                }
            } else if element != element_tag {
                Err(ErrorKind::InvalidTag(element))
            } else {
                match parse_elements(rest.skip(5), len, size) {
                    Err(k) => Err(k),
                    Ok((b, n)) => Ok((b, 5 + n)),
                }
            },
        }
    } else {
        Err(ErrorKind::InvalidTag(tag))
    }
}

/// The raw payload of an array, or of a list whose elements are
/// `element_tag`, for a slice of `size`-byte elements, borrowed from the
/// input.
pub fn read_be_slice<'de>(reader: &mut Reader<'de>, tag: u8, size: usize, array_tag: Option<u8>, element_tag: u8) -> (res: Result<Cow<'de, [u8]>>)
    ensures
        final(reader).depth() == old(reader).depth(),
        final(reader).opts() == old(reader).opts(),
        final(reader).wf() == old(reader).wf(),
        match parse_be_slice(tag, old(reader).rest(), size as nat, array_tag, element_tag, old(reader).opts()) {
            Ok((b, k)) => (res matches Ok(Cow::Borrowed(x)) && x@ == b) && k <= old(reader).rest().len()
                && final(reader).rest() == old(reader).rest().skip(k as int),
            Err(kind) => res matches Err(e) && e.0 == kind,
        },
{
    let ghost hdr: nat = if (match array_tag { Some(t) => t == tag, None => false }) { 4 } else { 5 };
    let is_array = match array_tag {
        Some(t) => t == tag,
        None => false,
    };
    let len = if is_array {
        reader.read_len()?
    } else if tag == TAG_LIST {
        let (element, len) = reader.read_list_header()?;
        if element == TAG_END {
            if len != 0 {
                return Err(Error::list_of_end());
            }
            let empty = reader.read_bytes(0)?;
            assert(old(reader).rest().skip(5).skip(0) =~= old(reader).rest().skip(5));
            assert(old(reader).rest().skip(5).take(0) =~= Seq::<u8>::empty());
            return Ok(empty);
        }
        if element != element_tag {
            return Err(Error::invalid_tag(element));
        }
        len
    } else {
        return Err(Error::invalid_tag(tag));
    };
    let n = match len.checked_mul(size) {
        Some(n) => n,
        None => return Err(Error::array_too_large()),
    };
    let bytes = reader.read_bytes(n)?;
    proof {
        let r = old(reader).rest();
        assert(r.skip(hdr as int).skip(n as int) =~= r.skip(hdr + n as int));
    }
    Ok(bytes)
}

/// A `TAG_Byte_Array`, or a list of `TAG_Byte`, borrowed from the input.
impl<'de> FromNBT<'de> for &'de [u8] {
    open spec fn nbt_parse(tag: u8, rest: Seq<u8>, depth: nat, opts: DeOptsView) -> core::result::Result<(Seq<u8>, nat), ErrorKind> {
        parse_be_slice(tag, rest, 1, Some(TAG_BYTE_ARRAY), TAG_BYTE, opts)
    }

    fn read(tag: u8, reader: &mut Reader<'de>) -> (res: Result<&'de [u8]>) {
        match read_be_slice(reader, tag, 1, Some(TAG_BYTE_ARRAY), TAG_BYTE)? {
            Cow::Borrowed(bytes) => {
                assert(bytes.deep_view() =~= bytes@);
                Ok(bytes)
            },
            Cow::Owned(_) => Err(Error::borrowed_bytes()),
        }
    }
}

/// A `TAG_Byte`, borrowed from the input.
impl<'de> FromNBT<'de> for &'de u8 {
    open spec fn nbt_parse(tag: u8, rest: Seq<u8>, depth: nat, opts: DeOptsView) -> core::result::Result<(u8, nat), ErrorKind> {
        match parse_tagged_bytes(tag, TAG_BYTE, rest, 1) {
            Err(k) => Err(k),
            Ok((b, n)) => Ok((b[0], n)),
        }
    }

    fn read(tag: u8, reader: &mut Reader<'de>) -> (res: Result<&'de u8>) {
        expect(tag, TAG_BYTE)?;
        match reader.read_bytes(1)? {
            Cow::Borrowed(bytes) => Ok(&bytes[0]),
            Cow::Owned(_) => Err(Error::borrowed_bytes()),
        }
    }
}

} // verus!
