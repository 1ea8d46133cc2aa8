//! Writing NBT into a byte vector.
//!
//! A value's payload is written by the value; the tag and the name around
//! it by whoever owns the entry. A list header is written by the list
//! itself, as an element tag followed by a length.

use vstd::prelude::*;

use crate::be::{be_encode, be_encode_signed, I16Be, I32Be, I64Be, U16Be, U32Be};
use crate::cesu8::{java_encode, to_java_cesu8};
use crate::error::{Error, ErrorKind, Result};
use crate::tag::TAG_END;

verus! {

/// The bytes a list's or array's `i32` length is written as, or why it
/// cannot be.
pub open spec fn encode_len(len: nat) -> core::result::Result<Seq<u8>, ErrorKind> {
    if len > i32::MAX {
        Err(ErrorKind::LenTooLarge)
    } else {
        Ok(be_encode(len, 4))
    }
}

/// The bytes `bytes` are written as after their `u16` length, or why they
/// cannot be.
pub open spec fn encode_prefixed(bytes: Seq<u8>) -> core::result::Result<Seq<u8>, ErrorKind> {
    if bytes.len() > u16::MAX {
        Err(ErrorKind::StringTooLong)
    } else {
        Ok(be_encode(bytes.len(), 2) + bytes)
    }
}

/// The bytes a string is written as: its modified UTF-8 after its `u16`
/// length.
pub open spec fn encode_str(text: Seq<char>) -> core::result::Result<Seq<u8>, ErrorKind> {
    encode_prefixed(java_encode(text))
}

/// Appends `bytes` to `out`.
pub fn append_bytes(out: &mut Vec<u8>, bytes: &[u8])
    ensures
        final(out)@ == old(out)@ + bytes@,
{
    let mut i: usize = 0;
    while i < bytes.len()
        invariant
            i <= bytes@.len(),
            out@ == old(out)@ + bytes@.take(i as int),
        decreases bytes@.len() - i,
    {
        out.push(bytes[i]);
        i = i + 1;
        assert(out@ =~= old(out)@ + bytes@.take(i as int));
    }
    assert(bytes@.take(bytes@.len() as int) =~= bytes@);
}

/// Writes a document into a byte vector.
pub struct Writer {
    out: Vec<u8>,
}

impl Writer {
    /// The bytes written so far, after those the vector started with.
    pub closed spec fn bytes(&self) -> Seq<u8> {
        self.out@
    }

    /// A writer that appends to `out`.
    pub fn new(out: Vec<u8>) -> (writer: Self)
        ensures
            writer.bytes() == out@,
    {
        Self { out }
    }

    /// The vector, with everything written.
    pub fn into_inner(self) -> (out: Vec<u8>)
        ensures
            out@ == self.bytes(),
    {
        self.out
    }

    /// Writes one tag byte.
    pub fn write_tag(&mut self, tag: u8) -> (res: Result<()>)
        ensures
            res is Ok,
            final(self).bytes() == old(self).bytes().push(tag),
    {
        self.out.push(tag);
        Ok(())
    }

    /// Writes the End tag that closes a compound.
    pub fn write_end(&mut self) -> (res: Result<()>)
        ensures
            res is Ok,
            final(self).bytes() == old(self).bytes().push(TAG_END),
    {
        self.write_tag(TAG_END)
    }

    /// Writes raw payload bytes, as an array's elements already encoded.
    pub fn write_bytes(&mut self, bytes: &[u8]) -> (res: Result<()>)
        ensures
            res is Ok,
            final(self).bytes() == old(self).bytes() + bytes@,
    {
        append_bytes(&mut self.out, bytes);
        Ok(())
    }

    pub fn write_i8(&mut self, v: i8) -> (res: Result<()>)
        ensures
            res is Ok,
            final(self).bytes() == old(self).bytes() + be_encode_signed(v as int, 1),
    {
        let u: u8 = if v < 0 { (v as i16 + 256) as u8 } else { v as u8 };
        self.out.push(u);
        proof {
            reveal_with_fuel(be_encode, 2);
            reveal_with_fuel(crate::be::pow256, 2);
        }
        assert(seq![u] =~= be_encode_signed(v as int, 1));
        Ok(())
    }

    pub fn write_i16(&mut self, v: i16) -> (res: Result<()>)
        ensures
            res is Ok,
            final(self).bytes() == old(self).bytes() + be_encode_signed(v as int, 2),
    {
        let bytes = I16Be::new(v);
        self.write_bytes(bytes.as_bytes())
    }

    pub fn write_i32(&mut self, v: i32) -> (res: Result<()>)
        ensures
            res is Ok,
            final(self).bytes() == old(self).bytes() + be_encode_signed(v as int, 4),
    {
        let bytes = I32Be::new(v);
        self.write_bytes(bytes.as_bytes())
    }

    pub fn write_i64(&mut self, v: i64) -> (res: Result<()>)
        ensures
            res is Ok,
            final(self).bytes() == old(self).bytes() + be_encode_signed(v as int, 8),
    {
        let bytes = I64Be::new(v);
        self.write_bytes(bytes.as_bytes())
    }

    /// Writes a list's or array's `i32` length.
    pub fn write_len(&mut self, len: usize) -> (res: Result<()>)
        ensures
            match encode_len(len as nat) {
                Ok(bytes) => res is Ok && final(self).bytes() == old(self).bytes() + bytes,
                Err(kind) => (res matches Err(e) && e.0 == kind) && final(self).bytes() == old(
                    self,
                ).bytes(),
            },
    {
        if len > 0x7fff_ffff {
            return Err(Error::len_too_large());
        }
        let bytes = U32Be::new(len as u32);
        self.write_bytes(bytes.as_bytes())
    }

    /// Writes bytes after their `u16` length.
    pub fn write_prefixed(&mut self, bytes: &[u8]) -> (res: Result<()>)
        ensures
            match encode_prefixed(bytes@) {
                Ok(written) => res is Ok && final(self).bytes() == old(self).bytes() + written,
                Err(kind) => (res matches Err(e) && e.0 == kind) && final(self).bytes() == old(
                    self,
                ).bytes(),
            },
    {
        if bytes.len() > 0xffff {
            return Err(Error::string_too_long());
        }
        let len = U16Be::new(bytes.len() as u16);
        self.write_bytes(len.as_bytes())?;
        self.write_bytes(bytes)?;
        assert(old(self).bytes() + be_encode(bytes@.len(), 2) + bytes@ =~= old(self).bytes() + (
        be_encode(bytes@.len(), 2) + bytes@));
        Ok(())
    }

    /// Writes a length-prefixed modified UTF-8 string.
    pub fn write_str(&mut self, v: &str) -> (res: Result<()>)
        ensures
            match encode_str(v@) {
                Ok(written) => res is Ok && final(self).bytes() == old(self).bytes() + written,
                Err(kind) => (res matches Err(e) && e.0 == kind) && final(self).bytes() == old(
                    self,
                ).bytes(),
            },
    {
        match to_java_cesu8(v) {
            std::borrow::Cow::Borrowed(bytes) => self.write_prefixed(bytes),
            std::borrow::Cow::Owned(bytes) => self.write_prefixed(bytes.as_slice()),
        }
    }

    /// Writes a compound entry's name, which is encoded like a string.
    pub fn write_name(&mut self, name: &str) -> (res: Result<()>)
        ensures
            match encode_str(name@) {
                Ok(written) => res is Ok && final(self).bytes() == old(self).bytes() + written,
                Err(kind) => (res matches Err(e) && e.0 == kind) && final(self).bytes() == old(
                    self,
                ).bytes(),
            },
    {
        self.write_str(name)
    }
}

/// A value that can be written as NBT.
///
/// [`write`](ToNBT::write) writes the value's payload only. The tag and the
/// name around it are written by the owner of the entry, either
/// [`write_entry`](ToNBT::write_entry) or the root of a document.
pub trait ToNBT: DeepView {
    /// The tag byte that precedes a value whose deep view is `v`.
    spec fn nbt_tag(v: <Self as DeepView>::V) -> u8;

    /// The payload bytes a value whose deep view is `v` is written as, or
    /// why it cannot be written.
    spec fn nbt_payload(v: <Self as DeepView>::V) -> core::result::Result<Seq<u8>, ErrorKind>;

    /// The tag byte that precedes this value.
    fn tag(&self) -> (tag: u8)
        ensures
            tag == Self::nbt_tag(self.deep_view()),
    ;

    /// Writes the payload, without the tag or the name.
    fn write(&self, writer: &mut Writer) -> (res: Result<()>)
        ensures
            match Self::nbt_payload(self.deep_view()) {
                Ok(payload) => res is Ok && final(writer).bytes() == old(writer).bytes() + payload,
                Err(kind) => res matches Err(e) && e.0 == kind,
            },
    ;
}

/// The bytes a compound entry is written as: the tag, the name, then the
/// payload.
pub open spec fn encode_entry<T: ToNBT + ?Sized>(v: <T as DeepView>::V, name: Seq<char>) -> core::result::Result<Seq<u8>, ErrorKind> {
    match encode_str(name) {
        Err(k) => Err(k),
        Ok(n) => match T::nbt_payload(v) {
            Ok(p) => Ok(seq![T::nbt_tag(v)] + n + p),
            Err(k) => Err(k),
        },
    }
}

/// Writes a compound entry: the tag, the name, then the payload.
pub fn write_entry<T: ToNBT + ?Sized>(value: &T, name: &str, writer: &mut Writer) -> (res: Result<()>)
    ensures
        match encode_entry::<T>(value.deep_view(), name@) {
            Ok(entry) => res is Ok && final(writer).bytes() == old(writer).bytes() + entry,
            Err(kind) => res matches Err(e) && e.0 == kind,
        },
{
    let tag = value.tag();
    writer.write_tag(tag)?;
    writer.write_name(name)?;
    let ghost mid = writer.bytes();
    value.write(writer)?;
    proof {
        let n = encode_str(name@)->Ok_0;
        let p = T::nbt_payload(value.deep_view())->Ok_0;
        assert(old(writer).bytes().push(tag) + n + p =~= old(writer).bytes() + (seq![tag] + n
            + p));
    }
    Ok(())
}

/// The payloads of `vs`, one after the other, or why the first that cannot
/// be written cannot.
pub open spec fn encode_seq<T: ToNBT>(vs: Seq<<T as DeepView>::V>) -> core::result::Result<Seq<u8>, ErrorKind>
    decreases vs.len(),
{
    if vs.len() == 0 {
        Ok(Seq::empty())
    } else {
        match encode_seq::<T>(vs.drop_last()) {
            Err(k) => Err(k),
            Ok(p) => match T::nbt_payload(vs.last()) {
                Ok(q) => Ok(p + q),
                Err(k) => Err(k),
            },
        }
    }
}

/// An element that cannot be written makes the whole sequence unwritable,
/// for the same reason.
pub proof fn lemma_encode_seq_err<T: ToNBT>(vs: Seq<<T as DeepView>::V>, i: int)
    requires
        0 <= i <= vs.len(),
        encode_seq::<T>(vs.take(i)) is Err,
    ensures
        encode_seq::<T>(vs) == encode_seq::<T>(vs.take(i)),
    decreases vs.len() - i,
{
    if i == vs.len() {
        assert(vs.take(i) =~= vs);
    } else {
        assert(vs.drop_last().take(i) =~= vs.take(i));
        lemma_encode_seq_err::<T>(vs.drop_last(), i);
    }
}

/// The tag of a list's elements: the first element's, or End for an empty
/// list, the way fastnbt writes one.
pub open spec fn list_element_tag<T: ToNBT>(vs: Seq<<T as DeepView>::V>) -> u8 {
    if vs.len() == 0 {
        TAG_END
    } else {
        T::nbt_tag(vs[0])
    }
}

/// The payload a list is written as: the element tag, the length, then the
/// elements' payloads.
pub open spec fn encode_list<T: ToNBT>(vs: Seq<<T as DeepView>::V>) -> core::result::Result<Seq<u8>, ErrorKind> {
    match encode_len(vs.len()) {
        Err(k) => Err(k),
        Ok(l) => match encode_seq::<T>(vs) {
            Ok(p) => Ok(seq![list_element_tag::<T>(vs)] + l + p),
            Err(k) => Err(k),
        },
    }
}

/// Writes a list's payload: the element tag, taken from the first element,
/// the length, then the elements.
pub fn write_list<T: ToNBT>(items: &[T], writer: &mut Writer) -> (res: Result<()>)
    ensures
        match encode_list::<T>(items.deep_view()) {
            Ok(payload) => res is Ok && final(writer).bytes() == old(writer).bytes() + payload,
            Err(kind) => res matches Err(e) && e.0 == kind,
        },
{
    let element = if items.len() == 0 {
        TAG_END
    } else {
        items[0].tag()
    };
    writer.write_tag(element)?;
    writer.write_len(items.len())?;
    let ghost start = writer.bytes();
    let ghost vs = items.deep_view();
    let mut i: usize = 0;
    assert(vs.take(0) =~= Seq::<<T as DeepView>::V>::empty());
    while i < items.len()
        invariant
            i <= items@.len(),
            vs == items.deep_view(),
            encode_len(vs.len()) is Ok,
            encode_seq::<T>(vs.take(i as int)) matches Ok(p) && writer.bytes() == start + p,
        decreases items@.len() - i,
    {
        let ghost before = writer.bytes();
        let written = items[i].write(writer);
        if written.is_err() {
            proof {
                assert(items[i as int].deep_view() == vs[i as int]);
                let k = T::nbt_payload(vs[i as int])->Err_0;
                assert(vs.take(i + 1).drop_last() =~= vs.take(i as int));
                assert(vs.take(i + 1).last() == vs[i as int]);
                assert(encode_seq::<T>(vs.take(i + 1)) == Err::<Seq<u8>, ErrorKind>(k));
                lemma_encode_seq_err::<T>(vs, i + 1);
                assert(encode_list::<T>(vs) == Err::<Seq<u8>, ErrorKind>(k));
            }
            return written;
        }
        proof {
            let p = encode_seq::<T>(vs.take(i as int))->Ok_0;
            let q = T::nbt_payload(vs[i as int])->Ok_0;
            assert(vs.take(i + 1).drop_last() =~= vs.take(i as int));
            assert(vs.take(i + 1).last() == vs[i as int]);
            assert(start + p + q =~= start + (p + q));
        }
        i = i + 1;
    }
    proof {
        assert(vs.take(items@.len() as int) =~= vs);
        let p = encode_seq::<T>(vs)->Ok_0;
        let l = encode_len(vs.len())->Ok_0;
        assert(old(writer).bytes().push(element) + l + p =~= old(writer).bytes() + (seq![element]
            + l + p));
    }
    Ok(())
}

} // verus!
