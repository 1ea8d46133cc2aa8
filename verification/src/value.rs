//! A complete NBT tree, like `serde_json::Value`.
//!
//! Compounds are ordered by key, the order of the keys' UTF-8 bytes, and
//! hold each key once; the name of the root compound is not kept. Floats
//! are kept as the bytes NBT stores.

use vstd::prelude::*;

use std::borrow::Cow;

use crate::arrays::{
    array_payload, decoded_elements, parse_array_of, read_array, whole_elements, write_array,
};
use crate::de::ArrayKind;
use crate::be::{be_encode_signed, F32Be, F64Be};
use crate::error::{Error, ErrorKind, Result};
use crate::opts::{default_de_opts, DeOpts, DeOptsView};
use crate::read::{
    parse_bytes, parse_int, parse_list_header, parse_str, parse_tag, then_seq, FromNBT, Reader,
};
use crate::tag::{
    TAG_BYTE, TAG_BYTE_ARRAY, TAG_COMPOUND, TAG_DOUBLE, TAG_END, TAG_FLOAT, TAG_INT, TAG_INT_ARRAY,
    TAG_LIST, TAG_LONG, TAG_LONG_ARRAY, TAG_SHORT, TAG_STRING,
};
use crate::write::{encode_len, encode_str, ToNBT, Writer};
use vstd::utf8::encode_utf8;

verus! {

/// Any NBT value, owning its data.
///
/// A compound holds its entries in key order, each key once, as reading
/// gives them.
#[derive(Debug)]
pub enum Value {
    Byte(i8),
    Short(i16),
    Int(i32),
    Long(i64),
    Float(F32Be),
    Double(F64Be),
    String(String),
    ByteArray(Vec<i8>),
    IntArray(Vec<i32>),
    LongArray(Vec<i64>),
    List(Vec<Value>),
    Compound(Vec<(String, Value)>),
}

/// A [`Value`]'s contents: floats by their bytes, strings by their text.
pub enum ValueView {
    Byte(i8),
    Short(i16),
    Int(i32),
    Long(i64),
    Float(Seq<u8>),
    Double(Seq<u8>),
    String(Seq<char>),
    ByteArray(Seq<i8>),
    IntArray(Seq<i32>),
    LongArray(Seq<i64>),
    List(Seq<ValueView>),
    Compound(Seq<(Seq<char>, ValueView)>),
}

/// The contents of `v`.
pub open spec fn value_view(v: Value) -> ValueView
    decreases v,
{
    match v {
        Value::Byte(x) => ValueView::Byte(x),
        Value::Short(x) => ValueView::Short(x),
        Value::Int(x) => ValueView::Int(x),
        Value::Long(x) => ValueView::Long(x),
        Value::Float(b) => ValueView::Float(b@),
        Value::Double(b) => ValueView::Double(b@),
        Value::String(s) => ValueView::String(s@),
        Value::ByteArray(a) => ValueView::ByteArray(a@),
        Value::IntArray(a) => ValueView::IntArray(a@),
        Value::LongArray(a) => ValueView::LongArray(a@),
        Value::List(vs) => ValueView::List(
            Seq::new(
                vs@.len(),
                |i: int|
                    if 0 <= i < vs@.len() {
                        value_view(vs@[i])
                    } else {
                        ValueView::Byte(0)
                    },
            ),
        ),
        Value::Compound(es) => ValueView::Compound(
            Seq::new(
                es@.len(),
                |i: int|
                    if 0 <= i < es@.len() {
                        (es@[i].0@, value_view(es@[i].1))
                    } else {
                        (Seq::empty(), ValueView::Byte(0))
                    },
            ),
        ),
    }
}

impl DeepView for Value {
    type V = ValueView;

    open spec fn deep_view(&self) -> ValueView {
        value_view(*self)
    }
}

/// The tag a value of these contents has.
pub open spec fn value_tag(v: ValueView) -> u8 {
    match v {
        ValueView::Byte(_) => TAG_BYTE,
        ValueView::Short(_) => TAG_SHORT,
        ValueView::Int(_) => TAG_INT,
        ValueView::Long(_) => TAG_LONG,
        ValueView::Float(_) => TAG_FLOAT,
        ValueView::Double(_) => TAG_DOUBLE,
        ValueView::String(_) => TAG_STRING,
        ValueView::ByteArray(_) => TAG_BYTE_ARRAY,
        ValueView::IntArray(_) => TAG_INT_ARRAY,
        ValueView::LongArray(_) => TAG_LONG_ARRAY,
        ValueView::List(_) => TAG_LIST,
        ValueView::Compound(_) => TAG_COMPOUND,
    }
}

/// The element tag a list of these values is written with: the first
/// one's, or End for none.
pub open spec fn element_tag(vs: Seq<ValueView>) -> u8 {
    if vs.len() == 0 {
        TAG_END
    } else {
        value_tag(vs[0])
    }
}

/// The payload bytes a value is written as, or why it cannot be.
pub open spec fn encode_value(v: ValueView) -> core::result::Result<Seq<u8>, ErrorKind>
    decreases v, 0nat,
{
    match v {
        ValueView::Byte(x) => Ok(be_encode_signed(x as int, 1)),
        ValueView::Short(x) => Ok(be_encode_signed(x as int, 2)),
        ValueView::Int(x) => Ok(be_encode_signed(x as int, 4)),
        ValueView::Long(x) => Ok(be_encode_signed(x as int, 8)),
        ValueView::Float(b) => Ok(b),
        ValueView::Double(b) => Ok(b),
        ValueView::String(t) => encode_str(t),
        ValueView::ByteArray(a) => array_payload(a),
        ValueView::IntArray(a) => array_payload(a),
        ValueView::LongArray(a) => array_payload(a),
        ValueView::List(vs) => match encode_len(vs.len()) {
            Err(k) => Err(k),
            Ok(l) => match encode_values(vs) {
                Err(k) => Err(k),
                Ok(p) => Ok(seq![element_tag(vs)] + l + p),
            },
        },
        ValueView::Compound(es) => match encode_entries(es) {
            Err(k) => Err(k),
            Ok(p) => Ok(p.push(TAG_END)),
        },
    }
}

/// The payloads of `vs`, one after the other, or why the first that cannot
/// be written cannot be.
pub open spec fn encode_values(vs: Seq<ValueView>) -> core::result::Result<Seq<u8>, ErrorKind>
    decreases vs, 1nat,
{
    if vs.len() == 0 {
        Ok(Seq::empty())
    } else {
        match encode_values(vs.drop_last()) {
            Err(k) => Err(k),
            Ok(p) => match encode_value(vs.last()) {
                Err(k) => Err(k),
                Ok(q) => Ok(p + q),
            },
        }
    }
}

/// The entries of a compound, each its value's tag, its name and its
/// payload, one after the other; or why the first that cannot be written
/// cannot be.
pub open spec fn encode_entries(es: Seq<(Seq<char>, ValueView)>) -> core::result::Result<Seq<u8>, ErrorKind>
    decreases es, 1nat,
{
    if es.len() == 0 {
        Ok(Seq::empty())
    } else {
        match encode_entries(es.drop_last()) {
            Err(k) => Err(k),
            Ok(p) => match encode_str(es.last().0) {
                Err(k) => Err(k),
                Ok(n) => match encode_value(es.last().1) {
                    Err(k) => Err(k),
                    Ok(q) => Ok(p + (seq![value_tag(es.last().1)] + n + q)),
                },
            },
        }
    }
}

impl Value {
    /// The tag this value has.
    pub fn tag(&self) -> (tag: u8)
        ensures
            tag == value_tag(self.deep_view()),
    {
        match self {
            Value::Byte(_) => TAG_BYTE,
            Value::Short(_) => TAG_SHORT,
            Value::Int(_) => TAG_INT,
            Value::Long(_) => TAG_LONG,
            Value::Float(_) => TAG_FLOAT,
            Value::Double(_) => TAG_DOUBLE,
            Value::String(_) => TAG_STRING,
            Value::ByteArray(_) => TAG_BYTE_ARRAY,
            Value::IntArray(_) => TAG_INT_ARRAY,
            Value::LongArray(_) => TAG_LONG_ARRAY,
            Value::List(_) => TAG_LIST,
            Value::Compound(_) => TAG_COMPOUND,
        }
    }

    /// An integer value widened to `i64`; `None` for every other value,
    /// floats included.
    pub fn as_integer(&self) -> (n: Option<i64>)
        ensures
            n == (match self.deep_view() {
                ValueView::Byte(x) => Some(x as i64),
                ValueView::Short(x) => Some(x as i64),
                ValueView::Int(x) => Some(x as i64),
                ValueView::Long(x) => Some(x),
                _ => None::<i64>,
            }),
    {
        match self {
            Value::Byte(x) => Some(*x as i64),
            Value::Short(x) => Some(*x as i64),
            Value::Int(x) => Some(*x as i64),
            Value::Long(x) => Some(*x),
            _ => None,
        }
    }

    /// The text of a string value.
    pub fn as_str(&self) -> (text: Option<&str>)
        ensures
            self.deep_view() matches ValueView::String(t) ==> (text matches Some(x) && x@ == t),
            !(self.deep_view() is String) ==> text is None,
    {
        match self {
            Value::String(s) => Some(s.as_str()),
            _ => None,
        }
    }
}

/// Writes a value's payload.
pub fn write_value(v: &Value, writer: &mut Writer) -> (res: Result<()>)
    ensures
        match encode_value(value_view(*v)) {
            Ok(payload) => res is Ok && final(writer).bytes() == old(writer).bytes() + payload,
            Err(kind) => res matches Err(e) && e.0 == kind,
        },
    decreases v,
{
    match v {
        Value::Byte(x) => writer.write_i8(*x),
        Value::Short(x) => writer.write_i16(*x),
        Value::Int(x) => writer.write_i32(*x),
        Value::Long(x) => writer.write_i64(*x),
        Value::Float(b) => writer.write_bytes(b.as_bytes()),
        Value::Double(b) => writer.write_bytes(b.as_bytes()),
        Value::String(s) => writer.write_str(s.as_str()),
        Value::ByteArray(a) => write_array(a.as_slice(), writer),
        Value::IntArray(a) => write_array(a.as_slice(), writer),
        Value::LongArray(a) => write_array(a.as_slice(), writer),
        Value::List(vs) => {
            let ghost views = value_view(*v)->List_0;
            let element = if vs.len() == 0 {
                TAG_END
            } else {
                vs[0].tag()
            };
            writer.write_tag(element)?;
            writer.write_len(vs.len())?;
            let ghost start = writer.bytes();
            let mut i: usize = 0;
            assert(views.take(0) =~= Seq::<ValueView>::empty());
            while i < vs.len()
                invariant
                    i <= vs@.len(),
                    *v == Value::List(*vs),
                    views == value_view(*v)->List_0,
                    views.len() == vs@.len(),
                    forall|j: int| 0 <= j < vs@.len() ==> #[trigger] views[j] == value_view(vs@[j]),
                    encode_len(vs@.len() as nat) is Ok,
                    start == old(writer).bytes() + seq![element_tag(views)] + encode_len(vs@.len() as nat)->Ok_0,
                    encode_values(views.take(i as int)) matches Ok(p) && writer.bytes() == start + p,
                decreases vs@.len() - i,
            {
                proof {
                    assert(decreases_to!(*v => v->List_0));
                    assert(decreases_to!(*vs => vs@));
                    assert(decreases_to!(vs@ => vs@[i as int]));
                }
                let r = write_value(&vs[i], writer);
                proof {
                    let t = views.take(i + 1);
                    assert(t.drop_last() =~= views.take(i as int));
                    assert(t.last() == views[i as int]);
                }
                if r.is_err() {
                    proof {
                        lemma_encode_values_err(views, i + 1);
                    }
                    return r;
                }
                proof {
                    let p = encode_values(views.take(i as int))->Ok_0;
                    let q = encode_value(views[i as int])->Ok_0;
                    assert(writer.bytes() =~= start + (p + q));
                }
                i = i + 1;
            }
            assert(views.take(vs@.len() as int) =~= views);
            proof {
                let l = encode_len(vs@.len() as nat)->Ok_0;
                let p = encode_values(views)->Ok_0;
                assert(writer.bytes() =~= old(writer).bytes() + (seq![element_tag(views)] + l + p));
            }
            Ok(())
        },
        Value::Compound(es) => {
            let ghost entries = value_view(*v)->Compound_0;
            let mut i: usize = 0;
            assert(entries.take(0) =~= Seq::<(Seq<char>, ValueView)>::empty());
            while i < es.len()
                invariant
                    i <= es@.len(),
                    *v == Value::Compound(*es),
                    entries == value_view(*v)->Compound_0,
                    entries.len() == es@.len(),
                    forall|j: int| 0 <= j < es@.len() ==> #[trigger] entries[j] == (es@[j].0@, value_view(es@[j].1)),
                    encode_entries(entries.take(i as int)) matches Ok(p) && writer.bytes() == old(writer).bytes() + p,
                decreases es@.len() - i,
            {
                proof {
                    assert(decreases_to!(*v => v->Compound_0));
                    assert(decreases_to!(*es => es@));
                    assert(decreases_to!(es@ => es@[i as int]));
                    assert(decreases_to!(es@[i as int] => es@[i as int].1));
                }
                let entry = &es[i];
                proof {
                    let t = entries.take(i + 1);
                    assert(t.drop_last() =~= entries.take(i as int));
                    assert(t.last() == entries[i as int]);
                }
                writer.write_tag(entry.1.tag())?;
                let r = writer.write_name(entry.0.as_str());
                if r.is_err() {
                    proof {
                        lemma_encode_entries_err(entries, i + 1);
                    }
                    return r;
                }
                let r = write_value(&entry.1, writer);
                if r.is_err() {
                    proof {
                        lemma_encode_entries_err(entries, i + 1);
                    }
                    return r;
                }
                proof {
                    let p = encode_entries(entries.take(i as int))->Ok_0;
                    let n = encode_str(entries[i as int].0)->Ok_0;
                    let q = encode_value(entries[i as int].1)->Ok_0;
                    assert(writer.bytes() =~= old(writer).bytes() + (p + (seq![value_tag(entries[i as int].1)] + n + q)));
                }
                i = i + 1;
            }
            assert(entries.take(es@.len() as int) =~= entries);
            writer.write_end()?;
            Ok(())
        },
    }
}

/// A value that cannot be written makes the whole sequence unwritable, for
/// the same reason.
proof fn lemma_encode_values_err(vs: Seq<ValueView>, i: int)
    requires
        0 <= i <= vs.len(),
        encode_values(vs.take(i)) is Err,
    ensures
        encode_values(vs) == encode_values(vs.take(i)),
    decreases vs.len() - i,
{
    if i < vs.len() {
        let t = vs.take(i + 1);
        assert(t.drop_last() =~= vs.take(i));
        lemma_encode_values_err(vs, i + 1);
    } else {
        assert(vs.take(i) =~= vs);
    }
}

/// An entry that cannot be written makes the whole compound unwritable, for
/// the same reason.
proof fn lemma_encode_entries_err(es: Seq<(Seq<char>, ValueView)>, i: int)
    requires
        0 <= i <= es.len(),
        encode_entries(es.take(i)) is Err,
    ensures
        encode_entries(es) == encode_entries(es.take(i)),
    decreases es.len() - i,
{
    if i < es.len() {
        let t = es.take(i + 1);
        assert(t.drop_last() =~= es.take(i));
        lemma_encode_entries_err(es, i + 1);
    } else {
        assert(es.take(i) =~= es);
    }
}

/// Whether `a` sorts before `b` byte by byte, a proper prefix first.
pub open spec fn bytes_less(a: Seq<u8>, b: Seq<u8>) -> bool
    decreases a.len(),
{
    if b.len() == 0 {
        false
    } else if a.len() == 0 {
        true
    } else if a[0] != b[0] {
        a[0] < b[0]
    } else {
        bytes_less(a.drop_first(), b.drop_first())
    }
}

/// Whether compound key `a` sorts before key `b`: by their UTF-8 bytes,
/// which is how `String` orders.
pub open spec fn key_less(a: Seq<char>, b: Seq<char>) -> bool {
    bytes_less(encode_utf8(a), encode_utf8(b))
}

/// A common prefix does not change which of two byte strings sorts first.
proof fn lemma_bytes_less_skip(a: Seq<u8>, b: Seq<u8>, i: int)
    requires
        0 <= i <= a.len(),
        i <= b.len(),
        a.take(i) == b.take(i),
    ensures
        bytes_less(a, b) == bytes_less(a.skip(i), b.skip(i)),
    decreases i,
{
    if i == 0 {
        assert(a.skip(0) =~= a);
        assert(b.skip(0) =~= b);
    } else {
        assert(a[0] == a.take(i)[0]);
        assert(b[0] == b.take(i)[0]);
        assert(a.drop_first().take(i - 1) =~= a.take(i).drop_first());
        assert(b.drop_first().take(i - 1) =~= b.take(i).drop_first());
        lemma_bytes_less_skip(a.drop_first(), b.drop_first(), i - 1);
        assert(a.drop_first().skip(i - 1) =~= a.skip(i));
        assert(b.drop_first().skip(i - 1) =~= b.skip(i));
    }
}

/// Where one compound key stands relative to another.
enum KeyOrder {
    Before,
    Same,
    After,
}

/// Compares two compound keys by their UTF-8 bytes.
fn key_order(a: &str, b: &str) -> (r: KeyOrder)
    ensures
        r is Before <==> key_less(a@, b@),
        r is Same <==> a@ == b@,
{
    proof {
        vstd::utf8::encode_utf8_decode_utf8(a@);
        vstd::utf8::encode_utf8_decode_utf8(b@);
    }
    let x = a.as_bytes();
    let y = b.as_bytes();
    let n: usize = if x.len() < y.len() { x.len() } else { y.len() };
    let mut i: usize = 0;
    while i < n
        invariant
            n <= x@.len(),
            n <= y@.len(),
            n == x@.len() || n == y@.len(),
            x@ == encode_utf8(a@),
            y@ == encode_utf8(b@),
            i <= n,
            x@.take(i as int) == y@.take(i as int),
        decreases n - i,
    {
        if x[i] != y[i] {
            proof {
                lemma_bytes_less_skip(x@, y@, i as int);
            }
            if x[i] < y[i] {
                return KeyOrder::Before;
            } else {
                return KeyOrder::After;
            }
        }
        assert(x@.take(i + 1) =~= x@.take(i as int).push(x@[i as int]));
        assert(y@.take(i + 1) =~= y@.take(i as int).push(y@[i as int]));
        i = i + 1;
    }
    proof {
        lemma_bytes_less_skip(x@, y@, i as int);
    }
    if x.len() < y.len() {
        KeyOrder::Before
    } else if x.len() == y.len() {
        assert(x@ =~= x@.take(i as int));
        assert(y@ =~= y@.take(i as int));
        KeyOrder::Same
    } else {
        KeyOrder::After
    }
}

/// `es` with `value` under `key`: in place of the entry with that key, or
/// as a new entry before the first key that sorts after it.
pub open spec fn with_entry(es: Seq<(Seq<char>, ValueView)>, key: Seq<char>, value: ValueView) -> Seq<(Seq<char>, ValueView)>
    decreases es.len(),
{
    if es.len() == 0 {
        seq![(key, value)]
    } else if es[0].0 == key {
        es.update(0, (key, value))
    } else if key_less(key, es[0].0) {
        seq![(key, value)] + es
    } else {
        seq![es[0]] + with_entry(es.drop_first(), key, value)
    }
}

/// The compound the entries `es` make, put in one after the other: a
/// later entry replaces an earlier one with the same key.
pub open spec fn compound_of(es: Seq<(Seq<char>, ValueView)>) -> Seq<(Seq<char>, ValueView)>
    decreases es.len(),
{
    if es.len() == 0 {
        Seq::empty()
    } else {
        with_entry(compound_of(es.drop_last()), es.last().0, es.last().1)
    }
}

/// The contents of a compound's entries.
pub open spec fn entries_view(es: Seq<(String, Value)>) -> Seq<(Seq<char>, ValueView)> {
    Seq::new(es.len(), |i: int| (es[i].0@, value_view(es[i].1)))
}

/// The contents of a list's values.
pub open spec fn values_view(vs: Seq<Value>) -> Seq<ValueView> {
    Seq::new(vs.len(), |i: int| value_view(vs[i]))
}

/// Entries that all sort before a key leave the front of the compound as
/// it is.
pub(crate) proof fn lemma_with_entry_skip(es: Seq<(Seq<char>, ValueView)>, key: Seq<char>, value: ValueView, i: int)
    requires
        0 <= i <= es.len(),
        forall|j: int| 0 <= j < i ==> es[j].0 != key && !key_less(key, #[trigger] es[j].0),
    ensures
        with_entry(es, key, value) == es.take(i) + with_entry(es.skip(i), key, value),
    decreases i,
{
    if i == 0 {
        assert(es.skip(0) =~= es);
        assert(es.take(0) + with_entry(es, key, value) =~= with_entry(es, key, value));
    } else {
        assert(es[0].0 != key && !key_less(key, es[0].0));
        lemma_with_entry_skip(es.drop_first(), key, value, i - 1);
        assert(es.drop_first().skip(i - 1) =~= es.skip(i));
        assert(seq![es[0]] + (es.drop_first().take(i - 1) + with_entry(es.skip(i), key, value))
            =~= es.take(i) + with_entry(es.skip(i), key, value));
    }
}

/// Puts `value` under `key` in a compound's entries, in place of an entry
/// with that key, or as a new entry in key order: how a compound is
/// collected entry by entry.
pub fn insert_entry(entries: &mut Vec<(String, Value)>, key: String, value: Value)
    ensures
        entries_view(final(entries)@) == with_entry(entries_view(old(entries)@), key@, value_view(value)),
{
    let ghost es = entries_view(entries@);
    let ghost v = value_view(value);
    let mut i: usize = 0;
    while i < entries.len()
        invariant
            i <= entries@.len(),
            entries@ == old(entries)@,
            es == entries_view(old(entries)@),
            v == value_view(value),
            forall|j: int| 0 <= j < i ==> es[j].0 != key@ && !key_less(key@, #[trigger] es[j].0),
        decreases entries@.len() - i,
    {
        let order = key_order(key.as_str(), entries[i].0.as_str());
        match order {
            KeyOrder::Same => {
                proof {
                    lemma_with_entry_skip(es, key@, v, i as int);
                    assert(es.skip(i as int)[0] == es[i as int]);
                    assert(es.take(i as int) + es.skip(i as int).update(0, (key@, v)) =~= es.update(i as int, (key@, v)));
                }
                entries.set(i, (key, value));
                assert(entries_view(entries@) =~= es.update(i as int, (key@, v)));
                return;
            },
            KeyOrder::Before => {
                proof {
                    lemma_with_entry_skip(es, key@, v, i as int);
                    assert(es.skip(i as int)[0] == es[i as int]);
                    assert(es.take(i as int) + (seq![(key@, v)] + es.skip(i as int)) =~= es.insert(i as int, (key@, v)));
                }
                entries.insert(i, (key, value));
                assert(entries_view(entries@) =~= es.insert(i as int, (key@, v)));
                return;
            },
            KeyOrder::After => {},
        }
        i = i + 1;
    }
    proof {
        lemma_with_entry_skip(es, key@, v, i as int);
        assert(es.skip(i as int) =~= Seq::<(Seq<char>, ValueView)>::empty());
        assert(es.take(i as int) + seq![(key@, v)] =~= es.push((key@, v)));
    }
    entries.push((key, value));
    assert(entries_view(entries@) =~= es.push((key@, v)));
}

/// What reading a value of `tag` from the front of `rest` gives, with
/// `depth` lists and compounds open: its contents and how many bytes it
/// takes, or why it cannot be read.
pub open spec fn parse_value(tag: u8, rest: Seq<u8>, depth: nat, opts: DeOptsView) -> core::result::Result<(ValueView, nat), ErrorKind>
    decreases opts.max_depth - depth, rest.len(), 0nat,
{
    if tag == TAG_BYTE {
        match parse_int(rest, 1) {
            Ok((x, n)) => Ok((ValueView::Byte(x as i8), n)),
            Err(k) => Err(k),
        }
    } else if tag == TAG_SHORT {
        match parse_int(rest, 2) {
            Ok((x, n)) => Ok((ValueView::Short(x as i16), n)),
            Err(k) => Err(k),
        }
    } else if tag == TAG_INT {
        match parse_int(rest, 4) {
            Ok((x, n)) => Ok((ValueView::Int(x as i32), n)),
            Err(k) => Err(k),
        }
    } else if tag == TAG_LONG {
        match parse_int(rest, 8) {
            Ok((x, n)) => Ok((ValueView::Long(x as i64), n)),
            Err(k) => Err(k),
        }
    } else if tag == TAG_FLOAT {
        match parse_bytes(rest, 4) {
            Ok((b, n)) => Ok((ValueView::Float(b), n)),
            Err(k) => Err(k),
        }
    } else if tag == TAG_DOUBLE {
        match parse_bytes(rest, 8) {
            Ok((b, n)) => Ok((ValueView::Double(b), n)),
            Err(k) => Err(k),
        }
    } else if tag == TAG_STRING {
        match parse_str(rest) {
            Ok((t, n)) => Ok((ValueView::String(t), n)),
            Err(k) => Err(k),
        }
    } else if tag == TAG_BYTE_ARRAY {
        match parse_array_of::<i8>(tag, rest, opts) {
            Ok((a, n)) => Ok((ValueView::ByteArray(a), n)),
            Err(k) => Err(k),
        }
    } else if tag == TAG_INT_ARRAY {
        match parse_array_of::<i32>(tag, rest, opts) {
            Ok((a, n)) => Ok((ValueView::IntArray(a), n)),
            Err(k) => Err(k),
        }
    } else if tag == TAG_LONG_ARRAY {
        match parse_array_of::<i64>(tag, rest, opts) {
            Ok((a, n)) => Ok((ValueView::LongArray(a), n)),
            Err(k) => Err(k),
        }
    } else if tag == TAG_LIST {
        match parse_list_header(rest, opts) {
            Err(k) => Err(k),
            Ok(((element, len), _)) => if element == TAG_END {
                if len == 0 {
                    Ok((ValueView::List(Seq::empty()), 5))
                } else {
                    Err(ErrorKind::ListOfEnd)
                }
            } else if depth >= opts.max_depth {
                Err(ErrorKind::TooDeep)
            } else {
                match parse_values(element, len, rest.skip(5), depth + 1, opts) {
                    Ok((vs, n)) => Ok((ValueView::List(vs), 5 + n)),
                    Err(k) => Err(k),
                }
            },
        }
    } else if tag == TAG_COMPOUND {
        if depth >= opts.max_depth {
            Err(ErrorKind::TooDeep)
        } else {
            match parse_entries(rest, depth + 1, opts) {
                Ok((es, n)) => Ok((ValueView::Compound(compound_of(es)), n)),
                Err(k) => Err(k),
            }
        }
    } else {
        Err(ErrorKind::InvalidTag(tag))
    }
}

/// What reading `count` values of `element` from the front of `rest`
/// gives.
pub open spec fn parse_values(element: u8, count: nat, rest: Seq<u8>, depth: nat, opts: DeOptsView) -> core::result::Result<(Seq<ValueView>, nat), ErrorKind>
    decreases opts.max_depth - depth, rest.len(), count + 1,
{
    if count == 0 {
        Ok((Seq::empty(), 0))
    } else {
        match parse_value(element, rest, depth, opts) {
            Err(k) => Err(k),
            Ok((v, n)) => if n > rest.len() {
                Err(ErrorKind::UnexpectedEof)
            } else {
                then_seq(seq![v], n, parse_values(element, (count - 1) as nat, rest.skip(n as int), depth, opts))
            },
        }
    }
}

/// What reading a compound's entries gives, in the order they come, up to
/// and with the End tag that closes it.
pub open spec fn parse_entries(rest: Seq<u8>, depth: nat, opts: DeOptsView) -> core::result::Result<(Seq<(Seq<char>, ValueView)>, nat), ErrorKind>
    decreases opts.max_depth - depth, rest.len(), 1nat,
{
    match parse_tag(rest) {
        Err(k) => Err(k),
        Ok((tag, _)) => if tag == TAG_END {
            Ok((Seq::empty(), 1))
        } else {
            match parse_str(rest.skip(1)) {
                Err(k) => Err(k),
                Ok((name, m)) => if 1 + m > rest.len() {
                    Err(ErrorKind::UnexpectedEof)
                } else {
                    match parse_value(tag, rest.skip((1 + m) as int), depth, opts) {
                        Err(k) => Err(k),
                        Ok((v, n)) => if 1 + m + n > rest.len() {
                            Err(ErrorKind::UnexpectedEof)
                        } else {
                            then_seq(seq![(name, v)], 1 + m + n, parse_entries(rest.skip((1 + m + n) as int), depth, opts))
                        },
                    }
                },
            }
        },
    }
}

/// Reads the payload of a value of `tag`.
pub fn read_value<'de>(tag: u8, reader: &mut Reader<'de>) -> (res: Result<Value>)
    requires
        old(reader).wf(),
    ensures
        final(reader).wf(),
        final(reader).depth() == old(reader).depth(),
        final(reader).opts() == old(reader).opts(),
        match parse_value(tag, old(reader).rest(), old(reader).depth(), old(reader).opts()) {
            Ok((v, k)) => (res matches Ok(x) && value_view(x) == v) && k <= old(reader).rest().len()
                && final(reader).rest() == old(reader).rest().skip(k as int),
            Err(kind) => res matches Err(e) && e.0 == kind,
        },
    decreases old(reader).opts().max_depth - old(reader).depth(), old(reader).rest().len(), 1nat,
{
    if tag == TAG_BYTE {
        Ok(Value::Byte(reader.read_i8()?))
    } else if tag == TAG_SHORT {
        Ok(Value::Short(reader.read_i16()?))
    } else if tag == TAG_INT {
        Ok(Value::Int(reader.read_i32()?))
    } else if tag == TAG_LONG {
        Ok(Value::Long(reader.read_i64()?))
    } else if tag == TAG_FLOAT {
        let b = reader.take(4)?;
        let array = [b[0], b[1], b[2], b[3]];
        assert(array@ =~= b@);
        Ok(Value::Float(F32Be::from_bytes(array)))
    } else if tag == TAG_DOUBLE {
        let b = reader.take(8)?;
        let array = [b[0], b[1], b[2], b[3], b[4], b[5], b[6], b[7]];
        assert(array@ =~= b@);
        Ok(Value::Double(F64Be::from_bytes(array)))
    } else if tag == TAG_STRING {
        match reader.read_str()? {
            Cow::Borrowed(text) => Ok(Value::String(text.to_owned())),
            Cow::Owned(text) => Ok(Value::String(text)),
        }
    } else if tag == TAG_BYTE_ARRAY {
        Ok(Value::ByteArray(read_array(tag, reader)?))
    } else if tag == TAG_INT_ARRAY {
        Ok(Value::IntArray(read_array(tag, reader)?))
    } else if tag == TAG_LONG_ARRAY {
        Ok(Value::LongArray(read_array(tag, reader)?))
    } else if tag == TAG_LIST {
        read_list_value(reader)
    } else if tag == TAG_COMPOUND {
        read_compound_value(reader)
    } else {
        Err(Error::invalid_tag(tag))
    }
}

/// Reads the payload of a list value.
fn read_list_value<'de>(reader: &mut Reader<'de>) -> (res: Result<Value>)
    requires
        old(reader).wf(),
    ensures
        final(reader).wf(),
        final(reader).depth() == old(reader).depth(),
        final(reader).opts() == old(reader).opts(),
        match parse_value(TAG_LIST, old(reader).rest(), old(reader).depth(), old(reader).opts()) {
            Ok((v, k)) => (res matches Ok(x) && value_view(x) == v) && k <= old(reader).rest().len()
                && final(reader).rest() == old(reader).rest().skip(k as int),
            Err(kind) => res matches Err(e) && e.0 == kind,
        },
    decreases old(reader).opts().max_depth - old(reader).depth(), old(reader).rest().len(), 0nat,
{
    let (element, len) = reader.read_list_header()?;
    if element == TAG_END {
        // A list of End is empty, or a cheap way to allocate without bound.
        if len == 0 {
            let empty: Vec<Value> = Vec::new();
            assert(value_view(Value::List(empty)) == ValueView::List(Seq::empty())) by {
                assert(value_view(Value::List(empty))->List_0 =~= Seq::<ValueView>::empty());
            }
            return Ok(Value::List(empty));
        } else {
            return Err(Error::list_of_end());
        }
    }
    reader.enter()?;
    let result = read_values(element, len, reader);
    reader.leave();
    proof {
        let r = old(reader).rest();
        if let Ok((_, k)) = parse_values(element, len as nat, r.skip(5), old(reader).depth() + 1, old(reader).opts()) {
            assert(r.skip(5).skip(k as int) =~= r.skip(5 + k as int));
        }
    }
    match result {
        Ok(vs) => {
            assert(value_view(Value::List(vs))->List_0 =~= values_view(vs@));
            Ok(Value::List(vs))
        },
        Err(e) => Err(e),
    }
}

/// Reads the payload of a compound value.
fn read_compound_value<'de>(reader: &mut Reader<'de>) -> (res: Result<Value>)
    requires
        old(reader).wf(),
    ensures
        final(reader).wf(),
        final(reader).depth() == old(reader).depth(),
        final(reader).opts() == old(reader).opts(),
        match parse_value(TAG_COMPOUND, old(reader).rest(), old(reader).depth(), old(reader).opts()) {
            Ok((v, k)) => (res matches Ok(x) && value_view(x) == v) && k <= old(reader).rest().len()
                && final(reader).rest() == old(reader).rest().skip(k as int),
            Err(kind) => res matches Err(e) && e.0 == kind,
        },
    decreases old(reader).opts().max_depth - old(reader).depth(), old(reader).rest().len(), 0nat,
{
    reader.enter()?;
    let result = read_entries(reader);
    reader.leave();
    match result {
        Ok(es) => {
            assert(value_view(Value::Compound(es))->Compound_0 =~= entries_view(es@));
            Ok(Value::Compound(es))
        },
        Err(e) => Err(e),
    }
}

/// Reads `len` values of `element`, the list's header already read.
fn read_values<'de>(element: u8, len: usize, reader: &mut Reader<'de>) -> (res: Result<Vec<Value>>)
    requires
        old(reader).wf(),
    ensures
        final(reader).wf(),
        final(reader).depth() == old(reader).depth(),
        final(reader).opts() == old(reader).opts(),
        match parse_values(element, len as nat, old(reader).rest(), old(reader).depth(), old(reader).opts()) {
            Ok((vs, k)) => (res matches Ok(x) && values_view(x@) == vs) && k <= old(reader).rest().len()
                && final(reader).rest() == old(reader).rest().skip(k as int),
            Err(kind) => res matches Err(e) && e.0 == kind,
        },
    decreases old(reader).opts().max_depth - old(reader).depth(), old(reader).rest().len(), len + 2,
{
    let ghost start = reader.rest();
    let ghost depth = reader.depth();
    let ghost opts = reader.opts();
    let ghost mut used: nat = 0;
    assert(start.skip(0) =~= start);
    let mut items: Vec<Value> = Vec::new();
    assert(values_view(items@) =~= Seq::<ValueView>::empty());
    let mut i: usize = 0;
    while i < len
        invariant
            i <= len,
            reader.wf(),
            reader.depth() == depth,
            reader.opts() == opts,
            depth == old(reader).depth(),
            opts == old(reader).opts(),
            start == old(reader).rest(),
            used <= start.len(),
            reader.rest() == start.skip(used as int),
            parse_values(element, len as nat, start, depth, opts) == then_seq(
                values_view(items@),
                used,
                parse_values(element, (len - i) as nat, reader.rest(), depth, opts),
            ),
        decreases len - i,
    {
        let ghost cur = reader.rest();
        let item = read_value(element, reader)?;
        proof {
            let (v, n) = parse_value(element, cur, depth, opts)->Ok_0;
            assert(cur.skip(n as int) =~= start.skip((used + n) as int));
            let before = values_view(items@);
            used = used + n;
            match parse_values(element, (len - i - 1) as nat, reader.rest(), depth, opts) {
                Ok((vs, m)) => {
                    assert(before + (seq![v] + vs) =~= before.push(v) + vs);
                },
                Err(_) => {},
            }
        }
        let ghost before = values_view(items@);
        items.push(item);
        assert(values_view(items@) =~= before.push(value_view(item)));
        i = i + 1;
    }
    assert(values_view(items@) + Seq::<ValueView>::empty() =~= values_view(items@));
    Ok(items)
}

/// Reads a compound's entries up to and with its End tag, putting each in
/// key order as it comes.
fn read_entries<'de>(reader: &mut Reader<'de>) -> (res: Result<Vec<(String, Value)>>)
    requires
        old(reader).wf(),
    ensures
        final(reader).wf(),
        final(reader).depth() == old(reader).depth(),
        final(reader).opts() == old(reader).opts(),
        match parse_entries(old(reader).rest(), old(reader).depth(), old(reader).opts()) {
            Ok((es, k)) => (res matches Ok(x) && entries_view(x@) == compound_of(es)) && k <= old(reader).rest().len()
                && final(reader).rest() == old(reader).rest().skip(k as int),
            Err(kind) => res matches Err(e) && e.0 == kind,
        },
    decreases old(reader).opts().max_depth - old(reader).depth(), old(reader).rest().len(), 2nat,
{
    let ghost start = reader.rest();
    let ghost depth = reader.depth();
    let ghost opts = reader.opts();
    let ghost mut used: nat = 0;
    let ghost mut read: Seq<(Seq<char>, ValueView)> = Seq::empty();
    assert(start.skip(0) =~= start);
    let mut entries: Vec<(String, Value)> = Vec::new();
    assert(entries_view(entries@) =~= compound_of(read));
    loop
        invariant
            reader.wf(),
            reader.depth() == depth,
            reader.opts() == opts,
            depth == old(reader).depth(),
            opts == old(reader).opts(),
            start == old(reader).rest(),
            used <= start.len(),
            reader.rest() == start.skip(used as int),
            entries_view(entries@) == compound_of(read),
            parse_entries(start, depth, opts) == then_seq(read, used, parse_entries(reader.rest(), depth, opts)),
        decreases reader.rest().len(),
    {
        let ghost cur = reader.rest();
        let tag = reader.read_tag()?;
        if tag == TAG_END {
            assert(read + Seq::<(Seq<char>, ValueView)>::empty() =~= read);
            assert(cur.skip(1) =~= start.skip((used + 1) as int));
            return Ok(entries);
        }
        let name = reader.read_name()?;
        let ghost m = parse_str(cur.skip(1))->Ok_0.1;
        assert(cur.skip(1).skip(m as int) =~= cur.skip((1 + m) as int));
        let key: String = match name {
            Cow::Borrowed(text) => text.to_owned(),
            Cow::Owned(text) => text,
        };
        let value = read_value(tag, reader)?;
        proof {
            let t = parse_str(cur.skip(1))->Ok_0.0;
            let (v, n) = parse_value(tag, cur.skip((1 + m) as int), depth, opts)->Ok_0;
            lemma_entry_step(start, cur, used, read, t, m, v, n, tag, depth, opts);
            used = used + 1 + m + n;
            read = read.push((t, v));
        }
        insert_entry(&mut entries, key, value);
    }
}

/// One entry read: what is left of the compound, after the entries read
/// so far and this one, gives what the whole gives.
proof fn lemma_entry_step(
    start: Seq<u8>,
    cur: Seq<u8>,
    used: nat,
    read: Seq<(Seq<char>, ValueView)>,
    name: Seq<char>,
    m: nat,
    v: ValueView,
    n: nat,
    tag: u8,
    depth: nat,
    opts: DeOptsView,
)
    requires
        used <= start.len(),
        cur == start.skip(used as int),
        parse_entries(start, depth, opts) == then_seq(read, used, parse_entries(cur, depth, opts)),
        parse_tag(cur) == Ok::<(u8, nat), ErrorKind>((tag, 1)),
        tag != TAG_END,
        parse_str(cur.skip(1)) == Ok::<(Seq<char>, nat), ErrorKind>((name, m)),
        1 + m <= cur.len(),
        parse_value(tag, cur.skip((1 + m) as int), depth, opts) == Ok::<(ValueView, nat), ErrorKind>((v, n)),
        n <= cur.len() - 1 - m,
    ensures
        used + 1 + m + n <= start.len(),
        cur.skip((1 + m) as int).skip(n as int) == start.skip((used + 1 + m + n) as int),
        parse_entries(start, depth, opts) == then_seq(
            read.push((name, v)),
            used + 1 + m + n,
            parse_entries(start.skip((used + 1 + m + n) as int), depth, opts),
        ),
        compound_of(read.push((name, v))) == with_entry(compound_of(read), name, v),
{
    assert(cur.skip((1 + m) as int).skip(n as int) =~= start.skip((used + 1 + m + n) as int));
    assert(cur.skip((1 + m + n) as int) =~= start.skip((used + 1 + m + n) as int));
    let entry = (name, v);
    assert(parse_entries(cur, depth, opts) == then_seq(seq![entry], 1 + m + n, parse_entries(cur.skip((1 + m + n) as int), depth, opts)));
    match parse_entries(start.skip((used + 1 + m + n) as int), depth, opts) {
        Ok((es, p)) => {
            assert(read + (seq![entry] + es) =~= read.push(entry) + es);
        },
        Err(_) => {},
    }
    assert(read.push(entry).drop_last() =~= read);
}

/// Whether the entries' keys are in strictly increasing order, which is
/// the order reading puts them in.
pub open spec fn keys_sorted(es: Seq<(Seq<char>, ValueView)>) -> bool {
    forall|i: int, j: int| 0 <= i < j < es.len() ==> key_less(#[trigger] es[i].0, #[trigger] es[j].0)
}

/// Whether a value reads back as it was written, `depth` levels deep under
/// the limits `opts` sets: floats hold their four or eight bytes; arrays
/// and lists are not longer than `max_seq_len`; a list's elements all have
/// the first one's tag; a compound's keys are sorted, each once; and a
/// non-empty list or a compound is not deeper than `max_depth`.
pub open spec fn value_fits(v: ValueView, depth: nat, opts: DeOptsView) -> bool
    decreases v,
{
    match v {
        ValueView::Float(b) => b.len() == 4,
        ValueView::Double(b) => b.len() == 8,
        ValueView::ByteArray(a) => a.len() <= opts.max_seq_len,
        ValueView::IntArray(a) => a.len() <= opts.max_seq_len && a.len() * 4 <= usize::MAX,
        ValueView::LongArray(a) => a.len() <= opts.max_seq_len && a.len() * 8 <= usize::MAX,
        ValueView::List(vs) => {
            &&& vs.len() <= opts.max_seq_len
            &&& vs.len() > 0 ==> depth < opts.max_depth
            &&& forall|i: int| 0 <= i < vs.len() ==> value_tag(#[trigger] vs[i]) == element_tag(vs)
            &&& forall|i: int| 0 <= i < vs.len() ==> value_fits(#[trigger] vs[i], depth + 1, opts)
        },
        ValueView::Compound(es) => {
            &&& depth < opts.max_depth
            &&& keys_sorted(es)
            &&& forall|i: int| 0 <= i < es.len() ==> value_fits(#[trigger] es[i].1, depth + 1, opts)
        },
        _ => true,
    }
}

/// Whether every compound in a tree holds its keys in sorted order, each
/// once.
pub open spec fn tree_sorted(v: ValueView) -> bool
    decreases v,
{
    match v {
        ValueView::List(vs) => forall|i: int| 0 <= i < vs.len() ==> tree_sorted(#[trigger] vs[i]),
        ValueView::Compound(es) => {
            &&& keys_sorted(es)
            &&& forall|i: int| 0 <= i < es.len() ==> tree_sorted(#[trigger] es[i].1)
        },
        _ => true,
    }
}

/// Any value, read by its own tag.
impl<'de> FromNBT<'de> for Value {
    open spec fn nbt_parse(tag: u8, rest: Seq<u8>, depth: nat, opts: DeOptsView) -> core::result::Result<(ValueView, nat), ErrorKind> {
        parse_value(tag, rest, depth, opts)
    }

    fn read(tag: u8, reader: &mut Reader<'de>) -> (res: Result<Value>) {
        read_value(tag, reader)
    }
}

/// What converting a writable value whose deep view is `v` gives: its
/// tag and payload read back as a tree, with the reader's default limits.
pub open spec fn value_of<T: ToNBT + ?Sized>(v: <T as DeepView>::V) -> core::result::Result<ValueView, ErrorKind> {
    match T::nbt_payload(v) {
        Err(k) => Err(k),
        Ok(payload) => {
            let bytes = seq![T::nbt_tag(v)] + payload;
            match parse_tag(bytes) {
                Err(k) => Err(k),
                Ok((tag, _)) => match parse_value(tag, bytes.skip(1), 0, default_de_opts()) {
                    Ok((x, _)) => Ok(x),
                    Err(k) => Err(k),
                },
            }
        },
    }
}

/// Converts any writable value into a [`Value`].
///
/// The value is written to bytes and read back as a tree, so there is one
/// implementation of the format. A list whose elements have different tags
/// is not valid NBT, and is refused.
pub fn to_value<T: ToNBT + ?Sized>(value: &T) -> (res: Result<Value>)
    ensures
        match value_of::<T>(value.deep_view()) {
            Ok(v) => res matches Ok(x) && value_view(x) == v,
            Err(kind) => res matches Err(e) && e.0 == kind,
        },
{
    let mut writer = Writer::new(Vec::new());
    writer.write_tag(value.tag())?;
    value.write(&mut writer)?;
    let bytes = writer.into_inner();
    let ghost all = bytes@;
    assert(all =~= seq![T::nbt_tag(value.deep_view())] + T::nbt_payload(value.deep_view())->Ok_0);
    let mut reader = Reader::new(bytes.as_slice(), DeOpts::new());
    let tag = reader.read_tag()?;
    read_value(tag, &mut reader)
}

/// Interprets a [`Value`] as a `T`: the tree is written as NBT and read
/// back as a `T` under the reader's default limits, by the tree's own tag.
///
/// What is read cannot borrow from the tree, so `T` is a type that owns its
/// data.
pub fn from_value<T: for<'a> FromNBT<'a>>(value: &Value) -> (res: Result<T>)
    ensures
        match encode_value(value.deep_view()) {
            Ok(p) => match T::nbt_parse(value_tag(value.deep_view()), p, 0, default_de_opts()) {
                Ok((x, _)) => res matches Ok(r) && r.deep_view() == x,
                Err(k) => res matches Err(e) && e.0 == k,
            },
            Err(k) => res matches Err(e) && e.0 == k,
        },
{
    let mut writer = Writer::new(Vec::new());
    write_value(value, &mut writer)?;
    let bytes = writer.into_inner();
    let mut reader = Reader::new(bytes.as_slice(), DeOpts::new());
    T::read(value.tag(), &mut reader)
}

/// The array of `kind` whose elements `bytes` spell, big-endian; `None`
/// when the bytes are not a whole number of elements.
pub fn array_value(kind: ArrayKind, bytes: &[u8]) -> (res: Option<Value>)
    ensures
        bytes@.len() % kind.spec_size() != 0 ==> res is None,
        bytes@.len() % kind.spec_size() == 0 ==> (res matches Some(v) && value_view(v) == match kind {
            ArrayKind::Byte => ValueView::ByteArray(decoded_elements::<i8>(bytes@)),
            ArrayKind::Int => ValueView::IntArray(decoded_elements::<i32>(bytes@)),
            ArrayKind::Long => ValueView::LongArray(decoded_elements::<i64>(bytes@)),
        }),
{
    match kind {
        ArrayKind::Byte => match whole_elements::<i8>(bytes) {
            Some(v) => Some(Value::ByteArray(v)),
            None => None,
        },
        ArrayKind::Int => match whole_elements::<i32>(bytes) {
            Some(v) => Some(Value::IntArray(v)),
            None => None,
        },
        ArrayKind::Long => match whole_elements::<i64>(bytes) {
            Some(v) => Some(Value::LongArray(v)),
            None => None,
        },
    }
}

/// Any value, written by its own tag.
impl ToNBT for Value {
    open spec fn nbt_tag(v: ValueView) -> u8 {
        value_tag(v)
    }

    open spec fn nbt_payload(v: ValueView) -> core::result::Result<Seq<u8>, ErrorKind> {
        encode_value(v)
    }

    fn tag(&self) -> (tag: u8) {
        Value::tag(self)
    }

    fn write(&self, writer: &mut Writer) -> (res: Result<()>) {
        write_value(self, writer)
    }
}

} // verus!
