//! The value tree: what it reads, writes and converts.

use nanonbt::de::ArrayKind;
use nanonbt::value::array_value;
use nanonbt::{
    from_bytes, from_bytes_with_opts, from_value, to_bytes, to_value, DeOpts, F32Be, F64Be, FromNBT, Reader,
    ToNBT, Value, Writer, TAG_BYTE, TAG_COMPOUND, TAG_LIST, TAG_STRING,
};

fn shown(v: &Value) -> String {
    format!("{v:?}")
}

fn sample() -> Value {
    Value::Compound(vec![
        ("byte".into(), Value::Byte(-1)),
        ("bytes".into(), Value::ByteArray(vec![1, -2])),
        ("double".into(), Value::Double(F64Be::from_bytes([0x7f, 0xf8, 0, 0, 0, 0, 0, 1]))),
        ("float".into(), Value::Float(F32Be::from_bytes([0x40, 0xb0, 0, 0]))),
        ("int".into(), Value::Int(3)),
        ("ints".into(), Value::IntArray(vec![3])),
        ("list".into(), Value::List(vec![Value::List(vec![Value::Short(1), Value::Short(2)]), Value::List(vec![])])),
        ("long".into(), Value::Long(4)),
        ("longs".into(), Value::LongArray(vec![])),
        ("nested".into(), Value::Compound(vec![("a".into(), Value::String("b".into()))])),
        ("short".into(), Value::Short(2)),
        ("text".into(), Value::String("日\0\u{1f600}".into())),
    ])
}

#[test]
fn a_tree_reads_back_as_it_was_written() {
    let tree = sample();
    let bytes = to_bytes(&tree).unwrap();
    let back = from_bytes::<Value>(&bytes).unwrap();
    assert_eq!(shown(&back), shown(&tree));
    assert_eq!(to_bytes(&back).unwrap(), bytes);
}

#[test]
fn a_small_document_is_spelled_exactly() {
    let tree = Value::Compound(vec![("k".into(), Value::List(vec![Value::Int(1)]))]);
    assert_eq!(
        to_bytes(&tree).unwrap(),
        vec![10, 0, 0, 9, 0, 1, b'k', 3, 0, 0, 0, 1, 0, 0, 0, 1, 0]
    );
}

#[test]
fn compounds_read_in_key_order_and_the_last_entry_wins() {
    // Entries "b" = 1, "a" = 2, "b" = 3, "B" = 4 and "aa" = 5, all bytes.
    let bytes = [
        10, 0, 0, //
        1, 0, 1, b'b', 1, //
        1, 0, 1, b'a', 2, //
        1, 0, 1, b'b', 3, //
        1, 0, 1, b'B', 4, //
        1, 0, 2, b'a', b'a', 5, //
        0,
    ];
    let back = from_bytes::<Value>(&bytes).unwrap();
    let expected = Value::Compound(vec![
        ("B".into(), Value::Byte(4)),
        ("a".into(), Value::Byte(2)),
        ("aa".into(), Value::Byte(5)),
        ("b".into(), Value::Byte(3)),
    ]);
    assert_eq!(shown(&back), shown(&expected));
}

#[test]
fn values_read_by_their_own_tags() {
    let mut reader = Reader::new(&[0xff], DeOpts::new());
    assert_eq!(shown(&Value::read(TAG_BYTE, &mut reader).unwrap()), shown(&Value::Byte(-1)));
    let mut reader = Reader::new(&[0, 2, b'h', b'i'], DeOpts::new());
    let text = Value::read(TAG_STRING, &mut reader).unwrap();
    assert_eq!(text.as_str(), Some("hi"));
    assert_eq!(text.tag(), TAG_STRING);
    assert_eq!(Value::Int(1).as_str(), None);
    let mut reader = Reader::new(&[0], DeOpts::new());
    assert_eq!(
        Value::read(0, &mut reader).unwrap_err().to_string(),
        "invalid nbt tag value: 0"
    );
}

#[test]
fn broken_trees_are_refused() {
    let bytes = to_bytes(&sample()).unwrap();
    assert_eq!(
        from_bytes::<Value>(&bytes[..bytes.len() - 1]).unwrap_err().to_string(),
        "eof: unexpectedly ran out of input"
    );
    assert!(from_bytes::<Value>(&bytes[..10]).is_err());
    assert_eq!(
        from_bytes::<Value>(&[0x0a, 0x00, 0x00, 0x00][..0]).unwrap_err().to_string(),
        "eof: unexpectedly ran out of input"
    );
    // A list of End with elements.
    let mut reader = Reader::new(&[0, 0, 0, 0, 2], DeOpts::new());
    assert_eq!(
        Value::read(TAG_LIST, &mut reader).unwrap_err().to_string(),
        "unexpected list of type 'end', which is not supported"
    );
    // Nesting beyond the limit.
    let mut reader = Reader::new(&[0], DeOpts::new().max_depth(0));
    assert_eq!(
        Value::read(TAG_COMPOUND, &mut reader).unwrap_err().to_string(),
        "nesting deeper than max depth"
    );
    let opts = DeOpts::new().max_depth(1);
    assert!(from_bytes_with_opts::<Value>(&[10, 0, 0, 0], opts).is_ok());
    assert_eq!(
        from_bytes_with_opts::<Value>(&[10, 0, 0, 10, 0, 0, 0, 0], opts)
            .unwrap_err()
            .to_string(),
        "nesting deeper than max depth"
    );
}

#[test]
fn writable_values_convert_to_trees() {
    assert_eq!(shown(&to_value(&70_000_i32).unwrap()), shown(&Value::Int(70_000)));
    assert_eq!(
        shown(&to_value(&vec![1_i16, -2]).unwrap()),
        shown(&Value::List(vec![Value::Short(1), Value::Short(-2)]))
    );
    assert_eq!(
        shown(&to_value(&String::from("text")).unwrap()),
        shown(&Value::String("text".into()))
    );
    assert_eq!(shown(&to_value(&sample()).unwrap()), shown(&sample()));
    // A list whose elements have different tags is not valid NBT.
    let mixed = Value::List(vec![Value::Int(1), Value::Byte(2)]);
    assert!(to_value(&mixed).is_err());
}

#[test]
fn a_value_writes_its_payload_after_its_tag() {
    let mut writer = Writer::new(Vec::new());
    let list = Value::List(vec![]);
    assert_eq!(list.tag(), TAG_LIST);
    list.write(&mut writer).unwrap();
    assert_eq!(writer.into_inner(), vec![0, 0, 0, 0, 0]);
    let mut writer = Writer::new(Vec::new());
    Value::Compound(vec![]).write(&mut writer).unwrap();
    assert_eq!(writer.into_inner(), vec![0]);
    let mut writer = Writer::new(Vec::new());
    Value::Float(F32Be::from_bytes([1, 2, 3, 4])).write(&mut writer).unwrap();
    assert_eq!(writer.into_inner(), vec![1, 2, 3, 4]);
}

#[test]
fn a_written_tree_is_skipped_exactly() {
    let tree = sample();
    let mut writer = Writer::new(Vec::new());
    tree.write(&mut writer).unwrap();
    let mut bytes = writer.into_inner();
    bytes.push(42);
    let mut reader = Reader::new(&bytes, DeOpts::new());
    reader.skip_value(TAG_COMPOUND).unwrap();
    assert_eq!(reader.remaining(), &[42]);
    let mut reader = Reader::new(&bytes, DeOpts::new());
    let back = Value::read(TAG_COMPOUND, &mut reader).unwrap();
    assert_eq!(shown(&back), shown(&tree));
    assert_eq!(reader.remaining(), &[42]);
}

#[test]
fn nested_compounds_read_in_key_order_too() {
    // A list of one compound whose entries are "b" = 1 then "a" = 2.
    let bytes = [
        10, 0, 0, //
        9, 0, 1, b'l', 10, 0, 0, 0, 1, //
        1, 0, 1, b'b', 1, //
        1, 0, 1, b'a', 2, //
        0, //
        0,
    ];
    let back = from_bytes::<Value>(&bytes).unwrap();
    let expected = Value::Compound(vec![(
        "l".into(),
        Value::List(vec![Value::Compound(vec![
            ("a".into(), Value::Byte(2)),
            ("b".into(), Value::Byte(1)),
        ])]),
    )]);
    assert_eq!(shown(&back), shown(&expected));
}

#[test]
fn trees_convert_strictly() {
    // A bool is a byte, not any integer.
    assert!(from_value::<bool>(&Value::Int(1)).is_err());
    assert!(from_value::<bool>(&Value::Byte(1)).is_ok());
    // An i64 is a long, not an int.
    assert!(from_value::<i64>(&Value::Int(1)).is_err());
    assert!(from_value::<i64>(&Value::Long(1)).is_ok());
    // A double is not a float.
    assert!(from_value::<F64Be>(&Value::Float(F32Be::from_bytes([0x3f, 0xc0, 0, 0]))).is_err());
    // A byte array is not a list of bytes.
    assert!(from_value::<Vec<i8>>(&Value::ByteArray(vec![1])).is_err());
}

#[test]
fn trees_convert_to_typed_values() {
    assert_eq!(from_value::<i32>(&Value::Int(70_000)).unwrap(), 70_000);
    assert_eq!(
        from_value::<String>(&Value::String("a\0b".into())).unwrap(),
        "a\0b"
    );
    assert_eq!(
        from_value::<Vec<i16>>(&Value::List(vec![Value::Short(1), Value::Short(-2)])).unwrap(),
        vec![1, -2]
    );
    assert_eq!(
        from_value::<i32>(&Value::String("x".into())).unwrap_err().to_string(),
        "invalid nbt tag value: 8"
    );
    assert_eq!(shown(&from_value::<Value>(&sample()).unwrap()), shown(&sample()));
}

#[test]
fn integers_widen_to_i64() {
    assert_eq!(Value::Byte(-1).as_integer(), Some(-1));
    assert_eq!(Value::Short(-300).as_integer(), Some(-300));
    assert_eq!(Value::Int(70_000).as_integer(), Some(70_000));
    assert_eq!(Value::Long(i64::MIN).as_integer(), Some(i64::MIN));
    assert_eq!(Value::String("1".into()).as_integer(), None);
    assert_eq!(Value::Float(F32Be::from_bytes([0x3f, 0x80, 0, 0])).as_integer(), None);
}

#[test]
fn entries_collect_into_a_compound_in_key_order() {
    let mut entries = Vec::new();
    nanonbt::value::insert_entry(&mut entries, "b".into(), Value::Byte(1));
    nanonbt::value::insert_entry(&mut entries, "a".into(), Value::Byte(2));
    nanonbt::value::insert_entry(&mut entries, "b".into(), Value::Byte(3));
    assert_eq!(
        shown(&Value::Compound(entries)),
        shown(&Value::Compound(vec![("a".into(), Value::Byte(2)), ("b".into(), Value::Byte(3))]))
    );
}

#[test]
fn array_bytes_decode_into_arrays_of_their_kind() {
    assert_eq!(
        shown(&array_value(ArrayKind::Int, &[0, 0, 0, 1, 0xff, 0xff, 0xff, 0xfe]).unwrap()),
        shown(&Value::IntArray(vec![1, -2]))
    );
    assert_eq!(shown(&array_value(ArrayKind::Byte, &[0xff]).unwrap()), shown(&Value::ByteArray(vec![-1])));
    assert_eq!(
        shown(&array_value(ArrayKind::Long, &[0; 8]).unwrap()),
        shown(&Value::LongArray(vec![0]))
    );
    assert!(array_value(ArrayKind::Int, &[0, 0, 0]).is_none());
}
