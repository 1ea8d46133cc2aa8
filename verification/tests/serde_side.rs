//! The decisions of the serde data model: what the deserializer reads for
//! each request, and what the serializer writes.

use nanonbt::de::{ArrayKind, Deserializer, Payload};
use nanonbt::ser::{
    array_tag, name_bytes, serialize_array_bytes, write_header, Delayed, Header, Serializer,
    ValueTarget,
};
use nanonbt::{
    DeOpts, Writer, TAG_BYTE, TAG_BYTE_ARRAY, TAG_COMPOUND, TAG_INT, TAG_INT_ARRAY, TAG_LIST,
    TAG_LONG_ARRAY, TAG_SHORT, TAG_STRING,
};

#[test]
fn the_root_compound_opens_the_map() {
    // A named root holding `b: 5`.
    let bytes = [10, 0, 1, b'r', 1, 0, 1, b'b', 5, 0];
    let mut de = Deserializer::from_bytes(&bytes, DeOpts::default());
    de.open_map().unwrap();
    let tag = de.read_tag().unwrap();
    assert_eq!(tag, TAG_BYTE);
    assert_eq!(de.read_str().unwrap(), "b");
    assert!(matches!(de.payload(tag).unwrap(), Payload::Byte(5)));
    assert_eq!(de.read_tag().unwrap(), 0);
    de.leave();

    // Network NBT has no root name.
    let bytes = [10, 0];
    let mut de = Deserializer::from_bytes(&bytes, DeOpts::network_nbt());
    de.open_map().unwrap();
    assert_eq!(de.read_tag().unwrap(), 0);

    let mut de = Deserializer::from_bytes(&[1, 0, 0], DeOpts::default());
    assert_eq!(de.open_map().unwrap_err().to_string(), "invalid nbt: no root compound");
}

#[test]
fn payloads_are_read_as_their_tag_says() {
    let mut de = Deserializer::from_bytes(&[0xff, 0xfe], DeOpts::default());
    assert!(matches!(de.payload(TAG_SHORT).unwrap(), Payload::Short(-2)));

    let mut de = Deserializer::from_bytes(&[0, 0, 0, 7], DeOpts::default());
    assert!(matches!(de.payload(TAG_INT).unwrap(), Payload::Int(7)));

    let float = 1.5_f32.to_be_bytes();
    let mut de = Deserializer::from_bytes(&float, DeOpts::default());
    match de.payload(5).unwrap() {
        Payload::Float(f) => assert_eq!(f.as_bytes(), &float),
        _ => panic!("not a float"),
    }

    let mut de = Deserializer::from_bytes(&[0, 2, b'h', b'i'], DeOpts::default());
    match de.payload(TAG_STRING).unwrap() {
        Payload::Str(text) => assert_eq!(text, "hi"),
        _ => panic!("not a string"),
    }

    let mut de = Deserializer::from_bytes(&[3, 0, 0, 0, 2], DeOpts::default());
    assert!(matches!(
        de.payload(TAG_LIST).unwrap(),
        Payload::List { tag: 3, remaining: 2 }
    ));
    de.leave();

    let array = [0, 0, 0, 1, 0, 0, 0, 9];
    let mut de = Deserializer::from_bytes(&array, DeOpts::default());
    match de.payload(TAG_INT_ARRAY).unwrap() {
        Payload::Bytes(b) => assert_eq!(b, &[0, 0, 0, 9]),
        _ => panic!("not an array"),
    }

    let mut de = Deserializer::from_bytes(&[], DeOpts::default());
    assert!(matches!(de.payload(TAG_COMPOUND).unwrap(), Payload::Compound));
    de.leave();
    assert_eq!(
        de.payload(0).err().unwrap().to_string(),
        "expected value, found end tag"
    );
}

#[test]
fn list_headers_are_checked() {
    let mut de = Deserializer::from_bytes(&[0, 0, 0, 0, 1], DeOpts::default());
    assert_eq!(
        de.payload(TAG_LIST).err().unwrap().to_string(),
        "unexpected list of type 'end', which is not supported"
    );
    let mut de = Deserializer::from_bytes(&[0, 0, 0, 0, 0], DeOpts::default());
    assert!(matches!(
        de.payload(TAG_LIST).unwrap(),
        Payload::List { tag: 0, remaining: 0 }
    ));
    // A negative length is sign-extended, so it is too long.
    let mut de = Deserializer::from_bytes(&[1, 0xff, 0xff, 0xff, 0xff], DeOpts::default());
    assert_eq!(
        de.payload(TAG_LIST).err().unwrap().to_string(),
        "size greater than max sequence length"
    );
    let mut de = Deserializer::from_bytes(&[1, 0, 0, 0, 1], DeOpts::new().max_depth(0));
    assert_eq!(
        de.payload(TAG_LIST).err().unwrap().to_string(),
        "nesting deeper than max depth"
    );
}

#[test]
fn raw_payload_bytes_come_from_strings_arrays_and_integer_lists() {
    let mut de = Deserializer::from_bytes(&[0, 2, 0xc0, 0x80], DeOpts::default());
    assert_eq!(de.payload_bytes(TAG_STRING).unwrap(), &[0xc0, 0x80]);

    let list = [2, 0, 0, 0, 2, 0, 1, 0, 2];
    let mut de = Deserializer::from_bytes(&list, DeOpts::default());
    assert_eq!(de.payload_bytes(TAG_LIST).unwrap(), &[0, 1, 0, 2]);

    let mut de = Deserializer::from_bytes(&[8, 0, 0, 0, 0], DeOpts::default());
    assert_eq!(
        de.payload_bytes(TAG_LIST).unwrap_err().to_string(),
        "cannot convert to bytes"
    );
    let mut de = Deserializer::from_bytes(&[0, 0, 0, 1, 7], DeOpts::default());
    assert_eq!(de.payload_bytes(TAG_BYTE_ARRAY).unwrap(), &[7]);
    let mut de = Deserializer::from_bytes(&[0], DeOpts::default());
    assert_eq!(
        de.payload_bytes(TAG_BYTE).unwrap_err().to_string(),
        "cannot convert to bytes"
    );
}

#[test]
fn wide_integers_and_bools_read_from_their_tags() {
    let mut bytes = vec![0, 0, 0, 4];
    bytes.extend_from_slice(&(-2_i128).to_be_bytes());
    let mut de = Deserializer::from_bytes(&bytes, DeOpts::default());
    assert_eq!(de.int_array_128(TAG_INT_ARRAY).unwrap(), -2);
    let mut de = Deserializer::from_bytes(&bytes, DeOpts::default());
    assert_eq!(
        de.int_array_128(TAG_LIST).unwrap_err().to_string(),
        "deserialize i128: expected int array of length 4"
    );
    let mut de = Deserializer::from_bytes(&[0, 0, 0, 1, 0, 0, 0, 0], DeOpts::default());
    assert_eq!(
        de.int_array_128(TAG_INT_ARRAY).unwrap_err().to_string(),
        "deserialize i128: expected int array of length 4"
    );

    let mut de = Deserializer::from_bytes(&[0, 0, 1, 0], DeOpts::default());
    assert_eq!(de.payload_bool(TAG_INT).unwrap(), Some(true));
    let mut de = Deserializer::from_bytes(&[0, 0], DeOpts::default());
    assert_eq!(de.payload_bool(TAG_SHORT).unwrap(), Some(false));
    let mut de = Deserializer::from_bytes(&[0, 1, b'x'], DeOpts::default());
    assert_eq!(de.payload_bool(TAG_STRING).unwrap(), None);
    assert!(matches!(de.payload(TAG_STRING).unwrap(), Payload::Str(_)));
}

#[test]
fn array_tokens_name_the_array_kinds() {
    assert_eq!(ArrayKind::from_token("$nanonbt::byte_array"), Some(ArrayKind::Byte));
    assert_eq!(ArrayKind::from_token("$nanonbt::int_array"), Some(ArrayKind::Int));
    assert_eq!(ArrayKind::from_token("$nanonbt::long_array"), Some(ArrayKind::Long));
    assert_eq!(ArrayKind::from_token("Player"), None);
    assert_eq!(ArrayKind::Long.tag(), TAG_LONG_ARRAY);
    assert_eq!(ArrayKind::Int.size(), 4);

    let array = [0, 0, 0, 1, 0, 0, 0, 3];
    let mut de = Deserializer::from_bytes(&array, DeOpts::default());
    assert_eq!(de.array_payload(TAG_INT_ARRAY, ArrayKind::Int).unwrap(), &[0, 0, 0, 3]);
    let mut de = Deserializer::from_bytes(&array, DeOpts::default());
    assert_eq!(
        de.array_payload(TAG_LIST, ArrayKind::Int).unwrap_err().to_string(),
        "invalid nbt tag value: 9"
    );
}

#[test]
fn skipping_lists_passes_over_their_elements() {
    // A list of shorts with a negative length skips no elements.
    let mut de = Deserializer::from_bytes(&[2, 0xff, 0xff, 0xff, 0xff], DeOpts::default());
    de.skip_value(TAG_LIST).unwrap();
    assert_eq!(de.read_tag().unwrap_err().to_string(), "eof: unexpectedly ran out of input");
    // A list of strings with a negative length skips nothing.
    let mut de = Deserializer::from_bytes(&[8, 0xff, 0xff, 0xff, 0xff, 9], DeOpts::default());
    de.skip_value(TAG_LIST).unwrap();
    assert_eq!(de.payload_bytes(TAG_BYTE).unwrap_err().to_string(), "cannot convert to bytes");
    // A compound with a string and a list of ints.
    let bytes = [8, 0, 1, b's', 0, 1, b'x', 9, 0, 1, b'l', 3, 0, 0, 0, 1, 0, 0, 0, 5, 0];
    let mut de = Deserializer::from_bytes(&bytes, DeOpts::default());
    de.skip_value(TAG_COMPOUND).unwrap();
    let mut de = Deserializer::from_bytes(&bytes[..bytes.len() - 1], DeOpts::default());
    assert_eq!(
        de.skip_value(TAG_COMPOUND).unwrap_err().to_string(),
        "eof: unexpectedly ran out of input"
    );
}

fn written(f: impl FnOnce(&mut Writer)) -> Vec<u8> {
    let mut writer = Writer::new(Vec::new());
    f(&mut writer);
    writer.into_inner()
}

#[test]
fn a_struct_writes_as_a_named_root_compound() {
    let bytes = written(|w| {
        let mut root = Serializer::new(Some(String::from("r")));
        let mut compound = root.serialize_map();
        compound.serialize_key(name_bytes("b"));
        match compound.serialize_value(w).unwrap() {
            ValueTarget::Entry(d) => d.serialize_i8(w, 5).unwrap(),
            ValueTarget::Array(_) => panic!("not an array"),
        }
        compound.serialize_key(name_bytes("s"));
        match compound.serialize_value(w).unwrap() {
            ValueTarget::Entry(d) => d.serialize_str(w, "\0").unwrap(),
            ValueTarget::Array(_) => panic!("not an array"),
        }
        compound.end(w).unwrap();
    });
    assert_eq!(
        bytes,
        [10, 0, 1, b'r', 1, 0, 1, b'b', 5, 8, 0, 1, b's', 0, 2, 0xc0, 0x80, 0]
    );

    let empty = written(|w| {
        let mut root = Serializer::new(None);
        root.serialize_map().end(w).unwrap();
    });
    assert_eq!(empty, [10, 0]);
}

#[test]
fn an_array_token_turns_a_compound_into_the_array() {
    let bytes = written(|w| {
        let mut root = Serializer::new(None);
        let mut compound = root.serialize_map();
        compound.serialize_key(name_bytes("ints"));
        let inner = match compound.serialize_value(w).unwrap() {
            ValueTarget::Entry(d) => d,
            ValueTarget::Array(_) => panic!("not an array"),
        };
        let mut array = inner.serialize_map();
        array.serialize_key(b"$nanonbt::int_array".to_vec());
        match array.serialize_value(w).unwrap() {
            ValueTarget::Array(tag) => {
                assert_eq!(tag, TAG_INT_ARRAY);
                serialize_array_bytes(w, tag, &[0, 0, 0, 1, 0, 0, 0, 2]).unwrap();
            }
            ValueTarget::Entry(_) => panic!("not an entry"),
        }
        array.end(w).unwrap();
        compound.end(w).unwrap();
    });
    assert_eq!(
        bytes,
        [10, 11, 0, 4, b'i', b'n', b't', b's', 0, 0, 0, 2, 0, 0, 0, 1, 0, 0, 0, 2, 0]
    );
    assert_eq!(array_tag(b"$nanonbt::long_array"), Some(TAG_LONG_ARRAY));
    assert_eq!(array_tag(b"$nanonbt::byte_array"), Some(TAG_BYTE_ARRAY));
    assert_eq!(array_tag(b"data"), None);
}

#[test]
fn sequences_are_lists_whose_first_element_writes_the_header() {
    let bytes = written(|w| {
        let mut list = Delayed::new(None, false).serialize_seq(w, Some(2)).unwrap();
        list.next_element().serialize_i16(w, 1).unwrap();
        list.element_written();
        list.next_element().serialize_i16(w, -1).unwrap();
        list.element_written();
    });
    assert_eq!(bytes, [2, 0, 0, 0, 2, 0, 1, 0xff, 0xff]);

    let empty = written(|w| {
        Delayed::new(Some(Header::Entry(b"e".to_vec())), false)
            .serialize_tuple(w, 0)
            .unwrap();
    });
    assert_eq!(empty, [9, 0, 1, b'e', 0, 0, 0, 0, 0]);

    let mut writer = Writer::new(Vec::new());
    assert_eq!(
        Delayed::new(None, false)
            .serialize_seq(&mut writer, None)
            .err()
            .unwrap()
            .to_string(),
        "sequences must have a known length"
    );
    assert!(writer.into_inner().is_empty());
}

#[test]
fn scalars_wide_integers_and_bytes_take_their_tags() {
    let bytes = written(|w| {
        Delayed::new(Some(Header::List { len: 1 }), true)
            .serialize_u128(w, 1)
            .unwrap();
    });
    let mut expected = vec![11, 0, 0, 0, 1, 0, 0, 0, 4];
    expected.extend_from_slice(&1_u128.to_be_bytes());
    assert_eq!(bytes, expected);

    let bytes = written(|w| Delayed::new(None, true).serialize_i128(w, -1).unwrap());
    let mut expected = vec![0, 0, 0, 4];
    expected.extend_from_slice(&[0xff; 16]);
    assert_eq!(bytes, expected);

    let bytes = written(|w| Delayed::new(None, false).serialize_bytes(w, &[7, 8]).unwrap());
    assert_eq!(bytes, [1, 0, 0, 0, 2, 7, 8]);
    let bytes = written(|w| Delayed::new(None, false).serialize_char(w, 'A').unwrap());
    assert_eq!(bytes, [0, 0, 0, 0x41]);
    let bytes = written(|w| Delayed::new(None, false).serialize_bool(w, true).unwrap());
    assert_eq!(bytes, [1]);
    let bytes = written(|w| Delayed::new(None, false).serialize_u64(w, u64::MAX).unwrap());
    assert_eq!(bytes, [0xff; 8]);
    let bytes = written(|w| {
        Delayed::new(Some(Header::Entry(b"v".to_vec())), false)
            .serialize_unit_variant(w, "Red")
            .unwrap();
    });
    assert_eq!(bytes, [8, 0, 1, b'v', 0, 3, b'R', b'e', b'd']);
}

#[test]
fn what_nbt_cannot_hold_is_refused() {
    assert_eq!(
        Delayed::new(None, true).serialize_none().unwrap_err().to_string(),
        "cannot serialize None in list"
    );
    assert!(Delayed::new(None, false).serialize_none().is_ok());
    assert_eq!(
        Delayed::new(None, false).serialize_unit().unwrap_err().to_string(),
        "cannot serialize unit"
    );
    assert_eq!(
        Delayed::new(None, false).serialize_variant().unwrap_err().to_string(),
        "cannot serialize newtype or struct variant"
    );

    let mut writer = Writer::new(Vec::new());
    assert_eq!(
        write_header(&mut writer, Header::Root(None), TAG_INT)
            .unwrap_err()
            .to_string(),
        "invalid nbt: no root compound"
    );
    assert!(writer.into_inner().is_empty());

    let mut writer = Writer::new(Vec::new());
    let mut root = Serializer::new(None);
    let mut compound = root.serialize_map();
    assert_eq!(
        compound.serialize_value(&mut writer).err().unwrap().to_string(),
        "serialize_value called before serialize_key"
    );

    let long = "z".repeat(65_536);
    let mut writer = Writer::new(Vec::new());
    assert_eq!(
        Delayed::new(None, false)
            .serialize_str(&mut writer, &long)
            .unwrap_err()
            .to_string(),
        "string longer than 65535 bytes"
    );
}

#[test]
fn keys_are_modified_utf8() {
    assert_eq!(name_bytes("a\0"), [b'a', 0xc0, 0x80]);
    assert_eq!(name_bytes("plain"), b"plain");
}

#[test]
fn what_the_serializer_writes_the_deserializer_reads() {
    let bytes = written(|w| {
        let mut root = Serializer::new(Some(String::new()));
        let mut compound = root.serialize_map();
        compound.serialize_key(name_bytes("n"));
        if let ValueTarget::Entry(d) = compound.serialize_value(w).unwrap() {
            d.serialize_i64(w, -7).unwrap();
        }
        compound.serialize_key(name_bytes("u"));
        if let ValueTarget::Entry(d) = compound.serialize_value(w).unwrap() {
            d.serialize_u128(w, 1 << 100).unwrap();
        }
        compound.serialize_key(name_bytes("b"));
        if let ValueTarget::Entry(d) = compound.serialize_value(w).unwrap() {
            d.serialize_bytes(w, &[1, 2, 3]).unwrap();
        }
        compound.serialize_key(name_bytes("s\0"));
        if let ValueTarget::Entry(d) = compound.serialize_value(w).unwrap() {
            d.serialize_str(w, "\u{1f980}").unwrap();
        }
        compound.end(w).unwrap();
    });
    let mut de = Deserializer::from_bytes(&bytes, DeOpts::default());
    de.open_map().unwrap();
    let tag = de.read_tag().unwrap();
    assert_eq!(de.read_str().unwrap(), "n");
    assert!(matches!(de.payload(tag).unwrap(), Payload::Long(-7)));
    let tag = de.read_tag().unwrap();
    assert_eq!(de.read_str().unwrap(), "u");
    assert_eq!(de.int_array_128(tag).unwrap(), 1 << 100);
    let tag = de.read_tag().unwrap();
    assert_eq!(de.read_str().unwrap(), "b");
    assert_eq!(de.payload_bytes(tag).unwrap(), &[1, 2, 3]);
    let tag = de.read_tag().unwrap();
    assert_eq!(de.read_str().unwrap(), "s\0");
    match de.payload(tag).unwrap() {
        Payload::Str(text) => assert_eq!(text, "\u{1f980}"),
        _ => panic!("not a string"),
    }
    assert_eq!(de.read_tag().unwrap(), 0);
    de.leave();
    assert_eq!(de.open_levels(), 0);
}

#[test]
fn a_skipped_list_of_negative_length_skips_no_elements() {
    // A list of bytes whose length is -1, then one more tag.
    let bytes = [TAG_BYTE, 0xff, 0xff, 0xff, 0xff, TAG_INT];
    let mut de = Deserializer::from_bytes(&bytes, DeOpts::default());
    de.skip_value(TAG_LIST).unwrap();
    assert_eq!(de.read_tag().unwrap(), TAG_INT);
    // A list of ints with two elements skips eight bytes.
    let bytes = [TAG_INT, 0, 0, 0, 2, 0, 0, 0, 1, 0, 0, 0, 2, TAG_SHORT];
    let mut de = Deserializer::from_bytes(&bytes, DeOpts::default());
    de.skip_value(TAG_LIST).unwrap();
    assert_eq!(de.read_tag().unwrap(), TAG_SHORT);
}
