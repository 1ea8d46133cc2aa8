//! Writing and reading payloads, strings, errors and documents.

use std::borrow::Cow;

use nanonbt::read::read_list;
use nanonbt::write::{write_entry, write_list};
use nanonbt::{
    from_bytes, from_bytes_with_opts, from_java_cesu8, to_bytes, to_bytes_with_opts,
    to_java_cesu8, DeOpts, Error, FromNBT, I16Be, I32Be, I64Be, Reader, SerOpts, ToNBT, U16Be,
    U32Be, U64Be, Writer, F32Be, F64Be, TAG_BYTE, TAG_BYTE_ARRAY, TAG_COMPOUND, TAG_INT,
    TAG_INT_ARRAY, TAG_LIST, TAG_SHORT, TAG_STRING,
};

fn written(f: impl FnOnce(&mut Writer)) -> Vec<u8> {
    let mut writer = Writer::new(Vec::new());
    f(&mut writer);
    writer.into_inner()
}

#[test]
fn big_endian_wrappers_spell_and_read_numbers() {
    assert_eq!(U16Be::new(0x1234).as_bytes(), &[0x12, 0x34]);
    assert_eq!(I16Be::new(-2).as_bytes(), &[0xff, 0xfe]);
    assert_eq!(I32Be::new(-2).as_bytes(), &[0xff, 0xff, 0xff, 0xfe]);
    assert_eq!(U32Be::new(0xdead_beef).as_bytes(), &[0xde, 0xad, 0xbe, 0xef]);
    assert_eq!(I64Be::new(i64::MIN).as_bytes(), &[0x80, 0, 0, 0, 0, 0, 0, 0]);
    assert_eq!(U64Be::from_bytes([0, 0, 0, 0, 0, 0, 1, 2]).get(), 0x102);
    assert_eq!(I16Be::from_bytes([0x80, 0x00]).get(), i16::MIN);
    for v in [i32::MIN, -1, 0, 1, i32::MAX] {
        assert_eq!(I32Be::new(v).get(), v);
        assert_eq!(I32Be::from_bytes(*I32Be::new(v).as_bytes()).get(), v);
    }
    for v in [0_u64, 1, u64::MAX] {
        assert_eq!(U64Be::new(v).get(), v);
    }
    let f = F32Be::from_bytes(1.5_f32.to_be_bytes());
    assert_eq!(f.as_bytes(), &1.5_f32.to_be_bytes());
    let d = F64Be::from_bytes((-0.5_f64).to_be_bytes());
    assert_eq!(d.as_bytes(), &(-0.5_f64).to_be_bytes());
}

#[test]
fn modified_utf8_decodes_and_borrows_plain_text() {
    assert!(matches!(from_java_cesu8(b"hello"), Ok(Cow::Borrowed("hello"))));
    let nul = from_java_cesu8(&[0xc0, 0x80]).unwrap();
    assert!(matches!(nul, Cow::Owned(_)));
    assert_eq!(nul, "\0");
    let crab = from_java_cesu8(&[0xed, 0xa0, 0xbe, 0xed, 0xb6, 0x80]).unwrap();
    assert_eq!(crab, "\u{1f980}");
    // Plain UTF-8 is accepted as it is, four-byte sequences included.
    assert_eq!(from_java_cesu8("\u{1f980}".as_bytes()).unwrap(), "\u{1f980}");
    assert!(from_java_cesu8(&[0xff]).is_err());
    assert!(from_java_cesu8(&[0xed, 0xa0, 0xbe]).is_err());
}

#[test]
fn modified_utf8_encodes_nul_and_supplementary_characters() {
    assert!(matches!(to_java_cesu8("abc"), Cow::Borrowed(b"abc")));
    assert_eq!(&*to_java_cesu8("a\0b"), &[b'a', 0xc0, 0x80, b'b']);
    assert_eq!(
        &*to_java_cesu8("\u{1f980}"),
        &[0xed, 0xa0, 0xbe, 0xed, 0xb6, 0x80]
    );
    for text in ["", "plain", "\0", "\u{e9}\u{65e5}", "x\u{1f980}y\0"] {
        assert_eq!(from_java_cesu8(&to_java_cesu8(text)).unwrap(), text);
    }
}

#[test]
fn every_error_reads_as_its_message() {
    assert_eq!(Error::invalid_tag(3).to_string(), "invalid nbt tag value: 3");
    assert_eq!(Error::invalid_tag(13).to_string(), "invalid nbt tag value: 13");
    assert_eq!(Error::invalid_tag(255).to_string(), "invalid nbt tag value: 255");
    assert_eq!(Error::missing_field("data").to_string(), "missing field `data`");
    assert_eq!(Error::no_root_compound().to_string(), "invalid nbt: no root compound");
    assert_eq!(Error::unexpected_eof().to_string(), "eof: unexpectedly ran out of input");
    assert_eq!(Error::unknown_variant().to_string(), "unknown enum variant");
    assert_eq!(
        Error::borrowed_string().to_string(),
        "string is not plain UTF-8 and cannot be borrowed; use Cow<str> or String"
    );
    assert_eq!(
        Error::borrowed_bytes().to_string(),
        "value is owned and cannot be borrowed; use an owned type"
    );
    assert_eq!(Error::invalid_char().to_string(), "integer is not a unicode scalar value");
    assert_eq!(
        Error::wrong_len().to_string(),
        "sequence has a different length than the target array"
    );
    assert_eq!(Error::nonunicode_string().to_string(), "invalid nbt string: nonunicode");
    assert_eq!(Error::too_deep().to_string(), "nesting deeper than max depth");
    assert_eq!(Error::expected_value().to_string(), "expected value, found end tag");
    assert_eq!(Error::array_too_large().to_string(), "nbt array too large");
    assert_eq!(Error::not_bytes().to_string(), "cannot convert to bytes");
    assert_eq!(
        Error::expected_int_array().to_string(),
        "deserialize i128: expected int array of length 4"
    );
    assert_eq!(Error::key_not_string().to_string(), "field must be string-like");
    assert_eq!(
        Error::value_before_key().to_string(),
        "serialize_value called before serialize_key"
    );
    assert_eq!(Error::unknown_len().to_string(), "sequences must have a known length");
    assert_eq!(Error::len_too_large().to_string(), "len too large");
    assert_eq!(Error::none_in_list().to_string(), "cannot serialize None in list");
    assert_eq!(Error::unit().to_string(), "cannot serialize unit");
    assert_eq!(
        Error::variant().to_string(),
        "cannot serialize newtype or struct variant"
    );
    assert_eq!(Error::string_too_long().to_string(), "string longer than 65535 bytes");
}

#[test]
fn the_writer_writes_tags_names_numbers_and_lengths() {
    let bytes = written(|w| {
        w.write_tag(TAG_COMPOUND).unwrap();
        w.write_name("hi").unwrap();
        w.write_i16(-2).unwrap();
        w.write_len(3).unwrap();
        w.write_str("a\0").unwrap();
        w.write_i8(-1).unwrap();
        w.write_end().unwrap();
    });
    assert_eq!(
        bytes,
        [10, 0, 2, b'h', b'i', 0xff, 0xfe, 0, 0, 0, 3, 0, 3, b'a', 0xc0, 0x80, 0xff, 0]
    );
}

#[test]
fn the_writer_refuses_what_nbt_cannot_hold() {
    let mut writer = Writer::new(Vec::new());
    let long = vec![b'x'; 65_536];
    assert_eq!(
        writer.write_prefixed(&long).unwrap_err().to_string(),
        "string longer than 65535 bytes"
    );
    assert!(writer.write_prefixed(&long[..65_535]).is_ok());
    let text = "y".repeat(65_536);
    assert_eq!(
        writer.write_str(&text).unwrap_err().to_string(),
        "string longer than 65535 bytes"
    );
    assert_eq!(
        writer.write_len(0x8000_0000).unwrap_err().to_string(),
        "len too large"
    );
    assert!(writer.write_len(0x7fff_ffff).is_ok());
}

#[test]
fn entries_are_the_tag_the_name_then_the_payload() {
    let bytes = written(|w| write_entry(&5_i32, "x", w).unwrap());
    assert_eq!(bytes, [3, 0, 1, b'x', 0, 0, 0, 5]);
    let bytes = written(|w| write_entry("v", "s", w).unwrap());
    assert_eq!(bytes, [8, 0, 1, b's', 0, 1, b'v']);
}

#[test]
fn lists_take_their_first_element_tag_and_empty_ones_are_lists_of_end() {
    let bytes = written(|w| write_list(&[1_i16, 2], w).unwrap());
    assert_eq!(bytes, [2, 0, 0, 0, 2, 0, 1, 0, 2]);
    let empty: [i16; 0] = [];
    let bytes = written(|w| write_list(&empty, w).unwrap());
    assert_eq!(bytes, [0, 0, 0, 0, 0]);
    let nested = vec![vec![1_i8], vec![]];
    let bytes = written(|w| nested.write(w).unwrap());
    assert_eq!(bytes, [9, 0, 0, 0, 2, 1, 0, 0, 0, 1, 1, 0, 0, 0, 0, 0]);
    let mut reader = Reader::new(&bytes, DeOpts::default());
    assert_eq!(read_list::<Vec<i8>>(&mut reader).unwrap(), nested);
}

#[test]
fn numbers_round_trip_through_their_payloads() {
    for v in [i64::MIN, -1, 0, 1, i64::MAX] {
        let bytes = written(|w| v.write(w).unwrap());
        let mut reader = Reader::new(&bytes, DeOpts::default());
        assert_eq!(<i64 as FromNBT<'_>>::read(v.tag(), &mut reader).unwrap(), v);
        assert!(reader.remaining().is_empty());
    }
    for v in [0_u16, 1, u16::MAX] {
        let bytes = written(|w| v.write(w).unwrap());
        let mut reader = Reader::new(&bytes, DeOpts::default());
        assert_eq!(<u16 as FromNBT<'_>>::read(TAG_SHORT, &mut reader).unwrap(), v);
    }
    // An unsigned integer shares its signed integer's tag and bits.
    let bytes = written(|w| (-1_i8).write(w).unwrap());
    let mut reader = Reader::new(&bytes, DeOpts::default());
    assert_eq!(<u8 as FromNBT<'_>>::read(TAG_BYTE, &mut reader).unwrap(), 255);
    // Any non-zero byte is true.
    let mut reader = Reader::new(&[2], DeOpts::default());
    assert!(<bool as FromNBT<'_>>::read(TAG_BYTE, &mut reader).unwrap());
    let bytes = written(|w| true.write(w).unwrap());
    assert_eq!(bytes, [1]);
}

#[test]
fn tags_are_matched_strictly() {
    let mut reader = Reader::new(&[0, 0, 0, 1], DeOpts::default());
    assert_eq!(
        <i64 as FromNBT<'_>>::read(TAG_INT, &mut reader).unwrap_err().to_string(),
        "invalid nbt tag value: 3"
    );
    let mut reader = Reader::new(&[0, 1, b'a'], DeOpts::default());
    assert_eq!(
        <i32 as FromNBT<'_>>::read(TAG_STRING, &mut reader).unwrap_err().to_string(),
        "invalid nbt tag value: 8"
    );
}

#[test]
fn characters_are_ints_holding_a_scalar_value() {
    let bytes = written(|w| 'A'.write(w).unwrap());
    assert_eq!(bytes, [0, 0, 0, 0x41]);
    assert_eq!('A'.tag(), TAG_INT);
    let bytes = written(|w| '\u{1f980}'.write(w).unwrap());
    let mut reader = Reader::new(&bytes, DeOpts::default());
    assert_eq!(<char as FromNBT<'_>>::read(TAG_INT, &mut reader).unwrap(), '\u{1f980}');
    let mut reader = Reader::new(&[0, 0x10, 0xff, 0xff], DeOpts::default());
    assert_eq!(<char as FromNBT<'_>>::read(TAG_INT, &mut reader).unwrap(), '\u{10ffff}');
    for bad in [[0, 0, 0xd8, 0], [0, 0x11, 0, 0], [0xff, 0xff, 0xff, 0xff]] {
        let mut reader = Reader::new(&bad, DeOpts::default());
        assert_eq!(
            <char as FromNBT<'_>>::read(TAG_INT, &mut reader).unwrap_err().to_string(),
            "integer is not a unicode scalar value"
        );
    }
}

#[test]
fn wide_integers_are_int_arrays_of_four() {
    let bytes = written(|w| (-1_i128).write(w).unwrap());
    let mut expected = vec![0, 0, 0, 4];
    expected.extend_from_slice(&[0xff; 16]);
    assert_eq!(bytes, expected);
    let mut reader = Reader::new(&bytes, DeOpts::default());
    assert_eq!(<i128 as FromNBT<'_>>::read(TAG_INT_ARRAY, &mut reader).unwrap(), -1);
    let mut reader = Reader::new(&bytes, DeOpts::default());
    assert_eq!(<u128 as FromNBT<'_>>::read(TAG_INT_ARRAY, &mut reader).unwrap(), u128::MAX);
    for v in [i128::MIN, -2, 0, 1, i128::MAX] {
        let bytes = written(|w| v.write(w).unwrap());
        let mut reader = Reader::new(&bytes, DeOpts::default());
        assert_eq!(<i128 as FromNBT<'_>>::read(TAG_INT_ARRAY, &mut reader).unwrap(), v);
    }
    let v = 0x0102_0304_0506_0708_090a_0b0c_0d0e_0f10_u128;
    let bytes = written(|w| v.write(w).unwrap());
    assert_eq!(&bytes[4..], &[1, 2, 3, 4, 5, 6, 7, 8, 9, 10, 11, 12, 13, 14, 15, 16]);
    let mut reader = Reader::new(&[0, 0, 0, 3, 0, 0, 0, 0], DeOpts::default());
    assert_eq!(
        <i128 as FromNBT<'_>>::read(TAG_INT_ARRAY, &mut reader).unwrap_err().to_string(),
        "deserialize i128: expected int array of length 4"
    );
    let mut reader = Reader::new(&[0, 0, 0, 4, 0, 0], DeOpts::default());
    assert_eq!(
        <u128 as FromNBT<'_>>::read(TAG_INT_ARRAY, &mut reader).unwrap_err().to_string(),
        "eof: unexpectedly ran out of input"
    );
}

#[test]
fn strings_borrow_when_they_need_no_decoding() {
    let bytes = [0, 5, b'h', b'e', b'l', b'l', b'o'];
    let mut reader = Reader::new(&bytes, DeOpts::default());
    let text = <&str as FromNBT<'_>>::read(TAG_STRING, &mut reader).unwrap();
    assert_eq!(text, "hello");
    assert!(std::ptr::eq(text.as_ptr(), bytes[2..].as_ptr()));

    let nul = [0, 2, 0xc0, 0x80];
    let mut reader = Reader::new(&nul, DeOpts::default());
    assert_eq!(
        <&str as FromNBT<'_>>::read(TAG_STRING, &mut reader).unwrap_err().to_string(),
        "string is not plain UTF-8 and cannot be borrowed; use Cow<str> or String"
    );
    let mut reader = Reader::new(&nul, DeOpts::default());
    let owned = <Cow<'_, str> as FromNBT<'_>>::read(TAG_STRING, &mut reader).unwrap();
    assert!(matches!(owned, Cow::Owned(_)));
    assert_eq!(owned, "\0");

    let bad = [0, 1, 0xff];
    let mut reader = Reader::new(&bad, DeOpts::default());
    assert_eq!(
        <&str as FromNBT<'_>>::read(TAG_STRING, &mut reader).unwrap_err().to_string(),
        "invalid nbt string: nonunicode"
    );
    let mut reader = Reader::new(&bad, DeOpts::default());
    assert_eq!(
        <String as FromNBT<'_>>::read(TAG_STRING, &mut reader).unwrap_err().to_string(),
        "invalid nbt string: nonunicode"
    );

    let text = "a\u{1f980}\0";
    let bytes = written(|w| String::from(text).write(w).unwrap());
    let mut reader = Reader::new(&bytes, DeOpts::default());
    assert_eq!(<String as FromNBT<'_>>::read(TAG_STRING, &mut reader).unwrap(), text);
    let cow: Cow<'_, str> = Cow::Borrowed("cow");
    assert_eq!(written(|w| cow.write(w).unwrap()), [0, 3, b'c', b'o', b'w']);
}

#[test]
fn byte_slices_borrow_arrays_and_byte_lists() {
    let array = [0, 0, 0, 2, 1, 2];
    let mut reader = Reader::new(&array, DeOpts::default());
    let bytes = <&[u8] as FromNBT<'_>>::read(TAG_BYTE_ARRAY, &mut reader).unwrap();
    assert_eq!(bytes, &[1, 2]);
    assert!(std::ptr::eq(bytes.as_ptr(), array[4..].as_ptr()));

    let list = [1, 0, 0, 0, 2, 5, 6];
    let mut reader = Reader::new(&list, DeOpts::default());
    assert_eq!(<&[u8] as FromNBT<'_>>::read(TAG_LIST, &mut reader).unwrap(), &[5, 6]);

    let empty = [0, 0, 0, 0, 0];
    let mut reader = Reader::new(&empty, DeOpts::default());
    assert!(<&[u8] as FromNBT<'_>>::read(TAG_LIST, &mut reader).unwrap().is_empty());

    let cases: [(u8, &[u8], &str); 5] = [
        (TAG_LIST, &[3, 0, 0, 0, 1, 0, 0, 0, 0], "invalid nbt tag value: 3"),
        (TAG_LIST, &[0, 0, 0, 0, 1], "unexpected list of type 'end', which is not supported"),
        (TAG_INT, &[0, 0, 0, 1], "invalid nbt tag value: 3"),
        (TAG_BYTE_ARRAY, &[0xff, 0xff, 0xff, 0xff], "negative array length"),
        (TAG_BYTE_ARRAY, &[0, 0, 0, 3, 1], "eof: unexpectedly ran out of input"),
    ];
    for (tag, input, message) in cases {
        let mut reader = Reader::new(input, DeOpts::default());
        assert_eq!(
            <&[u8] as FromNBT<'_>>::read(tag, &mut reader).unwrap_err().to_string(),
            message
        );
    }

    let byte = [0xfe];
    let mut reader = Reader::new(&byte, DeOpts::default());
    let b = <&u8 as FromNBT<'_>>::read(TAG_BYTE, &mut reader).unwrap();
    assert_eq!(*b, 0xfe);
    assert!(std::ptr::eq(b, &byte[0]));
}

#[test]
fn the_reader_skips_by_structure_and_bounds_depth() {
    // A compound holding a byte, then a trailing byte.
    let bytes = [1, 0, 1, b'a', 5, 0, 42];
    let mut reader = Reader::new(&bytes, DeOpts::default());
    reader.skip_value(TAG_COMPOUND).unwrap();
    assert_eq!(reader.remaining(), &[42]);

    // A negative list length skips no elements.
    let bytes = [2, 0xff, 0xff, 0xff, 0xff, 7];
    let mut reader = Reader::new(&bytes, DeOpts::default());
    reader.skip_value(TAG_LIST).unwrap();
    assert_eq!(reader.remaining(), &[7]);

    // Skipping a value of End refuses it.
    let mut reader = Reader::new(&[], DeOpts::default());
    assert_eq!(
        reader.skip_value(0).unwrap_err().to_string(),
        "unexpected list of type 'end', which is not supported"
    );

    let opts = DeOpts::new().max_depth(0);
    let mut reader = Reader::new(&[0], opts);
    assert_eq!(
        reader.skip_value(TAG_COMPOUND).unwrap_err().to_string(),
        "nesting deeper than max depth"
    );
    assert_eq!(reader.enter().unwrap_err().to_string(), "nesting deeper than max depth");

    let opts = DeOpts::new().max_depth(1);
    let mut reader = Reader::new(&[], opts);
    reader.enter().unwrap();
    assert!(reader.enter().is_err());
    reader.leave();
    reader.enter().unwrap();

    let mut reader = Reader::new(&[13], DeOpts::default());
    assert_eq!(reader.read_tag().unwrap_err().to_string(), "invalid nbt tag value: 13");
}

#[test]
fn documents_need_a_root_compound() {
    assert_eq!(
        to_bytes(&5_i32).unwrap_err().to_string(),
        "invalid nbt: no root compound"
    );
    assert_eq!(
        from_bytes::<i32>(&[1]).unwrap_err().to_string(),
        "invalid nbt: no root compound"
    );
    assert_eq!(
        from_bytes::<i32>(&[]).unwrap_err().to_string(),
        "eof: unexpectedly ran out of input"
    );
    // The root is a compound, which an `i32` does not read.
    assert_eq!(
        from_bytes::<i32>(&[10, 0, 0, 0]).unwrap_err().to_string(),
        "invalid nbt tag value: 10"
    );
    // Without a root name, the payload follows the tag.
    assert_eq!(
        from_bytes_with_opts::<i32>(&[10], DeOpts::network_nbt())
            .unwrap_err()
            .to_string(),
        "invalid nbt tag value: 10"
    );
    // A root name that is not modified UTF-8 is skipped, not decoded.
    assert_eq!(
        from_bytes::<i32>(&[10, 0, 1, 0xff]).unwrap_err().to_string(),
        "invalid nbt tag value: 10"
    );
    assert_eq!(
        to_bytes_with_opts("text", SerOpts::network_nbt())
            .unwrap_err()
            .to_string(),
        "invalid nbt: no root compound"
    );
}

#[test]
fn options_say_how_roots_are_named_and_what_is_accepted() {
    assert_eq!(SerOpts::new().name(), Some(""));
    assert_eq!(SerOpts::default().name(), Some(""));
    assert_eq!(SerOpts::network_nbt().name(), None);
    assert_eq!(SerOpts::network_nbt().root_name("x").name(), Some("x"));
    assert_eq!(
        SerOpts::new().root_name("r").serialize_root_compound_name(false).name(),
        None
    );
    assert_eq!(SerOpts::new().root_name("r").into_root_name(), Some(String::from("r")));
    assert_eq!(SerOpts::network_nbt().into_root_name(), None);

    let opts = DeOpts::default();
    assert_eq!(opts.seq_limit(), 100_000_000);
    assert_eq!(opts.depth_limit(), 512);
    assert!(opts.names_expected());
    assert!(!DeOpts::network_nbt().names_expected());
    let opts = DeOpts::new().max_seq_len(3).max_depth(7).expect_compound_names(false);
    assert_eq!(opts.seq_limit(), 3);
    assert_eq!(opts.depth_limit(), 7);
    assert!(!opts.names_expected());
    let reader = Reader::new(&[], opts);
    assert_eq!(reader.options().seq_limit(), 3);
}

#[test]
fn lists_longer_than_the_limit_are_refused_before_reading() {
    let bytes = [2, 0, 0, 0, 4];
    let mut reader = Reader::new(&bytes, DeOpts::new().max_seq_len(3));
    assert_eq!(
        read_list::<i16>(&mut reader).unwrap_err().to_string(),
        "size greater than max sequence length"
    );
    let bytes = [2, 0, 0, 0, 1, 0, 9];
    let mut reader = Reader::new(&bytes, DeOpts::new().max_depth(0));
    assert_eq!(
        read_list::<i16>(&mut reader).unwrap_err().to_string(),
        "nesting deeper than max depth"
    );
}

#[test]
fn skipping_passes_over_exactly_what_was_written() {
    let value = vec![vec![1_i16, -1], vec![], vec![i16::MAX]];
    let mut bytes = written(|w| value.write(w).unwrap());
    bytes.push(99);
    let mut reader = Reader::new(&bytes, DeOpts::default());
    reader.skip_value(TAG_LIST).unwrap();
    assert_eq!(reader.remaining(), &[99]);

    let text = String::from("x\0");
    let mut bytes = written(|w| text.write(w).unwrap());
    bytes.push(7);
    let mut reader = Reader::new(&bytes, DeOpts::default());
    reader.skip_value(TAG_STRING).unwrap();
    assert_eq!(reader.remaining(), &[7]);

    let mut bytes = written(|w| (-5_i128).write(w).unwrap());
    bytes.push(8);
    let mut reader = Reader::new(&bytes, DeOpts::default());
    reader.skip_value(TAG_INT_ARRAY).unwrap();
    assert_eq!(reader.remaining(), &[8]);
}

#[test]
fn an_empty_list_at_the_deepest_level_reads_but_is_not_skipped() {
    let bytes = [0, 0, 0, 0, 0];
    let opts = DeOpts::new().max_depth(0);
    let mut reader = Reader::new(&bytes, opts);
    assert!(read_list::<i16>(&mut reader).unwrap().is_empty());
    let mut reader = Reader::new(&bytes, opts);
    assert_eq!(
        reader.skip_value(TAG_LIST).unwrap_err().to_string(),
        "nesting deeper than max depth"
    );
}

#[test]
fn fixed_size_arrays_are_lists_of_their_length() {
    let array: [i16; 2] = [1, -2];
    let bytes = written(|w| array.write(w).unwrap());
    assert_eq!(bytes, written(|w| vec![1_i16, -2].write(w).unwrap()));
    assert_eq!(array.tag(), TAG_LIST);
    let mut reader = Reader::new(&bytes, DeOpts::default());
    assert_eq!(<[i16; 2]>::read(TAG_LIST, &mut reader).unwrap(), [1, -2]);
    let mut reader = Reader::new(&bytes, DeOpts::default());
    assert_eq!(
        <[i16; 3]>::read(TAG_LIST, &mut reader).unwrap_err().to_string(),
        "sequence has a different length than the target array"
    );
    let mut reader = Reader::new(&bytes, DeOpts::default());
    assert_eq!(
        <[i16; 2]>::read(TAG_INT, &mut reader).unwrap_err().to_string(),
        "invalid nbt tag value: 3"
    );
}

#[test]
fn a_reference_writes_like_its_value() {
    let value = 0x0102_0304_i32;
    let by_ref = &value;
    assert_eq!(by_ref.tag(), TAG_INT);
    assert_eq!(
        written(|w| by_ref.write(w).unwrap()),
        written(|w| value.write(w).unwrap())
    );
}

#[test]
fn text_borrows_exactly_when_it_needs_no_encoding() {
    assert!(matches!(to_java_cesu8("plain é"), Cow::Borrowed(b) if b == "plain é".as_bytes()));
    match to_java_cesu8("a\0\u{10401}") {
        Cow::Owned(bytes) => assert_eq!(bytes, vec![0x61, 0xc0, 0x80, 0xed, 0xa0, 0x81, 0xed, 0xb0, 0x81]),
        Cow::Borrowed(_) => panic!("a NUL and a non-BMP character need encoding"),
    }
}
