//! The NBT arrays' element spellings and payloads.

use nanonbt::arrays::{
    decode_be, encode_be, read_array, whole_elements, write_array, write_array_entry,
};
use nanonbt::{
    ByteArrayValue, DeOpts, IntArrayValue, LongArrayValue, Reader, Writer, TAG_INT_ARRAY,
    TAG_LONG_ARRAY,
};

fn written(f: impl FnOnce(&mut Writer)) -> Vec<u8> {
    let mut writer = Writer::new(Vec::new());
    f(&mut writer);
    writer.into_inner()
}

#[test]
fn elements_are_big_endian_and_a_partial_one_is_ignored() {
    assert_eq!(encode_be(&[1_i32, -2]), [0, 0, 0, 1, 0xff, 0xff, 0xff, 0xfe]);
    assert_eq!(decode_be::<i32>(&[0, 0, 0, 1, 0xff, 0xff, 0xff, 0xfe]), [1, -2]);
    assert_eq!(decode_be::<u32>(&[0xff, 0xff, 0xff, 0xfe, 9]), [0xffff_fffe]);
    assert_eq!(decode_be::<i8>(&[0xff, 1]), [-1, 1]);
    assert_eq!(encode_be(&[u64::MAX]), [0xff; 8]);
    assert_eq!(decode_be::<i64>(&[0x80, 0, 0, 0, 0, 0, 0, 0]), [i64::MIN]);
    assert_eq!(whole_elements::<i32>(&[0, 0, 0, 1, 9]), None);
    assert_eq!(whole_elements::<i64>(&[0; 16]), Some(vec![0, 0]));
}

#[test]
fn array_payloads_are_the_length_then_the_elements() {
    let expected = [0, 0, 0, 1, 0xff];
    assert_eq!(written(|w| write_array(&[-1_i8], w).unwrap()), expected);
    assert_eq!(written(|w| write_array(&[u8::MAX], w).unwrap()), expected);
    let signed = written(|w| write_array(&[-1_i64], w).unwrap());
    let unsigned = written(|w| write_array(&[u64::MAX], w).unwrap());
    assert_eq!(signed, unsigned);
    assert_eq!(&signed[..4], &[0, 0, 0, 1]);
}

#[test]
fn arrays_read_back_in_either_spelling() {
    let bytes = written(|w| write_array_entry(&[1_u64, u64::MAX], "data", w).unwrap());
    let mut reader = Reader::new(&bytes, DeOpts::default());
    let tag = reader.read_tag().unwrap();
    assert_eq!(tag, TAG_LONG_ARRAY);
    reader.skip_name().unwrap();
    assert_eq!(read_array::<i64>(tag, &mut reader).unwrap(), [1, -1]);

    // A tag of another array kind is refused.
    let mut reader = Reader::new(&bytes, DeOpts::default());
    reader.read_tag().unwrap();
    reader.skip_name().unwrap();
    assert_eq!(
        read_array::<i64>(TAG_INT_ARRAY, &mut reader).unwrap_err().to_string(),
        "invalid nbt tag value: 11"
    );

    let ints = [0, 0, 0, 2, 0xff, 0xff, 0xff, 0xfe, 0, 0, 0, 3];
    let mut reader = Reader::new(&ints, DeOpts::default());
    assert_eq!(read_array::<i32>(TAG_INT_ARRAY, &mut reader).unwrap(), [-2, 3]);
    let mut reader = Reader::new(&ints[..8], DeOpts::default());
    assert_eq!(
        read_array::<u32>(TAG_INT_ARRAY, &mut reader).unwrap_err().to_string(),
        "eof: unexpectedly ran out of input"
    );
}

#[test]
fn field_types_hold_their_elements() {
    let bytes: Vec<u8> = ByteArrayValue::from_elements(vec![1_u8, 2]);
    assert_eq!(ByteArrayValue::as_elements(&bytes), &[1, 2]);
    let ints: Vec<i32> = IntArrayValue::from_elements(vec![-1]);
    assert_eq!(IntArrayValue::as_elements(&ints), &[-1]);
    let longs: Vec<u64> = LongArrayValue::from_elements(vec![7]);
    assert_eq!(LongArrayValue::as_elements(&longs), &[7]);
}
