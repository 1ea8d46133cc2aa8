//! Numeric lists read through the public API, and the ways they are refused.

use nanonbt::{DeOpts, Error, FromNBT, Reader, TAG_COMPOUND, TAG_END};

/// A root compound holding `data`, one list of `element` with `len` and
/// `payload`.
fn list_document(element: u8, len: i32, payload: &[u8]) -> Vec<u8> {
    let mut bytes = vec![
        0x0a, 0x00, 0x00, 0x09, 0x00, 0x04, b'd', b'a', b't', b'a', element,
    ];
    bytes.extend_from_slice(&len.to_be_bytes());
    bytes.extend_from_slice(payload);
    bytes.push(0x00);
    bytes
}

/// A struct with one `data: Vec<i16>` field, read from a document the way
/// a derived `FromNBT` reads it.
#[derive(Debug)]
struct Shorts {
    data: Vec<i16>,
}

fn shorts_from_bytes(input: &[u8]) -> Result<Shorts, Error> {
    let mut reader = Reader::new(input, DeOpts::default());
    let tag = reader.read_tag()?;
    if tag != TAG_COMPOUND {
        return Err(Error::no_root_compound());
    }
    reader.skip_name()?;
    let mut data = None;
    loop {
        let tag = reader.read_tag()?;
        if tag == TAG_END {
            break;
        }
        let name = reader.read_name()?;
        if name == "data" {
            data = Some(<Vec<i16> as FromNBT<'_>>::read(tag, &mut reader)?);
        } else {
            reader.skip_value(tag)?;
        }
    }
    match data {
        Some(data) => Ok(Shorts { data }),
        None => Err(Error::missing_field("data")),
    }
}

#[test]
fn an_element_of_the_wrong_tag_is_refused() {
    // An Int element read as a `Vec<i16>`.
    let bytes = list_document(3, 1, &[0, 0, 0, 1]);
    assert_eq!(
        shorts_from_bytes(&bytes).unwrap_err().to_string(),
        "invalid nbt tag value: 3"
    );
}

#[test]
fn a_list_of_end_with_elements_is_refused() {
    assert_eq!(
        shorts_from_bytes(&list_document(0, 1, &[]))
            .unwrap_err()
            .to_string(),
        "unexpected list of type 'end', which is not supported"
    );
    assert!(
        shorts_from_bytes(&list_document(0, 0, &[]))
            .unwrap()
            .data
            .is_empty()
    );
}

#[test]
fn a_truncated_payload_is_refused() {
    // Two elements promised, one present.
    assert_eq!(
        shorts_from_bytes(&list_document(2, 2, &[0, 7]))
            .unwrap_err()
            .to_string(),
        "eof: unexpectedly ran out of input"
    );
}

#[test]
fn a_negative_list_length_is_refused() {
    assert_eq!(
        shorts_from_bytes(&list_document(2, -1, &[]))
            .unwrap_err()
            .to_string(),
        "negative array length"
    );
}

#[test]
fn a_list_longer_than_the_limit_is_refused() {
    let bytes = list_document(2, 100_000_001, &[]);
    assert_eq!(
        shorts_from_bytes(&bytes).unwrap_err().to_string(),
        "size greater than max sequence length"
    );
}

#[test]
fn a_list_of_shorts_reads_in_order() {
    let bytes = list_document(2, 3, &[0x00, 0x01, 0xff, 0xfe, 0x80, 0x00]);
    assert_eq!(shorts_from_bytes(&bytes).unwrap().data, vec![1, -2, i16::MIN]);
}

#[test]
fn a_missing_field_is_named() {
    let bytes = [0x0a, 0x00, 0x00, 0x00];
    assert_eq!(
        shorts_from_bytes(&bytes).unwrap_err().to_string(),
        "missing field `data`"
    );
}
