//! The tag bytes that name each NBT type.

use vstd::prelude::*;

verus! {

/// Closes a compound; as a list's element type, marks an empty list.
pub const TAG_END: u8 = 0;

pub const TAG_BYTE: u8 = 1;

pub const TAG_SHORT: u8 = 2;

pub const TAG_INT: u8 = 3;

pub const TAG_LONG: u8 = 4;

pub const TAG_FLOAT: u8 = 5;

pub const TAG_DOUBLE: u8 = 6;

pub const TAG_BYTE_ARRAY: u8 = 7;

pub const TAG_STRING: u8 = 8;

pub const TAG_LIST: u8 = 9;

pub const TAG_COMPOUND: u8 = 10;

pub const TAG_INT_ARRAY: u8 = 11;

pub const TAG_LONG_ARRAY: u8 = 12;

/// The largest tag byte that names a type.
pub const TAG_MAX: u8 = 12;

/// The number of payload bytes of a fixed-size value, `None` for the other tags.
pub open spec fn scalar_size(tag: u8) -> Option<nat> {
    if tag == TAG_BYTE {
        Some(1)
    } else if tag == TAG_SHORT {
        Some(2)
    } else if tag == TAG_INT || tag == TAG_FLOAT {
        Some(4)
    } else if tag == TAG_LONG || tag == TAG_DOUBLE {
        Some(8)
    } else {
        None
    }
}

} // verus!
