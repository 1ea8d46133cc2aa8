//! `nanonbt`: Minecraft's NBT format.
//!
//! Values implement [`ToNBT`] and [`FromNBT`]; [`to_bytes`] writes one as a
//! document's root compound and [`from_bytes`] reads it back. Tags are
//! matched strictly: a value reads its own tag only. Strings are modified
//! UTF-8 (Java's CESU-8) and borrow from the input when they need no
//! decoding.
//!
//! The [`de`] and [`ser`] modules hold the decisions of the serde data
//! model, [`arrays`] the NBT arrays' element spellings, and [`value`] a
//! whole tree of any values.

pub mod arrays;
pub mod be;
pub mod cesu8;
pub mod de;
pub mod document;
pub mod error;
mod impls;
pub mod opts;
pub mod read;
pub mod roundtrip;
pub mod ser;
pub mod tag;
pub mod testkit;
pub mod value;
pub mod write;

pub use arrays::{
    ArrayElement, ByteArrayElement, ByteArrayValue, IntArrayElement, IntArrayValue, LongArrayElement,
    LongArrayValue,
};
pub use be::{F32Be, F64Be, I16Be, I32Be, I64Be, U16Be, U32Be, U64Be};
pub use cesu8::{from_java_cesu8, to_java_cesu8, DecodeError};
pub use document::{from_bytes, from_bytes_with_opts, to_bytes, to_bytes_with_opts};
pub use error::{Error, ErrorKind, Result};
pub use opts::{DeOpts, SerOpts};
pub use read::{FromNBT, Reader};
pub use value::{from_value, to_value, Value};
pub use tag::{
    TAG_BYTE, TAG_BYTE_ARRAY, TAG_COMPOUND, TAG_DOUBLE, TAG_END, TAG_FLOAT, TAG_INT, TAG_INT_ARRAY,
    TAG_LIST, TAG_LONG, TAG_LONG_ARRAY, TAG_SHORT, TAG_STRING,
};
pub use write::{ToNBT, Writer};
