//! The error type shared by writing and reading.

use vstd::prelude::*;
use vstd::string::StringExecFns;

verus! {

/// Why a value could not be written or read.
#[derive(Debug, Clone, PartialEq, Eq)]
pub enum ErrorKind {
    /// The document's root is not a compound, or a value written as a root is not one.
    NoRootCompound,
    /// The input ended in the middle of a value.
    UnexpectedEof,
    /// A tag byte that names no NBT type, or one a value cannot have.
    InvalidTag(u8),
    /// A struct field the document has no entry for.
    MissingField(&'static str),
    /// An enum variant name that matches no variant.
    UnknownVariant,
    /// A string that needs decoding was read where only a borrow fits.
    BorrowedString,
    /// An owned modified UTF-8 string was read where only a borrow fits.
    BorrowedCesu8,
    /// Owned bytes were read where only a borrow fits.
    BorrowedBytes,
    /// An `Int` read as a `char` that is no Unicode scalar value.
    InvalidChar,
    /// A sequence whose length differs from the target fixed-size array.
    WrongLen,
    /// A string that is neither UTF-8 nor modified UTF-8.
    NonunicodeString,
    /// A list of End tags that claims to have elements.
    ListOfEnd,
    /// A list or array longer than the configured limit.
    SeqTooLong,
    /// Lists and compounds nested deeper than the configured limit.
    TooDeep,
    /// An End tag where a value was expected.
    ExpectedValue,
    /// A list or array whose length is negative.
    NegativeLen,
    /// An array whose byte size does not fit in memory.
    ArrayTooLarge,
    /// A value that has no raw byte payload.
    NotBytes,
    /// A 128-bit integer that is not an int array of four ints.
    ExpectedIntArray,
    /// A compound key that is not string-like.
    KeyNotString,
    /// A compound value offered before its key.
    ValueBeforeKey,
    /// A sequence offered without its length.
    UnknownLen,
    /// A list or array longer than an `i32` length can say.
    LenTooLarge,
    /// An absent value inside a list.
    NoneInList,
    /// A unit value, which NBT has no tag for.
    Unit,
    /// An enum variant with data, which NBT has no tag for.
    Variant,
    /// A string longer than its `u16` length prefix can say.
    StringTooLong,
}

/// Why a value could not be written or read: an [`ErrorKind`].
#[derive(Debug, Clone, PartialEq, Eq)]
pub struct Error(pub ErrorKind);

pub type Result<T> = core::result::Result<T, Error>;

/// The text of one decimal digit.
pub open spec fn digit_text(d: nat) -> Seq<char> {
    if d == 0 { "0"@ } else if d == 1 { "1"@ } else if d == 2 { "2"@ } else if d == 3 { "3"@ }
    else if d == 4 { "4"@ } else if d == 5 { "5"@ } else if d == 6 { "6"@ } else if d == 7 { "7"@ }
    else if d == 8 { "8"@ } else { "9"@ }
}

/// The decimal spelling of `n`, without leading zeros.
pub open spec fn decimal_text(n: nat) -> Seq<char>
    decreases n,
{
    if n < 10 {
        digit_text(n)
    } else {
        decimal_text(n / 10) + digit_text(n % 10)
    }
}

/// The message each kind of error reads as.
pub open spec fn message_text(kind: ErrorKind) -> Seq<char> {
    match kind {
        ErrorKind::NoRootCompound => "invalid nbt: no root compound"@,
        ErrorKind::UnexpectedEof => "eof: unexpectedly ran out of input"@,
        ErrorKind::InvalidTag(tag) => "invalid nbt tag value: "@ + decimal_text(tag as nat),
        ErrorKind::MissingField(name) => "missing field `"@ + name@ + "`"@,
        ErrorKind::UnknownVariant => "unknown enum variant"@,
        ErrorKind::BorrowedString => "string is not plain UTF-8 and cannot be borrowed; use Cow<str> or String"@,
        ErrorKind::BorrowedCesu8 => "CESU-8 string is owned and cannot be borrowed; use Cow<Cesu8> or Cesu8Buf"@,
        ErrorKind::BorrowedBytes => "value is owned and cannot be borrowed; use an owned type"@,
        ErrorKind::InvalidChar => "integer is not a unicode scalar value"@,
        ErrorKind::WrongLen => "sequence has a different length than the target array"@,
        ErrorKind::NonunicodeString => "invalid nbt string: nonunicode"@,
        ErrorKind::ListOfEnd => "unexpected list of type 'end', which is not supported"@,
        ErrorKind::SeqTooLong => "size greater than max sequence length"@,
        ErrorKind::TooDeep => "nesting deeper than max depth"@,
        ErrorKind::ExpectedValue => "expected value, found end tag"@,
        ErrorKind::NegativeLen => "negative array length"@,
        ErrorKind::ArrayTooLarge => "nbt array too large"@,
        ErrorKind::NotBytes => "cannot convert to bytes"@,
        ErrorKind::ExpectedIntArray => "deserialize i128: expected int array of length 4"@,
        ErrorKind::KeyNotString => "field must be string-like"@,
        ErrorKind::ValueBeforeKey => "serialize_value called before serialize_key"@,
        ErrorKind::UnknownLen => "sequences must have a known length"@,
        ErrorKind::LenTooLarge => "len too large"@,
        ErrorKind::NoneInList => "cannot serialize None in list"@,
        ErrorKind::Unit => "cannot serialize unit"@,
        ErrorKind::Variant => "cannot serialize newtype or struct variant"@,
        ErrorKind::StringTooLong => "string longer than 65535 bytes"@,
    }
}

fn digit_str(d: u8) -> (s: &'static str)
    requires
        d < 10,
    ensures
        s@ == digit_text(d as nat),
{
    if d == 0 { "0" } else if d == 1 { "1" } else if d == 2 { "2" } else if d == 3 { "3" }
    else if d == 4 { "4" } else if d == 5 { "5" } else if d == 6 { "6" } else if d == 7 { "7" }
    else if d == 8 { "8" } else { "9" }
}

/// Appends the decimal spelling of `n`.
fn append_decimal(text: &mut String, n: u8)
    ensures
        final(text)@ == old(text)@ + decimal_text(n as nat),
{
    proof {
        reveal_with_fuel(decimal_text, 3);
    }
    if n >= 100 {
        text.append(digit_str(n / 100));
        text.append(digit_str(n / 10 % 10));
        assert(decimal_text(n as nat) == digit_text((n / 100) as nat) + digit_text((n / 10 % 10) as nat)
            + digit_text((n % 10) as nat));
    } else if n >= 10 {
        text.append(digit_str(n / 10));
    }
    text.append(digit_str(n % 10));
}

impl Error {
    /// The document's root is not a compound, or a value written as a root is not one.
    pub fn no_root_compound() -> (e: Self)
        ensures
            e.0 == ErrorKind::NoRootCompound,
    {
        Error(ErrorKind::NoRootCompound)
    }

    /// The input ended in the middle of a value.
    pub fn unexpected_eof() -> (e: Self)
        ensures
            e.0 == ErrorKind::UnexpectedEof,
    {
        Error(ErrorKind::UnexpectedEof)
    }

    /// A tag byte that names no NBT type, or one a value cannot have.
    pub fn invalid_tag(tag: u8) -> (e: Self)
        ensures
            e.0 == ErrorKind::InvalidTag(tag),
    {
        Error(ErrorKind::InvalidTag(tag))
    }

    /// A struct field the document has no entry for.
    pub fn missing_field(name: &'static str) -> (e: Self)
        ensures
            e.0 == ErrorKind::MissingField(name),
    {
        Error(ErrorKind::MissingField(name))
    }

    /// An enum variant name that matches no variant.
    pub fn unknown_variant() -> (e: Self)
        ensures
            e.0 == ErrorKind::UnknownVariant,
    {
        Error(ErrorKind::UnknownVariant)
    }

    /// A string that needs decoding was read where only a borrow fits.
    pub fn borrowed_string() -> (e: Self)
        ensures
            e.0 == ErrorKind::BorrowedString,
    {
        Error(ErrorKind::BorrowedString)
    }

    /// An owned modified UTF-8 string was read where only a borrow fits.
    pub fn borrowed_cesu8() -> (e: Self)
        ensures
            e.0 == ErrorKind::BorrowedCesu8,
    {
        Error(ErrorKind::BorrowedCesu8)
    }

    /// Owned bytes were read where only a borrow fits.
    pub fn borrowed_bytes() -> (e: Self)
        ensures
            e.0 == ErrorKind::BorrowedBytes,
    {
        Error(ErrorKind::BorrowedBytes)
    }

    /// An `Int` read as a `char` that is no Unicode scalar value.
    pub fn invalid_char() -> (e: Self)
        ensures
            e.0 == ErrorKind::InvalidChar,
    {
        Error(ErrorKind::InvalidChar)
    }

    /// A sequence whose length differs from the target fixed-size array.
    pub fn wrong_len() -> (e: Self)
        ensures
            e.0 == ErrorKind::WrongLen,
    {
        Error(ErrorKind::WrongLen)
    }

    /// A string that is neither UTF-8 nor modified UTF-8.
    pub fn nonunicode_string() -> (e: Self)
        ensures
            e.0 == ErrorKind::NonunicodeString,
    {
        Error(ErrorKind::NonunicodeString)
    }

    /// A list of End tags that claims to have elements.
    pub fn list_of_end() -> (e: Self)
        ensures
            e.0 == ErrorKind::ListOfEnd,
    {
        Error(ErrorKind::ListOfEnd)
    }

    /// A list or array longer than the configured limit.
    pub fn seq_too_long() -> (e: Self)
        ensures
            e.0 == ErrorKind::SeqTooLong,
    {
        Error(ErrorKind::SeqTooLong)
    }

    /// Lists and compounds nested deeper than the configured limit.
    pub fn too_deep() -> (e: Self)
        ensures
            e.0 == ErrorKind::TooDeep,
    {
        Error(ErrorKind::TooDeep)
    }

    /// An End tag where a value was expected.
    pub fn expected_value() -> (e: Self)
        ensures
            e.0 == ErrorKind::ExpectedValue,
    {
        Error(ErrorKind::ExpectedValue)
    }

    /// A list or array whose length is negative.
    pub fn negative_len() -> (e: Self)
        ensures
            e.0 == ErrorKind::NegativeLen,
    {
        Error(ErrorKind::NegativeLen)
    }

    /// An array whose byte size does not fit in memory.
    pub fn array_too_large() -> (e: Self)
        ensures
            e.0 == ErrorKind::ArrayTooLarge,
    {
        Error(ErrorKind::ArrayTooLarge)
    }

    /// A value that has no raw byte payload.
    pub fn not_bytes() -> (e: Self)
        ensures
            e.0 == ErrorKind::NotBytes,
    {
        Error(ErrorKind::NotBytes)
    }

    /// A 128-bit integer that is not an int array of four ints.
    pub fn expected_int_array() -> (e: Self)
        ensures
            e.0 == ErrorKind::ExpectedIntArray,
    {
        Error(ErrorKind::ExpectedIntArray)
    }

    /// A compound key that is not string-like.
    pub fn key_not_string() -> (e: Self)
        ensures
            e.0 == ErrorKind::KeyNotString,
    {
        Error(ErrorKind::KeyNotString)
    }

    /// A compound value offered before its key.
    pub fn value_before_key() -> (e: Self)
        ensures
            e.0 == ErrorKind::ValueBeforeKey,
    {
        Error(ErrorKind::ValueBeforeKey)
    }

    /// A sequence offered without its length.
    pub fn unknown_len() -> (e: Self)
        ensures
            e.0 == ErrorKind::UnknownLen,
    {
        Error(ErrorKind::UnknownLen)
    }

    /// A list or array longer than an `i32` length can say.
    pub fn len_too_large() -> (e: Self)
        ensures
            e.0 == ErrorKind::LenTooLarge,
    {
        Error(ErrorKind::LenTooLarge)
    }

    /// An absent value inside a list.
    pub fn none_in_list() -> (e: Self)
        ensures
            e.0 == ErrorKind::NoneInList,
    {
        Error(ErrorKind::NoneInList)
    }

    /// A unit value, which NBT has no tag for.
    pub fn unit() -> (e: Self)
        ensures
            e.0 == ErrorKind::Unit,
    {
        Error(ErrorKind::Unit)
    }

    /// An enum variant with data, which NBT has no tag for.
    pub fn variant() -> (e: Self)
        ensures
            e.0 == ErrorKind::Variant,
    {
        Error(ErrorKind::Variant)
    }

    /// A string longer than its `u16` length prefix can say.
    pub fn string_too_long() -> (e: Self)
        ensures
            e.0 == ErrorKind::StringTooLong,
    {
        Error(ErrorKind::StringTooLong)
    }

    /// The error's message, as the text a reader sees.
    pub fn to_string(&self) -> (text: String)
        ensures
            text@ == message_text(self.0),
    {
        match &self.0 {
            ErrorKind::NoRootCompound => String::from_str("invalid nbt: no root compound"),
            ErrorKind::UnexpectedEof => String::from_str("eof: unexpectedly ran out of input"),
            ErrorKind::InvalidTag(tag) => {
                let mut text = String::from_str("invalid nbt tag value: ");
                append_decimal(&mut text, *tag);
                text
            },
            ErrorKind::MissingField(name) => {
                let mut text = String::from_str("missing field `");
                text.append(name);
                text.append("`");
                text
            },
            ErrorKind::UnknownVariant => String::from_str("unknown enum variant"),
            ErrorKind::BorrowedString => String::from_str("string is not plain UTF-8 and cannot be borrowed; use Cow<str> or String"),
            ErrorKind::BorrowedCesu8 => String::from_str("CESU-8 string is owned and cannot be borrowed; use Cow<Cesu8> or Cesu8Buf"),
            ErrorKind::BorrowedBytes => String::from_str("value is owned and cannot be borrowed; use an owned type"),
            ErrorKind::InvalidChar => String::from_str("integer is not a unicode scalar value"),
            ErrorKind::WrongLen => String::from_str("sequence has a different length than the target array"),
            ErrorKind::NonunicodeString => String::from_str("invalid nbt string: nonunicode"),
            ErrorKind::ListOfEnd => String::from_str("unexpected list of type 'end', which is not supported"),
            ErrorKind::SeqTooLong => String::from_str("size greater than max sequence length"),
            ErrorKind::TooDeep => String::from_str("nesting deeper than max depth"),
            ErrorKind::ExpectedValue => String::from_str("expected value, found end tag"),
            ErrorKind::NegativeLen => String::from_str("negative array length"),
            ErrorKind::ArrayTooLarge => String::from_str("nbt array too large"),
            ErrorKind::NotBytes => String::from_str("cannot convert to bytes"),
            ErrorKind::ExpectedIntArray => String::from_str("deserialize i128: expected int array of length 4"),
            ErrorKind::KeyNotString => String::from_str("field must be string-like"),
            ErrorKind::ValueBeforeKey => String::from_str("serialize_value called before serialize_key"),
            ErrorKind::UnknownLen => String::from_str("sequences must have a known length"),
            ErrorKind::LenTooLarge => String::from_str("len too large"),
            ErrorKind::NoneInList => String::from_str("cannot serialize None in list"),
            ErrorKind::Unit => String::from_str("cannot serialize unit"),
            ErrorKind::Variant => String::from_str("cannot serialize newtype or struct variant"),
            ErrorKind::StringTooLong => String::from_str("string longer than 65535 bytes"),
        }
    }
}

} // verus!
