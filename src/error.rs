//! The errors that decoding and encoding report.
use vstd::prelude::*;

verus! {

/// Why a decode or an encode failed. Every error ends the operation.
#[derive(Debug, PartialEq, Eq)]
pub enum Error {
    /// The input ended in the middle of a value.
    UnexpectedEof,
    /// A byte that cannot stand where it was found.
    InvalidCharacter(u8),
    /// A malformed integer: empty, a leading zero, `-0`, or out of range.
    InvalidInteger,
    /// A dictionary key that is not a byte string.
    InvalidDictKey,
    /// Dictionary keys that are not in strictly ascending order.
    UnsortedDictKeys,
    /// An error of the typed layer: an unsupported shape, a missing field,
    /// or a key and a value that do not pair up.
    Message(String),
}

/// The result of a decode or an encode.
pub type Result<T> = core::result::Result<T, Error>;

/// The error for a floating-point value, which bencode cannot hold.
pub fn unsupported_float() -> (r: Error)
    ensures
        r matches Error::Message(m) && m@ == "bencode does not support floats"@,
{
    broadcast use vstd::string::to_string_from_display_ensures_for_str;
    Error::Message("bencode does not support floats".to_string())
}

/// The error for an enumerated variant, which bencode cannot hold.
pub fn unsupported_enum() -> (r: Error)
    ensures
        r matches Error::Message(m) && m@ == "bencode does not support enums"@,
{
    broadcast use vstd::string::to_string_from_display_ensures_for_str;
    Error::Message("bencode does not support enums".to_string())
}

} // verus!
