use vstd::prelude::*;

verus! {

/// The ways a tag operation can fail.
///
/// `BufferOverflowError` and `DateConversionError` are the two failures of
/// the encoder itself: a fixed output buffer that cannot hold the rendered
/// digits, and a timestamp that does not denote a supported calendar instant.
/// `InvalidCharacterError` and `ValueOverflowError` belong to decoding: a
/// digit character that is not in the alphabet, and a digit string whose
/// value does not fit the result type.
#[derive(Debug, PartialEq, Eq, Structural, Clone, Copy)]
pub enum TagError {
    BufferOverflowError,
    DateConversionError,
    InvalidCharacterError,
    ValueOverflowError,
}

impl TagError {
    /// A short human-readable description of the error.
    pub fn message(&self) -> (r: &'static str)
        ensures
            *self is BufferOverflowError ==> r@ == "Buffer overflow error"@,
            *self is DateConversionError ==> r@ == "Date conversion error"@,
            *self is InvalidCharacterError ==> r@ == "Invalid character error"@,
            *self is ValueOverflowError ==> r@ == "Value overflow error"@,
    {
        match self {
            TagError::BufferOverflowError => "Buffer overflow error",
            TagError::DateConversionError => "Date conversion error",
            TagError::InvalidCharacterError => "Invalid character error",
            TagError::ValueOverflowError => "Value overflow error",
        }
    }
}

} // verus!
