use vstd::prelude::*;

verus! {

/// Every way in which decoding or encoding can fail. No error is recovered from.
#[derive(Debug)]
pub enum Error {
    /// A free-form message raised by the data-model framework.
    Message(String),
    /// A request that the format cannot represent (floating point).
    InvalidValue(&'static str),
    /// Input exhausted while a byte was required.
    Eof,
    /// The integer grammar was not matched.
    ExpectedInteger,
    /// A minus sign was found where an unsigned integer was required.
    ExpectedUnsignedInteger,
    /// A decoded integer was neither 0 nor 1.
    ExpectedBoolean,
    /// The lead byte did not open a list.
    ExpectedArray,
    /// The lead byte did not open a dictionary.
    ExpectedDictionary,
    /// A payload-less variant was found inside a dictionary.
    ExpectedString,
    /// The lead byte opened neither a bare variant name nor a dictionary.
    ExpectedEnum,
    /// A list, dictionary, integer or length prefix was not terminated.
    ClosingTagNotFound,
    /// Digit accumulation left the range of the target integer type.
    LargeNumber,
    /// A byte string's declared length exceeds the remaining input.
    BadStringSize,
    /// A character token holds more than four bytes.
    TooBigChar,
    /// The lead byte does not start any token.
    Syntax,
    /// Input was left over after the top-level value.
    TrailingBytes,
}

} // verus!
