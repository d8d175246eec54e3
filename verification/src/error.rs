//! What construction and parsing report when they refuse an input.

use vstd::prelude::*;

verus! {

/// Why a text is refused as a name or as a value.
#[derive(Clone, Copy, Debug, PartialEq, Eq, Structural)]
pub enum ValidationError {
    /// The text, or what a quoted text stands for, is empty.
    Empty,
    /// The text is longer than a name may be.
    TooLong,
    /// The byte at this offset is not allowed there.
    InvalidChar(usize),
    /// The text opens a quoted string that it does not close.
    UnterminatedQuote,
}

/// The places of a media type that hold a name.
#[derive(Clone, Copy, Debug, PartialEq, Eq, Structural)]
pub enum Field {
    Type,
    Subtype,
    Suffix,
    ParamName,
}

/// Why a text is refused as a media type.
#[derive(Clone, Copy, Debug, PartialEq, Eq, Structural)]
pub enum MediaTypeError {
    /// The input is empty.
    Empty,
    /// The input holds no `/`.
    MissingSlash,
    /// The text found in a name's place is no name; offsets count from the
    /// start of that text.
    InvalidName(Field, ValidationError),
    /// A parameter's name is not followed by `=`.
    MissingEquals,
    /// A parameter's value is empty.
    EmptyValue,
    /// A quoted value is not closed before the input ends.
    UnterminatedQuote,
    /// The byte at this offset stands directly behind the subtype, the suffix
    /// or a value and can neither continue nor follow it.
    UnexpectedChar(usize),
    /// From this offset on the input holds white space that no `;` follows.
    TrailingInput(usize),
}

} // verus!
