//! The values a parsed line is made of, and the ways a parse can fail.

use vstd::prelude::*;

verus! {

/// A time of day as written in the log. No field is range-checked: each holds
/// whatever its digit run denotes.
#[derive(Debug, PartialEq, Eq, Structural, Clone, Copy)]
pub struct Time {
    pub hour: u16,
    pub minute: u16,
    pub second: u16,
    pub millisecond: u16,
}

/// A calendar date as written in the log, without a year and without range checks.
#[derive(Debug, PartialEq, Eq, Structural, Clone, Copy)]
pub struct Date {
    pub month: u16,
    pub day: u16,
}

/// Why a parse failed.
#[derive(Debug, PartialEq, Eq, Structural, Clone, Copy)]
pub enum ParseError {
    /// A number was expected and the input does not start with a decimal digit.
    NoDigits,
    /// The digit run denotes a number above `u16::MAX`.
    NumericOverflow,
    /// A separator character was expected and the input is empty or starts
    /// with another character.
    UnexpectedDelimiter,
    /// Blank space was required between two parts of a line and the input
    /// goes on with something else.
    MissingWhitespace,
    /// The line ends where blank space and a further part were required.
    IncompleteLine,
}

} // verus!
