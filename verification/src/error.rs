//! What can go wrong when a rate is parsed.

use crate::decimal::{digits, push_digits};
use vstd::prelude::*;
use vstd::string::*;

verus! {

/// Error parsing a human-friendly bandwidth.
#[derive(Debug, PartialEq, Clone)]
pub enum Error {
    /// Invalid character during parsing.
    ///
    /// Anything that is not a digit, a letter, `/`, `.` or white space is prohibited, and so
    /// is a second `.` in one number.
    ///
    /// The field is the byte offset of the character in the string.
    InvalidCharacter(usize),
    /// Non-numeric value where a number is expected.
    ///
    /// This usually means that either a unit is broken into words, e.g. `M bps` instead of
    /// `Mbps`, or just that a number is omitted, for example `2 Mbps kbps` instead of
    /// `2 Mbps 1 kbps`.
    ///
    /// The field is the byte offset at which the number was looked for: zero, or just
    /// behind the white space that ends the unit before.
    NumberExpected(usize),
    /// The unit of a number is not one of the decimal units.
    UnknownUnit {
        /// Start of the invalid unit inside the parsed text.
        start: usize,
        /// End of the invalid unit inside the parsed text (exclusive).
        end: usize,
        /// The unit verbatim; empty where the number has no unit at all.
        unit: String,
        /// The whole part of the number that the unit belongs to.
        value: u64,
    },
    /// The unit of a number is not one of the units with a binary prefix.
    UnknownBinaryUnit {
        /// Start of the invalid unit inside the parsed text.
        start: usize,
        /// End of the invalid unit inside the parsed text (exclusive).
        end: usize,
        /// The unit verbatim; empty where the number has no unit at all.
        unit: String,
        /// The whole part of the number that the unit belongs to.
        value: u64,
    },
    /// The numeric value is too large.
    NumberOverflow,
    /// The value was an empty string, or consists only of white space.
    Empty,
}

/// An [`Error`] as contracts speak of it: offsets and values as mathematical integers, the
/// unit as a sequence of characters.
pub enum Failure {
    InvalidCharacter(int),
    NumberExpected(int),
    UnknownUnit { start: int, end: int, unit: Seq<char>, value: nat },
    UnknownBinaryUnit { start: int, end: int, unit: Seq<char>, value: nat },
    NumberOverflow,
    Empty,
}

impl View for Error {
    type V = Failure;

    open spec fn view(&self) -> Failure {
        match self {
            Error::InvalidCharacter(at) => Failure::InvalidCharacter(*at as int),
            Error::NumberExpected(at) => Failure::NumberExpected(*at as int),
            Error::UnknownUnit { start, end, unit, value } => Failure::UnknownUnit {
                start: *start as int,
                end: *end as int,
                unit: unit@,
                value: *value as nat,
            },
            Error::UnknownBinaryUnit { start, end, unit, value } => Failure::UnknownBinaryUnit {
                start: *start as int,
                end: *end as int,
                unit: unit@,
                value: *value as nat,
            },
            Error::NumberOverflow => Failure::NumberOverflow,
            Error::Empty => Failure::Empty,
        }
    }
}

/// A text as `{:?}` writes it: in double quotes, with the characters escaped that
/// cannot stand in a string literal as they are.
pub uninterp spec fn debug_text(text: Seq<char>) -> Seq<char>;

/// `format!("{:?}", text)`: the `Debug` form of a `str` from the standard library.
///
/// Nothing is claimed of the form but that it depends on the text alone.
#[verifier::external_body]
fn debug_quoted(text: &str) -> (quoted: String)
    ensures
        quoted@ == debug_text(text@),
{
    format!("{:?}", text)
}

/// What an error says of itself.
pub open spec fn message(failure: Failure) -> Seq<char> {
    match failure {
        Failure::InvalidCharacter(at) => "invalid character at "@ + digits(at as nat),
        Failure::NumberExpected(at) => "expected number at "@ + digits(at as nat),
        Failure::UnknownUnit { unit, value, .. } => if unit.len() == 0 {
            "bandwidth unit needed, for example "@ + digits(value) + "Mbps or "@ + digits(value)
                + "bps"@
        } else {
            "unknown bandwidth unit "@ + debug_text(unit)
                + ", supported units: bps, kbps, Mbps, Gbps, Tbps"@
        },
        Failure::UnknownBinaryUnit { unit, value, .. } => if unit.len() == 0 {
            "binary bandwidth unit needed, for example "@ + digits(value) + "MiB/s or "@ + digits(
                value,
            ) + "B/s"@
        } else {
            "unknown binary bandwidth unit "@ + debug_text(unit)
                + ", supported units: B/s, kiB/s, MiB/s, GiB/s, TiB/s"@
        },
        Failure::NumberOverflow => "number is too large"@,
        Failure::Empty => "value was empty"@,
    }
}

/// `head`, then `value` in decimal.
fn with_number(head: &str, value: u64) -> (text: String)
    ensures
        text@ == head@ + digits(value as nat),
{
    let mut text = String::new();
    text.append(head);
    push_digits(&mut text, value);
    assert(text@ =~= head@ + digits(value as nat));
    text
}

/// A message that gives two examples of `value` with a unit.
fn unit_needed(head: &str, value: u64, between: &str, tail: &str) -> (text: String)
    ensures
        text@ == head@ + digits(value as nat) + between@ + digits(value as nat) + tail@,
{
    let mut text = with_number(head, value);
    text.append(between);
    push_digits(&mut text, value);
    text.append(tail);
    text
}

/// A message that names the `unit` which is not known.
fn unknown_unit(head: &str, unit: &String, tail: &str) -> (text: String)
    ensures
        text@ == head@ + debug_text(unit@) + tail@,
{
    let mut text = String::new();
    text.append(head);
    let quoted = debug_quoted(unit.as_str());
    text.append(quoted.as_str());
    text.append(tail);
    assert(text@ =~= head@ + debug_text(unit@) + tail@);
    text
}

/// `text`, owned.
fn owned(text: &str) -> (message: String)
    ensures
        message@ == text@,
{
    let mut message = String::new();
    message.append(text);
    assert(message@ =~= text@);
    message
}

impl Error {
    /// What the error says of itself.
    pub fn to_string(&self) -> (text: String)
        ensures
            text@ == message(self@),
    {
        match self {
            Error::InvalidCharacter(offset) => with_number("invalid character at ", *offset as u64),
            Error::NumberExpected(offset) => with_number("expected number at ", *offset as u64),
            Error::UnknownUnit { unit, value, .. } => if unit.as_str().is_empty() {
                unit_needed("bandwidth unit needed, for example ", *value, "Mbps or ", "bps")
            } else {
                unknown_unit(
                    "unknown bandwidth unit ",
                    unit,
                    ", supported units: bps, kbps, Mbps, Gbps, Tbps",
                )
            },
            Error::UnknownBinaryUnit { unit, value, .. } => if unit.as_str().is_empty() {
                unit_needed(
                    "binary bandwidth unit needed, for example ",
                    *value,
                    "MiB/s or ",
                    "B/s",
                )
            } else {
                unknown_unit(
                    "unknown binary bandwidth unit ",
                    unit,
                    ", supported units: B/s, kiB/s, MiB/s, GiB/s, TiB/s",
                )
            },
            Error::NumberOverflow => owned("number is too large"),
            Error::Empty => owned("value was empty"),
        }
    }
}

/// The failure of a codec: a text that stands for no rate.
#[derive(Debug, PartialEq, Clone)]
pub struct InvalidValue {
    /// The text as it was found.
    pub unexpected: String,
}

impl InvalidValue {
    /// What was expected in place of the text.
    pub fn expecting() -> (text: &'static str)
        ensures
            text@ == "a bandwidth"@,
    {
        "a bandwidth"
    }
}

} // verus!
