//! What a text means: the grammar of rates and the value or failure that it gives.
//!
//! ```text
//! input    := ws* span (ws+ span | span)* ws*
//! span     := mantissa ('.' fraction)? unit
//! mantissa := digit (digit | filler)*
//! fraction := (digit | filler)*
//! unit     := (letter | '/')+, one of the spellings of the system
//! ```
//!
//! White space is a filler inside a number, and so is `_` in the decimal system. A unit
//! ends at white space, at the end of the text, or at a digit, which starts the next span
//! at once. The text is read once from front to back and the first failure is the result.

use crate::binary64::scaled_quotient;
use crate::decimal::pow10;
use crate::error::Failure;
use crate::rate::capacity;
use crate::scanner::{
    digit_value, is_digit, is_unit_byte, whitespace_len, lemma_whitespace_len, POINT, UNDERSCORE,
};
use crate::units::{binary_level, decimal_level, pow1000, pow1024};
use vstd::prelude::*;

verus! {

/// The two systems of units.
#[derive(Clone, Copy, Debug, PartialEq, Eq, Structural)]
pub enum System {
    /// Bits per second with the prefixes k, M, G and T, each a thousand times the one before.
    Decimal,
    /// Bytes per second with the prefixes ki, Mi, Gi and Ti, each 1024 times the one before.
    Binary,
}

/// No more digits of a fraction than this are kept; the rest are passed over.
pub const FRACTION_PART_LIMIT: u32 = 12;

/// A number as far as it has been read.
pub struct Numeral {
    /// The digits before the point.
    pub whole: nat,
    /// The digits kept behind the point.
    pub fraction: nat,
    /// How many digits behind the point are kept.
    pub places: nat,
    /// Whether the point has been read.
    pub point: bool,
}

/// The number that starts with the digit of value `first`.
pub open spec fn numeral_of(first: nat) -> Numeral {
    Numeral { whole: first, fraction: 0, places: 0, point: false }
}

/// The ASCII bytes of a unit as text.
pub open spec fn ascii_text(bytes: Seq<u8>) -> Seq<char> {
    Seq::new(bytes.len(), |i: int| bytes[i] as char)
}

/// Where the search for the first digit of a number ends.
pub enum Seek {
    /// At a digit, at this offset.
    Digit(int),
    /// At the end of the text, with nothing but white space passed.
    End,
    /// At something that is neither a digit nor white space.
    Other,
}

/// Looks for the first digit of a number from `at` on, passing over white space.
pub open spec fn seek_digit(bytes: Seq<u8>, at: int) -> Seek
    decreases bytes.len() - at,
{
    if at < 0 || at >= bytes.len() {
        Seek::End
    } else if is_digit(bytes[at]) {
        Seek::Digit(at)
    } else if whitespace_len(bytes, at) > 0 {
        seek_digit(bytes, at + whitespace_len(bytes, at))
    } else {
        Seek::Other
    }
}

/// Where a number ends.
pub enum NumeralEnd {
    /// At the offset where its unit starts, or at the end of the text.
    Unit(Numeral, int),
    /// Its whole part does not fit in 64 bits.
    Overflow,
    /// At a byte that may not stand in a number, at this offset.
    Invalid(int),
}

/// Reads on in a number from `at`, where `so_far` has been read.
pub open spec fn scan_numeral(bytes: Seq<u8>, at: int, so_far: Numeral, system: System) -> NumeralEnd
    decreases bytes.len() - at,
{
    if at < 0 || at >= bytes.len() {
        NumeralEnd::Unit(so_far, bytes.len() as int)
    } else if is_digit(bytes[at]) {
        let digit = digit_value(bytes[at]);
        if !so_far.point {
            let whole = 10 * so_far.whole + digit;
            if whole > u64::MAX {
                NumeralEnd::Overflow
            } else {
                scan_numeral(bytes, at + 1, Numeral { whole, ..so_far }, system)
            }
        } else if so_far.places >= FRACTION_PART_LIMIT {
            scan_numeral(bytes, at + 1, so_far, system)
        } else {
            scan_numeral(
                bytes,
                at + 1,
                Numeral {
                    fraction: 10 * so_far.fraction + digit,
                    places: so_far.places + 1,
                    ..so_far
                },
                system,
            )
        }
    } else if whitespace_len(bytes, at) > 0 {
        scan_numeral(bytes, at + whitespace_len(bytes, at), so_far, system)
    } else if bytes[at] == UNDERSCORE && system == System::Decimal {
        scan_numeral(bytes, at + 1, so_far, system)
    } else if bytes[at] == POINT {
        if so_far.point {
            NumeralEnd::Invalid(at)
        } else {
            scan_numeral(bytes, at + 1, Numeral { point: true, ..so_far }, system)
        }
    } else if is_unit_byte(bytes[at]) {
        NumeralEnd::Unit(so_far, at)
    } else {
        NumeralEnd::Invalid(at)
    }
}

/// Where a unit ends.
pub enum UnitEnd {
    /// At a digit, which starts the next number.
    Digit(int),
    /// At white space.
    Space(int),
    /// At the end of the text.
    End(int),
    /// At a byte that may not stand in a unit.
    Invalid(int),
}

impl UnitEnd {
    /// The offset of the end.
    pub open spec fn at(self) -> int {
        match self {
            UnitEnd::Digit(at) => at,
            UnitEnd::Space(at) => at,
            UnitEnd::End(at) => at,
            UnitEnd::Invalid(at) => at,
        }
    }
}

/// Reads on in a unit from `at`.
pub open spec fn scan_unit(bytes: Seq<u8>, at: int) -> UnitEnd
    decreases bytes.len() - at,
{
    if at < 0 || at >= bytes.len() {
        UnitEnd::End(bytes.len() as int)
    } else if is_digit(bytes[at]) {
        UnitEnd::Digit(at)
    } else if whitespace_len(bytes, at) > 0 {
        UnitEnd::Space(at)
    } else if is_unit_byte(bytes[at]) {
        scan_unit(bytes, at + 1)
    } else {
        UnitEnd::Invalid(at)
    }
}

/// The first `wanted` digits behind the point as a whole number: zeros are added where
/// fewer are kept, and the digits beyond are cut off where more are.
pub open spec fn kept_fraction(fraction: nat, places: nat, wanted: nat) -> nat {
    if wanted >= places {
        fraction * pow10((wanted - places) as nat)
    } else {
        fraction / pow10((places - wanted) as nat)
    }
}

/// The bits per second of a number in the decimal unit of `level`, where they can be held.
///
/// What lies beyond a whole bit per second is cut off. A span in bits, kilobits or
/// megabits per second has to fit in 64 bits, one in a larger unit in a `Bandwidth`.
pub open spec fn decimal_span(level: nat, numeral: Numeral) -> Option<nat> {
    let bits = numeral.whole * pow1000(level) + kept_fraction(
        numeral.fraction,
        numeral.places,
        3 * level,
    );
    if bits >= capacity() || (level <= 2 && bits > u64::MAX) {
        None
    } else {
        Some(bits)
    }
}

/// The bits per second of a number in the binary unit of `level`, where they fit in 64 bits.
///
/// The fraction is turned into bytes through a quotient of 53 significant bits and
/// rounded to the nearest whole byte, a half upwards.
pub open spec fn binary_span(level: nat, numeral: Numeral) -> Option<nat> {
    let bytes = numeral.whole * pow1024(level) + scaled_quotient(
        numeral.fraction,
        pow10(numeral.places),
        pow1024(level),
    );
    if 8 * bytes > u64::MAX {
        None
    } else {
        Some(8 * bytes)
    }
}

/// The bits per second of the span whose unit is `token`, found from `start` up to `end`.
pub open spec fn span_bits(system: System, token: Seq<u8>, numeral: Numeral, start: int, end: int)
    -> Result<nat, Failure> {
    match system {
        System::Decimal => match decimal_level(token) {
            None => Err(
                Failure::UnknownUnit { start, end, unit: ascii_text(token), value: numeral.whole },
            ),
            Some(level) => match decimal_span(level, numeral) {
                None => Err(Failure::NumberOverflow),
                Some(bits) => Ok(bits),
            },
        },
        System::Binary => match binary_level(token) {
            None => Err(
                Failure::UnknownBinaryUnit {
                    start,
                    end,
                    unit: ascii_text(token),
                    value: numeral.whole,
                },
            ),
            Some(level) => match binary_span(level, numeral) {
                None => Err(Failure::NumberOverflow),
                Some(bits) => Ok(bits),
            },
        },
    }
}

pub proof fn lemma_seek_digit(bytes: Seq<u8>, at: int)
    requires
        0 <= at,
    ensures
        match seek_digit(bytes, at) {
            Seek::Digit(found) => at <= found < bytes.len() && is_digit(bytes[found]),
            _ => true,
        },
    decreases bytes.len() - at,
{
    lemma_whitespace_len(bytes, at);
    if at < bytes.len() && !is_digit(bytes[at]) && whitespace_len(bytes, at) > 0 {
        lemma_seek_digit(bytes, at + whitespace_len(bytes, at));
    }
}

pub proof fn lemma_scan_numeral(bytes: Seq<u8>, at: int, so_far: Numeral, system: System)
    requires
        0 <= at <= bytes.len(),
    ensures
        match scan_numeral(bytes, at, so_far, system) {
            NumeralEnd::Unit(_, start) => at <= start <= bytes.len() && (start < bytes.len()
                ==> is_unit_byte(bytes[start])),
            NumeralEnd::Invalid(bad) => at <= bad < bytes.len(),
            NumeralEnd::Overflow => true,
        },
    decreases bytes.len() - at,
{
    lemma_whitespace_len(bytes, at);
    if at < bytes.len() {
        if is_digit(bytes[at]) {
            let digit = digit_value(bytes[at]);
            if !so_far.point {
                let whole = 10 * so_far.whole + digit;
                if whole <= u64::MAX {
                    lemma_scan_numeral(bytes, at + 1, Numeral { whole, ..so_far }, system);
                }
            } else if so_far.places >= FRACTION_PART_LIMIT {
                lemma_scan_numeral(bytes, at + 1, so_far, system);
            } else {
                lemma_scan_numeral(
                    bytes,
                    at + 1,
                    Numeral {
                        fraction: 10 * so_far.fraction + digit,
                        places: so_far.places + 1,
                        ..so_far
                    },
                    system,
                );
            }
        } else if whitespace_len(bytes, at) > 0 {
            lemma_scan_numeral(bytes, at + whitespace_len(bytes, at), so_far, system);
        } else if bytes[at] == UNDERSCORE && system == System::Decimal {
            lemma_scan_numeral(bytes, at + 1, so_far, system);
        } else if bytes[at] == POINT {
            if !so_far.point {
                lemma_scan_numeral(bytes, at + 1, Numeral { point: true, ..so_far }, system);
            }
        }
    }
}

pub proof fn lemma_scan_unit(bytes: Seq<u8>, at: int)
    requires
        0 <= at <= bytes.len(),
    ensures
        at <= scan_unit(bytes, at).at() <= bytes.len(),
        forall|i: int| at <= i < scan_unit(bytes, at).at() ==> is_unit_byte(#[trigger] bytes[i]),
        match scan_unit(bytes, at) {
            UnitEnd::Digit(end) => end < bytes.len() && is_digit(bytes[end]),
            UnitEnd::Space(end) => end < bytes.len() && whitespace_len(bytes, end) > 0,
            UnitEnd::End(end) => end == bytes.len(),
            UnitEnd::Invalid(end) => end < bytes.len(),
        },
    decreases bytes.len() - at,
{
    if at < bytes.len() && !is_digit(bytes[at]) && whitespace_len(bytes, at) == 0 && is_unit_byte(
        bytes[at],
    ) {
        lemma_scan_unit(bytes, at + 1);
    }
}

/// What follows a span.
pub enum Following {
    /// Nothing but white space up to the end of the text.
    End,
    /// Another span: the value of its first digit, and the offset just behind that digit.
    Span { first: nat, at: int },
    /// Something that is neither a digit nor white space; the search began at this offset.
    NumberExpected(int),
}

/// One span as it is read.
pub enum Step {
    /// The span cannot be read.
    Fail(Failure),
    /// The span comes to `bits` bits per second.
    Span { bits: nat, after: Following },
}

/// What follows a unit that ends in `end`.
pub open spec fn following(bytes: Seq<u8>, end: UnitEnd) -> Following {
    match end {
        UnitEnd::Digit(next) => Following::Span { first: digit_value(bytes[next]), at: next + 1 },
        UnitEnd::Space(space) => {
            let from = space + whitespace_len(bytes, space);
            match seek_digit(bytes, from) {
                Seek::End => Following::End,
                Seek::Other => Following::NumberExpected(from),
                Seek::Digit(next) => Following::Span {
                    first: digit_value(bytes[next]),
                    at: next + 1,
                },
            }
        },
        _ => Following::End,
    }
}

/// Reads the span whose first digit, of value `first`, stands just before `at`: the rest
/// of its number, its unit, and what ends the unit.
pub open spec fn read_span(bytes: Seq<u8>, at: int, first: nat, system: System) -> Step {
    match scan_numeral(bytes, at, numeral_of(first), system) {
        NumeralEnd::Overflow => Step::Fail(Failure::NumberOverflow),
        NumeralEnd::Invalid(bad) => Step::Fail(Failure::InvalidCharacter(bad)),
        NumeralEnd::Unit(numeral, start) => {
            let end = scan_unit(bytes, start);
            if end is Invalid {
                Step::Fail(Failure::InvalidCharacter(end.at()))
            } else {
                match span_bits(system, bytes.subrange(start, end.at()), numeral, start, end.at()) {
                    Err(failure) => Step::Fail(failure),
                    Ok(bits) => Step::Span { bits, after: following(bytes, end) },
                }
            }
        },
    }
}

/// A span that follows another starts behind it.
pub proof fn lemma_read_span(bytes: Seq<u8>, at: int, first: nat, system: System)
    requires
        0 <= at <= bytes.len(),
    ensures
        match read_span(bytes, at, first, system) {
            Step::Span { after: Following::Span { at: next, first: digit }, .. } => at < next
                <= bytes.len() && digit < 10,
            _ => true,
        },
{
    lemma_scan_numeral(bytes, at, numeral_of(first), system);
    match scan_numeral(bytes, at, numeral_of(first), system) {
        NumeralEnd::Unit(numeral, start) => {
            lemma_scan_unit(bytes, start);
            let end = scan_unit(bytes, start);
            lemma_whitespace_len(bytes, end.at());
            lemma_seek_digit(bytes, end.at() + whitespace_len(bytes, end.at()));
        },
        _ => {},
    }
}

/// The sum of the spans from the one whose first digit, of value `first`, stands just
/// before `at`, added to the `total` of the spans before it. Each span is added as soon
/// as it has been read, and a sum that cannot be held is a failure.
pub open spec fn parse_spans(bytes: Seq<u8>, at: int, first: nat, total: nat, system: System)
    -> Result<nat, Failure>
    decreases bytes.len() - at,
    when 0 <= at <= bytes.len()
{
    match read_span(bytes, at, first, system) {
        Step::Fail(failure) => Err(failure),
        Step::Span { bits, after } => if total + bits >= capacity() {
            Err(Failure::NumberOverflow)
        } else {
            match after {
                Following::End => Ok(total + bits),
                Following::NumberExpected(from) => Err(Failure::NumberExpected(from)),
                Following::Span { first: digit, at: next } => {
                    proof {
                        lemma_read_span(bytes, at, first, system);
                    }
                    parse_spans(bytes, next, digit, total + bits, system)
                },
            }
        },
    }
}

/// The rate in bits per second that the text `bytes` stands for in `system`, or why it
/// stands for none.
pub open spec fn parse(bytes: Seq<u8>, system: System) -> Result<nat, Failure> {
    match seek_digit(bytes, 0) {
        Seek::End => Err(Failure::Empty),
        Seek::Other => Err(Failure::NumberExpected(0)),
        Seek::Digit(first) => parse_spans(bytes, first + 1, digit_value(bytes[first]), 0, system),
    }
}

} // verus!
