//! Formatting of rates in the decimal system.

use crate::grammar::System;
use crate::rate::Bandwidth;
use crate::render::{decimal_text, integer_text, places_of, write_buckets, write_decimal};
use vstd::prelude::*;
use vstd::string::*;

verus! {

/// A wrapper type that writes a [`Bandwidth`] out in the decimal system.
///
/// Its view is the rate in bits per second.
#[derive(Debug, Clone)]
pub struct FormattedBandwidth(Bandwidth);

impl View for FormattedBandwidth {
    type V = nat;

    closed spec fn view(&self) -> nat {
        self.0@
    }
}

/// Formats a bandwidth into a human-readable string.
///
/// The text that [`FormattedBandwidth::to_string`] gives stands for the same rate when it
/// is handed to [`parse_bandwidth`](crate::parse_bandwidth).
pub fn format_bandwidth(val: Bandwidth) -> (formatted: FormattedBandwidth)
    ensures
        formatted@ == val@,
{
    FormattedBandwidth(val)
}

impl FormattedBandwidth {
    /// Returns a reference to the [`Bandwidth`] that is being formatted.
    pub fn get_ref(&self) -> (rate: &Bandwidth)
        ensures
            rate@ == self@,
    {
        &self.0
    }

    /// The rate in whole numbers, largest unit first: `4Gbps 500Mbps`.
    pub fn fmt_integer(&self) -> (text: String)
        ensures
            text@ == integer_text(self@, System::Decimal),
    {
        let bits = self.0.as_bps();
        if bits == 0 {
            let mut text = String::new();
            text.append("0bps");
            assert(text@ =~= "0bps"@);
            return text;
        }
        write_buckets(bits, System::Decimal)
    }

    /// The rate as one decimal number in the largest unit of which it holds at least
    /// one: `4.5Gbps`. Without a precision every digit is written that is not a zero at
    /// the end; with one, the number is rounded to that many digits behind the point.
    pub fn fmt_decimal(&self, precision: Option<usize>) -> (text: String)
        ensures
            text@ == decimal_text(self@, System::Decimal, places_of(precision)),
    {
        let bits = self.0.as_bps();
        if bits == 0 {
            let mut text = String::new();
            text.append("0bps");
            assert(text@ =~= "0bps"@);
            return text;
        }
        write_decimal(bits, System::Decimal, precision)
    }

    /// The rate as text: in decimal form, with every digit that it takes.
    pub fn to_string(&self) -> (text: String)
        ensures
            text@ == decimal_text(self@, System::Decimal, None),
    {
        self.fmt_decimal(None)
    }
}

} // verus!
