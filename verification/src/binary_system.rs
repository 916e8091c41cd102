//! Rates in the binary prefix system: bytes per second with the prefixes ki, Mi, Gi and
//! Ti, each 1024 times the one before.

pub mod serde;

use crate::binary64::{scale_quotient, scaled_quotient};
use crate::decimal::{
    lemma_pow10_monotonic, lemma_pow10_positive, lemma_pow10_values, pow10, pow10_u64,
};
use crate::error::Error;
use crate::grammar::{binary_span, parse, span_bits, System, FRACTION_PART_LIMIT};
use crate::parser::{agrees, numeral_read, Parser};
use crate::rate::Bandwidth;
use crate::render::{decimal_text, integer_text, places_of, write_buckets, write_decimal};
use crate::units::{binary_unit, lemma_scales};
use vstd::prelude::*;
use vstd::string::*;

verus! {

/// A wrapper type that writes a [`Bandwidth`] out in the binary prefix system.
///
/// Its view is the rate in bits per second.
#[derive(Debug, Clone)]
pub struct FormattedBinaryBandwidth(Bandwidth);

impl View for FormattedBinaryBandwidth {
    type V = nat;

    closed spec fn view(&self) -> nat {
        self.0@
    }
}

/// The bytes that `fraction_cnt` digits `fraction` behind the point come to in a unit of
/// `factore` bytes: the fraction as a quotient of 53 significant bits, times the unit,
/// rounded to the nearest whole byte, a half upwards.
pub fn parse_binary_fraction(fraction: u64, fraction_cnt: u32, factore: u64) -> (bytes: u64)
    requires
        fraction_cnt <= FRACTION_PART_LIMIT,
        fraction < pow10(fraction_cnt as nat),
        factore <= 0x100_0000_0000,
    ensures
        bytes == scaled_quotient(fraction as nat, pow10(fraction_cnt as nat), factore as nat),
        bytes <= factore,
{
    proof {
        lemma_pow10_values();
        lemma_pow10_monotonic(fraction_cnt as nat, 12);
        lemma_pow10_positive(fraction_cnt as nat);
    }
    let den = pow10_u64(fraction_cnt);
    let bytes = scale_quotient(fraction as u128, den as u128, factore);
    bytes as u64
}

/// The span of `n`, with `fraction_cnt` digits `fraction` behind the point, in the binary
/// unit of `level`: its gigabits per second and the bits per second beyond them.
pub(crate) fn binary_parts(level: u8, n: u64, fraction: u64, fraction_cnt: u32) -> (parts: Option<
    (u64, u64),
>)
    requires
        level <= 4,
        fraction_cnt <= FRACTION_PART_LIMIT,
        fraction < pow10(fraction_cnt as nat),
    ensures
        match parts {
            Some((gbps, bps)) => binary_span(
                level as nat,
                numeral_read(n, fraction, fraction_cnt),
            ) == Some(gbps as nat * 1_000_000_000 + bps as nat),
            None => binary_span(
                level as nat,
                numeral_read(n, fraction, fraction_cnt),
            ) is None,
        },
{
    proof {
        lemma_scales();
    }
    let factore: u64 = if level == 0 {
        1
    } else if level == 1 {
        1024
    } else if level == 2 {
        1024 * 1024
    } else if level == 3 {
        1024 * 1024 * 1024
    } else {
        1024 * 1024 * 1024 * 1024
    };
    let part = parse_binary_fraction(fraction, fraction_cnt, factore);
    let wide = n as u128;
    let unit = factore as u128;
    proof {
        assert(wide * unit <= 0xffff_ffff_ffff_ffff * 0x100_0000_0000) by (nonlinear_arith)
            requires
                wide <= 0xffff_ffff_ffff_ffff,
                unit <= 0x100_0000_0000,
        ;
    }
    let bytes = wide * unit + part as u128;
    if bytes > 0x1fff_ffff_ffff_ffff {
        None
    } else {
        let bits = (8 * bytes) as u64;
        Some((bits / 1_000_000_000, bits % 1_000_000_000))
    }
}

impl<'a> Parser<'a> {
    /// Resolves the binary unit that stands from `start` up to `end` and adds the span of
    /// `n`, with `fraction_cnt` digits `fraction` behind the point, to the sum.
    pub(crate) fn parse_binary_unit(
        &mut self,
        n: u64,
        fraction: u64,
        fraction_cnt: u32,
        start: usize,
        end: usize,
    ) -> (added: Result<(), Error>)
        requires
            old(self).span_read(n, fraction, fraction_cnt, start, end),
        ensures
            final(self).span_added(
                old(self),
                span_bits(
                    System::Binary,
                    old(self).bytes@.subrange(start as int, end as int),
                    numeral_read(n, fraction, fraction_cnt),
                    start as int,
                    end as int,
                ),
                added,
            ),
    {
        let level = match binary_unit(self.bytes, start, end) {
            Some(level) => level,
            None => {
                return Err(self.unknown_unit(n, start, end, System::Binary));
            },
        };
        match binary_parts(level, n, fraction, fraction_cnt) {
            Some((gbps, bps)) => self.add_span(gbps, bps),
            None => Err(Error::NumberOverflow),
        }
    }

    /// Reads the whole text as a rate in the binary prefix system.
    pub(crate) fn parse_binary(self) -> (result: Result<Bandwidth, Error>)
        requires
            self.wf(),
            self.off == 0,
            self.current@ == 0,
        ensures
            agrees(result, parse(self.bytes@, System::Binary)),
    {
        self.scan(System::Binary)
    }
}

/// Parse a bandwidth such as `1GiBps 12MiBps 5Bps` or `1.012000005GiBps`.
///
/// Unlike [`parse_bandwidth`](crate::parse_bandwidth), this expects the rate to be
/// written in the binary prefix system.
///
/// The rate is a concatenation of spans, each of which is a number and a suffix.
/// Supported suffixes:
///
/// * `Bps`, `Byte/s`, `B/s`, `ops`, `o/s` -- byte per second
/// * `kiBps`, `kiByte/s`, `kiB/s`, `kiops`, `kio/s` -- kibibyte per second
/// * `MiBps`, `MiByte/s`, `MiB/s`, `Miops`, `Mio/s` -- mebibyte per second
/// * `GiBps`, `GiByte/s`, `GiB/s`, `Giops`, `Gio/s` -- gibibyte per second
/// * `TiBps`, `TiByte/s`, `TiB/s`, `Tiops`, `Tio/s` -- tebibyte per second
///
/// The number can be whole or decimal; what lies beyond a whole byte per second is
/// rounded to the closest byte, a half upwards.
pub fn parse_binary_bandwidth(s: &str) -> (result: Result<Bandwidth, Error>)
    ensures
        agrees(result, parse(s.spec_bytes(), System::Binary)),
{
    Parser::new(s).parse_binary()
}

/// Formats a bandwidth into a human-readable string in the binary prefix system.
///
/// The rate is written in bytes per second, rounded to the nearest byte, so the text need
/// not stand for the very same rate when it is handed to [`parse_binary_bandwidth`].
pub fn format_binary_bandwidth(val: Bandwidth) -> (formatted: FormattedBinaryBandwidth)
    ensures
        formatted@ == val@,
{
    FormattedBinaryBandwidth(val)
}

impl FormattedBinaryBandwidth {
    /// Returns a reference to the [`Bandwidth`] that is being formatted.
    pub fn get_ref(&self) -> (rate: &Bandwidth)
        ensures
            rate@ == self@,
    {
        &self.0
    }

    /// The rate in whole numbers, largest unit first: `4GiB/s 500MiB/s`.
    pub fn fmt_integer(&self) -> (text: String)
        ensures
            text@ == integer_text(self@, System::Binary),
    {
        let bits = self.0.as_bps();
        if bits == 0 {
            let mut text = String::new();
            text.append("0B/s");
            assert(text@ =~= "0B/s"@);
            return text;
        }
        write_buckets((bits + 4) / 8, System::Binary)
    }

    /// The rate as one decimal number in the largest unit of which it holds at least
    /// one: `4.5GiB/s`. Without a precision every digit is written that is not a zero at
    /// the end; with one, the number is rounded to that many digits behind the point.
    pub fn fmt_decimal(&self, precision: Option<usize>) -> (text: String)
        ensures
            text@ == decimal_text(self@, System::Binary, places_of(precision)),
    {
        let bits = self.0.as_bps();
        if bits == 0 {
            let mut text = String::new();
            text.append("0B/s");
            assert(text@ =~= "0B/s"@);
            return text;
        }
        write_decimal((bits + 4) / 8, System::Binary, precision)
    }

    /// The rate as text: in decimal form, with every digit that it takes.
    pub fn to_string(&self) -> (text: String)
        ensures
            text@ == decimal_text(self@, System::Binary, None),
    {
        self.fmt_decimal(None)
    }
}

} // verus!
