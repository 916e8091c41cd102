//! The parser: one pass over the text, span by span.

use crate::decimal::{
    lemma_pow10_add, lemma_pow10_monotonic, lemma_pow10_positive, lemma_pow10_values, pow10,
    pow10_u64,
};
use crate::error::{Error, Failure};
use crate::grammar::{
    ascii_text, decimal_span, following, kept_fraction, lemma_read_span, lemma_scan_numeral,
    lemma_scan_unit, lemma_seek_digit, numeral_of, parse, parse_spans, read_span, scan_numeral,
    scan_unit, seek_digit, span_bits, Following, Numeral, NumeralEnd, Seek, Step, System, UnitEnd,
    FRACTION_PART_LIMIT,
};
use crate::rate::{capacity, Bandwidth};
use crate::scanner::{
    digit_value, is_digit, is_unit_byte, lemma_whitespace_len, whitespace_at, whitespace_len,
    NINE, POINT, SLASH, UNDERSCORE, ZERO,
};
use crate::units::{decimal_unit, lemma_scales};
use vstd::prelude::*;
use vstd::string::StringSliceAdditionalSpecFns;
use vstd::utf8::{
    encode_utf8, encode_utf8_decode_utf8, encode_utf8_valid_utf8, is_ascii_chars,
    is_ascii_chars_encode_utf8, is_char_boundary_iff_not_is_continuation_byte,
    is_char_boundary_start_end_of_seq,
};

verus! {

/// The first `need_digit` digits behind the point as a whole number.
pub fn parse_fraction(fraction: u64, fraction_cnt: u32, need_digit: u32) -> (kept: u64)
    requires
        fraction_cnt <= FRACTION_PART_LIMIT,
        need_digit <= FRACTION_PART_LIMIT,
        fraction < pow10(fraction_cnt as nat),
    ensures
        kept == kept_fraction(fraction as nat, fraction_cnt as nat, need_digit as nat),
        kept < pow10(need_digit as nat),
{
    proof {
        lemma_pow10_values();
    }
    if need_digit >= fraction_cnt {
        let zeros = pow10_u64(need_digit - fraction_cnt);
        proof {
            lemma_pow10_add(fraction_cnt as nat, (need_digit - fraction_cnt) as nat);
            lemma_pow10_positive((need_digit - fraction_cnt) as nat);
            assert(fraction * zeros < pow10(fraction_cnt as nat) * zeros) by (nonlinear_arith)
                requires
                    fraction < pow10(fraction_cnt as nat),
                    zeros > 0,
            ;
            lemma_pow10_monotonic(need_digit as nat, 12);
        }
        fraction * zeros
    } else {
        let cut = pow10_u64(fraction_cnt - need_digit);
        proof {
            lemma_pow10_add(need_digit as nat, (fraction_cnt - need_digit) as nat);
            lemma_pow10_positive((fraction_cnt - need_digit) as nat);
            assert(fraction / cut < pow10(need_digit as nat)) by (nonlinear_arith)
                requires
                    fraction < pow10(need_digit as nat) * cut,
                    cut > 0,
            ;
        }
        fraction / cut
    }
}

/// The number of whole part `n` with `fraction_cnt` digits `fraction` kept behind the point.
pub open spec fn numeral_read(n: u64, fraction: u64, fraction_cnt: u32) -> Numeral {
    Numeral {
        whole: n as nat,
        fraction: fraction as nat,
        places: fraction_cnt as nat,
        point: fraction_cnt > 0,
    }
}

/// The span of `n`, with `fraction_cnt` digits `fraction` behind the point, in the decimal
/// unit of `level`: its gigabits per second and the bits per second beyond them.
pub(crate) fn decimal_parts(level: u8, n: u64, fraction: u64, fraction_cnt: u32) -> (parts: Option<
    (u64, u64),
>)
    requires
        level <= 4,
        fraction_cnt <= FRACTION_PART_LIMIT,
        fraction < pow10(fraction_cnt as nat),
    ensures
        match parts {
            Some((gbps, bps)) => decimal_span(
                level as nat,
                numeral_read(n, fraction, fraction_cnt),
            ) == Some(gbps as nat * 1_000_000_000 + bps as nat),
            None => decimal_span(
                level as nat,
                numeral_read(n, fraction, fraction_cnt),
            ) is None,
        },
{
    proof {
        lemma_scales();
        lemma_pow10_values();
    }
    let kept = parse_fraction(fraction, fraction_cnt, 3 * level as u32);
    if level == 0 {
        Some((0, n))
    } else if level == 1 || level == 2 {
        let scale: u64 = if level == 1 {
            1_000
        } else {
            1_000_000
        };
        match n.checked_mul(scale) {
            Some(whole) => match whole.checked_add(kept) {
                Some(bps) => Some((0, bps)),
                None => None,
            },
            None => None,
        }
    } else if level == 3 {
        Some((n, kept))
    } else {
        match n.checked_mul(1_000) {
            Some(whole) => match whole.checked_add(kept / 1_000_000_000) {
                Some(gbps) => Some((gbps, kept % 1_000_000_000)),
                None => None,
            },
            None => None,
        }
    }
}

/// The text of the unit that stands from `start` up to `end`.
fn unit_text(text: &str, start: usize, end: usize) -> (unit: String)
    requires
        start <= end <= text.spec_bytes().len(),
        forall|i: int| start <= i < end ==> is_unit_byte(#[trigger] text.spec_bytes()[i]),
        end < text.spec_bytes().len() ==> !(0x80 <= text.spec_bytes()[end as int] <= 0xbf),
    ensures
        unit@ == ascii_text(text.spec_bytes().subrange(start as int, end as int)),
{
    let ghost bytes = text.spec_bytes();
    proof {
        encode_utf8_valid_utf8(text@);
        is_char_boundary_start_end_of_seq(bytes);
        if end < bytes.len() {
            is_char_boundary_iff_not_is_continuation_byte(bytes, end as int);
        }
    }
    let (head, _) = text.split_at(end);
    proof {
        encode_utf8_valid_utf8(head@);
        is_char_boundary_start_end_of_seq(head.spec_bytes());
        if start < end {
            assert(head.spec_bytes()[start as int] == bytes[start as int]);
            is_char_boundary_iff_not_is_continuation_byte(head.spec_bytes(), start as int);
        }
    }
    let (_, token) = head.split_at(start);
    proof {
        let found = bytes.subrange(start as int, end as int);
        assert(token.spec_bytes() =~= found);
        let chars = ascii_text(found);
        assert(is_ascii_chars(chars)) by {
            assert forall|i: int| 0 <= i < chars.len() implies '\0' <= #[trigger] chars[i]
                <= '\u{7f}' by {
                assert(is_unit_byte(bytes[start + i]));
            }
        }
        is_ascii_chars_encode_utf8(chars);
        assert(encode_utf8(chars) =~= found) by {
            assert forall|i: int| 0 <= i < found.len() implies encode_utf8(chars)[i] == found[i] by {
                assert(is_unit_byte(bytes[start + i]));
                assert(chars[i] as u8 == found[i]);
            }
        }
        encode_utf8_decode_utf8(chars);
        encode_utf8_decode_utf8(token@);
    }
    token.to_owned()
}

/// The `result` of parsing is what the grammar says the text `meant`.
pub open spec fn agrees(result: Result<Bandwidth, Error>, meant: Result<nat, Failure>) -> bool {
    match result {
        Ok(rate) => meant == Ok::<nat, Failure>(rate@),
        Err(error) => meant == Err::<nat, Failure>(error@),
    }
}

/// How a unit was found to end.
pub(crate) enum Stop {
    /// At a digit of this value, which has been read.
    Digit(u64),
    /// At white space, which has been read.
    Space,
    /// At the end of the text.
    End,
}

/// The state of one pass over a text.
pub(crate) struct Parser<'a> {
    /// The text.
    pub(crate) src: &'a str,
    /// Its bytes.
    pub(crate) bytes: &'a [u8],
    /// The offset of the byte that is read next.
    pub(crate) off: usize,
    /// The sum of the spans read so far.
    pub(crate) current: Bandwidth,
}

impl<'a> Parser<'a> {
    /// The bytes are those of the text and the offset lies within them.
    pub(crate) open spec fn wf(&self) -> bool {
        &&& self.bytes@ == self.src.spec_bytes()
        &&& self.off <= self.bytes@.len()
    }

    /// Nothing but the offset differs from `before`.
    pub(crate) open spec fn moved_from(&self, before: &Parser<'a>) -> bool {
        &&& self.wf()
        &&& self.src == before.src
        &&& self.bytes == before.bytes
        &&& self.current == before.current
    }

    pub(crate) fn new(s: &'a str) -> (parser: Parser<'a>)
        ensures
            parser.wf(),
            parser.src == s,
            parser.off == 0,
            parser.current@ == 0,
    {
        Parser { src: s, bytes: s.as_bytes(), off: 0, current: Bandwidth::new(0, 0) }
    }

    /// The offset of the byte that is read next.
    pub(crate) fn off(&self) -> (off: usize)
        ensures
            off == self.off,
    {
        self.off
    }

    /// Reads up to the first digit of a number and hands its value out, or `None` at the
    /// end of the text.
    pub(crate) fn parse_first_char(&mut self) -> (first: Result<Option<u64>, Error>)
        requires
            old(self).wf(),
        ensures
            final(self).moved_from(old(self)),
            match seek_digit(old(self).bytes@, old(self).off as int) {
                Seek::Digit(at) => first == Ok::<Option<u64>, Error>(
                    Some(digit_value(old(self).bytes@[at]) as u64),
                ) && final(self).off == at + 1,
                Seek::End => first == Ok::<Option<u64>, Error>(None),
                Seek::Other => first == Err::<Option<u64>, Error>(
                    Error::NumberExpected(old(self).off),
                ),
            },
    {
        let from = self.off;
        while self.off < self.bytes.len()
            invariant
                self.moved_from(old(self)),
                from == old(self).off,
                from <= self.off,
                seek_digit(self.bytes@, from as int) == seek_digit(self.bytes@, self.off as int),
            decreases self.bytes@.len() - self.off,
        {
            let byte = self.bytes[self.off];
            if ZERO <= byte && byte <= NINE {
                self.off = self.off + 1;
                return Ok(Some((byte - ZERO) as u64));
            }
            let passed = whitespace_at(self.bytes, self.off);
            if passed == 0 {
                return Err(Error::NumberExpected(from));
            }
            self.off = self.off + passed;
        }
        Ok(None)
    }

    /// Reads the rest of the number that starts with the digit of value `first`, up to
    /// its unit, and hands out its whole part, the digits kept behind the point, and how
    /// many those are.
    pub(crate) fn parse_number(&mut self, first: u64, system: System) -> (number: Result<
        (u64, u64, u32),
        Error,
    >)
        requires
            old(self).wf(),
            first < 10,
        ensures
            final(self).moved_from(old(self)),
            match scan_numeral(old(self).bytes@, old(self).off as int, numeral_of(first as nat), system) {
                NumeralEnd::Unit(numeral, start) => number == Ok::<(u64, u64, u32), Error>(
                    (numeral.whole as u64, numeral.fraction as u64, numeral.places as u32),
                ) && final(self).off == start && numeral.whole <= u64::MAX && numeral.places
                    <= FRACTION_PART_LIMIT && numeral.fraction < pow10(numeral.places)
                    && numeral.fraction <= u64::MAX,
                NumeralEnd::Overflow => number == Err::<(u64, u64, u32), Error>(
                    Error::NumberOverflow,
                ),
                NumeralEnd::Invalid(at) => number == Err::<(u64, u64, u32), Error>(
                    Error::InvalidCharacter(at as usize),
                ) && at <= usize::MAX,
            },
    {
        let mut n: u64 = first;
        let mut fraction: u64 = 0;
        let mut fraction_cnt: u32 = 0;
        let mut decimal = false;
        proof {
            lemma_pow10_values();
        }
        while self.off < self.bytes.len()
            invariant
                self.moved_from(old(self)),
                fraction_cnt <= FRACTION_PART_LIMIT,
                fraction < pow10(fraction_cnt as nat),
                scan_numeral(
                    self.bytes@,
                    old(self).off as int,
                    numeral_of(first as nat),
                    system,
                ) == scan_numeral(
                    self.bytes@,
                    self.off as int,
                    Numeral {
                        whole: n as nat,
                        fraction: fraction as nat,
                        places: fraction_cnt as nat,
                        point: decimal,
                    },
                    system,
                ),
            decreases self.bytes@.len() - self.off,
        {
            let byte = self.bytes[self.off];
            let passed = whitespace_at(self.bytes, self.off);
            proof {
                lemma_whitespace_len(self.bytes@, self.off as int);
            }
            if ZERO <= byte && byte <= NINE {
                let digit = (byte - ZERO) as u64;
                if decimal {
                    if fraction_cnt < FRACTION_PART_LIMIT {
                        proof {
                            lemma_pow10_monotonic(fraction_cnt as nat, 11);
                            lemma_pow10_values();
                        }
                        fraction = 10 * fraction + digit;
                        fraction_cnt = fraction_cnt + 1;
                    }
                } else {
                    if n > (u64::MAX - digit) / 10 {
                        return Err(Error::NumberOverflow);
                    }
                    n = 10 * n + digit;
                }
                self.off = self.off + 1;
            } else if passed > 0 {
                self.off = self.off + passed;
            } else if byte == UNDERSCORE && system == System::Decimal {
                self.off = self.off + 1;
            } else if byte == POINT {
                if decimal {
                    return Err(Error::InvalidCharacter(self.off));
                }
                decimal = true;
                self.off = self.off + 1;
            } else if (0x61 <= byte && byte <= 0x7a) || (0x41 <= byte && byte <= 0x5a) || byte
                == SLASH {
                return Ok((n, fraction, fraction_cnt));
            } else {
                return Err(Error::InvalidCharacter(self.off));
            }
        }
        Ok((n, fraction, fraction_cnt))
    }

    /// Reads the unit that starts at the offset, and what ends it. Hands out where it
    /// ends and how.
    pub(crate) fn parse_unit_end(&mut self) -> (end: Result<(usize, Stop), Error>)
        requires
            old(self).wf(),
        ensures
            final(self).moved_from(old(self)),
            0 <= scan_unit(old(self).bytes@, old(self).off as int).at() <= usize::MAX,
            match scan_unit(old(self).bytes@, old(self).off as int) {
                UnitEnd::Digit(at) => end == Ok::<(usize, Stop), Error>(
                    (at as usize, Stop::Digit(digit_value(old(self).bytes@[at]) as u64)),
                ) && final(self).off == at + 1,
                UnitEnd::Space(at) => end == Ok::<(usize, Stop), Error>((at as usize, Stop::Space))
                    && final(self).off == at + whitespace_len(old(self).bytes@, at),
                UnitEnd::End(at) => end == Ok::<(usize, Stop), Error>((at as usize, Stop::End))
                    && final(self).off == at,
                UnitEnd::Invalid(at) => end == Err::<(usize, Stop), Error>(
                    Error::InvalidCharacter(at as usize),
                ),
            },
    {
        proof {
            lemma_scan_unit(self.bytes@, self.off as int);
        }
        while self.off < self.bytes.len()
            invariant
                self.moved_from(old(self)),
                old(self).off <= self.off,
                scan_unit(self.bytes@, old(self).off as int) == scan_unit(
                    self.bytes@,
                    self.off as int,
                ),
            decreases self.bytes@.len() - self.off,
        {
            let byte = self.bytes[self.off];
            let passed = whitespace_at(self.bytes, self.off);
            if ZERO <= byte && byte <= NINE {
                let at = self.off;
                self.off = self.off + 1;
                return Ok((at, Stop::Digit((byte - ZERO) as u64)));
            } else if passed > 0 {
                let at = self.off;
                self.off = self.off + passed;
                return Ok((at, Stop::Space));
            } else if (0x61 <= byte && byte <= 0x7a) || (0x41 <= byte && byte <= 0x5a) || byte
                == SLASH {
                self.off = self.off + 1;
            } else {
                return Err(Error::InvalidCharacter(self.off));
            }
        }
        Ok((self.off, Stop::End))
    }

    /// What holds of a span once its number and the end of its unit have been read.
    pub(crate) open spec fn span_read(
        &self,
        n: u64,
        fraction: u64,
        fraction_cnt: u32,
        start: usize,
        end: usize,
    ) -> bool {
        &&& self.wf()
        &&& start <= end <= self.bytes@.len()
        &&& forall|i: int| start <= i < end ==> is_unit_byte(#[trigger] self.bytes@[i])
        &&& end < self.bytes@.len() ==> is_digit(self.bytes@[end as int]) || whitespace_len(
            self.bytes@,
            end as int,
        ) > 0
        &&& fraction_cnt <= FRACTION_PART_LIMIT
        &&& fraction < pow10(fraction_cnt as nat)
    }

    /// What a span leaves behind: its bits per second added to the sum, or the failure.
    pub(crate) open spec fn span_added(
        &self,
        before: &Parser<'a>,
        bits: Result<nat, Failure>,
        added: Result<(), Error>,
    ) -> bool {
        &&& self.wf()
        &&& self.src == before.src
        &&& self.bytes == before.bytes
        &&& self.off == before.off
        &&& match bits {
            Err(failure) => match added {
                Err(error) => error@ == failure,
                Ok(_) => false,
            },
            Ok(bits) => if before.current@ + bits >= capacity() {
                added == Err::<(), Error>(Error::NumberOverflow)
            } else {
                added is Ok && self.current@ == before.current@ + bits
            },
        }
    }

    /// The failure for a unit that is not known: the text from `start` up to `end`.
    pub(crate) fn unknown_unit(&self, n: u64, start: usize, end: usize, system: System) -> (error: Error)
        requires
            self.span_read(n, 0, 0, start, end),
        ensures
            error@ == match system {
                System::Decimal => Failure::UnknownUnit {
                    start: start as int,
                    end: end as int,
                    unit: ascii_text(self.bytes@.subrange(start as int, end as int)),
                    value: n as nat,
                },
                System::Binary => Failure::UnknownBinaryUnit {
                    start: start as int,
                    end: end as int,
                    unit: ascii_text(self.bytes@.subrange(start as int, end as int)),
                    value: n as nat,
                },
            },
    {
        proof {
            if end < self.bytes@.len() {
                lemma_whitespace_len(self.bytes@, end as int);
            }
        }
        let unit = unit_text(self.src, start, end);
        match system {
            System::Decimal => Error::UnknownUnit { start, end, unit, value: n },
            System::Binary => Error::UnknownBinaryUnit { start, end, unit, value: n },
        }
    }

    /// Adds `gbps` gigabits and `bps` bits per second to the sum.
    pub(crate) fn add_span(&mut self, gbps: u64, bps: u64) -> (added: Result<(), Error>)
        requires
            old(self).wf(),
            gbps * 1_000_000_000 + bps < capacity(),
        ensures
            final(self).span_added(old(self), Ok(gbps as nat * 1_000_000_000 + bps as nat), added),
    {
        let whole = gbps + bps / 1_000_000_000;
        let rest = (bps % 1_000_000_000) as u32;
        let new_bandwidth = Bandwidth::new(whole, rest);
        match self.current.checked_add(new_bandwidth) {
            Some(sum) => {
                self.current = sum;
                Ok(())
            },
            None => Err(Error::NumberOverflow),
        }
    }

    /// Resolves the decimal unit that stands from `start` up to `end` and adds the span
    /// of `n`, with `fraction_cnt` digits `fraction` behind the point, to the sum.
    pub(crate) fn parse_unit(
        &mut self,
        n: u64,
        fraction: u64,
        fraction_cnt: u32,
        start: usize,
        end: usize,
    ) -> (added: Result<(), Error>)
        requires
            old(self).span_read(n, fraction, fraction_cnt, start, end),
        ensures
            final(self).span_added(
                old(self),
                span_bits(
                    System::Decimal,
                    old(self).bytes@.subrange(start as int, end as int),
                    numeral_read(n, fraction, fraction_cnt),
                    start as int,
                    end as int,
                ),
                added,
            ),
    {
        let level = match decimal_unit(self.bytes, start, end) {
            Some(level) => level,
            None => {
                return Err(self.unknown_unit(n, start, end, System::Decimal));
            },
        };
        match decimal_parts(level, n, fraction, fraction_cnt) {
            Some((gbps, bps)) => self.add_span(gbps, bps),
            None => Err(Error::NumberOverflow),
        }
    }

    /// Reads the span whose first digit, of value `n`, has just been read, adds it to the
    /// sum, and reads up to the first digit of the span that follows. Hands that digit
    /// out, or `None` where the text ends.
    pub(crate) fn parse_span(&mut self, n: u64, system: System) -> (next: Result<
        Option<u64>,
        Error,
    >)
        requires
            old(self).wf(),
            n < 10,
        ensures
            final(self).wf(),
            final(self).src == old(self).src,
            final(self).bytes == old(self).bytes,
            match read_span(old(self).bytes@, old(self).off as int, n as nat, system) {
                Step::Fail(failure) => match next {
                    Err(error) => error@ == failure,
                    Ok(_) => false,
                },
                Step::Span { bits, after } => if old(self).current@ + bits >= capacity() {
                    next == Err::<Option<u64>, Error>(Error::NumberOverflow)
                } else {
                    match after {
                        Following::End => next == Ok::<Option<u64>, Error>(None)
                            && final(self).current@ == old(self).current@ + bits,
                        Following::NumberExpected(from) => next == Err::<Option<u64>, Error>(
                            Error::NumberExpected(from as usize),
                        ) && 0 <= from <= usize::MAX,
                        Following::Span { first, at } => next == Ok::<Option<u64>, Error>(
                            Some(first as u64),
                        ) && first < 10 && final(self).off == at && final(self).current@ == old(
                            self,
                        ).current@ + bits,
                    }
                },
            },
    {
        let ghost bytes = self.bytes@;
        let ghost from = self.off as int;
        let ghost total = self.current@;
        let ghost scanned = scan_numeral(bytes, from, numeral_of(n as nat), system);
        let ghost step = read_span(bytes, from, n as nat, system);
        proof {
            lemma_scan_numeral(bytes, from, numeral_of(n as nat), system);
        }
        let (whole, fraction, fraction_cnt) = match self.parse_number(n, system) {
            Ok(number) => number,
            Err(error) => {
                assert(step == Step::Fail(error@));
                return Err(error);
            },
        };
        let start = self.off();
        let ghost numeral = scanned->Unit_0;
        let ghost ended = scan_unit(bytes, start as int);
        proof {
            lemma_scan_unit(bytes, start as int);
        }
        let (end, stop) = match self.parse_unit_end() {
            Ok(end) => end,
            Err(error) => {
                assert(step == Step::Fail(error@));
                return Err(error);
            },
        };
        let ghost token = bytes.subrange(start as int, end as int);
        let ghost bits = span_bits(system, token, numeral, start as int, end as int);
        proof {
            assert(bits == span_bits(
                system,
                token,
                numeral_read(whole, fraction, fraction_cnt),
                start as int,
                end as int,
            ));
            assert(step == match bits {
                Err(failure) => Step::Fail(failure),
                Ok(bits) => Step::Span { bits, after: following(bytes, ended) },
            });
        }
        let added = match system {
            System::Decimal => self.parse_unit(whole, fraction, fraction_cnt, start, end),
            System::Binary => self.parse_binary_unit(whole, fraction, fraction_cnt, start, end),
        };
        match added {
            Ok(_) => {},
            Err(error) => {
                return Err(error);
            },
        }
        proof {
            lemma_whitespace_len(bytes, end as int);
            lemma_seek_digit(bytes, end + whitespace_len(bytes, end as int));
            assert(self.current@ == total + bits->Ok_0);
        }
        match stop {
            Stop::Digit(next) => {
                assert(following(bytes, ended) == Following::Span {
                    first: next as nat,
                    at: self.off as int,
                });
                Ok(Some(next))
            },
            Stop::End => {
                assert(following(bytes, ended) == Following::End);
                Ok(None)
            },
            Stop::Space => {
                let ghost sought = seek_digit(bytes, self.off as int);
                let ghost here = self.off as int;
                let next = self.parse_first_char();
                proof {
                    assert(following(bytes, ended) == match sought {
                        Seek::End => Following::End,
                        Seek::Other => Following::NumberExpected(here),
                        Seek::Digit(next) => Following::Span {
                            first: digit_value(bytes[next]),
                            at: next + 1,
                        },
                    });
                }
                next
            },
        }
    }

    /// Reads the whole text as a rate in `system`, span after span.
    pub(crate) fn scan(self, system: System) -> (result: Result<Bandwidth, Error>)
        requires
            self.wf(),
            self.off == 0,
            self.current@ == 0,
        ensures
            agrees(result, parse(self.bytes@, system)),
    {
        let mut state = self;
        let ghost bytes = state.bytes@;
        let mut n = match state.parse_first_char() {
            Err(error) => {
                return Err(error);
            },
            Ok(None) => {
                return Err(Error::Empty);
            },
            Ok(Some(first)) => first,
        };
        proof {
            lemma_seek_digit(bytes, 0);
        }
        loop
            invariant
                state.wf(),
                state.bytes@ == bytes,
                self.bytes@ == bytes,
                n < 10,
                parse(bytes, system) == parse_spans(
                    bytes,
                    state.off as int,
                    n as nat,
                    state.current@,
                    system,
                ),
            decreases bytes.len() - state.off,
        {
            proof {
                lemma_read_span(bytes, state.off as int, n as nat, system);
            }
            let ghost step = read_span(bytes, state.off as int, n as nat, system);
            let ghost total = state.current@;
            assert(parse_spans(bytes, state.off as int, n as nat, total, system) == match step {
                Step::Fail(failure) => Err::<nat, Failure>(failure),
                Step::Span { bits, after } => if total + bits >= capacity() {
                    Err(Failure::NumberOverflow)
                } else {
                    match after {
                        Following::End => Ok(total + bits),
                        Following::NumberExpected(from) => Err(Failure::NumberExpected(from)),
                        Following::Span { first: digit, at: next } => parse_spans(
                            bytes,
                            next,
                            digit,
                            total + bits,
                            system,
                        ),
                    }
                },
            });
            match state.parse_span(n, system) {
                Err(error) => {
                    return Err(error);
                },
                Ok(None) => {
                    return Ok(state.current);
                },
                Ok(Some(next)) => {
                    n = next;
                },
            }
        }
    }

    /// Reads the whole text as a rate in the decimal system.
    pub(crate) fn parse(self) -> (result: Result<Bandwidth, Error>)
        requires
            self.wf(),
            self.off == 0,
            self.current@ == 0,
        ensures
            agrees(result, parse(self.bytes@, System::Decimal)),
    {
        self.scan(System::Decimal)
    }
}

/// Parse a bandwidth such as `1Gbps 12Mbps 5bps` or `1.012000005Gbps`.
///
/// The rate is a concatenation of spans, each of which is a number and a suffix.
/// Supported suffixes:
///
/// * `bps`, `bit/s`, `b/s` -- bit per second
/// * `kbps`, `kbit/s`, `kb/s` -- kilobit per second
/// * `Mbps`, `Mbit/s`, `Mb/s` -- megabit per second
/// * `Gbps`, `Gbit/s`, `Gb/s` -- gigabit per second
/// * `Tbps`, `Tbit/s`, `Tb/s` -- terabit per second
///
/// The number can be whole or decimal; what lies beyond a whole bit per second is
/// always dropped.
pub fn parse_bandwidth(s: &str) -> (result: Result<Bandwidth, Error>)
    ensures
        agrees(result, parse(s.spec_bytes(), System::Decimal)),
{
    Parser::new(s).parse()
}

} // verus!
