//! A rate that has been written in whole numbers, read again: what the scanner and the
//! tables make of the digits, the names and the spaces of such a text.

use crate::binary64::{binary64_quotient, scaled_quotient};
use crate::decimal::{
    digit_char, digit_count, digits, drop_digits, fixed_digits, lemma_drop_digits, lemma_pow10_add,
    lemma_pow10_positive, lemma_pow10_values, pow10, trimmed_digits,
};
use crate::error::Failure;
use crate::grammar::{
    following, kept_fraction, lemma_read_span, numeral_of, parse, parse_spans, read_span,
    scan_numeral, scan_unit, seek_digit, span_bits, Following, Numeral, NumeralEnd, Seek, Step,
    System, UnitEnd, FRACTION_PART_LIMIT,
};
use crate::rate::capacity;
use crate::render::{
    amount, base, bucket, buckets_text, decimal_text, display_level, fraction_of, integer_text,
    item_text, unit_name, unit_scale, zero_text,
};
use crate::scanner::{digit_value, is_digit, is_unit_byte, lemma_whitespace_len, whitespace_len};
use crate::spellings::{ascii_bytes, lemma_name_is_read};
use crate::units::{lemma_scales, pow1000, pow1024};
use vstd::arithmetic::div_mod::lemma_div_denominator;
use vstd::prelude::*;
use vstd::utf8::is_ascii_chars;

verus! {

pub proof fn lemma_fixed_digits_len(n: nat, width: nat)
    ensures
        fixed_digits(n, width).len() == width,
    decreases width,
{
    if width > 0 {
        lemma_fixed_digits_len(n / 10, (width - 1) as nat);
    }
}

proof fn lemma_drop_shift(n: nat, k: nat)
    ensures
        drop_digits(n / 10, k) == drop_digits(n, k + 1),
    decreases k,
{
    if k > 0 {
        lemma_drop_shift(n, (k - 1) as nat);
    }
    assert(drop_digits(n, 1) == drop_digits(n, 0) / 10);
}

proof fn lemma_drop_bound(n: nat, k: nat)
    ensures
        drop_digits(n, k) <= n,
    decreases k,
{
    if k > 0 {
        lemma_drop_bound(n, (k - 1) as nat);
    }
}

/// The digit at place `i` of a number written with `width` digits.
proof fn lemma_fixed_digit_at(n: nat, width: nat, i: int)
    requires
        0 <= i < width,
    ensures
        fixed_digits(n, width).len() == width,
        fixed_digits(n, width)[i] == digit_char(drop_digits(n, (width - 1 - i) as nat) % 10),
    decreases width,
{
    lemma_fixed_digits_len(n, width);
    lemma_fixed_digits_len(n / 10, (width - 1) as nat);
    if i < width - 1 {
        lemma_fixed_digit_at(n / 10, (width - 1) as nat, i);
        lemma_drop_shift(n, (width - 2 - i) as nat);
    }
}

/// A number starts with one digit, which is not zero unless the number is.
proof fn lemma_leading_digit(n: nat)
    ensures
        drop_digits(n, (digit_count(n) - 1) as nat) <= 9,
        n > 0 ==> 1 <= drop_digits(n, (digit_count(n) - 1) as nat),
    decreases n,
{
    if n >= 10 {
        lemma_leading_digit(n / 10);
        lemma_drop_shift(n, (digit_count(n / 10) - 1) as nat);
    }
}

/// The whole number `whole` and nothing behind the point.
pub open spec fn whole_numeral(whole: nat) -> Numeral {
    Numeral { whole, fraction: 0, places: 0, point: false }
}

/// Reading the digits of a number written out in decimal gives the number.
proof fn lemma_scan_whole_digits(bytes: Seq<u8>, from: int, n: nat, read: nat, system: System)
    requires
        0 <= from,
        n <= u64::MAX,
        1 <= read <= digit_count(n),
        from + digit_count(n) <= bytes.len(),
        forall|i: int|
            0 <= i < digit_count(n) ==> bytes[from + i] == (#[trigger] digits(n)[i]) as u8,
    ensures
        scan_numeral(
            bytes,
            from + read,
            whole_numeral(drop_digits(n, (digit_count(n) - read) as nat)),
            system,
        ) == scan_numeral(bytes, from + digit_count(n), whole_numeral(n), system),
    decreases digit_count(n) - read,
{
    let count = digit_count(n);
    let at = from + read;
    let so_far = whole_numeral(drop_digits(n, (count - read) as nat));
    if read < count {
        let below = (count - read - 1) as nat;
        lemma_fixed_digit_at(n, count, read as int);
        assert(bytes[at] == digits(n)[read as int] as u8);
        let digit = drop_digits(n, below) % 10;
        assert(bytes[at] == 48 + digit);
        assert(drop_digits(n, (below + 1) as nat) == drop_digits(n, below) / 10);
        lemma_drop_bound(n, below);
        assert(10 * so_far.whole + digit_value(bytes[at]) == drop_digits(n, below));
        lemma_scan_whole_digits(bytes, from, n, read + 1, system);
        assert(scan_numeral(bytes, at, so_far, system) == scan_numeral(
            bytes,
            at + 1,
            Numeral { whole: drop_digits(n, below), ..so_far },
            system,
        ));
    } else {
        assert(drop_digits(n, 0) == n);
    }
}

/// Reading a number that is written out in decimal before its unit gives the number.
proof fn lemma_scan_digits(bytes: Seq<u8>, from: int, n: nat, read: nat, system: System)
    requires
        0 <= from,
        n <= u64::MAX,
        1 <= read <= digit_count(n),
        from + digit_count(n) < bytes.len(),
        forall|i: int|
            0 <= i < digit_count(n) ==> bytes[from + i] == (#[trigger] digits(n)[i]) as u8,
        is_unit_byte(bytes[from + digit_count(n)]),
    ensures
        scan_numeral(
            bytes,
            from + read,
            whole_numeral(drop_digits(n, (digit_count(n) - read) as nat)),
            system,
        ) == NumeralEnd::Unit(whole_numeral(n), from + digit_count(n)),
{
    lemma_scan_whole_digits(bytes, from, n, read, system);
    lemma_whitespace_len(bytes, from + digit_count(n));
}

/// The number `whole` with `places` digits `fraction` behind the point.
pub open spec fn pointed_numeral(whole: nat, fraction: nat, places: nat) -> Numeral {
    Numeral { whole, fraction, places, point: true }
}

/// Reading digits behind the point gives the digits.
proof fn lemma_scan_fraction_digits(
    bytes: Seq<u8>,
    from: int,
    whole: nat,
    fraction: nat,
    width: nat,
    read: nat,
    system: System,
)
    requires
        0 <= from,
        read <= width <= FRACTION_PART_LIMIT,
        from + width <= bytes.len(),
        forall|i: int|
            0 <= i < width ==> bytes[from + i] == (#[trigger] fixed_digits(fraction, width)[i])
                as u8,
    ensures
        scan_numeral(
            bytes,
            from + read,
            pointed_numeral(whole, drop_digits(fraction, (width - read) as nat), read),
            system,
        ) == scan_numeral(bytes, from + width, pointed_numeral(whole, fraction, width), system),
    decreases width - read,
{
    let at = from + read;
    let so_far = pointed_numeral(whole, drop_digits(fraction, (width - read) as nat), read);
    if read < width {
        let below = (width - read - 1) as nat;
        lemma_fixed_digit_at(fraction, width, read as int);
        assert(bytes[at] == fixed_digits(fraction, width)[read as int] as u8);
        let digit = drop_digits(fraction, below) % 10;
        assert(bytes[at] == 48 + digit);
        assert(drop_digits(fraction, (below + 1) as nat) == drop_digits(fraction, below) / 10);
        assert(10 * so_far.fraction + digit_value(bytes[at]) == drop_digits(fraction, below));
        lemma_scan_fraction_digits(bytes, from, whole, fraction, width, read + 1, system);
        assert(scan_numeral(bytes, at, so_far, system) == scan_numeral(
            bytes,
            at + 1,
            pointed_numeral(whole, drop_digits(fraction, below), read + 1),
            system,
        ));
    } else {
        assert(drop_digits(fraction, 0) == fraction);
    }
}

/// How many zeros the last `width` digits of `n` end in.
pub open spec fn trailing_zeros(n: nat, width: nat) -> nat
    decreases width,
{
    if width == 0 || n % 10 != 0 {
        0
    } else {
        1 + trailing_zeros(n / 10, (width - 1) as nat)
    }
}

/// The digits without the zeros at their end are the digits of the number without
/// those zeros, and nothing is lost with them.
proof fn lemma_trimmed_digits(n: nat, width: nat)
    ensures
        trailing_zeros(n, width) <= width,
        trimmed_digits(n, width) == fixed_digits(
            drop_digits(n, trailing_zeros(n, width)),
            (width - trailing_zeros(n, width)) as nat,
        ),
        drop_digits(n, trailing_zeros(n, width)) * pow10(trailing_zeros(n, width)) == n,
    decreases width,
{
    let zeros = trailing_zeros(n, width);
    if width > 0 && n % 10 == 0 {
        let fewer = trailing_zeros(n / 10, (width - 1) as nat);
        lemma_trimmed_digits(n / 10, (width - 1) as nat);
        lemma_drop_shift(n, fewer);
        let kept = drop_digits(n / 10, fewer);
        assert(zeros == fewer + 1);
        assert(drop_digits(n, zeros) == kept);
        assert(pow10(zeros) == 10 * pow10(fewer));
        assert(kept * (10 * pow10(fewer)) == 10 * (kept * pow10(fewer))) by (nonlinear_arith);
        assert(kept * pow10(fewer) == n / 10);
    } else {
        assert(zeros == 0);
        assert(pow10(0) == 1);
        assert(drop_digits(n, 0) == n);
        assert(n * 1 == n);
    }
}

/// A unit that is written out is read to its end.
proof fn lemma_scan_name(bytes: Seq<u8>, from: int, len: nat, read: nat)
    requires
        0 <= from,
        read <= len,
        from + len <= bytes.len(),
        forall|i: int| 0 <= i < len ==> is_unit_byte(#[trigger] bytes[from + i]),
        from + len < bytes.len() ==> bytes[from + len] == 0x20,
    ensures
        scan_unit(bytes, from + read) == if from + len < bytes.len() {
            UnitEnd::Space(from + len)
        } else {
            UnitEnd::End(from + len)
        },
    decreases len - read,
{
    if read < len {
        assert(is_unit_byte(bytes[from + read]));
        lemma_whitespace_len(bytes, from + read);
        lemma_scan_name(bytes, from, len, read + 1);
    }
}

/// How many bits per second one unit of `level` is.
pub open spec fn unit_bits(system: System, level: nat) -> nat {
    match system {
        System::Decimal => pow1000(level),
        System::Binary => 8 * pow1024(level),
    }
}

/// The span of `value` units of `level` can be held.
pub open spec fn span_fits(system: System, level: nat, value: nat) -> bool {
    &&& value <= u64::MAX
    &&& match system {
        System::Decimal => value * pow1000(level) < capacity() && (level <= 2 ==> value * pow1000(
            level,
        ) <= u64::MAX),
        System::Binary => 8 * (value * pow1024(level)) <= u64::MAX,
    }
}

/// The unit ends at `end`: at a space or with the text.
pub open spec fn unit_end(bytes: Seq<u8>, end: int) -> UnitEnd {
    if end < bytes.len() {
        UnitEnd::Space(end)
    } else {
        UnitEnd::End(end)
    }
}

/// The bytes from `from` on start with `text`.
pub open spec fn holds_text(bytes: Seq<u8>, from: int, text: Seq<char>) -> bool {
    &&& 0 <= from
    &&& from + text.len() <= bytes.len()
    &&& forall|i: int| 0 <= i < text.len() ==> bytes[from + i] == (#[trigger] text[i]) as u8
}

/// A span that is written as a whole number and the name of its unit is read as that
/// many units.
proof fn lemma_read_written_span(bytes: Seq<u8>, from: int, value: nat, system: System, level: nat)
    requires
        level <= 4,
        span_fits(system, level, value),
        holds_text(bytes, from, digits(value) + unit_name(system, level)),
        from + (digits(value) + unit_name(system, level)).len() < bytes.len() ==> bytes[from + (
            digits(value) + unit_name(system, level)).len()] == 0x20,
    ensures
        is_digit(bytes[from]),
        read_span(bytes, from + 1, digit_value(bytes[from]), system) == (Step::Span {
            bits: value * unit_bits(system, level),
            after: following(
                bytes,
                unit_end(bytes, from + (digits(value) + unit_name(system, level)).len()),
            ),
        }),
{
    let count = digit_count(value);
    let name = unit_name(system, level);
    let text = digits(value) + name;
    let start = from + count;
    let end = from + text.len();
    lemma_fixed_digits_len(value, count);
    lemma_name_is_read(system, level);
    lemma_leading_digit(value);
    lemma_fixed_digit_at(value, count, 0);
    let first = drop_digits(value, (count - 1) as nat);
    assert(text[0] == digits(value)[0]);
    assert(bytes[from] == text[0] as u8);
    assert(bytes[from] == 48 + first);
    assert(numeral_of(digit_value(bytes[from])) == whole_numeral(first));
    assert forall|i: int| 0 <= i < count implies bytes[from + i] == (#[trigger] digits(
        value,
    )[i]) as u8 by {
        assert(text[i] == digits(value)[i]);
    }
    assert forall|i: int| 0 <= i < name.len() implies is_unit_byte(
        #[trigger] bytes[start + i],
    ) by {
        assert(text[count + i] == name[i]);
        assert(bytes[from + (count + i)] == text[count + i] as u8);
        assert(ascii_bytes(name)[i] == name[i] as u8);
    }
    assert(bytes[start + 0] == bytes[start]);
    lemma_scan_digits(bytes, from, value, 1, system);
    lemma_scan_name(bytes, start, name.len(), 0);
    let token = bytes.subrange(start, end);
    assert(token =~= ascii_bytes(name)) by {
        assert forall|i: int| 0 <= i < name.len() implies token[i] == ascii_bytes(name)[i] by {
            assert(text[count + i] == name[i]);
            assert(bytes[from + (count + i)] == text[count + i] as u8);
        }
    }
    lemma_scales();
    assert(pow10(0) == 1);
    let numeral = whole_numeral(value);
    assert(span_bits(system, token, numeral, start, end) == Ok::<nat, Failure>(
        value * unit_bits(system, level),
    )) by {
        match system {
            System::Decimal => {
                assert(kept_fraction(0, 0, 3 * level) == 0) by (nonlinear_arith)
                    requires
                        kept_fraction(0, 0, 3 * level) == 0 * pow10((3 * level - 0) as nat),
                ;
            },
            System::Binary => {
                assert(binary64_quotient(0, 1) == (0nat, 1nat));
                assert(scaled_quotient(0, 1, pow1024(level)) == 0) by (nonlinear_arith)
                    requires
                        scaled_quotient(0, 1, pow1024(level)) == (2 * (0 * pow1024(level)) + 1) / (
                        2 * 1),
                ;
                assert(8 * (value * pow1024(level)) == value * (8 * pow1024(level)))
                    by (nonlinear_arith);
            },
        }
    }
}

/// The bits per second in the buckets of `amount` from the unit of `level` downwards.
pub open spec fn buckets_bits(amount: nat, system: System, level: nat) -> nat
    decreases level,
{
    bucket(amount, system, level) * unit_bits(system, level) + if level == 0 {
        0
    } else {
        buckets_bits(amount, system, (level - 1) as nat)
    }
}

/// An amount of base units that a text in whole numbers can be read back from: a rate
/// that a `Bandwidth` holds, which in the binary system has to fit in 64 bits as well.
pub open spec fn amount_fits(amount: nat, system: System) -> bool {
    match system {
        System::Decimal => amount < capacity(),
        System::Binary => 8 * amount <= u64::MAX,
    }
}

/// The buckets of an amount, with the scales spelled out.
proof fn lemma_buckets(amount: nat, system: System)
    ensures
        match system {
            System::Decimal => {
                &&& bucket(amount, system, 0) == amount % 1000
                &&& bucket(amount, system, 1) == amount / 1000 % 1000
                &&& bucket(amount, system, 2) == amount / 1000 / 1000 % 1000
                &&& bucket(amount, system, 3) == amount / 1000 / 1000 / 1000 % 1000
                &&& bucket(amount, system, 4) == amount / 1000 / 1000 / 1000 / 1000
            },
            System::Binary => {
                &&& bucket(amount, system, 0) == amount % 1024
                &&& bucket(amount, system, 1) == amount / 1024 % 1024
                &&& bucket(amount, system, 2) == amount / 1024 / 1024 % 1024
                &&& bucket(amount, system, 3) == amount / 1024 / 1024 / 1024 % 1024
                &&& bucket(amount, system, 4) == amount / 1024 / 1024 / 1024 / 1024
            },
        },
{
    lemma_scales();
    match system {
        System::Decimal => {
            let q1 = amount / 1000;
            let q2 = q1 / 1000;
            let q3 = q2 / 1000;
            let q4 = q3 / 1000;
            lemma_div_denominator(amount as int, 1000, 1000);
            lemma_div_denominator(amount as int, 1_000_000, 1000);
            lemma_div_denominator(amount as int, 1_000_000_000, 1000);
            assert(unit_scale(system, 0) == 1);
            assert(unit_scale(system, 1) == 1_000);
            assert(unit_scale(system, 2) == 1_000_000);
            assert(unit_scale(system, 3) == 1_000_000_000);
            assert(unit_scale(system, 4) == 1_000_000_000_000);
            assert(amount / unit_scale(system, 0) == amount);
            assert(amount / unit_scale(system, 1) == q1);
            assert(amount / unit_scale(system, 2) == q2);
            assert(amount / unit_scale(system, 3) == q3);
            assert(amount / unit_scale(system, 4) == q4);
        },
        System::Binary => {
            let q1 = amount / 1024;
            let q2 = q1 / 1024;
            let q3 = q2 / 1024;
            let q4 = q3 / 1024;
            lemma_div_denominator(amount as int, 1024, 1024);
            lemma_div_denominator(amount as int, 0x10_0000, 1024);
            lemma_div_denominator(amount as int, 0x4000_0000, 1024);
            assert(unit_scale(system, 0) == 1);
            assert(unit_scale(system, 1) == 0x400);
            assert(unit_scale(system, 2) == 0x10_0000);
            assert(unit_scale(system, 3) == 0x4000_0000);
            assert(unit_scale(system, 4) == 0x100_0000_0000);
            assert(amount / unit_scale(system, 0) == amount);
            assert(amount / unit_scale(system, 1) == q1);
            assert(amount / unit_scale(system, 2) == q2);
            assert(amount / unit_scale(system, 3) == q3);
            assert(amount / unit_scale(system, 4) == q4);
        },
    }
}

proof fn lemma_bucket_fits(amount: nat, system: System, level: nat)
    requires
        level <= 4,
        amount_fits(amount, system),
    ensures
        span_fits(system, level, bucket(amount, system, level)),
{
    lemma_scales();
    lemma_buckets(amount, system);
    let value = bucket(amount, system, level);
    let per: nat = base(system);
    let q1 = amount / per;
    let q2 = q1 / per;
    let q3 = q2 / per;
    let q4 = q3 / per;
    assert(amount >= per * q1 && q1 >= per * q2 && q2 >= per * q3 && q3 >= per * q4) by {
        match system {
            System::Decimal => {
                assert(amount >= 1000 * (amount / 1000));
                assert(q1 >= 1000 * (q1 / 1000));
                assert(q2 >= 1000 * (q2 / 1000));
                assert(q3 >= 1000 * (q3 / 1000));
            },
            System::Binary => {
                assert(amount >= 1024 * (amount / 1024));
                assert(q1 >= 1024 * (q1 / 1024));
                assert(q2 >= 1024 * (q2 / 1024));
                assert(q3 >= 1024 * (q3 / 1024));
            },
        }
    }
    match system {
        System::Decimal => {
            if level == 0 {
                assert(value * pow1000(level) == value * 1) by (nonlinear_arith)
                    requires
                        pow1000(level) == 1,
                ;
            } else if level == 1 {
                assert(value * pow1000(level) == value * 1_000) by (nonlinear_arith)
                    requires
                        pow1000(level) == 1_000,
                ;
            } else if level == 2 {
                assert(value * pow1000(level) == value * 1_000_000) by (nonlinear_arith)
                    requires
                        pow1000(level) == 1_000_000,
                ;
            } else if level == 3 {
                assert(value * pow1000(level) == value * 1_000_000_000) by (nonlinear_arith)
                    requires
                        pow1000(level) == 1_000_000_000,
                ;
            } else {
                assert(value * pow1000(level) == value * 1_000_000_000_000) by (nonlinear_arith)
                    requires
                        pow1000(level) == 1_000_000_000_000,
                ;
            }
        },
        System::Binary => {
            if level == 0 {
                assert(value * pow1024(level) == value * 1) by (nonlinear_arith)
                    requires
                        pow1024(level) == 1,
                ;
            } else if level == 1 {
                assert(value * pow1024(level) == value * 0x400) by (nonlinear_arith)
                    requires
                        pow1024(level) == 0x400,
                ;
            } else if level == 2 {
                assert(value * pow1024(level) == value * 0x10_0000) by (nonlinear_arith)
                    requires
                        pow1024(level) == 0x10_0000,
                ;
            } else if level == 3 {
                assert(value * pow1024(level) == value * 0x4000_0000) by (nonlinear_arith)
                    requires
                        pow1024(level) == 0x4000_0000,
                ;
            } else {
                assert(value * pow1024(level) == value * 0x100_0000_0000) by (nonlinear_arith)
                    requires
                        pow1024(level) == 0x100_0000_0000,
                ;
            }
        },
    }
}

/// The bits per second in one bucket, with the scale spelled out.
proof fn lemma_bucket_bits(amount: nat, system: System, level: nat, scale: nat)
    requires
        unit_bits(system, level) == scale,
    ensures
        bucket(amount, system, level) * unit_bits(system, level) == scale * bucket(
            amount,
            system,
            level,
        ),
{
    let value = bucket(amount, system, level);
    assert(value * scale == scale * value) by (nonlinear_arith);
}

/// A number is the sum of its digits to the base 1000, each times its place.
proof fn lemma_thousands(amount: nat)
    ensures
        amount == amount % 1000 + 1_000 * (amount / 1000 % 1000) + 1_000_000 * (amount / 1000
            / 1000 % 1000) + 1_000_000_000 * (amount / 1000 / 1000 / 1000 % 1000)
            + 1_000_000_000_000 * (amount / 1000 / 1000 / 1000 / 1000),
{
    let q1 = amount / 1000;
    let q2 = q1 / 1000;
    let q3 = q2 / 1000;
    let q4 = q3 / 1000;
    assert(amount == 1000 * q1 + amount % 1000);
    assert(q1 == 1000 * q2 + q1 % 1000);
    assert(q2 == 1000 * q3 + q2 % 1000);
    assert(q3 == 1000 * q4 + q3 % 1000);
}

/// A number is the sum of its digits to the base 1024, each times its place.
proof fn lemma_kibis(amount: nat)
    ensures
        amount == amount % 1024 + 0x400 * (amount / 1024 % 1024) + 0x10_0000 * (amount / 1024
            / 1024 % 1024) + 0x4000_0000 * (amount / 1024 / 1024 / 1024 % 1024) + 0x100_0000_0000
            * (amount / 1024 / 1024 / 1024 / 1024),
{
    let q1 = amount / 1024;
    let q2 = q1 / 1024;
    let q3 = q2 / 1024;
    let q4 = q3 / 1024;
    assert(amount == 1024 * q1 + amount % 1024);
    assert(q1 == 1024 * q2 + q1 % 1024);
    assert(q2 == 1024 * q3 + q2 % 1024);
    assert(q3 == 1024 * q4 + q3 % 1024);
}

/// The bits per second in the buckets, with the scales spelled out.
proof fn lemma_buckets_bits(amount: nat, system: System)
    ensures
        buckets_bits(amount, system, 4) == match system {
            System::Decimal => bucket(amount, system, 0) + 1_000 * bucket(amount, system, 1)
                + 1_000_000 * bucket(amount, system, 2) + 1_000_000_000 * bucket(
                amount,
                system,
                3,
            ) + 1_000_000_000_000 * bucket(amount, system, 4),
            System::Binary => 8 * bucket(amount, system, 0) + 0x2000 * bucket(amount, system, 1)
                + 0x80_0000 * bucket(amount, system, 2) + 0x2_0000_0000 * bucket(
                amount,
                system,
                3,
            ) + 0x800_0000_0000 * bucket(amount, system, 4),
        },
{
    lemma_scales();
    let low0 = buckets_bits(amount, system, 0);
    let low1 = buckets_bits(amount, system, 1);
    let low2 = buckets_bits(amount, system, 2);
    let low3 = buckets_bits(amount, system, 3);
    let low4 = buckets_bits(amount, system, 4);
    assert(low0 == bucket(amount, system, 0) * unit_bits(system, 0));
    assert(low1 == bucket(amount, system, 1) * unit_bits(system, 1) + low0);
    assert(low2 == bucket(amount, system, 2) * unit_bits(system, 2) + low1);
    assert(low3 == bucket(amount, system, 3) * unit_bits(system, 3) + low2);
    assert(low4 == bucket(amount, system, 4) * unit_bits(system, 4) + low3);
    match system {
        System::Decimal => {
            lemma_bucket_bits(amount, system, 0, 1);
            lemma_bucket_bits(amount, system, 1, 1_000);
            lemma_bucket_bits(amount, system, 2, 1_000_000);
            lemma_bucket_bits(amount, system, 3, 1_000_000_000);
            lemma_bucket_bits(amount, system, 4, 1_000_000_000_000);
        },
        System::Binary => {
            lemma_bucket_bits(amount, system, 0, 8);
            lemma_bucket_bits(amount, system, 1, 0x2000);
            lemma_bucket_bits(amount, system, 2, 0x80_0000);
            lemma_bucket_bits(amount, system, 3, 0x2_0000_0000);
            lemma_bucket_bits(amount, system, 4, 0x800_0000_0000);
        },
    }
}

/// The buckets together hold the whole amount.
proof fn lemma_buckets_hold_all(amount: nat, system: System)
    ensures
        buckets_bits(amount, system, 4) == match system {
            System::Decimal => amount,
            System::Binary => 8 * amount,
        },
{
    lemma_buckets(amount, system);
    lemma_buckets_bits(amount, system);
    lemma_thousands(amount);
    lemma_kibis(amount);
}

/// The text of the buckets that follow one that has been written is empty or starts
/// with a space.
proof fn lemma_following_buckets(amount: nat, system: System, level: nat)
    ensures
        buckets_text(amount, system, level, true).len() > 0 ==> buckets_text(
            amount,
            system,
            level,
            true,
        )[0] == ' ',
    decreases level,
{
    reveal_strlit(" ");
    let value = bucket(amount, system, level);
    let item = item_text(true, value, unit_name(system, level));
    if level > 0 {
        lemma_following_buckets(amount, system, (level - 1) as nat);
    }
    if value > 0 {
        assert(item[0] == ' ');
    } else {
        assert(item.len() == 0);
        if level > 0 {
            assert(buckets_text(amount, system, level, true) =~= buckets_text(
                amount,
                system,
                (level - 1) as nat,
                true,
            ));
        }
    }
}

/// What the text behind a unit that ends at `end` adds to `total`.
pub open spec fn after_unit(bytes: Seq<u8>, end: int, total: nat, system: System) -> Result<
    nat,
    Failure,
> {
    match following(bytes, unit_end(bytes, end)) {
        Following::End => Ok(total),
        Following::NumberExpected(from) => Err(Failure::NumberExpected(from)),
        Following::Span { first, at } => parse_spans(bytes, at, first, total, system),
    }
}

/// Reading one written span and going on behind it.
proof fn lemma_span_then_rest(
    bytes: Seq<u8>,
    from: int,
    value: nat,
    total: nat,
    system: System,
    level: nat,
)
    requires
        level <= 4,
        span_fits(system, level, value),
        holds_text(bytes, from, digits(value) + unit_name(system, level)),
        from + (digits(value) + unit_name(system, level)).len() < bytes.len() ==> bytes[from + (
            digits(value) + unit_name(system, level)).len()] == 0x20,
        total + value * unit_bits(system, level) < capacity(),
    ensures
        is_digit(bytes[from]),
        parse_spans(bytes, from + 1, digit_value(bytes[from]), total, system) == after_unit(
            bytes,
            from + (digits(value) + unit_name(system, level)).len(),
            total + value * unit_bits(system, level),
            system,
        ),
{
    lemma_read_written_span(bytes, from, value, system, level);
    lemma_fixed_digits_len(value, digit_count(value));
    lemma_read_span(bytes, from + 1, digit_value(bytes[from]), system);
}

/// The buckets that follow a bucket which has been written are read back.
proof fn lemma_read_following_buckets(
    bytes: Seq<u8>,
    end: int,
    amount: nat,
    total: nat,
    system: System,
    level: nat,
)
    requires
        level <= 4,
        amount_fits(amount, system),
        holds_text(bytes, end, buckets_text(amount, system, level, true)),
        end + buckets_text(amount, system, level, true).len() == bytes.len(),
        total + buckets_bits(amount, system, level) < capacity(),
    ensures
        after_unit(bytes, end, total, system) == Ok::<nat, Failure>(
            total + buckets_bits(amount, system, level),
        ),
    decreases level,
{
    let value = bucket(amount, system, level);
    let name = unit_name(system, level);
    let item = item_text(true, value, name);
    let text = buckets_text(amount, system, level, true);
    let rest = if level == 0 {
        Seq::<char>::empty()
    } else {
        buckets_text(amount, system, (level - 1) as nat, true)
    };
    assert(text =~= item + rest);
    lemma_bucket_fits(amount, system, level);
    if value == 0 {
        assert(item.len() == 0);
        assert(text =~= rest);
        assert(0 * unit_bits(system, level) == 0);
        if level > 0 {
            lemma_read_following_buckets(bytes, end, amount, total, system, (level - 1) as nat);
        }
    } else {
        reveal_strlit(" ");
        let span = digits(value) + name;
        assert(item =~= " "@ + span);
        assert(text[0] == ' ');
        assert(bytes[end + 0] == 0x20);
        let from = end + 1;
        let behind = from + span.len();
        assert(holds_text(bytes, from, span)) by {
            assert forall|i: int| 0 <= i < span.len() implies bytes[from + i] == (
            #[trigger] span[i]) as u8 by {
                assert(text[1 + i] == span[i]);
                assert(bytes[end + (1 + i)] == text[1 + i] as u8);
            }
        }
        assert(holds_text(bytes, behind, rest)) by {
            assert forall|i: int| 0 <= i < rest.len() implies bytes[behind + i] == (
            #[trigger] rest[i]) as u8 by {
                assert(text[item.len() + i] == rest[i]);
                assert(bytes[end + (item.len() + i)] == text[item.len() + i] as u8);
            }
        }
        if level > 0 {
            lemma_following_buckets(amount, system, (level - 1) as nat);
        }
        if behind < bytes.len() {
            assert(rest.len() > 0);
            assert(bytes[behind + 0] == rest[0] as u8);
        }
        lemma_span_then_rest(bytes, from, value, total, system, level);
        lemma_whitespace_len(bytes, end);
        assert(whitespace_len(bytes, end) == 1);
        assert(seek_digit(bytes, from) == Seek::Digit(from));
        assert(after_unit(bytes, end, total, system) == parse_spans(
            bytes,
            from + 1,
            digit_value(bytes[from]),
            total,
            system,
        ));
        let more = total + value * unit_bits(system, level);
        if level > 0 {
            lemma_read_following_buckets(bytes, behind, amount, more, system, (level - 1) as nat);
        } else {
            assert(behind == bytes.len());
        }
    }
}

/// The buckets from the unit of `level` downwards, written out one after the other, are
/// read back as what they hold.
proof fn lemma_read_buckets(bytes: Seq<u8>, amount: nat, system: System, level: nat)
    requires
        level <= 4,
        amount_fits(amount, system),
        holds_text(bytes, 0, buckets_text(amount, system, level, false)),
        buckets_text(amount, system, level, false).len() == bytes.len(),
        0 < buckets_bits(amount, system, level) < capacity(),
    ensures
        parse(bytes, system) == Ok::<nat, Failure>(buckets_bits(amount, system, level)),
    decreases level,
{
    let value = bucket(amount, system, level);
    let name = unit_name(system, level);
    let item = item_text(false, value, name);
    let text = buckets_text(amount, system, level, false);
    lemma_bucket_fits(amount, system, level);
    if value == 0 {
        assert(item.len() == 0);
        assert(0 * unit_bits(system, level) == 0);
        assert(level > 0);
        assert(text =~= buckets_text(amount, system, (level - 1) as nat, false));
        lemma_read_buckets(bytes, amount, system, (level - 1) as nat);
    } else {
        let rest = if level == 0 {
            Seq::<char>::empty()
        } else {
            buckets_text(amount, system, (level - 1) as nat, true)
        };
        let span = digits(value) + name;
        assert(item =~= span);
        assert(text =~= span + rest);
        let behind = span.len() as int;
        assert(holds_text(bytes, 0, span)) by {
            assert forall|i: int| 0 <= i < span.len() implies bytes[0 + i] == (
            #[trigger] span[i]) as u8 by {
                assert(text[i] == span[i]);
            }
        }
        assert(holds_text(bytes, behind, rest)) by {
            assert forall|i: int| 0 <= i < rest.len() implies bytes[behind + i] == (
            #[trigger] rest[i]) as u8 by {
                assert(text[behind + i] == rest[i]);
                assert(bytes[0 + (behind + i)] == text[behind + i] as u8);
            }
        }
        if level > 0 {
            lemma_following_buckets(amount, system, (level - 1) as nat);
        }
        if behind < bytes.len() {
            assert(rest.len() > 0);
            assert(bytes[behind + 0] == rest[0] as u8);
        }
        lemma_span_then_rest(bytes, 0, value, 0, system, level);
        assert(seek_digit(bytes, 0) == Seek::Digit(0));
        let more = value * unit_bits(system, level);
        if level > 0 {
            lemma_read_following_buckets(bytes, behind, amount, more, system, (level - 1) as nat);
        } else {
            assert(behind == bytes.len());
        }
    }
}

proof fn lemma_digits_ascii(n: nat, width: nat)
    ensures
        is_ascii_chars(fixed_digits(n, width)),
    decreases width,
{
    if width > 0 {
        lemma_digits_ascii(n / 10, (width - 1) as nat);
        lemma_fixed_digits_len(n / 10, (width - 1) as nat);
    }
}

proof fn lemma_buckets_ascii(amount: nat, system: System, level: nat, started: bool)
    requires
        level <= 4,
    ensures
        is_ascii_chars(buckets_text(amount, system, level, started)),
    decreases level,
{
    reveal_strlit(" ");
    let value = bucket(amount, system, level);
    lemma_name_is_read(system, level);
    lemma_digits_ascii(value, digit_count(value));
    if level > 0 {
        lemma_buckets_ascii(amount, system, (level - 1) as nat, started || value > 0);
    }
}

/// The text of a rate in whole numbers is made of ASCII characters.
pub proof fn lemma_integer_text_ascii(bits: nat, system: System)
    ensures
        is_ascii_chars(integer_text(bits, system)),
{
    reveal_strlit("0bps");
    reveal_strlit("0B/s");
    lemma_buckets_ascii(amount(bits, system), system, 4, false);
}

/// The text of the rate zero is read back as zero.
pub proof fn lemma_zero_parses_back(bytes: Seq<u8>, system: System)
    requires
        bytes == ascii_bytes(zero_text(system)),
    ensures
        parse(bytes, system) == Ok::<nat, Failure>(0),
{
    lemma_scales();
    reveal_strlit("0bps");
    reveal_strlit("0B/s");
    reveal_strlit("bps");
    reveal_strlit("B/s");
    reveal_with_fuel(fixed_digits, 2);
    let span = digits(0) + unit_name(system, 0);
    assert(digits(0) =~= seq!['0']);
    assert(zero_text(system) =~= span);
    assert(0 * unit_bits(system, 0) == 0);
    assert(0 * pow1000(0) == 0);
    assert(0 * pow1024(0) == 0);
    assert(holds_text(bytes, 0, span));
    assert(span_fits(system, 0, 0));
    lemma_span_then_rest(bytes, 0, 0, 0, system, 0);
    assert(seek_digit(bytes, 0) == Seek::Digit(0));
    assert(following(bytes, unit_end(bytes, bytes.len() as int)) == Following::End);
}

/// The text of a rate in whole numbers is read back as the rate.
pub proof fn lemma_buckets_parse_back(bytes: Seq<u8>, bits: nat, system: System)
    requires
        0 < bits < capacity(),
        system == System::Binary ==> bits % 8 == 0 && bits <= u64::MAX,
        bytes == ascii_bytes(integer_text(bits, system)),
    ensures
        parse(bytes, system) == Ok::<nat, Failure>(bits),
{
    let held = amount(bits, system);
    lemma_buckets_hold_all(held, system);
    assert(buckets_bits(held, system, 4) == bits);
    assert(amount_fits(held, system));
    assert(holds_text(bytes, 0, buckets_text(held, system, 4, false)));
    lemma_read_buckets(bytes, held, system, 4);
}

/// A number that is written with a point and the name of its decimal unit is read as
/// what it stands for.
proof fn lemma_read_pointed_number(bytes: Seq<u8>, whole: nat, rest: nat, level: nat)
    requires
        1 <= level <= 4,
        whole <= u64::MAX,
        0 < rest < pow1000(level),
        whole * pow1000(level) + rest < capacity(),
        level <= 2 ==> whole * pow1000(level) + rest <= u64::MAX,
        bytes == ascii_bytes(
            digits(whole) + "."@ + trimmed_digits(rest, 3 * level) + unit_name(
                System::Decimal,
                level,
            ),
        ),
    ensures
        parse(bytes, System::Decimal) == Ok::<nat, Failure>(whole * pow1000(level) + rest),
{
    reveal_strlit(".");
    lemma_scales();
    let system = System::Decimal;
    let places = 3 * level;
    let count = digit_count(whole);
    let name = unit_name(system, level);
    let zeros = trailing_zeros(rest, places);
    let width = (places - zeros) as nat;
    let fraction = drop_digits(rest, zeros);
    let text = digits(whole) + "."@ + trimmed_digits(rest, places) + name;
    lemma_trimmed_digits(rest, places);
    lemma_fixed_digits_len(whole, count);
    lemma_fixed_digits_len(fraction, width);
    lemma_name_is_read(system, level);
    let dot = count as int;
    let behind = dot + 1;
    let start = behind + width;
    let end = start + name.len();
    assert(text.len() == end);
    assert(bytes.len() == end);
    assert forall|i: int| 0 <= i < count implies bytes[0 + i] == (#[trigger] digits(whole)[i])
        as u8 by {
        assert(text[i] == digits(whole)[i]);
    }
    assert(bytes[dot] == 0x2e) by {
        assert(text[dot] == '.');
    }
    assert forall|i: int| 0 <= i < width implies bytes[behind + i] == (#[trigger] fixed_digits(
        fraction,
        width,
    )[i]) as u8 by {
        assert(text[behind + i] == fixed_digits(fraction, width)[i]);
    }
    assert forall|i: int| 0 <= i < name.len() implies is_unit_byte(#[trigger] bytes[start + i]) by {
        assert(text[start + i] == name[i]);
        assert(ascii_bytes(name)[i] == name[i] as u8);
    }
    // The first digit.
    lemma_leading_digit(whole);
    lemma_fixed_digit_at(whole, count, 0);
    let first = drop_digits(whole, (count - 1) as nat);
    assert(bytes[0] == 48 + first);
    assert(seek_digit(bytes, 0) == Seek::Digit(0));
    assert(numeral_of(digit_value(bytes[0])) == whole_numeral(first));
    // The digits before the point, and the point.
    lemma_scan_whole_digits(bytes, 0, whole, 1, system);
    lemma_whitespace_len(bytes, dot);
    assert(scan_numeral(bytes, dot, whole_numeral(whole), system) == scan_numeral(
        bytes,
        behind,
        pointed_numeral(whole, 0, 0),
        system,
    ));
    // The digits behind the point.
    lemma_pow10_values();
    assert(pow10(places) == pow1000(level));
    lemma_pow10_add(width, zeros);
    lemma_pow10_positive(zeros);
    lemma_pow10_positive(width);
    assert(fraction < pow10(width)) by (nonlinear_arith)
        requires
            fraction * pow10(zeros) < pow10(width) * pow10(zeros),
            pow10(zeros) > 0,
    ;
    lemma_drop_digits(fraction, width);
    assert(drop_digits(fraction, width) == 0) by (nonlinear_arith)
        requires
            drop_digits(fraction, width) == fraction / pow10(width),
            fraction < pow10(width),
    ;
    lemma_scan_fraction_digits(bytes, behind, whole, fraction, width, 0, system);
    let numeral = pointed_numeral(whole, fraction, width);
    // The unit.
    assert(bytes[start + 0] == bytes[start]);
    lemma_whitespace_len(bytes, start);
    assert(scan_numeral(bytes, start, numeral, system) == NumeralEnd::Unit(numeral, start));
    lemma_scan_name(bytes, start, name.len(), 0);
    let token = bytes.subrange(start, end);
    assert(token =~= ascii_bytes(name)) by {
        assert forall|i: int| 0 <= i < name.len() implies token[i] == ascii_bytes(name)[i] by {
            assert(text[start + i] == name[i]);
        }
    }
    assert(kept_fraction(fraction, width, places) == rest);
    let bits = whole * pow1000(level) + rest;
    assert(span_bits(system, token, numeral, start, end) == Ok::<nat, Failure>(bits));
    assert(read_span(bytes, 1, digit_value(bytes[0]), system) == (Step::Span {
        bits,
        after: Following::End,
    }));
    lemma_read_span(bytes, 1, digit_value(bytes[0]), system);
}

/// The text of a rate in decimal form is made of ASCII characters where it is written
/// without a precision.
pub proof fn lemma_decimal_text_ascii(bits: nat, system: System)
    ensures
        is_ascii_chars(decimal_text(bits, system, None)),
{
    reveal_strlit("0bps");
    reveal_strlit("0B/s");
    reveal_strlit(".");
    let held = amount(bits, system);
    let level = display_level(held, system);
    let whole = held / unit_scale(system, level);
    let rest = fraction_of(held, system, level);
    lemma_name_is_read(system, level);
    lemma_digits_ascii(whole, digit_count(whole));
    lemma_trimmed_digits(rest, 3 * level);
    lemma_digits_ascii(
        drop_digits(rest, trailing_zeros(rest, 3 * level)),
        (3 * level - trailing_zeros(rest, 3 * level)) as nat,
    );
}

/// A rate that is written in decimal form in the decimal system, with every digit that
/// it takes, is read back as the rate.
pub proof fn lemma_decimal_text_parses_back(bytes: Seq<u8>, bits: nat)
    requires
        0 < bits < capacity(),
        bytes == ascii_bytes(decimal_text(bits, System::Decimal, None)),
    ensures
        parse(bytes, System::Decimal) == Ok::<nat, Failure>(bits),
{
    lemma_scales();
    let system = System::Decimal;
    let level = display_level(bits, system);
    let scale = pow1000(level);
    let whole = bits / scale;
    let rest = bits % scale;
    assert(bits == whole * scale + rest && rest < scale) by (nonlinear_arith)
        requires
            whole == bits / scale,
            rest == bits % scale,
            scale > 0,
    ;
    assert(whole <= bits) by (nonlinear_arith)
        requires
            bits == whole * scale + rest,
            scale >= 1,
            rest >= 0,
    ;
    assert(level <= 2 ==> bits <= u64::MAX);
    if level == 4 {
        assert(whole == bits / 1_000_000_000_000);
    } else {
        assert(bits < pow1000(level + 1));
        assert(pow1000(level + 1) == 1000 * scale);
        assert(whole < 1000) by (nonlinear_arith)
            requires
                bits == whole * scale + rest,
                bits < 1000 * scale,
                rest >= 0,
                scale > 0,
        ;
    }
    if rest == 0 {
        let span = digits(whole) + unit_name(system, level);
        assert(decimal_text(bits, system, None) =~= span);
        assert(holds_text(bytes, 0, span));
        lemma_span_then_rest(bytes, 0, whole, 0, system, level);
        assert(seek_digit(bytes, 0) == Seek::Digit(0));
    } else {
        assert(level >= 1);
        lemma_read_pointed_number(bytes, whole, rest, level);
    }
}

} // verus!
