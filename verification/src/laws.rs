//! What holds of parsing and formatting together.

use crate::binary64::{binary64_quotient, lemma_significand_from, scaled_quotient};
use crate::decimal::{digits, lemma_pow10_positive, lemma_pow10_values, pow10};
use crate::error::Failure;
use crate::grammar::{lemma_seek_digit, parse, seek_digit, Seek, System};
use crate::joined::{joined, lemma_joined, lemma_seek_front, lemma_spans_front, sum_of};
use crate::rate::capacity;
use crate::render::{
    base, decimal_text, display_level, fraction_of, integer_text, number_text, point_digits,
    unit_scale, zero_text,
};
use crate::rounding::{lemma_discard_digits_rounds, round_half_even};
use crate::scanner::digit_value;
use crate::spellings::{ascii_bytes, lemma_ascii_literal};
use crate::units::{lemma_scales, pow1000, pow1024};
use crate::written::{
    lemma_buckets_parse_back, lemma_decimal_text_ascii, lemma_decimal_text_parses_back,
    lemma_integer_text_ascii, lemma_zero_parses_back,
};
use vstd::prelude::*;
use vstd::string::StringSliceAdditionalSpecFns;

verus! {

/// A rate that is written in whole numbers is read back as the same rate.
///
/// This holds of every rate in the decimal system. In the binary system it holds of
/// the rates of whole bytes per second that fit in 64 bits: a rate is written in bytes,
/// and a span is read into 64 bits.
pub proof fn law_integer_text_parses_back(text: &str, bits: nat, system: System)
    requires
        bits < capacity(),
        system == System::Binary ==> bits % 8 == 0 && bits <= u64::MAX,
        text@ == integer_text(bits, system),
    ensures
        parse(text.spec_bytes(), system) == Ok::<nat, Failure>(bits),
{
    lemma_integer_text_ascii(bits, system);
    lemma_ascii_literal(text);
    if bits == 0 {
        lemma_zero_parses_back(ascii_bytes(text@), system);
    } else {
        lemma_buckets_parse_back(ascii_bytes(text@), bits, system);
    }
}

/// A rate that is written in decimal form in the decimal system, with every digit that
/// it takes, is read back as the same rate.
pub proof fn law_decimal_text_parses_back(text: &str, bits: nat)
    requires
        bits < capacity(),
        text@ == decimal_text(bits, System::Decimal, None),
    ensures
        parse(text.spec_bytes(), System::Decimal) == Ok::<nat, Failure>(bits),
{
    lemma_decimal_text_ascii(bits, System::Decimal);
    lemma_ascii_literal(text);
    if bits == 0 {
        lemma_zero_parses_back(ascii_bytes(text@), System::Decimal);
    } else {
        lemma_decimal_text_parses_back(ascii_bytes(text@), bits);
    }
}

/// Two texts that each stand for a rate stand together, with a space between them, for
/// the sum of the two rates, or for none where the sum cannot be held.
pub proof fn law_texts_add(front: Seq<u8>, back: Seq<u8>, system: System, first: nat, second: nat)
    requires
        parse(front, system) == Ok::<nat, Failure>(first),
        parse(back, system) == Ok::<nat, Failure>(second),
    ensures
        parse(joined(front, back), system) == sum_of(first, second),
{
    lemma_joined(front, back);
    lemma_seek_front(front, back, 0);
    lemma_seek_digit(front, 0);
    match seek_digit(front, 0) {
        Seek::Digit(found) => {
            assert(joined(front, back)[found] == front[found]);
            lemma_spans_front(
                front,
                back,
                found + 1,
                digit_value(front[found]),
                0,
                first,
                second,
                system,
            );
        },
        _ => {},
    }
}

/// The order of the spans does not matter: two texts that each stand for a rate stand
/// for the same, or for none, whichever of them comes first.
pub proof fn law_spans_add_in_any_order(front: Seq<u8>, back: Seq<u8>, system: System)
    requires
        parse(front, system) is Ok,
        parse(back, system) is Ok,
    ensures
        parse(joined(front, back), system) == parse(joined(back, front), system),
{
    law_texts_add(front, back, system, parse(front, system)->Ok_0, parse(back, system)->Ok_0);
    law_texts_add(back, front, system, parse(back, system)->Ok_0, parse(front, system)->Ok_0);
}

/// The unit in which a rate is written in decimal form is the largest of which the
/// rate holds at least one: the whole part is not zero, no larger unit has a whole part,
/// and below the largest unit of all the whole part is less than one unit of the next.
/// Only an amount of less than one base unit is written with a whole part of zero.
pub proof fn law_largest_unit_is_displayed(amount: nat, system: System, level: nat)
    requires
        level <= 4,
    ensures
        display_level(amount, system) <= 4,
        amount >= 1 ==> amount / unit_scale(system, display_level(amount, system)) >= 1,
        level > display_level(amount, system) ==> amount / unit_scale(system, level) == 0,
        display_level(amount, system) < 4 ==> amount / unit_scale(
            system,
            display_level(amount, system),
        ) < base(system),
        level < display_level(amount, system) ==> amount / unit_scale(system, level) >= base(
            system,
        ),
{
    lemma_scales();
    let shown = display_level(amount, system);
    let scale = unit_scale(system, shown);
    let whole = amount / scale;
    assert(whole * scale <= amount < (whole + 1) * scale) by (nonlinear_arith)
        requires
            whole == amount / scale,
            scale > 0,
    ;
    if amount >= 1 {
        assert(amount >= scale);
        assert(whole >= 1) by (nonlinear_arith)
            requires
                amount < (whole + 1) * scale,
                amount >= scale,
                scale > 0,
        ;
    }
    if shown < 4 {
        assert(amount < unit_scale(system, shown + 1));
        assert(unit_scale(system, shown + 1) == base(system) * scale);
        assert(whole < base(system)) by (nonlinear_arith)
            requires
                whole * scale <= amount,
                amount < base(system) * scale,
                scale > 0,
        ;
    }
    let other = unit_scale(system, level);
    let count = amount / other;
    assert(count * other <= amount < (count + 1) * other) by (nonlinear_arith)
        requires
            count == amount / other,
            other > 0,
    ;
    if level > shown {
        assert(amount < other);
        assert(count == 0) by (nonlinear_arith)
            requires
                count * other <= amount,
                amount < other,
                count >= 0,
        ;
    }
    if level < shown {
        assert(amount >= unit_scale(system, level + 1));
        assert(unit_scale(system, level + 1) == base(system) * other);
        assert(count >= base(system)) by (nonlinear_arith)
            requires
                amount < (count + 1) * other,
                amount >= base(system) * other,
                other > 0,
        ;
    }
}

/// The rate zero is written as zero base units, in whole numbers and in decimal form
/// with any precision.
pub proof fn law_zero_is_zero_base_units(system: System, precision: Option<nat>)
    ensures
        decimal_text(0, system, precision) == zero_text(system),
        integer_text(0, system) == zero_text(system),
        zero_text(System::Decimal) == "0bps"@,
        zero_text(System::Binary) == "0B/s"@,
{
}

/// Where the part that rounding discards is exactly half a unit, the result is even.
pub proof fn law_tie_rounds_to_even(value: nat, unit: nat)
    requires
        unit > 0,
        2 * (value % unit) == unit,
    ensures
        round_half_even(value, unit) % 2 == 0,
        round_half_even(value, unit) == value / unit || round_half_even(value, unit) == value
            / unit + 1,
{
}

/// A precision of fewer places than a number has rounds the number to the nearest
/// one of so many places, and to the one with an even last digit where two are equally
/// near: what is written differs from the number by at most half of the last place
/// written, and by exactly half only if the last digit written is even.
pub proof fn law_precision_rounds_to_nearest_even(whole: nat, rest: nat, places: nat, wanted: nat)
    requires
        wanted < places,
    ensures
        ({
            let unit = pow10((places - wanted) as nat);
            let exact = whole * pow10(places) + rest;
            let kept = round_half_even(exact, unit);
            &&& number_text(whole, rest, places, Some(wanted)) == digits(kept / pow10(wanted))
                + point_digits(kept % pow10(wanted), wanted)
            &&& -unit <= 2 * (kept * unit - exact) <= unit
            &&& (2 * (kept * unit - exact) == unit || 2 * (kept * unit - exact) == -unit) ==> kept
                % 2 == 0
        }),
{
    let unit = pow10((places - wanted) as nat);
    let exact = whole * pow10(places) + rest;
    lemma_pow10_positive((places - wanted) as nat);
    lemma_discard_digits_rounds(exact, (places - wanted) as nat);
}

/// A share of a binary unit comes to less than a thousand to the power of its level.
proof fn lemma_share_is_below_one(below: nat, level: nat, thousands: nat, scale: nat)
    requires
        1 <= level <= 4,
        thousands == pow1000(level),
        scale == pow1024(level),
        below < scale,
    ensures
        scaled_quotient(below * thousands, scale, 1) < thousands,
{
    lemma_scales();
    let num = below * thousands;
    let (significand, power) = binary64_quotient(num, scale);
    lemma_significand_from(num, scale, 1);
    assert(significand * 1 == significand);
    assert(num * power == thousands * (below * power)) by (nonlinear_arith)
        requires
            num == below * thousands,
    ;
    let product = below * power;
    assert(product <= scale * power - power) by (nonlinear_arith)
        requires
            product == below * power,
            below + 1 <= scale,
            power >= 0,
    ;
    if below == 0 {
        assert(num == 0) by (nonlinear_arith)
            requires
                num == below * thousands,
                below == 0,
        ;
        assert(significand == 0);
        assert(power == 1);
    } else {
        assert(0 < num < 0x10_0000_0000_0000 * scale) by (nonlinear_arith)
            requires
                num == below * thousands,
                0 < below < scale,
                0 < thousands <= 1_000_000_000_000,
        ;
        assert(power >= 2);
        let spread = scale * power;
        let heavy = significand * scale;
        let wide = thousands * product;
        assert(2 * heavy <= 2 * wide + scale);
        assert(wide <= thousands * spread - thousands * power) by (nonlinear_arith)
            requires
                wide == thousands * product,
                product <= spread - power,
                thousands >= 0,
        ;
        let full = thousands * spread;
        let part = thousands * power;
        assert(2 * heavy + spread < 2 * full) by {
            assert(spread + scale < 2 * part) by (nonlinear_arith)
                requires
                    spread == scale * power,
                    part == thousands * power,
                    power >= 2,
                    3 * scale < 4 * thousands,
            ;
        }
        assert(2 * significand + power < 2 * (thousands * power)) by (nonlinear_arith)
            requires
                2 * heavy + spread < 2 * full,
                heavy == significand * scale,
                spread == scale * power,
                full == thousands * (scale * power),
                scale > 0,
        ;
    }
    let top = 2 * significand + power;
    assert(top / (2 * power) < thousands) by (nonlinear_arith)
        requires
            top < 2 * (thousands * power),
            power > 0,
            top >= 0,
    ;
}

/// What is written behind the point is less than one unit: it fits in the places that
/// the unit has, three for each level.
pub proof fn law_fraction_is_below_one_unit(amount: nat, system: System, level: nat)
    requires
        level <= 4,
    ensures
        fraction_of(amount, system, level) < pow10(3 * level),
        pow10(3 * level) == pow1000(level),
{
    lemma_scales();
    lemma_pow10_values();
    let scale = unit_scale(system, level);
    let below = amount % scale;
    assert(pow10(3 * level) == pow1000(level)) by {
        if level == 0 {
        } else if level == 1 {
        } else if level == 2 {
        } else if level == 3 {
        } else {
        }
    }
    assert(scale > 0);
    assert(below < scale) by (nonlinear_arith)
        requires
            below == amount % scale,
            scale > 0,
    ;
    match system {
        System::Decimal => {
            assert(fraction_of(amount, system, level) == below);
        },
        System::Binary => {
            if level == 0 {
                assert(scale == 1);
                assert(below == 0);
                assert(below * pow1000(level) == 0) by (nonlinear_arith)
                    requires
                        below == 0,
                ;
                assert(binary64_quotient(0, 1) == (0nat, 1nat));
                assert(0nat * 1 == 0);
                assert(scaled_quotient(0, 1, 1) == (2 * (0nat * 1) + 1) / (2 * 1));
                assert((2 * (0nat * 1) + 1) / (2 * 1) == 0) by (nonlinear_arith);
            } else {
                lemma_share_is_below_one(below, level, pow1000(level), pow1024(level));
            }
        },
    }
}

} // verus!
