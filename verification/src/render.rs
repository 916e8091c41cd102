//! What a rate looks like as text, and the functions that write it.
//!
//! A rate is written in the units of one system. In whole numbers it is the list of its
//! buckets, largest first, the empty ones left out: `4Gbps 500Mbps`. In decimal form it is
//! one number in the largest unit that has a whole part: `4.5Gbps`.

use crate::binary64::{scale_quotient, scaled_quotient};
use crate::decimal::{
    digits, fixed_digits, lemma_pow10_add, lemma_pow10_monotonic, lemma_pow10_positive,
    lemma_pow10_values, pow10, pow10_u64, push_digits, push_fixed_digits, push_trimmed_digits,
    trimmed_digits,
};
use crate::grammar::System;
use crate::rounding::{
    lemma_round_above_even, lemma_split_units, round_digits, round_half_even,
};
use crate::units::{
    binary_name, binary_unit_name, decimal_name, decimal_unit_name, lemma_scales, pow1000, pow1024,
};
use vstd::prelude::*;
use vstd::string::*;

verus! {

/// How many of one unit make up the next larger one.
pub open spec fn base(system: System) -> nat {
    match system {
        System::Decimal => 1000,
        System::Binary => 1024,
    }
}

/// How many base units the unit of `level` holds.
pub open spec fn unit_scale(system: System, level: nat) -> nat {
    match system {
        System::Decimal => pow1000(level),
        System::Binary => pow1024(level),
    }
}

/// The name under which the unit of `level` is written.
pub open spec fn unit_name(system: System, level: nat) -> Seq<char> {
    match system {
        System::Decimal => decimal_name(level),
        System::Binary => binary_name(level),
    }
}

/// The rate of `bits` bits per second in the base unit of `system`: bits per second, or
/// bytes per second rounded to the nearest byte, a half upwards.
pub open spec fn amount(bits: nat, system: System) -> nat {
    match system {
        System::Decimal => bits,
        System::Binary => (bits + 4) / 8,
    }
}

/// The text of the rate zero.
pub open spec fn zero_text(system: System) -> Seq<char> {
    match system {
        System::Decimal => "0bps"@,
        System::Binary => "0B/s"@,
    }
}

/// How many whole units of `level` the amount holds beyond the units above them. The
/// largest unit, of level 4, takes all that is left.
pub open spec fn bucket(amount: nat, system: System, level: nat) -> nat {
    if level >= 4 {
        amount / unit_scale(system, 4)
    } else {
        amount / unit_scale(system, level) % base(system)
    }
}

/// One bucket as text: nothing where it is empty, else its value and the name of its
/// unit, after a space where a bucket has been written before it.
pub open spec fn item_text(started: bool, value: nat, name: Seq<char>) -> Seq<char> {
    if value == 0 {
        Seq::empty()
    } else if started {
        " "@ + digits(value) + name
    } else {
        digits(value) + name
    }
}

/// The buckets of `amount` from the unit of `level` down to the base unit, as text.
/// `started` tells whether a larger bucket has been written.
pub open spec fn buckets_text(amount: nat, system: System, level: nat, started: bool) -> Seq<char>
    decreases level,
{
    let value = bucket(amount, system, level);
    let item = item_text(started, value, unit_name(system, level));
    if level == 0 {
        item
    } else {
        item + buckets_text(amount, system, (level - 1) as nat, started || value > 0)
    }
}

/// A rate of `bits` bits per second in whole numbers.
///
/// The rate zero is written as zero base units. In the binary system a rate of less
/// than half a byte per second has no bucket to write and comes out empty.
pub open spec fn integer_text(bits: nat, system: System) -> Seq<char> {
    if bits == 0 {
        zero_text(system)
    } else {
        buckets_text(amount(bits, system), system, 4, false)
    }
}

/// The level of the largest unit of which `amount` holds at least one; the base unit
/// where it holds none.
pub open spec fn display_level(amount: nat, system: System) -> nat {
    if amount >= unit_scale(system, 4) {
        4
    } else if amount >= unit_scale(system, 3) {
        3
    } else if amount >= unit_scale(system, 2) {
        2
    } else if amount >= unit_scale(system, 1) {
        1
    } else {
        0
    }
}

/// What `amount` holds beyond whole units of `level`, in decimal digits behind the
/// point: three for each level. In the decimal system these are exact. In the binary
/// system the share of the unit is a quotient of 53 significant bits, rounded to the
/// nearest digit in the last place, a half upwards.
pub open spec fn fraction_of(amount: nat, system: System, level: nat) -> nat {
    let below = amount % unit_scale(system, level);
    match system {
        System::Decimal => below,
        System::Binary => scaled_quotient(below * pow1000(level), pow1024(level), 1),
    }
}

/// A point and the last `places` digits of `value`; nothing where no place is wanted.
pub open spec fn point_digits(value: nat, places: nat) -> Seq<char> {
    if places == 0 {
        Seq::empty()
    } else {
        "."@ + fixed_digits(value, places)
    }
}

/// The number `whole` and `rest` behind the point, where `rest` has `places` digits.
///
/// Without a precision the zeros at the end are left out, and the point with them
/// where nothing is left. With a precision of at least `places` all the places are
/// written. With a smaller one the number is rounded to that many places: to the
/// nearest number of so many places and, where two are equally near, to the one whose
/// last digit is even. Rounding up may carry into the whole part.
pub open spec fn number_text(whole: nat, rest: nat, places: nat, precision: Option<nat>) -> Seq<
    char,
> {
    match precision {
        None => if rest == 0 {
            digits(whole)
        } else {
            digits(whole) + "."@ + trimmed_digits(rest, places)
        },
        Some(wanted) => if wanted >= places {
            digits(whole) + point_digits(rest, places)
        } else {
            let kept = round_half_even(
                whole * pow10(places) + rest,
                pow10((places - wanted) as nat),
            );
            digits(kept / pow10(wanted)) + point_digits(kept % pow10(wanted), wanted)
        },
    }
}

/// A precision as contracts speak of it.
pub open spec fn places_of(precision: Option<usize>) -> Option<nat> {
    match precision {
        None => None,
        Some(wanted) => Some(wanted as nat),
    }
}

/// A rate of `bits` bits per second in decimal form: one number in the largest unit of
/// which the rate holds at least one.
pub open spec fn decimal_text(bits: nat, system: System, precision: Option<nat>) -> Seq<char> {
    if bits == 0 {
        zero_text(system)
    } else {
        let amount = amount(bits, system);
        let level = display_level(amount, system);
        number_text(
            amount / unit_scale(system, level),
            fraction_of(amount, system, level),
            3 * level,
            precision,
        ) + unit_name(system, level)
    }
}

/// Writes one bucket: nothing where `value` is zero, else the value and `name`, after
/// a space where `started` tells that a bucket has been written before.
pub fn item(out: &mut String, started: &mut bool, name: &str, value: u64)
    ensures
        final(out)@ == old(out)@ + item_text(*old(started), value as nat, name@),
        *final(started) == (*old(started) || value > 0),
{
    if value > 0 {
        let ghost before = out@;
        if *started {
            out.append(" ");
        }
        push_digits(out, value);
        out.append(name);
        *started = true;
        assert(out@ =~= before + item_text(*old(started), value as nat, name@));
    } else {
        assert(out@ =~= out@ + Seq::<char>::empty());
    }
}

/// The name of the unit of `level`.
pub(crate) fn name_of(system: System, level: u8) -> (name: &'static str)
    ensures
        name@ == unit_name(system, level as nat),
{
    match system {
        System::Decimal => decimal_unit_name(level),
        System::Binary => binary_unit_name(level),
    }
}

/// [`unit_scale`] of the unit of `level`.
pub(crate) fn scale_of(system: System, level: u8) -> (scale: u64)
    requires
        level <= 4,
    ensures
        scale == unit_scale(system, level as nat),
        0 < scale <= 0x100_0000_0000,
{
    proof {
        lemma_scales();
    }
    match system {
        System::Decimal => if level == 0 {
            1
        } else if level == 1 {
            1_000
        } else if level == 2 {
            1_000_000
        } else if level == 3 {
            1_000_000_000
        } else {
            1_000_000_000_000
        },
        System::Binary => if level == 0 {
            1
        } else if level == 1 {
            0x400
        } else if level == 2 {
            0x10_0000
        } else if level == 3 {
            0x4000_0000
        } else {
            0x100_0000_0000
        },
    }
}

/// How many whole units of `level` the amount holds.
pub(crate) fn units_in(amount: u128, system: System, level: u8) -> (count: u128)
    requires
        level <= 4,
    ensures
        count == amount as nat / unit_scale(system, level as nat),
        level == 4 ==> count <= amount / 1_000_000_000_000,
{
    proof {
        lemma_scales();
    }
    match system {
        System::Decimal => {
            if level == 0 {
                assert(unit_scale(system, level as nat) == 1);
                amount
            } else if level == 1 {
                assert(unit_scale(system, level as nat) == 1_000);
                amount / 1_000
            } else if level == 2 {
                assert(unit_scale(system, level as nat) == 1_000_000);
                amount / 1_000_000
            } else if level == 3 {
                assert(unit_scale(system, level as nat) == 1_000_000_000);
                amount / 1_000_000_000
            } else {
                assert(unit_scale(system, level as nat) == 1_000_000_000_000);
                amount / 1_000_000_000_000
            }
        },
        System::Binary => {
            if level == 0 {
                assert(unit_scale(system, level as nat) == 1);
                amount
            } else if level == 1 {
                assert(unit_scale(system, level as nat) == 0x400);
                amount / 0x400
            } else if level == 2 {
                assert(unit_scale(system, level as nat) == 0x10_0000);
                amount / 0x10_0000
            } else if level == 3 {
                assert(unit_scale(system, level as nat) == 0x4000_0000);
                amount / 0x4000_0000
            } else {
                assert(unit_scale(system, level as nat) == 0x100_0000_0000);
                amount / 0x100_0000_0000
            }
        },
    }
}

/// [`bucket`] of the unit of `level`.
pub(crate) fn bucket_of(amount: u128, system: System, level: u8) -> (value: u64)
    requires
        level <= 4,
        amount < 0x8000_0000_0000_0000_0000_0000,
    ensures
        value == bucket(amount as nat, system, level as nat),
{
    let count = units_in(amount, system, level);
    if level == 4 {
        count as u64
    } else {
        match system {
            System::Decimal => (count % 1000) as u64,
            System::Binary => (count % 1024) as u64,
        }
    }
}

/// Writes `amount` base units of `system` in whole numbers, bucket by bucket.
pub(crate) fn write_buckets(amount: u128, system: System) -> (text: String)
    requires
        amount < 0x8000_0000_0000_0000_0000_0000,
    ensures
        text@ == buckets_text(amount as nat, system, 4, false),
{
    let mut text = String::new();
    let mut started = false;
    let mut level: u8 = 4;
    proof {
        assert(text@ + buckets_text(amount as nat, system, 4, false) =~= buckets_text(
            amount as nat,
            system,
            4,
            false,
        ));
    }
    loop
        invariant_except_break
            level <= 4,
            amount < 0x8000_0000_0000_0000_0000_0000,
            text@ + buckets_text(amount as nat, system, level as nat, started) == buckets_text(
                amount as nat,
                system,
                4,
                false,
            ),
        ensures
            text@ == buckets_text(amount as nat, system, 4, false),
        decreases level,
    {
        let ghost before = text@;
        let ghost was = started;
        let value = bucket_of(amount, system, level);
        item(&mut text, &mut started, name_of(system, level), value);
        if level == 0 {
            assert(text@ =~= before + buckets_text(amount as nat, system, 0, was));
            break ;
        }
        proof {
            assert(before + (item_text(was, value as nat, unit_name(system, level as nat))
                + buckets_text(amount as nat, system, (level - 1) as nat, started)) =~= text@
                + buckets_text(amount as nat, system, (level - 1) as nat, started));
        }
        level = level - 1;
    }
    text
}

/// [`display_level`] of `amount`.
pub(crate) fn level_of(amount: u128, system: System) -> (level: u8)
    ensures
        level == display_level(amount as nat, system),
        level <= 4,
{
    proof {
        lemma_scales();
    }
    if amount >= scale_of(system, 4) as u128 {
        4
    } else if amount >= scale_of(system, 3) as u128 {
        3
    } else if amount >= scale_of(system, 2) as u128 {
        2
    } else if amount >= scale_of(system, 1) as u128 {
        1
    } else {
        0
    }
}

/// Writes a point and the last `places` digits of `value`.
fn push_point_digits(out: &mut String, value: u64, places: u32)
    ensures
        final(out)@ == old(out)@ + point_digits(value as nat, places as nat),
{
    let ghost before = out@;
    if places > 0 {
        out.append(".");
        push_fixed_digits(out, value, places);
        assert(out@ =~= before + point_digits(value as nat, places as nat));
    } else {
        assert(out@ =~= before + Seq::<char>::empty());
    }
}

/// The number `whole` and `rest` behind the point, where `rest` has `places` digits,
/// rounded to `wanted` places: the whole part and the places that are left.
///
/// The digits behind the point are rounded under the last digit of the whole part, which
/// settles a tie where no place is left.
pub(crate) fn round_number(whole: u64, rest: u64, places: u32, wanted: u32) -> (rounded: (
    u64,
    u64,
))
    requires
        wanted < places <= 12,
        whole <= 0x1000_0000_0000_0000,
        rest <= 0x100_0000_0000,
    ensures
        rounded.0 == round_half_even(
            whole as nat * pow10(places as nat) + rest as nat,
            pow10((places - wanted) as nat),
        ) / pow10(wanted as nat),
        rounded.1 == round_half_even(
            whole as nat * pow10(places as nat) + rest as nat,
            pow10((places - wanted) as nat),
        ) % pow10(wanted as nat),
{
    proof {
        lemma_pow10_values();
        lemma_pow10_monotonic(wanted as nat, 12);
        lemma_pow10_monotonic(places as nat, 12);
        lemma_pow10_positive(wanted as nat);
        lemma_pow10_positive((places - wanted) as nat);
    }
    let odd = whole % 2;
    let even = whole - odd;
    let scale = pow10_u64(places);
    let per = pow10_u64(wanted);
    let low = if odd == 1 {
        scale + rest
    } else {
        rest
    };
    let kept = round_digits(low, places - wanted);
    proof {
        let unit = pow10((places - wanted) as nat);
        assert(low == odd * scale + rest) by (nonlinear_arith)
            requires
                low == if odd == 1 {
                    scale + rest
                } else {
                    rest as int
                },
                odd == 0 || odd == 1,
        ;
        assert(kept / per <= kept) by (nonlinear_arith)
            requires
                per >= 1,
        ;
        lemma_pow10_add(wanted as nat, (places - wanted) as nat);
        assert(whole as nat * scale as nat + rest as nat == even as nat * (per as nat * unit)
            + low as nat) by (nonlinear_arith)
            requires
                whole == even + odd,
                scale == per * unit,
                low == odd * scale + rest,
        ;
        lemma_round_above_even(even as nat, low as nat, unit, per as nat);
        lemma_split_units(even as nat, kept as nat, per as nat);
    }
    (even + kept / per, kept % per)
}

/// Writes the number `whole` and `rest` behind the point, where `rest` has `places`
/// digits, with the `precision` asked for.
pub(crate) fn push_number(
    out: &mut String,
    whole: u64,
    rest: u64,
    places: u32,
    precision: Option<usize>,
)
    requires
        places <= 12,
        whole <= 0x1000_0000_0000_0000,
        rest <= 0x100_0000_0000,
    ensures
        final(out)@ == old(out)@ + number_text(
            whole as nat,
            rest as nat,
            places as nat,
            places_of(precision),
        ),
{
    let ghost before = out@;
    match precision {
        None => {
            push_digits(out, whole);
            if rest != 0 {
                out.append(".");
                push_trimmed_digits(out, rest, places);
            }
        },
        Some(wanted) => {
            if wanted >= places as usize {
                push_digits(out, whole);
                push_point_digits(out, rest, places);
            } else {
                let (rounded, kept) = round_number(whole, rest, places, wanted as u32);
                push_digits(out, rounded);
                push_point_digits(out, kept, wanted as u32);
            }
        },
    }
    assert(out@ =~= before + number_text(
        whole as nat,
        rest as nat,
        places as nat,
        places_of(precision),
    ));
}

/// [`fraction_of`] the unit of `level`.
pub(crate) fn fraction_at(amount: u128, system: System, level: u8) -> (rest: u64)
    requires
        level <= 4,
    ensures
        rest == fraction_of(amount as nat, system, level as nat),
        rest <= 0x100_0000_0000,
{
    proof {
        lemma_scales();
    }
    let scale = scale_of(system, level) as u128;
    let below = amount % scale;
    match system {
        System::Decimal => below as u64,
        System::Binary => {
            let thousands = scale_of(System::Decimal, level) as u128;
            proof {
                assert(below * thousands < 0x100_0000_0000 * scale) by (nonlinear_arith)
                    requires
                        below < scale,
                        thousands <= 0x100_0000_0000,
                        0 < scale,
                ;
            }
            scale_quotient(below * thousands, scale, 1) as u64
        },
    }
}

/// Writes `amount` base units of `system` in decimal form, in the largest unit of which
/// it holds at least one.
pub(crate) fn write_decimal(amount: u128, system: System, precision: Option<usize>) -> (text:
    String)
    requires
        amount < 0x8000_0000_0000_0000_0000_0000,
    ensures
        text@ == number_text(
            amount as nat / unit_scale(system, display_level(amount as nat, system)),
            fraction_of(amount as nat, system, display_level(amount as nat, system)),
            3 * display_level(amount as nat, system),
            places_of(precision),
        ) + unit_name(system, display_level(amount as nat, system)),
{
    let level = level_of(amount, system);
    let count = units_in(amount, system, level);
    proof {
        lemma_scales();
        if level < 4 {
            assert(amount < unit_scale(system, (level + 1) as nat));
            assert(unit_scale(system, (level + 1) as nat) == base(system) * unit_scale(
                system,
                level as nat,
            ));
            assert(count < base(system)) by (nonlinear_arith)
                requires
                    count == amount as nat / unit_scale(system, level as nat),
                    amount < base(system) * unit_scale(system, level as nat),
                    unit_scale(system, level as nat) > 0,
            ;
        }
    }
    let whole = count as u64;
    let rest = fraction_at(amount, system, level);
    let mut text = String::new();
    push_number(&mut text, whole, rest, 3 * level as u32, precision);
    let ghost number = text@;
    text.append(name_of(system, level));
    proof {
        assert(number =~= number_text(
            whole as nat,
            rest as nat,
            3 * level as nat,
            places_of(precision),
        ));
    }
    text
}

} // verus!

