//! Rounding to fewer decimal digits, one digit at a time, with ties going to
//! the even neighbour.

use crate::decimal::pow10;
use vstd::arithmetic::div_mod::lemma_fundamental_div_mod_converse;
use vstd::prelude::*;

verus! {

/// `value / unit` rounded to the nearest whole number; of two equally near ones, the even one.
pub open spec fn round_half_even(value: nat, unit: nat) -> nat
    recommends
        unit > 0,
{
    let whole = value / unit;
    let rest = value % unit;
    if 2 * rest > unit || (2 * rest == unit && whole % 2 == 1) {
        whole + 1
    } else {
        whole
    }
}

/// How the digits kept so far compare with the value that is being rounded.
#[derive(Clone, Copy, Debug, PartialEq, Eq, Structural)]
pub enum Direction {
    /// Nothing but zeros has been discarded: the digits kept are the exact value.
    Exact,
    /// The digits kept are below the value.
    Down,
    /// The digits kept are above the value.
    Up,
}

/// What discarding the last digit of `kept` leaves, and how that compares with the value.
///
/// A digit from 1 to 4 is dropped and one from 6 to 9 carries one into the rest. A 5 is
/// settled by what went before: after an exact value it is a tie and the rest is made even;
/// a value that lies above the digits kept is rounded up, one that lies below them is not.
pub open spec fn discard_step(kept: nat, dir: Direction) -> (nat, Direction) {
    let loss = kept % 10;
    let rest = kept / 10;
    if loss == 0 {
        (rest, dir)
    } else if loss < 5 {
        (rest, Direction::Down)
    } else if loss > 5 {
        (rest + 1, Direction::Up)
    } else {
        match dir {
            Direction::Exact => if rest % 2 == 1 {
                (rest + 1, Direction::Up)
            } else {
                (rest, Direction::Down)
            },
            Direction::Down => (rest + 1, Direction::Up),
            Direction::Up => (rest, Direction::Down),
        }
    }
}

/// The outcome of `count` steps of [`discard_step`] that start from the exact `value`.
pub open spec fn discard_digits(value: nat, count: nat) -> (nat, Direction)
    decreases count,
{
    if count == 0 {
        (value, Direction::Exact)
    } else {
        let before = discard_digits(value, (count - 1) as nat);
        discard_step(before.0, before.1)
    }
}

/// `kept` whole units are a nearest count of units to `value`, an even count on a tie,
/// and `dir` tells on which side of `value` they lie.
pub open spec fn nearest(value: nat, unit: nat, kept: nat, dir: Direction) -> bool {
    let gap = kept * unit - value;
    &&& unit > 0
    &&& -unit <= 2 * gap <= unit
    &&& (2 * gap == unit || 2 * gap == -unit) ==> kept % 2 == 0
    &&& dir == if gap == 0 {
        Direction::Exact
    } else if gap < 0 {
        Direction::Down
    } else {
        Direction::Up
    }
}

proof fn lemma_nearest_step(value: nat, unit: nat, kept: nat, dir: Direction)
    requires
        nearest(value, unit, kept, dir),
    ensures
        nearest(value, 10 * unit, discard_step(kept, dir).0, discard_step(kept, dir).1),
{
    let loss = kept % 10;
    let rest = kept / 10;
    let gap = kept * unit - value;
    let next = discard_step(kept, dir).0;
    let next_gap = next * (10 * unit) - value;
    assert(kept == 10 * rest + loss);
    if next == rest {
        assert(rest * (10 * unit) == (10 * rest + loss) * unit - loss * unit)
            by (nonlinear_arith);
        assert(next_gap == gap - loss * unit);
    } else {
        assert((rest + 1) * (10 * unit) == (10 * rest + loss) * unit + (10 - loss) * unit)
            by (nonlinear_arith);
        assert(next_gap == gap + (10 - loss) * unit);
    }
    let lost = loss * unit;
    assert({
        &&& loss == 0 ==> lost == 0
        &&& 1 <= loss ==> unit <= lost
        &&& loss <= 4 ==> lost <= 4 * unit
        &&& loss == 5 ==> lost == 5 * unit
        &&& 6 <= loss ==> 6 * unit <= lost
        &&& lost <= 9 * unit
    }) by (nonlinear_arith)
        requires
            lost == loss * unit,
            0 <= loss < 10,
            unit > 0,
    ;
    assert((10 - loss) * unit == 10 * unit - loss * unit) by (nonlinear_arith);
}

proof fn lemma_nearest_is_rounded(value: nat, unit: nat, kept: nat, dir: Direction)
    requires
        nearest(value, unit, kept, dir),
    ensures
        kept == round_half_even(value, unit),
{
    let whole = value / unit;
    let rest = value % unit;
    let gap = kept * unit - value;
    assert(value == whole * unit + rest && 0 <= rest < unit) by (nonlinear_arith)
        requires
            whole == value / unit,
            rest == value % unit,
            unit > 0,
    ;
    assert(kept * unit - whole * unit == (kept - whole) * unit) by (nonlinear_arith);
    let diff = kept - whole;
    assert(diff * unit == gap + rest);
    assert(diff == 0 || diff == 1) by (nonlinear_arith)
        requires
            diff * unit == gap + rest,
            -unit <= 2 * gap <= unit,
            0 <= rest < unit,
            unit > 0,
    ;
    if diff == 0 {
        assert(gap == -rest);
    } else {
        assert(1 * unit == unit);
        assert(gap == unit - rest);
    }
}

/// Discarding digits one at a time gives what rounding in one go gives: the nearest
/// multiple of the power of ten, and on a tie the even one.
pub proof fn lemma_discard_digits_rounds(value: nat, count: nat)
    ensures
        discard_digits(value, count).0 == round_half_even(value, pow10(count)),
        nearest(value, pow10(count), discard_digits(value, count).0, discard_digits(value, count).1),
    decreases count,
{
    if count == 0 {
        assert(pow10(0) == 1);
        assert(value * 1 - value == 0);
    } else {
        lemma_discard_digits_rounds(value, (count - 1) as nat);
        let before = discard_digits(value, (count - 1) as nat);
        lemma_nearest_step(value, pow10((count - 1) as nat), before.0, before.1);
    }
    let after = discard_digits(value, count);
    lemma_nearest_is_rounded(value, pow10(count), after.0, after.1);
}

/// The rounded value is a nearest one: it lies within half a unit of the value.
pub proof fn lemma_rounded_is_nearest(value: nat, unit: nat)
    requires
        unit > 0,
    ensures
        -unit <= 2 * (round_half_even(value, unit) * unit - value) <= unit,
{
    let whole = value / unit;
    let rest = value % unit;
    assert(value == whole * unit + rest && 0 <= rest < unit) by (nonlinear_arith)
        requires
            whole == value / unit,
            rest == value % unit,
            unit > 0,
    ;
    assert((whole + 1) * unit == whole * unit + unit) by (nonlinear_arith);
}

/// A whole number of `per * unit` each that is even can be set aside while the rest is
/// rounded to units: it comes back as that many times `per` units.
pub proof fn lemma_round_above_even(high: nat, low: nat, unit: nat, per: nat)
    requires
        unit > 0,
        per > 0,
        high % 2 == 0,
    ensures
        round_half_even(high * (per * unit) + low, unit) == high * per + round_half_even(low, unit),
{
    let whole = low / unit;
    let rest = low % unit;
    let all = high * (per * unit) + low;
    assert(low == whole * unit + rest && 0 <= rest < unit) by (nonlinear_arith)
        requires
            whole == low / unit,
            rest == low % unit,
            unit > 0,
    ;
    assert(all == (high * per + whole) * unit + rest) by (nonlinear_arith)
        requires
            all == high * (per * unit) + low,
            low == whole * unit + rest,
    ;
    lemma_fundamental_div_mod_converse(all as int, unit as int, (high * per + whole) as int, rest as int);
    let half = high / 2;
    assert(high * per == 2 * (half * per)) by (nonlinear_arith)
        requires
            high == 2 * half,
    ;
}

/// A number of `per` each and less than `per` more splits into the two again.
pub proof fn lemma_split_units(high: nat, low: nat, per: nat)
    requires
        per > 0,
    ensures
        (high * per + low) / per == high + low / per,
        (high * per + low) % per == low % per,
{
    let whole = low / per;
    let rest = low % per;
    assert(low == whole * per + rest && 0 <= rest < per) by (nonlinear_arith)
        requires
            whole == low / per,
            rest == low % per,
            per > 0,
    ;
    assert(high * per + low == (high + whole) * per + rest) by (nonlinear_arith)
        requires
            low == whole * per + rest,
    ;
    lemma_fundamental_div_mod_converse(
        (high * per + low) as int,
        per as int,
        (high + whole) as int,
        rest as int,
    );
}

/// Discards the last digit of `kept`.
pub fn discard_digit(kept: u64, dir: Direction) -> (next: (u64, Direction))
    ensures
        (next.0 as nat, next.1) == discard_step(kept as nat, dir),
{
    let loss = kept % 10;
    let rest = kept / 10;
    if loss == 0 {
        (rest, dir)
    } else if loss < 5 {
        (rest, Direction::Down)
    } else if loss > 5 {
        (rest + 1, Direction::Up)
    } else {
        match dir {
            Direction::Exact => if rest % 2 == 1 {
                (rest + 1, Direction::Up)
            } else {
                (rest, Direction::Down)
            },
            Direction::Down => (rest + 1, Direction::Up),
            Direction::Up => (rest, Direction::Down),
        }
    }
}

/// `value` without its last `count` decimal digits, rounded to nearest, ties to even.
pub fn round_digits(value: u64, count: u32) -> (kept: u64)
    ensures
        kept == round_half_even(value as nat, pow10(count as nat)),
        kept == discard_digits(value as nat, count as nat).0,
        kept <= value,
{
    let mut kept = value;
    let mut dir = Direction::Exact;
    let mut done: u32 = 0;
    while done < count
        invariant
            done <= count,
            kept <= value,
            (kept as nat, dir) == discard_digits(value as nat, done as nat),
        decreases count - done,
    {
        let next = discard_digit(kept, dir);
        kept = next.0;
        dir = next.1;
        done = done + 1;
    }
    proof {
        lemma_discard_digits_rounds(value as nat, count as nat);
    }
    kept
}

} // verus!
