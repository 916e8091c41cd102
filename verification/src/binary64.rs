//! Quotients held to 53 significant bits, the precision of a binary64
//! floating-point number, computed in whole numbers.
//!
//! A share of a binary unit has no exact decimal form and a decimal fraction no
//! exact binary one. Both are converted through a quotient that is rounded to 53
//! significant bits, ties to the even significand, and then to the nearest whole
//! number, ties upwards.

use crate::rounding::{lemma_rounded_is_nearest, round_half_even};
use vstd::prelude::*;

verus! {

/// The significand and the power of two under it once `num` has been doubled, and
/// `power` with it, until `num / den` has 53 bits before the point.
pub open spec fn significand_from(num: nat, den: nat, power: nat) -> (nat, nat)
    decreases
        (if num < 0x10_0000_0000_0000 * den {
            0x10_0000_0000_0000 * den - num
        } else {
            0
        }),
{
    if num == 0 || num >= 0x10_0000_0000_0000 * den {
        (round_half_even(num, den), power)
    } else {
        significand_from(2 * num, den, 2 * power)
    }
}

/// `num / den` rounded to 53 significant bits: a significand `m` of at most
/// 2<sup>53</sup> and a power of two `d`, for the value `m / d`. A tie between two
/// significands goes to the even one.
pub open spec fn binary64_quotient(num: nat, den: nat) -> (nat, nat)
    recommends
        den > 0,
        num < 0x10_0000_0000_0000 * den,
{
    significand_from(num, den, 1)
}

/// `a / b` rounded to the nearest whole number, a tie upwards.
pub open spec fn round_half_up(a: nat, b: nat) -> nat
    recommends
        b > 0,
{
    (2 * a + b) / (2 * b)
}

/// `scale` times the quotient `num / den`, where the quotient is first rounded to 53
/// significant bits and the product then to the nearest whole number.
pub open spec fn scaled_quotient(num: nat, den: nat, scale: nat) -> nat {
    let (significand, power) = binary64_quotient(num, den);
    round_half_up(significand * scale, power)
}

/// [`binary64_quotient`] of `num / den`.
pub fn quotient_to_binary64(num: u128, den: u128) -> (parts: (u128, u128))
    requires
        0 < den <= 0x100_0000_0000,
        num < 0x10_0000_0000_0000 * den,
    ensures
        (parts.0 as nat, parts.1 as nat) == binary64_quotient(num as nat, den as nat),
        parts.0 <= 0x20_0000_0000_0000,
        0 < parts.1 <= 0x2000_0000_0000_0000_0000_0000,
        num < den ==> parts.0 <= parts.1,
        num < 0x100_0000_0000 * den ==> parts.0 <= 0x100_0000_0000 * parts.1,
{
    let mut scaled: u128 = num;
    let mut power: u128 = 1;
    // `den * power`, which `scaled` stays below where the quotient is below one.
    let ghost mut cap: nat = den as nat;
    // 2<sup>40</sup> times as much, for a quotient below that.
    let ghost mut wide_cap: nat = 0x100_0000_0000 * den as nat;
    while scaled != 0 && scaled < 0x10_0000_0000_0000 * den
        invariant
            0 < den <= 0x100_0000_0000,
            significand_from(num as nat, den as nat, 1) == significand_from(
                scaled as nat,
                den as nat,
                power as nat,
            ),
            scaled < 0x20_0000_0000_0000 * den,
            scaled == 0 || power <= scaled,
            scaled == 0 ==> power == 1,
            0 < power,
            cap == den * power,
            num < den ==> scaled < cap,
            wide_cap == 0x100_0000_0000 * cap,
            num < 0x100_0000_0000 * den ==> scaled < wide_cap,
        decreases
            (if scaled < 0x10_0000_0000_0000 * den {
                0x10_0000_0000_0000 * den - scaled
            } else {
                0
            }),
    {
        proof {
            assert(den * (2 * power) == 2 * (den * power)) by (nonlinear_arith);
        }
        scaled = 2 * scaled;
        power = 2 * power;
        proof {
            cap = 2 * cap;
            wide_cap = 2 * wide_cap;
        }
    }
    let whole = scaled / den;
    let rest = scaled % den;
    let significand = if 2 * rest > den || (2 * rest == den && whole % 2 == 1) {
        whole + 1
    } else {
        whole
    };
    proof {
        assert(whole < 0x20_0000_0000_0000) by (nonlinear_arith)
            requires
                whole == scaled / den,
                scaled < 0x20_0000_0000_0000 * den,
                den > 0,
        ;
        if num < den {
            assert(whole < power) by (nonlinear_arith)
                requires
                    whole == scaled / den,
                    scaled < den * power,
                    den > 0,
            ;
        }
        if num < 0x100_0000_0000 * den {
            let wide_power = 0x100_0000_0000 * power;
            assert(0x100_0000_0000 * (den * power) == den * wide_power) by (nonlinear_arith)
                requires
                    wide_power == 0x100_0000_0000 * power,
            ;
            assert(whole < wide_power) by (nonlinear_arith)
                requires
                    whole == scaled / den,
                    scaled < den * wide_power,
                    den > 0,
            ;
        }
    }
    (significand, power)
}

/// [`scaled_quotient`] of `num / den` and `scale`.
pub fn scale_quotient(num: u128, den: u128, scale: u64) -> (product: u128)
    requires
        0 < den <= 0x100_0000_0000,
        num < 0x10_0000_0000_0000 * den,
        scale <= 0x100_0000_0000,
    ensures
        product == scaled_quotient(num as nat, den as nat, scale as nat),
        product <= 0x2000_0000_0000_0000_0000_0000,
        num < den ==> product <= scale,
        num < 0x100_0000_0000 * den ==> product <= 0x100_0000_0000 * scale,
{
    let (significand, power) = quotient_to_binary64(num, den);
    let wide = scale as u128;
    proof {
        assert(significand * wide <= 0x2000_0000_0000_0000_0000_0000) by (nonlinear_arith)
            requires
                significand <= 0x20_0000_0000_0000,
                wide <= 0x100_0000_0000,
        ;
    }
    let product = (2 * (significand * wide) + power) / (2 * power);
    proof {
        let top = 2 * (significand * wide) + power;
        let wanted = significand * wide;
        assert(top / (2 * power) <= wanted) by (nonlinear_arith)
            requires
                top == 2 * wanted + power,
                power > 0,
                wanted >= 0,
        ;
        if num < den {
            assert(significand * wide <= power * wide) by (nonlinear_arith)
                requires
                    significand <= power,
                    wide >= 0,
            ;
            assert(top / (2 * power) <= wide) by (nonlinear_arith)
                requires
                    top <= 2 * (power * wide) + power,
                    power > 0,
            ;
        }
        if num < 0x100_0000_0000 * den {
            let most = 0x100_0000_0000 * wide;
            assert(significand * wide <= power * most) by (nonlinear_arith)
                requires
                    significand <= 0x100_0000_0000 * power,
                    most == 0x100_0000_0000 * wide,
                    wide >= 0,
            ;
            assert(top / (2 * power) <= most) by (nonlinear_arith)
                requires
                    top <= 2 * (power * most) + power,
                    power > 0,
            ;
        }
    }
    product
}

/// The significand is the quotient times the power of two, rounded: at most half more
/// than it. The power has not shrunk, and has doubled at least once for a quotient that
/// is not zero and has fewer than 53 bits before the point.
pub proof fn lemma_significand_from(num: nat, den: nat, power: nat)
    requires
        den > 0,
        power > 0,
    ensures
        2 * (significand_from(num, den, power).0 * den) * power <= 2 * (num * significand_from(
            num,
            den,
            power,
        ).1) + den * power,
        significand_from(num, den, power).1 >= power,
        0 < num < 0x10_0000_0000_0000 * den ==> significand_from(num, den, power).1 >= 2 * power,
    decreases
        (if num < 0x10_0000_0000_0000 * den {
            0x10_0000_0000_0000 * den - num
        } else {
            0
        }),
{
    let (significand, scale) = significand_from(num, den, power);
    if num == 0 || num >= 0x10_0000_0000_0000 * den {
        lemma_rounded_is_nearest(num, den);
        let gap = significand * den - num;
        assert(2 * (significand * den) * power <= 2 * (num * power) + den * power)
            by (nonlinear_arith)
            requires
                2 * gap <= den,
                gap == significand * den - num,
                power > 0,
        ;
    } else {
        lemma_significand_from(2 * num, den, 2 * power);
        assert(2 * (significand * den) * power <= 2 * (num * scale) + den * power)
            by (nonlinear_arith)
            requires
                2 * (significand * den) * (2 * power) <= 2 * ((2 * num) * scale) + den * (2
                    * power),
        ;
    }
}

} // verus!
