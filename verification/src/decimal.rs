//! Decimal digits: powers of ten, and a number written out in text.

use vstd::arithmetic::div_mod::lemma_div_denominator;
use vstd::prelude::*;
use vstd::string::*;

verus! {

/// Ten to the power `e`.
pub open spec fn pow10(e: nat) -> nat
    decreases e,
{
    if e == 0 {
        1
    } else {
        10 * pow10((e - 1) as nat)
    }
}

/// The character of the decimal digit `d`.
pub open spec fn digit_char(d: nat) -> char
    recommends
        d < 10,
{
    (48 + d) as char
}

/// The last `width` decimal digits of `n`, most significant first, with leading zeros.
pub open spec fn fixed_digits(n: nat, width: nat) -> Seq<char>
    decreases width,
{
    if width == 0 {
        Seq::empty()
    } else {
        fixed_digits(n / 10, (width - 1) as nat).push(digit_char(n % 10))
    }
}

/// How many decimal digits `n` has; zero has one.
pub open spec fn digit_count(n: nat) -> nat
    decreases n,
{
    if n < 10 {
        1
    } else {
        1 + digit_count(n / 10)
    }
}

/// `n` in decimal, without leading zeros.
pub open spec fn digits(n: nat) -> Seq<char> {
    fixed_digits(n, digit_count(n))
}

/// The last `width` decimal digits of `n` without the zeros at their end.
pub open spec fn trimmed_digits(n: nat, width: nat) -> Seq<char>
    decreases width,
{
    if width == 0 {
        Seq::empty()
    } else if n % 10 == 0 {
        trimmed_digits(n / 10, (width - 1) as nat)
    } else {
        fixed_digits(n, width)
    }
}

pub proof fn lemma_pow10_values()
    ensures
        pow10(0) == 1,
        pow10(1) == 10,
        pow10(2) == 100,
        pow10(3) == 1_000,
        pow10(4) == 10_000,
        pow10(5) == 100_000,
        pow10(6) == 1_000_000,
        pow10(7) == 10_000_000,
        pow10(8) == 100_000_000,
        pow10(9) == 1_000_000_000,
        pow10(10) == 10_000_000_000,
        pow10(11) == 100_000_000_000,
        pow10(12) == 1_000_000_000_000,
        pow10(13) == 10_000_000_000_000,
        pow10(14) == 100_000_000_000_000,
        pow10(15) == 1_000_000_000_000_000,
        pow10(16) == 10_000_000_000_000_000,
        pow10(17) == 100_000_000_000_000_000,
        pow10(18) == 1_000_000_000_000_000_000,
        pow10(19) == 10_000_000_000_000_000_000,
{
    reveal_with_fuel(pow10, 20);
}

pub proof fn lemma_pow10_positive(e: nat)
    ensures
        pow10(e) > 0,
    decreases e,
{
    if e > 0 {
        lemma_pow10_positive((e - 1) as nat);
    }
}

pub proof fn lemma_pow10_add(a: nat, b: nat)
    ensures
        pow10(a + b) == pow10(a) * pow10(b),
    decreases a,
{
    if a == 0 {
        assert(pow10(0) == 1);
        assert(1 * pow10(b) == pow10(b));
    } else {
        lemma_pow10_add((a - 1) as nat, b);
        let x = pow10((a - 1) as nat);
        let y = pow10(b);
        assert(pow10(a) == 10 * x);
        assert(pow10(a + b) == 10 * pow10(((a - 1) as nat) + b));
        assert((10 * x) * y == 10 * (x * y)) by (nonlinear_arith);
    }
}

pub proof fn lemma_pow10_monotonic(a: nat, b: nat)
    requires
        a <= b,
    ensures
        pow10(a) <= pow10(b),
    decreases b,
{
    if a < b {
        lemma_pow10_monotonic(a, (b - 1) as nat);
    }
}

/// Ten to the power `e`, for every power that fits.
pub fn pow10_u64(e: u32) -> (p: u64)
    requires
        e <= 19,
    ensures
        p == pow10(e as nat),
{
    let mut p: u64 = 1;
    let mut i: u32 = 0;
    proof {
        lemma_pow10_values();
    }
    while i < e
        invariant
            i <= e <= 19,
            p == pow10(i as nat),
        decreases e - i,
    {
        proof {
            lemma_pow10_monotonic((i + 1) as nat, 19);
            lemma_pow10_values();
        }
        p = p * 10;
        i = i + 1;
    }
    p
}

/// The text of one decimal digit.
fn digit_text(d: u64) -> (text: &'static str)
    requires
        d < 10,
    ensures
        text@ == seq![digit_char(d as nat)],
{
    proof {
        reveal_strlit("0");
        reveal_strlit("1");
        reveal_strlit("2");
        reveal_strlit("3");
        reveal_strlit("4");
        reveal_strlit("5");
        reveal_strlit("6");
        reveal_strlit("7");
        reveal_strlit("8");
        reveal_strlit("9");
    }
    let text = if d == 0 {
        "0"
    } else if d == 1 {
        "1"
    } else if d == 2 {
        "2"
    } else if d == 3 {
        "3"
    } else if d == 4 {
        "4"
    } else if d == 5 {
        "5"
    } else if d == 6 {
        "6"
    } else if d == 7 {
        "7"
    } else if d == 8 {
        "8"
    } else {
        "9"
    };
    assert(text@ =~= seq![digit_char(d as nat)]);
    text
}

/// `n` without its last `k` decimal digits.
pub open spec fn drop_digits(n: nat, k: nat) -> nat
    decreases k,
{
    if k == 0 {
        n
    } else {
        drop_digits(n, (k - 1) as nat) / 10
    }
}

pub proof fn lemma_drop_digits(n: nat, k: nat)
    ensures
        drop_digits(n, k) == n / pow10(k),
    decreases k,
{
    if k == 0 {
        assert(pow10(0) == 1);
    } else {
        lemma_drop_digits(n, (k - 1) as nat);
        lemma_pow10_positive((k - 1) as nat);
        lemma_div_denominator(n as int, pow10((k - 1) as nat) as int, 10);
    }
}

/// Appends the last `width` decimal digits of `n` to `out`.
pub fn push_fixed_digits(out: &mut String, n: u64, width: u32)
    ensures
        final(out)@ == old(out)@ + fixed_digits(n as nat, width as nat),
{
    let ghost before = out@;
    // The digits from the last one upwards.
    let mut low_first: Vec<u64> = Vec::new();
    let mut rest: u64 = n;
    let mut taken: u32 = 0;
    while taken < width
        invariant
            taken <= width,
            low_first@.len() == taken,
            rest == drop_digits(n as nat, taken as nat),
            forall|i: int|
                0 <= i < taken ==> #[trigger] low_first@[i] == drop_digits(n as nat, i as nat) % 10,
        decreases width - taken,
    {
        low_first.push(rest % 10);
        rest = rest / 10;
        taken = taken + 1;
    }
    let mut left: usize = low_first.len();
    proof {
        assert(out@ =~= before + fixed_digits(drop_digits(n as nat, left as nat), 0));
    }
    while left > 0
        invariant
            left <= width,
            low_first@.len() == width,
            forall|i: int|
                0 <= i < width ==> #[trigger] low_first@[i] == drop_digits(n as nat, i as nat) % 10,
            out@ == before + fixed_digits(
                drop_digits(n as nat, left as nat),
                (width - left) as nat,
            ),
        decreases left,
    {
        left = left - 1;
        proof {
            let kept = drop_digits(n as nat, left as nat);
            assert(drop_digits(n as nat, (left + 1) as nat) == kept / 10);
            assert(fixed_digits(kept, (width - left) as nat) == fixed_digits(
                kept / 10,
                (width - left - 1) as nat,
            ).push(digit_char(kept % 10)));
        }
        out.append(digit_text(low_first[left]));
        proof {
            let kept = drop_digits(n as nat, left as nat);
            assert(out@ =~= before + fixed_digits(kept, (width - left) as nat));
        }
    }
}

pub proof fn lemma_digit_count_bound(n: nat)
    requires
        n <= u64::MAX,
    ensures
        1 <= digit_count(n) <= 20,
{
    reveal_with_fuel(digit_count, 21);
}

/// How many decimal digits `n` has.
pub fn count_digits(n: u64) -> (count: u32)
    ensures
        count == digit_count(n as nat),
        1 <= count <= 20,
{
    let mut count: u32 = 1;
    let mut rest: u64 = n;
    proof {
        lemma_digit_count_bound(n as nat);
    }
    while rest >= 10
        invariant
            1 <= count,
            digit_count(n as nat) <= 20,
            digit_count(n as nat) == (count - 1) + digit_count(rest as nat),
        decreases rest,
    {
        proof {
            lemma_digit_count_bound((rest / 10) as nat);
        }
        rest = rest / 10;
        count = count + 1;
    }
    count
}

/// Appends `n` in decimal to `out`.
pub fn push_digits(out: &mut String, n: u64)
    ensures
        final(out)@ == old(out)@ + digits(n as nat),
{
    let width = count_digits(n);
    push_fixed_digits(out, n, width);
}

/// Appends to `out` the last `width` decimal digits of `n` without the zeros at their end.
pub fn push_trimmed_digits(out: &mut String, n: u64, width: u32)
    ensures
        final(out)@ == old(out)@ + trimmed_digits(n as nat, width as nat),
{
    let mut rest: u64 = n;
    let mut left: u32 = width;
    while left > 0 && rest % 10 == 0
        invariant
            left <= width,
            trimmed_digits(n as nat, width as nat) == trimmed_digits(rest as nat, left as nat),
        decreases left,
    {
        rest = rest / 10;
        left = left - 1;
    }
    push_fixed_digits(out, rest, left);
}

} // verus!

