//! Rounding of exact fractions to whole numbers, with ties going to the
//! lower neighbour, and the saturating store of a whole number in a channel.

use vstd::prelude::*;
use vstd::arithmetic::div_mod::lemma_fundamental_div_mod;
use vstd::arithmetic::div_mod::lemma_mod_bound;
use vstd::arithmetic::div_mod::lemma_fundamental_div_mod_converse_div;

verus! {

/// The whole number nearest to the fraction `num / den`. A fraction that
/// lies exactly halfway between two whole numbers goes to the lower one.
pub open spec fn half_down(num: int, den: int) -> int
    recommends
        den > 0,
{
    (2 * num + den - 1) / (2 * den)
}

/// What an unsigned channel keeps of a whole number: the number itself where
/// it fits, zero for a negative one, the largest channel value for one that
/// is too large.
pub open spec fn saturate(x: int) -> int {
    if x < 0 {
        0
    } else if x > usize::MAX {
        usize::MAX as int
    } else {
        x
    }
}

/// `half_down(num, den)` lies within one half of `num / den`, and reaches
/// the upper end of that range only: it is `q` with
/// `q - 1/2 < num / den <= q + 1/2`.
pub proof fn lemma_half_down_is_nearest(num: int, den: int)
    requires
        den > 0,
    ensures
        (2 * half_down(num, den) - 1) * den < 2 * num,
        2 * num <= (2 * half_down(num, den) + 1) * den,
{
    let x: int = 2 * num + den - 1;
    let q: int = x / (2 * den);
    lemma_fundamental_div_mod(x, 2 * den);
    lemma_mod_bound(x, 2 * den);
    assert((2 * den) * q == 2 * (q * den)) by (nonlinear_arith);
    assert((2 * q - 1) * den == 2 * (q * den) - den) by (nonlinear_arith);
    assert((2 * q + 1) * den == 2 * (q * den) + den) by (nonlinear_arith);
}

/// Only one whole number lies that close to `num / den`: whatever `q`
/// satisfies `q - 1/2 < num / den <= q + 1/2` is `half_down(num, den)`.
pub proof fn lemma_half_down_is_unique(num: int, den: int, q: int)
    requires
        den > 0,
        (2 * q - 1) * den < 2 * num,
        2 * num <= (2 * q + 1) * den,
    ensures
        half_down(num, den) == q,
{
    let h: int = half_down(num, den);
    lemma_half_down_is_nearest(num, den);
    assert(h == q) by (nonlinear_arith)
        requires
            den > 0,
            (2 * q - 1) * den < 2 * num,
            2 * num <= (2 * q + 1) * den,
            (2 * h - 1) * den < 2 * num,
            2 * num <= (2 * h + 1) * den,
    ;
}

/// A fraction that is zero or negative rounds to a whole number that is
/// zero or negative, so a channel keeps zero of it.
pub proof fn lemma_half_down_of_nonpositive(num: int, den: int)
    requires
        den > 0,
        num <= 0,
    ensures
        half_down(num, den) <= 0,
        saturate(half_down(num, den)) == 0,
{
    lemma_half_down_is_nearest(num, den);
    let h: int = half_down(num, den);
    assert(h <= 0) by (nonlinear_arith)
        requires
            den > 0,
            num <= 0,
            (2 * h - 1) * den < 2 * num,
    ;
}

/// A fraction that is zero or positive rounds to a whole number that is
/// zero or positive.
pub proof fn lemma_half_down_of_nonnegative(num: int, den: int)
    requires
        den > 0,
        num >= 0,
    ensures
        half_down(num, den) >= 0,
{
    lemma_half_down_is_nearest(num, den);
    let h: int = half_down(num, den);
    assert(h >= 0) by (nonlinear_arith)
        requires
            den > 0,
            num >= 0,
            2 * num <= (2 * h + 1) * den,
    ;
}

/// A fraction that is at most the whole number `cap` rounds to at most `cap`.
pub proof fn lemma_half_down_at_most(num: int, den: int, cap: int)
    requires
        den > 0,
        num <= cap * den,
    ensures
        half_down(num, den) <= cap,
{
    lemma_half_down_is_nearest(num, den);
    let h: int = half_down(num, den);
    assert(h <= cap) by (nonlinear_arith)
        requires
            den > 0,
            num <= cap * den,
            (2 * h - 1) * den < 2 * num,
    ;
}

/// The larger of two fractions with one denominator rounds to the larger
/// whole number, or to the same.
pub proof fn lemma_half_down_is_monotonic(low: int, high: int, den: int)
    requires
        den > 0,
        low <= high,
    ensures
        half_down(low, den) <= half_down(high, den),
{
    lemma_half_down_is_nearest(low, den);
    lemma_half_down_is_nearest(high, den);
    let a: int = half_down(low, den);
    let b: int = half_down(high, den);
    assert(a <= b) by (nonlinear_arith)
        requires
            den > 0,
            low <= high,
            (2 * a - 1) * den < 2 * low,
            2 * high <= (2 * b + 1) * den,
    ;
}

/// Rounding splits over a whole part: with `num == whole * den + rest`,
/// the rounded fraction is `whole` plus the rounded `rest / den`.
pub proof fn lemma_half_down_split(num: int, den: int, whole: int, rest: int)
    requires
        den > 0,
        num == whole * den + rest,
    ensures
        half_down(num, den) == whole + half_down(rest, den),
{
    let t: int = half_down(rest, den);
    lemma_half_down_is_nearest(rest, den);
    assert((2 * (whole + t) - 1) * den == 2 * (whole * den) + (2 * t - 1) * den)
        by (nonlinear_arith);
    assert((2 * (whole + t) + 1) * den == 2 * (whole * den) + (2 * t + 1) * den)
        by (nonlinear_arith);
    lemma_half_down_is_unique(num, den, whole + t);
}

/// A whole number rounds to itself.
pub proof fn lemma_half_down_of_whole(whole: int, den: int)
    requires
        den > 0,
    ensures
        half_down(whole * den, den) == whole,
{
    assert((2 * whole - 1) * den < 2 * (whole * den) <= (2 * whole + 1) * den)
        by (nonlinear_arith)
        requires
            den > 0,
    ;
    lemma_half_down_is_unique(whole * den, den, whole);
}

/// A whole number and a half rounds to the whole number: the tie goes down.
pub proof fn lemma_half_down_of_tie(whole: int)
    ensures
        half_down(2 * whole + 1, 2) == whole,
{
    lemma_half_down_is_unique(2 * whole + 1, 2, whole);
}

/// Rounding looks at the fraction alone, not at how it is written:
/// `n * num / (n * den)` rounds as `num / den` does.
pub proof fn lemma_half_down_of_equal_fractions(num: int, den: int, n: int)
    requires
        den > 0,
        n > 0,
    ensures
        half_down(n * num, n * den) == half_down(num, den),
{
    let q: int = half_down(num, den);
    lemma_half_down_is_nearest(num, den);
    assert(n * den > 0) by (nonlinear_arith)
        requires
            den > 0,
            n > 0,
    ;
    assert((2 * q - 1) * (n * den) < 2 * (n * num)) by (nonlinear_arith)
        requires
            n > 0,
            (2 * q - 1) * den < 2 * num,
    ;
    assert(2 * (n * num) <= (2 * q + 1) * (n * den)) by (nonlinear_arith)
        requires
            n > 0,
            2 * num <= (2 * q + 1) * den,
    ;
    lemma_half_down_is_unique(n * num, n * den, q);
}

/// Rounds the fraction `num / den` of two machine integers.
pub(crate) fn round_ratio(num: u128, den: u128) -> (q: u128)
    requires
        0 < den,
        2 * num + 2 * den <= u128::MAX,
    ensures
        q == half_down(num as int, den as int),
{
    (2 * num + den - 1) / (2 * den)
}

/// The largest first factor that `round_product` takes: `2^72 - 1`.
pub(crate) const FACTOR_LIMIT: u128 = 0xff_ffff_ffff_ffff_ffff;

/// Rounds the fraction `a * b / d` and stores it in a channel. The product
/// itself may be far larger than any machine integer: the quotient is built
/// from the whole parts of `b / d` and of `a * (b % d) / d`.
pub(crate) fn round_product(a: u128, b: u128, d: u128) -> (r: usize)
    requires
        a <= FACTOR_LIMIT,
        0 < d <= u32::MAX,
    ensures
        r == saturate(half_down(a * b, d as int)),
{
    let b1: u128 = b / d;
    let b0: u128 = b % d;
    assert(a * b0 <= FACTOR_LIMIT * u32::MAX) by (nonlinear_arith)
        requires
            a <= FACTOR_LIMIT,
            b0 <= u32::MAX,
    ;
    let x: u128 = a * b0;
    let c1: u128 = x / d;
    let c0: u128 = x % d;
    let tail: u128 = (2 * c0 + d - 1) / (2 * d);
    proof {
        lemma_fundamental_div_mod(b as int, d as int);
        lemma_fundamental_div_mod(x as int, d as int);
        assert(a * b == (a * b1 + c1) * d + c0) by (nonlinear_arith)
            requires
                b == d * b1 + b0,
                a * b0 == d * c1 + c0,
        ;
        lemma_half_down_split(a * b, d as int, a * b1 + c1, c0 as int);
        assert(tail == half_down(c0 as int, d as int));
        lemma_half_down_is_nearest(c0 as int, d as int);
        assert(tail <= 1) by (nonlinear_arith)
            requires
                d > 0,
                c0 < d,
                (2 * tail - 1) * d < 2 * c0,
        ;
    }
    match a.checked_mul(b1) {
        None => usize::MAX,
        Some(whole) => {
            if whole > usize::MAX as u128 {
                usize::MAX
            } else {
                let q: u128 = whole + c1 + tail;
                if q > usize::MAX as u128 {
                    usize::MAX
                } else {
                    q as usize
                }
            }
        },
    }
}

/// Ten to the power `places`.
pub open spec fn pow10(places: nat) -> int
    decreases places,
{
    if places == 0 {
        1
    } else {
        10 * pow10((places - 1) as nat)
    }
}

/// The most decimal places that `round_half_down` takes.
pub const MAX_DECIMALS: u8 = 18;

/// A larger power of ten is a larger number.
proof fn lemma_pow10_grows(low: nat, high: nat)
    requires
        low <= high,
    ensures
        0 < pow10(low) <= pow10(high),
    decreases high,
{
    if high == 0 {
    } else if low == high {
        lemma_pow10_grows(0, (high - 1) as nat);
    } else {
        lemma_pow10_grows(low, (high - 1) as nat);
    }
}

/// The whole part of a negative fraction `-m / d`.
proof fn lemma_floor_of_negative(m: int, d: int)
    requires
        m > 0,
        d > 0,
    ensures
        (-m) / d == -((m - 1) / d) - 1,
{
    let k: int = (m - 1) / d;
    let r: int = (m - 1) % d;
    lemma_fundamental_div_mod(m - 1, d);
    lemma_mod_bound(m - 1, d);
    assert(-m == (-k - 1) * d + (d - 1 - r)) by (nonlinear_arith)
        requires
            m - 1 == d * k + r,
    ;
    lemma_fundamental_div_mod_converse_div(-m, d, -k - 1, d - 1 - r);
}

/// Rounds the fraction `num / den` to `decimals` decimal places, a tie
/// going to the lower neighbour, also below zero. The result counts units
/// of `10^-decimals`: with two decimals, 314 stands for 3.14. There is no
/// result for a denominator of zero, nor for more than `MAX_DECIMALS`
/// places.
pub fn round_half_down(num: i64, den: u32, decimals: u8) -> (rounded: Option<i128>)
    ensures
        rounded.is_some() <==> den > 0 && decimals <= MAX_DECIMALS,
        rounded.is_some() ==> rounded.unwrap() == half_down(
            num * pow10(decimals as nat),
            den as int,
        ),
{
    if den == 0 || decimals > MAX_DECIMALS {
        return None;
    }
    proof {
        reveal_with_fuel(pow10, 20);
        assert(pow10(18) == 1_000_000_000_000_000_000);
    }
    let mut unit: i128 = 1;
    let mut k: u8 = 0;
    while k < decimals
        invariant
            k <= decimals <= MAX_DECIMALS,
            unit == pow10(k as nat),
            pow10(18) == 1_000_000_000_000_000_000,
        decreases decimals - k,
    {
        proof {
            lemma_pow10_grows((k + 1) as nat, 18);
        }
        unit = unit * 10;
        k += 1;
    }
    proof {
        lemma_pow10_grows(decimals as nat, 18);
        assert(-0x8000_0000_0000_0000 * 1_000_000_000_000_000_000 <= num * unit
            <= 0x8000_0000_0000_0000 * 1_000_000_000_000_000_000) by (nonlinear_arith)
            requires
                -0x8000_0000_0000_0000 <= num <= 0x8000_0000_0000_0000,
                0 < unit <= 1_000_000_000_000_000_000,
        ;
    }
    let scaled: i128 = (num as i128) * unit;
    let top: i128 = 2 * scaled + (den as i128) - 1;
    let bottom: u128 = 2 * (den as u128);
    if top >= 0 {
        Some(((top as u128) / bottom) as i128)
    } else {
        proof {
            lemma_floor_of_negative(-top, bottom as int);
        }
        let below: u128 = ((-top) as u128 - 1) / bottom;
        Some(-(below as i128) - 1)
    }
}

} // verus!
