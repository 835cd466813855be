//! Correctly rounded ratios of counts.
//!
//! A gate that compares `inliers / matches` with a threshold divides two
//! integers in floating point: both are rounded to the format's precision, and
//! so is their quotient, each to the nearest representable value with ties to
//! the even one. Here that is integer arithmetic.

use vstd::prelude::*;

use vstd::arithmetic::power2::*;

use crate::ieee;

verus! {

/// Brings a positive fraction into `[1, 2)` by doublings: the returned
/// numerator, denominator and binary exponent give
/// `n / d == numerator / denominator * 2^exponent`.
pub open spec fn normalized(n: int, d: int) -> (int, int, int)
    decreases
            (if n < d {
                d - n
            } else if n >= 2 * d {
                n - d
            } else {
                0
            }),
{
    if n <= 0 || d <= 0 {
        (n, d, 0)
    } else if n < d {
        let (a, b, e) = normalized(2 * n, d);
        (a, b, e - 1)
    } else if n >= 2 * d {
        let (a, b, e) = normalized(n, 2 * d);
        (a, b, e + 1)
    } else {
        (n, d, 0)
    }
}

/// The integer nearest to a fraction; the even one where two are.
pub open spec fn nearest_even(n: int, d: int) -> int {
    let floor = n / d;
    let rest = 2 * (n % d);
    if rest < d || (rest == d && floor % 2 == 0) {
        floor
    } else {
        floor + 1
    }
}

/// A positive binary number: `mantissa * 2^exponent / one`, where `one` is the
/// weight of the leading mantissa bit.
#[derive(Debug, Clone, Copy, PartialEq, Eq, Structural)]
pub struct Rounded {
    pub mantissa: u64,
    pub exponent: i32,
}

/// `n / d` rounded to as many bits as `one` has.
pub open spec fn rounded(n: int, d: int, one: int) -> (int, int) {
    let (a, b, e) = normalized(n, d);
    (nearest_even(a * one, b), e)
}

/// `n / d` where both are first rounded to the precision themselves.
pub open spec fn rounded_quotient(n: int, d: int, one: int) -> (int, int) {
    let (top, top_exponent) = rounded(n, 1, one);
    let (bottom, bottom_exponent) = rounded(d, 1, one);
    let (mantissa, exponent) = rounded(top, bottom, one);
    (mantissa, exponent + top_exponent - bottom_exponent)
}

/// Weight of the leading bit of a binary32 mantissa.
pub const F32_UNIT: u64 = 0x80_0000;

/// Weight of the leading bit of a binary64 mantissa.
pub const F64_UNIT: u64 = 0x10_0000_0000_0000;

/// The binary32 pattern of `n / d`, as division of two converted counts gives
/// it.
pub open spec fn f32_quotient(n: int, d: int) -> u32 {
    let (mantissa, exponent) = rounded_quotient(n, d, F32_UNIT as int);
    if n == 0 {
        0
    } else {
        ((exponent + 127) * F32_UNIT + (mantissa - F32_UNIT)) as u32
    }
}

/// What [`normalized`] returns lies in `[1, 2)`.
pub proof fn lemma_normalized(n: int, d: int)
    requires
        n > 0,
        d > 0,
    ensures
        ({
            let (a, b, e) = normalized(n, d);
            &&& 0 < b <= a < 2 * b
            &&& a >= n
            &&& b >= d
            &&& a < 2 * d || a == n
            &&& b <= n || b == d
        }),
    decreases
            (if n < d {
                d - n
            } else if n >= 2 * d {
                n - d
            } else {
                0
            }),
{
    if n < d {
        lemma_normalized(2 * n, d);
    } else if n >= 2 * d {
        lemma_normalized(n, 2 * d);
    }
}

proof fn lemma_exponent_at_least(n: int, d: int, steps: nat)
    requires
        n > 0,
        d > 0,
        n * pow2(steps) >= d,
    ensures
        normalized(n, d).2 >= -steps,
    decreases
            steps,
            (if n >= 2 * d {
                n - d
            } else {
                0
            }),
{
    if n < d {
        if steps == 0 {
            lemma2_to64();
            assert(n * 1 == n);
        } else {
            let fewer = (steps - 1) as nat;
            lemma_pow2_unfold(steps);
            assert(2 * n * pow2(fewer) == n * pow2(steps)) by (nonlinear_arith)
                requires
                    pow2(steps) == 2 * pow2(fewer),
            ;
            lemma_exponent_at_least(2 * n, d, fewer);
        }
    } else if n >= 2 * d {
        lemma_pow2_pos(steps);
        assert(n * pow2(steps) >= n) by (nonlinear_arith)
            requires
                n > 0,
                pow2(steps) >= 1,
        ;
        lemma_exponent_at_least(n, 2 * d, steps);
    }
}

proof fn lemma_exponent_at_most(n: int, d: int, steps: nat)
    requires
        n > 0,
        d > 0,
        n < 2 * d * pow2(steps),
    ensures
        normalized(n, d).2 <= steps,
    decreases
            steps,
            (if n < d {
                d - n
            } else {
                0
            }),
{
    if n < d {
        lemma_pow2_pos(steps);
        assert(2 * n < 2 * d * pow2(steps)) by (nonlinear_arith)
            requires
                n < d,
                d > 0,
                pow2(steps) >= 1,
        ;
        lemma_exponent_at_most(2 * n, d, steps);
    } else if n >= 2 * d {
        if steps == 0 {
            lemma2_to64();
            assert(2 * d * 1 == 2 * d);
        } else {
            let fewer = (steps - 1) as nat;
            lemma_pow2_unfold(steps);
            assert(2 * (2 * d) * pow2(fewer) == 2 * d * pow2(steps)) by (nonlinear_arith)
                requires
                    pow2(steps) == 2 * pow2(fewer),
            ;
            lemma_exponent_at_most(n, 2 * d, fewer);
        }
    }
}

/// The rounded mantissa of a fraction has its leading bit at `one`, or is the
/// next power of two.
proof fn lemma_mantissa(a: int, b: int, one: int)
    requires
        0 < b <= a < 2 * b,
        one > 0,
    ensures
        one <= nearest_even(a * one, b) <= 2 * one,
{
    let floor = a * one / b;
    assert(one <= floor < 2 * one && 0 <= (a * one) % b < b) by (nonlinear_arith)
        requires
            floor == a * one / b,
            0 < b <= a < 2 * b,
            one > 0,
    ;
}

/// Rounds a fraction of two positive 64-bit numbers.
fn round_fraction(n: u64, d: u64, one: u64) -> (result: Rounded)
    requires
        n > 0,
        d > 0,
        0 < one <= F64_UNIT,
    ensures
        rounded(n as int, d as int, one as int) == (result.mantissa as int, result.exponent as int),
        one <= result.mantissa <= 2 * one,
        -64 <= result.exponent <= 64,
{
    proof {
        lemma2_to64();
        assert(pow2(64) == 0x1_0000_0000_0000_0000);
        assert(n * pow2(64) >= d) by (nonlinear_arith)
            requires
                n >= 1,
                d < 0x1_0000_0000_0000_0000,
                pow2(64) == 0x1_0000_0000_0000_0000,
        ;
        assert(n < 2 * d * pow2(64)) by (nonlinear_arith)
            requires
                d >= 1,
                n < 0x1_0000_0000_0000_0000,
                pow2(64) == 0x1_0000_0000_0000_0000,
        ;
        lemma_exponent_at_least(n as int, d as int, 64);
        lemma_exponent_at_most(n as int, d as int, 64);
        lemma_normalized(n as int, d as int);
    }
    let ghost goal = normalized(n as int, d as int);
    let mut a: u128 = n as u128;
    let mut b: u128 = d as u128;
    let mut exponent: i32 = 0;
    while a < b
        invariant
            0 < a < 0x2_0000_0000_0000_0000,
            0 < b < 0x1_0000_0000_0000_0000,
            goal == normalized(n as int, d as int),
            ({
                let (x, y, e) = normalized(a as int, b as int);
                goal == (x, y, e + exponent)
            }),
            -64 <= exponent <= 0,
            goal.2 >= -64,
        decreases
                (if a < b {
                    b - a
                } else {
                    0
                }),
    {
        proof {
            lemma_not_positive(a as int, b as int);
        }
        a = a * 2;
        exponent = exponent - 1;
    }
    while a >= 2 * b
        invariant
            0 < b <= a < 0x2_0000_0000_0000_0000,
            goal == normalized(n as int, d as int),
            ({
                let (x, y, e) = normalized(a as int, b as int);
                goal == (x, y, e + exponent)
            }),
            -64 <= exponent,
            goal.2 <= 64,
        decreases a - b,
    {
        proof {
            lemma_not_negative(a as int, 2 * b as int);
        }
        b = b * 2;
        exponent = exponent + 1;
    }
    proof {
        lemma_mantissa(a as int, b as int, one as int);
        assert(a * one < 0x2_0000_0000_0000_0000 * 0x10_0000_0000_0001) by (nonlinear_arith)
            requires
                a < 0x2_0000_0000_0000_0000,
                one <= 0x10_0000_0000_0000,
        ;
    }
    let scaled: u128 = a * one as u128;
    let floor: u128 = scaled / b;
    let rest: u128 = 2 * (scaled % b);
    let mantissa: u128 = if rest < b || (rest == b && floor % 2 == 0) {
        floor
    } else {
        floor + 1
    };
    Rounded { mantissa: mantissa as u64, exponent }
}

proof fn lemma_not_positive(n: int, d: int)
    requires
        0 < n < d,
    ensures
        normalized(n, d).2 < 0,
    decreases d - n,
{
    reveal_with_fuel(normalized, 2);
    if 2 * n < d {
        lemma_not_positive(2 * n, d);
    }
}

proof fn lemma_not_negative(n: int, d: int)
    requires
        0 < d <= n,
    ensures
        normalized(n, d).2 >= 0,
    decreases n - d,
{
    if n >= 2 * d {
        lemma_not_negative(n, 2 * d);
    }
}

/// Divides two positive counts at a precision.
fn divide_counts(n: u64, d: u64, one: u64) -> (result: Rounded)
    requires
        n > 0,
        d > 0,
        0 < one <= F64_UNIT,
    ensures
        rounded_quotient(n as int, d as int, one as int) == (
            result.mantissa as int,
            result.exponent as int,
        ),
        one <= result.mantissa <= 2 * one,
        -66 <= result.exponent <= 66,
{
    let top: Rounded = round_fraction(n, 1, one);
    let bottom: Rounded = round_fraction(d, 1, one);
    let quotient: Rounded = round_fraction(top.mantissa, bottom.mantissa, one);
    proof {
        lemma2_to64();
        lemma_not_negative(n as int, 1);
        lemma_not_negative(d as int, 1);
        lemma_exponent_at_least(top.mantissa as int, bottom.mantissa as int, 2);
        lemma_exponent_at_most(top.mantissa as int, bottom.mantissa as int, 2);
    }
    Rounded {
        mantissa: quotient.mantissa,
        exponent: quotient.exponent + top.exponent - bottom.exponent,
    }
}

/// The binary32 quotient of two counts.
pub fn f32_ratio(n: usize, d: usize) -> (bits: u32)
    requires
        d > 0,
    ensures
        bits == f32_quotient(n as int, d as int),
        ieee::f32_finite(bits),
        bits < 0x8000_0000,
{
    if n == 0 {
        return 0;
    }
    let quotient: Rounded = divide_counts(n as u64, d as u64, F32_UNIT);
    let biased: u64 = (quotient.exponent + 127) as u64;
    (biased * F32_UNIT + (quotient.mantissa - F32_UNIT)) as u32
}

/// The part of 2^64 that a binary64 quotient of two counts stands for, rounded
/// down; the full range where the quotient is one.
pub open spec fn share_of_range(n: int, d: int) -> int {
    let (mantissa, exponent) = rounded_quotient(n, d, F64_UNIT as int);
    if n == 0 {
        0
    } else if exponent >= -12 {
        let share = mantissa * pow2((exponent + 12) as nat);
        if share > u64::MAX {
            u64::MAX as int
        } else {
            share
        }
    } else {
        mantissa / pow2((-12 - exponent) as nat) as int
    }
}

/// Computes [`share_of_range`].
pub fn range_share(n: usize, d: usize) -> (share: u64)
    requires
        d > 0,
    ensures
        share == share_of_range(n as int, d as int),
{
    if n == 0 {
        return 0;
    }
    let quotient: Rounded = divide_counts(n as u64, d as u64, F64_UNIT);
    let mut value: u64 = quotient.mantissa;
    let ghost mantissa = quotient.mantissa as int;
    let ghost exponent = quotient.exponent as int;
    if quotient.exponent >= -12 {
        let mut left: i32 = quotient.exponent + 12;
        proof {
            lemma2_to64();
            assert(mantissa * 1 == mantissa);
        }
        while left > 0
            invariant
                n > 0,
                rounded_quotient(n as int, d as int, F64_UNIT as int) == (mantissa, exponent),
                0 <= left <= exponent + 12,
                mantissa >= 1,
                value == mantissa * pow2((exponent + 12 - left) as nat),
            decreases left,
        {
            let ghost done = (exponent + 12 - left) as nat;
            proof {
                lemma_pow2_unfold(done + 1);
                assert(mantissa * pow2(done + 1) == 2 * (mantissa * pow2(done)))
                    by (nonlinear_arith)
                    requires
                        pow2(done + 1) == 2 * pow2(done),
                ;
            }
            if value > 0x7fff_ffff_ffff_ffff {
                proof {
                    let all = (exponent + 12) as nat;
                    if done + 1 < all {
                        lemma_pow2_strictly_increases(done + 1, all);
                    }
                    assert(mantissa * pow2(done + 1) <= mantissa * pow2(all)) by (nonlinear_arith)
                        requires
                            pow2(done + 1) <= pow2(all),
                            mantissa >= 1,
                    ;
                }
                return u64::MAX;
            }
            value = value * 2;
            left = left - 1;
        }
        value
    } else {
        let mut left: i32 = -12 - quotient.exponent;
        proof {
            lemma2_to64();
            assert(mantissa / 1 == mantissa);
        }
        while left > 0
            invariant
                0 <= left <= -12 - exponent,
                mantissa >= 1,
                value == mantissa / (pow2((-12 - exponent - left) as nat) as int),
            decreases left,
        {
            proof {
                let done = (-12 - exponent - left) as nat;
                lemma_pow2_unfold(done + 1);
                lemma_pow2_pos(done);
                assert(pow2(done + 1) == pow2(done) * 2) by (nonlinear_arith)
                    requires
                        pow2(done + 1) == 2 * pow2(done),
                ;
                vstd::arithmetic::div_mod::lemma_div_denominator(mantissa, pow2(done) as int, 2);
            }
            value = value / 2;
            left = left - 1;
        }
        value
    }
}

/// Bringing a fraction into `[1, 2)` keeps what it stands for.
pub proof fn law_doublings_keep_the_fraction(n: int, d: int)
    requires
        n > 0,
        d > 0,
    ensures
        ({
            let (a, b, e) = normalized(n, d);
            &&& 0 < b <= a < 2 * b
            &&& e >= 0 ==> a * d * pow2(e as nat) == n * b
            &&& e < 0 ==> a * d == n * b * pow2((-e) as nat)
        }),
    decreases
            (if n < d {
                d - n
            } else if n >= 2 * d {
                n - d
            } else {
                0
            }),
{
    lemma2_to64();
    lemma_normalized(n, d);
    if n < d {
        law_doublings_keep_the_fraction(2 * n, d);
        lemma_not_positive(n, d);
        let (a, b, e) = normalized(2 * n, d);
        lemma_pow2_unfold((1 - e) as nat);
        let p = pow2((-e) as nat) as int;
        if e == 0 {
            assert(a * d == (2 * n) * b * p) by (nonlinear_arith)
                requires
                    a * d * p == (2 * n) * b,
                    p == 1,
            ;
        }
        assert(a * d == n * b * (2 * p)) by (nonlinear_arith)
            requires
                a * d == (2 * n) * b * p,
        ;
    } else if n >= 2 * d {
        law_doublings_keep_the_fraction(n, 2 * d);
        lemma_not_negative(n, 2 * d);
        let (a, b, e) = normalized(n, 2 * d);
        lemma_pow2_unfold((e + 1) as nat);
        let p = pow2(e as nat) as int;
        assert(a * d * (2 * p) == n * b) by (nonlinear_arith)
            requires
                a * (2 * d) * p == n * b,
        ;
    } else {
        assert(n * d * 1 == n * d) by (nonlinear_arith);
    }
}

/// Rounding goes to the nearest integer, and half way between two to the even one.
pub proof fn law_rounding_is_to_nearest_even(n: int, d: int)
    requires
        0 <= n,
        0 < d,
    ensures
        -d <= 2 * (nearest_even(n, d) * d - n) <= d,
        2 * (nearest_even(n, d) * d - n) == d || 2 * (nearest_even(n, d) * d - n) == -d
            ==> nearest_even(n, d) % 2 == 0,
{
    let floor = n / d;
    let rest = n % d;
    assert(n == floor * d + rest && 0 <= rest < d) by (nonlinear_arith)
        requires
            d > 0,
            floor == n / d,
            rest == n % d,
    ;
    assert((floor + 1) * d == floor * d + d) by (nonlinear_arith);
}

/// `m * 2^e / one` is what `n / d` is at a precision: its leading bit stands at `one`, or
/// it is the next power of two, it is off by at most half a unit, and by half a unit only
/// where it is even.
pub open spec fn is_nearest(n: int, d: int, one: int, m: int, e: int) -> bool {
    let (a, b) = if e >= 0 {
        (n, d * pow2(e as nat))
    } else {
        (n * pow2((-e) as nat), d)
    };
    &&& one <= m <= 2 * one
    &&& b <= a < 2 * b
    &&& -b <= 2 * (m * b - a * one) <= b
    &&& 2 * (m * b - a * one) == b || 2 * (m * b - a * one) == -b ==> m % 2 == 0
}

/// A fraction is rounded correctly.
pub proof fn law_fractions_are_rounded_correctly(n: int, d: int, one: int)
    requires
        n > 0,
        d > 0,
        one > 0,
    ensures
        is_nearest(n, d, one, rounded(n, d, one).0, rounded(n, d, one).1),
{
    let (x, y, e) = normalized(n, d);
    let m = nearest_even(x * one, y);
    law_doublings_keep_the_fraction(n, d);
    lemma_mantissa(x, y, one);
    assert(x * one >= 0) by (nonlinear_arith)
        requires
            x > 0,
            one > 0,
    ;
    law_rounding_is_to_nearest_even(x * one, y);
    let (a, b) = if e >= 0 {
        (n, d * pow2(e as nat))
    } else {
        (n * pow2((-e) as nat), d)
    };
    if e >= 0 {
        lemma_pow2_pos(e as nat);
        let p = pow2(e as nat) as int;
        assert(x * b == a * y) by (nonlinear_arith)
            requires
                x * d * p == n * y,
                b == d * p,
                a == n,
        ;
        assert(b > 0) by (nonlinear_arith)
            requires
                b == d * p,
                d > 0,
                p > 0,
        ;
    } else {
        lemma_pow2_pos((-e) as nat);
        let p = pow2((-e) as nat) as int;
        assert(x * b == a * y) by (nonlinear_arith)
            requires
                x * d == n * y * p,
                b == d,
                a == n * p,
        ;
    }
    lemma_same_fraction(x, y, a, b, one, m);
}

proof fn lemma_same_fraction(x: int, y: int, a: int, b: int, one: int, m: int)
    requires
        0 < y <= x < 2 * y,
        b > 0,
        one > 0,
        x * b == a * y,
        -y <= 2 * (m * y - x * one) <= y,
        2 * (m * y - x * one) == y || 2 * (m * y - x * one) == -y ==> m % 2 == 0,
    ensures
        b <= a < 2 * b,
        -b <= 2 * (m * b - a * one) <= b,
        2 * (m * b - a * one) == b || 2 * (m * b - a * one) == -b ==> m % 2 == 0,
{
    let near = 2 * (m * y - x * one);
    let far = 2 * (m * b - a * one);
    assert(b <= a < 2 * b) by (nonlinear_arith)
        requires
            0 < y <= x < 2 * y,
            b > 0,
            x * b == a * y,
    ;
    assert(near * b == far * y) by {
        assert(near * b == 2 * (m * y * b) - 2 * (x * b * one)) by (nonlinear_arith)
            requires
                near == 2 * (m * y - x * one),
        ;
        assert(far * y == 2 * (m * y * b) - 2 * (a * y * one)) by (nonlinear_arith)
            requires
                far == 2 * (m * b - a * one),
        ;
    }
    assert(-b <= far <= b && (far == b ==> near == y) && (far == -b ==> near == -y))
        by (nonlinear_arith)
        requires
            near * b == far * y,
            -y <= near <= y,
            y > 0,
            b > 0,
    ;
}

/// A quotient of counts is rounded three times: each count to the precision, and then the
/// quotient of the two.
pub proof fn law_quotients_are_rounded_three_times(n: int, d: int, one: int)
    requires
        n > 0,
        d > 0,
        one > 0,
    ensures
        exists|top: (int, int), bottom: (int, int), quotient: (int, int)|
            {
                &&& #[trigger] is_nearest(n, 1, one, top.0, top.1)
                &&& #[trigger] is_nearest(d, 1, one, bottom.0, bottom.1)
                &&& #[trigger] is_nearest(top.0, bottom.0, one, quotient.0, quotient.1)
                &&& rounded_quotient(n, d, one).0 == quotient.0
                &&& rounded_quotient(n, d, one).1 == quotient.1 + top.1 - bottom.1
            },
{
    let top = rounded(n, 1, one);
    let bottom = rounded(d, 1, one);
    law_fractions_are_rounded_correctly(n, 1, one);
    law_fractions_are_rounded_correctly(d, 1, one);
    law_fractions_are_rounded_correctly(top.0, bottom.0, one);
    let quotient = rounded(top.0, bottom.0, one);
    assert(is_nearest(n, 1, one, top.0, top.1));
    assert(is_nearest(d, 1, one, bottom.0, bottom.1));
    assert(is_nearest(top.0, bottom.0, one, quotient.0, quotient.1));
}

/// The pattern of a quotient holds its rounded value: the exponent in its upper part, off
/// by 127, and the bits behind the leading one in its lower part. A quotient that was
/// rounded up to the next power of two has the next exponent and no bits.
pub proof fn law_quotient_pattern_holds_the_value(n: int, d: int)
    requires
        0 <= n <= u64::MAX,
        0 < d <= u64::MAX,
    ensures
        n == 0 ==> f32_quotient(n, d) == 0,
        n > 0 ==> {
            let (mantissa, exponent) = rounded_quotient(n, d, 0x80_0000);
            let fraction = f32_quotient(n, d) % 0x80_0000;
            let biased = f32_quotient(n, d) / 0x80_0000;
            &&& 1 <= biased <= 254
            &&& mantissa < 0x100_0000 ==> fraction == mantissa - 0x80_0000 && biased == exponent
                + 127
            &&& mantissa == 0x100_0000 ==> fraction == 0 && biased == exponent + 128
            &&& 0x80_0000 <= mantissa <= 0x100_0000
        },
{
    if n > 0 {
        lemma_quotient_bounds(n, d, 0x80_0000);
        let (mantissa, exponent) = rounded_quotient(n, d, 0x80_0000);
        let whole = (exponent + 127) * 0x80_0000 + (mantissa - 0x80_0000);
        assert(0 <= whole < 0x1_0000_0000);
        assert(f32_quotient(n, d) == whole);
    }
}

proof fn lemma_quotient_bounds(n: int, d: int, one: int)
    requires
        0 < n <= u64::MAX,
        0 < d <= u64::MAX,
        0 < one,
    ensures
        one <= rounded_quotient(n, d, one).0 <= 2 * one,
        -66 <= rounded_quotient(n, d, one).1 <= 66,
{
    lemma2_to64();
    let top = rounded(n, 1, one);
    let bottom = rounded(d, 1, one);
    law_fractions_are_rounded_correctly(n, 1, one);
    law_fractions_are_rounded_correctly(d, 1, one);
    law_fractions_are_rounded_correctly(top.0, bottom.0, one);
    assert(n < 2 * 1 * pow2(64) && d < 2 * 1 * pow2(64));
    lemma_exponent_at_most(n, 1, 64);
    lemma_exponent_at_most(d, 1, 64);
    lemma_not_negative(n, 1);
    lemma_not_negative(d, 1);
    lemma_exponent_at_least(top.0, bottom.0, 2);
    lemma_exponent_at_most(top.0, bottom.0, 2);
}

/// A share of the range is the largest integer no more than two to the 64 times the
/// quotient, or the full range where that is beyond it.
pub proof fn law_share_is_rounded_down(n: int, d: int)
    requires
        0 <= n <= u64::MAX,
        0 < d <= u64::MAX,
    ensures
        n == 0 ==> share_of_range(n, d) == 0,
        n > 0 ==> {
            let (mantissa, exponent) = rounded_quotient(n, d, 0x10_0000_0000_0000);
            let share = share_of_range(n, d);
            &&& 0 <= share <= u64::MAX
            &&& exponent >= -12 ==> share == mantissa * pow2((exponent + 12) as nat) || (share
                == u64::MAX && share < mantissa * pow2((exponent + 12) as nat))
            &&& exponent < -12 ==> share * pow2((-12 - exponent) as nat) <= mantissa < (share + 1)
                * pow2((-12 - exponent) as nat)
        },
{
    if n > 0 {
        lemma_quotient_bounds(n, d, 0x10_0000_0000_0000);
        let (mantissa, exponent) = rounded_quotient(n, d, 0x10_0000_0000_0000);
        if exponent >= -12 {
            lemma_pow2_pos((exponent + 12) as nat);
            let p = pow2((exponent + 12) as nat) as int;
            assert(mantissa * p >= 0) by (nonlinear_arith)
                requires
                    mantissa >= 0,
                    p > 0,
            ;
        } else {
            lemma_pow2_pos((-12 - exponent) as nat);
            let p = pow2((-12 - exponent) as nat) as int;
            let share = mantissa / p;
            assert(0 <= share <= mantissa && share * p <= mantissa < (share + 1) * p)
                by (nonlinear_arith)
                requires
                    mantissa >= 0,
                    p > 0,
                    share == mantissa / p,
            ;
        }
    }
}

} // verus!
