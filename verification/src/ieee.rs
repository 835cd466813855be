//! Order and classification of IEEE 754 bit patterns.
//!
//! The encoding of a binary32 or binary64 value is monotone in its magnitude,
//! so every comparison a gate needs is a comparison of integers.

use vstd::prelude::*;

verus! {

/// The bit pattern of binary32 `1.0`.
pub const F32_ONE: u32 = 0x3f80_0000;

/// The bit pattern of the least finite binary32 value.
pub const F32_MIN: u32 = 0xff7f_ffff;

/// The bit pattern of binary64 `1.0`.
pub const F64_ONE: u64 = 0x3ff0_0000_0000_0000;

/// The bit pattern of binary64 `100.0`.
pub const F64_HUNDRED: u64 = 0x4059_0000_0000_0000;

/// The encoded magnitude of a binary32 pattern: everything but the sign.
pub open spec fn f32_magnitude(bits: u32) -> int {
    if bits >= 0x8000_0000 {
        bits - 0x8000_0000
    } else {
        bits as int
    }
}

/// Neither an infinity nor a NaN.
pub open spec fn f32_finite(bits: u32) -> bool {
    f32_magnitude(bits) < 0x7f80_0000
}

/// A NaN of either sign.
pub open spec fn f32_nan(bits: u32) -> bool {
    f32_magnitude(bits) > 0x7f80_0000
}

/// The numeric position of a pattern that is no NaN: both zeros are at 0.
pub open spec fn f32_rank(bits: u32) -> int {
    if bits >= 0x8000_0000 {
        -f32_magnitude(bits)
    } else {
        f32_magnitude(bits)
    }
}

/// `a < b` as binary32 comparison has it: false where either side is a NaN.
pub open spec fn f32_less(a: u32, b: u32) -> bool {
    !f32_nan(a) && !f32_nan(b) && f32_rank(a) < f32_rank(b)
}

/// `a <= b` as binary32 comparison has it: false where either side is a NaN.
pub open spec fn f32_at_most(a: u32, b: u32) -> bool {
    !f32_nan(a) && !f32_nan(b) && f32_rank(a) <= f32_rank(b)
}

/// A finite value above zero.
pub open spec fn f32_positive(bits: u32) -> bool {
    f32_finite(bits) && f32_less(0, bits)
}

/// The position of a pattern in the total order of all binary32 patterns:
/// `-NaN < -inf < .. < -0 < +0 < .. < +inf < +NaN`.
pub open spec fn f32_total_rank(bits: u32) -> int {
    if bits >= 0x8000_0000 {
        -f32_magnitude(bits) - 1
    } else {
        f32_magnitude(bits)
    }
}

/// The encoded magnitude of a binary64 pattern: everything but the sign.
pub open spec fn f64_magnitude(bits: u64) -> int {
    if bits >= 0x8000_0000_0000_0000 {
        bits - 0x8000_0000_0000_0000
    } else {
        bits as int
    }
}

/// Neither an infinity nor a NaN.
pub open spec fn f64_finite(bits: u64) -> bool {
    f64_magnitude(bits) < 0x7ff0_0000_0000_0000
}

/// A NaN of either sign.
pub open spec fn f64_nan(bits: u64) -> bool {
    f64_magnitude(bits) > 0x7ff0_0000_0000_0000
}

/// The numeric position of a pattern that is no NaN: both zeros are at 0.
pub open spec fn f64_rank(bits: u64) -> int {
    if bits >= 0x8000_0000_0000_0000 {
        -f64_magnitude(bits)
    } else {
        f64_magnitude(bits)
    }
}

/// `a < b` as binary64 comparison has it: false where either side is a NaN.
pub open spec fn f64_less(a: u64, b: u64) -> bool {
    !f64_nan(a) && !f64_nan(b) && f64_rank(a) < f64_rank(b)
}

/// `a <= b` as binary64 comparison has it: false where either side is a NaN.
pub open spec fn f64_at_most(a: u64, b: u64) -> bool {
    !f64_nan(a) && !f64_nan(b) && f64_rank(a) <= f64_rank(b)
}

fn f32_signed(bits: u32) -> (rank: i64)
    ensures
        rank == f32_rank(bits),
{
    if bits >= 0x8000_0000 {
        0i64 - (bits - 0x8000_0000) as i64
    } else {
        bits as i64
    }
}

fn f64_signed(bits: u64) -> (rank: i64)
    ensures
        rank == f64_rank(bits),
{
    if bits >= 0x8000_0000_0000_0000 {
        0i64 - (bits - 0x8000_0000_0000_0000) as i64
    } else {
        bits as i64
    }
}

/// Whether a binary32 pattern is neither infinite nor a NaN.
pub fn f32_is_finite(bits: u32) -> (finite: bool)
    ensures
        finite == f32_finite(bits),
{
    if bits >= 0x8000_0000 {
        bits < 0xff80_0000
    } else {
        bits < 0x7f80_0000
    }
}

/// Whether a binary32 pattern is finite and above zero.
pub fn f32_is_positive(bits: u32) -> (positive: bool)
    ensures
        positive == f32_positive(bits),
{
    0 < bits && bits < 0x7f80_0000
}

/// Whether a binary32 pattern is a NaN.
pub fn f32_is_nan(bits: u32) -> (nan: bool)
    ensures
        nan == f32_nan(bits),
{
    if bits >= 0x8000_0000 {
        bits > 0xff80_0000
    } else {
        bits > 0x7f80_0000
    }
}

/// Binary32 `a < b`.
pub fn f32_lt(a: u32, b: u32) -> (less: bool)
    ensures
        less == f32_less(a, b),
{
    !f32_is_nan(a) && !f32_is_nan(b) && f32_signed(a) < f32_signed(b)
}

/// Binary32 `a <= b`.
pub fn f32_le(a: u32, b: u32) -> (at_most: bool)
    ensures
        at_most == f32_at_most(a, b),
{
    !f32_is_nan(a) && !f32_is_nan(b) && f32_signed(a) <= f32_signed(b)
}

/// Whether `a` comes strictly before `b` in the total order.
pub fn f32_total_lt(a: u32, b: u32) -> (before: bool)
    ensures
        before == (f32_total_rank(a) < f32_total_rank(b)),
{
    let left: i64 = if a >= 0x8000_0000 {
        f32_signed(a) - 1
    } else {
        f32_signed(a)
    };
    let right: i64 = if b >= 0x8000_0000 {
        f32_signed(b) - 1
    } else {
        f32_signed(b)
    };
    left < right
}

/// Whether a binary64 pattern is neither infinite nor a NaN.
pub fn f64_is_finite(bits: u64) -> (finite: bool)
    ensures
        finite == f64_finite(bits),
{
    if bits >= 0x8000_0000_0000_0000 {
        bits < 0xfff0_0000_0000_0000
    } else {
        bits < 0x7ff0_0000_0000_0000
    }
}

/// Whether a binary64 pattern is a NaN.
pub fn f64_is_nan(bits: u64) -> (nan: bool)
    ensures
        nan == f64_nan(bits),
{
    if bits >= 0x8000_0000_0000_0000 {
        bits > 0xfff0_0000_0000_0000
    } else {
        bits > 0x7ff0_0000_0000_0000
    }
}

/// Binary64 `a < b`.
pub fn f64_lt(a: u64, b: u64) -> (less: bool)
    ensures
        less == f64_less(a, b),
{
    !f64_is_nan(a) && !f64_is_nan(b) && f64_signed(a) < f64_signed(b)
}

/// Binary64 `a <= b`.
pub fn f64_le(a: u64, b: u64) -> (at_most: bool)
    ensures
        at_most == f64_at_most(a, b),
{
    !f64_is_nan(a) && !f64_is_nan(b) && f64_signed(a) <= f64_signed(b)
}

/// Every binary32 pattern of a sequence is finite.
pub open spec fn f32_all_finite(values: Seq<u32>) -> bool {
    forall|i: int| 0 <= i < values.len() ==> f32_finite(#[trigger] values[i])
}

/// Every binary64 pattern of a sequence is finite.
pub open spec fn f64_all_finite(values: Seq<u64>) -> bool {
    forall|i: int| 0 <= i < values.len() ==> f64_finite(#[trigger] values[i])
}

/// Whether every binary32 pattern of a slice is finite.
pub fn f32s_are_finite(values: &[u32]) -> (finite: bool)
    ensures
        finite == f32_all_finite(values@),
{
    for i in 0..values.len()
        invariant
            forall|j: int| 0 <= j < i ==> f32_finite(#[trigger] values@[j]),
    {
        if !f32_is_finite(values[i]) {
            return false;
        }
    }
    true
}

/// Whether every binary64 pattern of a slice is finite.
pub fn f64s_are_finite(values: &[u64]) -> (finite: bool)
    ensures
        finite == f64_all_finite(values@),
{
    for i in 0..values.len()
        invariant
            forall|j: int| 0 <= j < i ==> f64_finite(#[trigger] values@[j]),
    {
        if !f64_is_finite(values[i]) {
            return false;
        }
    }
    true
}

/// The total order separates every two distinct patterns and agrees with the
/// numeric order wherever the latter is strict.
pub proof fn law_total_order(a: u32, b: u32)
    ensures
        f32_total_rank(a) == f32_total_rank(b) <==> a == b,
        f32_less(a, b) ==> f32_total_rank(a) < f32_total_rank(b),
{
}

/// Two to a power, for powers that are not negative.
pub open spec fn power_of_two(exponent: int) -> int
    decreases exponent,
{
    if exponent <= 0 {
        1
    } else {
        2 * power_of_two(exponent - 1)
    }
}

/// The number that a finite binary32 pattern stands for, in units of the least
/// positive one: the fraction of a subnormal pattern, or the fraction with its hidden
/// bit, doubled once for every step of the exponent beyond the first.
pub open spec fn f32_units(bits: u32) -> int {
    let magnitude = f32_magnitude(bits);
    let exponent = magnitude / 0x80_0000;
    let fraction = magnitude % 0x80_0000;
    let units = if exponent == 0 {
        fraction
    } else {
        (0x80_0000 + fraction) * power_of_two(exponent - 1)
    };
    if bits >= 0x8000_0000 {
        -units
    } else {
        units
    }
}

proof fn lemma_power_grows(few: int, many: int)
    requires
        0 <= few <= many,
    ensures
        1 <= power_of_two(few) <= power_of_two(many),
        few < many ==> 2 * power_of_two(few) <= power_of_two(many),
    decreases many,
{
    if few < many {
        lemma_power_grows(few, many - 1);
    } else if many > 0 {
        lemma_power_grows(many - 1, many - 1);
    }
}

/// The units of a magnitude.
spec fn units_of(magnitude: int) -> int {
    let exponent = magnitude / 0x80_0000;
    let fraction = magnitude % 0x80_0000;
    if exponent == 0 {
        fraction
    } else {
        (0x80_0000 + fraction) * power_of_two(exponent - 1)
    }
}

proof fn lemma_units_ascend(low: int, high: int)
    requires
        0 <= low < high,
    ensures
        0 <= units_of(low) < units_of(high),
{
    let a = low / 0x80_0000;
    let b = high / 0x80_0000;
    let f = low % 0x80_0000;
    let g = high % 0x80_0000;
    assert(a <= b);
    if b == 0 {
    } else if a == b {
        lemma_power_grows(a - 1, a - 1);
        let p = power_of_two(a - 1);
        assert((0x80_0000 + f) * p < (0x80_0000 + g) * p && 0 <= (0x80_0000 + f) * p)
            by (nonlinear_arith)
            requires
                0 <= f < g,
                p >= 1,
        ;
    } else {
        lemma_power_grows(b - 1, b - 1);
        let q = power_of_two(b - 1);
        assert((0x80_0000 + g) * q >= 0x80_0000 * q) by (nonlinear_arith)
            requires
                0 <= g,
                q >= 1,
        ;
        if a == 0 {
            assert(0x80_0000 * q >= 0x80_0000) by (nonlinear_arith)
                requires
                    q >= 1,
            ;
        } else {
            lemma_power_grows(a - 1, b - 1);
            let p = power_of_two(a - 1);
            assert((0x80_0000 + f) * p < 0x100_0000 * p && 0 <= (0x80_0000 + f) * p)
                by (nonlinear_arith)
                requires
                    0 <= f < 0x80_0000,
                    p >= 1,
            ;
            assert(0x100_0000 * p <= 0x80_0000 * q) by (nonlinear_arith)
                requires
                    2 * p <= q,
            ;
        }
    }
}

/// Comparing patterns is comparing the numbers that they stand for: one finite
/// pattern is below, or at most, another exactly where its number is, and a pattern
/// is positive exactly where its number is.
pub proof fn law_patterns_compare_as_numbers(a: u32, b: u32)
    requires
        f32_finite(a),
        f32_finite(b),
    ensures
        f32_less(a, b) <==> f32_units(a) < f32_units(b),
        f32_at_most(a, b) <==> f32_units(a) <= f32_units(b),
        f32_positive(a) <==> f32_units(a) > 0,
        f32_rank(a) < f32_rank(b) <==> f32_units(a) < f32_units(b),
{
    let x = f32_magnitude(a);
    let y = f32_magnitude(b);
    assert(f32_units(a) == if a >= 0x8000_0000 { -units_of(x) } else { units_of(x) });
    assert(f32_units(b) == if b >= 0x8000_0000 { -units_of(y) } else { units_of(y) });
    if x < y {
        lemma_units_ascend(x, y);
    }
    if y < x {
        lemma_units_ascend(y, x);
    }
    if x > 0 {
        lemma_units_ascend(0, x);
    }
    if y > 0 {
        lemma_units_ascend(0, y);
    }
    assert(units_of(0) == 0);
}

/// No comparison holds of a NaN, an infinity is beyond every finite pattern, and a
/// finite pattern is one whose exponent is not the greatest.
pub proof fn law_special_patterns(bits: u32, other: u32)
    ensures
        f32_nan(bits) ==> !f32_less(bits, other) && !f32_less(other, bits) && !f32_at_most(
            bits,
            other,
        ) && !f32_at_most(other, bits) && !f32_positive(bits),
        f32_finite(bits) ==> f32_less(bits, 0x7f80_0000) && f32_less(0xff80_0000, bits),
        f32_finite(bits) <==> (bits / 0x80_0000) % 0x100 != 0xff,
        f32_nan(bits) <==> (bits / 0x80_0000) % 0x100 == 0xff && bits % 0x80_0000 != 0,
{
}

/// The same of binary64 patterns: no comparison holds of a NaN, the sign reverses the
/// order, and among patterns without a sign the order is that of their bits.
pub proof fn law_long_patterns_compare(a: u64, b: u64)
    ensures
        f64_nan(a) <==> (a / 0x10_0000_0000_0000) % 0x800 == 0x7ff && a % 0x10_0000_0000_0000 != 0,
        f64_finite(a) <==> (a / 0x10_0000_0000_0000) % 0x800 != 0x7ff,
        f64_nan(a) || f64_nan(b) ==> !f64_less(a, b) && !f64_at_most(a, b),
        !f64_nan(a) && !f64_nan(b) && a < 0x8000_0000_0000_0000 && b < 0x8000_0000_0000_0000 ==> (
        f64_less(a, b) <==> a < b) && (f64_at_most(a, b) <==> a <= b),
        !f64_nan(a) && !f64_nan(b) && a >= 0x8000_0000_0000_0000 && b >= 0x8000_0000_0000_0000 ==> (
        f64_less(a, b) <==> b < a) && (f64_at_most(a, b) <==> b <= a),
        !f64_nan(a) && !f64_nan(b) && a > 0x8000_0000_0000_0000 && b < 0x8000_0000_0000_0000
            ==> f64_less(a, b) && f64_at_most(a, b) && !f64_at_most(b, a),
        f64_at_most(0x8000_0000_0000_0000, 0) && f64_at_most(0, 0x8000_0000_0000_0000),
{
}

} // verus!
