//! Arithmetic of double-precision numbers held as bit patterns, and their total order.
//!
//! Every finite double is a whole multiple of the smallest positive one, so that sums, products and
//! quotients are exact in whole numbers and only their rounding is left: to the nearest double,
//! ties to the even pattern.

use vstd::arithmetic::power2::{lemma_pow2_adds, lemma_pow2_pos, lemma_pow2_unfold, pow2};
use vstd::prelude::*;

use crate::numbers::{double_is_number, single_is_number, DOUBLE_INFINITY, SINGLE_INFINITY};
use crate::shard::{
    lemma_nearest_even, lemma_nearest_even_is, lemma_nearest_even_ordered, lemma_quotient_bound,
    nearest_even, power_of_two, round_half_even,
};

verus! {

/// The magnitude of a finite double, in units of the smallest positive one.
pub open spec fn magnitude(x: u64) -> nat {
    let body = x % 0x8000_0000_0000_0000;
    let exponent = (body / 0x10_0000_0000_0000) as nat;
    let fraction = (body % 0x10_0000_0000_0000) as nat;
    if exponent == 0 {
        fraction
    } else {
        (0x10_0000_0000_0000 + fraction) * pow2((exponent - 1) as nat)
    }
}

/// The value of a finite double, in units of the smallest positive one.
pub open spec fn units(x: u64) -> int {
    if x < 0x8000_0000_0000_0000 {
        magnitude(x) as int
    } else {
        -(magnitude(x) as int)
    }
}

/// The pattern of the double nearest to `m / unit` units, counted from `level` on, without regard
/// to the largest double: doubles lie the farther apart the larger they are.
pub open spec fn rounded(m: nat, unit: nat, level: nat) -> nat
    decreases (if m < 0x20_0000_0000_0000 * unit { 0 } else { m - unit }),
{
    if unit == 0 || m < 0x20_0000_0000_0000 * unit {
        level * 0x10_0000_0000_0000 + nearest_even(m, unit)
    } else {
        rounded(m, 2 * unit, level + 1)
    }
}

/// The double nearest to `num / den` units: infinity for what is out of range.
pub open spec fn nearest_ratio(num: nat, den: nat) -> u64 {
    if rounded(num, den, 0) < DOUBLE_INFINITY {
        rounded(num, den, 0) as u64
    } else {
        DOUBLE_INFINITY
    }
}

/// The double nearest to `m` units.
pub open spec fn nearest_double(m: nat) -> u64 {
    nearest_ratio(m, 1)
}

/// The one pattern that this module gives out for what is not a number.
pub const NOT_A_NUMBER: u64 = 0x7ff8_0000_0000_0000;

/// A double without its sign.
pub open spec fn body(x: u64) -> u64 {
    x % 0x8000_0000_0000_0000
}

/// Whether a double has a negative sign.
pub open spec fn is_negative(x: u64) -> bool {
    x >= 0x8000_0000_0000_0000
}

/// Whether a double is infinite.
pub open spec fn is_infinite(x: u64) -> bool {
    body(x) == DOUBLE_INFINITY
}

/// Whether a double is zero.
pub open spec fn is_zero(x: u64) -> bool {
    body(x) == 0
}

/// A double of this sign and size.
pub open spec fn with_sign(negative: bool, size: u64) -> u64 {
    if negative {
        (0x8000_0000_0000_0000 + size) as u64
    } else {
        size
    }
}

/// The double nearest to a value in units: a zero is positive.
pub open spec fn nearest_signed(value: int) -> u64 {
    if value >= 0 {
        nearest_double(value as nat)
    } else {
        with_sign(true, nearest_double((-value) as nat))
    }
}

/// The sum of two doubles.
pub open spec fn sum_of(x: u64, y: u64) -> u64 {
    if !double_is_number(x) || !double_is_number(y) || (is_infinite(x) && is_infinite(y) && x
        != y) {
        NOT_A_NUMBER
    } else if is_infinite(x) {
        x
    } else if is_infinite(y) {
        y
    } else if is_zero(x) && is_zero(y) {
        with_sign(is_negative(x) && is_negative(y), 0)
    } else {
        nearest_signed(units(x) + units(y))
    }
}

/// The product of two doubles.
pub open spec fn product_of(x: u64, y: u64) -> u64 {
    let negative = is_negative(x) != is_negative(y);
    if !double_is_number(x) || !double_is_number(y) || (is_infinite(x) && is_zero(y)) || (is_zero(x)
        && is_infinite(y)) {
        NOT_A_NUMBER
    } else if is_infinite(x) || is_infinite(y) {
        with_sign(negative, DOUBLE_INFINITY)
    } else {
        with_sign(negative, nearest_ratio(magnitude(x) * magnitude(y), pow2(1074)))
    }
}

/// The quotient of two doubles.
pub open spec fn quotient_of(x: u64, y: u64) -> u64 {
    let negative = is_negative(x) != is_negative(y);
    if !double_is_number(x) || !double_is_number(y) || (is_infinite(x) && is_infinite(y)) || (
    is_zero(x) && is_zero(y)) {
        NOT_A_NUMBER
    } else if is_infinite(x) || is_zero(y) {
        with_sign(negative, DOUBLE_INFINITY)
    } else if is_infinite(y) {
        with_sign(negative, 0)
    } else {
        with_sign(negative, nearest_ratio(magnitude(x) * pow2(1074), magnitude(y)))
    }
}

/// The double nearest to a whole number.
pub open spec fn whole_of(n: nat) -> u64 {
    nearest_double(n * pow2(1074))
}

/// A double rounded to a whole number, halves away from zero.
pub open spec fn rounded_away(x: u64) -> u64 {
    if !double_is_number(x) || is_infinite(x) {
        x
    } else {
        with_sign(
            is_negative(x),
            whole_of((2 * magnitude(x) + pow2(1074)) / (2 * pow2(1074))),
        )
    }
}

/// The magnitude of a single, in units of the smallest positive one.
pub open spec fn single_magnitude(x: u32) -> nat {
    let body = x % 0x8000_0000;
    let exponent = (body / 0x80_0000) as nat;
    let fraction = (body % 0x80_0000) as nat;
    if exponent == 0 {
        fraction
    } else {
        (0x80_0000 + fraction) * pow2((exponent - 1) as nat)
    }
}

/// The double of the same value as a single.
pub open spec fn widened(x: u32) -> u64 {
    if !single_is_number(x) {
        NOT_A_NUMBER
    } else if x % 0x8000_0000 == SINGLE_INFINITY {
        with_sign(x >= 0x8000_0000, DOUBLE_INFINITY)
    } else {
        with_sign(x >= 0x8000_0000, nearest_double(single_magnitude(x) * pow2(925)))
    }
}

/// The largest whole number whose square is at most `m`.
pub open spec fn whole_root(m: nat) -> nat
    decreases m,
{
    if m == 0 {
        0
    } else {
        let r = whole_root((m - 1) as nat);
        if (r + 1) * (r + 1) <= m {
            r + 1
        } else {
            r
        }
    }
}

/// The double nearest to the root of `m` units squared.
pub open spec fn nearest_root(m: nat) -> u64 {
    let r = whole_root(m);
    let rest: nat = if r * r == m {
        0
    } else {
        1
    };
    nearest_ratio(2 * r + rest, 2)
}

/// The square root of a double.
pub open spec fn root_of(x: u64) -> u64 {
    if is_zero(x) || x == DOUBLE_INFINITY {
        x
    } else if !double_is_number(x) || is_negative(x) {
        NOT_A_NUMBER
    } else {
        nearest_root(magnitude(x) * pow2(1074))
    }
}

/// A double with the other sign.
pub open spec fn negated(x: u64) -> u64 {
    if is_negative(x) {
        (x - 0x8000_0000_0000_0000) as u64
    } else {
        (x + 0x8000_0000_0000_0000) as u64
    }
}

/// A double's place in the total order of all doubles, where negative zero comes before zero.
pub open spec fn total_place(x: u64) -> int {
    if x < 0x8000_0000_0000_0000 {
        x as int
    } else {
        -1 - (x - 0x8000_0000_0000_0000)
    }
}

/// Whether the double `x` comes before the double `y` in the total order of doubles.
pub fn precedes(x: u64, y: u64) -> (less: bool)
    ensures
        less == (total_place(x) < total_place(y)),
{
    let x_negative: bool = x >= 0x8000_0000_0000_0000;
    let y_negative: bool = y >= 0x8000_0000_0000_0000;
    if x_negative && y_negative {
        x > y
    } else if x_negative {
        true
    } else if y_negative {
        false
    } else {
        x < y
    }
}

pub proof fn lemma_pow2_split(a: nat, b: nat)
    requires
        a <= b,
    ensures
        pow2(b) == pow2(a) * pow2((b - a) as nat),
        pow2(a) > 0,
        pow2((b - a) as nat) > 0,
        pow2(a) <= pow2(b),
{
    lemma_pow2_adds(a, (b - a) as nat);
    lemma_pow2_pos(a);
    lemma_pow2_pos((b - a) as nat);
    assert(pow2(a) <= pow2(a) * pow2((b - a) as nat)) by (nonlinear_arith)
        requires
            pow2((b - a) as nat) >= 1,
            pow2(a) >= 0,
    ;
}

/// Rounding starts at the level that fits.
proof fn lemma_level(m: nat, from: nat, s: nat)
    requires
        from <= s,
        s > from ==> m >= 0x10_0000_0000_0000 * pow2(s),
    ensures
        rounded(m, pow2(from), from) == rounded(m, pow2(s), s),
    decreases s - from,
{
    if from < s {
        lemma_pow2_split(from + 1, s);
        lemma_pow2_unfold(from + 1);
        lemma_pow2_pos(from);
        assert(m >= 0x20_0000_0000_0000 * pow2(from));
        if from + 1 < s {
            lemma_level(m, from + 1, s);
        }
    }
}

pub proof fn lemma_scaled(a: nat, b: nat, c: nat)
    requires
        b > 0,
        c > 0,
    ensures
        nearest_even(a * c, b * c) == nearest_even(a, b),
{
    assert(b * c > 0) by (nonlinear_arith)
        requires
            b > 0,
            c > 0,
    ;
    assert((a * c) * b == a * (b * c)) by (nonlinear_arith);
    lemma_nearest_even_ordered(a * c, b * c, a, b);
    lemma_nearest_even_ordered(a, b, a * c, b * c);
}

/// The significand and the exponent of the magnitude of a finite double.
fn parts(x: u64) -> (out: (u64, u32))
    requires
        x % 0x8000_0000_0000_0000 < DOUBLE_INFINITY,
    ensures
        magnitude(x) == out.0 * pow2(out.1 as nat),
        out.0 < 0x20_0000_0000_0000,
        out.1 <= 2045,
        out.1 > 0 ==> out.0 >= 0x10_0000_0000_0000,
        out.1 * 0x10_0000_0000_0000 + out.0 == x % 0x8000_0000_0000_0000,
{
    let body: u64 = x % 0x8000_0000_0000_0000;
    let exponent: u64 = body / 0x10_0000_0000_0000;
    let fraction: u64 = body % 0x10_0000_0000_0000;
    proof {
        vstd::arithmetic::power2::lemma2_to64();
    }
    if exponent == 0 {
        assert(fraction * pow2(0) == fraction) by (nonlinear_arith)
            requires
                pow2(0) == 1,
        ;
        (fraction, 0)
    } else {
        (0x10_0000_0000_0000 + fraction, (exponent - 1) as u32)
    }
}

/// The double nearest to `t * 2^s` units.
fn round_units(t: u128, s: u32) -> (out: u64)
    requires
        t < 0x40_0000_0000_0000_0000_0000_0000_0000,
        s <= 2045,
        s > 0 ==> t >= 0x10_0000_0000_0000,
    ensures
        out == nearest_double(t as nat * pow2(s as nat)),
{
    let ghost unit0 = pow2(s as nat);
    let ghost m = t as nat * unit0;
    proof {
        lemma_pow2_pos(s as nat);
        vstd::arithmetic::power2::lemma2_to64();
        if s > 0 {
            assert(m >= 0x10_0000_0000_0000 * unit0) by (nonlinear_arith)
                requires
                    m == t * unit0,
                    t >= 0x10_0000_0000_0000,
                    unit0 > 0,
            ;
        }
        lemma_level(m, 0, s as nat);
        assert(1 * unit0 == unit0);
    }
    let mut unit: u128 = 1;
    let mut k: u32 = 0;
    while t >= 0x20_0000_0000_0000 * unit
        invariant
            t < 0x40_0000_0000_0000_0000_0000_0000_0000,
            1 <= unit <= 0x4_0000_0000_0000_0000,
            k <= 66,
            k > 0 ==> 0x10_0000_0000_0000 * unit <= t,
            pow2(k as nat) == unit,
            unit0 > 0,
            m == t as nat * unit0,
            rounded(m, 1, 0) == rounded(m, unit as nat * unit0, (s + k) as nat),
            s <= 2045,
        decreases t - unit,
    {
        proof {
            assert(m >= 0x20_0000_0000_0000 * (unit as nat * unit0)) by (nonlinear_arith)
                requires
                    m == t * unit0,
                    t >= 0x20_0000_0000_0000 * unit,
                    unit0 > 0,
            ;
            assert(unit as nat * unit0 > 0) by (nonlinear_arith)
                requires
                    unit >= 1,
                    unit0 > 0,
            ;
            assert((2 * unit) as nat * unit0 == 2 * (unit as nat * unit0)) by (nonlinear_arith);
            lemma_pow2_unfold((k + 1) as nat);
            if k >= 66 {
                vstd::arithmetic::power2::lemma2_to64();
                vstd::arithmetic::power2::lemma2_to64_rest();
                lemma_pow2_adds(64, 2);
            }
        }
        unit = unit * 2;
        k = k + 1;
    }
    let q: u128 = round_half_even(t, unit);
    proof {
        lemma_quotient_bound(t as nat, unit as nat);
        lemma_scaled(t as nat, unit as nat, unit0);
        assert(m < 0x20_0000_0000_0000 * (unit as nat * unit0)) by (nonlinear_arith)
            requires
                m == t * unit0,
                t < 0x20_0000_0000_0000 * unit,
                unit0 > 0,
        ;
    }
    let bits: u64 = (s + k) as u64 * 0x10_0000_0000_0000 + q as u64;
    if bits < DOUBLE_INFINITY {
        bits
    } else {
        DOUBLE_INFINITY
    }
}

/// The double nearest to `t * 2^s` units, however small `t` is.
pub fn round_any(t: u128, s: u32) -> (out: u64)
    requires
        t < 0x40_0000_0000_0000_0000_0000_0000_0000,
    ensures
        out == nearest_double(t as nat * pow2(s as nat)),
{
    let mut m: u128 = t;
    let mut e: u32 = s;
    while m < 0x10_0000_0000_0000 && e > 0
        invariant
            m < 0x40_0000_0000_0000_0000_0000_0000_0000,
            e <= s,
            m as nat * pow2(e as nat) == t as nat * pow2(s as nat),
        decreases e,
    {
        proof {
            lemma_pow2_unfold(e as nat);
            let half = pow2((e - 1) as nat);
            assert((2 * m) as nat * half == m as nat * (2 * half)) by (nonlinear_arith);
        }
        m = m * 2;
        e = e - 1;
    }
    if e > 2045 {
        proof {
            lemma_out_of_range(m as nat, e as nat);
        }
        return DOUBLE_INFINITY;
    }
    round_units(m, e)
}

/// What is beyond the largest exponent is infinite.
proof fn lemma_out_of_range(m: nat, s: nat)
    requires
        m >= 0x10_0000_0000_0000,
        s > 2045,
    ensures
        nearest_double(m * pow2(s)) == DOUBLE_INFINITY,
{
    let unit = pow2(s);
    let whole = m * unit;
    lemma_pow2_pos(s);
    vstd::arithmetic::power2::lemma2_to64();
    assert(whole >= 0x10_0000_0000_0000 * unit) by (nonlinear_arith)
        requires
            m >= 0x10_0000_0000_0000,
            unit > 0,
            whole == m * unit,
    ;
    lemma_level(whole, 0, s);
    if whole < 0x20_0000_0000_0000 * unit {
        lemma_nearest_even_ordered(0x10_0000_0000_0000, 1, whole, unit);
        lemma_nearest_even_is(0x10_0000_0000_0000, 1, 0x10_0000_0000_0000);
    } else {
        lemma_above_level(whole, 2 * unit, s + 1);
    }
}

/// An addend far below the last digit of a double does not change it.
proof fn lemma_far(m: nat, s: nat, small: nat)
    requires
        0x10_0000_0000_0000 <= m < 0x20_0000_0000_0000,
        s > 0,
        8 * small < pow2(s),
    ensures
        rounded(m * pow2(s) + small, 1, 0) == s * 0x10_0000_0000_0000 + m,
        m * pow2(s) >= small,
        rounded((m * pow2(s) - small) as nat, 1, 0) == s * 0x10_0000_0000_0000 + m,
{
    let unit = pow2(s);
    let whole = m * unit;
    lemma_pow2_pos(s);
    vstd::arithmetic::power2::lemma2_to64();
    assert(whole >= 0x10_0000_0000_0000 * unit && whole + unit <= 0x20_0000_0000_0000 * unit)
        by (nonlinear_arith)
        requires
            0x10_0000_0000_0000 <= m < 0x20_0000_0000_0000,
            unit > 0,
            whole == m * unit,
    ;
    lemma_level(whole + small, 0, s);
    lemma_nearest_even_is(whole + small, unit, m);
    let less = (whole - small) as nat;
    if m > 0x10_0000_0000_0000 {
        assert(whole >= 0x10_0000_0000_0000 * unit + unit) by (nonlinear_arith)
            requires
                m >= 0x10_0000_0000_0001,
                unit > 0,
                whole == m * unit,
        ;
        lemma_level(less, 0, s);
        lemma_nearest_even_is(less, unit, m);
    } else {
        let half = pow2((s - 1) as nat);
        lemma_pow2_unfold(s);
        lemma_pow2_pos((s - 1) as nat);
        assert(unit == 2 * half);
        assert(whole == 0x20_0000_0000_0000 * half);
        lemma_level(less, 0, (s - 1) as nat);
        lemma_nearest_even_is(less, half, 0x20_0000_0000_0000);
        if small == 0 {
            assert(rounded(less, half, (s - 1) as nat) == rounded(less, unit, s));
            lemma_nearest_even_is(less, unit, m);
        }
    }
}

/// How far apart two exponents may be for both numbers to matter to their sum.
const REACH: u32 = 64;

proof fn lemma_small(m: nat, s: nat, far: nat)
    requires
        m < 0x20_0000_0000_0000,
        far > s + REACH,
    ensures
        8 * (m * pow2(s)) < pow2(far),
{
    lemma_pow2_split(s, far);
    let gap = (far - s) as nat;
    lemma_pow2_split(64, gap);
    vstd::arithmetic::power2::lemma2_to64_rest();
    assert(8 * (m * pow2(s)) < pow2(s) * pow2(gap)) by (nonlinear_arith)
        requires
            m < 0x20_0000_0000_0000,
            pow2(gap) >= 0x1_0000_0000_0000_0000,
            pow2(s) > 0,
    ;
}

/// The double nearest to the sum of `ma * 2^sa` and `mb * 2^sb` units.
fn added(ma: u64, sa: u32, mb: u64, sb: u32) -> (out: u64)
    requires
        sb <= sa <= 2045,
        ma < 0x20_0000_0000_0000,
        mb < 0x20_0000_0000_0000,
        sa > 0 ==> ma >= 0x10_0000_0000_0000,
    ensures
        out == nearest_double(ma as nat * pow2(sa as nat) + mb as nat * pow2(sb as nat)),
{
    if sa - sb > REACH {
        proof {
            lemma_small(mb as nat, sb as nat, sa as nat);
            lemma_far(ma as nat, sa as nat, (mb * pow2(sb as nat)) as nat);
        }
        sa as u64 * 0x10_0000_0000_0000 + ma
    } else {
        let scale: u128 = power_of_two(sa - sb);
        proof {
            lemma_pow2_split(sb as nat, sa as nat);
            lemma_pow2_split((sa - sb) as nat, 64);
            vstd::arithmetic::power2::lemma2_to64_rest();
            assert(ma * scale <= 0x20_0000_0000_0000 * 0x1_0000_0000_0000_0000) by (nonlinear_arith)
                requires
                    ma < 0x20_0000_0000_0000,
                    scale <= 0x1_0000_0000_0000_0000,
            ;
            let unit = pow2(sb as nat);
            assert((ma * scale + mb) * unit == ma * (unit * scale) + mb * unit)
                by (nonlinear_arith);
        }
        round_any(ma as u128 * scale + mb as u128, sb)
    }
}

/// The double nearest to the difference of `ma * 2^sa` and `mb * 2^sb` units, and whether the
/// second is the larger.
fn subtracted(ma: u64, sa: u32, mb: u64, sb: u32) -> (out: (u64, bool))
    requires
        sb <= sa <= 2045,
        ma < 0x20_0000_0000_0000,
        mb < 0x20_0000_0000_0000,
        sa > 0 ==> ma >= 0x10_0000_0000_0000,
    ensures
        ({
            let difference = ma * pow2(sa as nat) - mb * pow2(sb as nat);
            &&& out.1 == (difference < 0)
            &&& out.0 == nearest_double(
                if difference < 0 {
                    (-difference) as nat
                } else {
                    difference as nat
                },
            )
        }),
{
    if sa - sb > REACH {
        proof {
            lemma_small(mb as nat, sb as nat, sa as nat);
            lemma_far(ma as nat, sa as nat, (mb * pow2(sb as nat)) as nat);
        }
        (sa as u64 * 0x10_0000_0000_0000 + ma, false)
    } else {
        let scale: u128 = power_of_two(sa - sb);
        let ghost unit = pow2(sb as nat);
        proof {
            lemma_pow2_split(sb as nat, sa as nat);
            lemma_pow2_split((sa - sb) as nat, 64);
            vstd::arithmetic::power2::lemma2_to64_rest();
            assert(ma * scale <= 0x20_0000_0000_0000 * 0x1_0000_0000_0000_0000) by (nonlinear_arith)
                requires
                    ma < 0x20_0000_0000_0000,
                    scale <= 0x1_0000_0000_0000_0000,
            ;
            assert((ma * scale - mb) * unit == ma * (unit * scale) - mb * unit)
                by (nonlinear_arith);
        }
        let first: u128 = ma as u128 * scale;
        let second: u128 = mb as u128;
        if first >= second {
            assert((first - second) * unit >= 0) by (nonlinear_arith)
                requires
                    first >= second,
                    unit > 0,
            ;
            (round_any(first - second, sb), false)
        } else {
            assert((first - second) * unit < 0) by (nonlinear_arith)
                requires
                    first < second,
                    unit > 0,
            ;
            assert((second - first) * unit == -((first - second) * unit)) by (nonlinear_arith);
            (round_any(second - first, sb), true)
        }
    }
}

proof fn lemma_above_level(m: nat, unit: nat, level: nat)
    ensures
        rounded(m, unit, level) >= level * 0x10_0000_0000_0000,
    decreases (if m < 0x20_0000_0000_0000 * unit { 0 } else { m - unit }),
{
    if unit != 0 && m >= 0x20_0000_0000_0000 * unit {
        lemma_above_level(m, 2 * unit, level + 1);
    }
}

/// Only zero units round to zero.
pub proof fn lemma_zero(m: nat)
    ensures
        nearest_double(m) == 0 <==> m == 0,
{
    if m >= 0x20_0000_0000_0000 {
        lemma_above_level(m, 2, 1);
    } else {
        lemma_nearest_even_is(m, 1, m);
    }
}

/// A double of this sign and size.
fn signed(negative: bool, size: u64) -> (out: u64)
    requires
        size <= DOUBLE_INFINITY,
    ensures
        out == with_sign(negative, size),
{
    if negative {
        0x8000_0000_0000_0000 + size
    } else {
        size
    }
}

/// Whether a pattern stands for a number.
fn is_number(x: u64) -> (yes: bool)
    ensures
        yes == double_is_number(x),
{
    x % 0x8000_0000_0000_0000 <= DOUBLE_INFINITY
}

/// The sum of two doubles.
pub fn sum(x: u64, y: u64) -> (out: u64)
    ensures
        out == sum_of(x, y),
{
    let x_size: u64 = x % 0x8000_0000_0000_0000;
    let y_size: u64 = y % 0x8000_0000_0000_0000;
    let x_negative: bool = x >= 0x8000_0000_0000_0000;
    let y_negative: bool = y >= 0x8000_0000_0000_0000;
    if !is_number(x) || !is_number(y) || (x_size == DOUBLE_INFINITY && y_size == DOUBLE_INFINITY
        && x != y) {
        return NOT_A_NUMBER;
    }
    if x_size == DOUBLE_INFINITY {
        return x;
    }
    if y_size == DOUBLE_INFINITY {
        return y;
    }
    if x_size == 0 && y_size == 0 {
        return signed(x_negative && y_negative, 0);
    }
    let (mx, sx) = parts(x);
    let (my, sy) = parts(y);
    let (ma, sa, a_negative, mb, sb, b_negative) = if sx >= sy {
        (mx, sx, x_negative, my, sy, y_negative)
    } else {
        (my, sy, y_negative, mx, sx, x_negative)
    };
    let ghost a = ma as nat * pow2(sa as nat);
    let ghost b = mb as nat * pow2(sb as nat);
    if a_negative == b_negative {
        let size: u64 = added(ma, sa, mb, sb);
        proof {
            lemma_some_units(x, y);
            assert(a + b == magnitude(x) + magnitude(y));
            assert(units(x) + units(y) == if a_negative {
                -(a + b)
            } else {
                (a + b) as int
            });
        }
        signed(a_negative, size)
    } else {
        let (size, b_larger) = subtracted(ma, sa, mb, sb);
        proof {
            let value = units(x) + units(y);
            assert(value == if a_negative {
                b - a
            } else {
                a - b
            });
            if value >= 0 {
                lemma_zero(value as nat);
            } else {
                lemma_zero((-value) as nat);
            }
        }
        signed(size != 0 && a_negative != b_larger, size)
    }
}

/// Only zeros have no units.
pub proof fn lemma_some_units(x: u64, y: u64)
    requires
        body(x) < DOUBLE_INFINITY,
        body(y) < DOUBLE_INFINITY,
        body(x) != 0 || body(y) != 0,
    ensures
        magnitude(x) + magnitude(y) > 0,
{
    let z = if body(x) != 0 {
        x
    } else {
        y
    };
    let exponent = (body(z) / 0x10_0000_0000_0000) as nat;
    let fraction = (body(z) % 0x10_0000_0000_0000) as nat;
    if exponent > 0 {
        lemma_pow2_pos((exponent - 1) as nat);
        assert((0x10_0000_0000_0000 + fraction) * pow2((exponent - 1) as nat) > 0)
            by (nonlinear_arith)
            requires
                pow2((exponent - 1) as nat) > 0,
                fraction >= 0,
        ;
    }
}

/// A number of at most 53 bits has a double of exactly its size.
pub proof fn lemma_exact(v: nat, s: nat)
    requires
        v < 0x20_0000_0000_0000,
        53 <= s <= 1021,
    ensures
        magnitude(nearest_double(v * pow2(s))) == v * pow2(s),
        nearest_double(v * pow2(s)) < (s + 2) * 0x10_0000_0000_0000,
{
    if v == 0 {
        assert(0 * pow2(s) == 0);
        assert(nearest_double(0) == 0);
    } else {
        vstd::arithmetic::power2::lemma2_to64();
        lemma_exact_from(v, s, v, s);
    }
}

proof fn lemma_exact_from(v: nat, s: nat, w: nat, e: nat)
    requires
        0 < w < 0x20_0000_0000_0000,
        e <= s <= 1021,
        w >= pow2((s - e) as nat),
        s >= 53,
        v * pow2(s) == w * pow2(e),
    ensures
        magnitude(nearest_double(v * pow2(s))) == v * pow2(s),
        nearest_double(v * pow2(s)) < (s + 2) * 0x10_0000_0000_0000,
    decreases 0x20_0000_0000_0000 - w,
{
    let m = w * pow2(e);
    lemma_pow2_pos(e);
    if w < 0x10_0000_0000_0000 {
        if e == 0 {
            lemma_pow2_split(53, s);
            vstd::arithmetic::power2::lemma2_to64_rest();
            assert(false);
        }
        lemma_pow2_unfold(e);
        lemma_pow2_unfold((s - e + 1) as nat);
        let half = pow2((e - 1) as nat);
        assert((2 * w) * half == w * (2 * half)) by (nonlinear_arith);
        lemma_exact_from(v, s, 2 * w, (e - 1) as nat);
    } else {
        let unit = pow2(e);
        vstd::arithmetic::power2::lemma2_to64();
        assert(0x10_0000_0000_0000 * unit <= m < 0x20_0000_0000_0000 * unit) by (nonlinear_arith)
            requires
                0x10_0000_0000_0000 <= w < 0x20_0000_0000_0000,
                unit > 0,
                m == w * unit,
        ;
        lemma_level(m, 0, e);
        lemma_nearest_even_is(m, unit, w);
        let bits = (e * 0x10_0000_0000_0000 + w) as u64;
        assert(nearest_double(m) == bits);
        assert(bits % 0x8000_0000_0000_0000 == bits);
        assert(bits / 0x10_0000_0000_0000 == e + 1);
        assert(bits % 0x10_0000_0000_0000 == w - 0x10_0000_0000_0000);
    }
}

/// The double nearest to `t / den` units.
fn round_ratio(t: u128, den: u128) -> (out: u64)
    requires
        t < 0x40_0000_0000_0000_0000_0000_0000_0000,
        0 < den < 0x800_0000_0000_0000_0000_0000_0000_0000,
    ensures
        out == nearest_ratio(t as nat, den as nat),
        out == rounded(t as nat, den as nat, 0),
        out <= 67 * 0x10_0000_0000_0000,
{
    let mut unit: u128 = den;
    let mut level: u32 = 0;
    proof {
        vstd::arithmetic::power2::lemma2_to64();
    }
    while t / 0x20_0000_0000_0000 >= unit
        invariant
            t < 0x40_0000_0000_0000_0000_0000_0000_0000,
            0 < unit < 0x800_0000_0000_0000_0000_0000_0000_0000,
            level > 0 ==> 0x10_0000_0000_0000 * unit <= t,
            level <= 65,
            unit >= pow2(level as nat),
            rounded(t as nat, den as nat, 0) == rounded(t as nat, unit as nat, level as nat),
        decreases t - unit,
    {
        proof {
            lemma_pow2_unfold((level + 1) as nat);
            if level >= 65 {
                vstd::arithmetic::power2::lemma2_to64();
                vstd::arithmetic::power2::lemma2_to64_rest();
                lemma_pow2_adds(64, 1);
                lemma_pow2_split(65, level as nat);
            }
        }
        unit = unit * 2;
        level = level + 1;
    }
    let q: u128 = round_half_even(t, unit);
    proof {
        lemma_quotient_bound(t as nat, unit as nat);
    }
    level as u64 * 0x10_0000_0000_0000 + q as u64
}

/// Numerator and denominator may be scaled alike.
pub proof fn lemma_rounded_scaled(a: nat, b: nat, c: nat, level: nat)
    requires
        b > 0,
        c > 0,
    ensures
        rounded(a * c, b * c, level) == rounded(a, b, level),
    decreases (if a < 0x20_0000_0000_0000 * b { 0 } else { a - b }),
{
    assert(b * c > 0) by (nonlinear_arith)
        requires
            b > 0,
            c > 0,
    ;
    if a < 0x20_0000_0000_0000 * b {
        assert(a * c < 0x20_0000_0000_0000 * (b * c)) by (nonlinear_arith)
            requires
                a < 0x20_0000_0000_0000 * b,
                c > 0,
        ;
        lemma_scaled(a, b, c);
    } else {
        assert(a * c >= 0x20_0000_0000_0000 * (b * c)) by (nonlinear_arith)
            requires
                a >= 0x20_0000_0000_0000 * b,
                c > 0,
        ;
        assert((2 * b) * c == 2 * (b * c)) by (nonlinear_arith);
        lemma_rounded_scaled(a, 2 * b, c, level + 1);
    }
}

/// The level is a summand.
proof fn lemma_rounded_level(a: nat, b: nat, level: nat, base: nat)
    requires
        b > 0,
    ensures
        rounded(a, b, base + level) == base * 0x10_0000_0000_0000 + rounded(a, b, level),
    decreases (if a < 0x20_0000_0000_0000 * b { 0 } else { a - b }),
{
    if a >= 0x20_0000_0000_0000 * b {
        lemma_rounded_level(a, 2 * b, level + 1, base);
    }
}

/// Rounding a ratio starts at the level that fits.
proof fn lemma_ratio_level(a: nat, b: nat, from: nat, s: nat)
    requires
        b > 0,
        from <= s,
        s > from ==> a >= 0x10_0000_0000_0000 * (b * pow2(s)),
    ensures
        rounded(a, b * pow2(from), from) == rounded(a, b * pow2(s), s),
    decreases s - from,
{
    if from < s {
        let here = b * pow2(from);
        let next = b * pow2(from + 1);
        lemma_pow2_split(from + 1, s);
        lemma_pow2_unfold(from + 1);
        lemma_pow2_pos(from);
        assert(next == 2 * here) by (nonlinear_arith)
            requires
                next == b * (2 * pow2(from)),
                here == b * pow2(from),
        ;
        assert(here > 0) by (nonlinear_arith)
            requires
                b > 0,
                pow2(from) > 0,
                here == b * pow2(from),
        ;
        assert(next <= b * pow2(s)) by (nonlinear_arith)
            requires
                pow2(from + 1) <= pow2(s),
                next == b * pow2(from + 1),
        ;
        if from + 1 < s {
            lemma_ratio_level(a, b, from + 1, s);
        }
    }
}

/// A ratio below one half rounds to zero.
pub proof fn lemma_vanishes(num: nat, den: nat)
    requires
        2 * num < den,
    ensures
        nearest_ratio(num, den) == 0,
{
    lemma_nearest_even_is(num, den, 0);
}

/// The double nearest to a product of finite magnitudes.
fn multiplied(mx: u64, sx: u32, my: u64, sy: u32) -> (out: u64)
    requires
        mx < 0x20_0000_0000_0000,
        my < 0x20_0000_0000_0000,
        sx <= 2045,
        sy <= 2045,
    ensures
        out == nearest_ratio(
            (mx as nat * pow2(sx as nat)) * (my as nat * pow2(sy as nat)),
            pow2(1074),
        ),
{
    let ghost num = (mx as nat * pow2(sx as nat)) * (my as nat * pow2(sy as nat));
    let e: u32 = sx + sy;
    proof {
        assert(mx * my < 0x400_0000_0000_0000_0000_0000_0000) by (nonlinear_arith)
            requires
                mx < 0x20_0000_0000_0000,
                my < 0x20_0000_0000_0000,
        ;
    }
    let t: u128 = mx as u128 * my as u128;
    proof {
        lemma_pow2_adds(sx as nat, sy as nat);
        let (a, b) = (pow2(sx as nat), pow2(sy as nat));
        assert((mx as nat * a) * (my as nat * b) == (mx as nat * my as nat) * (a * b))
            by (nonlinear_arith);
        assert(num == t as nat * pow2(e as nat));
        lemma_pow2_pos(e as nat);
        lemma_pow2_pos(1074);
    }
    if e >= 1074 {
        proof {
            lemma_pow2_split(1074, e as nat);
            let extra = pow2((e - 1074) as nat);
            assert(t as nat * (pow2(1074) * extra) == (t as nat * extra) * pow2(1074))
                by (nonlinear_arith);
            lemma_rounded_scaled(t as nat * extra, 1, pow2(1074), 0);
            assert(1 * pow2(1074) == pow2(1074));
        }
        round_any(t, e - 1074)
    } else {
        let d: u32 = 1074 - e;
        proof {
            lemma_pow2_split(e as nat, 1074);
            assert(pow2(1074) == pow2(d as nat) * pow2(e as nat)) by (nonlinear_arith)
                requires
                    pow2(1074) == pow2(e as nat) * pow2(d as nat),
            ;
            lemma_rounded_scaled(t as nat, pow2(d as nat), pow2(e as nat), 0);
        }
        if d > 120 {
            proof {
                lemma_pow2_split(120, d as nat);
                lemma_pow2_adds(60, 60);
                vstd::arithmetic::power2::lemma2_to64_rest();
                lemma_vanishes(t as nat, pow2(d as nat));
            }
            0
        } else {
            proof {
                lemma_pow2_split(d as nat, 120);
                lemma_pow2_adds(60, 60);
                vstd::arithmetic::power2::lemma2_to64_rest();
            }
            round_ratio(t, power_of_two(d))
        }
    }
}

/// The product of two doubles.
pub fn product(x: u64, y: u64) -> (out: u64)
    ensures
        out == product_of(x, y),
{
    let x_size: u64 = x % 0x8000_0000_0000_0000;
    let y_size: u64 = y % 0x8000_0000_0000_0000;
    let negative: bool = (x >= 0x8000_0000_0000_0000) != (y >= 0x8000_0000_0000_0000);
    if !is_number(x) || !is_number(y) || (x_size == DOUBLE_INFINITY && y_size == 0) || (x_size == 0
        && y_size == DOUBLE_INFINITY) {
        return NOT_A_NUMBER;
    }
    if x_size == DOUBLE_INFINITY || y_size == DOUBLE_INFINITY {
        return signed(negative, DOUBLE_INFINITY);
    }
    let (mx, sx) = parts(x);
    let (my, sy) = parts(y);
    signed(negative, multiplied(mx, sx, my, sy))
}

/// The double nearest to a quotient of finite magnitudes, `m * 2^e / 2^52` and `my * 2^sy`.
fn divided(m: u64, e: u32, my: u64, sy: u32) -> (out: u64)
    requires
        0x10_0000_0000_0000 <= m < 0x20_0000_0000_0000,
        e <= 2097,
        0 < my < 0x20_0000_0000_0000,
        sy <= 2045,
        sy > 0 ==> my >= 0x10_0000_0000_0000,
    ensures
        out == nearest_ratio(
            (m as nat * pow2(e as nat)) * pow2(1022),
            my as nat * pow2(sy as nat),
        ),
{
    let ghost num = (m as nat * pow2(e as nat)) * pow2(1022);
    let ghost den = my as nat * pow2(sy as nat);
    let t: u128 = m as u128 * 0x1_0000_0000_0000_0000;
    let up: u32 = e + 958;
    proof {
        vstd::arithmetic::power2::lemma2_to64_rest();
        lemma_pow2_adds(64, 958);
        lemma_pow2_adds(e as nat, 958);
        let (a, b) = (pow2(e as nat), pow2(958));
        assert((m as nat * a) * (0x1_0000_0000_0000_0000 * b) == (m as nat
            * 0x1_0000_0000_0000_0000) * (a * b)) by (nonlinear_arith);
        assert(num == t as nat * pow2(up as nat));
        lemma_pow2_pos(up as nat);
        lemma_pow2_pos(sy as nat);
    }
    if up >= sy {
        let k: u32 = up - sy;
        proof {
            lemma_pow2_split(sy as nat, up as nat);
            let (a, b) = (pow2(sy as nat), pow2(k as nat));
            assert(t as nat * (a * b) == (t as nat * b) * a) by (nonlinear_arith);
            lemma_rounded_scaled(t as nat * b, my as nat, a, 0);
            assert(my as nat * 1 == my as nat);
            vstd::arithmetic::power2::lemma2_to64();
            assert(t as nat * b >= 0x10_0000_0000_0000 * (my as nat * b)) by (nonlinear_arith)
                requires
                    t >= 0x10_0000_0000_0000 * my,
                    b > 0,
            ;
            lemma_ratio_level(t as nat * b, my as nat, 0, k as nat);
            lemma_rounded_scaled(t as nat, my as nat, b, k as nat);
            lemma_rounded_level(t as nat, my as nat, 0, k as nat);
        }
        let bits: u64 = k as u64 * 0x10_0000_0000_0000 + round_ratio(t, my as u128);
        if bits < DOUBLE_INFINITY {
            bits
        } else {
            DOUBLE_INFINITY
        }
    } else {
        let d: u32 = sy - up;
        proof {
            lemma_pow2_split(up as nat, sy as nat);
            let (a, b) = (pow2(up as nat), pow2(d as nat));
            assert(my as nat * (a * b) == (my as nat * b) * a) by (nonlinear_arith);
            assert(my as nat * b > 0) by (nonlinear_arith)
                requires
                    my > 0,
                    b > 0,
            ;
            lemma_rounded_scaled(t as nat, my as nat * b, a, 0);
        }
        if d > 70 {
            proof {
                lemma_pow2_split(70, d as nat);
                lemma_pow2_adds(64, 6);
                vstd::arithmetic::power2::lemma2_to64();
                let b = pow2(d as nat);
                assert(my as nat * b >= 0x10_0000_0000_0000 * 0x40_0000_0000_0000_0000)
                    by (nonlinear_arith)
                    requires
                        my >= 0x10_0000_0000_0000,
                        b >= 0x40_0000_0000_0000_0000,
                ;
                lemma_vanishes(t as nat, my as nat * b);
            }
            0
        } else {
            let scale: u128 = power_of_two(d);
            proof {
                lemma_pow2_split(d as nat, 70);
                lemma_pow2_adds(64, 6);
                vstd::arithmetic::power2::lemma2_to64();
                assert(my * scale <= 0x1f_ffff_ffff_ffff * 0x40_0000_0000_0000_0000)
                    by (nonlinear_arith)
                    requires
                        my < 0x20_0000_0000_0000,
                        0 < scale <= 0x40_0000_0000_0000_0000,
                ;
            }
            round_ratio(t, my as u128 * scale)
        }
    }
}

/// A significand of full length for the same number, with an exponent that counts from 52 less.
fn normalized(mx: u64, sx: u32) -> (out: (u64, u32))
    requires
        0 < mx < 0x20_0000_0000_0000,
        sx <= 2045,
        sx > 0 ==> mx >= 0x10_0000_0000_0000,
    ensures
        0x10_0000_0000_0000 <= out.0 < 0x20_0000_0000_0000,
        out.1 <= 2097,
        out.0 as nat * pow2(out.1 as nat) == (mx as nat * pow2(sx as nat)) * pow2(52),
{
    let mut m: u64 = mx;
    let mut e: u32 = sx + 52;
    proof {
        vstd::arithmetic::power2::lemma2_to64();
        vstd::arithmetic::power2::lemma2_to64_rest();
        lemma_pow2_adds(sx as nat, 52);
        let a = pow2(sx as nat);
        assert(mx as nat * (a * 0x10_0000_0000_0000) == (mx as nat * a) * pow2(52))
            by (nonlinear_arith)
            requires
                pow2(52) == 0x10_0000_0000_0000,
        ;
    }
    while m < 0x10_0000_0000_0000
        invariant
            0 < m < 0x20_0000_0000_0000,
            e <= sx + 52,
            sx <= 2045,
            sx > 0 ==> mx >= 0x10_0000_0000_0000,
            m < 0x10_0000_0000_0000 ==> sx == 0,
            pow2((sx + 52 - e) as nat) <= m,
            m as nat * pow2(e as nat) == (mx as nat * pow2(sx as nat)) * pow2(52),
        decreases 0x20_0000_0000_0000 - m,
    {
        proof {
            vstd::arithmetic::power2::lemma2_to64_rest();
            lemma_pow2_unfold(e as nat);
            lemma_pow2_unfold((sx + 53 - e) as nat);
            let half = pow2((e - 1) as nat);
            assert((2 * m) as nat * half == m as nat * (2 * half)) by (nonlinear_arith);
        }
        m = m * 2;
        e = e - 1;
    }
    (m, e)
}

/// The quotient of two doubles.
pub fn quotient(x: u64, y: u64) -> (out: u64)
    ensures
        out == quotient_of(x, y),
{
    let x_size: u64 = x % 0x8000_0000_0000_0000;
    let y_size: u64 = y % 0x8000_0000_0000_0000;
    let negative: bool = (x >= 0x8000_0000_0000_0000) != (y >= 0x8000_0000_0000_0000);
    if !is_number(x) || !is_number(y) || (x_size == DOUBLE_INFINITY && y_size == DOUBLE_INFINITY)
        || (x_size == 0 && y_size == 0) {
        return NOT_A_NUMBER;
    }
    if x_size == DOUBLE_INFINITY || y_size == 0 {
        return signed(negative, DOUBLE_INFINITY);
    }
    if y_size == DOUBLE_INFINITY {
        return signed(negative, 0);
    }
    let (mx, sx) = parts(x);
    let (my, sy) = parts(y);
    if mx == 0 {
        proof {
            assert(0 * pow2(sx as nat) == 0);
            assert(magnitude(x) * pow2(1074) == 0) by (nonlinear_arith)
                requires
                    magnitude(x) == 0,
            ;
            lemma_some_units(y, y);
            lemma_vanishes(0, magnitude(y));
        }
        return signed(negative, 0);
    }
    let (m, e) = normalized(mx, sx);
    proof {
        let a = mx as nat * pow2(sx as nat);
        lemma_pow2_adds(52, 1022);
        assert((a * pow2(52)) * pow2(1022) == a * (pow2(52) * pow2(1022))) by (nonlinear_arith);
        lemma_some_units(y, y);
        if my == 0 {
            assert(0 * pow2(sy as nat) == 0);
        }
    }
    signed(negative, divided(m, e, my, sy))
}

/// The double nearest to a whole number.
pub fn whole(n: u64) -> (out: u64)
    ensures
        out == whole_of(n as nat),
{
    round_any(n as u128, 1074)
}

/// A finite double is the nearest one to its own units.
proof fn lemma_same(m: nat, s: nat)
    requires
        m < 0x20_0000_0000_0000,
        s > 0 ==> m >= 0x10_0000_0000_0000,
    ensures
        rounded(m * pow2(s), 1, 0) == s * 0x10_0000_0000_0000 + m,
{
    let unit = pow2(s);
    lemma_pow2_pos(s);
    vstd::arithmetic::power2::lemma2_to64();
    if s > 0 {
        assert(m * unit >= 0x10_0000_0000_0000 * unit) by (nonlinear_arith)
            requires
                m >= 0x10_0000_0000_0000,
                unit > 0,
        ;
    }
    assert(m * unit < 0x20_0000_0000_0000 * unit) by (nonlinear_arith)
        requires
            m < 0x20_0000_0000_0000,
            unit > 0,
    ;
    lemma_level(m * unit, 0, s);
    lemma_nearest_even_is(m * unit, unit, m);
}

/// The whole number nearest to `m / 2^d`, halves upwards.
fn half_up(m: u64, d: u32) -> (n: u64)
    requires
        m < 0x20_0000_0000_0000,
        0 < d,
    ensures
        n == (2 * m as nat + pow2(d as nat)) / (2 * pow2(d as nat)),
{
    let ghost b = pow2(d as nat);
    proof {
        vstd::arithmetic::power2::lemma2_to64_rest();
        lemma_pow2_pos(d as nat);
    }
    if d > 54 {
        proof {
            lemma_pow2_split(54, d as nat);
            vstd::arithmetic::div_mod::lemma_basic_div((2 * m as nat + b) as int, (2 * b) as int);
        }
        0
    } else {
        let scale: u128 = power_of_two(d);
        proof {
            lemma_pow2_split(d as nat, 54);
        }
        let n: u128 = (2 * m as u128 + scale) / (2 * scale);
        proof {
            assert(n <= 2 * m as u128 + scale) by (nonlinear_arith)
                requires
                    n == (2 * m as u128 + scale) / (2 * scale),
                    scale > 0,
                    m >= 0,
            ;
        }
        n as u64
    }
}

/// A double rounded to a whole number, halves away from zero.
pub fn round_away(x: u64) -> (out: u64)
    ensures
        out == rounded_away(x),
{
    let size: u64 = x % 0x8000_0000_0000_0000;
    let negative: bool = x >= 0x8000_0000_0000_0000;
    if size >= DOUBLE_INFINITY {
        return x;
    }
    let (m, s) = parts(x);
    let ghost unit = pow2(1074);
    proof {
        lemma_pow2_pos(1074);
    }
    if s >= 1074 {
        proof {
            lemma_pow2_split(1074, s as nat);
            let n = m as nat * pow2((s - 1074) as nat);
            assert(m as nat * (unit * pow2((s - 1074) as nat)) == n * unit) by (nonlinear_arith)
                requires
                    n == m as nat * pow2((s - 1074) as nat),
            ;
            assert((2 * (n * unit) + unit) / (2 * unit) == n) by (nonlinear_arith)
                requires
                    unit > 0,
            ;
            lemma_same(m as nat, s as nat);
        }
        return x;
    }
    let d: u32 = 1074 - s;
    let ghost a = pow2(s as nat);
    let ghost b = pow2(d as nat);
    proof {
        lemma_pow2_split(s as nat, 1074);
        let mm = m as nat;
        assert((2 * (mm * a) + a * b) / (2 * (a * b)) == (2 * mm + b) / (2 * b)) by {
            assert(2 * (mm * a) + a * b == a * (2 * mm + b)) by (nonlinear_arith);
            assert(2 * (a * b) == a * (2 * b)) by (nonlinear_arith);
            vstd::arithmetic::div_mod::lemma_div_multiples_vanish_quotient(
                a as int,
                (2 * mm + b) as int,
                (2 * b) as int,
            );
        }
    }
    signed(negative, whole(half_up(m, d)))
}

/// A double with the other sign.
pub fn negate(x: u64) -> (out: u64)
    ensures
        out == negated(x),
{
    if x >= 0x8000_0000_0000_0000 {
        x - 0x8000_0000_0000_0000
    } else {
        x + 0x8000_0000_0000_0000
    }
}

/// The double of the same value as a single.
pub fn widen(x: u32) -> (out: u64)
    ensures
        out == widened(x),
{
    let size: u32 = x % 0x8000_0000;
    let negative: bool = x >= 0x8000_0000;
    if size > SINGLE_INFINITY {
        return NOT_A_NUMBER;
    }
    if size == SINGLE_INFINITY {
        return signed(negative, DOUBLE_INFINITY);
    }
    let exponent: u32 = size / 0x80_0000;
    let fraction: u32 = size % 0x80_0000;
    if exponent == 0 {
        signed(negative, round_any(fraction as u128, 925))
    } else {
        proof {
            lemma_pow2_adds((exponent - 1) as nat, 925);
            let (a, b) = (pow2((exponent - 1) as nat), pow2(925));
            assert((0x80_0000 + fraction) as nat * (a * b) == ((0x80_0000 + fraction) as nat * a)
                * b) by (nonlinear_arith);
        }
        signed(negative, round_any((0x80_0000 + fraction) as u128, exponent + 924))
    }
}

pub proof fn lemma_whole_root(m: nat)
    ensures
        whole_root(m) * whole_root(m) <= m,
        m < (whole_root(m) + 1) * (whole_root(m) + 1),
    decreases m,
{
    if m > 0 {
        lemma_whole_root((m - 1) as nat);
        let r = whole_root((m - 1) as nat);
        assert((r + 1) * (r + 1) < (r + 2) * (r + 2)) by (nonlinear_arith)
            requires
                r >= 0,
        ;
        assert(whole_root(m) == if (r + 1) * (r + 1) <= m {
            r + 1
        } else {
            r
        });
    } else {
        assert(0nat * 0nat == 0) by (nonlinear_arith);
        assert((0nat + 1) * (0nat + 1) == 1) by (nonlinear_arith);
    }
}

pub proof fn lemma_square_ordered(a: nat, b: nat)
    requires
        a * a < b * b,
    ensures
        a < b,
{
    if a >= b {
        assert(a * a >= b * b) by (nonlinear_arith)
            requires
                a >= b,
                b >= 0,
        ;
    }
}

/// The largest number whose square is at most `t`.
fn integer_root(t: u128) -> (n: u64)
    requires
        t < 0x1000_0000_0000_0000_0000_0000_0000,
    ensures
        n < 0x40_0000_0000_0000,
        n as nat * n as nat <= t < (n + 1) * (n + 1),
{
    let mut n: u128 = 0;
    let mut above: u128 = 0x40_0000_0000_0000;
    while above - n > 1
        invariant
            t < 0x1000_0000_0000_0000_0000_0000_0000,
            n * n <= t,
            t < above * above,
            n < above <= 0x40_0000_0000_0000,
        decreases above - n,
    {
        let mid: u128 = n + (above - n) / 2;
        assert(mid * mid <= 0x40_0000_0000_0000 * 0x40_0000_0000_0000) by (nonlinear_arith)
            requires
                mid <= 0x40_0000_0000_0000,
        ;
        if mid * mid <= t {
            n = mid;
        } else {
            above = mid;
        }
    }
    n as u64
}

/// The root of a scaled number, from the whole root of the number.
pub proof fn lemma_root(t: nat, k: nat, n: nat)
    requires
        n * n <= t < (n + 1) * (n + 1),
        0x20_0000_0000_0000 <= n < 0x40_0000_0000_0000,
        t % 2 == 0,
        k <= 2000,
    ensures
        nearest_root(t * pow2(2 * k)) == (k + 1) * 0x10_0000_0000_0000 + (n + 1) / 2,
{
    let p = pow2(k);
    let m = t * pow2(2 * k);
    let r = whole_root(m);
    lemma_pow2_pos(k);
    lemma_pow2_adds(k, k);
    lemma_whole_root(m);
    assert((n * p) * (n * p) == (n * n) * (p * p)) by (nonlinear_arith);
    assert(((n + 1) * p) * ((n + 1) * p) == ((n + 1) * (n + 1)) * (p * p)) by (nonlinear_arith);
    assert(p * p > 0) by (nonlinear_arith)
        requires
            p > 0,
    ;
    assert((n * n) * (p * p) <= t * (p * p)) by (nonlinear_arith)
        requires
            n * n <= t,
            p * p > 0,
    ;
    assert(t * (p * p) < ((n + 1) * (n + 1)) * (p * p)) by (nonlinear_arith)
        requires
            t < (n + 1) * (n + 1),
            p * p > 0,
    ;
    lemma_square_ordered(r, (n + 1) * p);
    lemma_square_ordered(n * p, r + 1);
    let rest: nat = if r * r == m {
        0
    } else {
        1
    };
    if r == n * p && rest == 0 {
        assert(n * n == t) by (nonlinear_arith)
            requires
                (n * n) * (p * p) == t * (p * p),
                p * p > 0,
        ;
    }
    let num = 2 * r + rest;
    let q = (n + 1) / 2;
    let den = 2 * pow2(k + 1);
    lemma_pow2_unfold(k + 1);
    assert(den == 4 * p);
    assert((n + 1) * p == n * p + p) by (nonlinear_arith);
    if n % 2 == 0 {
        assert(2 * q == n);
        assert(q * den == 2 * (n * p)) by (nonlinear_arith)
            requires
                2 * q == n,
                den == 4 * p,
        ;
    } else {
        assert(n * n != t) by {
            let j = n / 2;
            assert(n * n == 2 * (2 * (j * j) + 2 * j) + 1) by (nonlinear_arith)
                requires
                    n == 2 * j + 1,
            ;
        }
        assert(2 * q == n + 1);
        assert(q * den == 2 * (n * p) + 2 * p) by (nonlinear_arith)
            requires
                2 * q == n + 1,
                den == 4 * p,
        ;
    }
    lemma_nearest_even_is(num, den, q);
    assert(0x10_0000_0000_0000 * den <= num < 0x20_0000_0000_0000 * den) by {
        assert(n * p >= 0x20_0000_0000_0000 * p) by (nonlinear_arith)
            requires
                n >= 0x20_0000_0000_0000,
                p > 0,
        ;
        assert(n * p + p <= 0x40_0000_0000_0000 * p) by (nonlinear_arith)
            requires
                n < 0x40_0000_0000_0000,
                p > 0,
        ;
    }
    vstd::arithmetic::power2::lemma2_to64();
    lemma_ratio_level(num, 2, 0, k + 1);
    assert(2 * pow2(0) == 2);
}

/// The square root of a double.
pub fn root(x: u64) -> (out: u64)
    ensures
        out == root_of(x),
{
    let size: u64 = x % 0x8000_0000_0000_0000;
    if size == 0 || x == DOUBLE_INFINITY {
        return x;
    }
    if size > DOUBLE_INFINITY || x >= 0x8000_0000_0000_0000 {
        return NOT_A_NUMBER;
    }
    let (mx, sx) = parts(x);
    proof {
        lemma_some_units(x, x);
        if mx == 0 {
            assert(0 * pow2(sx as nat) == 0);
        }
    }
    let (m, e) = normalized(mx, sx);
    let f: u32 = e + 1022;
    let ghost units = magnitude(x) * pow2(1074);
    proof {
        let a = mx as nat * pow2(sx as nat);
        lemma_pow2_adds(52, 1022);
        assert((a * pow2(52)) * pow2(1022) == a * (pow2(52) * pow2(1022))) by (nonlinear_arith);
        lemma_pow2_adds(e as nat, 1022);
        assert((m as nat * pow2(e as nat)) * pow2(1022) == m as nat * (pow2(e as nat) * pow2(1022)))
            by (nonlinear_arith);
        assert(units == m as nat * pow2(f as nat));
        vstd::arithmetic::power2::lemma2_to64();
        vstd::arithmetic::power2::lemma2_to64_rest();
        lemma_pow2_split(54, f as nat);
        lemma_pow2_split(55, f as nat);
    }
    let (t, k) = if f % 2 == 0 {
        let t: u128 = m as u128 * 0x40_0000_0000_0000;
        let k: u32 = (f - 54) / 2;
        proof {
            let b = pow2((f - 54) as nat);
            assert(m as nat * (pow2(54) * b) == (m as nat * pow2(54)) * b) by (nonlinear_arith);
        }
        (t, k)
    } else {
        let t: u128 = m as u128 * 0x80_0000_0000_0000;
        let k: u32 = (f - 55) / 2;
        proof {
            let b = pow2((f - 55) as nat);
            assert(m as nat * (pow2(55) * b) == (m as nat * pow2(55)) * b) by (nonlinear_arith);
        }
        (t, k)
    };
    let n: u64 = integer_root(t);
    proof {
        if n < 0x20_0000_0000_0000 {
            assert((n + 1) * (n + 1) <= 0x20_0000_0000_0000 * 0x20_0000_0000_0000)
                by (nonlinear_arith)
                requires
                    n < 0x20_0000_0000_0000,
            ;
        }
        assert(units == t as nat * pow2(2 * k as nat));
        lemma_root(t as nat, k as nat, n as nat);
    }
    (k as u64 + 1) * 0x10_0000_0000_0000 + (n + 1) / 2
}

/// Numbers far from the largest double have a finite one.
pub proof fn lemma_finite(m: nat, s: nat)
    requires
        m < 0x20_0000_0000_0000,
        s <= 1900,
    ensures
        nearest_double(m * pow2(s)) < DOUBLE_INFINITY,
{
    lemma_pow2_pos(s);
    lemma_below_level(m * pow2(s), 0, s, m);
}

proof fn lemma_below_level(a: nat, level: nat, s: nat, m: nat)
    requires
        m < 0x20_0000_0000_0000,
        a == m * pow2(s),
        level <= s,
    ensures
        rounded(a, pow2(level), level) <= (s + 2) * 0x10_0000_0000_0000,
        level == 0 ==> rounded(a, 1, 0) <= (s + 2) * 0x10_0000_0000_0000,
    decreases s - level,
{
    let unit = pow2(level);
    lemma_pow2_pos(level);
    vstd::arithmetic::power2::lemma2_to64();
    if a < 0x20_0000_0000_0000 * unit {
        lemma_quotient_bound(a, unit);
    } else {
        if level == s {
            assert(m * unit < 0x20_0000_0000_0000 * unit) by (nonlinear_arith)
                requires
                    m < 0x20_0000_0000_0000,
                    unit > 0,
            ;
        }
        lemma_pow2_unfold(level + 1);
        lemma_below_level(a, level + 1, s, m);
    }
}

/// How far apart two numbers are.
pub open spec fn distance(a: nat, b: nat) -> int {
    if a <= b {
        b - a
    } else {
        a - b
    }
}

/// The level at which a ratio is rounded, and the multiple of that level's unit that it becomes.
pub proof fn lemma_rounded_is(m: nat, den: nat, level: nat) -> (out: (nat, nat))
    requires
        den > 0,
        level > 0 ==> m >= 0x10_0000_0000_0000 * (den * pow2(level)),
    ensures
        out.0 >= level,
        rounded(m, den * pow2(level), level) == out.0 * 0x10_0000_0000_0000 + out.1,
        out.1 == nearest_even(m, den * pow2(out.0)),
        m < 0x20_0000_0000_0000 * (den * pow2(out.0)),
        out.0 > 0 ==> m >= 0x10_0000_0000_0000 * (den * pow2(out.0)),
    decreases
            (if m < 0x20_0000_0000_0000 * (den * pow2(level)) {
                0
            } else {
                m - den * pow2(level)
            }),
{
    let unit = den * pow2(level);
    lemma_pow2_pos(level);
    assert(unit > 0) by (nonlinear_arith)
        requires
            den > 0,
            pow2(level) > 0,
            unit == den * pow2(level),
    ;
    if m < 0x20_0000_0000_0000 * unit {
        (level, nearest_even(m, unit))
    } else {
        lemma_pow2_unfold(level + 1);
        assert(den * pow2(level + 1) == 2 * unit) by (nonlinear_arith)
            requires
                pow2(level + 1) == 2 * pow2(level),
                unit == den * pow2(level),
        ;
        lemma_rounded_is(m, den, level + 1)
    }
}

/// The magnitude of the pattern of `q` units of a level.
pub proof fn lemma_pattern(level: nat, q: nat)
    requires
        level > 0 ==> q >= 0x10_0000_0000_0000,
        q <= 0x20_0000_0000_0000,
        level * 0x10_0000_0000_0000 + q < DOUBLE_INFINITY,
    ensures
        magnitude((level * 0x10_0000_0000_0000 + q) as u64) == q * pow2(level),
{
    let x = (level * 0x10_0000_0000_0000 + q) as u64;
    lemma_pow2_pos(level);
    lemma_pow2_unfold(level + 1);
    vstd::arithmetic::power2::lemma2_to64();
    if q < 0x10_0000_0000_0000 {
        assert(q * pow2(0) == q);
    } else if q < 0x20_0000_0000_0000 {
        assert(x / 0x10_0000_0000_0000 == level + 1);
        assert(x % 0x10_0000_0000_0000 == q - 0x10_0000_0000_0000);
    } else {
        assert(x / 0x10_0000_0000_0000 == level + 2);
        assert(x % 0x10_0000_0000_0000 == 0);
        assert(0x10_0000_0000_0000 * pow2(level + 1) == q * pow2(level)) by (nonlinear_arith)
            requires
                pow2(level + 1) == 2 * pow2(level),
                q == 0x20_0000_0000_0000,
        ;
    }
}

/// No multiple of a unit is nearer than the rounded one, and none is as near unless it is even.
pub proof fn lemma_nearest_multiple(m: nat, unit: nat, j: nat)
    requires
        unit > 0,
    ensures
        ({
            let q = nearest_even(m, unit);
            &&& distance(m, q * unit) <= distance(m, j * unit)
            &&& j != q && distance(m, q * unit) == distance(m, j * unit) ==> q % 2
                == 0
        }),
{
    let q = nearest_even(m, unit);
    let floor = m / unit;
    let rest = m % unit;
    vstd::arithmetic::div_mod::lemma_fundamental_div_mod(m as int, unit as int);
    vstd::arithmetic::div_mod::lemma_mod_bound(m as int, unit as int);
    assert(unit * floor == floor * unit) by (nonlinear_arith);
    assert((floor + 1) * unit == floor * unit + unit) by (nonlinear_arith);
    if j < floor {
        assert(j * unit + unit <= floor * unit) by (nonlinear_arith)
            requires
                j + 1 <= floor,
        ;
    } else if j > floor + 1 {
        assert(j * unit >= (floor + 1) * unit + unit) by (nonlinear_arith)
            requires
                j >= floor + 2,
        ;
    }
}

/// What is rounded goes to the nearest double: no finite double is closer to `num / den` units, and
/// if another one is as close, the pattern of the one that was taken is even.
pub proof fn ratios_round_to_the_nearest_double(num: nat, den: nat, y: u64)
    requires
        den > 0,
        y < DOUBLE_INFINITY,
        nearest_ratio(num, den) < DOUBLE_INFINITY,
    ensures
        ({
            let r = nearest_ratio(num, den);
            let error = distance(num, den * magnitude(r));
            let other = distance(num, den * magnitude(y));
            &&& error <= other
            &&& error == other && magnitude(y) != magnitude(r) ==> r % 2 == 0
        }),
{
    vstd::arithmetic::power2::lemma2_to64();
    assert(den * pow2(0) == den);
    let (level, q) = lemma_rounded_is(num, den, 0);
    let unit = den * pow2(level);
    lemma_pow2_pos(level);
    assert(unit > 0) by (nonlinear_arith)
        requires
            den > 0,
            pow2(level) > 0,
            unit == den * pow2(level),
    ;
    lemma_quotient_bound(num, unit);
    if level > 0 {
        let least = 0x10_0000_0000_0000 * unit;
        assert(least * unit <= num * unit) by (nonlinear_arith)
            requires
                least <= num,
        ;
        lemma_nearest_even_ordered(least, unit, num, unit);
        lemma_nearest_even_is(0x10_0000_0000_0000 * unit, unit, 0x10_0000_0000_0000);
    }
    let r = nearest_ratio(num, den);
    lemma_pattern(level, q);
    assert(den * magnitude(r) == q * unit) by (nonlinear_arith)
        requires
            magnitude(r) == q * pow2(level),
            unit == den * pow2(level),
    ;
    let exponent = (y / 0x10_0000_0000_0000) as nat;
    let fraction = (y % 0x10_0000_0000_0000) as nat;
    let (k, a) = if exponent == 0 {
        (fraction, 0nat)
    } else {
        (0x10_0000_0000_0000 + fraction, (exponent - 1) as nat)
    };
    assert(fraction * pow2(0) == fraction);
    assert(magnitude(y) == k * pow2(a));
    if a >= level {
        lemma_pow2_split(level, a);
        let j = k * pow2((a - level) as nat);
        assert(den * magnitude(y) == j * unit) by (nonlinear_arith)
            requires
                magnitude(y) == k * pow2(a),
                pow2(a) == pow2(level) * pow2((a - level) as nat),
                j == k * pow2((a - level) as nat),
                unit == den * pow2(level),
        ;
        assert(magnitude(y) == j * pow2(level)) by (nonlinear_arith)
            requires
                magnitude(y) == k * pow2(a),
                pow2(a) == pow2(level) * pow2((a - level) as nat),
                j == k * pow2((a - level) as nat),
        ;
        lemma_nearest_multiple(num, unit, j);
        assert(r % 2 == q % 2);
    } else {
        lemma_pow2_split(a, (level - 1) as nat);
        lemma_pow2_unfold(level);
        assert(k * pow2(a) < 0x10_0000_0000_0000 * pow2(level)) by (nonlinear_arith)
            requires
                k < 0x20_0000_0000_0000,
                0 < pow2(a) <= pow2((level - 1) as nat),
                pow2(level) == 2 * pow2((level - 1) as nat),
        ;
        assert(den * magnitude(y) < 0x10_0000_0000_0000 * unit) by (nonlinear_arith)
            requires
                den > 0,
                magnitude(y) < 0x10_0000_0000_0000 * pow2(level),
                unit == den * pow2(level),
        ;
        lemma_nearest_multiple(num, unit, 0x10_0000_0000_0000);
    }
}

/// Only what exceeds every finite double is rounded to infinity.
pub proof fn only_the_largest_ratios_are_infinite(num: nat, den: nat, y: u64)
    requires
        den > 0,
        y < DOUBLE_INFINITY,
        nearest_ratio(num, den) == DOUBLE_INFINITY,
    ensures
        num > den * magnitude(y),
{
    vstd::arithmetic::power2::lemma2_to64();
    assert(den * pow2(0) == den);
    let (level, q) = lemma_rounded_is(num, den, 0);
    let unit = den * pow2(level);
    let step = den * pow2(2045);
    lemma_pow2_pos(level);
    lemma_pow2_pos(2045);
    assert(unit > 0 && step > 0) by (nonlinear_arith)
        requires
            den > 0,
            pow2(level) > 0,
            pow2(2045) > 0,
            unit == den * pow2(level),
            step == den * pow2(2045),
    ;
    lemma_quotient_bound(num, unit);
    assert(level >= 2045);
    if level == 2045 {
        lemma_nearest_even(num, unit);
        assert(q == 0x20_0000_0000_0000);
    } else {
        lemma_pow2_split(2046, level);
        lemma_pow2_unfold(2046);
        assert(unit >= 2 * step) by (nonlinear_arith)
            requires
                pow2(level) >= pow2(2046),
                pow2(2046) == 2 * pow2(2045),
                unit == den * pow2(level),
                step == den * pow2(2045),
        ;
    }
    assert(num > 0x1f_ffff_ffff_ffff * step);
    let exponent = (y / 0x10_0000_0000_0000) as nat;
    let fraction = (y % 0x10_0000_0000_0000) as nat;
    let (k, a) = if exponent == 0 {
        (fraction, 0nat)
    } else {
        (0x10_0000_0000_0000 + fraction, (exponent - 1) as nat)
    };
    assert(fraction * pow2(0) == fraction);
    assert(magnitude(y) == k * pow2(a));
    lemma_pow2_split(a, 2045);
    assert(den * magnitude(y) <= 0x1f_ffff_ffff_ffff * step) by (nonlinear_arith)
        requires
            magnitude(y) == k * pow2(a),
            k <= 0x1f_ffff_ffff_ffff,
            0 < pow2(a) <= pow2(2045),
            step == den * pow2(2045),
    ;
}

/// Doubles that are not negative are ordered as their patterns are.
pub proof fn larger_patterns_are_larger_doubles(x: u64, y: u64)
    requires
        x < y < DOUBLE_INFINITY,
    ensures
        magnitude(x) < magnitude(y),
{
    let one: nat = 0x10_0000_0000_0000;
    let (e, g) = ((x / 0x10_0000_0000_0000) as nat, (y / 0x10_0000_0000_0000) as nat);
    let (k, l) = ((x % 0x10_0000_0000_0000) as nat, (y % 0x10_0000_0000_0000) as nat);
    vstd::arithmetic::power2::lemma2_to64();
    if e == g {
        if e > 0 {
            lemma_pow2_pos((e - 1) as nat);
            assert((one + k) * pow2((e - 1) as nat) < (one + l) * pow2((e - 1) as nat))
                by (nonlinear_arith)
                requires
                    k < l,
                    pow2((e - 1) as nat) > 0,
            ;
        }
    } else if e == 0 {
        lemma_pow2_pos((g - 1) as nat);
        assert(one <= (one + l) * pow2((g - 1) as nat)) by (nonlinear_arith)
            requires
                pow2((g - 1) as nat) >= 1,
                one >= 0,
        ;
    } else {
        lemma_pow2_split(e, (g - 1) as nat);
        lemma_pow2_unfold(e);
        lemma_pow2_pos((e - 1) as nat);
        assert((one + k) * pow2((e - 1) as nat) < (one + l) * pow2((g - 1) as nat))
            by (nonlinear_arith)
            requires
                k < one,
                2 * pow2((e - 1) as nat) <= pow2((g - 1) as nat),
                pow2((e - 1) as nat) > 0,
        ;
    }
}

} // verus!
