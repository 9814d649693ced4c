//! How much an activation loses on the wire, as an audit would measure it.
//!
//! Rounded to half precision an entry loses at most a 2048th of its size, or of 2^-14 if it is smaller.
//! The relative error is computed in double precision, with roundings of its own; they are monotone
//! and commute with powers of two, so that they add nothing where every entry is large enough, and
//! little where there are others.

use vstd::arithmetic::power2::{lemma_pow2_adds, lemma_pow2_pos, lemma_pow2_unfold, pow2};
use vstd::prelude::*;

use crate::double::{
    body, distance, is_negative, larger_patterns_are_larger_doubles, lemma_pattern, lemma_pow2_split,
    lemma_root, lemma_rounded_is, lemma_rounded_scaled, lemma_scaled, lemma_square_ordered, lemma_whole_root, magnitude, negated,
    nearest_double, nearest_root, product_of, quotient_of, root_of, rounded,
    single_magnitude, sum_of, units, whole_root, widened,
};
use crate::halves::{halved, lemma_singles_ordered, the_wire_keeps_eleven_bits, widened_half};
use crate::numbers::{double_le, DOUBLE_INFINITY};
use crate::shard::{
    lemma_nearest_even, lemma_nearest_even_is, lemma_nearest_even_ordered, nearest_even,
};
use crate::tensor::Grid;
use crate::verify::{all_widened, differences, flat, relative_error, squares, BILLIONTH};
use crate::wire::{activations_arrive_in_half_precision, half_precision, unwired, wired};

verus! {

/// The size of the double nearest to `m` units.
pub open spec fn near(m: nat) -> nat {
    magnitude(nearest_double(m))
}

/// The level of a number that is far from the largest double, and the multiple of that level's unit
/// that it becomes.
pub proof fn lemma_near(m: nat) -> (out: (nat, nat))
    requires
        m <= pow2(2000),
    ensures
        nearest_double(m) < DOUBLE_INFINITY,
        near(m) == out.1 * pow2(out.0),
        out.1 == nearest_even(m, pow2(out.0)),
        m < 0x20_0000_0000_0000 * pow2(out.0),
        out.0 > 0 ==> m >= 0x10_0000_0000_0000 * pow2(out.0),
        out.1 <= 0x20_0000_0000_0000,
        out.0 > 0 ==> out.1 >= 0x10_0000_0000_0000,
        out.0 <= 1948,
        nearest_double(m) == out.0 * 0x10_0000_0000_0000 + out.1,
{
    vstd::arithmetic::power2::lemma2_to64();
    vstd::arithmetic::power2::lemma2_to64_rest();
    assert(1 * pow2(0) == 1);
    let (level, q) = lemma_rounded_is(m, 1, 0);
    let unit = pow2(level);
    assert(1 * unit == unit);
    lemma_pow2_pos(level);
    lemma_nearest_even(m, unit);
    assert(m / unit < 0x20_0000_0000_0000) by (nonlinear_arith)
        requires
            unit > 0,
            m < 0x20_0000_0000_0000 * unit,
    ;
    assert(level <= 1948) by {
        if level > 1948 {
            lemma_pow2_split(1949, level);
            lemma_pow2_adds(52, 1948);
            lemma_pow2_unfold(1949);
        }
    }
    if level > 0 {
        let least = 0x10_0000_0000_0000 * unit;
        lemma_nearest_even_is(least, unit, 0x10_0000_0000_0000);
        assert(least * unit <= m * unit) by (nonlinear_arith)
            requires
                least <= m,
        ;
        lemma_nearest_even_ordered(least, unit, m, unit);
    }
    lemma_pattern(level, q);
    (level, q)
}

/// Rounding keeps the order.
pub proof fn lemma_near_ordered(a: nat, b: nat)
    requires
        a <= b <= pow2(2000),
    ensures
        near(a) <= near(b),
{
    let (k, p) = lemma_near(a);
    let (l, q) = lemma_near(b);
    lemma_pow2_pos(k);
    lemma_pow2_pos(l);
    if k < l {
        lemma_pow2_split(k + 1, l);
        lemma_pow2_unfold(k + 1);
        assert(p * pow2(k) <= q * pow2(l)) by (nonlinear_arith)
            requires
                p <= 0x20_0000_0000_0000,
                q >= 0x10_0000_0000_0000,
                2 * pow2(k) <= pow2(l),
                pow2(k) > 0,
        ;
    } else if l < k {
        lemma_pow2_split(l + 1, k);
        lemma_pow2_unfold(l + 1);
    } else {
        let unit = pow2(k);
        assert(a * unit <= b * unit) by (nonlinear_arith)
            requires
                a <= b,
        ;
        lemma_nearest_even_ordered(a, unit, b, unit);
        assert(p * unit <= q * unit) by (nonlinear_arith)
            requires
                p <= q,
        ;
    }
}

/// Numbers of at most 53 bits are kept.
pub proof fn lemma_near_exact(v: nat, s: nat)
    requires
        v <= 0x20_0000_0000_0000,
        v * pow2(s) <= pow2(2000),
    ensures
        near(v * pow2(s)) == v * pow2(s),
{
    let m = v * pow2(s);
    let (level, q) = lemma_near(m);
    let unit = pow2(level);
    lemma_pow2_pos(s);
    lemma_pow2_pos(level);
    vstd::arithmetic::power2::lemma2_to64();
    if level > s + 1 {
        lemma_pow2_split(s + 2, level);
        lemma_pow2_unfold(s + 2);
        lemma_pow2_unfold(s + 1);
        assert(v * pow2(s) <= 0x20_0000_0000_0000 * pow2(s)) by (nonlinear_arith)
            requires
                v <= 0x20_0000_0000_0000,
        ;
        assert(false);
    }
    if level == s + 1 {
        lemma_pow2_unfold(s + 1);
        // Only the largest number of that many bits is at the next level.
        assert(v == 0x20_0000_0000_0000) by (nonlinear_arith)
            requires
                v <= 0x20_0000_0000_0000,
                v * pow2(s) >= 0x10_0000_0000_0000 * (2 * pow2(s)),
                pow2(s) > 0,
        ;
        assert(m == 0x10_0000_0000_0000 * unit) by (nonlinear_arith)
            requires
                m == 0x20_0000_0000_0000 * pow2(s),
                unit == 2 * pow2(s),
        ;
        lemma_nearest_even_is(m, unit, 0x10_0000_0000_0000);
    } else {
        lemma_pow2_split(level, s);
        let w = v * pow2((s - level) as nat);
        assert(m == w * unit) by (nonlinear_arith)
            requires
                m == v * pow2(s),
                pow2(s) == unit * pow2((s - level) as nat),
                w == v * pow2((s - level) as nat),
        ;
        lemma_nearest_even_is(m, unit, w);
    }
}

/// Rounding commutes with powers of two.
proof fn lemma_near_scaled(m: nat, k: nat)
    requires
        m * pow2(k) <= pow2(2000),
    ensures
        m <= pow2(2000),
        near(m * pow2(k)) == near(m) * pow2(k),
{
    lemma_pow2_pos(k);
    assert(m <= m * pow2(k)) by (nonlinear_arith)
        requires
            pow2(k) >= 1,
    ;
    let (level, q) = lemma_near(m);
    vstd::arithmetic::power2::lemma2_to64();
    if level == 0 {
        lemma_nearest_even_is(m, 1, m);
        assert(q * 1 == m);
        lemma_near_exact(m, k);
    } else {
        let big = m * pow2(k);
        let (high, p) = lemma_near(big);
        lemma_pow2_adds(level, k);
        lemma_pow2_pos(level);
        let unit = pow2(level) * pow2(k);
        assert(0x10_0000_0000_0000 * unit <= big < 0x20_0000_0000_0000 * unit) by (nonlinear_arith)
            requires
                big == m * pow2(k),
                unit == pow2(level) * pow2(k),
                0x10_0000_0000_0000 * pow2(level) <= m < 0x20_0000_0000_0000 * pow2(level),
                pow2(k) > 0,
        ;
        if high < level + k {
            lemma_pow2_split(high + 1, level + k);
            lemma_pow2_unfold(high + 1);
            assert(false);
        }
        if high > level + k {
            lemma_pow2_split(level + k + 1, high);
            lemma_pow2_unfold(level + k + 1);
            assert(false);
        }
        lemma_scaled(m, pow2(level), pow2(k));
        assert(q * unit == (q * pow2(level)) * pow2(k)) by (nonlinear_arith)
            requires
                unit == pow2(level) * pow2(k),
        ;
    }
}

/// What is `2^k` times smaller stays so when both are rounded.
proof fn lemma_near_apart(a: nat, b: nat, k: nat)
    requires
        a * pow2(k) <= b <= pow2(2000),
    ensures
        near(a) * pow2(k) <= near(b),
        a <= pow2(2000),
{
    lemma_near_scaled(a, k);
    lemma_near_ordered(a * pow2(k), b);
}

/// A finite double is a number of at most 53 bits.
pub proof fn lemma_bits(x: u64) -> (out: (nat, nat))
    requires
        body(x) < DOUBLE_INFINITY,
    ensures
        magnitude(x) == out.0 * pow2(out.1),
        out.0 < 0x20_0000_0000_0000,
        out.1 <= 2045,
        out.1 * 0x10_0000_0000_0000 <= body(x),
{
    vstd::arithmetic::power2::lemma2_to64();
    let exponent = (body(x) / 0x10_0000_0000_0000) as nat;
    let fraction = (body(x) % 0x10_0000_0000_0000) as nat;
    if exponent == 0 {
        assert(fraction * 1 == fraction);
        (fraction, 0)
    } else {
        (0x10_0000_0000_0000 + fraction, (exponent - 1) as nat)
    }
}

/// The sum of two doubles that are not negative.
pub proof fn lemma_sum(x: u64, y: u64)
    requires
        x < DOUBLE_INFINITY,
        y < DOUBLE_INFINITY,
        magnitude(x) + magnitude(y) <= pow2(2000),
    ensures
        sum_of(x, y) < DOUBLE_INFINITY,
        magnitude(sum_of(x, y)) == near(magnitude(x) + magnitude(y)),
{
    lemma_near(magnitude(x) + magnitude(y));
    vstd::arithmetic::power2::lemma2_to64();
    if x == 0 && y == 0 {
        assert(0 * pow2(0) == 0);
        lemma_near_exact(0, 0);
    }
}

/// The square of a double that is `n` units of singles.
proof fn lemma_square(x: u64, n: nat)
    requires
        body(x) < DOUBLE_INFINITY,
        magnitude(x) == n * pow2(925),
        n <= pow2(165),
    ensures
        n * n * pow2(776) <= pow2(1106),
        product_of(x, x) < DOUBLE_INFINITY,
        magnitude(product_of(x, x)) == near(n * n * pow2(776)),
{
    let m = n * n * pow2(776);
    lemma_pow2_adds(165, 165);
    lemma_pow2_adds(330, 776);
    assert(n * n <= pow2(165) * pow2(165)) by (nonlinear_arith)
        requires
            n <= pow2(165),
    ;
    assert(m <= pow2(330) * pow2(776)) by (nonlinear_arith)
        requires
            n * n <= pow2(330),
            m == n * n * pow2(776),
    ;
    lemma_pow2_split(1106, 2000);
    lemma_pow2_adds(925, 925);
    lemma_pow2_adds(776, 1074);
    lemma_pow2_pos(1074);
    let p = pow2(925);
    assert((n * p) * (n * p) == (n * n) * (p * p)) by (nonlinear_arith);
    assert((n * n) * (pow2(776) * pow2(1074)) == m * pow2(1074)) by (nonlinear_arith)
        requires
            m == n * n * pow2(776),
    ;
    lemma_rounded_scaled(m, 1, pow2(1074), 0);
    assert(1 * pow2(1074) == pow2(1074));
    lemma_near(m);
}

/// Sums of squares: where every entry of one list is 2048 times smaller than that of the other, its
/// sum is smaller by the square of that.
proof fn lemma_squares_apart(small: Seq<u64>, large: Seq<u64>, below: Seq<nat>, sizes: Seq<nat>)
    requires
        small.len() == large.len(),
        below.len() == large.len(),
        sizes.len() == large.len(),
        large.len() < 0x20_0000_0000_0000,
        forall|i: int| #![trigger small[i]] #![trigger large[i]]
            0 <= i < large.len() ==> {
                &&& body(small[i]) < DOUBLE_INFINITY
                &&& body(large[i]) < DOUBLE_INFINITY
                &&& magnitude(small[i]) == below[i] * pow2(925)
                &&& magnitude(large[i]) == sizes[i] * pow2(925)
                &&& 2048 * below[i] <= sizes[i] <= pow2(165)
            },
    ensures
        squares(small) < DOUBLE_INFINITY,
        squares(large) < DOUBLE_INFINITY,
        magnitude(squares(small)) * pow2(22) <= magnitude(squares(large)),
        magnitude(squares(large)) <= large.len() * pow2(1106),
    decreases large.len(),
{
    vstd::arithmetic::power2::lemma2_to64();
    if large.len() == 0 {
        assert(0 * pow2(22) == 0 && 0 * pow2(1106) == 0);
    } else {
        let last = large.len() - 1;
        let (s, l) = (small.drop_last(), large.drop_last());
        let (b, z) = (below.drop_last(), sizes.drop_last());
        assert forall|i: int| #![trigger s[i]] #![trigger l[i]] 0 <= i < l.len() implies {
            &&& body(s[i]) < DOUBLE_INFINITY
            &&& body(l[i]) < DOUBLE_INFINITY
            &&& magnitude(s[i]) == b[i] * pow2(925)
            &&& magnitude(l[i]) == z[i] * pow2(925)
            &&& 2048 * b[i] <= z[i] <= pow2(165)
        } by {
            assert(s[i] == small[i] && l[i] == large[i]);
        }
        lemma_squares_apart(s, l, b, z);
        assert(small[last] == small.last() && large[last] == large.last());
        let (d, n) = (below[last], sizes[last]);
        lemma_square(small.last(), d);
        lemma_square(large.last(), n);
        let (p, q) = (d * d * pow2(776), n * n * pow2(776));
        lemma_pow2_split(1106, 2000);
        assert(p * pow2(22) <= q) by {
            assert((2048 * d) * (2048 * d) <= n * n) by (nonlinear_arith)
                requires
                    2048 * d <= n,
            ;
            assert(p * 0x40_0000 == ((2048 * d) * (2048 * d)) * pow2(776)) by (nonlinear_arith)
                requires
                    p == d * d * pow2(776),
            ;
            assert(((2048 * d) * (2048 * d)) * pow2(776) <= (n * n) * pow2(776))
                by (nonlinear_arith)
                requires
                    (2048 * d) * (2048 * d) <= n * n,
            ;
        }
        lemma_near_apart(p, q, 22);
        // The sums.
        let (over, under) = (magnitude(squares(s)), magnitude(squares(l)));
        let (x, y) = (near(p), near(q));
        assert((over + x) * pow2(22) == over * pow2(22) + x * pow2(22)) by (nonlinear_arith);
        lemma_near_ordered(q, pow2(1106));
        assert(1 * pow2(1106) == pow2(1106));
        lemma_near_exact(1, 1106);
        let count = large.len();
        assert(last * pow2(1106) + pow2(1106) == count * pow2(1106)) by (nonlinear_arith)
            requires
                last + 1 == count,
        ;
        assert(count * pow2(1106) <= pow2(2000)) by {
            vstd::arithmetic::power2::lemma2_to64_rest();
            lemma_pow2_adds(53, 1106);
            lemma_pow2_split(1159, 2000);
            assert(count * pow2(1106) <= 0x20_0000_0000_0000 * pow2(1106)) by (nonlinear_arith)
                requires
                    count <= 0x20_0000_0000_0000,
            ;
        }
        lemma_near_apart(over + x, under + y, 22);
        lemma_near_ordered(under + y, count * pow2(1106));
        lemma_near_exact(count, 1106);
        lemma_sum(squares(s), product_of(small.last(), small.last()));
        lemma_sum(squares(l), product_of(large.last(), large.last()));
    }
}

/// A single of at most 65504 as a double.
proof fn lemma_widened_size(x: u32)
    requires
        x % 0x8000_0000 <= 0x4780_0000,
    ensures
        body(widened(x)) < DOUBLE_INFINITY,
        is_negative(widened(x)) == (x >= 0x8000_0000),
        magnitude(widened(x)) == single_magnitude(x) * pow2(925),
        single_magnitude(x) <= pow2(165),
        near(single_magnitude(x)) == single_magnitude(x),
{
    let size = single_magnitude(x);
    let exponent = (x % 0x8000_0000 / 0x80_0000) as nat;
    let fraction = (x % 0x8000_0000 % 0x80_0000) as nat;
    vstd::arithmetic::power2::lemma2_to64();
    let (v, s): (nat, nat) = if exponent == 0 {
        (fraction, 0)
    } else {
        (0x80_0000 + fraction, (exponent - 1) as nat)
    };
    assert(size == v * pow2(s)) by {
        if exponent == 0 {
            assert(v * 1 == v);
        }
    }
    assert(size <= pow2(165)) by {
        lemma_pow2_adds(23, 142);
        if s == 142 {
            assert(v == 0x80_0000);
        } else {
            lemma_pow2_adds(24, 141);
            lemma_pow2_split(s, 141);
            assert(v * pow2(s) <= 0x100_0000 * pow2(141)) by (nonlinear_arith)
                requires
                    v <= 0x100_0000,
                    pow2(s) <= pow2(141),
            ;
        }
    }
    lemma_pow2_split(165, 2000);
    lemma_near_exact(v, s);
    lemma_pow2_adds(165, 925);
    lemma_pow2_split(1090, 2000);
    assert(size * pow2(925) <= pow2(165) * pow2(925)) by (nonlinear_arith)
        requires
            size <= pow2(165),
    ;
    lemma_near_scaled(size, 925);
    lemma_near(size * pow2(925));
    let w = widened(x);
    let plain = nearest_double(size * pow2(925));
    assert(body(w) == plain);
    assert(magnitude(w) == magnitude(plain));
}

/// Whether a single is within the range of halves: at most 65504.
pub open spec fn is_in_range(x: u32) -> bool {
    x % 0x8000_0000 <= 0x477f_e000
}

/// Whether a single within the range of halves is zero, or keeps all bits of its half: from 2^-14 on.
pub open spec fn is_normal(x: u32) -> bool {
    is_in_range(x) && (x % 0x8000_0000 == 0 || 0x3880_0000 <= x % 0x8000_0000)
}

/// The size of a single, or 2^-14 if it is smaller.
pub open spec fn lifted_size(x: u32) -> nat {
    if single_magnitude(x) < pow2(135) {
        pow2(135)
    } else {
        single_magnitude(x)
    }
}

/// A single within the range of halves arrives as one that is at most 65536 and differs from it by at
/// most a 2048th of its size, or of 2^-14.
proof fn lemma_arrives(x: u32)
    requires
        is_in_range(x),
    ensures
        ({
            let y = widened_half(halved(x));
            let error = distance(single_magnitude(x), single_magnitude(y));
            &&& y % 0x8000_0000 <= 0x4780_0000
            &&& (y >= 0x8000_0000) == (x >= 0x8000_0000)
            &&& 2048 * error <= lifted_size(x)
            &&& is_normal(x) ==> 2048 * error <= single_magnitude(x)
        }),
{
    let y = widened_half(halved(x));
    let (m, n) = (single_magnitude(x), single_magnitude(y));
    the_wire_keeps_eleven_bits(x);
    vstd::arithmetic::power2::lemma2_to64();
    lemma_pow2_adds(125, 10);
    lemma_pow2_split(135, 141);
    lemma_pow2_unfold(142);
    lemma_pow2_pos(141);
    assert(single_magnitude(0x477f_e000) == 0xff_e000 * pow2(141));
    assert(single_magnitude(0x4780_0000) == 0x80_0000 * pow2(142));
    if x % 0x8000_0000 < 0x477f_e000 {
        lemma_singles_ordered(x, 0x477f_e000);
    }
    if x % 0x8000_0000 == 0 {
        lemma_pow2_pos(125);
        lemma_nearest_even_is(0, pow2(125), 0);
        assert(single_magnitude(x) == 0);
        assert(halved(x) % 0x8000 == 0);
        assert(y % 0x8000_0000 == 0);
    } else if y % 0x8000_0000 > 0x4780_0000 {
        lemma_singles_ordered(0x4780_0000, y);
        assert(false) by (nonlinear_arith)
            requires
                n > 0x80_0000 * (2 * pow2(141)),
                m <= 0xff_e000 * pow2(141),
                2048 * (n - m) <= m || 2048 * (n - m) <= pow2(135),
                pow2(135) <= pow2(141),
                pow2(141) > 0,
        ;
    }
}

/// The difference of two doubles of one sign.
proof fn lemma_difference(a: u64, b: u64)
    requires
        body(a) < DOUBLE_INFINITY,
        body(b) < DOUBLE_INFINITY,
        is_negative(a) == is_negative(b),
        distance(magnitude(a), magnitude(b)) <= pow2(2000),
    ensures
        body(sum_of(a, negated(b))) < DOUBLE_INFINITY,
        magnitude(sum_of(a, negated(b))) == near(distance(magnitude(a), magnitude(b)) as nat),
{
    let c = negated(b);
    let size = distance(magnitude(a), magnitude(b)) as nat;
    assert(body(c) == body(b));
    assert(magnitude(c) == magnitude(b));
    lemma_near(size);
    let delta = sum_of(a, c);
    if body(a) == 0 && body(b) == 0 {
        assert(magnitude(a) == 0 && magnitude(b) == 0);
        vstd::arithmetic::power2::lemma2_to64();
        assert(0 * pow2(0) == 0);
        lemma_near_exact(0, 0);
        assert(body(delta) == 0);
        assert(magnitude(delta) == 0);
    } else {
        let value = units(a) + units(c);
        assert(value == size || value == -size);
        assert(body(delta) == nearest_double(size));
        assert(magnitude(delta) == magnitude(nearest_double(size)));
    }
}

/// What an entry loses on the wire, as the audit computes it, in units of singles.
spec fn loss(x: u32) -> nat {
    near(distance(single_magnitude(x), single_magnitude(widened_half(halved(x)))) as nat)
}

/// What an entry loses on the wire, as the audit computes it, is 2048 times smaller than the entry, or
/// than 2^-14.
proof fn lemma_loss(x: u32)
    requires
        is_in_range(x),
    ensures
        ({
            let delta = sum_of(widened(widened_half(halved(x))), negated(widened(x)));
            &&& body(delta) < DOUBLE_INFINITY
            &&& magnitude(delta) == loss(x) * pow2(925)
            &&& 2048 * loss(x) <= lifted_size(x)
            &&& is_normal(x) ==> 2048 * loss(x) <= single_magnitude(x)
        }),
{
    let y = widened_half(halved(x));
    let (m, n) = (single_magnitude(x), single_magnitude(y));
    lemma_arrives(x);
    lemma_widened_size(x);
    lemma_widened_size(y);
    let error = distance(m, n) as nat;
    let p = pow2(925);
    vstd::arithmetic::power2::lemma2_to64();
    lemma_pow2_split(165, 2000);
    lemma_pow2_split(135, 165);
    lemma_near_apart(error, lifted_size(x), 11);
    assert(1 * pow2(135) == pow2(135));
    lemma_near_exact(1, 135);
    if is_normal(x) {
        lemma_near_apart(error, m, 11);
    }
    lemma_pow2_adds(165, 925);
    lemma_pow2_split(1090, 2000);
    assert(error * p <= pow2(165) * p) by (nonlinear_arith)
        requires
            error <= pow2(165),
    ;
    lemma_near_scaled(error, 925);
    assert(distance(n * p, m * p) == error * p) by {
        assert((m - n) * p == m * p - n * p) by (nonlinear_arith);
        assert((n - m) * p == n * p - m * p) by (nonlinear_arith);
        assert(m <= n ==> m * p <= n * p) by (nonlinear_arith);
        assert(n <= m ==> n * p <= m * p) by (nonlinear_arith);
    }
    lemma_difference(widened(y), widened(x));
}

/// How far rounding goes: by at most a 2^-53rd of the number.
proof fn lemma_near_bounds(m: nat)
    requires
        m <= pow2(2000),
    ensures
        near(m) * 0x20_0000_0000_0000 <= m * 0x20_0000_0000_0001,
        near(m) * 0x20_0000_0000_0000 >= m * 0x1f_ffff_ffff_ffff,
{
    let (level, q) = lemma_near(m);
    let unit = pow2(level);
    lemma_pow2_pos(level);
    if level == 0 {
        vstd::arithmetic::power2::lemma2_to64();
        lemma_nearest_even_is(m, 1, m);
        assert(m * 1 == m);
    } else {
        lemma_nearest_even(m, unit);
    }
}

/// One more square in both sums: `small` and `large` are the sums so far, `p` and `q` the squares, and
/// `base` is added to every square of the large sum.
proof fn lemma_one_more(small: nat, large: nat, p: nat, q: nat, base: nat, count: nat)
    requires
        count < 0x4_0000_0000_0000,
        small * 0x40_0000 * 0x20_0000_0000_0000 <= (large + count * base) * (0x20_0000_0000_0000 + 4
            * count),
        p * 0x40_0000 <= q + base,
        small + p <= pow2(2000),
        large + q <= pow2(2000),
    ensures
        near(small + p) * 0x40_0000 * 0x20_0000_0000_0000 <= (near(large + q) + (count + 1) * base)
            * (0x20_0000_0000_0000 + 4 * (count + 1)),
{
    let e = 0x20_0000_0000_0000int;
    let g = e + 4 * count;
    let (n, t) = (near(small + p) as int, near(large + q) as int);
    lemma_near_bounds(small + p);
    lemma_near_bounds(large + q);
    let k = (count + 1) * base;
    assert(k == count * base + base) by (nonlinear_arith)
        requires
            k == (count + 1) * base,
    ;
    let s = large + q;
    let both = (s + k) as int;
    // Before rounding.
    assert((small + p) * 0x40_0000 * e <= both * g) by {
        let a = (large + count * base) as int;
        assert((q + base) * e <= (q + base) * g) by (nonlinear_arith)
            requires
                e <= g,
                q + base >= 0,
        ;
        assert(a * g + (q + base) * g == (a + (q + base)) * g) by (nonlinear_arith);
        assert(a + (q + base) == both);
    }
    // The small sum is rounded up, the large one down.
    assert(n * 0x40_0000 * e * e <= both * g * (e + 1)) by {
        assert(n * e <= (small + p) * (e + 1));
        let sp = (small + p) as int;
        assert(n * 0x40_0000 * e * e == (n * e) * (0x40_0000 * e)) by (nonlinear_arith);
        assert((n * e) * (0x40_0000 * e) <= (sp * (e + 1)) * (0x40_0000 * e)) by (nonlinear_arith)
            requires
                n * e <= sp * (e + 1),
                e > 0,
        ;
        assert((sp * (e + 1)) * (0x40_0000 * e) == (sp * 0x40_0000 * e) * (e + 1))
            by (nonlinear_arith);
        assert((sp * 0x40_0000 * e) * (e + 1) <= (both * g) * (e + 1)) by (nonlinear_arith)
            requires
                sp * 0x40_0000 * e <= both * g,
                e > 0,
        ;
    }
    let after = t + k;
    assert(both * (e - 1) <= after * e) by {
        assert(k * (e - 1) <= k * e);
        assert(both * (e - 1) == s * (e - 1) + k * (e - 1)) by (nonlinear_arith)
            requires
                both == s + k,
        ;
        assert(after * e == t * e + k * e) by (nonlinear_arith)
            requires
                after == t + k,
        ;
    }
    let h = g + 4;
    assert(g * (e + 1) <= h * (e - 1));
    assert(n * 0x40_0000 * e <= after * h) by {
        let x = n * 0x40_0000 * e;
        assert((x * e) * (e - 1) <= (both * g * (e + 1)) * (e - 1)) by (nonlinear_arith)
            requires
                x * e <= both * g * (e + 1),
                e > 1,
        ;
        assert((both * g * (e + 1)) * (e - 1) == (both * (e - 1)) * (g * (e + 1)))
            by (nonlinear_arith);
        assert((both * (e - 1)) * (g * (e + 1)) <= (after * e) * (g * (e + 1)))
            by (nonlinear_arith)
            requires
                both * (e - 1) <= after * e,
                g * (e + 1) >= 0,
        ;
        assert((after * e) * (g * (e + 1)) <= (after * e) * (h * (e - 1))) by (nonlinear_arith)
            requires
                g * (e + 1) <= h * (e - 1),
                after * e >= 0,
        ;
        assert((after * e) * (h * (e - 1)) == ((after * h) * e) * (e - 1)) by (nonlinear_arith);
        assert(x <= after * h) by (nonlinear_arith)
            requires
                (x * e) * (e - 1) <= ((after * h) * e) * (e - 1),
                e > 1,
        ;
    }
}

/// Sums of squares where every entry of one list is 2048 times smaller than that of the other, or than
/// 2^-14: the sum is smaller by the square of that, if 2^-28 is added for every entry, up to the
/// rounding errors.
proof fn lemma_squares_near(small: Seq<u64>, large: Seq<u64>, below: Seq<nat>, sizes: Seq<nat>)
    requires
        small.len() == large.len(),
        below.len() == large.len(),
        sizes.len() == large.len(),
        large.len() < 0x4_0000_0000_0000,
        forall|i: int| #![trigger small[i]] #![trigger large[i]]
            0 <= i < large.len() ==> {
                &&& body(small[i]) < DOUBLE_INFINITY
                &&& body(large[i]) < DOUBLE_INFINITY
                &&& magnitude(small[i]) == below[i] * pow2(925)
                &&& magnitude(large[i]) == sizes[i] * pow2(925)
                &&& 2048 * below[i] <= sizes[i] || 2048 * below[i] <= pow2(135)
                &&& sizes[i] <= pow2(165)
            },
    ensures
        squares(small) < DOUBLE_INFINITY,
        squares(large) < DOUBLE_INFINITY,
        magnitude(squares(large)) <= large.len() * pow2(1106),
        magnitude(squares(small)) * 0x40_0000 * 0x20_0000_0000_0000 <= (magnitude(squares(large))
            + large.len() * pow2(1046)) * (0x20_0000_0000_0000 + 4 * large.len()),
    decreases large.len(),
{
    vstd::arithmetic::power2::lemma2_to64();
    if large.len() == 0 {
        assert(0 * pow2(1046) == 0 && 0 * pow2(1106) == 0);
    } else {
        let last = large.len() - 1;
        let (s, l) = (small.drop_last(), large.drop_last());
        let (b, z) = (below.drop_last(), sizes.drop_last());
        assert forall|i: int| #![trigger s[i]] #![trigger l[i]] 0 <= i < l.len() implies {
            &&& body(s[i]) < DOUBLE_INFINITY
            &&& body(l[i]) < DOUBLE_INFINITY
            &&& magnitude(s[i]) == b[i] * pow2(925)
            &&& magnitude(l[i]) == z[i] * pow2(925)
            &&& 2048 * b[i] <= z[i] || 2048 * b[i] <= pow2(135)
            &&& z[i] <= pow2(165)
        } by {
            assert(s[i] == small[i] && l[i] == large[i]);
        }
        lemma_squares_near(s, l, b, z);
        assert(small[last] == small.last() && large[last] == large.last());
        let (d, n) = (below[last], sizes[last]);
        lemma_pow2_split(135, 165);
        lemma_square(small.last(), d);
        lemma_square(large.last(), n);
        let (p, q) = (d * d * pow2(776), n * n * pow2(776));
        lemma_pow2_split(1106, 2000);
        lemma_lost_square(d, n);
        let (over, under) = (magnitude(squares(s)), magnitude(squares(l)));
        let count = large.len();
        lemma_near_ordered(q, pow2(1106));
        assert(1 * pow2(1106) == pow2(1106));
        lemma_near_exact(1, 1106);
        assert(last * pow2(1106) + pow2(1106) == count * pow2(1106)) by (nonlinear_arith)
            requires
                last + 1 == count,
        ;
        assert(count * pow2(1106) <= pow2(1159)) by {
            vstd::arithmetic::power2::lemma2_to64_rest();
            lemma_pow2_adds(53, 1106);
            assert(count * pow2(1106) <= 0x20_0000_0000_0000 * pow2(1106)) by (nonlinear_arith)
                requires
                    count <= 0x20_0000_0000_0000,
            ;
        }
        lemma_pow2_split(1159, 2000);
        assert(over + near(p) <= pow2(2000)) by {
            let f = pow2(1046);
            lemma_pow2_split(1046, 1106);
            assert(last * f <= last * pow2(1106)) by (nonlinear_arith)
                requires
                    f <= pow2(1106),
                    last >= 0,
            ;
            let all = under + last * f;
            assert(all * (0x20_0000_0000_0000 + 4 * last) <= all * 0x40_0000_0000_0000)
                by (nonlinear_arith)
                requires
                    0x20_0000_0000_0000 + 4 * last <= 0x40_0000_0000_0000,
                    all >= 0,
            ;
            assert(over <= all);
            lemma_pow2_split(1162, 2000);
            lemma_pow2_adds(1159, 3);
        }
        lemma_one_more(over, under, near(p), near(q), pow2(1046), last as nat);
        lemma_near_ordered(under + near(q), count * pow2(1106));
        lemma_near_exact(count, 1106);
        lemma_sum(squares(s), product_of(small.last(), small.last()));
        lemma_sum(squares(l), product_of(large.last(), large.last()));
    }
}

/// The square of what was lost, against the square of the entry.
proof fn lemma_lost_square(d: nat, n: nat)
    requires
        2048 * d <= n || 2048 * d <= pow2(135),
        n <= pow2(165),
        n * n * pow2(776) <= pow2(1106),
    ensures
        near(d * d * pow2(776)) * 0x40_0000 <= near(n * n * pow2(776)) + pow2(1046),
        near(d * d * pow2(776)) <= pow2(1046) + near(n * n * pow2(776)),
{
    vstd::arithmetic::power2::lemma2_to64();
    let base = pow2(776);
    let p = d * d * base;
    let most: nat = if 2048 * d <= n {
        n
    } else {
        pow2(135)
    };
    let q = most * most * base;
    lemma_pow2_adds(135, 135);
    lemma_pow2_adds(270, 776);
    lemma_pow2_split(1046, 1106);
    lemma_pow2_split(1106, 2000);
    assert(p * 0x40_0000 <= q) by {
        assert((2048 * d) * (2048 * d) <= most * most) by (nonlinear_arith)
            requires
                2048 * d <= most,
        ;
        assert(p * 0x40_0000 == ((2048 * d) * (2048 * d)) * base) by (nonlinear_arith)
            requires
                p == d * d * base,
        ;
        assert(((2048 * d) * (2048 * d)) * base <= (most * most) * base) by (nonlinear_arith)
            requires
                (2048 * d) * (2048 * d) <= most * most,
        ;
    }
    lemma_near_apart(p, q, 22);
    assert(1 * pow2(1046) == pow2(1046));
    lemma_near_exact(1, 1046);
}

/// What has all bits at a level is at least the first pattern of the next one.
proof fn lemma_rounded_above(m: nat, unit: nat, level: nat)
    requires
        unit > 0,
        m >= 0x10_0000_0000_0000 * unit,
    ensures
        rounded(m, unit, level) >= (level + 1) * 0x10_0000_0000_0000,
    decreases (if m < 0x20_0000_0000_0000 * unit { 0 } else { m - unit }),
{
    if m < 0x20_0000_0000_0000 * unit {
        let least = 0x10_0000_0000_0000 * unit;
        lemma_nearest_even_is(least, unit, 0x10_0000_0000_0000);
        assert(least * unit <= m * unit) by (nonlinear_arith)
            requires
                least <= m,
        ;
        lemma_nearest_even_ordered(least, unit, m, unit);
    } else {
        lemma_rounded_above(m, 2 * unit, level + 1);
    }
}

/// Ratios are rounded in order.
pub proof fn lemma_rounded_ordered(a: nat, b: nat, c: nat, d: nat, level: nat)
    requires
        b > 0,
        d > 0,
        a * d <= c * b,
    ensures
        rounded(a, b, level) <= rounded(c, d, level),
    decreases (if c < 0x20_0000_0000_0000 * d { 0 } else { c - d }),
{
    let most = 0x20_0000_0000_0000nat;
    if c < most * d {
        assert(a < most * b) by (nonlinear_arith)
            requires
                a * d <= c * b,
                c < most * d,
                b > 0,
                d > 0,
        ;
        lemma_nearest_even_ordered(a, b, c, d);
    } else if a < most * b {
        lemma_nearest_even(a, b);
        assert(a / b < most) by (nonlinear_arith)
            requires
                b > 0,
                a < most * b,
        ;
        lemma_rounded_above(c, 2 * d, level + 1);
    } else {
        assert(a * (2 * d) <= c * (2 * b)) by (nonlinear_arith)
            requires
                a * d <= c * b,
        ;
        lemma_rounded_ordered(a, 2 * b, c, 2 * d, level + 1);
    }
}

/// The larger pattern is that of the larger double.
pub proof fn lemma_magnitudes_ordered(x: u64, y: u64)
    requires
        x <= y < DOUBLE_INFINITY,
    ensures
        magnitude(x) <= magnitude(y),
{
    let one: nat = 0x10_0000_0000_0000;
    let (e, g) = ((x / 0x10_0000_0000_0000) as nat, (y / 0x10_0000_0000_0000) as nat);
    let (k, l) = ((x % 0x10_0000_0000_0000) as nat, (y % 0x10_0000_0000_0000) as nat);
    vstd::arithmetic::power2::lemma2_to64();
    if e == g {
        if e > 0 {
            lemma_pow2_pos((e - 1) as nat);
            assert((one + k) * pow2((e - 1) as nat) <= (one + l) * pow2((e - 1) as nat))
                by (nonlinear_arith)
                requires
                    k <= l,
            ;
        }
    } else if e == 0 {
        lemma_pow2_pos((g - 1) as nat);
        assert(one <= (one + l) * pow2((g - 1) as nat)) by (nonlinear_arith)
            requires
                pow2((g - 1) as nat) >= 1,
        ;
    } else {
        lemma_pow2_split(e, (g - 1) as nat);
        lemma_pow2_unfold(e);
        assert((one + k) * pow2((e - 1) as nat) <= (one + l) * pow2((g - 1) as nat))
            by (nonlinear_arith)
            requires
                k < one,
                2 * pow2((e - 1) as nat) <= pow2((g - 1) as nat),
        ;
    }
}

/// A number as one of 107 or 108 bits and an even power of two.
proof fn lemma_evenly(w: nat, e: nat) -> (out: (nat, nat))
    requires
        0 < w < 0x800_0000_0000_0000_0000_0000_0000,
        w < 0x20_0000_0000_0000 || w % 2 == 0,
        w * pow2(e) >= 0x800_0000_0000_0000_0000_0000_0000,
    ensures
        w * pow2(e) == out.0 * pow2(2 * out.1),
        0x400_0000_0000_0000_0000_0000_0000 <= out.0 < 0x1000_0000_0000_0000_0000_0000_0000,
        out.0 % 2 == 0,
    decreases e,
{
    vstd::arithmetic::power2::lemma2_to64();
    if e == 0 {
        assert(w * pow2(0) == w);
        assert(false);
    }
    lemma_pow2_unfold(e);
    let half = pow2((e - 1) as nat);
    assert((2 * w) * half == w * (2 * half)) by (nonlinear_arith);
    if w < 0x400_0000_0000_0000_0000_0000_0000 {
        lemma_evenly(2 * w, (e - 1) as nat)
    } else if e % 2 == 0 {
        (w, e / 2)
    } else {
        (2 * w, ((e - 1) / 2) as nat)
    }
}

/// The whole root of a number of 107 or 108 bits.
proof fn lemma_long_root(t: nat) -> (n: nat)
    requires
        0x400_0000_0000_0000_0000_0000_0000 <= t < 0x1000_0000_0000_0000_0000_0000_0000,
    ensures
        n * n <= t < (n + 1) * (n + 1),
        0x20_0000_0000_0000 <= n < 0x40_0000_0000_0000,
{
    let n = whole_root(t);
    lemma_whole_root(t);
    let (least, most) = (0x20_0000_0000_0000nat, 0x40_0000_0000_0000nat);
    assert(least * least == 0x400_0000_0000_0000_0000_0000_0000) by (nonlinear_arith)
        requires
            least == 0x20_0000_0000_0000,
    ;
    assert(most * most == 0x1000_0000_0000_0000_0000_0000_0000) by (nonlinear_arith)
        requires
            most == 0x40_0000_0000_0000,
    ;
    lemma_square_ordered(least, n + 1);
    lemma_square_ordered(n, most);
    n
}

/// Roots keep the order.
proof fn lemma_roots_ordered(a: nat, b: nat)
    requires
        a <= b,
    ensures
        nearest_root(a) <= nearest_root(b),
{
    let (r, t) = (whole_root(a), whole_root(b));
    lemma_whole_root(a);
    lemma_whole_root(b);
    lemma_square_ordered(r, t + 1);
    let x: nat = 2 * r + if r * r == a {
        0nat
    } else {
        1
    };
    let y: nat = 2 * t + if t * t == b {
        0nat
    } else {
        1
    };
    assert(x <= y);
    assert(x * 2 <= y * 2);
    lemma_rounded_ordered(x, 2, y, 2, 0);
}

/// The level of the root of a double, and the number of units that it has there. What is `4^h` times
/// as large has a root `2^h` times as large.
proof fn lemma_root_scaled(x: u64, h: nat) -> (out: (nat, nat))
    requires
        0 < x < DOUBLE_INFINITY,
        magnitude(x) <= pow2(1200),
        h <= 20,
    ensures
        root_of(x) == out.0 * 0x10_0000_0000_0000 + out.1,
        nearest_root((magnitude(x) * pow2(1074)) * pow2(2 * h)) == (out.0 + h)
            * 0x10_0000_0000_0000 + out.1,
        0 < out.0 <= 1200,
        0x10_0000_0000_0000 <= out.1 <= 0x20_0000_0000_0000,
{
    let (v, e) = lemma_bits(x);
    let m = magnitude(x) * pow2(1074);
    vstd::arithmetic::power2::lemma2_to64();
    vstd::arithmetic::power2::lemma2_to64_rest();
    lemma_pow2_pos(e);
    if v == 0 {
        assert(0 * pow2(e) == 0);
        lemma_magnitudes_ordered(1, x);
        assert(magnitude(1) == 1);
    }
    lemma_pow2_adds(e, 1074);
    assert((v * pow2(e)) * pow2(1074) == v * (pow2(e) * pow2(1074))) by (nonlinear_arith);
    assert(v * pow2(e + 1074) >= 0x800_0000_0000_0000_0000_0000_0000) by {
        lemma_pow2_adds(60, 60);
        lemma_pow2_split(120, e + 1074);
        assert(v * pow2(e + 1074) >= pow2(e + 1074)) by (nonlinear_arith)
            requires
                v >= 1,
        ;
    }
    let (t, k) = lemma_evenly(v, e + 1074);
    let n = lemma_long_root(t);
    assert(k <= 1150) by {
        if k > 1150 {
            lemma_pow2_split(2300, 2 * k);
            lemma_pow2_adds(1200, 1074);
            lemma_pow2_split(2274, 2300);
            assert(m <= pow2(1200) * pow2(1074)) by (nonlinear_arith)
                requires
                    magnitude(x) <= pow2(1200),
                    m == magnitude(x) * pow2(1074),
            ;
            assert(t * pow2(2 * k) > pow2(2 * k)) by (nonlinear_arith)
                requires
                    t > 1,
                    pow2(2 * k) > 0,
            ;
        }
    }
    lemma_root(t, k, n);
    lemma_pow2_adds(2 * k, 2 * h);
    assert((t * pow2(2 * k)) * pow2(2 * h) == t * (pow2(2 * k) * pow2(2 * h))) by (nonlinear_arith);
    assert(2 * k + 2 * h == 2 * (k + h));
    lemma_root(t, k + h, n);
    (k + 1, (n + 1) / 2)
}

/// What is `4^h` times smaller has a root that is `2^h` times smaller.
proof fn lemma_roots_apart(x: u64, y: u64, h: nat)
    requires
        x < DOUBLE_INFINITY,
        y < DOUBLE_INFINITY,
        magnitude(x) * pow2(2 * h) <= magnitude(y) <= pow2(1200),
        h <= 20,
    ensures
        root_of(x) < DOUBLE_INFINITY,
        root_of(y) < 0x4c00_0000_0000_0000,
        magnitude(root_of(x)) * pow2(h) <= magnitude(root_of(y)),
{
    vstd::arithmetic::power2::lemma2_to64();
    lemma_pow2_pos(2 * h);
    assert(0 * pow2(h) == 0);
    if y > 0 {
        lemma_root_scaled(y, h);
    }
    if x > 0 {
        let (a, b) = (magnitude(x), magnitude(y));
        assert(a <= b) by {
            assert(a <= a * pow2(2 * h)) by (nonlinear_arith)
                requires
                    pow2(2 * h) >= 1,
            ;
        }
        if y == 0 {
            lemma_magnitudes_ordered(1, x);
            assert(magnitude(1) == 1);
            assert(false);
        }
        let (level, q) = lemma_root_scaled(x, h);
        let p = pow2(1074);
        assert((a * p) * pow2(2 * h) <= b * p) by (nonlinear_arith)
            requires
                a * pow2(2 * h) <= b,
        ;
        lemma_roots_ordered((a * p) * pow2(2 * h), b * p);
        let large = (level + h) * 0x10_0000_0000_0000 + q;
        lemma_magnitudes_ordered(large as u64, root_of(y));
        lemma_pattern(level, q);
        lemma_pattern(level + h, q);
        lemma_pow2_adds(level, h);
        assert((q * pow2(level)) * pow2(h) == q * (pow2(level) * pow2(h))) by (nonlinear_arith);
    }
}

/// The entries of a matrix in half precision, in order.
proof fn lemma_flat_halves(rows: Seq<Seq<u32>>)
    ensures
        flat(
            rows.map_values(|row: Seq<u32>| row.map_values(|x: u32| widened_half(halved(x)))),
        ) == flat(rows).map_values(|x: u32| widened_half(halved(x))),
    decreases rows.len(),
{
    let each = |x: u32| widened_half(halved(x));
    let whole = |row: Seq<u32>| row.map_values(|x: u32| widened_half(halved(x)));
    let mapped = rows.map_values(whole);
    if rows.len() > 0 {
        let before = rows.drop_last();
        lemma_flat_halves(before);
        assert(mapped.drop_last() =~= before.map_values(whole));
        assert(mapped.last() == whole(rows.last()));
        assert(flat(mapped) =~= flat(rows).map_values(each));
    } else {
        assert(flat(mapped) =~= flat(rows).map_values(each));
    }
}

/// The double `2^-h`, for the first negative powers of two.
pub open spec fn inverse_power(h: nat) -> u64 {
    ((1023 - h) * 0x10_0000_0000_0000) as u64
}

/// The quotient of a length and one that is at least `2^h` times as large, with a billionth added.
proof fn lemma_quotient(x: u64, y: u64, h: nat)
    requires
        x < DOUBLE_INFINITY,
        y < 0x4c00_0000_0000_0000,
        magnitude(x) * pow2(h) <= magnitude(y),
        h <= 20,
    ensures
        double_le(quotient_of(x, sum_of(y, BILLIONTH)), inverse_power(h)),
{
    let (v, e) = lemma_bits(y);
    vstd::arithmetic::power2::lemma2_to64();
    vstd::arithmetic::power2::lemma2_to64_rest();
    assert(e <= 1216);
    let least = magnitude(BILLIONTH);
    assert(magnitude(y) <= pow2(1269)) by {
        lemma_pow2_split(e, 1216);
        lemma_pow2_adds(53, 1216);
        assert(v * pow2(e) <= 0x20_0000_0000_0000 * pow2(1216)) by (nonlinear_arith)
            requires
                v <= 0x20_0000_0000_0000,
                pow2(e) <= pow2(1216),
        ;
    }
    assert(0 < least <= pow2(1269)) by {
        let (f, s) = (0x11_2e0b_e826_d695nat, 992nat);
        assert(least == f * pow2(s));
        lemma_pow2_pos(s);
        lemma_pow2_adds(53, s);
        lemma_pow2_split(1045, 1269);
        assert(0 < f * pow2(s) <= 0x20_0000_0000_0000 * pow2(s)) by (nonlinear_arith)
            requires
                0 < f <= 0x20_0000_0000_0000,
                pow2(s) > 0,
        ;
    }
    lemma_pow2_unfold(1270);
    lemma_pow2_split(1270, 2000);
    lemma_sum(y, BILLIONTH);
    let den = sum_of(y, BILLIONTH);
    lemma_near_ordered(magnitude(y), magnitude(y) + least);
    lemma_near_exact(v, e);
    assert(magnitude(den) >= magnitude(y));
    assert(magnitude(den) > 0) by {
        lemma_near_ordered(1, magnitude(y) + least);
        assert(1 * pow2(0) == 1);
        lemma_near_exact(1, 0);
    }
    assert(den != 0) by {
        assert(magnitude(0) == 0);
    }
    let num = magnitude(x) * pow2(1074);
    let (s, exact) = ((1022 - h) as nat, (1074 - h) as nat);
    let power = pow2(exact);
    lemma_pow2_adds(h, exact);
    assert(num * 1 <= power * magnitude(den)) by (nonlinear_arith)
        requires
            num == magnitude(x) * pow2(1074),
            pow2(1074) == pow2(h) * power,
            magnitude(x) * pow2(h) <= magnitude(den),
    ;
    lemma_rounded_ordered(num, magnitude(den), power, 1, 0);
    lemma_pow2_split(exact, 2000);
    let (level, q) = lemma_near(power);
    lemma_pow2_adds(52, s);
    lemma_pow2_pos(s);
    assert(level == s) by {
        if level > s {
            lemma_pow2_split(s + 1, level);
            lemma_pow2_unfold(s + 1);
        } else if level < s {
            lemma_pow2_split(level + 1, s);
            lemma_pow2_unfold(level + 1);
        }
    }
    lemma_nearest_even_is(power, pow2(s), 0x10_0000_0000_0000);
    assert(nearest_double(power) == inverse_power(h));
}

/// Whether the squares of the entries of a matrix, as the audit sums them up, are 2^-28 on average or
/// more.
pub open spec fn is_not_tiny(g: Grid) -> bool {
    flat(g.rows).len() * pow2(1046) <= magnitude(squares(all_widened(flat(g.rows))))
}

/// The sizes of entries, in units of singles.
spec fn sizes_of(xs: Seq<u32>) -> Seq<nat> {
    Seq::new(xs.len(), |i: int| single_magnitude(xs[i]))
}

/// What entries lose on the wire, in units of singles.
spec fn losses_of(xs: Seq<u32>) -> Seq<nat> {
    Seq::new(xs.len(), |i: int| loss(xs[i]))
}

/// The differences that the audit sums up are what the entries lose on the wire.
proof fn lemma_losses(xs: Seq<u32>, ys: Seq<u32>, i: int)
    requires
        ys == xs.map_values(|x: u32| widened_half(halved(x))),
        0 <= i < xs.len(),
        is_in_range(xs[i]),
    ensures
        ({
            let (small, large) = (differences(ys, xs)[i], all_widened(xs)[i]);
            let (below, size) = (losses_of(xs)[i], sizes_of(xs)[i]);
            &&& body(small) < DOUBLE_INFINITY
            &&& body(large) < DOUBLE_INFINITY
            &&& magnitude(small) == below * pow2(925)
            &&& magnitude(large) == size * pow2(925)
            &&& 2048 * below <= size || 2048 * below <= pow2(135)
            &&& is_normal(xs[i]) ==> 2048 * below <= size
            &&& size <= pow2(165)
        }),
{
    lemma_loss(xs[i]);
    assert(ys[i] == widened_half(halved(xs[i])));
    lemma_widened_size(xs[i]);
}

/// The error of entries that keep all bits of their halves.
proof fn lemma_normal_error(xs: Seq<u32>, ys: Seq<u32>)
    requires
        ys == xs.map_values(|x: u32| widened_half(halved(x))),
        xs.len() < 0x4_0000_0000_0000,
        forall|i: int| 0 <= i < xs.len() ==> is_normal(#[trigger] xs[i]),
    ensures
        double_le(
            quotient_of(
                root_of(squares(differences(ys, xs))),
                sum_of(root_of(squares(all_widened(xs))), BILLIONTH),
            ),
            inverse_power(11),
        ),
{
    let (small, large) = (differences(ys, xs), all_widened(xs));
    let (below, sizes) = (losses_of(xs), sizes_of(xs));
    assert forall|i: int| #![trigger small[i]] #![trigger large[i]] 0 <= i < large.len() implies {
        &&& body(small[i]) < DOUBLE_INFINITY
        &&& body(large[i]) < DOUBLE_INFINITY
        &&& magnitude(small[i]) == below[i] * pow2(925)
        &&& magnitude(large[i]) == sizes[i] * pow2(925)
        &&& 2048 * below[i] <= sizes[i] <= pow2(165)
    } by {
        assert(is_normal(xs[i]));
        lemma_losses(xs, ys, i);
    }
    lemma_squares_apart(small, large, below, sizes);
    lemma_few(large.len());
    vstd::arithmetic::power2::lemma2_to64();
    let (over, under) = (squares(small), squares(large));
    lemma_roots_apart(over, under, 11);
    lemma_quotient(root_of(over), root_of(under), 11);
}

/// The sum of the squares of so many entries is far from the largest double.
proof fn lemma_few(count: nat)
    requires
        count <= 0x20_0000_0000_0000,
    ensures
        count * pow2(1106) <= pow2(1200),
{
    vstd::arithmetic::power2::lemma2_to64_rest();
    lemma_pow2_adds(53, 1106);
    lemma_pow2_split(1159, 1200);
    assert(count * pow2(1106) <= 0x20_0000_0000_0000 * pow2(1106)) by (nonlinear_arith)
        requires
            count <= 0x20_0000_0000_0000,
    ;
}

/// The error of entries whose squares are 2^-28 on average or more.
proof fn lemma_mean_error(xs: Seq<u32>, ys: Seq<u32>)
    requires
        ys == xs.map_values(|x: u32| widened_half(halved(x))),
        xs.len() < 0x4_0000_0000_0000,
        forall|i: int| 0 <= i < xs.len() ==> is_in_range(#[trigger] xs[i]),
        xs.len() * pow2(1046) <= magnitude(squares(all_widened(xs))),
    ensures
        double_le(
            quotient_of(
                root_of(squares(differences(ys, xs))),
                sum_of(root_of(squares(all_widened(xs))), BILLIONTH),
            ),
            inverse_power(10),
        ),
{
    let (small, large) = (differences(ys, xs), all_widened(xs));
    let (below, sizes) = (losses_of(xs), sizes_of(xs));
    assert forall|i: int| #![trigger small[i]] #![trigger large[i]] 0 <= i < large.len() implies {
        &&& body(small[i]) < DOUBLE_INFINITY
        &&& body(large[i]) < DOUBLE_INFINITY
        &&& magnitude(small[i]) == below[i] * pow2(925)
        &&& magnitude(large[i]) == sizes[i] * pow2(925)
        &&& 2048 * below[i] <= sizes[i] || 2048 * below[i] <= pow2(135)
        &&& sizes[i] <= pow2(165)
    } by {
        assert(is_in_range(xs[i]));
        lemma_losses(xs, ys, i);
    }
    lemma_squares_near(small, large, below, sizes);
    let count = large.len();
    lemma_few(count);
    vstd::arithmetic::power2::lemma2_to64();
    let (over, under) = (squares(small), squares(large));
    let (n, t) = (magnitude(over), magnitude(under));
    let all = t + count * pow2(1046);
    assert(all * (0x20_0000_0000_0000 + 4 * count) <= (2 * t) * 0x40_0000_0000_0000)
        by (nonlinear_arith)
        requires
            all <= 2 * t,
            0x20_0000_0000_0000 + 4 * count <= 0x40_0000_0000_0000,
    ;
    assert(n * pow2(20) <= t);
    lemma_roots_apart(over, under, 10);
    lemma_quotient(root_of(over), root_of(under), 10);
}

/// A matrix whose entries are within the range of halves has a small relative error when it is rounded
/// to half precision: at most a 2048th if every entry is zero or keeps all bits of its half, and at
/// most a 1024th in any case but that of a matrix of tiny entries.
pub proof fn half_precision_is_close(g: Grid)
    requires
        flat(g.rows).len() < 0x4_0000_0000_0000,
        forall|i: int| 0 <= i < flat(g.rows).len() ==> is_in_range(#[trigger] flat(g.rows)[i]),
    ensures
        (forall|i: int| 0 <= i < flat(g.rows).len() ==> is_normal(#[trigger] flat(g.rows)[i]))
            ==> double_le(relative_error(half_precision(g), g), inverse_power(11)),
        is_not_tiny(g) ==> double_le(relative_error(half_precision(g), g), inverse_power(10)),
{
    let xs = flat(g.rows);
    let ys = flat(half_precision(g).rows);
    lemma_flat_halves(g.rows);
    if forall|i: int| 0 <= i < xs.len() ==> is_normal(#[trigger] xs[i]) {
        lemma_normal_error(xs, ys);
    }
    if is_not_tiny(g) {
        lemma_mean_error(xs, ys);
    }
}

/// What arrives of an activation is as close to what was sent.
pub proof fn activations_arrive_close(g: Grid)
    requires
        g.wf(),
        g.rows.len() <= u32::MAX,
        g.cols <= u32::MAX,
        flat(g.rows).len() < 0x4_0000_0000_0000,
        forall|i: int| 0 <= i < flat(g.rows).len() ==> is_in_range(#[trigger] flat(g.rows)[i]),
    ensures
        (forall|i: int| 0 <= i < flat(g.rows).len() ==> is_normal(#[trigger] flat(g.rows)[i]))
            ==> double_le(relative_error(unwired(wired(g)), g), inverse_power(11)),
        is_not_tiny(g) ==> double_le(relative_error(unwired(wired(g)), g), inverse_power(10)),
{
    activations_arrive_in_half_precision(g);
    half_precision_is_close(g);
}

/// Sums, products and quotients keep the order of doubles that are not negative, infinity included.
pub proof fn arithmetic_keeps_the_order(x: u64, y: u64, c: u64)
    requires
        x <= y <= DOUBLE_INFINITY,
        0 < c < DOUBLE_INFINITY,
    ensures
        sum_of(x, c) <= sum_of(y, c) <= DOUBLE_INFINITY,
        sum_of(c, x) <= sum_of(c, y) <= DOUBLE_INFINITY,
        product_of(x, c) <= product_of(y, c) <= DOUBLE_INFINITY,
        quotient_of(x, c) <= quotient_of(y, c) <= DOUBLE_INFINITY,
        0 < x ==> quotient_of(c, y) <= quotient_of(c, x) <= DOUBLE_INFINITY,
{
    lemma_magnitudes_ordered(1, c);
    vstd::arithmetic::power2::lemma2_to64();
    assert(magnitude(1) == 1);
    lemma_pow2_pos(1074);
    let (a, d) = (magnitude(x), magnitude(c));
    if y < DOUBLE_INFINITY {
        lemma_magnitudes_ordered(x, y);
        let b = magnitude(y);
        lemma_rounded_ordered(a + d, 1, b + d, 1, 0);
        let p = pow2(1074);
        assert((a * d) * p <= (b * d) * p) by (nonlinear_arith)
            requires
                a <= b,
        ;
        lemma_rounded_ordered(a * d, p, b * d, p, 0);
        assert((a * p) * d <= (b * p) * d) by (nonlinear_arith)
            requires
                a <= b,
        ;
        lemma_rounded_ordered(a * p, d, b * p, d, 0);
        assert(d * a == a * d && d * b == b * d) by (nonlinear_arith);
        if x > 0 {
            lemma_magnitudes_ordered(1, x);
            assert((d * p) * a <= (d * p) * b) by (nonlinear_arith)
                requires
                    a <= b,
            ;
            lemma_rounded_ordered(d * p, b, d * p, a, 0);
        }
    }
}

/// Halving a double that is not tiny is exact.
pub proof fn halves_are_exact(x: u64, two: u64)
    requires
        0x20_0000_0000_0000 <= x < 0x7000_0000_0000_0000,
        two == 0x4000_0000_0000_0000,
    ensures
        2 * magnitude(quotient_of(x, two)) == magnitude(x),
        0 < quotient_of(x, two) < DOUBLE_INFINITY,
{
    let exponent = (x / 0x10_0000_0000_0000) as nat;
    let v = 0x10_0000_0000_0000 + (x % 0x10_0000_0000_0000) as nat;
    let s = (exponent - 2) as nat;
    let m = magnitude(x);
    vstd::arithmetic::power2::lemma2_to64();
    vstd::arithmetic::power2::lemma2_to64_rest();
    lemma_pow2_unfold((exponent - 1) as nat);
    lemma_pow2_pos(s);
    let h = v * pow2(s);
    assert(m == h * 2) by (nonlinear_arith)
        requires
            m == v * (2 * pow2(s)),
            h == v * pow2(s),
    ;
    assert(magnitude(two) == 2 * pow2(1074)) by {
        lemma_pow2_adds(52, 1023);
        lemma_pow2_unfold(1075);
    }
    lemma_pow2_pos(1074);
    lemma_rounded_scaled(m, 2, pow2(1074), 0);
    lemma_rounded_scaled(h, 1, 2, 0);
    assert(h <= pow2(2000)) by {
        lemma_pow2_split(s, 1900);
        lemma_pow2_adds(53, 1900);
        lemma_pow2_split(1953, 2000);
        assert(v * pow2(s) <= 0x20_0000_0000_0000 * pow2(1900)) by (nonlinear_arith)
            requires
                v <= 0x20_0000_0000_0000,
                pow2(s) <= pow2(1900),
        ;
    }
    lemma_near_exact(v, s);
    lemma_near(h);
    assert(h > 0) by (nonlinear_arith)
        requires
            v > 0,
            pow2(s) > 0,
            h == v * pow2(s),
    ;
    assert(magnitude(0) == 0);
}

/// Adding nothing changes nothing.
pub proof fn adding_zero_changes_nothing(x: u64)
    requires
        x < 0x7000_0000_0000_0000,
    ensures
        sum_of(x, 0) == x,
{
    let (v, e) = lemma_bits(x);
    vstd::arithmetic::power2::lemma2_to64();
    vstd::arithmetic::power2::lemma2_to64_rest();
    assert(magnitude(x) <= pow2(2000)) by {
        lemma_pow2_split(e, 1900);
        lemma_pow2_adds(53, 1900);
        lemma_pow2_split(1953, 2000);
        assert(v * pow2(e) <= 0x20_0000_0000_0000 * pow2(1900)) by (nonlinear_arith)
            requires
                v <= 0x20_0000_0000_0000,
                pow2(e) <= pow2(1900),
        ;
    }
    assert(magnitude(0) == 0);
    lemma_sum(x, 0);
    lemma_near_exact(v, e);
    let s = sum_of(x, 0);
    if s < x {
        larger_patterns_are_larger_doubles(s, x);
    } else if x < s {
        larger_patterns_are_larger_doubles(x, s);
    }
}

/// The value of a finite single, in units of the smallest positive one.
pub open spec fn single_value(x: u32) -> int {
    if x < 0x8000_0000 {
        single_magnitude(x) as int
    } else {
        -(single_magnitude(x) as int)
    }
}

/// How far two values are apart.
pub open spec fn apart(a: int, b: int) -> int {
    if a < b {
        b - a
    } else {
        a - b
    }
}

/// A power of two is exact.
proof fn lemma_power(k: nat)
    requires
        k <= 2000,
    ensures
        near(pow2(k)) == pow2(k),
        nearest_double(pow2(k)) < DOUBLE_INFINITY,
        pow2(k) <= pow2(2000),
        pow2(k) > 0,
{
    lemma_pow2_split(k, 2000);
    lemma_pow2_pos(k);
    assert(1 * pow2(k) == pow2(k));
    lemma_near_exact(1, k);
    lemma_near(pow2(k));
}

/// A finite single as a double.
proof fn lemma_single(x: u32)
    requires
        x % 0x8000_0000 < 0x7f80_0000,
    ensures
        body(widened(x)) < DOUBLE_INFINITY,
        is_negative(widened(x)) == (x >= 0x8000_0000),
        magnitude(widened(x)) == single_magnitude(x) * pow2(925),
        single_magnitude(x) <= pow2(277),
{
    let size = single_magnitude(x);
    let exponent = (x % 0x8000_0000 / 0x80_0000) as nat;
    let fraction = (x % 0x8000_0000 % 0x80_0000) as nat;
    vstd::arithmetic::power2::lemma2_to64();
    let (v, s): (nat, nat) = if exponent == 0 {
        (fraction, 0)
    } else {
        (0x80_0000 + fraction, (exponent - 1) as nat)
    };
    assert(size == v * pow2(s)) by {
        if exponent == 0 {
            assert(v * 1 == v);
        }
    }
    lemma_pow2_adds(24, 253);
    lemma_pow2_split(s, 253);
    assert(v * pow2(s) <= 0x100_0000 * pow2(253)) by (nonlinear_arith)
        requires
            v <= 0x100_0000,
            pow2(s) <= pow2(253),
    ;
    lemma_pow2_adds(s, 925);
    lemma_pow2_adds(277, 925);
    lemma_pow2_split(1202, 2000);
    assert(size * pow2(925) == v * pow2(s + 925)) by (nonlinear_arith)
        requires
            size == v * pow2(s),
            pow2(s + 925) == pow2(s) * pow2(925),
    ;
    assert(size * pow2(925) <= pow2(277) * pow2(925)) by (nonlinear_arith)
        requires
            size <= pow2(277),
    ;
    lemma_near_exact(v, s + 925);
    lemma_near(size * pow2(925));
    let w = widened(x);
    let plain = nearest_double(size * pow2(925));
    assert(body(w) == plain);
    assert(magnitude(w) == magnitude(plain));
}

/// The difference of two finite singles.
proof fn lemma_delta(a: u32, b: u32)
    requires
        a % 0x8000_0000 < 0x7f80_0000,
        b % 0x8000_0000 < 0x7f80_0000,
    ensures
        ({
            let delta = sum_of(widened(a), negated(widened(b)));
            let size = apart(single_value(a), single_value(b)) as nat;
            &&& size <= pow2(278)
            &&& body(delta) < DOUBLE_INFINITY
            &&& magnitude(delta) == near(size * pow2(925))
        }),
{
    lemma_single(a);
    lemma_single(b);
    let (x, y) = (widened(a), widened(b));
    let c = negated(y);
    let size = apart(single_value(a), single_value(b)) as nat;
    let p = pow2(925);
    assert(body(c) == body(y));
    assert(magnitude(c) == magnitude(y));
    lemma_pow2_unfold(278);
    lemma_pow2_adds(278, 925);
    lemma_pow2_split(1203, 2000);
    assert(size * p <= pow2(278) * p) by (nonlinear_arith)
        requires
            size <= pow2(278),
    ;
    lemma_near(size * p);
    let delta = sum_of(x, c);
    let (va, vb) = (single_value(a), single_value(b));
    assert(units(x) == va * p) by (nonlinear_arith)
        requires
            units(x) == single_magnitude(a) * p && va == single_magnitude(a) || units(x) == -(
            single_magnitude(a) * p) && va == -single_magnitude(a),
    ;
    assert(units(c) == -(vb * p)) by (nonlinear_arith)
        requires
            units(c) == -(single_magnitude(b) * p) && vb == single_magnitude(b) || units(c)
                == single_magnitude(b) * p && vb == -single_magnitude(b),
    ;
    let value = units(x) + units(c);
    assert(value == (va - vb) * p) by (nonlinear_arith)
        requires
            value == va * p - vb * p,
    ;
    if body(x) == 0 && body(c) == 0 {
        assert(magnitude(x) == 0 && magnitude(c) == 0);
        lemma_pow2_pos(925);
        assert(size == 0) by (nonlinear_arith)
            requires
                (va - vb) * p == 0,
                p > 0,
                size == va - vb || size == vb - va,
        ;
        vstd::arithmetic::power2::lemma2_to64();
        assert(0 * pow2(0) == 0 && 0 * p == 0);
        lemma_near_exact(0, 0);
        assert(body(delta) == 0);
        assert(magnitude(delta) == 0);
    } else {
        assert(value == size * p || value == -(size * p)) by (nonlinear_arith)
            requires
                value == (va - vb) * p,
                size == va - vb || size == vb - va,
        ;
        assert(body(delta) == nearest_double(size * p));
        assert(magnitude(delta) == magnitude(nearest_double(size * p)));
    }
}

/// What is near to a number of single units, against a power of two.
proof fn lemma_near_power(size: nat, t: nat)
    requires
        size <= pow2(278),
        t <= 278,
    ensures
        size <= pow2(t) ==> near(size * pow2(925)) <= pow2(t + 925),
        size >= pow2(t) ==> near(size * pow2(925)) >= pow2(t + 925),
        near(size * pow2(925)) <= pow2(1203),
{
    lemma_pow2_adds(t, 925);
    lemma_pow2_adds(278, 925);
    lemma_power(t + 925);
    lemma_power(1203);
    assert(size * pow2(925) <= pow2(278) * pow2(925)) by (nonlinear_arith)
        requires
            size <= pow2(278),
    ;
    lemma_near_ordered(size * pow2(925), pow2(1203));
    if size <= pow2(t) {
        assert(size * pow2(925) <= pow2(t) * pow2(925)) by (nonlinear_arith)
            requires
                size <= pow2(t),
        ;
        lemma_near_ordered(size * pow2(925), pow2(t + 925));
    }
    if size >= pow2(t) {
        assert(size * pow2(925) >= pow2(t) * pow2(925)) by (nonlinear_arith)
            requires
                size >= pow2(t),
        ;
        lemma_near_ordered(pow2(t + 925), size * pow2(925));
    }
}

/// The square of a double, against a power of two.
proof fn lemma_square_power(x: u64, p: nat)
    requires
        body(x) < DOUBLE_INFINITY,
        magnitude(x) <= pow2(1203),
        925 <= p <= 1203,
    ensures
        product_of(x, x) < DOUBLE_INFINITY,
        magnitude(product_of(x, x)) <= pow2(1332),
        magnitude(x) <= pow2(p) ==> magnitude(product_of(x, x)) <= pow2((2 * p - 1074) as nat),
        magnitude(x) >= pow2(p) ==> magnitude(product_of(x, x)) >= pow2((2 * p - 1074) as nat),
{
    let m = magnitude(x);
    let least = pow2(1074);
    let square = product_of(x, x);
    lemma_pow2_pos(1074);
    lemma_power(1332);
    lemma_pow2_adds(1203, 1203);
    lemma_pow2_adds(1332, 1074);
    assert((m * m) * 1 <= pow2(1332) * least) by (nonlinear_arith)
        requires
            m <= pow2(1203),
            pow2(1203) * pow2(1203) == pow2(1332) * least,
    ;
    lemma_rounded_ordered(m * m, least, pow2(1332), 1, 0);
    assert(square <= nearest_double(pow2(1332)));
    lemma_magnitudes_ordered(square, nearest_double(pow2(1332)));
    let e = (2 * p - 1074) as nat;
    lemma_power(e);
    lemma_pow2_adds(p, p);
    lemma_pow2_adds(e, 1074);
    let q = nearest_double(pow2(e));
    if m <= pow2(p) {
        assert((m * m) * 1 <= pow2(e) * least) by (nonlinear_arith)
            requires
                m <= pow2(p),
                pow2(p) * pow2(p) == pow2(e) * least,
        ;
        lemma_rounded_ordered(m * m, least, pow2(e), 1, 0);
        assert(square <= q);
        lemma_magnitudes_ordered(square, q);
    }
    if m >= pow2(p) {
        assert(pow2(e) * least <= (m * m) * 1) by (nonlinear_arith)
            requires
                m >= pow2(p),
                pow2(p) * pow2(p) == pow2(e) * least,
        ;
        lemma_rounded_ordered(pow2(e), 1, m * m, least, 0);
        assert(q <= square);
        lemma_magnitudes_ordered(q, square);
    }
}

/// A sum of squares of entries of at most a power of two.
proof fn lemma_squares_below(xs: Seq<u64>, p: nat)
    requires
        925 <= p <= 1203,
        xs.len() <= 0x20_0000_0000_0000,
        forall|i: int|
            0 <= i < xs.len() ==> body(#[trigger] xs[i]) < DOUBLE_INFINITY && magnitude(xs[i])
                <= pow2(p),
    ensures
        squares(xs) < DOUBLE_INFINITY,
        magnitude(squares(xs)) <= xs.len() * pow2((2 * p - 1074) as nat),
        xs.len() * pow2((2 * p - 1074) as nat) <= pow2(1385),
    decreases xs.len(),
{
    let e = (2 * p - 1074) as nat;
    let n = xs.len();
    vstd::arithmetic::power2::lemma2_to64_rest();
    lemma_pow2_adds(53, 1332);
    lemma_pow2_split(e, 1332);
    lemma_power(1385);
    assert(n * pow2(e) <= 0x20_0000_0000_0000 * pow2(1332)) by (nonlinear_arith)
        requires
            n <= 0x20_0000_0000_0000,
            pow2(e) <= pow2(1332),
    ;
    if n == 0 {
        assert(magnitude(0) == 0);
        assert(0 * pow2(e) == 0);
    } else {
        let ys = xs.drop_last();
        let k = (n - 1) as nat;
        lemma_squares_below(ys, p);
        assert(xs.last() == xs[n - 1]);
        lemma_pow2_split(p, 1203);
        lemma_square_power(xs.last(), p);
        assert(k * pow2(e) + pow2(e) == n * pow2(e)) by (nonlinear_arith)
            requires
                k == n - 1,
        ;
        let m = magnitude(squares(ys)) + magnitude(product_of(xs.last(), xs.last()));
        lemma_sum(squares(ys), product_of(xs.last(), xs.last()));
        lemma_near_ordered(m, n * pow2(e));
        lemma_near_exact(n, e);
    }
}

/// A sum of squares of which one is at least a power of two.
proof fn lemma_squares_above(xs: Seq<u64>, p: nat, j: int)
    requires
        925 <= p <= 1203,
        xs.len() <= 0x20_0000_0000_0000,
        forall|i: int|
            0 <= i < xs.len() ==> body(#[trigger] xs[i]) < DOUBLE_INFINITY && magnitude(xs[i])
                <= pow2(1203),
        0 <= j < xs.len(),
        magnitude(xs[j]) >= pow2(p),
    ensures
        magnitude(squares(xs)) >= pow2((2 * p - 1074) as nat),
    decreases xs.len(),
{
    let e = (2 * p - 1074) as nat;
    let n = xs.len();
    let ys = xs.drop_last();
    lemma_squares_below(ys, 1203);
    assert(xs.last() == xs[n - 1]);
    lemma_square_power(xs.last(), p);
    let (s, q) = (squares(ys), product_of(xs.last(), xs.last()));
    lemma_power(e);
    lemma_pow2_split(1332, 1385);
    lemma_pow2_unfold(1386);
    lemma_power(1386);
    lemma_sum(s, q);
    if j == n - 1 {
        lemma_near_ordered(pow2(e), magnitude(s) + magnitude(q));
    } else {
        assert(ys[j] == xs[j]);
        lemma_squares_above(ys, p, j);
        lemma_near_ordered(pow2(e), magnitude(s) + magnitude(q));
    }
}

/// The root of an even power of two.
proof fn lemma_root_of_power(r: nat)
    requires
        r <= 2000,
    ensures
        nearest_root(pow2(2 * r)) == nearest_double(pow2(r)),
{
    let (m, p) = (pow2(2 * r), pow2(r));
    let w = whole_root(m);
    lemma_pow2_adds(r, r);
    lemma_whole_root(m);
    assert(w == p) by (nonlinear_arith)
        requires
            w * w <= p * p,
            p * p < (w + 1) * (w + 1),
            w >= 0,
            p >= 0,
    ;
    lemma_rounded_scaled(p, 1, 2, 0);
}

/// The root of a double, against a power of two.
proof fn lemma_root_power(x: u64, r: nat)
    requires
        x < DOUBLE_INFINITY,
        r <= 2000,
    ensures
        magnitude(x) * pow2(1074) <= pow2(2 * r) ==> root_of(x) < DOUBLE_INFINITY && magnitude(
            root_of(x),
        ) <= pow2(r),
        magnitude(x) * pow2(1074) >= pow2(2 * r) && root_of(x) < DOUBLE_INFINITY ==> magnitude(
            root_of(x),
        ) >= pow2(r),
{
    let m = magnitude(x) * pow2(1074);
    let q = nearest_double(pow2(r));
    assert(x % 0x8000_0000_0000_0000 == x);
    lemma_root_of_power(r);
    lemma_power(r);
    lemma_pow2_pos(2 * r);
    if x == 0 {
        assert(magnitude(0) == 0);
        assert(0 * pow2(1074) == 0);
    } else {
        if m <= pow2(2 * r) {
            lemma_roots_ordered(m, pow2(2 * r));
            lemma_magnitudes_ordered(root_of(x), q);
        }
        if m >= pow2(2 * r) && root_of(x) < DOUBLE_INFINITY {
            lemma_roots_ordered(pow2(2 * r), m);
            lemma_magnitudes_ordered(q, root_of(x));
        }
    }
}

/// The length of a list of doubles, against powers of two.
proof fn lemma_length(xs: Seq<u64>, p: nat, h: nat)
    requires
        925 <= p <= 1203,
        h <= 26,
        xs.len() <= pow2(2 * h),
        forall|i: int|
            0 <= i < xs.len() ==> body(#[trigger] xs[i]) < DOUBLE_INFINITY && magnitude(xs[i])
                <= pow2(p),
    ensures
        root_of(squares(xs)) < DOUBLE_INFINITY,
        magnitude(root_of(squares(xs))) <= pow2(p + h),
{
    let e = (2 * p - 1074) as nat;
    let n = xs.len();
    vstd::arithmetic::power2::lemma2_to64_rest();
    lemma_pow2_split(2 * h, 52);
    lemma_pow2_split(52, 53);
    lemma_squares_below(xs, p);
    let m = magnitude(squares(xs));
    lemma_pow2_adds(2 * h, e);
    lemma_pow2_adds(2 * h + e, 1074);
    assert(2 * h + e + 1074 == 2 * (p + h));
    assert(m * pow2(1074) <= pow2(2 * (p + h))) by (nonlinear_arith)
        requires
            m <= n * pow2(e),
            n <= pow2(2 * h),
            pow2(2 * h) * pow2(e) * pow2(1074) == pow2(2 * (p + h)),
    ;
    lemma_root_power(squares(xs), p + h);
}

/// The length of a list of doubles with an entry of at least a power of two.
proof fn lemma_length_above(xs: Seq<u64>, p: nat, j: int)
    requires
        925 <= p <= 1203,
        xs.len() <= pow2(52),
        forall|i: int|
            0 <= i < xs.len() ==> body(#[trigger] xs[i]) < DOUBLE_INFINITY && magnitude(xs[i])
                <= pow2(1203),
        0 <= j < xs.len(),
        magnitude(xs[j]) >= pow2(p),
    ensures
        root_of(squares(xs)) < DOUBLE_INFINITY,
        magnitude(root_of(squares(xs))) >= pow2(p),
        magnitude(root_of(squares(xs))) <= pow2(1229),
{
    let e = (2 * p - 1074) as nat;
    vstd::arithmetic::power2::lemma2_to64_rest();
    lemma_length(xs, 1203, 26);
    lemma_pow2_split(52, 53);
    lemma_squares_below(xs, 1203);
    lemma_squares_above(xs, p, j);
    let m = magnitude(squares(xs));
    lemma_pow2_adds(e, 1074);
    assert(m * pow2(1074) >= pow2(e) * pow2(1074)) by (nonlinear_arith)
        requires
            m >= pow2(e),
    ;
    lemma_root_power(squares(xs), p);
}

/// A length with a billionth added, against powers of two.
proof fn lemma_enlarged(y: u64, b: nat)
    requires
        y < DOUBLE_INFINITY,
        magnitude(y) <= pow2(1229),
        1045 <= b <= 1229,
    ensures
        0 < sum_of(y, BILLIONTH) < DOUBLE_INFINITY,
        magnitude(sum_of(y, BILLIONTH)) > 0,
        magnitude(sum_of(y, BILLIONTH)) >= magnitude(y),
        magnitude(y) <= pow2(b) ==> magnitude(sum_of(y, BILLIONTH)) <= pow2(b + 1),
{
    let (v, e) = lemma_bits(y);
    let least = magnitude(BILLIONTH);
    vstd::arithmetic::power2::lemma2_to64();
    vstd::arithmetic::power2::lemma2_to64_rest();
    let (f, s) = (0x11_2e0b_e826_d695nat, 992nat);
    assert(least == f * pow2(s));
    lemma_pow2_pos(s);
    lemma_pow2_adds(53, s);
    lemma_pow2_split(1045, b);
    lemma_pow2_split(1045, 1229);
    assert(0 < f * pow2(s) <= 0x20_0000_0000_0000 * pow2(s)) by (nonlinear_arith)
        requires
            0 < f <= 0x20_0000_0000_0000,
            pow2(s) > 0,
    ;
    lemma_pow2_unfold(1230);
    lemma_pow2_unfold(b + 1);
    lemma_power(1230);
    lemma_power(b + 1);
    lemma_sum(y, BILLIONTH);
    lemma_near_ordered(magnitude(y), magnitude(y) + least);
    lemma_near_exact(v, e);
    lemma_near_ordered(1, magnitude(y) + least);
    assert(1 * pow2(0) == 1);
    lemma_near_exact(1, 0);
    assert(magnitude(0) == 0);
    if magnitude(y) <= pow2(b) {
        lemma_near_ordered(magnitude(y) + least, pow2(b + 1));
    }
}

/// A quotient, against powers of two.
proof fn lemma_quotient_power(x: u64, y: u64, a: nat, b: nat)
    requires
        x < DOUBLE_INFINITY,
        0 < y < DOUBLE_INFINITY,
        magnitude(x) <= pow2(1229),
        magnitude(y) > 0,
        a <= 1229,
        b <= a + 1074,
    ensures
        magnitude(x) <= pow2(a) && magnitude(y) >= pow2(b) && a + 1074 - b <= 2000 ==> quotient_of(
            x,
            y,
        ) < DOUBLE_INFINITY && magnitude(quotient_of(x, y)) <= pow2((a + 1074 - b) as nat),
        magnitude(x) >= pow2(a) && magnitude(y) <= pow2(b) && a + 1074 - b <= 2000 && quotient_of(
            x,
            y,
        ) < DOUBLE_INFINITY ==> magnitude(quotient_of(x, y)) >= pow2((a + 1074 - b) as nat),
{
    let c = (a + 1074 - b) as nat;
    let (m, d) = (magnitude(x), magnitude(y));
    let num = m * pow2(1074);
    let ratio = quotient_of(x, y);
    assert(x % 0x8000_0000_0000_0000 == x);
    assert(y % 0x8000_0000_0000_0000 == y);
    if c <= 2000 {
        lemma_power(c);
        lemma_pow2_adds(a, 1074);
        lemma_pow2_adds(c, b);
        let q = nearest_double(pow2(c));
        if m <= pow2(a) && d >= pow2(b) {
            assert(num * 1 <= pow2(c) * d) by (nonlinear_arith)
                requires
                    num == m * pow2(1074),
                    m <= pow2(a),
                    d >= pow2(b),
                    pow2(a) * pow2(1074) == pow2(c) * pow2(b),
            ;
            lemma_rounded_ordered(num, d, pow2(c), 1, 0);
            assert(ratio <= q);
            lemma_magnitudes_ordered(ratio, q);
        }
        if m >= pow2(a) && d <= pow2(b) && ratio < DOUBLE_INFINITY {
            assert(pow2(c) * d <= num * 1) by (nonlinear_arith)
                requires
                    num == m * pow2(1074),
                    m >= pow2(a),
                    d <= pow2(b),
                    pow2(a) * pow2(1074) == pow2(c) * pow2(b),
            ;
            lemma_rounded_ordered(pow2(c), 1, num, d, 0);
            assert(q <= ratio);
            lemma_magnitudes_ordered(q, ratio);
        }
    }
}

/// The entries of two lists of finite singles, and their differences, as doubles.
proof fn lemma_entries(xs: Seq<u32>, ys: Seq<u32>, i: int)
    requires
        xs.len() == ys.len(),
        0 <= i < xs.len(),
        xs[i] % 0x8000_0000 < 0x7f80_0000,
        ys[i] % 0x8000_0000 < 0x7f80_0000,
    ensures
        ({
            let d = differences(xs, ys)[i];
            let y = all_widened(ys)[i];
            let size = apart(single_value(xs[i]), single_value(ys[i])) as nat;
            &&& body(d) < DOUBLE_INFINITY && body(y) < DOUBLE_INFINITY
            &&& size <= pow2(278) && single_magnitude(ys[i]) <= pow2(278)
            &&& magnitude(d) == near(size * pow2(925)) && magnitude(d) <= pow2(1203)
            &&& magnitude(y) == near(single_magnitude(ys[i]) * pow2(925)) && magnitude(y) <= pow2(
                1203,
            )
        }),
{
    lemma_delta(xs[i], ys[i]);
    lemma_single(ys[i]);
    lemma_pow2_split(277, 278);
    let size = apart(single_value(xs[i]), single_value(ys[i])) as nat;
    lemma_near_power(size, 278);
    lemma_near_power(single_magnitude(ys[i]), 278);
    let y = widened(ys[i]);
    let (v, e) = lemma_bits(y);
    lemma_pow2_adds(278, 925);
    lemma_power(1203);
    assert(single_magnitude(ys[i]) * pow2(925) <= pow2(278) * pow2(925)) by (nonlinear_arith)
        requires
            single_magnitude(ys[i]) <= pow2(278),
    ;
    lemma_near_exact(v, e);
}

/// A small difference is a small error. If no entry differs by more than `2^t` units and some entry of what it
/// is held against has `2^s` units or more, the error of `4^h` entries is at most `2^(t + h - s)`.
pub proof fn small_differences_are_small_errors(a: Grid, b: Grid, t: nat, s: nat, h: nat, j: int)
    requires
        flat(a.rows).len() == flat(b.rows).len(),
        flat(a.rows).len() <= pow2(2 * h),
        h <= 26,
        t <= 278,
        s <= 277,
        forall|i: int|
            0 <= i < flat(a.rows).len() ==> {
                &&& (#[trigger] flat(a.rows)[i]) % 0x8000_0000 < 0x7f80_0000
                &&& flat(b.rows)[i] % 0x8000_0000 < 0x7f80_0000
                &&& apart(single_value(flat(a.rows)[i]), single_value(flat(b.rows)[i])) <= pow2(
                    t,
                )
            },
        0 <= j < flat(b.rows).len(),
        single_magnitude(flat(b.rows)[j]) >= pow2(s),
    ensures
        relative_error(a, b) < DOUBLE_INFINITY,
        magnitude(relative_error(a, b)) <= pow2((1074 + t + h - s) as nat),
{
    let (xs, ys) = (flat(a.rows), flat(b.rows));
    let (ds, ws) = (differences(xs, ys), all_widened(ys));
    vstd::arithmetic::power2::lemma2_to64_rest();
    lemma_pow2_split(2 * h, 52);
    assert(ds.len() == xs.len() && ws.len() == xs.len());
    assert forall|i: int| 0 <= i < ds.len() implies body(#[trigger] ds[i]) < DOUBLE_INFINITY
        && magnitude(ds[i]) <= pow2(t + 925) by {
        assert(xs[i] % 0x8000_0000 < 0x7f80_0000 && ys[i] % 0x8000_0000 < 0x7f80_0000);
        lemma_entries(xs, ys, i);
        lemma_near_power(apart(single_value(xs[i]), single_value(ys[i])) as nat, t);
    }
    assert forall|i: int| 0 <= i < ws.len() implies body(#[trigger] ws[i]) < DOUBLE_INFINITY
        && magnitude(ws[i]) <= pow2(1203) by {
        assert(xs[i] % 0x8000_0000 < 0x7f80_0000 && ys[i] % 0x8000_0000 < 0x7f80_0000);
        lemma_entries(xs, ys, i);
    }
    assert(xs[j] % 0x8000_0000 < 0x7f80_0000 && ys[j] % 0x8000_0000 < 0x7f80_0000);
    lemma_entries(xs, ys, j);
    lemma_near_power(single_magnitude(ys[j]), s);
    lemma_length(ds, t + 925, h);
    lemma_length_above(ws, s + 925, j);
    let (over, under) = (root_of(squares(ds)), root_of(squares(ws)));
    lemma_pow2_split(t + 925 + h, 1229);
    lemma_enlarged(under, 1229);
    lemma_quotient_power(over, sum_of(under, BILLIONTH), t + 925 + h, s + 925);
}

/// A large difference is a large error. If some entry differs by `2^t` units or more and no entry of what it is
/// held against has more than `2^s` units, the error of `4^h` entries is at least half of `2^(t - s - h)`. This
/// is of what is not lost beside a billionth.
pub proof fn large_differences_are_large_errors(a: Grid, b: Grid, t: nat, s: nat, h: nat, j: int)
    requires
        flat(a.rows).len() == flat(b.rows).len(),
        flat(a.rows).len() <= pow2(2 * h),
        h <= 26,
        t <= 278,
        s <= 277,
        s + h >= 120,
        forall|i: int|
            0 <= i < flat(a.rows).len() ==> {
                &&& (#[trigger] flat(a.rows)[i]) % 0x8000_0000 < 0x7f80_0000
                &&& flat(b.rows)[i] % 0x8000_0000 < 0x7f80_0000
                &&& single_magnitude(flat(b.rows)[i]) <= pow2(s)
            },
        0 <= j < flat(b.rows).len(),
        apart(single_value(flat(a.rows)[j]), single_value(flat(b.rows)[j])) >= pow2(t),
    ensures
        relative_error(a, b) <= DOUBLE_INFINITY,
        relative_error(a, b) < DOUBLE_INFINITY ==> magnitude(relative_error(a, b)) >= pow2(
            (1073 + t - s - h) as nat,
        ),
{
    let (xs, ys) = (flat(a.rows), flat(b.rows));
    let (ds, ws) = (differences(xs, ys), all_widened(ys));
    vstd::arithmetic::power2::lemma2_to64_rest();
    lemma_pow2_split(2 * h, 52);
    assert(ds.len() == xs.len() && ws.len() == xs.len());
    assert forall|i: int| 0 <= i < ds.len() implies body(#[trigger] ds[i]) < DOUBLE_INFINITY
        && magnitude(ds[i]) <= pow2(1203) by {
        assert(xs[i] % 0x8000_0000 < 0x7f80_0000 && ys[i] % 0x8000_0000 < 0x7f80_0000);
        lemma_entries(xs, ys, i);
    }
    assert forall|i: int| 0 <= i < ws.len() implies body(#[trigger] ws[i]) < DOUBLE_INFINITY
        && magnitude(ws[i]) <= pow2(s + 925) by {
        assert(xs[i] % 0x8000_0000 < 0x7f80_0000 && ys[i] % 0x8000_0000 < 0x7f80_0000);
        lemma_entries(xs, ys, i);
        lemma_near_power(single_magnitude(ys[i]), s);
    }
    assert(xs[j] % 0x8000_0000 < 0x7f80_0000 && ys[j] % 0x8000_0000 < 0x7f80_0000);
    lemma_entries(xs, ys, j);
    lemma_near_power(apart(single_value(xs[j]), single_value(ys[j])) as nat, t);
    lemma_length_above(ds, t + 925, j);
    lemma_length(ws, s + 925, h);
    let (over, under) = (root_of(squares(ds)), root_of(squares(ws)));
    lemma_pow2_split(s + 925 + h, 1229);
    lemma_enlarged(under, s + 925 + h);
    lemma_quotient_power(over, sum_of(under, BILLIONTH), t + 925, s + 925 + h + 1);
}

} // verus!
