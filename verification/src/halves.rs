//! Half-precision numbers, the form in which activations travel.
//!
//! Singles are rounded to the nearest half, ties to the even pattern, and halves are singles
//! exactly. Both are held as bit patterns.

use vstd::arithmetic::power2::{lemma_pow2_adds, lemma_pow2_pos, lemma_pow2_unfold, pow2};
use vstd::prelude::*;

use crate::double::{distance, lemma_nearest_multiple, single_magnitude};
use crate::numbers::SINGLE_INFINITY;
use crate::shard::{
    lemma_nearest_even, lemma_nearest_even_is, lemma_nearest_even_ordered, nearest_even,
};

verus! {

/// The magnitude of a finite half, in units of the smallest positive one.
pub open spec fn half_magnitude(h: u16) -> nat {
    let exponent = (h % 0x8000 / 0x400) as nat;
    let fraction = (h % 0x400) as nat;
    if exponent == 0 {
        fraction
    } else {
        (0x400 + fraction) * pow2((exponent - 1) as nat)
    }
}

/// The pattern of the half nearest to `m / unit` units, counted from `level` on, without regard to
/// the largest half.
pub open spec fn packed(m: nat, unit: nat, level: nat) -> nat
    decreases (if m < 0x800 * unit { 0 } else { m - unit }),
{
    if unit == 0 || m < 0x800 * unit {
        level * 0x400 + nearest_even(m, unit)
    } else {
        packed(m, 2 * unit, level + 1)
    }
}

/// The half nearest to `m / unit` units: infinity for what is out of range.
pub open spec fn nearest_half(m: nat, unit: nat) -> u16 {
    if packed(m, unit, 0) < 0x7c00 {
        packed(m, unit, 0) as u16
    } else {
        0x7c00
    }
}

/// The half nearest to a single. What is not a number stays so, with the first bits of its payload.
pub open spec fn halved(x: u32) -> u16 {
    let size = x % 0x8000_0000;
    let payload = (size % 0x80_0000) / 0x2000;
    let half = if size > SINGLE_INFINITY {
        (0x7e00 + payload % 0x200) as u16
    } else if size == SINGLE_INFINITY {
        0x7c00
    } else {
        nearest_half(single_magnitude(x), pow2(125))
    };
    if x >= 0x8000_0000 {
        (0x8000 + half) as u16
    } else {
        half
    }
}

/// The size of the single whose significand is `m / 1024` at `exponent`.
pub open spec fn lifted(m: nat, exponent: nat) -> nat
    decreases exponent,
{
    if m >= 0x400 || exponent == 0 {
        (exponent * 0x80_0000 + (m - 0x400) * 0x2000) as nat
    } else {
        lifted(2 * m, (exponent - 1) as nat)
    }
}

/// The single of the same value as a half.
pub open spec fn widened_half(h: u16) -> u32 {
    let exponent = (h % 0x8000 / 0x400) as nat;
    let fraction = (h % 0x400) as nat;
    let size: nat = if exponent == 0x1f {
        if fraction == 0 {
            SINGLE_INFINITY as nat
        } else {
            (0x7fc0_0000 + fraction % 0x200 * 0x2000) as nat
        }
    } else if exponent > 0 {
        lifted(0x400 + fraction, exponent + 112)
    } else if fraction > 0 {
        lifted(fraction, 113)
    } else {
        0
    };
    if h >= 0x8000 {
        (0x8000_0000 + size) as u32
    } else {
        size as u32
    }
}

/// Rounds a quotient of small numbers to the nearest whole number, ties to even.
fn round_small(num: u64, den: u64) -> (out: u64)
    requires
        0 < den <= 0x1_0000_0000_0000,
        num < 0x1_0000_0000_0000,
    ensures
        out == nearest_even(num as nat, den as nat),
        out <= num / den + 1,
{
    let floor: u64 = num / den;
    let rest: u64 = num % den;
    proof {
        assert(rest < den && floor <= num) by (nonlinear_arith)
            requires
                den > 0,
                rest == num % den,
                floor == num / den,
        ;
    }
    if 2 * rest > den || (2 * rest == den && floor % 2 == 1) {
        floor + 1
    } else {
        floor
    }
}

/// The half nearest to `t / den` units.
fn pack(t: u64, den: u64) -> (out: u16)
    requires
        t < 0x1000_0000_0000,
        0 < den < 0x1000_0000,
    ensures
        out == nearest_half(t as nat, den as nat),
        out <= 0x7c00,
{
    let mut unit: u64 = den;
    let mut level: u64 = 0;
    while t >= 0x800 * unit
        invariant
            t < 0x1000_0000_0000,
            0 < unit <= 0x1000_0000_0000,
            level > 0 ==> 0x400 * unit <= t,
            level < unit,
            level < 0x1_0000_0000_0000,
            packed(t as nat, den as nat, 0) == packed(t as nat, unit as nat, level as nat),
        decreases t - unit,
    {
        unit = unit * 2;
        level = level + 1;
    }
    let q: u64 = round_small(t, unit);
    proof {
        assert(t / unit < 0x800) by (nonlinear_arith)
            requires
                t < 0x800 * unit,
                unit > 0,
        ;
    }
    let bits: u64 = level * 0x400 + q;
    if bits < 0x7c00 {
        bits as u16
    } else {
        0x7c00
    }
}

proof fn lemma_scaled_even(a: nat, b: nat, c: nat)
    requires
        b > 0,
        c > 0,
    ensures
        nearest_even(a * c, b * c) == nearest_even(a, b),
{
    assert((a * c) * b == a * (b * c)) by (nonlinear_arith);
    assert(b * c > 0) by (nonlinear_arith)
        requires
            b > 0,
            c > 0,
    ;
    lemma_nearest_even_ordered(a * c, b * c, a, b);
    lemma_nearest_even_ordered(a, b, a * c, b * c);
}

/// Numerator and denominator may be scaled alike.
proof fn lemma_packed_scaled(a: nat, b: nat, c: nat, level: nat)
    requires
        b > 0,
        c > 0,
    ensures
        packed(a * c, b * c, level) == packed(a, b, level),
    decreases (if a < 0x800 * b { 0 } else { a - b }),
{
    assert(b * c > 0) by (nonlinear_arith)
        requires
            b > 0,
            c > 0,
    ;
    if a < 0x800 * b {
        assert(a * c < 0x800 * (b * c)) by (nonlinear_arith)
            requires
                a < 0x800 * b,
                c > 0,
        ;
        lemma_scaled_even(a, b, c);
    } else {
        assert(a * c >= 0x800 * (b * c)) by (nonlinear_arith)
            requires
                a >= 0x800 * b,
                c > 0,
        ;
        assert((2 * b) * c == 2 * (b * c)) by (nonlinear_arith);
        lemma_packed_scaled(a, 2 * b, c, level + 1);
    }
}

/// What is many times the largest half is infinite.
proof fn lemma_packed_grows(m: nat, unit: nat, level: nat, more: nat)
    requires
        unit > 0,
        m >= 0x400 * (unit * pow2(more)),
    ensures
        packed(m, unit, level) >= (level + more) * 0x400,
    decreases more,
{
    vstd::arithmetic::power2::lemma2_to64();
    if more == 0 {
        if m >= 0x800 * unit {
            lemma_packed_above(m, 2 * unit, level + 1);
        }
    } else {
        lemma_pow2_unfold(more);
        lemma_pow2_pos((more - 1) as nat);
        let p = pow2((more - 1) as nat);
        assert(unit * (2 * p) == (2 * unit) * p) by (nonlinear_arith);
        assert((2 * unit) * p >= 2 * unit) by (nonlinear_arith)
            requires
                unit > 0,
                p >= 1,
        ;
        lemma_packed_grows(m, 2 * unit, level + 1, (more - 1) as nat);
    }
}

proof fn lemma_packed_above(m: nat, unit: nat, level: nat)
    ensures
        packed(m, unit, level) >= level * 0x400,
    decreases (if m < 0x800 * unit { 0 } else { m - unit }),
{
    if unit != 0 && m >= 0x800 * unit {
        lemma_packed_above(m, 2 * unit, level + 1);
    }
}

/// Two to the power of a small number.
fn small_power(e: u32) -> (out: u64)
    requires
        e <= 27,
    ensures
        out == pow2(e as nat),
        0 < out < 0x1000_0000,
{
    let mut out: u64 = 1;
    let mut i: u32 = 0;
    proof {
        vstd::arithmetic::power2::lemma2_to64();
    }
    while i < e
        invariant
            i <= e <= 27,
            out == pow2(i as nat),
            i < 8 ==> out <= 0x100,
            i < 16 ==> out <= 0x1_0000,
            i < 24 ==> out <= 0x100_0000,
            out < 0x1000_0000,
            0 < out,
            i == 24 ==> out == 0x100_0000,
            i == 25 ==> out == 0x200_0000,
            i == 26 ==> out == 0x400_0000,
            i == 27 ==> out == 0x800_0000,
        decreases e - i,
    {
        proof {
            lemma_pow2_unfold((i + 1) as nat);
            vstd::arithmetic::power2::lemma2_to64();
        }
        out = out * 2;
        i = i + 1;
    }
    out
}

/// The half nearest to a single.
pub fn halve(x: u32) -> (out: u16)
    ensures
        out == halved(x),
{
    let size: u32 = x % 0x8000_0000;
    let half: u16 = if size > SINGLE_INFINITY {
        let payload: u32 = (size % 0x80_0000) / 0x2000;
        (0x7e00 + payload % 0x200) as u16
    } else if size == SINGLE_INFINITY {
        0x7c00
    } else {
        let exponent: u32 = size / 0x80_0000;
        let fraction: u32 = size % 0x80_0000;
        let (m, s): (u32, u32) = if exponent == 0 {
            (fraction, 0)
        } else {
            (0x80_0000 + fraction, exponent - 1)
        };
        proof {
            vstd::arithmetic::power2::lemma2_to64();
            if exponent == 0 {
                assert(m * pow2(0) == m) by (nonlinear_arith)
                    requires
                        pow2(0) == 1,
                ;
            }
            lemma_pow2_pos(s as nat);
            lemma_pow2_pos(125);
        }
        assert(single_magnitude(x) == m as nat * pow2(s as nat));
        if s >= 125 {
            let e: u32 = s - 125;
            proof {
                lemma_pow2_adds(125, e as nat);
                let p = pow2(e as nat);
                assert(m as nat * (pow2(125) * p) == (m as nat * p) * pow2(125))
                    by (nonlinear_arith);
                lemma_packed_scaled(m as nat * p, 1, pow2(125), 0);
                assert(1 * pow2(125) == pow2(125));
            }
            if e > 20 {
                proof {
                    let p = pow2(e as nat);
                    lemma_pow2_adds(20, (e - 20) as nat);
                    lemma_pow2_pos((e - 20) as nat);
                    lemma_pow2_adds(13, 18);
                    assert(p >= pow2(20)) by (nonlinear_arith)
                        requires
                            p == pow2(20) * pow2((e - 20) as nat),
                            pow2((e - 20) as nat) >= 1,
                            pow2(20) >= 0,
                    ;
                    assert(m as nat * p >= 0x400 * (1 * pow2(31))) by (nonlinear_arith)
                        requires
                            m >= 0x80_0000,
                            p >= 0x10_0000,
                            pow2(31) == 0x8000_0000,
                    ;
                    lemma_packed_grows(m as nat * p, 1, 0, 31);
                }
                0x7c00
            } else {
                let scale: u64 = small_power(e);
                proof {
                    lemma_pow2_adds(e as nat, (20 - e) as nat);
                    lemma_pow2_pos((20 - e) as nat);
                    assert(scale <= 0x10_0000) by (nonlinear_arith)
                        requires
                            scale * pow2((20 - e) as nat) == 0x10_0000,
                            pow2((20 - e) as nat) >= 1,
                    ;
                    assert(m * scale <= 0xff_ffff * 0x10_0000) by (nonlinear_arith)
                        requires
                            m <= 0xff_ffff,
                            0 < scale <= 0x10_0000,
                    ;
                }
                pack(m as u64 * scale, 1)
            }
        } else {
            let d: u32 = 125 - s;
            proof {
                lemma_pow2_adds(s as nat, d as nat);
                assert(pow2(125) == pow2(d as nat) * pow2(s as nat)) by (nonlinear_arith)
                    requires
                        pow2(125) == pow2(s as nat) * pow2(d as nat),
                ;
                lemma_packed_scaled(m as nat, pow2(d as nat), pow2(s as nat), 0);
                lemma_pow2_pos(d as nat);
            }
            if d > 26 {
                proof {
                    lemma_pow2_adds(26, (d - 26) as nat);
                    lemma_pow2_pos((d - 26) as nat);
                    assert(pow2(d as nat) >= pow2(26)) by (nonlinear_arith)
                        requires
                            pow2(d as nat) == pow2(26) * pow2((d - 26) as nat),
                            pow2((d - 26) as nat) >= 1,
                            pow2(26) >= 0,
                    ;
                    lemma_nearest_even_is(m as nat, pow2(d as nat), 0);
                }
                0
            } else {
                pack(m as u64, small_power(d))
            }
        }
    };
    if x >= 0x8000_0000 {
        0x8000 + half
    } else {
        half
    }
}

/// The size of the single whose significand is `m / 1024` at `exponent`.
fn lift(m: u32, exponent: u32) -> (out: u32)
    requires
        0 < m < 0x800,
        113 <= exponent <= 142,
        m < 0x400 ==> exponent == 113,
    ensures
        out == lifted(m as nat, exponent as nat),
        out < SINGLE_INFINITY,
{
    let ghost (m0, e0) = (m, exponent);
    let mut m: u32 = m;
    let mut e: u32 = exponent;
    while m < 0x400
        invariant
            0 < m < 0x800,
            lifted(m as nat, e as nat) == lifted(m0 as nat, e0 as nat),
            e <= 142,
            m < 0x400 ==> e >= 104 && (e >= 113 || m >= 2) && (e >= 112 || m >= 4) && (e >= 111 || m
                >= 8) && (e >= 110 || m >= 16) && (e >= 109 || m >= 32) && (e >= 108 || m >= 64)
                && (e >= 107 || m >= 128) && (e >= 106 || m >= 256) && (e >= 105 || m >= 512),
            e >= 103,
        decreases 0x800 - m,
    {
        m = m * 2;
        e = e - 1;
    }
    e * 0x80_0000 + (m - 0x400) * 0x2000
}

/// The single of the same value as a half.
pub fn widen_half(h: u16) -> (out: u32)
    ensures
        out == widened_half(h),
{
    let exponent: u32 = (h % 0x8000 / 0x400) as u32;
    let fraction: u32 = (h % 0x400) as u32;
    let size: u32 = if exponent == 0x1f {
        if fraction == 0 {
            SINGLE_INFINITY
        } else {
            0x7fc0_0000 + fraction % 0x200 * 0x2000
        }
    } else if exponent > 0 {
        lift(0x400 + fraction, exponent + 112)
    } else if fraction > 0 {
        lift(fraction, 113)
    } else {
        0
    };
    if h >= 0x8000 {
        0x8000_0000 + size
    } else {
        size
    }
}

proof fn lemma_lifted(m: nat, e: nat)
    requires
        0 < m < 0x800,
        13 <= e <= 142,
        m < 0x400 ==> m * pow2((e - 13) as nat) >= 0x400,
    ensures
        lifted(m, e) < SINGLE_INFINITY,
        single_magnitude(lifted(m, e) as u32) == m * pow2(e + 12),
    decreases e,
{
    if m < 0x400 {
        vstd::arithmetic::power2::lemma2_to64();
        if e == 13 {
            assert(m * 1 == m);
        }
        lemma_pow2_unfold((e - 13) as nat);
        lemma_pow2_unfold(e + 12);
        let (a, b) = (pow2((e - 14) as nat), pow2(e + 11));
        assert((2 * m) * a == m * (2 * a)) by (nonlinear_arith);
        assert((2 * m) * b == m * (2 * b)) by (nonlinear_arith);
        lemma_lifted(2 * m, (e - 1) as nat);
    } else {
        let bits = lifted(m, e) as u32;
        assert(bits % 0x8000_0000 == bits);
        assert(bits / 0x80_0000 == e);
        assert(bits % 0x80_0000 == (m - 0x400) * 0x2000);
        vstd::arithmetic::power2::lemma2_to64();
        lemma_pow2_adds(13, (e - 1) as nat);
        let p = pow2((e - 1) as nat);
        assert((m * 0x2000) * p == m * (0x2000 * p)) by (nonlinear_arith);
        assert(0x80_0000 + (m - 0x400) * 0x2000 == m * 0x2000);
    }
}

/// Whether a half is finite.
pub open spec fn half_is_finite(h: u16) -> bool {
    h % 0x8000 < 0x7c00
}

/// A finite half is the single of exactly the same value and sign.
pub proof fn widening_is_exact(h: u16)
    requires
        half_is_finite(h),
    ensures
        widened_half(h) % 0x8000_0000 < SINGLE_INFINITY,
        single_magnitude(widened_half(h)) == half_magnitude(h) * pow2(125),
        (widened_half(h) >= 0x8000_0000) == (h >= 0x8000),
{
    let exponent = (h % 0x8000 / 0x400) as nat;
    let fraction = (h % 0x400) as nat;
    vstd::arithmetic::power2::lemma2_to64();
    vstd::arithmetic::power2::lemma2_to64_rest();
    if exponent > 0 {
        lemma_lifted(0x400 + fraction, exponent + 112);
        lemma_pow2_adds((exponent - 1) as nat, 125);
        let (m, a, b) = (0x400 + fraction, pow2((exponent - 1) as nat), pow2(125));
        assert((m * a) * b == m * (a * b)) by (nonlinear_arith);
    } else if fraction > 0 {
        lemma_pow2_adds(50, 50);
        assert(fraction * pow2(100) >= 0x400) by (nonlinear_arith)
            requires
                fraction >= 1,
                pow2(100) >= 0x400,
        ;
        lemma_lifted(fraction, 113);
    } else {
        assert(0 * pow2(125) == 0);
    }
    let size = widened_half(h) % 0x8000_0000;
    assert(single_magnitude(widened_half(h)) == single_magnitude(size));
}

proof fn lemma_packed_level(m: nat, from: nat, s: nat)
    requires
        from <= s,
        s > from ==> m >= 0x400 * pow2(s),
    ensures
        packed(m, pow2(from), from) == packed(m, pow2(s), s),
    decreases s - from,
{
    if from < s {
        lemma_pow2_adds(from + 1, (s - from - 1) as nat);
        lemma_pow2_unfold(from + 1);
        lemma_pow2_pos(from);
        lemma_pow2_pos((s - from - 1) as nat);
        assert(pow2(from + 1) <= pow2(s)) by (nonlinear_arith)
            requires
                pow2(s) == pow2(from + 1) * pow2((s - from - 1) as nat),
                pow2((s - from - 1) as nat) >= 1,
                pow2(from + 1) >= 0,
        ;
        if from + 1 < s {
            lemma_packed_level(m, from + 1, s);
        }
    }
}

/// A half that became a single comes back as the same half: finite ones, infinities, and what is
/// not a number with its quiet bit set.
pub proof fn halves_survive_the_wire(h: u16)
    requires
        h % 0x8000 <= 0x7c00 || h % 0x8000 >= 0x7e00,
    ensures
        halved(widened_half(h)) == h,
{
    let exponent = (h % 0x8000 / 0x400) as nat;
    let fraction = (h % 0x400) as nat;
    if half_is_finite(h) {
        widening_is_exact(h);
        let m: nat = if exponent == 0 {
            fraction
        } else {
            0x400 + fraction
        };
        let s: nat = if exponent == 0 {
            0
        } else {
            (exponent - 1) as nat
        };
        vstd::arithmetic::power2::lemma2_to64();
        let unit = pow2(s);
        lemma_pow2_pos(s);
        lemma_pow2_pos(125);
        assert(half_magnitude(h) == m * unit) by {
            if exponent == 0 {
                assert(m * 1 == m);
            }
        }
        lemma_packed_scaled(m * unit, 1, pow2(125), 0);
        assert(1 * pow2(125) == pow2(125));
        if s > 0 {
            assert(m * unit >= 0x400 * unit) by (nonlinear_arith)
                requires
                    m >= 0x400,
                    unit > 0,
            ;
        }
        assert(m * unit < 0x800 * unit) by (nonlinear_arith)
            requires
                m < 0x800,
                unit > 0,
        ;
        lemma_packed_level(m * unit, 0, s);
        lemma_nearest_even_is(m * unit, unit, m);
        assert(s * 0x400 + m == h % 0x8000);
    } else if fraction > 0 {
        let size = 0x7fc0_0000 + fraction % 0x200 * 0x2000;
        assert(size % 0x80_0000 == 0x40_0000 + fraction % 0x200 * 0x2000);
        assert((size % 0x80_0000) / 0x2000 == 0x200 + fraction % 0x200);
    }
}

/// The level at which a number is rounded, and the multiple of that level's unit that it becomes.
proof fn lemma_packed_is(m: nat, base: nat, level: nat) -> (out: (nat, nat))
    requires
        base > 0,
        level > 0 ==> m >= 0x400 * (base * pow2(level)),
    ensures
        out.0 >= level,
        packed(m, base * pow2(level), level) == out.0 * 0x400 + out.1,
        out.1 == nearest_even(m, base * pow2(out.0)),
        m < 0x800 * (base * pow2(out.0)),
        out.0 > 0 ==> m >= 0x400 * (base * pow2(out.0)),
    decreases
            (if m < 0x800 * (base * pow2(level)) {
                0
            } else {
                m - base * pow2(level)
            }),
{
    let unit = base * pow2(level);
    lemma_pow2_pos(level);
    assert(unit > 0) by (nonlinear_arith)
        requires
            base > 0,
            pow2(level) > 0,
            unit == base * pow2(level),
    ;
    if m < 0x800 * unit {
        (level, nearest_even(m, unit))
    } else {
        lemma_pow2_unfold(level + 1);
        assert(base * pow2(level + 1) == 2 * unit) by (nonlinear_arith)
            requires
                pow2(level + 1) == 2 * pow2(level),
                unit == base * pow2(level),
        ;
        lemma_packed_is(m, base, level + 1)
    }
}

/// The magnitude of the pattern of `q` units of a level.
proof fn lemma_half_pattern(level: nat, q: nat)
    requires
        level > 0 ==> q >= 0x400,
        q <= 0x800,
        level * 0x400 + q < 0x7c00,
    ensures
        half_magnitude((level * 0x400 + q) as u16) == q * pow2(level),
{
    let h = (level * 0x400 + q) as u16;
    lemma_pow2_pos(level);
    lemma_pow2_unfold(level + 1);
    vstd::arithmetic::power2::lemma2_to64();
    if q < 0x400 {
        assert(q * pow2(0) == q);
    } else if q < 0x800 {
        assert(h % 0x8000 / 0x400 == level + 1);
        assert(h % 0x400 == q - 0x400);
    } else {
        assert(h % 0x8000 / 0x400 == level + 2);
        assert(h % 0x400 == 0);
        assert(0x400 * pow2(level + 1) == q * pow2(level)) by (nonlinear_arith)
            requires
                pow2(level + 1) == 2 * pow2(level),
                q == 0x800,
        ;
    }
}

/// What is rounded goes to the nearest half: no finite half is closer to `m / base` units, and if
/// another one is as close, the pattern of the one that was taken is even.
pub proof fn numbers_round_to_the_nearest_half(m: nat, base: nat, h: u16)
    requires
        base > 0,
        h < 0x7c00,
        nearest_half(m, base) < 0x7c00,
    ensures
        ({
            let r = nearest_half(m, base);
            let error = distance(m, base * half_magnitude(r));
            let other = distance(m, base * half_magnitude(h));
            &&& error <= other
            &&& error == other && half_magnitude(h) != half_magnitude(r) ==> r % 2 == 0
        }),
{
    vstd::arithmetic::power2::lemma2_to64();
    assert(base * pow2(0) == base);
    let (level, q) = lemma_packed_is(m, base, 0);
    let unit = base * pow2(level);
    lemma_pow2_pos(level);
    assert(unit > 0) by (nonlinear_arith)
        requires
            base > 0,
            pow2(level) > 0,
            unit == base * pow2(level),
    ;
    assert(m / unit < 0x800) by (nonlinear_arith)
        requires
            unit > 0,
            m < 0x800 * unit,
    ;
    if level > 0 {
        let least = 0x400 * unit;
        assert(least * unit <= m * unit) by (nonlinear_arith)
            requires
                least <= m,
        ;
        lemma_nearest_even_ordered(least, unit, m, unit);
        lemma_nearest_even_is(least, unit, 0x400);
    }
    let r = nearest_half(m, base);
    lemma_half_pattern(level, q);
    assert(base * half_magnitude(r) == q * unit) by (nonlinear_arith)
        requires
            half_magnitude(r) == q * pow2(level),
            unit == base * pow2(level),
    ;
    let exponent = (h / 0x400) as nat;
    let fraction = (h % 0x400) as nat;
    let (k, a) = if exponent == 0 {
        (fraction, 0nat)
    } else {
        (0x400 + fraction, (exponent - 1) as nat)
    };
    assert(fraction * pow2(0) == fraction);
    assert(half_magnitude(h) == k * pow2(a));
    if a >= level {
        let gap = (a - level) as nat;
        lemma_pow2_adds(level, gap);
        let j = k * pow2(gap);
        assert(half_magnitude(h) == j * pow2(level) && base * half_magnitude(h) == j * unit)
            by (nonlinear_arith)
            requires
                half_magnitude(h) == k * pow2(a),
                pow2(a) == pow2(level) * pow2(gap),
                j == k * pow2(gap),
                unit == base * pow2(level),
        ;
        lemma_nearest_multiple(m, unit, j);
        assert(r % 2 == q % 2);
    } else {
        let gap = (level - 1 - a) as nat;
        lemma_pow2_adds(a, gap);
        lemma_pow2_pos(a);
        lemma_pow2_pos(gap);
        lemma_pow2_unfold(level);
        assert(k * pow2(a) < 0x400 * pow2(level)) by (nonlinear_arith)
            requires
                k < 0x800,
                pow2(a) > 0,
                pow2(gap) > 0,
                pow2((level - 1) as nat) == pow2(a) * pow2(gap),
                pow2(level) == 2 * pow2((level - 1) as nat),
        ;
        assert(base * half_magnitude(h) < 0x400 * unit) by (nonlinear_arith)
            requires
                base > 0,
                half_magnitude(h) < 0x400 * pow2(level),
                unit == base * pow2(level),
        ;
        lemma_nearest_multiple(m, unit, 0x400);
    }
}

/// The larger pattern is that of the larger single.
pub proof fn lemma_singles_ordered(a: u32, b: u32)
    requires
        a % 0x8000_0000 < b % 0x8000_0000,
    ensures
        single_magnitude(a) < single_magnitude(b),
{
    let (x, y) = (a % 0x8000_0000, b % 0x8000_0000);
    let (e, g) = ((x / 0x80_0000) as nat, (y / 0x80_0000) as nat);
    vstd::arithmetic::power2::lemma2_to64();
    let s: nat = if e == 0 {
        0
    } else {
        (e - 1) as nat
    };
    let t: nat = if g == 0 {
        0
    } else {
        (g - 1) as nat
    };
    lemma_pow2_pos(s);
    lemma_pow2_pos(t);
    if g > 0 {
        let k = (x % 0x80_0000) as nat + if e == 0 {
            0nat
        } else {
            0x80_0000
        };
        let l = (y % 0x80_0000) as nat + 0x80_0000;
        assert(k * pow2(0) == k);
        assert(single_magnitude(a) == k * pow2(s));
        assert(single_magnitude(b) == l * pow2(t));
        if s == t {
            assert(k * pow2(s) < l * pow2(s)) by (nonlinear_arith)
                requires
                    k < l,
                    pow2(s) > 0,
            ;
        } else {
            let gap = (t - s - 1) as nat;
            lemma_pow2_adds(s + 1, gap);
            lemma_pow2_unfold(s + 1);
            lemma_pow2_pos(gap);
            assert(k * pow2(s) < l * pow2(t)) by (nonlinear_arith)
                requires
                    k < 0x100_0000,
                    l >= 0x80_0000,
                    pow2(s) > 0,
                    pow2(gap) >= 1,
                    pow2(t) == (2 * pow2(s)) * pow2(gap),
            ;
        }
    }
}

/// What a single in the range of halves, up to 65504, becomes on its way through half precision: it
/// stays finite and keeps its sign. From 2^-14 on it is changed by at most a 2048th of its size;
/// what is smaller is changed by at most half of the smallest half.
pub proof fn the_wire_keeps_eleven_bits(x: u32)
    requires
        x % 0x8000_0000 <= 0x477f_e000,
    ensures
        ({
            let y = widened_half(halved(x));
            let size = single_magnitude(x);
            let error = distance(size, single_magnitude(y));
            &&& y % 0x8000_0000 < SINGLE_INFINITY
            &&& (y >= 0x8000_0000) == (x >= 0x8000_0000)
            &&& x % 0x8000_0000 >= 0x3880_0000 ==> 2048 * error <= size
            &&& x % 0x8000_0000 < 0x3880_0000 ==> 2 * error <= pow2(125)
        }),
{
    let m = single_magnitude(x);
    let base = pow2(125);
    vstd::arithmetic::power2::lemma2_to64();
    vstd::arithmetic::power2::lemma2_to64_rest();
    lemma_pow2_pos(125);
    // The ends of the range, in units of singles.
    assert(single_magnitude(0x3880_0000) == 0x400 * base) by {
        lemma_pow2_adds(112, 13);
        assert(0x80_0000 * pow2(112) == 0x400 * (pow2(112) * 0x2000)) by (nonlinear_arith);
    }
    assert(single_magnitude(0x477f_e000) == 0x7ff * (base * pow2(29))) by {
        lemma_pow2_adds(141, 13);
        lemma_pow2_adds(125, 29);
        assert(0xff_e000 * pow2(141) == 0x7ff * (pow2(141) * 0x2000)) by (nonlinear_arith);
    }
    if x % 0x8000_0000 < 0x477f_e000 {
        lemma_singles_ordered(x, 0x477f_e000);
    }
    if x % 0x8000_0000 < 0x3880_0000 {
        lemma_singles_ordered(x, 0x3880_0000);
    } else if x % 0x8000_0000 > 0x3880_0000 {
        lemma_singles_ordered(0x3880_0000, x);
    }
    assert(base * pow2(0) == base);
    let (level, q) = lemma_packed_is(m, base, 0);
    let unit = base * pow2(level);
    lemma_pow2_pos(level);
    assert(unit > 0) by (nonlinear_arith)
        requires
            base > 0,
            pow2(level) > 0,
            unit == base * pow2(level),
    ;
    lemma_nearest_even(m, unit);
    assert(level <= 29) by {
        if level > 29 {
            lemma_pow2_adds(30, (level - 30) as nat);
            lemma_pow2_pos((level - 30) as nat);
            assert(unit >= base * pow2(30)) by (nonlinear_arith)
                requires
                    unit == base * pow2(level),
                    pow2(level) == pow2(30) * pow2((level - 30) as nat),
                    pow2((level - 30) as nat) >= 1,
                    base > 0,
                    pow2(30) > 0,
            ;
        }
    }
    if level == 29 {
        let most = 0x7ff * unit;
        lemma_nearest_even_is(most, unit, 0x7ff);
        assert(m * unit <= most * unit) by (nonlinear_arith)
            requires
                m <= most,
        ;
        lemma_nearest_even_ordered(m, unit, most, unit);
    } else {
        assert(m / unit < 0x800) by (nonlinear_arith)
            requires
                unit > 0,
                m < 0x800 * unit,
        ;
    }
    if level > 0 {
        let least = 0x400 * unit;
        lemma_nearest_even_is(least, unit, 0x400);
        assert(least * unit <= m * unit) by (nonlinear_arith)
            requires
                least <= m,
        ;
        lemma_nearest_even_ordered(least, unit, m, unit);
        assert(unit >= base) by (nonlinear_arith)
            requires
                unit == base * pow2(level),
                pow2(level) >= 1,
                base > 0,
        ;
    }
    lemma_half_pattern(level, q);
    let h = halved(x);
    let r = nearest_half(m, base);
    assert(half_magnitude(h) == half_magnitude(r));
    widening_is_exact(h);
    assert((q * pow2(level)) * base == q * unit) by (nonlinear_arith)
        requires
            unit == base * pow2(level),
    ;
}

} // verus!
