//! Splitting the layers of a model into contiguous stages.
//!
//! The boundaries are computed with double-precision rounding at every step, so that they agree
//! with every other node that computes them that way: the layers per stage, each multiple of that
//! quotient, and at last the nearest whole layer, ties to even.

use vstd::arithmetic::power2::{lemma_pow2_adds, lemma_pow2_pos, lemma_pow2_unfold, pow2};
use vstd::prelude::*;

use crate::config::ModelConfig;

verus! {

/// The whole number nearest to `num / den`, the even one of two that are equally near.
pub open spec fn nearest_even(num: nat, den: nat) -> nat {
    let floor = num / den;
    let rest = num % den;
    if 2 * rest > den || (2 * rest == den && floor % 2 == 1) {
        floor + 1
    } else {
        floor
    }
}

/// A double-precision value: `significand * 2^up / 2^down`.
pub struct Double {
    pub significand: nat,
    pub up: nat,
    pub down: nat,
}

/// Rounds `num / den`, doubling the numerator until the quotient has 53 significant bits.
pub open spec fn scale_up(num: nat, den: nat, down: nat) -> Double
    decreases (if num < 0x10_0000_0000_0000 * den { 0x10_0000_0000_0000 * den - num } else { 0 }),
{
    if num == 0 || num >= 0x10_0000_0000_0000 * den {
        Double { significand: nearest_even(num, den), up: 0, down }
    } else {
        scale_up(2 * num, den, down + 1)
    }
}

/// Rounds `num / den`, doubling the denominator until the quotient has 53 significant bits.
pub open spec fn scale_down(num: nat, den: nat, up: nat) -> Double
    decreases (if num < 0x20_0000_0000_0000 * den { 0 } else { num - den }),
{
    if den == 0 || num < 0x20_0000_0000_0000 * den {
        Double { significand: nearest_even(num, den), up, down: 0 }
    } else {
        scale_down(num, 2 * den, up + 1)
    }
}

/// The double nearest to `num / den`, ties to even.
pub open spec fn to_double(num: nat, den: nat) -> Double {
    if num < 0x20_0000_0000_0000 * den {
        scale_up(num, den, 0)
    } else {
        scale_down(num, den, 0)
    }
}

/// The whole number that the double nearest to `n` stands for.
pub open spec fn whole_double(n: nat) -> nat {
    if n < 0x20_0000_0000_0000 {
        n
    } else {
        to_double(n, 1).significand * pow2(to_double(n, 1).up)
    }
}

/// The whole number nearest to a double, ties to even.
pub open spec fn nearest_whole(x: Double) -> nat {
    if x.up >= x.down {
        x.significand * pow2((x.up - x.down) as nat)
    } else {
        nearest_even(x.significand, pow2((x.down - x.up) as nat))
    }
}

/// Layers per stage.
pub open spec fn layers_per_stage(n_layer: nat, n_stages: nat) -> Double {
    to_double(whole_double(n_layer), n_stages)
}

/// The product of a double and a whole number, rounded to a double.
pub open spec fn times(x: Double, k: nat) -> Double {
    let product = to_double(k * x.significand, 1);
    Double {
        significand: product.significand,
        up: product.up + x.up,
        down: product.down + x.down,
    }
}

/// Where stage `s` begins, and stage `s - 1` ends.
pub open spec fn boundary(n_layer: nat, n_stages: nat, s: nat) -> usize {
    let layer = nearest_whole(times(layers_per_stage(n_layer, n_stages), s));
    if layer <= usize::MAX {
        layer as usize
    } else {
        usize::MAX
    }
}

/// The layer range of every stage.
pub open spec fn shard_of(n_layer: nat, n_stages: nat) -> Seq<(usize, usize)> {
    Seq::new(
        n_stages,
        |s: int|
            (boundary(n_layer, n_stages, s as nat), boundary(n_layer, n_stages, (s + 1) as nat)),
    )
}

/// Rounds a quotient to the nearest whole number, ties to even.
pub fn round_half_even(num: u128, den: u128) -> (out: u128)
    requires
        0 < den <= 0x8000_0000_0000_0000_0000_0000_0000_0000,
        num < 0x8000_0000_0000_0000_0000_0000_0000_0000,
    ensures
        out == nearest_even(num as nat, den as nat),
{
    let floor: u128 = num / den;
    let rest: u128 = num % den;
    proof {
        assert(rest < den && floor <= num) by (nonlinear_arith)
            requires
                den > 0,
                rest == num % den,
                floor == num / den,
        ;
    }
    if rest > den - rest || (rest == den - rest && floor % 2 == 1) {
        floor + 1
    } else {
        floor
    }
}

/// Two to the power of `e`.
pub fn power_of_two(e: u32) -> (out: u128)
    requires
        e <= 127,
    ensures
        out == pow2(e as nat),
        0 < out <= 0x8000_0000_0000_0000_0000_0000_0000_0000,
{
    let mut out: u128 = 1;
    let mut i: u32 = 0;
    proof {
        vstd::arithmetic::power2::lemma2_to64();
        lemma_pow2_127();
        lemma_pow2_ordered(0, e as nat);
    }
    while i < e
        invariant
            i <= e <= 127,
            out == pow2(i as nat),
            pow2(127) == 0x8000_0000_0000_0000_0000_0000_0000_0000,
            out <= pow2(e as nat),
        decreases e - i,
    {
        proof {
            lemma_pow2_unfold((i + 1) as nat);
            lemma_pow2_ordered((i + 1) as nat, e as nat);
            lemma_pow2_ordered(e as nat, 127);
        }
        out = out * 2;
        i = i + 1;
    }
    proof {
        lemma_pow2_ordered(e as nat, 127);
    }
    out
}

proof fn lemma_pow2_127()
    ensures
        pow2(0) == 1,
        pow2(11) == 0x800,
        pow2(12) == 0x1000,
        pow2(52) == 0x10_0000_0000_0000,
        pow2(53) == 0x20_0000_0000_0000,
        pow2(64) == 0x1_0000_0000_0000_0000,
        pow2(107) == 0x800_0000_0000_0000_0000_0000_0000,
        pow2(127) == 0x8000_0000_0000_0000_0000_0000_0000_0000,
{
    vstd::arithmetic::power2::lemma2_to64();
    vstd::arithmetic::power2::lemma2_to64_rest();
    lemma_pow2_adds(64, 43);
    lemma_pow2_adds(64, 63);
}

proof fn lemma_pow2_ordered(a: nat, b: nat)
    requires
        a <= b,
    ensures
        0 < pow2(a) <= pow2(b),
{
    lemma_pow2_pos(a);
    if a < b {
        vstd::arithmetic::power2::lemma_pow2_strictly_increases(a, b);
    }
}

/// The double nearest to `num / den`, as its significand and its two exponents.
fn round_to_double(num: u128, den: u128) -> (out: (u64, u32, u32))
    requires
        0 < den <= 0x20_0000_0000_0000,
        num < 0x800_0000_0000_0000_0000_0000_0000,
    ensures
        out.0 == to_double(num as nat, den as nat).significand,
        out.1 == to_double(num as nat, den as nat).up,
        out.2 == to_double(num as nat, den as nat).down,
        out.0 <= 0x20_0000_0000_0000,
        out.1 <= 127,
        out.2 <= 127,
        out.1 > 0 ==> pow2(out.1 as nat) * 0x10_0000_0000_0000 <= num,
{
    proof {
        lemma_pow2_127();
    }
    if num < 0x20_0000_0000_0000 * den {
        let mut n: u128 = num;
        let mut down: u32 = 0;
        while n != 0 && n < 0x10_0000_0000_0000 * den
            invariant
                0 < den <= 0x20_0000_0000_0000,
                n < 0x20_0000_0000_0000 * den,
                down <= 126,
                n != 0 ==> pow2(down as nat) <= n,
                n == 0 ==> down == 0,
                pow2(107) == 0x800_0000_0000_0000_0000_0000_0000,
                scale_up(num as nat, den as nat, 0) == scale_up(n as nat, den as nat, down as nat),
            decreases 0x20_0000_0000_0000 * den - n,
        {
            proof {
                lemma_pow2_unfold((down + 1) as nat);
                if down >= 106 {
                    lemma_pow2_ordered(107, (down + 1) as nat);
                }
            }
            n = n * 2;
            down = down + 1;
        }
        proof {
            lemma_quotient_bound(n as nat, den as nat);
        }
        (round_half_even(n, den) as u64, 0, down)
    } else {
        let mut d: u128 = den;
        let mut up: u32 = 0;
        while num >= 0x20_0000_0000_0000 * d
            invariant
                0 < den <= d,
                d <= 0x80_0000_0000_0000,
                num < 0x800_0000_0000_0000_0000_0000_0000,
                pow2(up as nat) <= d,
                up <= 126,
                up > 0 ==> d * 0x10_0000_0000_0000 <= num,
                pow2(107) == 0x800_0000_0000_0000_0000_0000_0000,
                scale_down(num as nat, den as nat, 0) == scale_down(num as nat, d as nat, up as nat),
            decreases num - d,
        {
            proof {
                lemma_pow2_unfold((up + 1) as nat);
                if up >= 106 {
                    lemma_pow2_ordered(107, (up + 1) as nat);
                }
            }
            d = d * 2;
            up = up + 1;
        }
        proof {
            lemma_quotient_bound(num as nat, d as nat);
        }
        (round_half_even(num, d) as u64, up, 0)
    }
}

pub proof fn lemma_quotient_bound(num: nat, den: nat)
    requires
        den > 0,
        num < 0x20_0000_0000_0000 * den,
    ensures
        nearest_even(num, den) <= 0x20_0000_0000_0000,
{
    assert(num / den < 0x20_0000_0000_0000) by (nonlinear_arith)
        requires
            den > 0,
            num < 0x20_0000_0000_0000 * den,
    ;
}

/// The whole number that the double nearest to `n` stands for.
fn whole(n: u64) -> (out: u128)
    ensures
        out == whole_double(n as nat),
        out < 0x800_0000_0000_0000_0000_0000_0000,
{
    if n < 0x20_0000_0000_0000 {
        n as u128
    } else {
        let (significand, up, _down) = round_to_double(n as u128, 1);
        let unit = power_of_two(up);
        proof {
            lemma_pow2_127();
            assert(unit <= 0x1000);
            assert(significand * unit <= 0x20_0000_0000_0000 * 0x1000) by (nonlinear_arith)
                requires
                    significand <= 0x20_0000_0000_0000,
                    unit <= 0x1000,
            ;
        }
        significand as u128 * unit
    }
}

/// The whole number nearest to a double, at most `usize::MAX`.
fn to_index(significand: u64, up: u32, down: u32) -> (out: usize)
    requires
        significand <= 0x20_0000_0000_0000,
        up <= 254,
        down <= 254,
    ensures
        ({
            let x = Double { significand: significand as nat, up: up as nat, down: down as nat };
            let layer = nearest_whole(x);
            out == if layer <= usize::MAX {
                layer as usize
            } else {
                usize::MAX
            }
        }),
{
    proof {
        lemma_pow2_127();
    }
    let layer: u128 = if up >= down {
        let shift: u32 = up - down;
        if significand == 0 {
            assert(0 * pow2(shift as nat) == 0);
            0
        } else if shift >= 64 {
            proof {
                lemma_pow2_ordered(64, shift as nat);
                assert(significand * pow2(shift as nat) >= pow2(shift as nat)) by (nonlinear_arith)
                    requires
                        significand >= 1,
                ;
            }
            return usize::MAX;
        } else {
            let unit = power_of_two(shift);
            proof {
                lemma_pow2_ordered(shift as nat, 64);
                assert(significand * unit <= 0x20_0000_0000_0000 * 0x1_0000_0000_0000_0000)
                    by (nonlinear_arith)
                    requires
                        significand <= 0x20_0000_0000_0000,
                        unit <= 0x1_0000_0000_0000_0000,
                ;
            }
            significand as u128 * unit
        }
    } else {
        let shift: u32 = down - up;
        if shift > 127 {
            proof {
                lemma_pow2_ordered(127, shift as nat);
                let d = pow2(shift as nat);
                assert(significand as nat / d == 0 && significand as nat % d == significand)
                    by (nonlinear_arith)
                    requires
                        significand < d,
                ;
            }
            return 0;
        } else {
            round_half_even(significand as u128, power_of_two(shift))
        }
    };
    if layer <= usize::MAX as u128 {
        layer as usize
    } else {
        usize::MAX
    }
}

/// Splits the layers of a model into `n_stages` roughly equal contiguous ranges.
pub fn shard(cfg: &ModelConfig, n_stages: usize) -> (bounds: Vec<(usize, usize)>)
    requires
        n_stages <= 0x20_0000_0000_0000,
    ensures
        bounds@ == shard_of(cfg.n_layer as nat, n_stages as nat),
{
    let mut bounds: Vec<(usize, usize)> = Vec::new();
    if n_stages == 0 {
        assert(bounds@ =~= shard_of(cfg.n_layer as nat, 0));
        return bounds;
    }
    let (significand, up, down) = round_to_double(whole(cfg.n_layer as u64), n_stages as u128);
    let ghost per = layers_per_stage(cfg.n_layer as nat, n_stages as nat);
    let mut s: usize = 0;
    while s < n_stages
        invariant
            s <= n_stages <= 0x20_0000_0000_0000,
            per == layers_per_stage(cfg.n_layer as nat, n_stages as nat),
            significand == per.significand,
            up == per.up,
            down == per.down,
            significand <= 0x20_0000_0000_0000,
            up <= 127,
            down <= 127,
            bounds@ =~= shard_of(cfg.n_layer as nat, n_stages as nat).take(s as int),
        decreases n_stages - s,
    {
        proof {
            assert(s * significand <= 0x20_0000_0000_0000 * 0x20_0000_0000_0000) by (nonlinear_arith)
                requires
                    s <= 0x20_0000_0000_0000,
                    significand <= 0x20_0000_0000_0000,
            ;
            assert((s + 1) * significand <= 0x20_0000_0000_0000 * 0x20_0000_0000_0000)
                by (nonlinear_arith)
                requires
                    s + 1 <= 0x20_0000_0000_0000,
                    significand <= 0x20_0000_0000_0000,
            ;
        }
        let from = round_to_double(s as u128 * significand as u128, 1);
        let to = round_to_double((s + 1) as u128 * significand as u128, 1);
        let lo = to_index(from.0, from.1 + up, from.2 + down);
        let hi = to_index(to.0, to.1 + up, to.2 + down);
        bounds.push((lo, hi));
        s = s + 1;
    }
    assert(bounds@ =~= shard_of(cfg.n_layer as nat, n_stages as nat));
    bounds
}

/// What rounding a quotient leaves: at most half of the divisor.
pub proof fn lemma_nearest_even(num: nat, den: nat)
    requires
        den > 0,
    ensures
        2 * (nearest_even(num, den) * den - num) <= den,
        2 * (num - nearest_even(num, den) * den) <= den,
        num / den <= nearest_even(num, den) <= num / den + 1,
{
    let q = num / den;
    let r = num % den;
    vstd::arithmetic::div_mod::lemma_fundamental_div_mod(num as int, den as int);
    vstd::arithmetic::div_mod::lemma_mod_bound(num as int, den as int);
    assert(q * den + r == num) by (nonlinear_arith)
        requires
            num == den * q + r,
    ;
    assert((q + 1) * den == q * den + den) by (nonlinear_arith);
}

/// Rounding a quotient that is within less than half of a whole number gives that number.
pub proof fn lemma_nearest_even_is(num: nat, den: nat, n: nat)
    requires
        den > 0,
        2 * (num - n * den) < den,
        2 * (n * den - num) < den,
    ensures
        nearest_even(num, den) == n,
{
    lemma_nearest_even(num, den);
    let k = nearest_even(num, den);
    if k > n {
        assert(k * den >= n * den + den) by (nonlinear_arith)
            requires
                k >= n + 1,
        ;
    } else if k < n {
        assert(n * den >= k * den + den) by (nonlinear_arith)
            requires
                n >= k + 1,
        ;
    }
}

/// A larger quotient rounds to no smaller number.
pub proof fn lemma_nearest_even_ordered(a: nat, b: nat, c: nat, d: nat)
    requires
        b > 0,
        d > 0,
        a * d <= c * b,
    ensures
        nearest_even(a, b) <= nearest_even(c, d),
{
    let p = a / b;
    let r = a % b;
    let q = c / d;
    let t = c % d;
    vstd::arithmetic::div_mod::lemma_fundamental_div_mod(a as int, b as int);
    vstd::arithmetic::div_mod::lemma_fundamental_div_mod(c as int, d as int);
    vstd::arithmetic::div_mod::lemma_mod_bound(a as int, b as int);
    vstd::arithmetic::div_mod::lemma_mod_bound(c as int, d as int);
    assert(a == b * p + r && c == d * q + t && r < b && t < d);
    assert((b * p + r) * d == (b * d) * p + r * d) by (nonlinear_arith);
    assert((d * q + t) * b == (b * d) * q + t * b) by (nonlinear_arith);
    assert((b * d) * p + r * d <= (b * d) * q + t * b);
    assert(t * b < b * d) by (nonlinear_arith)
        requires
            t < d,
            b > 0,
    ;
    if p > q {
        assert((b * d) * p >= (b * d) * q + b * d) by (nonlinear_arith)
            requires
                p >= q + 1,
                b > 0,
                d > 0,
        ;
        assert(r * d >= 0) by (nonlinear_arith);
        assert(false);
    }
    if p == q {
        assert(r * d <= t * b);
        if 2 * r > b {
            assert((2 * r) * d > b * d) by (nonlinear_arith)
                requires
                    2 * r > b,
                    d > 0,
            ;
            assert((2 * r) * d == 2 * (r * d)) by (nonlinear_arith);
            assert((2 * t) * b == 2 * (t * b)) by (nonlinear_arith);
            assert((2 * t) * b > b * d);
            assert(2 * t > d) by (nonlinear_arith)
                requires
                    (2 * t) * b > b * d,
                    b > 0,
            ;
        } else if 2 * r == b {
            assert((2 * r) * d == 2 * (r * d)) by (nonlinear_arith);
            assert((2 * t) * b == 2 * (t * b)) by (nonlinear_arith);
            assert((2 * t) * b >= b * d);
            assert(2 * t >= d) by (nonlinear_arith)
                requires
                    (2 * t) * b >= b * d,
                    b > 0,
            ;
        }
    }
}

/// The scaled quotient that a double's significand rounds.
spec fn is_scaled(num: nat, den: nat, x: Double) -> bool {
    &&& x.up == 0 || x.down == 0
    &&& x.significand == nearest_even(num * pow2(x.down), den * pow2(x.up))
    &&& 0x10_0000_0000_0000 * (den * pow2(x.up)) <= num * pow2(x.down)
    &&& num * pow2(x.down) < 0x20_0000_0000_0000 * (den * pow2(x.up))
}

proof fn lemma_scale_up(num: nat, den: nat, start: nat, down: nat)
    requires
        start > 0,
        den > 0,
        num == start * pow2(down),
        num < 0x20_0000_0000_0000 * den,
    ensures
        is_scaled(start, den, scale_up(num, den, down)),
    decreases (if num < 0x10_0000_0000_0000 * den { 0x10_0000_0000_0000 * den - num } else { 0 }),
{
    lemma_pow2_pos(down);
    lemma_pow2_127();
    assert(num > 0) by (nonlinear_arith)
        requires
            start > 0,
            num == start * pow2(down),
            pow2(down) > 0,
    ;
    assert(den * pow2(0) == den);
    if num < 0x10_0000_0000_0000 * den {
        lemma_pow2_unfold(down + 1);
        assert(2 * num == start * pow2(down + 1)) by (nonlinear_arith)
            requires
                num == start * pow2(down),
                pow2(down + 1) == 2 * pow2(down),
        ;
        lemma_scale_up(2 * num, den, start, down + 1);
    }
}

proof fn lemma_scale_down(num: nat, den: nat, start: nat, up: nat)
    requires
        start > 0,
        den == start * pow2(up),
        num >= 0x10_0000_0000_0000 * den,
    ensures
        is_scaled(num, start, scale_down(num, den, up)),
    decreases (if num < 0x20_0000_0000_0000 * den { 0 } else { num - den }),
{
    lemma_pow2_pos(up);
    lemma_pow2_127();
    assert(den > 0) by (nonlinear_arith)
        requires
            start > 0,
            den == start * pow2(up),
            pow2(up) > 0,
    ;
    assert(num * pow2(0) == num);
    if num >= 0x20_0000_0000_0000 * den {
        lemma_pow2_unfold(up + 1);
        assert(2 * den == start * pow2(up + 1)) by (nonlinear_arith)
            requires
                den == start * pow2(up),
                pow2(up + 1) == 2 * pow2(up),
        ;
        lemma_scale_down(num, 2 * den, start, up + 1);
    }
}

proof fn lemma_to_double(num: nat, den: nat)
    requires
        num > 0,
        den > 0,
    ensures
        is_scaled(num, den, to_double(num, den)),
        0x10_0000_0000_0000 <= to_double(num, den).significand <= 0x20_0000_0000_0000,
{
    lemma_pow2_127();
    assert(num * pow2(0) == num && den * pow2(0) == den);
    if num < 0x20_0000_0000_0000 * den {
        lemma_scale_up(num, den, num, 0);
    } else {
        lemma_scale_down(num, den, den, 0);
    }
    let x = to_double(num, den);
    let a = num * pow2(x.down);
    let b = den * pow2(x.up);
    lemma_pow2_pos(x.up);
    assert(b > 0) by (nonlinear_arith)
        requires
            den > 0,
            pow2(x.up) > 0,
            b == den * pow2(x.up),
    ;
    lemma_quotient_bound(a, b);
    lemma_nearest_even(a, b);
    assert(a / b >= 0x10_0000_0000_0000) by (nonlinear_arith)
        requires
            0x10_0000_0000_0000 * b <= a,
            b > 0,
    ;
}

/// A double's nearest whole number, as one quotient.
proof fn lemma_nearest_whole(x: Double)
    ensures
        nearest_whole(x) == nearest_even(x.significand * pow2(x.up), pow2(x.down)),
{
    let m = x.significand;
    lemma_pow2_pos(x.up);
    lemma_pow2_pos(x.down);
    if x.up >= x.down {
        let k = (x.up - x.down) as nat;
        lemma_pow2_adds(k, x.down);
        assert(m * pow2(x.up) == (m * pow2(k)) * pow2(x.down)) by (nonlinear_arith)
            requires
                pow2(x.up) == pow2(k) * pow2(x.down),
        ;
        lemma_nearest_even_is(m * pow2(x.up), pow2(x.down), m * pow2(k));
    } else {
        let k = (x.down - x.up) as nat;
        lemma_pow2_adds(k, x.up);
        lemma_pow2_pos(k);
        assert(m * pow2(x.down) == (m * pow2(x.up)) * pow2(k)) by (nonlinear_arith)
            requires
                pow2(x.down) == pow2(k) * pow2(x.up),
        ;
        lemma_nearest_even_ordered(m, pow2(k), m * pow2(x.up), pow2(x.down));
        lemma_nearest_even_ordered(m * pow2(x.up), pow2(x.down), m, pow2(k));
    }
}

/// A larger whole number rounds to no smaller double.
proof fn lemma_to_double_ordered(a: nat, b: nat)
    requires
        0 < a <= b,
    ensures
        ({
            let x = to_double(a, 1);
            let y = to_double(b, 1);
            (x.significand * pow2(x.up)) * pow2(y.down) <= (y.significand * pow2(y.up)) * pow2(
                x.down,
            )
        }),
{
    lemma_to_double(a, 1);
    lemma_to_double(b, 1);
    let x = to_double(a, 1);
    let y = to_double(b, 1);
    let (xu, xd, yu, yd) = (pow2(x.up), pow2(x.down), pow2(y.up), pow2(y.down));
    lemma_pow2_pos(x.up);
    lemma_pow2_pos(x.down);
    lemma_pow2_pos(y.up);
    lemma_pow2_pos(y.down);
    lemma_pow2_adds(x.up, y.down);
    lemma_pow2_adds(y.up, x.down);
    let m = x.significand;
    let n = y.significand;
    assert((m * xu) * yd == m * (xu * yd)) by (nonlinear_arith);
    assert((n * yu) * xd == n * (yu * xd)) by (nonlinear_arith);
    assert(1 * xu == xu && 1 * yu == yu);
    if x.up + y.down == y.up + x.down {
        // Both rounded at the same scale.
        assert((a * xd) * yu <= (b * yd) * xu) by {
            assert((a * xd) * yu == a * (yu * xd)) by (nonlinear_arith);
            assert((b * yd) * xu == b * (xu * yd)) by (nonlinear_arith);
            assert(a * (yu * xd) <= b * (yu * xd)) by (nonlinear_arith)
                requires
                    a <= b,
                    yu * xd >= 0,
            ;
        }
        lemma_nearest_even_ordered(a * xd, xu, b * yd, yu);
        assert(m * (xu * yd) <= n * (xu * yd)) by (nonlinear_arith)
            requires
                m <= n,
                xu * yd >= 0,
        ;
    } else if x.up + y.down < y.up + x.down {
        lemma_pow2_unfold((x.up + y.down + 1) as nat);
        lemma_pow2_ordered((x.up + y.down + 1) as nat, (y.up + x.down) as nat);
        assert(2 * (xu * yd) <= yu * xd);
        assert(m * (xu * yd) <= n * (yu * xd)) by (nonlinear_arith)
            requires
                m <= 0x20_0000_0000_0000,
                n >= 0x10_0000_0000_0000,
                2 * (xu * yd) <= yu * xd,
                xu * yd >= 0,
        ;
    } else {
        lemma_pow2_unfold((y.up + x.down + 1) as nat);
        lemma_pow2_ordered((y.up + x.down + 1) as nat, (x.up + y.down) as nat);
        assert(2 * (yu * xd) <= xu * yd);
        assert(0x10_0000_0000_0000 * (xu * yd) <= a * (xd * yd)) by (nonlinear_arith)
            requires
                0x10_0000_0000_0000 * xu <= a * xd,
                yd > 0,
        ;
        assert(b * (xd * yd) < 0x20_0000_0000_0000 * (yu * xd)) by (nonlinear_arith)
            requires
                b * yd < 0x20_0000_0000_0000 * yu,
                xd > 0,
        ;
        assert(a * (xd * yd) <= b * (xd * yd)) by (nonlinear_arith)
            requires
                a <= b,
                xd > 0,
                yd > 0,
        ;
        assert(false);
    }
}

/// Stage boundaries never go down.
proof fn lemma_boundary_ordered(n_layer: nat, n_stages: nat, s: nat)
    ensures
        boundary(n_layer, n_stages, s) <= boundary(n_layer, n_stages, s + 1),
{
    let per = layers_per_stage(n_layer, n_stages);
    let a = s * per.significand;
    let b = (s + 1) * per.significand;
    let x = times(per, s);
    let y = times(per, s + 1);
    lemma_nearest_whole(x);
    lemma_nearest_whole(y);
    lemma_pow2_pos(x.down);
    lemma_pow2_pos(y.down);
    assert(a <= b) by (nonlinear_arith)
        requires
            a == s * per.significand,
            b == (s + 1) * per.significand,
    ;
    if a == 0 {
        lemma_pow2_127();
        assert(to_double(0, 1).significand == 0);
        assert(x.significand == 0);
        assert(0 * pow2(x.up) == 0);
        assert(nearest_even(0, pow2(x.down)) == 0) by {
            vstd::arithmetic::div_mod::lemma_div_basics(pow2(x.down) as int);
            vstd::arithmetic::div_mod::lemma_small_mod(0, pow2(x.down));
        }
    } else {
        let p = to_double(a, 1);
        let q = to_double(b, 1);
        lemma_to_double_ordered(a, b);
        lemma_pow2_adds(p.up, per.up);
        lemma_pow2_adds(q.up, per.up);
        lemma_pow2_adds(p.down, per.down);
        lemma_pow2_adds(q.down, per.down);
        let f = pow2(per.up) * pow2(per.down);
        let (pm, qm) = (p.significand, q.significand);
        let (pu, pd, qu, qd) = (pow2(p.up), pow2(p.down), pow2(q.up), pow2(q.down));
        let (u, d) = (pow2(per.up), pow2(per.down));
        assert((pm * (pu * u)) * (qd * d) == ((pm * pu) * qd) * (u * d)) by (nonlinear_arith);
        assert((qm * (qu * u)) * (pd * d) == ((qm * qu) * pd) * (u * d)) by (nonlinear_arith);
        assert(((pm * pu) * qd) * (u * d) <= ((qm * qu) * pd) * (u * d)) by (nonlinear_arith)
            requires
                (pm * pu) * qd <= (qm * qu) * pd,
                u * d >= 0,
        ;
        lemma_nearest_even_ordered(
            x.significand * pow2(x.up),
            pow2(x.down),
            y.significand * pow2(y.up),
            pow2(y.down),
        );
    }
}

/// The last boundary is the number of layers.
proof fn lemma_last_boundary(n_layer: nat, n_stages: nat)
    requires
        0 < n_layer < 0x8_0000_0000_0000,
        n_layer <= usize::MAX,
        n_stages > 0,
    ensures
        boundary(n_layer, n_stages, n_stages) == n_layer,
{
    let n = n_layer;
    let s = n_stages;
    let per = layers_per_stage(n, s);
    lemma_to_double(n, s);
    let m = per.significand;
    let (u, d) = (pow2(per.up), pow2(per.down));
    lemma_pow2_pos(per.up);
    lemma_pow2_pos(per.down);
    let a = n * d;
    let b = s * u;
    assert(b > 0) by (nonlinear_arith)
        requires
            b == s * u,
            s > 0,
            u > 0,
    ;
    lemma_nearest_even(a, b);
    let p = s * m;
    assert(p > 0) by (nonlinear_arith)
        requires
            p == s * m,
            s > 0,
            m > 0,
    ;
    lemma_to_double(p, 1);
    let prod = to_double(p, 1);
    let k = prod.significand;
    let (v, e) = (pow2(prod.up), pow2(prod.down));
    lemma_pow2_pos(prod.up);
    lemma_pow2_pos(prod.down);
    assert(1 * v == v);
    lemma_nearest_even(p * e, v);
    let x = times(per, s);
    lemma_nearest_whole(x);
    lemma_pow2_adds(prod.up, per.up);
    lemma_pow2_adds(prod.down, per.down);
    let t = e * d;
    let num = k * (v * u);
    // How far the product is from its rounding, and the quotient from its own.
    let d1 = k * v - p * e;
    let d2 = m * b - a;
    assert(num == n * t + d2 * e + d1 * u) by {
        assert(k * (v * u) == (k * v) * u) by (nonlinear_arith);
        assert((p * e + d1) * u == (p * e) * u + d1 * u) by (nonlinear_arith);
        assert((s * m) * e * u == (m * (s * u)) * e) by (nonlinear_arith);
        assert((a + d2) * e == a * e + d2 * e) by (nonlinear_arith);
        assert((n * d) * e == n * (e * d)) by (nonlinear_arith);
    }
    let nt = n * t;
    let be = b * e;
    let mbe = m * be;
    // The first rounding is off by at most half a unit, and 2^52 units fit below it.
    assert(2 * d2 * e <= be && -(2 * d2 * e) <= be) by (nonlinear_arith)
        requires
            2 * d2 <= b,
            -(2 * d2) <= b,
            e > 0,
            be == b * e,
    ;
    assert(0x10_0000_0000_0000 * be <= nt) by (nonlinear_arith)
        requires
            0x10_0000_0000_0000 * b <= a,
            be == b * e,
            nt == n * t,
            t == e * d,
            a == n * d,
            e > 0,
    ;
    // So is the second.
    assert(2 * d1 * u <= v * u && -(2 * d1 * u) <= v * u) by (nonlinear_arith)
        requires
            2 * d1 <= v,
            -(2 * d1) <= v,
            u > 0,
    ;
    assert(0x10_0000_0000_0000 * (v * u) <= mbe) by (nonlinear_arith)
        requires
            0x10_0000_0000_0000 * v <= p * e,
            p == s * m,
            b == s * u,
            be == b * e,
            mbe == m * be,
            u > 0,
    ;
    assert(mbe == nt + d2 * e) by (nonlinear_arith)
        requires
            d2 == m * b - a,
            a == n * d,
            be == b * e,
            mbe == m * be,
            nt == n * t,
            t == e * d,
    ;
    assert(2 * (d2 * e) == 2 * d2 * e && 2 * (d1 * u) == 2 * d1 * u) by (nonlinear_arith);
    let off = d2 * e + d1 * u;
    assert(num - nt == off);
    assert(2 * mbe <= 2 * nt + be);
    assert(2 * off <= be + v * u && -2 * off <= be + v * u);
    let slack = be + v * u;
    assert(0x20_0000_0000_0000_0000_0000_0000 * slack <= 0x40_0000_0000_0001 * nt);
    assert(nt < 0x8_0000_0000_0000 * t && nt <= 0x7_ffff_ffff_ffff * t) by (nonlinear_arith)
        requires
            nt == n * t,
            n <= 0x7_ffff_ffff_ffff,
            t > 0,
    ;
    assert(t > 0) by (nonlinear_arith)
        requires
            t == e * d,
            e > 0,
            d > 0,
    ;
    assert(slack < t);
    lemma_nearest_even_is(num, t, n);
}

/// The stages of a model are contiguous: the first begins at layer zero, each ends where the next
/// begins, none has its bounds reversed and the last ends with the model's last layer. Beyond two
/// to the power of 51 layers a quotient no longer determines its layer, and the last boundary may
/// miss the end.
pub proof fn stages_cover_the_model(n_layer: nat, n_stages: nat)
    requires
        n_layer <= usize::MAX,
        n_stages > 0,
    ensures
        shard_of(n_layer, n_stages).len() == n_stages,
        shard_of(n_layer, n_stages)[0].0 == 0,
        forall|s: int|
            0 <= s < n_stages ==> (#[trigger] shard_of(n_layer, n_stages)[s]).0 <= shard_of(
                n_layer,
                n_stages,
            )[s].1,
        forall|s: int|
            0 <= s < n_stages - 1 ==> (#[trigger] shard_of(n_layer, n_stages)[s]).1 == shard_of(
                n_layer,
                n_stages,
            )[s + 1].0,
        n_layer < 0x8_0000_0000_0000 ==> shard_of(n_layer, n_stages)[n_stages - 1].1 == n_layer,
{
    let per = layers_per_stage(n_layer, n_stages);
    assert(boundary(n_layer, n_stages, 0) == 0) by {
        assert(0 * per.significand == 0);
        lemma_pow2_127();
        let x = times(per, 0);
        assert(to_double(0, 1).significand == 0);
        lemma_nearest_whole(x);
        lemma_pow2_pos(x.down);
        assert(0 * pow2(x.up) == 0);
        vstd::arithmetic::div_mod::lemma_div_basics(pow2(x.down) as int);
        vstd::arithmetic::div_mod::lemma_small_mod(0, pow2(x.down));
    }
    assert forall|s: int| 0 <= s < n_stages implies (#[trigger] shard_of(n_layer, n_stages)[s]).0
        <= shard_of(n_layer, n_stages)[s].1 by {
        lemma_boundary_ordered(n_layer, n_stages, s as nat);
    }
    if 0 < n_layer < 0x8_0000_0000_0000 {
        lemma_last_boundary(n_layer, n_stages);
    } else if n_layer == 0 {
        lemma_no_layers(n_stages, n_stages);
    }
}

/// A boundary is the whole number nearest to its share of the layers, or one of two that are equally
/// near, where the product of layers and stages is small enough for the rounding errors.
proof fn lemma_boundary_near(n: nat, stages: nat, j: nat)
    requires
        n > 0,
        0 < j <= stages,
        n * stages < 0x4_0000_0000_0000,
        n <= usize::MAX,
    ensures
        2 * (stages * boundary(n, stages, j) - j * n) <= stages,
        2 * (j * n - stages * boundary(n, stages, j)) <= stages,
{
    assert(n <= n * stages && j * n <= n * stages) by (nonlinear_arith)
        requires
            0 < j <= stages,
            n > 0,
    ;
    let per = layers_per_stage(n, stages);
    lemma_to_double(n, stages);
    let m = per.significand;
    let (u, d) = (pow2(per.up), pow2(per.down));
    lemma_pow2_pos(per.up);
    lemma_pow2_pos(per.down);
    let a = n * d;
    let b = stages * u;
    assert(b > 0) by (nonlinear_arith)
        requires
            b == stages * u,
            stages > 0,
            u > 0,
    ;
    lemma_nearest_even(a, b);
    let p = j * m;
    assert(p > 0) by (nonlinear_arith)
        requires
            p == j * m,
            j > 0,
            m > 0,
    ;
    lemma_to_double(p, 1);
    let prod = to_double(p, 1);
    let k = prod.significand;
    let (v, e) = (pow2(prod.up), pow2(prod.down));
    lemma_pow2_pos(prod.up);
    lemma_pow2_pos(prod.down);
    assert(1 * v == v);
    lemma_nearest_even(p * e, v);
    let x = times(per, j);
    lemma_nearest_whole(x);
    lemma_pow2_adds(prod.up, per.up);
    lemma_pow2_adds(prod.down, per.down);
    let t = e * d;
    let num = k * (v * u);
    let whole = nearest_whole(x);
    assert(t > 0) by (nonlinear_arith)
        requires
            t == e * d,
            e > 0,
            d > 0,
    ;
    assert(whole == nearest_even(num, t));
    lemma_nearest_even(num, t);
    // How far the product is from its rounding, and the quotient from its own.
    let d1 = k * v - p * e;
    let d2 = m * b - a;
    let jn = (j * n) as int;
    let jnt = jn * t;
    let near = j * d2 * e;
    let far = stages * d1 * u;
    let je = (j * e) as int;
    assert(stages * num == (m * b) * je + far) by {
        assert(num == (p * e + d1) * u) by (nonlinear_arith)
            requires
                num == k * (v * u),
                d1 == k * v - p * e,
        ;
        assert(stages * ((p * e + d1) * u) == stages * (p * e * u) + far) by (nonlinear_arith)
            requires
                far == stages * d1 * u,
        ;
        assert(stages * (p * e * u) == (m * b) * je) by (nonlinear_arith)
            requires
                p == j * m,
                b == stages * u,
                je == j * e,
        ;
    }
    assert((m * b) * je == jnt + near) by {
        assert((a + d2) * je == a * je + d2 * je) by (nonlinear_arith);
        assert(a * je == jnt) by (nonlinear_arith)
            requires
                a == n * d,
                je == j * e,
                t == e * d,
                jn == j * n,
                jnt == jn * t,
        ;
        assert(d2 * je == near) by (nonlinear_arith)
            requires
                je == j * e,
                near == j * d2 * e,
        ;
    }
    let jbe = b * je;
    assert(2 * near <= jbe && -(2 * near) <= jbe) by (nonlinear_arith)
        requires
            2 * d2 <= b,
            -(2 * d2) <= b,
            je == j * e,
            je >= 0,
            near == j * d2 * e,
            jbe == b * je,
    ;
    assert(0x10_0000_0000_0000 * jbe <= jnt) by (nonlinear_arith)
        requires
            0x10_0000_0000_0000 * b <= a,
            je == j * e,
            je >= 0,
            jbe == b * je,
            jnt == (j * n) * t,
            t == e * d,
            a == n * d,
    ;
    let su = (stages * u) as int;
    let svu = v * su;
    assert(2 * far <= svu && -(2 * far) <= svu) by (nonlinear_arith)
        requires
            2 * d1 <= v,
            -(2 * d1) <= v,
            su == stages * u,
            su >= 0,
            far == stages * d1 * u,
            svu == v * su,
    ;
    assert(0x10_0000_0000_0000 * svu <= jnt + near) by (nonlinear_arith)
        requires
            0x10_0000_0000_0000 * v <= p * e,
            p == j * m,
            su == stages * u,
            su >= 0,
            svu == v * su,
            b == stages * u,
            d2 == m * b - a,
            a == n * d,
            t == e * d,
            jnt == (j * n) * t,
            near == j * d2 * e,
    ;
    let off = stages * num - jnt;
    assert(2 * off <= jbe + svu && -(2 * off) <= jbe + svu);
    // Both errors together are less than a unit of the product of layers and stages.
    assert(0x4_0000_0000_0000 * (jbe + svu) <= jnt);
    assert(jnt <= 0x3_ffff_ffff_ffff * t) by (nonlinear_arith)
        requires
            jnt == jn * t,
            jn <= 0x3_ffff_ffff_ffff,
            t > 0,
    ;
    let sw = (stages * whole) as int;
    assert(2 * (sw * t - stages * num) <= stages * t && 2 * (stages * num - sw * t) <= stages * t)
        by (nonlinear_arith)
        requires
            2 * (whole * t - num) <= t,
            2 * (num - whole * t) <= t,
            sw == stages * whole,
            stages > 0,
    ;
    assert(2 * (sw - jn) < stages + 1 && 2 * (jn - sw) < stages + 1) by (nonlinear_arith)
        requires
            2 * (sw * t - stages * num) <= stages * t,
            2 * (stages * num - sw * t) <= stages * t,
            2 * (stages * num - jn * t) < t,
            2 * (jn * t - stages * num) < t,
            t > 0,
    ;
    assert(whole <= n) by (nonlinear_arith)
        requires
            2 * (sw - jn) <= stages,
            sw == stages * whole,
            jn == j * n,
            j <= stages,
            stages > 0,
    ;
}

/// The stages of a model are of roughly equal size: each has the whole part of the mean, or one layer
/// more, and all have the mean where it is whole. So it is as long as layers times stages is below
/// two to the power of 50: with far more the rounding of the mean can be felt.
pub proof fn stages_differ_by_one_layer_at_most(n_layer: nat, n_stages: nat, s: int)
    requires
        n_layer <= usize::MAX,
        0 <= s < n_stages,
        n_layer * n_stages < 0x4_0000_0000_0000,
    ensures
        ({
            let (lo, hi) = shard_of(n_layer, n_stages)[s];
            &&& hi - lo == n_layer / n_stages || hi - lo == n_layer / n_stages + 1
            &&& n_layer % n_stages == 0 ==> hi - lo == n_layer / n_stages
        }),
{
    let n = n_layer as int;
    let count = n_stages as int;
    let lo = boundary(n_layer, n_stages, s as nat) as int;
    let hi = boundary(n_layer, n_stages, (s + 1) as nat) as int;
    stages_cover_the_model(n_layer, n_stages);
    if n == 0 {
        lemma_no_layers(n_stages, s as nat);
        lemma_no_layers(n_stages, (s + 1) as nat);
        vstd::arithmetic::div_mod::lemma_div_basics(count);
    } else {
        assert(shard_of(n_layer, n_stages)[0].0 == boundary(n_layer, n_stages, 0));
        assert(2 * (count * lo - s * n) <= count && 2 * (s * n - count * lo) <= count) by {
            if s > 0 {
                lemma_boundary_near(n_layer, n_stages, s as nat);
            } else {
                assert(count * 0 == 0 && 0 * n == 0);
            }
        }
        lemma_boundary_near(n_layer, n_stages, (s + 1) as nat);
        let q = n / count;
        let r = n % count;
        vstd::arithmetic::div_mod::lemma_fundamental_div_mod(n, count);
        vstd::arithmetic::div_mod::lemma_mod_bound(n, count);
        lemma_size(n, count, s, lo, hi, q, r);
    }
}

/// The arithmetic of two boundaries that are as near to their shares as whole numbers can be.
proof fn lemma_size(n: int, count: int, s: int, lo: int, hi: int, q: int, r: int)
    requires
        count > 0,
        n == count * q + r,
        0 <= r < count,
        2 * (count * lo - s * n) <= count,
        2 * (s * n - count * lo) <= count,
        2 * (count * hi - (s + 1) * n) <= count,
        2 * ((s + 1) * n - count * hi) <= count,
    ensures
        hi - lo == q || hi - lo == q + 1,
        r == 0 ==> hi - lo == q,
{
    let size = hi - lo;
    assert((s + 1) * n == s * n + n) by (nonlinear_arith);
    assert(count * size == count * hi - count * lo) by (nonlinear_arith)
        requires
            size == hi - lo,
    ;
    assert(count * size - n <= count && n - count * size <= count);
    if r == 0 {
        assert(lo == s * q) by {
            assert(s * n == count * (s * q)) by (nonlinear_arith)
                requires
                    n == count * q,
            ;
            lemma_whole_share(count, lo, s * q);
        }
        assert(hi == (s + 1) * q) by {
            assert((s + 1) * n == count * ((s + 1) * q)) by (nonlinear_arith)
                requires
                    n == count * q,
            ;
            lemma_whole_share(count, hi, (s + 1) * q);
        }
        assert((s + 1) * q == s * q + q) by (nonlinear_arith);
    } else {
        assert(q - 1 < size < q + 2) by (nonlinear_arith)
            requires
                count > 0,
                n == count * q + r,
                0 < r < count,
                count * size - n <= count,
                n - count * size <= count,
        ;
    }
}

/// Two whole numbers that are at most half apart are equal.
proof fn lemma_whole_share(count: int, a: int, b: int)
    requires
        count > 0,
        2 * (count * a - count * b) <= count,
        2 * (count * b - count * a) <= count,
    ensures
        a == b,
{
    assert(a == b) by (nonlinear_arith)
        requires
            count > 0,
            2 * (count * a - count * b) <= count,
            2 * (count * b - count * a) <= count,
    ;
}

/// A model without layers has boundaries at zero only.
proof fn lemma_no_layers(n_stages: nat, s: nat)
    requires
        n_stages > 0,
    ensures
        boundary(0, n_stages, s) == 0,
{
    let per = layers_per_stage(0, n_stages);
    vstd::arithmetic::div_mod::lemma_div_basics(n_stages as int);
    vstd::arithmetic::div_mod::lemma_small_mod(0, n_stages);
    assert(per.significand == 0);
    assert(s * 0 == 0);
    let x = times(per, s);
    lemma_pow2_127();
    assert(to_double(0, 1).significand == 0);
    lemma_nearest_whole(x);
    lemma_pow2_pos(x.down);
    assert(0 * pow2(x.up) == 0);
    vstd::arithmetic::div_mod::lemma_div_basics(pow2(x.down) as int);
    vstd::arithmetic::div_mod::lemma_small_mod(0, pow2(x.down));
}

} // verus!
