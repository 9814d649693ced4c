use hopper::double::{
    negate, precedes, product, quotient, root, round_away, sum, whole, widen,
};
use hopper::halves::{halve, widen_half};
use hopper::random::Stream;
use rand::{Rng, RngCore, SeedableRng};
use rand_chacha::ChaCha8Rng;

fn samples() -> Vec<f64> {
    let mut xs = vec![
        0.0,
        -0.0,
        1.0,
        -1.0,
        0.1,
        0.3,
        2.0,
        1e-9,
        1e300,
        -1e300,
        1e-300,
        f64::MAX,
        f64::MIN_POSITIVE,
        f64::MIN_POSITIVE / 8.0,
        f64::from_bits(1),
        f64::from_bits(0x000f_ffff_ffff_ffff),
        f64::INFINITY,
        f64::NEG_INFINITY,
        f64::NAN,
        4503599627370495.5,
        4503599627370496.5,
        9007199254740993.0,
        0.5,
        1.5,
        2.5,
        -2.5,
        1e6,
        1e3,
    ];
    let mut rng = ChaCha8Rng::seed_from_u64(11);
    for _ in 0..60 {
        xs.push(f64::from_bits(rng.next_u64()));
        xs.push((rng.random::<f64>() - 0.5) * 1e3);
        xs.push(rng.random::<f64>() * 1e-310);
    }
    xs
}

fn same(got: u64, want: f64, what: &str) {
    let number = f64::from_bits(got);
    if want.is_nan() {
        assert!(number.is_nan(), "{what}: {number} is not a NaN");
    } else {
        assert_eq!(got, want.to_bits(), "{what}: {number} != {want}");
    }
}

#[test]
fn sums_products_and_quotients_are_rounded_like_the_hardware() {
    let xs = samples();
    for &x in &xs {
        for &y in &xs {
            let (a, b) = (x.to_bits(), y.to_bits());
            same(sum(a, b), x + y, &format!("{x:e} + {y:e}"));
            same(product(a, b), x * y, &format!("{x:e} * {y:e}"));
            same(quotient(a, b), x / y, &format!("{x:e} / {y:e}"));
            same(sum(a, negate(b)), x - y, &format!("{x:e} - {y:e}"));
            if !x.is_nan() && !y.is_nan() {
                assert_eq!(precedes(a, b), x.total_cmp(&y).is_lt());
            }
        }
    }
}

#[test]
fn roots_and_roundings_agree_with_the_hardware() {
    for x in samples() {
        same(root(x.to_bits()), x.sqrt(), &format!("sqrt {x:e}"));
        same(round_away(x.to_bits()), x.round(), &format!("round {x:e}"));
        let single = x as f32;
        same(widen(single.to_bits()), single as f64, &format!("{single:e}"));
    }
    for n in [0, 1, 7, 1 << 53, (1 << 53) + 1, (1 << 53) + 3, u64::MAX] {
        same(whole(n), n as f64, &format!("{n}"));
    }
}

#[test]
fn halves_agree_with_the_half_crate() {
    let mut rng = ChaCha8Rng::seed_from_u64(5);
    let mut patterns: Vec<u32> = vec![
        0,
        0x8000_0000,
        0x7f80_0000,
        0xff80_0000,
        0x7fc0_0000,
        0x7f80_0001,
        1,
        0x0080_0000,
        65504.0f32.to_bits(),
        65519.9f32.to_bits(),
        65520.0f32.to_bits(),
        5.9604645e-8f32.to_bits(),
        2.9802322e-8f32.to_bits(),
        2.9802326e-8f32.to_bits(),
        6.1035156e-5f32.to_bits(),
        6.1005354e-5f32.to_bits(),
        1.0004883f32.to_bits(),
        1.0014648f32.to_bits(),
    ];
    for _ in 0..20_000 {
        patterns.push(rng.next_u32());
        patterns.push((rng.random::<f32>() * 4.0 - 2.0).to_bits());
        patterns.push((rng.random::<f32>() * 1e-4).to_bits());
    }
    for x in patterns {
        let want = half::f16::from_f32(f32::from_bits(x)).to_bits();
        assert_eq!(halve(x), want, "{x:#x}");
    }
    for h in 0..=u16::MAX {
        let want = half::f16::from_bits(h).to_f32().to_bits();
        assert_eq!(widen_half(h), want, "{h:#x}");
        if h % 0x8000 <= 0x7c00 || h % 0x8000 >= 0x7e00 {
            assert_eq!(halve(widen_half(h)), h);
        }
    }
}

#[test]
fn the_stream_is_that_of_the_generator() {
    for seed in [0u64, 7, 101, u64::MAX] {
        let mut ours = Stream::new(seed);
        let mut theirs = ChaCha8Rng::seed_from_u64(seed);
        for _ in 0..40 {
            assert_eq!(ours.next_pair(), theirs.random::<u64>());
            assert_eq!(ours.next_double(), theirs.random::<f64>().to_bits());
            assert_eq!(ours.next_single(), theirs.random::<f32>().to_bits());
            assert_eq!(ours.next_word(), theirs.next_u32());
            assert_eq!(ours.next_single(), theirs.random::<f32>().to_bits());
        }
        assert_eq!(ours.position, 40 * 7);
    }
}
