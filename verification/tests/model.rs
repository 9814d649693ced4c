use hopper::cache::{checked_total_bytes, empty_caches, total_bytes, KVCache};
use hopper::config::ModelConfig;
use hopper::error::ModelError;
use hopper::numbers::{argmax, at_most, greater};
use hopper::shard::shard;
use hopper::stage::Activation;
use hopper::tensor::{from_heads, stack, to_heads, Heads, Matrix};
use hopper::text::{decimal, decimal_padded, hex};
use hopper::tokenizer::{decode, encode};

fn bits(rows: &[&[f32]]) -> Matrix {
    Matrix {
        cols: rows.first().map_or(0, |r| r.len()),
        rows: rows
            .iter()
            .map(|r| r.iter().map(|x| x.to_bits()).collect())
            .collect(),
    }
}

#[test]
fn encode_round_trips_ascii() {
    let ids = encode("hopper");
    assert_eq!(ids, vec![104, 111, 112, 112, 101, 114]);
    assert_eq!(decode(&encode("hello")), "hello");
}

#[test]
fn decoding_reduces_ids_to_bytes_and_replaces_bad_text() {
    assert_eq!(decode(&[256 + 104, 105]), "hi");
    assert_eq!(decode(&[0xff, 104]), "\u{fffd}h");
    assert_eq!(decode(&encode("grüße")), "grüße");
    assert_eq!(encode(""), Vec::<usize>::new());
}

#[test]
fn model_hash_matches_reference() {
    assert_eq!(ModelConfig::default().model_hash(), "80fe0c38c9d5e237");
}

#[test]
fn equal_names_have_equal_hashes() {
    let mut other = ModelConfig::default();
    other.n_layer = 3;
    assert_eq!(other.model_hash(), ModelConfig::default().model_hash());
    other.name = "hopper-small".to_string();
    assert_ne!(other.model_hash(), ModelConfig::default().model_hash());
}

#[test]
fn head_dim_is_d_model_over_n_head() {
    assert_eq!(ModelConfig::default().head_dim(), 32);
}

#[test]
fn the_default_epsilon_is_a_hundred_thousandth() {
    assert_eq!(f32::from_bits(ModelConfig::default().eps), 1e-5);
}

#[test]
fn shard_matches_reference_bounds() {
    let cfg = ModelConfig::default();
    assert_eq!(shard(&cfg, 4), vec![(0, 2), (2, 4), (4, 6), (6, 8)]);
}

fn shard_with_doubles(n_layer: usize, n_stages: usize) -> Vec<(usize, usize)> {
    let round_half_even = |x: f64| -> usize {
        let floor = x.floor();
        let frac = x - floor;
        let up = frac > 0.5 || (frac == 0.5 && (floor as i64) % 2 != 0);
        (if up { floor + 1.0 } else { floor }) as usize
    };
    let per = n_layer as f64 / n_stages as f64;
    (0..n_stages)
        .map(|s| {
            (
                round_half_even(s as f64 * per),
                round_half_even((s as f64 + 1.0) * per),
            )
        })
        .collect()
}

#[test]
fn shard_rounds_like_double_precision() {
    let mut cfg = ModelConfig::default();
    for n_layer in 0..130 {
        cfg.n_layer = n_layer;
        for n_stages in 0..40 {
            assert_eq!(
                shard(&cfg, n_stages),
                shard_with_doubles(n_layer, n_stages),
                "{n_layer} layers in {n_stages} stages"
            );
        }
    }
    for n_layer in [
        (1usize << 51) - 1,
        1 << 53,
        (1 << 53) + 1,
        (1 << 60) + 12345,
        usize::MAX,
    ] {
        cfg.n_layer = n_layer;
        for n_stages in [1, 3, 7, 49, 1000] {
            assert_eq!(shard(&cfg, n_stages), shard_with_doubles(n_layer, n_stages));
        }
    }
}

#[test]
fn stages_are_contiguous_and_cover_all_layers() {
    let mut cfg = ModelConfig::default();
    cfg.n_layer = 10;
    let bounds = shard(&cfg, 4);
    assert_eq!(bounds, vec![(0, 2), (2, 5), (5, 8), (8, 10)]);
    assert_eq!(shard(&cfg, 0), vec![]);
}

#[test]
fn stages_differ_by_one_layer_at_most() {
    let mut cfg = ModelConfig::default();
    for n_layer in (0..130).chain([1_000_003, (1 << 40) + 12345]) {
        cfg.n_layer = n_layer;
        for n_stages in [1, 2, 3, 7, 40, 999] {
            for (lo, hi) in shard(&cfg, n_stages) {
                let mean = n_layer / n_stages;
                assert!(hi - lo == mean || hi - lo == mean + 1);
                assert!(n_layer % n_stages != 0 || hi - lo == mean);
            }
        }
    }
    // the mean of so many layers is no double
    cfg.n_layer = 1 << 60;
    let sizes: Vec<usize> = shard(&cfg, 3).iter().map(|&(lo, hi)| hi - lo).collect();
    assert_eq!(sizes[2], sizes[1] + 64);
}

#[test]
fn activation_token_count() {
    assert_eq!(Activation::Ids(vec![1, 2, 3]).n_tokens(), 3);
}

#[test]
fn hidden_activations_count_their_rows() {
    let h = bits(&[&[1.0, 2.0], &[3.0, 4.0]]);
    assert_eq!(Activation::Hidden(h).n_tokens(), 2);
}

#[test]
fn activations_are_joined_step_by_step() {
    let steps = vec![
        Activation::Ids(vec![1, 2]),
        Activation::Ids(vec![]),
        Activation::Ids(vec![3]),
    ];
    match Activation::concat(&steps) {
        Ok(Activation::Ids(ids)) => assert_eq!(ids, vec![1, 2, 3]),
        other => panic!("{other:?}"),
    }
    let mixed = vec![
        Activation::Ids(vec![1]),
        Activation::Hidden(bits(&[&[1.0]])),
    ];
    assert!(matches!(
        Activation::concat(&mixed),
        Err(ModelError::Shape)
    ));
    let narrow = vec![
        Activation::Hidden(bits(&[&[1.0]])),
        Activation::Hidden(bits(&[&[1.0, 2.0]])),
    ];
    assert!(matches!(
        Activation::concat(&narrow),
        Err(ModelError::Shape)
    ));
    assert!(matches!(
        Activation::concat(&vec![]),
        Err(ModelError::Shape)
    ));
}

#[test]
fn matrices_are_stacked() {
    let a = bits(&[&[1.0, 2.0]]);
    let b = bits(&[&[3.0, 4.0], &[5.0, 6.0]]);
    let all = stack(&vec![a, b]).unwrap();
    assert_eq!(all.rows.len(), 3);
    assert_eq!(all.rows[2][1], 6.0f32.to_bits());
    assert!(matches!(
        stack(&vec![bits(&[&[1.0]]), bits(&[&[1.0, 2.0]])]),
        Err(ModelError::Shape)
    ));
    assert!(matches!(stack(&vec![]), Err(ModelError::Shape)));
}

#[test]
fn heads_are_cut_and_merged() {
    let m = Matrix {
        cols: 4,
        rows: vec![vec![1, 2, 3, 4], vec![5, 6, 7, 8]],
    };
    let heads = to_heads(&m, 2, 2).unwrap();
    assert_eq!(heads.heads[0], vec![vec![1, 2], vec![5, 6]]);
    assert_eq!(heads.heads[1], vec![vec![3, 4], vec![7, 8]]);
    let merged = from_heads(&heads, 4).unwrap();
    assert_eq!(merged.rows, m.rows);
    assert!(matches!(to_heads(&m, 3, 2), Err(ModelError::Shape)));
    assert!(matches!(from_heads(&heads, 3), Err(ModelError::Shape)));
}

fn block(tokens: usize, first: u32) -> Heads {
    Heads {
        tokens,
        width: 2,
        heads: (0..3)
            .map(|h| {
                (0..tokens)
                    .map(|t| vec![first + 10 * h + t as u32, first])
                    .collect()
            })
            .collect(),
    }
}

#[test]
fn caches_grow_and_keep_the_past() {
    let mut cache = KVCache::new();
    assert_eq!(cache.length(), 0);
    assert!(cache.k().is_none() && cache.v().is_none());
    cache.append(&block(2, 100), &block(2, 200)).unwrap();
    cache.append(&block(1, 300), &block(1, 400)).unwrap();
    assert_eq!(cache.length(), 3);
    assert_eq!(cache.k().unwrap().heads[1][0], vec![110, 100]);
    assert_eq!(cache.k().unwrap().heads[1][2], vec![310, 300]);
    assert_eq!(cache.v().unwrap().heads[2][2], vec![420, 400]);
    // two tensors of 3 heads, 3 positions and width 2, four bytes each
    assert_eq!(cache.bytes(), 2 * 3 * 3 * 2 * 4);
    let pair = vec![cache.copied(), KVCache::default()];
    assert_eq!(total_bytes(&pair), 144);
    assert_eq!(checked_total_bytes(&pair), Some(144));
    assert_eq!(total_bytes(&empty_caches(5)), 0);
}

#[test]
fn a_misfit_is_a_shape_error() {
    let mut cache = KVCache::new();
    cache.append(&block(2, 0), &block(2, 0)).unwrap();
    let narrow = Heads {
        tokens: 1,
        width: 2,
        heads: vec![vec![vec![1, 2]]],
    };
    assert!(matches!(
        cache.append(&narrow, &block(1, 0)),
        Err(ModelError::Shape)
    ));
}

#[test]
fn numerals_are_spelled() {
    assert_eq!(decimal(0), "0");
    assert_eq!(decimal(1_000_000), "1000000");
    assert_eq!(decimal(u64::MAX), "18446744073709551615");
    assert_eq!(decimal_padded(7, 2), "07");
    assert_eq!(decimal_padded(107, 2), "107");
    assert_eq!(hex(0xbeef, 8), "0000beef");
    assert_eq!(hex(u64::MAX, 4), "ffffffffffffffff");
}

#[test]
fn bit_patterns_compare_like_numbers() {
    let values = [
        f64::NEG_INFINITY,
        -2.5,
        -0.0,
        0.0,
        f64::MIN_POSITIVE / 4.0,
        1.0,
        f64::MAX,
        f64::INFINITY,
        f64::NAN,
    ];
    for x in values {
        for y in values {
            assert_eq!(at_most(x.to_bits(), y.to_bits()), x <= y, "{x} <= {y}");
            let (a, b) = (x as f32, y as f32);
            assert_eq!(greater(a.to_bits(), b.to_bits()), a > b, "{a} > {b}");
        }
    }
}

#[test]
fn the_greedy_choice_is_the_first_of_the_greatest() {
    let row = |xs: &[f32]| xs.iter().map(|x| x.to_bits()).collect::<Vec<u32>>();
    assert_eq!(argmax(&row(&[1.0, 3.0, 3.0, 2.0])), 1);
    assert_eq!(argmax(&row(&[-5.0, -1.0, f32::NAN])), 1);
    assert_eq!(argmax(&row(&[f32::NAN, f32::NEG_INFINITY])), 0);
    assert_eq!(argmax(&row(&[-0.0, 0.0])), 0);
    assert_eq!(argmax(&[]), 0);
}
