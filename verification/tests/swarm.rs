use hopper::cache::{empty_caches, KVCache};
use hopper::config::ModelConfig;
use hopper::engine::{pick, transfer_bytes, Engine, GenStats, Generation, Work};
use hopper::error::{EngineError, ModelError, NetError, VerifyError};
use hopper::facade::{build_inprocess_engine, completion, prompt, ChatMessage, ChatResponse, GenOutput};
use hopper::ledger::{Ledger, Tier};
use hopper::node::{Node, Tamper};
use hopper::random::Stream;
use hopper::router::Router;
use hopper::shard::shard;
use hopper::stage::{Activation, PassTask, Reply, Stage, StagePass, Task};
use hopper::table::Table;
use hopper::tensor::{stack, Heads, Matrix};
use hopper::transport::LinkProfile;
use hopper::verify::{commit, log_execution, rel_l2, Audit, AuditResult, Execution, Verifier};
use hopper::weights::{LayerWeights, Weights};
use hopper::wire::{array2_to_proto, proto_to_array2};
use hopper::worker::build_worker;
use rand::{Rng, SeedableRng};
use rand_chacha::ChaCha8Rng;

// ---- a numeric backend in plain floating point ----

fn singles(row: &[u32]) -> Vec<f32> {
    row.iter().map(|&b| f32::from_bits(b)).collect()
}

fn from_singles(cols: usize, rows: Vec<Vec<f32>>) -> Matrix {
    Matrix {
        cols,
        rows: rows
            .into_iter()
            .map(|r| r.into_iter().map(f32::to_bits).collect())
            .collect(),
    }
}

fn times(row: &[f32], m: &Matrix) -> Vec<f32> {
    let mut out = vec![0.0f32; m.cols];
    for (x, weights) in row.iter().zip(&m.rows) {
        for (o, w) in out.iter_mut().zip(weights) {
            *o += x * f32::from_bits(*w);
        }
    }
    out
}

fn rowwise(x: &Matrix, cols: usize, f: impl Fn(&[f32]) -> Vec<f32>) -> Reply {
    Reply::Rows(from_singles(
        cols,
        x.rows.iter().map(|r| f(&singles(r))).collect(),
    ))
}

fn norm(x: &Matrix, gain: &[u32], eps: u32) -> Reply {
    rowwise(x, x.cols, |row| {
        let ms = row.iter().map(|v| v * v).sum::<f32>() / row.len() as f32;
        let denom = (ms + f32::from_bits(eps)).sqrt();
        row.iter()
            .zip(gain)
            .map(|(v, g)| v / denom * f32::from_bits(*g))
            .collect()
    })
}

fn total(a: &Matrix, b: &Matrix) -> Reply {
    Reply::Rows(from_singles(
        a.cols,
        a.rows
            .iter()
            .zip(&b.rows)
            .map(|(p, q)| {
                let q = singles(q);
                singles(p).iter().zip(q).map(|(x, y)| x + y).collect()
            })
            .collect(),
    ))
}

fn dot(a: &[f32], b: &[u32]) -> f32 {
    a.iter().zip(b).map(|(x, y)| x * f32::from_bits(*y)).sum()
}

fn attend(q: &Heads, k: &Heads, v: &Heads, visible: &[usize]) -> Reply {
    let scale = (q.width as f32).sqrt();
    let head = |h: usize| -> Vec<Vec<u32>> {
        let token = |i: usize| -> Vec<u32> {
            let query = singles(&q.heads[h][i]);
            let keys = &k.heads[h][..visible[i]];
            let scores: Vec<f32> = keys.iter().map(|key| dot(&query, key) / scale).collect();
            let max = scores.iter().copied().fold(f32::NEG_INFINITY, f32::max);
            let weights: Vec<f32> = scores.iter().map(|s| (s - max).exp()).collect();
            let sum: f32 = weights.iter().sum();
            let mut out = vec![0.0f32; q.width];
            for (w, value) in weights.iter().zip(&v.heads[h]) {
                for (o, x) in out.iter_mut().zip(value) {
                    *o += w / sum * f32::from_bits(*x);
                }
            }
            out.into_iter().map(f32::to_bits).collect()
        };
        (0..q.tokens).map(token).collect()
    };
    Reply::Heads(Heads {
        tokens: q.tokens,
        width: q.width,
        heads: (0..q.heads.len()).map(head).collect(),
    })
}

fn gelu(v: f32) -> f32 {
    0.5 * v * (1.0 + (0.797_884_56_f32 * (v + 0.044_715 * v * v * v)).tanh())
}

fn perform(task: &PassTask, w: &Weights, cfg: &ModelConfig) -> Reply {
    match task {
        Task::Embed { tokens, positions } => total(tokens, positions),
        Task::NormAttention { layer, x } => norm(x, &w.layers[*layer].g1, cfg.eps),
        Task::ProjectQkv { layer, normed, .. } => {
            let m = &w.layers[*layer].wqkv;
            rowwise(normed, m.cols, |r| times(r, m))
        }
        Task::Attend {
            q, k, v, visible, ..
        } => attend(q, k, v, visible),
        Task::ProjectOut { layer, merged, .. } => {
            let m = &w.layers[*layer].wo;
            rowwise(merged, m.cols, |r| times(r, m))
        }
        Task::AddAttention { x, delta, .. } | Task::AddMlp { x, delta, .. } => total(x, delta),
        Task::NormMlp { layer, x } => norm(x, &w.layers[*layer].g2, cfg.eps),
        Task::Expand { layer, normed, .. } => {
            let m = &w.layers[*layer].w1;
            rowwise(normed, m.cols, |r| times(r, m))
        }
        Task::Activate { hidden, .. } => rowwise(hidden, hidden.cols, |r| {
            r.iter().map(|&v| gelu(v)).collect()
        }),
        Task::Contract { layer, hidden, .. } => {
            let m = &w.layers[*layer].w2;
            rowwise(hidden, m.cols, |r| times(r, m))
        }
        Task::NormFinal { x } => norm(x, &w.final_g, cfg.eps),
        Task::Unembed { normed } => rowwise(normed, w.tok_emb.rows.len(), |r| {
            w.tok_emb.rows.iter().map(|e| dot(r, e)).collect()
        }),
        Task::Done { .. } => unreachable!(),
    }
}

fn work_off(pass: &mut StagePass, w: &Weights, cfg: &ModelConfig) {
    while !pass.is_done() {
        let reply = perform(pass.task(), w, cfg);
        pass.feed(reply).unwrap();
    }
}

fn run(
    stage: &Stage,
    w: &Weights,
    cfg: &ModelConfig,
    input: Activation,
    caches: Option<Vec<KVCache>>,
    base: usize,
) -> (Matrix, Option<Vec<KVCache>>) {
    assert!(stage.can_run(&input, caches.as_ref(), base));
    let mut pass = stage.forward(input, caches, base).unwrap();
    work_off(&mut pass, w, cfg);
    pass.finish()
}

fn shifted(m: &Matrix, by: f32) -> Matrix {
    Matrix {
        cols: m.cols,
        rows: m
            .rows
            .iter()
            .map(|r| r.iter().map(|&x| (f32::from_bits(x) + by).to_bits()).collect())
            .collect(),
    }
}

fn disturbed(verifier: &mut Verifier, m: &Matrix) -> Matrix {
    let noise = f64::from_bits(verifier.hw_noise) as f32;
    let entries: Vec<f64> = m
        .rows
        .iter()
        .flatten()
        .map(|&x| f32::from_bits(x) as f64)
        .collect();
    let squares: f64 = entries.iter().map(|x| x * x).sum();
    let scale = (squares / entries.len() as f64).sqrt() as f32;
    let mut out = m.copied();
    for x in out.rows.iter_mut().flatten() {
        let u1 = f32::from_bits(verifier.next_single()).max(1e-9);
        let u2 = f32::from_bits(verifier.next_single());
        let normal = (-2.0 * u1.ln()).sqrt() * (std::f32::consts::TAU * u2).cos();
        *x = (f32::from_bits(*x) + normal * scale * noise).to_bits();
    }
    out
}

// ---- a model with deterministic random weights ----

fn random_matrix(rng: &mut ChaCha8Rng, rows: usize, cols: usize, scale: f32) -> Matrix {
    from_singles(
        cols,
        (0..rows)
            .map(|_| {
                (0..cols)
                    .map(|_| (rng.random::<f32>() * 2.0 - 1.0) * scale)
                    .collect()
            })
            .collect(),
    )
}

fn random_gain(rng: &mut ChaCha8Rng, n: usize) -> Vec<u32> {
    (0..n)
        .map(|_| (1.0 + (rng.random::<f32>() - 0.5) * 0.1).to_bits())
        .collect()
}

fn random_weights(cfg: &ModelConfig) -> Weights {
    let rng = &mut ChaCha8Rng::seed_from_u64(1234);
    let d = cfg.d_model;
    Weights {
        tok_emb: random_matrix(rng, cfg.vocab_size, d, 0.5),
        pos_emb: random_matrix(rng, cfg.max_seq, d, 0.1),
        final_g: random_gain(rng, d),
        layers: (0..cfg.n_layer)
            .map(|_| LayerWeights {
                wqkv: random_matrix(rng, d, 3 * d, 0.1),
                wo: random_matrix(rng, d, d, 0.1),
                g1: random_gain(rng, d),
                g2: random_gain(rng, d),
                w1: random_matrix(rng, d, cfg.d_ff, 0.1),
                w2: random_matrix(rng, cfg.d_ff, d, 0.05),
            })
            .collect(),
    }
}

fn small_config() -> ModelConfig {
    ModelConfig {
        name: "small".to_string(),
        vocab_size: 256,
        d_model: 8,
        n_layer: 4,
        n_head: 2,
        d_ff: 16,
        max_seq: 64,
        eps: 1e-5f32.to_bits(),
    }
}

// ---- passes of one stage ----

fn random_input(rng: &mut ChaCha8Rng, cfg: &ModelConfig, is_first: bool, n: usize) -> Activation {
    if is_first {
        Activation::Ids(
            (0..n)
                .map(|_| rng.random_range(0..cfg.vocab_size))
                .collect(),
        )
    } else {
        Activation::Hidden(random_matrix(rng, n, cfg.d_model, 1.0))
    }
}

#[test]
fn cache_equals_stateless_over_random_sessions() {
    let cfg = ModelConfig::default();
    let weights = random_weights(&cfg);
    let bounds = shard(&cfg, 4);

    let mut worst = 0.0_f64;
    for seed in 0..16_u64 {
        let mut rng = ChaCha8Rng::seed_from_u64(seed);
        // multi-token prefill + >= 2 decode steps, sizes vary per session
        let n_prompt = rng.random_range(2..=8);
        let n_decode = rng.random_range(2..=5);

        for &(lo, hi) in &bounds {
            let stage = Stage::new(cfg.copied(), &weights, lo, hi);
            let is_first = lo == 0;
            let n_layers = hi - lo;

            let mut steps: Vec<Activation> = Vec::with_capacity(1 + n_decode);
            steps.push(random_input(&mut rng, &cfg, is_first, n_prompt));
            for _ in 0..n_decode {
                steps.push(random_input(&mut rng, &cfg, is_first, 1));
            }

            // Online: run each step against a growing cache, base_pos = cache len.
            let mut caches = empty_caches(n_layers);
            let mut online_rows: Vec<Matrix> = Vec::with_capacity(steps.len());
            let mut base = 0_usize;
            for step in &steps {
                let n = step.n_tokens();
                let (out, kept) = run(&stage, &weights, &cfg, step.copied(), Some(caches), base);
                caches = kept.unwrap();
                online_rows.push(out);
                base += n;
                assert!(caches.iter().all(|c| c.length() == base));
            }
            let online = stack(&online_rows).expect("concat online out");

            // Stateless: re-run over the whole input sequence at once.
            let whole = Activation::concat(&steps).expect("concat inputs");
            let (stateless, none) = run(&stage, &weights, &cfg, whole, None, 0);
            assert!(none.is_none());

            let r = f64::from_bits(rel_l2(&online, &stateless));
            worst = worst.max(r);
            assert!(
                r < 1e-4,
                "stage [{lo},{hi}) seed {seed}: cache<->stateless rel-L2 {r:e} >= 1e-4"
            );
        }
    }

    println!("worst cache<->stateless rel-L2 = {worst:e}");
    assert!(worst < 1e-4);
}

/// Run a stateless prefill pass through all stages; if `wire`, round-trip each
/// inter-stage hidden through the f16 codec to simulate the wire.
fn run_pipeline(
    stages: &[Stage],
    w: &Weights,
    cfg: &ModelConfig,
    ids: Vec<usize>,
    wire: bool,
) -> Matrix {
    let n = stages.len();
    let mut x = Some(Activation::Ids(ids));
    let mut logits = None;
    for (s, stage) in stages.iter().enumerate() {
        let (out, _) = run(stage, w, cfg, x.take().unwrap(), None, 0);
        if s + 1 == n {
            logits = Some(out);
        } else if wire {
            let hopped = proto_to_array2(&array2_to_proto(&out)).unwrap();
            x = Some(Activation::Hidden(hopped));
        } else {
            x = Some(Activation::Hidden(out));
        }
    }
    logits.unwrap()
}

#[test]
fn fp16_wire_handoff_stays_within_tolerance_and_halves_bytes() {
    let cfg = ModelConfig::default();
    assert_eq!(cfg.model_hash(), "80fe0c38c9d5e237");
    let weights = random_weights(&cfg);
    let bounds = shard(&cfg, 4);
    let stages: Vec<Stage> = bounds
        .iter()
        .map(|&(lo, hi)| Stage::new(cfg.copied(), &weights, lo, hi))
        .collect();

    let ids: Vec<usize> = "explain the design".bytes().map(|b| b as usize).collect();
    let f32_logits = run_pipeline(&stages, &weights, &cfg, ids.clone(), false);
    let f16_logits = run_pipeline(&stages, &weights, &cfg, ids, true);

    let rel = f64::from_bits(rel_l2(&f16_logits, &f32_logits));
    println!("fp16 wire vs f32 logits rel-L2 = {rel:e}");
    // fp16 has ~1e-3 relative precision; a few stage handoffs stay well under 1e-2.
    assert!(rel > 0.0);
    assert!(rel < 1e-2, "fp16 handoff drift {rel} exceeds 1e-2");

    // The wire payload is f16: 2 bytes/elem, half of f32's 4.
    let (hidden, _) = run(
        &stages[0],
        &weights,
        &cfg,
        Activation::Ids(vec![104, 105]),
        None,
        0,
    );
    let proto = array2_to_proto(&hidden);
    assert_eq!(
        proto.data.len(),
        hidden.len() * 2,
        "wire payload must be f16"
    );

    // A single hidden round-trip is at fp16 precision.
    let back = proto_to_array2(&proto).unwrap();
    let round_trip = f64::from_bits(rel_l2(&back, &hidden));
    println!("single f16 round-trip rel-L2 = {round_trip:e}");
    assert!(
        round_trip < 2e-3,
        "f16 round-trip {round_trip} worse than expected"
    );
}

#[test]
fn stages_know_their_ends_and_sizes() {
    let cfg = small_config();
    let weights = random_weights(&cfg);
    let first = Stage::new(cfg.copied(), &weights, 0, 1);
    let middle = Stage::new(cfg.copied(), &weights, 1, 3);
    let last = Stage::new(cfg.copied(), &weights, 3, 4);
    assert!(first.is_first() && !first.is_last());
    assert!(!middle.is_first() && !middle.is_last());
    assert!(!last.is_first() && last.is_last());
    assert_eq!(middle.layer_range(), (1, 3));
    let layer = 8 * 24 + 8 * 8 + 8 + 8 + 8 * 16 + 16 * 8;
    assert_eq!(weights.layers[0].n_params(), layer);
    assert_eq!(first.n_params(), layer + 256 * 8 + 64 * 8);
    assert_eq!(middle.n_params(), 2 * layer);
    assert_eq!(last.n_params(), layer + 8);
    assert_eq!(middle.flops(3), 2 * 2 * layer * 3);
    assert_eq!(middle.checked_flops(3), Some(2 * 2 * layer * 3));
    assert_eq!(middle.checked_flops(usize::MAX), None);
}

#[test]
fn stages_refuse_the_wrong_kind_of_input() {
    let cfg = small_config();
    let weights = random_weights(&cfg);
    let first = Stage::new(cfg.copied(), &weights, 0, 1);
    let second = Stage::new(cfg.copied(), &weights, 1, 2);
    let ids = || Activation::Ids(vec![1]);
    let hidden = || Activation::Hidden(from_singles(8, vec![vec![0.0; 8]]));
    assert!(matches!(
        second.forward(ids(), None, 0),
        Err(ModelError::ExpectedHidden)
    ));
    assert!(matches!(
        first.forward(hidden(), None, 0),
        Err(ModelError::ExpectedIds)
    ));
    assert!(first.can_run(&ids(), None, 63));
    assert!(!first.can_run(&ids(), None, 64));
    assert!(!first.can_run(&Activation::Ids(vec![256]), None, 0));
    let narrow = Activation::Hidden(from_singles(7, vec![vec![0.0; 7]]));
    assert!(!second.can_run(&narrow, None, 0));
}

#[test]
fn a_pass_takes_only_results_of_the_right_shape() {
    let cfg = small_config();
    let weights = random_weights(&cfg);
    let stage = Stage::new(cfg.copied(), &weights, 0, 1);
    let mut pass = stage.forward(Activation::Ids(vec![1, 2]), None, 0).unwrap();
    assert!(matches!(pass.task(), Task::Embed { .. }));
    let short = Reply::Rows(from_singles(8, vec![vec![0.0; 8]]));
    assert!(matches!(pass.feed(short), Err(ModelError::Shape)));
    let heads = Reply::Heads(Heads {
        tokens: 0,
        width: 0,
        heads: vec![],
    });
    assert!(matches!(pass.feed(heads), Err(ModelError::Shape)));
    assert!(matches!(pass.task(), Task::Embed { .. }));
    let reply = perform(pass.task(), &weights, &cfg);
    pass.feed(reply).unwrap();
    match pass.task() {
        Task::NormAttention { layer: 0, x } => {
            let sum = f32::from_bits(weights.tok_emb.rows[2][5])
                + f32::from_bits(weights.pos_emb.rows[1][5]);
            assert_eq!(f32::from_bits(x.rows[1][5]), sum);
        }
        other => panic!("{other:?}"),
    }
    work_off(&mut pass, &weights, &cfg);
    let (out, _) = pass.finish();
    assert_eq!((out.rows.len(), out.cols), (2, 8));
}

#[test]
fn logits_have_an_entry_for_every_token() {
    let cfg = small_config();
    let weights = random_weights(&cfg);
    let stage = Stage::new(cfg.copied(), &weights, 3, 4);
    let hidden = Activation::Hidden(from_singles(8, vec![vec![0.5; 8]; 2]));
    let mut pass = stage.forward(hidden, None, 0).unwrap();
    while !matches!(pass.task(), Task::Unembed { .. }) {
        let reply = perform(pass.task(), &weights, &cfg);
        pass.feed(reply).unwrap();
    }
    for cols in [8, 255, 257] {
        let reply = Reply::Rows(from_singles(cols, vec![vec![0.0; cols]; 2]));
        assert!(matches!(pass.feed(reply), Err(ModelError::Shape)));
    }
    let one_row = Reply::Rows(from_singles(256, vec![vec![0.0; 256]]));
    assert!(matches!(pass.feed(one_row), Err(ModelError::Shape)));
    work_off(&mut pass, &weights, &cfg);
    let (logits, _) = pass.finish();
    assert_eq!((logits.rows.len(), logits.cols), (2, 256));
    assert!(logits.rows.iter().all(|row| row.len() == 256));
}

#[test]
fn cutting_elsewhere_leaves_the_logits() {
    let cfg = small_config();
    let weights = random_weights(&cfg);
    let ids = vec![104, 111, 112, 112];
    let whole = [Stage::new(cfg.copied(), &weights, 0, 4)];
    let expected = run_pipeline(&whole, &weights, &cfg, ids.clone(), false);
    for cuts in [
        vec![0, 2, 4],
        vec![0, 1, 4],
        vec![0, 3, 4],
        vec![0, 1, 3, 4],
        vec![0, 1, 2, 3, 4],
        vec![0, 2, 2, 4],
    ] {
        let stages: Vec<Stage> = cuts
            .windows(2)
            .map(|cut| Stage::new(cfg.copied(), &weights, cut[0], cut[1]))
            .collect();
        let logits = run_pipeline(&stages, &weights, &cfg, ids.clone(), false);
        assert_eq!(logits.rows, expected.rows, "cut at {cuts:?}");
    }
}

#[test]
fn later_tokens_leave_earlier_rows() {
    let cfg = small_config();
    let weights = random_weights(&cfg);
    let stages = [Stage::new(cfg.copied(), &weights, 0, 4)];
    let one = run_pipeline(&stages, &weights, &cfg, vec![7, 8, 9, 10], false);
    let other = run_pipeline(&stages, &weights, &cfg, vec![7, 8, 200, 3], false);
    assert_eq!(one.rows[..2], other.rows[..2]);
    assert_ne!(one.rows[2], other.rows[2]);
    let short = run_pipeline(&stages, &weights, &cfg, vec![7, 8], false);
    assert_eq!(one.rows[..2], short.rows[..]);
}

// ---- audits ----

fn ledger_with_worker(worker: &str) -> Ledger {
    let mut l = Ledger::default();
    l.register(worker, 8);
    l
}

fn audit(
    verifier: &mut Verifier,
    ex: &Execution,
    ledger: &mut Ledger,
    w: &Weights,
    cfg: &ModelConfig,
) -> AuditResult {
    assert!(verifier.can_draw() && verifier.can_rerun_stage(ex));
    match verifier.maybe_audit(ex, ledger).unwrap() {
        Audit::Settled(result) => result,
        Audit::Rerun(mut pass) => {
            work_off(&mut pass, w, cfg);
            let (mut recomputed, _) = pass.finish();
            if verifier.drifts() {
                recomputed = disturbed(verifier, &recomputed);
            }
            verifier.conclude(ex, &recomputed, ledger)
        }
    }
}

fn verifier_of<'w>(
    cfg: &ModelConfig,
    w: &'w Weights,
    probability: f64,
    noise: f64,
    seed: u64,
) -> Verifier<'w> {
    Verifier::new(
        cfg.copied(),
        w,
        4,
        probability.to_bits(),
        2e-3f64.to_bits(),
        noise.to_bits(),
        seed,
    )
}

#[test]
fn honest_node_with_hardware_drift_is_never_falsely_banned() {
    let cfg = ModelConfig::default();
    let weights = random_weights(&cfg);
    // Stage 0 (first): exercise the embedding path too.
    let stage = Stage::new(cfg.copied(), &weights, 0, 2);
    let ids = Activation::Ids(vec![104, 111, 112, 112, 101, 114]);
    let (honest, _) = run(&stage, &weights, &cfg, ids.copied(), None, 0);

    let mut verifier = verifier_of(&cfg, &weights, 1.0, 2e-4, 3);
    let mut ledger = ledger_with_worker("w");
    for i in 0..25 {
        let ex = log_execution(
            "sess",
            0,
            "w",
            ids.copied(),
            honest.copied(),
            format!("nonce{i}"),
        );
        let r = audit(&mut verifier, &ex, &mut ledger, &weights, &cfg);
        assert!(r.audited && r.passed, "honest audit {i}: {r:?}");
        assert!(f64::from_bits(r.rel_error) > 0.0);
    }
    assert!(!ledger.account("w").unwrap().banned, "zero false bans");
}

#[test]
fn fabricated_output_is_caught_and_slashed() {
    let cfg = ModelConfig::default();
    let weights = random_weights(&cfg);
    let stage = Stage::new(cfg.copied(), &weights, 0, 2);
    let ids = Activation::Ids(vec![104, 111, 112]);
    let (honest, _) = run(&stage, &weights, &cfg, ids.copied(), None, 0);
    // Fabricate work; the commitment binds the lie.
    let fake = shifted(&honest, 5.0);
    let ex = log_execution("sess", 0, "cheater", ids, fake, "n".to_string());

    let mut verifier = verifier_of(&cfg, &weights, 1.0, 0.0, 5);
    let mut ledger = ledger_with_worker("cheater");
    let r = audit(&mut verifier, &ex, &mut ledger, &weights, &cfg);
    assert!(r.audited && !r.passed);
    assert_eq!(r.reason, "recompute_mismatch");
    assert!(ledger.account("cheater").unwrap().banned);
    assert_eq!(ledger.account("cheater").unwrap().stake, 0);
}

#[test]
fn commitment_tampering_is_caught() {
    let cfg = ModelConfig::default();
    let weights = random_weights(&cfg);
    let stage = Stage::new(cfg.copied(), &weights, 0, 2);
    let ids = Activation::Ids(vec![104, 111, 112]);
    let (honest, _) = run(&stage, &weights, &cfg, ids.copied(), None, 0);
    // Commit to the honest output, then reveal a different one.
    let mut ex = log_execution("sess", 0, "liar", ids, honest.copied(), "n".to_string());
    ex.out = shifted(&honest, 1.0); // reveal != commitment

    let mut verifier = verifier_of(&cfg, &weights, 1.0, 0.0, 1);
    let mut ledger = ledger_with_worker("liar");
    let r = audit(&mut verifier, &ex, &mut ledger, &weights, &cfg);
    assert!(r.audited && !r.passed);
    assert_eq!(r.reason, "commitment_mismatch");
    assert_eq!(f64::from_bits(r.rel_error), f64::INFINITY);
    assert!(ledger.account("liar").unwrap().banned);
}

#[test]
fn work_that_is_not_all_there_is_slashed() {
    let cfg = small_config();
    let weights = random_weights(&cfg);
    let stage = Stage::new(cfg.copied(), &weights, 0, 1);
    let ids = Activation::Ids(vec![104, 111, 112]);
    let (honest, _) = run(&stage, &weights, &cfg, ids.copied(), None, 0);

    // the honest rows, but not all of them
    let mut truncated = honest.copied();
    truncated.rows.pop();
    let empty = Matrix {
        cols: 8,
        rows: vec![],
    };
    let nothing = Matrix {
        cols: 0,
        rows: vec![],
    };
    // the honest rows, and one more
    let mut longer = honest.copied();
    longer.rows.push(honest.rows[2].clone());
    let narrow = Matrix {
        cols: 7,
        rows: honest.rows.iter().map(|row| row[..7].to_vec()).collect(),
    };
    let mut ragged = honest.copied();
    ragged.rows[1].pop();
    // as many entries as the honest rows have, in other rows
    let regrouped = Matrix {
        cols: 4,
        rows: honest
            .rows
            .iter()
            .flat_map(|row| [row[..4].to_vec(), row[4..].to_vec()])
            .collect(),
    };

    for claim in [
        truncated, empty, nothing, longer, narrow, ragged, regrouped,
    ] {
        // the commitment binds what is claimed
        let ex = log_execution("sess", 0, "lazy", ids.copied(), claim, "n".to_string());
        let mut verifier = verifier_of(&cfg, &weights, 1.0, 0.0, 5);
        let mut ledger = ledger_with_worker("lazy");
        let r = audit(&mut verifier, &ex, &mut ledger, &weights, &cfg);
        assert!(r.audited && !r.passed, "{r:?}");
        assert_eq!(r.reason, "recompute_mismatch");
        assert_eq!(f64::from_bits(r.rel_error), f64::INFINITY);
        assert!(ledger.account("lazy").unwrap().banned);
        assert_eq!(ledger.account("lazy").unwrap().stake, 0);
    }
}

#[test]
fn exact_work_passes_any_band() {
    let cfg = small_config();
    let weights = random_weights(&cfg);
    let stage = Stage::new(cfg.copied(), &weights, 0, 1);
    let ids = Activation::Ids(vec![104, 111]);
    let (honest, _) = run(&stage, &weights, &cfg, ids.copied(), None, 0);
    let ex = log_execution("s", 0, "w", ids, honest, "n".to_string());
    let mut verifier = verifier_of(&cfg, &weights, 1.0, 0.0, 1);
    verifier.tolerance = 0.0f64.to_bits();
    let mut ledger = ledger_with_worker("w");
    let r = audit(&mut verifier, &ex, &mut ledger, &weights, &cfg);
    assert!(r.audited && r.passed);
    assert_eq!((r.rel_error, r.reason.as_str()), (0, "ok"));
    // nobody is audited at probability zero
    verifier.audit_prob = 0.0f64.to_bits();
    let r = audit(&mut verifier, &ex, &mut ledger, &weights, &cfg);
    assert!(!r.audited && r.passed);
    assert_eq!(r.reason, "");
}

#[test]
fn commitments_are_digests_of_output_and_nonce() {
    // the digest of no bytes at all, and of "abc"
    let none = Matrix {
        cols: 0,
        rows: vec![],
    };
    assert_eq!(
        commit(&none, ""),
        "e3b0c44298fc1c149afbf4c8996fb92427ae41e4649b934ca495991b7852b855"
    );
    assert_eq!(
        commit(&none, "abc"),
        "ba7816bf8f01cfea414140de5dae2223b00361a396177a9cb410ff61f20015ad"
    );
    let entry = Matrix {
        cols: 1,
        rows: vec![vec![0x0063_6261]],
    };
    assert_ne!(commit(&entry, ""), commit(&none, "abc"));
    assert_eq!(commit(&entry, ""), commit(&none, "abc\0"));
}

#[test]
fn relative_errors_are_those_of_the_hardware() {
    let a = [1.5f32, -2.25, 1e-3, 7.0];
    let b = [1.25f32, -2.0, 2e-3, 7.5];
    let num: f64 = a
        .iter()
        .zip(&b)
        .map(|(&x, &y)| {
            let d = x as f64 - y as f64;
            d * d
        })
        .sum::<f64>()
        .sqrt();
    let den: f64 = b
        .iter()
        .map(|&y| (y as f64) * (y as f64))
        .sum::<f64>()
        .sqrt()
        + 1e-9;
    let rel = rel_l2(
        &from_singles(2, vec![a[..2].to_vec(), a[2..].to_vec()]),
        &from_singles(2, vec![b[..2].to_vec(), b[2..].to_vec()]),
    );
    assert_eq!(f64::from_bits(rel), num / den);
}

#[test]
fn an_audit_of_the_wrong_kind_of_input_fails() {
    let cfg = small_config();
    let weights = random_weights(&cfg);
    let ids = Activation::Ids(vec![1]);
    let out = from_singles(8, vec![vec![0.0; 8]]);
    let ex = log_execution("s", 1, "w", ids, out.copied(), "n".to_string());
    let mut verifier = verifier_of(&cfg, &weights, 1.0, 0.0, 1);
    let mut ledger = ledger_with_worker("w");
    assert!(verifier.can_audit(&ex));
    assert!(matches!(
        verifier.maybe_audit(&ex, &mut ledger),
        Err(VerifyError::Model(ModelError::ExpectedHidden))
    ));
    assert!(!ledger.account("w").unwrap().banned);
    // a stage that the verifier does not have can be claimed as long as nobody is audited
    let ex = log_execution("s", 9, "w", Activation::Ids(vec![1]), out, "n".to_string());
    assert!(!verifier.can_audit(&ex));
    verifier.audit_prob = 0.0f64.to_bits();
    assert!(verifier.can_audit(&ex));
}

// ---- nodes ----

#[test]
fn nodes_keep_their_sessions_and_commit_to_the_stream() {
    let cfg = small_config();
    let weights = random_weights(&cfg);
    let mut node = build_worker("peer", &cfg, &weights, 4, &vec![0, 2], 9);
    assert_eq!(node.id, "worker-peer");
    assert!(matches!(
        node.begin_stage(1, "s", &Activation::Ids(vec![1])),
        Err(EngineError::NoStage(1))
    ));
    assert!(matches!(
        node.begin_stage(2, "s", &Activation::Ids(vec![1])),
        Err(EngineError::Model(ModelError::ExpectedHidden))
    ));
    assert_eq!(node.kv_footprint_bytes(0, "s"), 0);

    let mut served = 0;
    let mut nonces = Stream::new(9);
    for (step, ids) in [vec![1usize, 2, 3], vec![4]].into_iter().enumerate() {
        let n = ids.len();
        let x = Activation::Ids(ids);
        assert!(node.can_begin(0, "s", &x));
        let mut begun = node.begin_stage(0, "s", &x).unwrap();
        work_off(&mut begun.pass, &weights, &cfg);
        assert!(node.can_end_stage(&begun));
        let (out, ex, flops) = node.end_stage(begun, None).unwrap();
        assert_eq!(out.rows.len(), n);
        served += flops;
        assert_eq!(node.flops_served, served);
        assert_eq!(ex.inp.n_tokens(), 3 + step);
        assert_eq!(ex.out.rows.len(), 3 + step);
        assert_eq!(ex.nonce, format!("{:016x}", nonces.next_pair()));
        assert_eq!(ex.commitment, commit(&ex.out, &ex.nonce));
        // one layer, keys and values of the model's width, four bytes each
        assert_eq!(node.kv_footprint_bytes(0, "s"), (3 + step) * 8 * 2 * 4);
    }
    // another session starts from nothing
    assert_eq!(node.kv_footprint_bytes(0, "t"), 0);
}

#[test]
fn a_failed_step_leaves_no_trace_in_the_log() {
    let cfg = small_config();
    let weights = random_weights(&cfg);
    let mut node = build_worker("peer", &cfg, &weights, 4, &vec![0], 9);
    let x = Activation::Ids(vec![1, 2]);
    let begun = node.begin_stage(0, "s", &x).unwrap();
    node.abandon_stage(begun);
    assert_eq!(node.flops_served, 0);
    let mut begun = node.begin_stage(0, "s", &x).unwrap();
    work_off(&mut begun.pass, &weights, &cfg);
    let (_, ex, _) = node.end_stage(begun, None).unwrap();
    assert_eq!(ex.inp.n_tokens(), 2);
}

// ---- the engine ----

#[allow(clippy::too_many_arguments)]
fn add_node<'w>(
    nodes: &mut Table<Node<'w>>,
    ledger: &mut Ledger,
    router: &mut Router,
    cfg: &ModelConfig,
    weights: &'w Weights,
    bounds: &[(usize, usize)],
    id: &str,
    stage_id: usize,
    rtt: f64,
    seed: u64,
) {
    ledger.register(id, 8);
    let mut node = Node::new(id, LinkProfile::new(rtt.to_bits(), 30.0f64.to_bits()), seed);
    let (lo, hi) = bounds[stage_id];
    node.host(stage_id, Stage::new(cfg.copied(), weights, lo, hi));
    router.announce(id, stage_id, rtt.to_bits());
    nodes.insert(id, node);
}

/// A 4-stage swarm (with stage-1/2 backups for reroute) and an engine wired to a
/// quiet verifier.
fn build_engine<'w>(cfg: &ModelConfig, weights: &'w Weights) -> Engine<'w> {
    let n_stages = 4;
    let bounds = shard(cfg, n_stages);
    let mut ledger = Ledger::default();
    let mut router = Router::new();
    let mut nodes: Table<Node> = Table::new();

    let rtts = [9.0, 14.0, 11.0, 17.0];
    for (i, &rtt) in rtts.iter().enumerate() {
        add_node(
            &mut nodes,
            &mut ledger,
            &mut router,
            cfg,
            weights,
            &bounds,
            &format!("node-{i}"),
            i,
            rtt,
            i as u64,
        );
    }
    // Redundant providers so a reroute always has somewhere to land.
    for (id, stage, rtt, seed) in [("node-1b", 1, 22.0, 101), ("node-2b", 2, 25.0, 102)] {
        add_node(
            &mut nodes,
            &mut ledger,
            &mut router,
            cfg,
            weights,
            &bounds,
            id,
            stage,
            rtt,
            seed,
        );
    }
    ledger.register("client", 8);

    let quiet = verifier_of(cfg, weights, 0.0, 0.0, 1);
    Engine::new(nodes, router, ledger, quiet, n_stages, 7)
}

fn step(
    engine: &mut Engine,
    mut generation: Generation,
    w: &Weights,
    cfg: &ModelConfig,
) -> Result<Generation, EngineError> {
    let mut run = generation.run;
    let stats = &mut generation.stats;
    let tampering = {
        let node = engine.node_mut(&run.pipeline[run.stage]);
        node.map_or(Tamper::Honest, |n| n.tamper)
    };
    run = match &mut run.work {
        Work::Ready => {
            assert!(engine.can_enter_stage(&run));
            engine.enter_stage(run)?
        }
        Work::Stage(begun) => {
            work_off(&mut begun.pass, w, cfg);
            let corrupted = match (tampering, begun.pass.task()) {
                (Tamper::AddConstant(c), Task::Done { out }) => Some(shifted(out, f32::from_bits(c))),
                _ => None,
            };
            assert!(engine.can_end_stage(&run));
            engine.end_stage(run, corrupted)?
        }
        Work::Claimed { .. } => {
            assert!(engine.can_audit(&run));
            engine.audit(run, stats)?
        }
        Work::Audit { pass, .. } => {
            work_off(pass, w, cfg);
            let verifier = engine.verifier_mut();
            let noisy = match pass.task() {
                Task::Done { out } if verifier.drifts() => Some(disturbed(verifier, out)),
                _ => None,
            };
            engine.end_audit(run, noisy, stats)?
        }
        Work::Done(_) => run,
    };
    generation.run = run;
    Ok(generation)
}

fn generate(
    engine: &mut Engine,
    w: &Weights,
    cfg: &ModelConfig,
    prompt: &str,
    max_tokens: usize,
) -> Result<(String, Vec<usize>, GenStats), EngineError> {
    let mut generation = engine.begin_generation(prompt, max_tokens, "client", 0)?;
    assert!(generation.is_greedy());
    while !generation.is_over() {
        if !matches!(generation.run.work, Work::Done(_)) {
            generation = step(engine, generation, w, cfg)?;
        } else {
            generation = generation.next_token(None);
        }
    }
    Ok(engine.finish_generation(generation))
}

#[test]
fn reproduces_demo_four_outcomes() {
    let cfg = ModelConfig::default();
    let weights = random_weights(&cfg);
    let mut engine = build_engine(&cfg, &weights);

    // 1) INFERENCE: constant per-hop payload; KV cache pinned.
    let (_text, _ids, stats) =
        generate(&mut engine, &weights, &cfg, "explain the design", 24).unwrap();
    assert_eq!(stats.tokens, 24);
    let net = stats.network.unwrap();
    assert_eq!(net.hops, (1 + 24) * 4, "prefill + 24 decode, 4 stages");
    // The big thing we did NOT ship dwarfs the small thing we did.
    let (avoided, shipped) = (
        f64::from_bits(net.kv_ship_mb_avoided),
        f64::from_bits(net.activation_mb),
    );
    assert!(
        avoided > shipped,
        "kv avoided {avoided} should exceed activation shipped {shipped}"
    );

    // 2) HONEST VERIFICATION: every stage re-executed with ~2e-4 drift, 0 bans.
    engine.set_verifier(verifier_of(&cfg, &weights, 1.0, 2e-4, 3));
    engine.reset_monitor();
    let (_t, _i, st) = generate(&mut engine, &weights, &cfg, "audit me", 6).unwrap();
    assert!(st.audits > 0, "audits should happen at p=1.0");
    assert_eq!(st.audit_fails, 0, "honest drift stays inside the band");
    assert_eq!(st.reroutes, 0);
    for id in ["node-0", "node-1", "node-2", "node-3", "node-1b", "node-2b"] {
        assert!(
            !engine.ledger().account(id).unwrap().banned,
            "{id} falsely banned"
        );
    }

    // 3) FRAUD: stage-1 primary fabricates -> caught, slashed, routed around.
    engine.node_mut("node-1").unwrap().tamper = Tamper::AddConstant(5.0f32.to_bits());
    engine.set_verifier(verifier_of(&cfg, &weights, 1.0, 0.0, 5));
    engine.reset_monitor();
    let (_t, ids3, st3) = generate(&mut engine, &weights, &cfg, "catch the cheater", 4).unwrap();
    assert!(st3.audit_fails >= 1, "the cheater must be caught");
    assert!(st3.reroutes >= 1, "and routed around");
    assert_eq!(ids3.len(), 4, "generation still finishes on the backup");
    let cheater = engine.ledger().account("node-1").unwrap();
    assert!(cheater.banned, "cheater banned");
    assert_eq!(cheater.stake, 0, "stake slashed");
    // one hop for every stage of the prompt and of each token, one more for the reroute
    assert_eq!(st3.network.unwrap().hops, (1 + 4) * 4 + 1);

    // 4) LEDGER: providers priority; cheater blocked; pure consumer unchoked.
    let snap = engine.ledger().snapshot();
    for id in ["node-0", "node-2", "node-3", "node-1b"] {
        assert_eq!(snap.get(id).unwrap().tier, Tier::Priority, "{id} tier");
    }
    assert_eq!(snap.get("node-1").unwrap().tier, Tier::Blocked);
    assert!(snap.get("node-1").unwrap().banned);
    assert_eq!(
        snap.get("client").unwrap().tier,
        Tier::OptimisticUnchoke,
        "pure consumer rides its grace grant"
    );
}

#[test]
fn per_hop_hidden_activation_is_d_model_times_4() {
    // The inter-stage activation is `d_model * 4` bytes during
    // decode, regardless of how much context has accumulated.
    let cfg = ModelConfig::default();
    let weights = random_weights(&cfg);
    let mut engine = build_engine(&cfg, &weights); // quiet verifier -> no reroutes
    let max_tokens = 12;

    generate(
        &mut engine,
        &weights,
        &cfg,
        "a longer prompt to grow context",
        max_tokens,
    )
    .unwrap();

    let expected = cfg.d_model * 4;
    let hop_bytes = &engine.monitor().hop_bytes;
    assert_eq!(hop_bytes.len(), (1 + max_tokens) * 4);

    // Hop i: pass = i/4 (0 = prefill), stage = i%4. Every non-first stage during
    // a decode pass carries exactly one [1, d_model] row.
    for (i, &bytes) in hop_bytes.iter().enumerate() {
        let (pass, stage) = (i / 4, i % 4);
        if pass >= 1 && stage != 0 {
            assert_eq!(
                bytes, expected,
                "decode hidden hop {i} (pass {pass}, stage {stage})"
            );
        }
    }
}

#[test]
fn sessions_are_numbered_and_need_all_stages() {
    let cfg = small_config();
    let weights = random_weights(&cfg);
    let mut engine = build_engine(&cfg, &weights);
    let first = engine.begin_generation("a", 1, "client", 0).unwrap();
    assert_eq!(first.run.session, "sess-00000000");
    let second = engine.begin_generation("a", 1, "client", 0).unwrap();
    assert_eq!(second.run.session, "sess-00000001");
    assert_eq!(
        second.run.pipeline,
        vec!["node-0", "node-1", "node-2", "node-3"]
    );
    engine.ledger_mut().slash("node-3");
    assert!(matches!(
        engine.begin_generation("a", 1, "client", 0),
        Err(EngineError::Net(NetError::NoProvider(3)))
    ));
}

#[test]
fn without_stages_there_are_no_logits() {
    let cfg = small_config();
    let weights = random_weights(&cfg);
    let verifier = verifier_of(&cfg, &weights, 0.0, 0.0, 1);
    let mut engine = Engine::new(Table::new(), Router::new(), Ledger::default(), verifier, 0, 7);
    assert!(matches!(
        engine.begin_generation("a", 1, "client", 0),
        Err(EngineError::NoLogits)
    ));
}

#[test]
fn every_failed_audit_reroutes_and_tokens_are_in_the_vocabulary() {
    let cfg = small_config();
    let weights = random_weights(&cfg);
    let mut engine = build_engine(&cfg, &weights);
    for cheater in ["node-1", "node-2"] {
        engine.node_mut(cheater).unwrap().tamper = Tamper::AddConstant(5.0f32.to_bits());
    }
    engine.set_verifier(verifier_of(&cfg, &weights, 1.0, 0.0, 5));
    let (_, ids, stats) = generate(&mut engine, &weights, &cfg, "tally", 5).unwrap();
    assert_eq!((stats.audit_fails, stats.reroutes), (2, 2));
    // each stage of the prompt and of each token, and those that were run again
    assert_eq!(stats.audits, (1 + 5) * 4 + 2);
    assert_eq!(ids.len(), 5);
    assert!(ids.iter().all(|&id| id < cfg.vocab_size));
}

#[test]
fn greedy_generations_give_the_same_tokens() {
    let cfg = small_config();
    let weights = random_weights(&cfg);
    let mut engine = build_engine(&cfg, &weights);
    let first = generate(&mut engine, &weights, &cfg, "same again", 8).unwrap();
    let second = generate(&mut engine, &weights, &cfg, "same again", 8).unwrap();
    assert_eq!((&first.0, &first.1), (&second.0, &second.1));
    // through other stages, on other nodes
    for n_stages in [1, 2, 3] {
        let bounds = shard(&cfg, n_stages);
        let mut ledger = Ledger::default();
        let mut router = Router::new();
        let mut nodes: Table<Node> = Table::new();
        for stage in 0..n_stages {
            add_node(
                &mut nodes,
                &mut ledger,
                &mut router,
                &cfg,
                &weights,
                &bounds,
                &format!("other-{stage}"),
                stage,
                5.0,
                50 + stage as u64,
            );
        }
        let quiet = verifier_of(&cfg, &weights, 0.0, 0.0, 1);
        let mut other = Engine::new(nodes, router, ledger, quiet, n_stages, 9);
        let third = generate(&mut other, &weights, &cfg, "same again", 8).unwrap();
        assert_eq!((&first.0, &first.1), (&third.0, &third.1), "{n_stages} stages");
    }
}

#[test]
fn an_unknown_node_is_an_error() {
    let cfg = small_config();
    let weights = random_weights(&cfg);
    let mut ledger = Ledger::default();
    ledger.register("ghost", 2);
    let mut router = Router::new();
    router.announce("ghost", 0, 0);
    let verifier = verifier_of(&cfg, &weights, 0.0, 0.0, 1);
    let mut engine = Engine::new(Table::new(), router, ledger, verifier, 1, 7);
    let generation = engine.begin_generation("a", 1, "client", 0).unwrap();
    match engine.enter_stage(generation.run) {
        Err(EngineError::UnknownNode(id)) => assert_eq!(id, "ghost"),
        other => panic!("{other:?}"),
    }
}

#[test]
fn an_audit_that_cannot_run_ends_the_token() {
    let cfg = small_config();
    let weights = random_weights(&cfg);
    let mut engine = build_engine(&cfg, &weights);
    engine.set_verifier(verifier_of(&cfg, &weights, 1.0, 0.0, 1));
    let mut generation = engine.begin_generation("a", 1, "client", 0).unwrap();
    while !matches!(generation.run.work, Work::Claimed { .. }) {
        generation = step(&mut engine, generation, &weights, &cfg).unwrap();
    }
    if let Work::Claimed { claim, .. } = &mut generation.run.work {
        claim.inp = Activation::Hidden(from_singles(8, vec![vec![0.0; 8]]));
    }
    assert!(engine.can_audit(&generation.run));
    assert!(matches!(
        engine.audit(generation.run, &mut generation.stats),
        Err(EngineError::Verify(VerifyError::Model(
            ModelError::ExpectedIds
        )))
    ));
}

#[test]
fn a_broken_commitment_is_routed_around() {
    let cfg = small_config();
    let weights = random_weights(&cfg);
    let mut engine = build_engine(&cfg, &weights);
    engine.set_verifier(verifier_of(&cfg, &weights, 1.0, 0.0, 1));
    let mut generation = engine.begin_generation("a", 1, "client", 0).unwrap();
    while generation.run.stage < 1 || !matches!(generation.run.work, Work::Claimed { .. }) {
        generation = step(&mut engine, generation, &weights, &cfg).unwrap();
    }
    if let Work::Claimed { claim, .. } = &mut generation.run.work {
        claim.out = shifted(&claim.out, 1.0);
    }
    generation = step(&mut engine, generation, &weights, &cfg).unwrap();
    assert!(matches!(generation.run.work, Work::Ready));
    assert_eq!(generation.run.stage, 1);
    assert_eq!(generation.run.pipeline[1], "node-1b");
    assert_eq!(generation.run.excluded, vec!["node-1"]);
    assert_eq!(generation.stats.audit_fails, 1);
    assert_eq!(generation.stats.reroutes, 1);
    // nor does the next generation come back to it
    let next = engine.begin_generation("b", 1, "client", 0).unwrap();
    assert_eq!(next.run.pipeline[1], "node-1b");
}

#[test]
fn sampled_tokens_are_taken_when_the_temperature_asks_for_them() {
    let cfg = small_config();
    let weights = random_weights(&cfg);
    let mut engine = build_engine(&cfg, &weights);
    let warm = 0.8f64.to_bits();
    let mut generation = engine.begin_generation("a", 1, "client", warm).unwrap();
    assert!(!generation.is_greedy() && !generation.is_over());
    while !matches!(generation.run.work, Work::Done(_)) {
        generation = step(&mut engine, generation, &weights, &cfg).unwrap();
    }
    let generation = generation.next_token(Some(77));
    assert_eq!(generation.out_ids, vec![77]);
    assert_eq!(generation.run.stage, 0);
    match &generation.run.current {
        Activation::Ids(ids) => assert_eq!(ids, &vec![77]),
        other => panic!("{other:?}"),
    }
}

fn picked(weights: &[f64], draw: f64) -> usize {
    let total: f64 = weights.iter().sum();
    let mut pick = draw * total;
    for (i, w) in weights.iter().enumerate() {
        pick -= w;
        if pick <= 0.0 {
            return i;
        }
    }
    weights.len() - 1
}

#[test]
fn tokens_are_sampled_by_their_weights() {
    let cfg = small_config();
    let weights = random_weights(&cfg);
    let mut engine = build_engine(&cfg, &weights);
    let mut rng = ChaCha8Rng::seed_from_u64(7);
    let mut seen = vec![0; 5];
    for round in 0..300 {
        let chances: Vec<f64> = (0..5)
            .map(|i| (-((i * (round % 7)) as f64) / 3.0).exp())
            .collect();
        let bits = chances.iter().map(|w| w.to_bits()).collect();
        assert!(engine.can_sample());
        let token = engine.sample(&bits);
        assert_eq!(token, picked(&chances, rng.random::<f64>()));
        seen[token] += 1;
    }
    assert!(seen.iter().all(|&n| n > 0));
}

#[test]
fn the_first_weight_that_uses_the_share_up_is_picked() {
    let bits = |xs: &[f64]| xs.iter().map(|x| x.to_bits()).collect::<Vec<u64>>();
    let weights = bits(&[0.25, 0.0, 0.5, 0.25]);
    assert_eq!(pick(&weights, 0.0f64.to_bits()), 0);
    assert_eq!(pick(&weights, 0.25f64.to_bits()), 0);
    assert_eq!(pick(&weights, 0.26f64.to_bits()), 2);
    assert_eq!(pick(&weights, 0.99f64.to_bits()), 3);
    // a share that no weight uses up goes to the last
    assert_eq!(pick(&weights, 2.0f64.to_bits()), 3);
    assert_eq!(pick(&bits(&[f64::NAN, 1.0]), 0.0f64.to_bits()), 1);
}

#[test]
fn transfers_count_four_bytes_an_entry() {
    assert_eq!(transfer_bytes(&Activation::Ids(vec![1, 2, 3])), 12);
    let hidden = Activation::Hidden(from_singles(5, vec![vec![0.0; 5], vec![0.0; 5]]));
    assert_eq!(transfer_bytes(&hidden), 40);
}

// ---- the facade ----

fn user(content: &str) -> Vec<ChatMessage> {
    vec![ChatMessage {
        role: "user".to_string(),
        content: content.to_string(),
    }]
}

fn generate_completion(
    engine: &mut Engine,
    w: &Weights,
    cfg: &ModelConfig,
    messages: &Vec<ChatMessage>,
    max_tokens: usize,
    number: u64,
) -> ChatResponse {
    let text = prompt(messages);
    let (out, ids, stats) = generate(engine, w, cfg, &text, max_tokens).unwrap();
    let out = GenOutput::new(&text, out, &ids, &stats);
    completion(number, 1_700_000_000, "hopper-tiny".to_string(), out)
}

#[test]
fn facade_returns_openai_shape_and_is_deterministic() {
    let cfg = ModelConfig::default();
    let weights = random_weights(&cfg);
    let mut engine = build_inprocess_engine(&cfg, &weights, 4).expect("spawn engine");
    let messages = user("explain the design");

    let resp = generate_completion(&mut engine, &weights, &cfg, &messages, 12, 1);

    assert_eq!(resp.object, "chat.completion");
    assert_eq!(resp.choices.len(), 1);
    assert_eq!(resp.choices[0].index, 0);
    assert_eq!(resp.choices[0].message.role, "assistant");
    assert_eq!(resp.choices[0].finish_reason, "length");

    // Usage accounting is internally consistent.
    assert_eq!(resp.usage.completion_tokens, 12);
    assert_eq!(
        resp.usage.total_tokens,
        resp.usage.prompt_tokens + resp.usage.completion_tokens
    );

    // The non-standard hopper telemetry block is present; quiet verifier -> no bans.
    assert_eq!(resp.hopper.audit_fails, 0);

    // Greedy (temperature 0) is deterministic.
    let resp2 = generate_completion(&mut engine, &weights, &cfg, &messages, 12, 0xabc);
    assert_eq!(
        resp.choices[0].message.content,
        resp2.choices[0].message.content
    );
    assert_eq!(resp.id, "chatcmpl-000000000001");
    assert_eq!(resp2.id, "chatcmpl-000000000abc");
    assert_eq!(resp.created, 1_700_000_000);
    assert_eq!(resp.model, "hopper-tiny");
    assert_eq!(resp.usage.prompt_tokens, "user: explain the design".len());
}

#[test]
fn prompts_have_a_line_for_each_message() {
    let mut messages = user("hi");
    assert_eq!(prompt(&messages), "user: hi");
    messages.extend(user("there"));
    assert_eq!(prompt(&messages), "user: hi\nuser: there");
    assert_eq!(prompt(&vec![]), "");
}
