//! Proof of honest inference.
//!
//! Products of matrices are not bit-reproducible across hardware, so honesty is not checked to the
//! bit but made to pay. A worker commits to its output before it knows whether it will be audited.
//! With some probability a verifier runs the stage again, statelessly and with its own weights, and
//! compares the outputs by their relative error against a tolerance that is never zero. One catch
//! takes the whole stake and bans the identity.

use vstd::arithmetic::power2::{lemma_pow2_adds, lemma_pow2_pos, pow2};
use vstd::prelude::*;
use vstd::utf8::encode_utf8;

use crate::config::ModelConfig;
use crate::digest::{hex_bytes, hex_string, sha256, sha256_of, spellings_differ};
use crate::double::{
    body, larger_patterns_are_larger_doubles, lemma_finite, lemma_some_units, lemma_vanishes,
    lemma_zero, magnitude, negate, negated, product, product_of, quotient, quotient_of, root,
    root_of, single_magnitude, sum, sum_of, units, widen, widened,
};
use crate::error::{ModelError, VerifyError};
use crate::ledger::Ledger;
use crate::numbers::{at_most, double_le, DOUBLE_INFINITY, SINGLE_INFINITY};
use crate::random::{chacha_word, unit_double, unit_doubles_are_exact, Stream};
use crate::shard::{shard, shard_of};
use crate::stage::{Activation, ActivationView, Stage, StagePass};
use crate::tensor::{Grid, Matrix};
use crate::weights::Weights;

verus! {

/// The entries of a matrix, row by row.
pub open spec fn flat(rows: Seq<Seq<u32>>) -> Seq<u32>
    decreases rows.len(),
{
    if rows.len() == 0 {
        Seq::empty()
    } else {
        flat(rows.drop_last()) + rows.last()
    }
}

/// The entries of a matrix, row by row.
pub fn flatten(m: &Matrix) -> (out: Vec<u32>)
    ensures
        out@ == flat(m@.rows),
{
    let mut out: Vec<u32> = Vec::new();
    let mut i: usize = 0;
    while i < m.rows.len()
        invariant
            i <= m.rows@.len(),
            out@ == flat(m@.rows.take(i as int)),
        decreases m.rows@.len() - i,
    {
        let ghost row = m@.rows[i as int];
        let ghost before = out@;
        assert(row == m.rows@[i as int]@);
        let mut j: usize = 0;
        while j < m.rows[i].len()
            invariant
                i < m.rows@.len(),
                row == m.rows@[i as int]@,
                j <= row.len(),
                out@ == before + row.take(j as int),
            decreases row.len() - j,
        {
            out.push(m.rows[i][j]);
            assert(row.take(j + 1) =~= row.take(j as int).push(row[j as int]));
            assert(out@ =~= before + row.take(j + 1));
            j = j + 1;
        }
        assert(row.take(j as int) =~= row);
        assert(m@.rows.take(i + 1).drop_last() =~= m@.rows.take(i as int));
        i = i + 1;
    }
    assert(m@.rows.take(i as int) =~= m@.rows);
    out
}

/// A byte of a number, the least significant first.
pub open spec fn byte_of(x: u32, i: int) -> u8 {
    (if i == 0 {
        x % 0x100
    } else if i == 1 {
        x / 0x100 % 0x100
    } else if i == 2 {
        x / 0x1_0000 % 0x100
    } else {
        x / 0x100_0000
    }) as u8
}

/// The bytes of numbers, four for each, the least significant first.
pub open spec fn little_endian(xs: Seq<u32>) -> Seq<u8> {
    Seq::new(4 * xs.len(), |i: int| byte_of(xs[i / 4], i % 4))
}

/// The commitment to an output: the digest of its bytes and the nonce.
pub open spec fn commitment_of(output: Grid, nonce: Seq<char>) -> Seq<char> {
    hex_bytes(sha256_of(little_endian(flat(output.rows)) + encode_utf8(nonce)))
}

/// The bytes of numbers, four for each, the least significant first.
pub fn to_little_endian(xs: &Vec<u32>) -> (out: Vec<u8>)
    ensures
        out@ == little_endian(xs@),
{
    let mut out: Vec<u8> = Vec::new();
    let mut i: usize = 0;
    while i < xs.len()
        invariant
            i <= xs@.len(),
            out@ == little_endian(xs@.take(i as int)),
        decreases xs@.len() - i,
    {
        let x: u32 = xs[i];
        let ghost before = out@;
        out.push((x % 0x100) as u8);
        out.push((x / 0x100 % 0x100) as u8);
        out.push((x / 0x1_0000 % 0x100) as u8);
        out.push((x / 0x100_0000) as u8);
        proof {
            let all = little_endian(xs@.take(i + 1));
            assert(out@.len() == all.len());
            assert forall|b: int| 0 <= b < all.len() implies out@[b] == all[b] by {
                if b < 4 * i {
                    assert(xs@.take(i + 1)[b / 4] == xs@.take(i as int)[b / 4]);
                } else {
                    assert(b / 4 == i);
                }
            }
            assert(out@ =~= all);
        }
        i = i + 1;
    }
    assert(xs@.take(i as int) =~= xs@);
    out
}

/// The commitment to an output: the digest of its entries in little-endian order, row by row, and
/// of the nonce behind them.
pub fn commit(output: &Matrix, nonce: &str) -> (commitment: String)
    ensures
        commitment@ == commitment_of(output@, nonce@),
{
    let mut message: Vec<u8> = to_little_endian(&flatten(output));
    let ghost front = message@;
    let tail: &[u8] = nonce.as_bytes();
    let mut i: usize = 0;
    while i < tail.len()
        invariant
            i <= tail@.len(),
            message@ == front + tail@.take(i as int),
        decreases tail@.len() - i,
    {
        message.push(tail[i]);
        assert(tail@.take(i + 1) =~= tail@.take(i as int).push(tail@[i as int]));
        assert(message@ =~= front + tail@.take(i + 1));
        i = i + 1;
    }
    assert(tail@.take(i as int) =~= tail@);
    let digest = sha256(message.as_slice());
    hex_string(digest.as_slice())
}

/// What a worker claims of one stage run. Input and output are those of the whole session so far.
#[derive(Debug)]
pub struct Execution {
    pub session: String,
    pub stage_id: usize,
    pub worker: String,
    pub inp: Activation,
    pub out: Matrix,
    pub nonce: String,
    pub commitment: String,
}

/// The contents of an execution.
pub struct ExecutionView {
    pub session: Seq<char>,
    pub stage_id: usize,
    pub worker: Seq<char>,
    pub inp: ActivationView,
    pub out: Grid,
    pub nonce: Seq<char>,
    pub commitment: Seq<char>,
}

impl View for Execution {
    type V = ExecutionView;

    open spec fn view(&self) -> ExecutionView {
        ExecutionView {
            session: self.session@,
            stage_id: self.stage_id,
            worker: self.worker@,
            inp: self.inp@,
            out: self.out@,
            nonce: self.nonce@,
            commitment: self.commitment@,
        }
    }
}

impl ExecutionView {
    /// Whether the commitment binds the output.
    pub open spec fn binds(self) -> bool {
        commitment_of(self.out, self.nonce) == self.commitment
    }
}

/// An execution whose commitment binds its output. The worker chooses a fresh `nonce`.
pub fn log_execution(
    session: &str,
    stage_id: usize,
    worker: &str,
    inp: Activation,
    out: Matrix,
    nonce: String,
) -> (ex: Execution)
    ensures
        ex@ == (ExecutionView {
            session: session@,
            stage_id,
            worker: worker@,
            inp: inp@,
            out: out@,
            nonce: nonce@,
            commitment: commitment_of(out@, nonce@),
        }),
        ex@.binds(),
{
    let commitment: String = commit(&out, nonce.as_str());
    Execution {
        session: session.to_owned(),
        stage_id,
        worker: worker.to_owned(),
        inp,
        out,
        nonce,
        commitment,
    }
}

/// How an audit ended.
#[derive(Debug)]
pub struct AuditResult {
    pub audited: bool,
    pub passed: bool,
    /// The bit pattern of the double-precision relative error.
    pub rel_error: u64,
    pub reason: String,
}

/// The contents of an audit result.
pub struct AuditView {
    pub audited: bool,
    pub passed: bool,
    pub rel_error: u64,
    pub reason: Seq<char>,
}

impl View for AuditResult {
    type V = AuditView;

    open spec fn view(&self) -> AuditView {
        AuditView {
            audited: self.audited,
            passed: self.passed,
            rel_error: self.rel_error,
            reason: self.reason@,
        }
    }
}

/// The sum of the squares of doubles, from the first to the last.
pub open spec fn squares(xs: Seq<u64>) -> u64
    decreases xs.len(),
{
    if xs.len() == 0 {
        0
    } else {
        sum_of(squares(xs.drop_last()), product_of(xs.last(), xs.last()))
    }
}

/// Singles as doubles.
pub open spec fn all_widened(xs: Seq<u32>) -> Seq<u64> {
    xs.map_values(|x: u32| widened(x))
}

/// Whether two matrices have as many rows, each as long as the other's.
pub open spec fn same_shape(a: Grid, b: Grid) -> bool {
    &&& a.rows.len() == b.rows.len()
    &&& forall|i: int| 0 <= i < a.rows.len() ==> (#[trigger] a.rows[i]).len() == b.rows[i].len()
}

/// Whether two matrices have as many rows, each as long as the other's.
pub fn has_same_shape(a: &Matrix, b: &Matrix) -> (same: bool)
    ensures
        same == same_shape(a@, b@),
{
    if a.rows.len() != b.rows.len() {
        return false;
    }
    let mut i: usize = 0;
    while i < a.rows.len()
        invariant
            i <= a.rows@.len(),
            a.rows@.len() == b.rows@.len(),
            forall|j: int| 0 <= j < i ==> (#[trigger] a@.rows[j]).len() == b@.rows[j].len(),
        decreases a.rows@.len() - i,
    {
        assert(a@.rows[i as int] == a.rows@[i as int]@);
        assert(b@.rows[i as int] == b.rows@[i as int]@);
        if a.rows[i].len() != b.rows[i].len() {
            return false;
        }
        i = i + 1;
    }
    true
}

/// The differences of the entries that two lists have in common.
pub open spec fn differences(a: Seq<u32>, b: Seq<u32>) -> Seq<u64> {
    Seq::new(
        if a.len() < b.len() {
            a.len()
        } else {
            b.len()
        },
        |i: int| sum_of(widened(a[i]), negated(widened(b[i]))),
    )
}

/// A billionth.
pub const BILLIONTH: u64 = 0x3e11_2e0b_e826_d695;

/// The relative error of `a` against `b`: the length of the difference by the length of `b`, with
/// a billionth added to keep it from zero.
pub open spec fn relative_error(a: Grid, b: Grid) -> u64 {
    quotient_of(
        root_of(squares(differences(flat(a.rows), flat(b.rows)))),
        sum_of(root_of(squares(all_widened(flat(b.rows)))), BILLIONTH),
    )
}

/// The relative error of `a` against `b`.
pub fn rel_l2(a: &Matrix, b: &Matrix) -> (rel: u64)
    ensures
        rel == relative_error(a@, b@),
{
    let xs: Vec<u32> = flatten(a);
    let ys: Vec<u32> = flatten(b);
    let ghost deltas = differences(xs@, ys@);
    let ghost lengths = all_widened(ys@);
    let common: usize = if xs.len() < ys.len() {
        xs.len()
    } else {
        ys.len()
    };
    let mut over: u64 = 0;
    let mut i: usize = 0;
    while i < common
        invariant
            i <= common,
            common <= xs@.len(),
            common <= ys@.len(),
            common == deltas.len(),
            deltas == differences(xs@, ys@),
            over == squares(deltas.take(i as int)),
        decreases common - i,
    {
        let d: u64 = sum(widen(xs[i]), negate(widen(ys[i])));
        assert(deltas.take(i + 1).drop_last() =~= deltas.take(i as int));
        over = sum(over, product(d, d));
        i = i + 1;
    }
    assert(deltas.take(i as int) =~= deltas);
    let mut under: u64 = 0;
    let mut j: usize = 0;
    while j < ys.len()
        invariant
            j <= ys@.len(),
            lengths == all_widened(ys@),
            under == squares(lengths.take(j as int)),
        decreases ys@.len() - j,
    {
        let y: u64 = widen(ys[j]);
        assert(lengths.take(j + 1).drop_last() =~= lengths.take(j as int));
        under = sum(under, product(y, y));
        j = j + 1;
    }
    assert(lengths.take(j as int) =~= lengths);
    quotient(root(over), sum(root(under), BILLIONTH))
}

/// An ephemeral verifier. It has the same weights as the workers and runs a challenged stage again.
#[derive(Debug)]
pub struct Verifier<'w> {
    cfg: ModelConfig,
    weights: &'w Weights,
    bounds: Vec<(usize, usize)>,
    /// The bit pattern of the probability of an audit.
    pub audit_prob: u64,
    /// The bit pattern of the largest relative error that passes.
    pub tolerance: u64,
    /// The bit pattern of the synthetic hardware drift, zero for none.
    pub hw_noise: u64,
    rng: Stream,
}

/// The contents of a verifier.
#[verifier::ext_equal]
pub struct VerifierView<'w> {
    pub cfg: ModelConfig,
    pub weights: &'w Weights,
    pub bounds: Seq<(usize, usize)>,
    pub audit_prob: u64,
    pub tolerance: u64,
    pub hw_noise: u64,
    pub rng: Stream,
}

impl<'w> View for Verifier<'w> {
    type V = VerifierView<'w>;

    closed spec fn view(&self) -> VerifierView<'w> {
        VerifierView {
            cfg: self.cfg,
            weights: self.weights,
            bounds: self.bounds@,
            audit_prob: self.audit_prob,
            tolerance: self.tolerance,
            hw_noise: self.hw_noise,
            rng: self.rng,
        }
    }
}

/// No audit.
pub open spec fn skipped() -> AuditView {
    AuditView { audited: false, passed: true, rel_error: 0, reason: ""@ }
}

/// The output that was revealed is not the one that was committed to.
pub open spec fn mismatched() -> AuditView {
    AuditView {
        audited: true,
        passed: false,
        rel_error: DOUBLE_INFINITY,
        reason: "commitment_mismatch"@,
    }
}

impl<'w> VerifierView<'w> {
    /// Whether the next draw asks for an audit.
    pub open spec fn audits_next(self) -> bool {
        !double_le(self.audit_prob, unit_double(self.rng.pair()))
    }

    /// The stage that is run again.
    pub open spec fn stage(self, id: usize) -> Stage<'w> {
        Stage::over(self.cfg, self.weights, self.bounds[id as int].0, self.bounds[id as int].1)
    }

    /// Whether the stage of an execution exists and can be run on its input.
    pub open spec fn can_rerun(self, ex: ExecutionView) -> bool {
        &&& ex.stage_id < self.bounds.len()
        &&& self.stage(ex.stage_id).runnable()
        &&& self.stage(ex.stage_id).takes(ex.inp) ==> self.stage(ex.stage_id).in_range(ex.inp, 0)
        &&& ex.inp.tokens() <= usize::MAX
        &&& ex.inp.tokens() <= i64::MAX
    }

    /// Whether the next draw can be followed: it asks for no rerun, or for one that can be made.
    pub open spec fn can_follow(self, ex: ExecutionView) -> bool {
        self.audits_next() && ex.binds() ==> self.can_rerun(ex)
    }

    /// The error of an execution, given what the stage gave out when it was run again: infinite
    /// where the worker revealed less or more than the whole output.
    pub open spec fn error_of(self, ex: ExecutionView, recomputed: Grid) -> u64 {
        if same_shape(ex.out, recomputed) {
            relative_error(ex.out, recomputed)
        } else {
            DOUBLE_INFINITY
        }
    }

    /// The verdict on an execution, given what the stage gave out when it was run again: it passes
    /// if the worker revealed a whole output whose error is within the tolerance.
    pub open spec fn verdict(self, ex: ExecutionView, recomputed: Grid) -> AuditView {
        let rel_error = self.error_of(ex, recomputed);
        if same_shape(ex.out, recomputed) && double_le(rel_error, self.tolerance) {
            AuditView { audited: true, passed: true, rel_error, reason: "ok"@ }
        } else {
            AuditView { audited: true, passed: false, rel_error, reason: "recompute_mismatch"@ }
        }
    }
}

/// How an audit begins.
#[derive(Debug)]
pub enum Audit {
    /// It is over already.
    Settled(AuditResult),
    /// The stage has to be run again, statelessly. [`Verifier::conclude`] takes what comes out.
    Rerun(StagePass),
}

impl<'w> Verifier<'w> {
    /// A verifier with the same split into stages as the workers.
    pub fn new(
        cfg: ModelConfig,
        weights: &'w Weights,
        n_stages: usize,
        audit_prob: u64,
        tolerance: u64,
        hw_noise: u64,
        seed: u64,
    ) -> (verifier: Self)
        requires
            n_stages <= 0x20_0000_0000_0000,
        ensures
            verifier@ == (VerifierView {
                cfg,
                weights,
                bounds: shard_of(cfg.n_layer as nat, n_stages as nat),
                audit_prob,
                tolerance,
                hw_noise,
                rng: Stream { seed, position: 0 },
            }),
    {
        let bounds = shard(&cfg, n_stages);
        Verifier {
            cfg,
            weights,
            bounds,
            audit_prob,
            tolerance,
            hw_noise,
            rng: Stream::new(seed),
        }
    }

    /// Whether there is another draw.
    pub fn can_draw(&self) -> (ok: bool)
        ensures
            ok == self@.rng.has(2),
    {
        self.rng.position <= u64::MAX - 2
    }

    /// Whether the stage of an execution exists and can be run on its input.
    pub fn can_rerun_stage(&self, ex: &Execution) -> (ok: bool)
        ensures
            ok == self@.can_rerun(ex@),
    {
        broadcast use Stage::lemma_over;

        if ex.stage_id >= self.bounds.len() {
            return false;
        }
        let (lo, hi) = self.bounds[ex.stage_id];
        let stage = Stage::new(self.cfg.copied(), self.weights, lo, hi);
        stage.can_run(&ex.inp, None, 0)
    }

    /// Whether it can be decided to audit an execution: there is another draw, and if it asks for
    /// the stage to be run again, that can be done.
    pub fn can_audit(&self, ex: &Execution) -> (ok: bool)
        ensures
            ok == (self@.rng.has(2) && self@.can_follow(ex@)),
    {
        if !self.can_draw() {
            return false;
        }
        let mut rng: Stream = self.rng;
        let draw: u64 = rng.next_double();
        at_most(self.audit_prob, draw) || commit(&ex.out, ex.nonce.as_str()) != ex.commitment
            || self.can_rerun_stage(ex)
    }

    /// Decides by the next draw whether to audit. In an audit the commitment must bind what was
    /// revealed, or the worker is slashed at once; if it does, the stage is to be run again.
    pub fn maybe_audit(&mut self, ex: &Execution, ledger: &mut Ledger) -> (out: Result<
        Audit,
        VerifyError,
    >)
        requires
            old(self)@.rng.has(2),
            old(ledger).wf(),
            old(self)@.can_follow(ex@),
        ensures
            final(ledger).wf(),
            final(self)@ == (VerifierView { rng: old(self)@.rng.after(2), ..old(self)@ }),
            !old(self)@.audits_next() ==> {
                &&& out matches Ok(Audit::Settled(result)) && result@ == skipped()
                &&& final(ledger)@ == old(ledger)@
            },
            old(self)@.audits_next() && !ex@.binds() ==> {
                &&& out matches Ok(Audit::Settled(result)) && result@ == mismatched()
                &&& final(ledger)@ == old(ledger)@.slashed(ex@.worker)
            },
            old(self)@.audits_next() && ex@.binds() ==> {
                let stage = old(self)@.stage(ex@.stage_id);
                &&& final(ledger)@ == old(ledger)@
                &&& if stage.takes(ex@.inp) {
                    &&& out matches Ok(Audit::Rerun(pass)) && pass@ == stage.pass(ex@.inp, None, 0)
                        && pass@.wf()
                } else {
                    out == Err::<Audit, VerifyError>(
                        VerifyError::Model(
                            if ex@.inp is Ids {
                                ModelError::ExpectedHidden
                            } else {
                                ModelError::ExpectedIds
                            },
                        ),
                    )
                }
            },
    {
        broadcast use Stage::lemma_over;

        let draw: u64 = self.rng.next_double();
        if at_most(self.audit_prob, draw) {
            return Ok(
                Audit::Settled(
                    AuditResult { audited: false, passed: true, rel_error: 0, reason: "".to_owned() },
                ),
            );
        }
        if commit(&ex.out, ex.nonce.as_str()) != ex.commitment {
            ledger.slash(ex.worker.as_str());
            return Ok(
                Audit::Settled(
                    AuditResult {
                        audited: true,
                        passed: false,
                        rel_error: DOUBLE_INFINITY,
                        reason: "commitment_mismatch".to_owned(),
                    },
                ),
            );
        }
        let (lo, hi) = self.bounds[ex.stage_id];
        let stage = Stage::new(self.cfg.copied(), self.weights, lo, hi);
        match stage.forward(ex.inp.copied(), None, 0) {
            Ok(pass) => Ok(Audit::Rerun(pass)),
            Err(e) => Err(VerifyError::Model(e)),
        }
    }

    /// Whether the recomputed output is to be disturbed to stand for other hardware.
    pub fn drifts(&self) -> (yes: bool)
        ensures
            yes == (self@.hw_noise % 0x8000_0000_0000_0000 != 0),
    {
        self.hw_noise % 0x8000_0000_0000_0000 != 0
    }

    /// The next random single, for a disturbance.
    pub fn next_single(&mut self) -> (bits: u32)
        requires
            old(self)@.rng.has(1),
        ensures
            bits < 0x3f80_0000,
            single_magnitude(bits) == (chacha_word(
                old(self)@.rng.seed,
                old(self)@.rng.position,
            ) / 0x100) * pow2(125),
            final(self)@ == (VerifierView { rng: old(self)@.rng.after(1), ..old(self)@ }),
    {
        self.rng.next_single()
    }

    /// Ends an audit: the worker passes if its output has the shape of the recomputed one and is
    /// within the tolerance of it, and is slashed if not.
    pub fn conclude(&self, ex: &Execution, recomputed: &Matrix, ledger: &mut Ledger) -> (result:
        AuditResult)
        requires
            old(ledger).wf(),
        ensures
            final(ledger).wf(),
            result@ == self@.verdict(ex@, recomputed@),
            final(ledger)@ == if result.passed {
                old(ledger)@
            } else {
                old(ledger)@.slashed(ex@.worker)
            },
    {
        let whole: bool = has_same_shape(&ex.out, recomputed);
        let rel_error: u64 = if whole {
            rel_l2(&ex.out, recomputed)
        } else {
            DOUBLE_INFINITY
        };
        if whole && at_most(rel_error, self.tolerance) {
            AuditResult { audited: true, passed: true, rel_error, reason: "ok".to_owned() }
        } else {
            ledger.slash(ex.worker.as_str());
            AuditResult {
                audited: true,
                passed: false,
                rel_error,
                reason: "recompute_mismatch".to_owned(),
            }
        }
    }
}

/// A number is known by its four bytes.
proof fn lemma_bytes_differ(x: u32, y: u32)
    requires
        byte_of(x, 0) == byte_of(y, 0),
        byte_of(x, 1) == byte_of(y, 1),
        byte_of(x, 2) == byte_of(y, 2),
        byte_of(x, 3) == byte_of(y, 3),
    ensures
        x == y,
{
}

/// Different numbers have different bytes.
proof fn lemma_little_endian_differs(xs: Seq<u32>, ys: Seq<u32>)
    requires
        little_endian(xs) == little_endian(ys),
    ensures
        xs == ys,
{
    let (p, q) = (little_endian(xs), little_endian(ys));
    assert(p.len() == 4 * xs.len() && q.len() == 4 * ys.len());
    assert forall|i: int| 0 <= i < xs.len() implies #[trigger] xs[i] == ys[i] by {
        assert(p[4 * i] == byte_of(xs[i], 0) && q[4 * i] == byte_of(ys[i], 0));
        assert(p[4 * i + 1] == byte_of(xs[i], 1) && q[4 * i + 1] == byte_of(ys[i], 1));
        assert(p[4 * i + 2] == byte_of(xs[i], 2) && q[4 * i + 2] == byte_of(ys[i], 2));
        assert(p[4 * i + 3] == byte_of(xs[i], 3) && q[4 * i + 3] == byte_of(ys[i], 3));
        lemma_bytes_differ(xs[i], ys[i]);
    }
    assert(xs =~= ys);
}

/// The bytes that a commitment is the digest of.
pub open spec fn committed_bytes(ex: ExecutionView) -> Seq<u8> {
    little_endian(flat(ex.out.rows)) + encode_utf8(ex.nonce)
}

/// A commitment binds one output: whoever reveals two outputs with different entries under the same
/// nonce and the same commitment has found two messages with the same digest.
pub proof fn commitments_bind_one_output(a: ExecutionView, b: ExecutionView)
    requires
        a.binds(),
        b.binds(),
        a.commitment == b.commitment,
        a.nonce == b.nonce,
        flat(a.out.rows) != flat(b.out.rows),
    ensures
        committed_bytes(a) != committed_bytes(b),
        sha256_of(committed_bytes(a)) == sha256_of(committed_bytes(b)),
{
    spellings_differ(sha256_of(committed_bytes(a)), sha256_of(committed_bytes(b)));
    let (xs, ys) = (flat(a.out.rows), flat(b.out.rows));
    let (p, q) = (little_endian(xs), little_endian(ys));
    if committed_bytes(a) == committed_bytes(b) {
        assert(p.len() == committed_bytes(a).len() - encode_utf8(a.nonce).len());
        assert(q.len() == committed_bytes(b).len() - encode_utf8(b.nonce).len());
        assert(p =~= committed_bytes(a).take(p.len() as int));
        assert(q =~= committed_bytes(b).take(p.len() as int));
        lemma_little_endian_differs(xs, ys);
    }
}

/// A probability of one or more always audits, one of zero never.
pub proof fn certain_probabilities(verifier: VerifierView)
    ensures
        0x3ff0_0000_0000_0000 <= verifier.audit_prob <= DOUBLE_INFINITY ==> verifier.audits_next(),
        verifier.audit_prob % 0x8000_0000_0000_0000 == 0 ==> !verifier.audits_next(),
{
    unit_doubles_are_exact(verifier.rng.pair());
}

/// How often audits come: a draw is one of 2^53 numbers, the first 53 of 64 random bits, and asks for an
/// audit exactly if that many parts of 2^53 are less than the probability, whatever that is from zero
/// to one. So as many draws do as the probability has parts, rounded up.
pub proof fn audits_come_with_their_probability(verifier: VerifierView)
    requires
        verifier.audit_prob <= 0x3ff0_0000_0000_0000,
    ensures
        ({
            let (seed, at) = (verifier.rng.seed, verifier.rng.position);
            let low = chacha_word(seed, at) as int;
            let high = chacha_word(seed, (at + 1) as u64) as int;
            let draw = (low + 0x1_0000_0000 * high) / 0x800;
            let exponent = verifier.audit_prob as int / 0x10_0000_0000_0000;
            let fraction = verifier.audit_prob as int % 0x10_0000_0000_0000;
            // The probability, in units of 2^-1074, and how many parts of 2^53 it reaches into.
            let p = if exponent == 0 {
                fraction
            } else {
                (0x10_0000_0000_0000 + fraction) * pow2((exponent - 1) as nat)
            };
            let parts = (p + pow2(1021) - 1) / pow2(1021) as int;
            &&& 0 <= draw < 0x20_0000_0000_0000
            &&& verifier.audits_next() <==> draw * pow2(1021) < p
            &&& verifier.audits_next() <==> draw < parts
            &&& 0 <= parts <= 0x20_0000_0000_0000
        }),
{
    let pair = verifier.rng.pair();
    let draw = unit_double(pair);
    let prob = verifier.audit_prob;
    unit_doubles_are_exact(pair);
    let n = (pair / 0x800) as int;
    let p = magnitude(prob) as int;
    if draw < prob {
        larger_patterns_are_larger_doubles(draw, prob);
    } else if prob < draw {
        larger_patterns_are_larger_doubles(prob, draw);
    }
    let unit = pow2(1021) as int;
    lemma_pow2_pos(1021);
    let parts = (p + unit - 1) / unit;
    assert(n * unit < p <==> n < parts) by (nonlinear_arith)
        requires
            unit > 0,
            parts == (p + unit - 1) / unit,
    ;
    assert(p <= 0x20_0000_0000_0000 * unit) by {
        assert(magnitude(0x3ff0_0000_0000_0000) == 0x10_0000_0000_0000 * pow2(1022));
        lemma_pow2_adds(1021, 1);
        vstd::arithmetic::power2::lemma2_to64();
        if prob < 0x3ff0_0000_0000_0000 {
            larger_patterns_are_larger_doubles(prob, 0x3ff0_0000_0000_0000);
        }
    }
    assert(0 <= parts <= 0x20_0000_0000_0000) by (nonlinear_arith)
        requires
            unit > 0,
            0 <= p <= 0x20_0000_0000_0000 * unit,
            parts == (p + unit - 1) / unit,
    ;
}

/// Whoever asks for more audits gets at least those of whoever asks for fewer.
pub proof fn higher_probabilities_audit_more(less: VerifierView, more: VerifierView)
    requires
        less.rng == more.rng,
        less.audit_prob <= more.audit_prob <= DOUBLE_INFINITY,
    ensures
        less.audits_next() ==> more.audits_next(),
{
    unit_doubles_are_exact(less.rng.pair());
}

/// Whether every entry of a matrix is a finite number.
pub open spec fn all_finite(g: Grid) -> bool {
    forall|i: int|
        0 <= i < flat(g.rows).len() ==> (#[trigger] flat(g.rows)[i]) % 0x8000_0000
            < SINGLE_INFINITY
}

/// Squares are not negative, and sums of squares are not either.
proof fn lemma_squares(xs: Seq<u64>)
    requires
        forall|i: int|
            0 <= i < xs.len() ==> (#[trigger] xs[i]) % 0x8000_0000_0000_0000 <= DOUBLE_INFINITY,
    ensures
        squares(xs) <= DOUBLE_INFINITY,
    decreases xs.len(),
{
    if xs.len() > 0 {
        let before = xs.drop_last();
        assert forall|i: int| 0 <= i < before.len() implies (#[trigger] before[i])
            % 0x8000_0000_0000_0000 <= DOUBLE_INFINITY by {
            assert(before[i] == xs[i]);
        }
        lemma_squares(before);
        let x = xs.last();
        assert(xs[xs.len() - 1] == x);
        assert(product_of(x, x) <= DOUBLE_INFINITY);
        assert(sum_of(squares(before), product_of(x, x)) <= DOUBLE_INFINITY) by {
            lemma_not_negative(squares(before));
            lemma_not_negative(product_of(x, x));
        }
    }
}

proof fn lemma_not_negative(x: u64)
    requires
        x <= DOUBLE_INFINITY,
    ensures
        units(x) >= 0,
        body(x) == x,
{
}

/// A finite single is a finite double, and what is taken from itself leaves zero.
proof fn lemma_widened(x: u32)
    requires
        x % 0x8000_0000 < SINGLE_INFINITY,
    ensures
        body(widened(x)) < DOUBLE_INFINITY,
        sum_of(widened(x), negated(widened(x))) == 0,
{
    let size = single_magnitude(x);
    let exponent = (x % 0x8000_0000 / 0x80_0000) as nat;
    let fraction = (x % 0x8000_0000 % 0x80_0000) as nat;
    let m: nat = if exponent == 0 {
        fraction
    } else {
        0x80_0000 + fraction
    };
    let s: nat = if exponent == 0 {
        0
    } else {
        (exponent - 1) as nat
    };
    vstd::arithmetic::power2::lemma2_to64();
    assert(size == m * pow2(s)) by {
        if exponent == 0 {
            assert(m * 1 == m);
        }
    }
    lemma_pow2_adds(s, 925);
    assert((m * pow2(s)) * pow2(925) == m * (pow2(s) * pow2(925))) by (nonlinear_arith);
    lemma_finite(m, s + 925);
    let w = widened(x);
    let n = negated(w);
    assert(body(n) == body(w));
    assert(magnitude(n) == magnitude(w));
    assert(units(w) + units(n) == 0);
    lemma_zero(0);
}

/// The matrix against itself has no error.
pub proof fn lemma_no_error(g: Grid)
    requires
        all_finite(g),
    ensures
        relative_error(g, g) == 0,
{
    let xs = flat(g.rows);
    let deltas = differences(xs, xs);
    assert forall|i: int| 0 <= i < deltas.len() implies #[trigger] deltas[i] == 0 by {
        lemma_widened(xs[i]);
    }
    lemma_zeros(deltas);
    let lengths = all_widened(xs);
    assert forall|i: int| 0 <= i < lengths.len() implies (#[trigger] lengths[i])
        % 0x8000_0000_0000_0000 <= DOUBLE_INFINITY by {
        lemma_widened(xs[i]);
    }
    lemma_squares(lengths);
    let under = squares(lengths);
    let length = root_of(under);
    lemma_not_negative(under);
    assert(length <= DOUBLE_INFINITY);
    let den = sum_of(length, BILLIONTH);
    assert(0 < den <= DOUBLE_INFINITY) by {
        lemma_not_negative(length);
        lemma_not_negative(BILLIONTH);
        if length < DOUBLE_INFINITY {
            lemma_some_units(length, BILLIONTH);
            lemma_zero((units(length) + units(BILLIONTH)) as nat);
        }
    }
    assert(magnitude(0) == 0);
    assert(0 * pow2(1074) == 0);
    if den < DOUBLE_INFINITY {
        lemma_some_units(den, den);
        lemma_vanishes(0, magnitude(den));
    }
}

proof fn lemma_zeros(xs: Seq<u64>)
    requires
        forall|i: int| 0 <= i < xs.len() ==> #[trigger] xs[i] == 0,
    ensures
        squares(xs) == 0,
    decreases xs.len(),
{
    if xs.len() > 0 {
        lemma_zeros(xs.drop_last());
        assert(xs[xs.len() - 1] == 0);
        assert(magnitude(0) == 0);
        lemma_pow2_pos(1074);
        assert(0nat * 0nat == 0);
        lemma_vanishes(0, pow2(1074));
    }
}

/// A worker whose output is the one that the stage gives when it is run again passes every audit
/// with a tolerance that is not negative, and nobody is slashed.
pub proof fn exact_work_always_passes(verifier: VerifierView, ex: ExecutionView, recomputed: Grid)
    requires
        ex.out.rows == recomputed.rows,
        all_finite(recomputed),
        verifier.tolerance <= DOUBLE_INFINITY,
    ensures
        verifier.verdict(ex, recomputed).passed,
        verifier.verdict(ex, recomputed).rel_error == 0,
{
    lemma_no_error(recomputed);
}

/// A worker that reveals only some rows of the stage's output, or none, or more than there are, does
/// not pass, whatever the tolerance is.
pub proof fn partial_work_never_passes(verifier: VerifierView, ex: ExecutionView, recomputed: Grid)
    requires
        flat(ex.out.rows).len() != flat(recomputed.rows).len() || ex.out.rows.len()
            != recomputed.rows.len(),
    ensures
        !verifier.verdict(ex, recomputed).passed,
        verifier.verdict(ex, recomputed).rel_error == DOUBLE_INFINITY,
{
    if same_shape(ex.out, recomputed) {
        lemma_same_size(ex.out.rows, recomputed.rows);
    }
}

/// Matrices of one shape have as many entries.
proof fn lemma_same_size(a: Seq<Seq<u32>>, b: Seq<Seq<u32>>)
    requires
        a.len() == b.len(),
        forall|i: int| 0 <= i < a.len() ==> (#[trigger] a[i]).len() == b[i].len(),
    ensures
        flat(a).len() == flat(b).len(),
    decreases a.len(),
{
    if a.len() > 0 {
        assert forall|i: int| 0 <= i < a.drop_last().len() implies (
        #[trigger] a.drop_last()[i]).len() == b.drop_last()[i].len() by {
            assert(a[i].len() == b[i].len());
        }
        lemma_same_size(a.drop_last(), b.drop_last());
        assert(a[a.len() - 1].len() == b[a.len() - 1].len());
    }
}

/// An audit is settled by the error alone: it passes if and only if the whole output was revealed and its error
/// is at most the tolerance. The stage that is run again is that of the claim, over the layers that the split
/// of the model gives it.
pub proof fn verdicts_go_by_the_error(verifier: VerifierView, ex: ExecutionView, recomputed: Grid)
    ensures
        ({
            let verdict = verifier.verdict(ex, recomputed);
            let whole = ex.out.rows.len() == recomputed.rows.len() && forall|i: int|
                0 <= i < ex.out.rows.len() ==> (#[trigger] ex.out.rows[i]).len()
                    == recomputed.rows[i].len();
            &&& verdict.audited
            &&& verdict.passed <==> whole && double_le(verdict.rel_error, verifier.tolerance)
            &&& whole ==> verdict.rel_error == relative_error(ex.out, recomputed)
            &&& !whole ==> verdict.rel_error == DOUBLE_INFINITY
            &&& verdict.passed ==> verdict.reason == "ok"@
            &&& !verdict.passed ==> verdict.reason == "recompute_mismatch"@
            &&& verifier.stage(ex.stage_id).first_layer() == verifier.bounds[ex.stage_id as int].0
            &&& verifier.stage(ex.stage_id).end_layer() == verifier.bounds[ex.stage_id as int].1
            &&& verifier.stage(ex.stage_id).weights() == *verifier.weights
            &&& verifier.stage(ex.stage_id).config() == verifier.cfg
        }),
{
    broadcast use Stage::lemma_over;

}

/// All entries of a matrix, row by row: nothing is left out and nothing changes places.
pub proof fn matrices_are_flattened_row_by_row(above: Seq<Seq<u32>>, below: Seq<Seq<u32>>, row: Seq<u32>)
    ensures
        flat(above + below) == flat(above) + flat(below),
        flat(seq![row]) == row,
        flat(Seq::empty()) == Seq::<u32>::empty(),
    decreases below.len(),
{
    let one = seq![row];
    assert(one.drop_last() =~= Seq::<Seq<u32>>::empty());
    assert(flat(one.drop_last()) =~= Seq::<u32>::empty());
    assert(one.last() == row);
    assert(flat(one) =~= row);
    if below.len() == 0 {
        assert(above + below =~= above);
        assert(flat(above + below) =~= flat(above) + flat(below));
    } else {
        assert((above + below).drop_last() =~= above + below.drop_last());
        matrices_are_flattened_row_by_row(above, below.drop_last(), row);
        assert(flat(above + below) =~= flat(above) + flat(below));
    }
}

/// What is committed to: the four bytes of every entry, row by row and the least significant first, and the
/// nonce behind them, whose digest is spelled in hexadecimal.
pub proof fn commitments_cover_every_entry(output: Grid, nonce: Seq<char>, i: int)
    requires
        0 <= i < flat(output.rows).len(),
    ensures
        ({
            let x = flat(output.rows)[i] as int;
            let bytes = little_endian(flat(output.rows));
            &&& commitment_of(output, nonce) == hex_bytes(sha256_of(bytes + encode_utf8(nonce)))
            &&& bytes.len() == 4 * flat(output.rows).len()
            &&& bytes[4 * i] == x % 0x100
            &&& bytes[4 * i + 1] == x / 0x100 % 0x100
            &&& bytes[4 * i + 2] == x / 0x1_0000 % 0x100
            &&& bytes[4 * i + 3] == x / 0x100_0000
        }),
{
    assert((4 * i) / 4 == i && (4 * i) % 4 == 0);
    assert((4 * i + 1) / 4 == i && (4 * i + 1) % 4 == 1);
    assert((4 * i + 2) / 4 == i && (4 * i + 2) % 4 == 2);
    assert((4 * i + 3) / 4 == i && (4 * i + 3) % 4 == 3);
}

} // verus!
