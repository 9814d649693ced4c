//! Why an honest worker need not fear an audit.
//!
//! A worker gives its outputs out step by step, from its caches, and an auditor runs the whole
//! session again without any. If both compute row by row in the same way, every claim of the worker
//! is exactly what the auditor gets, and passes.

use vstd::prelude::*;

use crate::cache::{bytes_of, entries, CacheView};
use crate::config::ModelConfig;
use crate::memo::{
    entry, hold, lemma_entering_wf, lemma_entry_wf, lemma_fresh_caches_hold_nothing,
    lemma_remembered_length, lemma_streamed_before, online_steps_equal_the_stateless_run,
    remembers, replayable, session, sessions_equal_the_stateless_run, settled, stateless_rows,
    streamed, Kernels,
};
use crate::node::{HostedView, NodeView, RunView, SessionView};
use crate::numbers::DOUBLE_INFINITY;
use crate::stage::{concatenated, one_kind, stream_of, ActivationView, Stage};
use crate::tensor::{stacked, Grid};
use crate::verify::{
    all_finite, exact_work_always_passes, lemma_no_error, relative_error, VerifierView,
};
use crate::weights::Weights;

verus! {

/// Whether a session on a node is what the backend `k` makes of its inputs: the outputs are the
/// rows of one stateless run, and the caches hold all inputs.
pub open spec fn faithful(k: Kernels, stage: Stage, s: SessionView) -> bool {
    if s.inputs.len() == 0 {
        s == SessionView::fresh((stage.end_layer() - stage.first_layer()) as nat)
    } else {
        &&& s.outputs.len() > 0
        &&& one_kind(s.inputs)
        &&& stage.takes(concatenated(s.inputs))
        &&& s.inputs[0].same_kind(concatenated(s.inputs))
        &&& hold(k, stage, s.caches, concatenated(s.inputs))
        &&& stacked(s.outputs).rows == stateless_rows(k, stage, concatenated(s.inputs))
    }
}

/// A step that a node works off honestly with the backend `k` comes to an end and leaves the
/// session what the backend makes of its inputs.
pub proof fn honest_steps_stay_faithful(
    k: Kernels,
    hosted: HostedView,
    name: Seq<char>,
    input: ActivationView,
)
    requires
        hosted.stage.first_layer() < hosted.stage.end_layer(),
        faithful(k, hosted.stage, hosted.session(name)),
        one_kind(hosted.session(name).inputs.push(input)),
        replayable(k, hosted.stage, concatenated(hosted.session(name).inputs.push(input))),
    ensures
        ({
            let pass = settled(k, hosted.pass(name, input));
            &&& pass.done()
            &&& pass.caches is Some
            &&& faithful(
                k,
                hosted.stage,
                hosted.session(name).after(pass.caches->0, input, stream_of(pass.task)),
            )
        }),
{
    let stage = hosted.stage;
    let s = hosted.session(name);
    let layout = stage.layout();
    let pass = settled(k, hosted.pass(name, input));
    let after = s.after(pass.caches->0, input, stream_of(pass.task));
    let inputs = after.inputs;
    assert(inputs.drop_last() =~= s.inputs);
    assert(after.outputs.drop_last() =~= s.outputs);
    let past = if s.inputs.len() == 0 {
        input.blank()
    } else {
        concatenated(s.inputs)
    };
    assert(inputs[0].same_kind(inputs[inputs.len() - 1]));
    assert(concatenated(inputs) =~= past.followed_by(input));
    if s.inputs.len() == 0 {
        assert(entry(k, stage, past, 0) =~= Seq::empty());
        lemma_fresh_caches_hold_nothing(k, stage, past, s.caches);
    }
    online_steps_equal_the_stateless_run(k, stage, past, input, s.caches);
    assert(k.entering(layout, layout.lo + 0, entry(k, stage, past, 0)) == entry(k, stage, past, 0));
    lemma_remembered_length(k, layout, layout.lo, s.caches[0], entry(k, stage, past, 0));
    assert(s.position() == past.tokens());
    let all = stateless_rows(k, stage, concatenated(inputs));
    let n = past.tokens() as int;
    assert(all.take(n) + all.skip(n) =~= all);
    if s.inputs.len() == 0 {
        assert(all.skip(0) =~= all);
        assert(after.outputs.len() == 1);
        assert(stacked(after.outputs) == stream_of(pass.task));
    }
}

/// A claim of an honest worker passes: the auditor runs the stage again with the same backend, and
/// finds no error at all.
pub proof fn honest_claims_pass(
    k: Kernels,
    verifier: VerifierView,
    node: NodeView,
    run: RunView,
    output: Grid,
)
    requires
        faithful(k, node.hosted[run.stage_id].stage, node.session_after(run, output)),
        verifier.stage(run.stage_id) == node.hosted[run.stage_id].stage,
        verifier.tolerance <= DOUBLE_INFINITY,
        all_finite(node.claim(run, output).out),
    ensures
        ({
            let claim = node.claim(run, output);
            let rerun = settled(k, verifier.stage(run.stage_id).pass(claim.inp, None, 0));
            verifier.verdict(claim, stream_of(rerun.task)).passed
        }),
{
    let claim = node.claim(run, output);
    let rerun = settled(k, verifier.stage(run.stage_id).pass(claim.inp, None, 0));
    exact_work_always_passes(verifier, claim, stream_of(rerun.task));
}

/// The caches of a stage grow with the context: keys and values of every layer, head and entry,
/// four bytes each, for every token so far.
pub proof fn caches_grow_with_the_context(
    k: Kernels,
    stage: Stage,
    caches: Seq<CacheView>,
    past: ActivationView,
)
    requires
        replayable(k, stage, past),
        hold(k, stage, caches, past),
        caches.len() == stage.end_layer() - stage.first_layer(),
    ensures
        bytes_of(caches) == 2 * caches.len() * stage.layout().n_head * stage.layout().head_dim * 4
            * past.tokens(),
{
    let layout = stage.layout();
    let each = 2 * (layout.n_head * past.tokens() * layout.head_dim * 4);
    assert forall|i: int| 0 <= i < caches.len() implies (#[trigger] caches[i]).bytes() == each by {
        let xs = entry(k, stage, past, 0);
        lemma_entry_wf(k, stage, past);
        lemma_entering_wf(k, layout, layout.lo + i, xs);
        let rows = k.entering(layout, layout.lo + i, xs);
        assert(remembers(k, layout, (layout.lo + i) as usize, caches[i], rows));
        if caches[i] == CacheView::empty() && rows.len() == 0 {
            assert(layout.n_head * 0 * layout.head_dim * 4 == 0) by (nonlinear_arith);
        } else {
            let size = layout.n_head * past.tokens() * layout.head_dim;
            assert(entries(caches[i].k) == size);
            assert(entries(caches[i].v) == size);
        }
    }
    lemma_equal_bytes(caches, each);
    let (n, h, w, t) = (
        caches.len() as int,
        layout.n_head as int,
        layout.head_dim as int,
        past.tokens() as int,
    );
    assert(n * (2 * (h * t * w * 4)) == 2 * n * h * w * 4 * t) by (nonlinear_arith);
}

proof fn lemma_equal_bytes(caches: Seq<CacheView>, each: int)
    requires
        forall|i: int| 0 <= i < caches.len() ==> (#[trigger] caches[i]).bytes() == each,
    ensures
        bytes_of(caches) == caches.len() * each,
    decreases caches.len(),
{
    if caches.len() > 0 {
        let before = caches.drop_last();
        assert forall|i: int| 0 <= i < before.len() implies (#[trigger] before[i]).bytes()
            == each by {
            assert(before[i] == caches[i]);
        }
        lemma_equal_bytes(before, each);
        assert(caches[caches.len() - 1].bytes() == each);
        let n = caches.len() as int;
        assert((n - 1) * each + each == n * each) by (nonlinear_arith);
    } else {
        assert(0 * each == 0);
    }
}

/// What a session gave out online has no error at all against one stateless run over the whole
/// input, as long as that run gives numbers.
pub proof fn sessions_have_no_error(
    k: Kernels,
    stage: Stage,
    steps: Seq<ActivationView>,
    online: Grid,
    stateless: Grid,
)
    requires
        steps.len() > 0,
        forall|i: int| 0 <= i < steps.len() ==> steps[0].same_kind(#[trigger] steps[i]),
        replayable(k, stage, concatenated(steps)),
        stage.first_layer() < stage.end_layer(),
        online.rows == session(k, stage, steps).0,
        stateless.rows == stateless_rows(k, stage, concatenated(steps)),
        all_finite(stateless),
    ensures
        relative_error(online, stateless) == 0,
{
    sessions_equal_the_stateless_run(k, stage, steps);
    lemma_no_error(stateless);
}

/// Whether the session on the node of stage `s` has gone through these steps of a generation, as
/// they arrive behind the stages before it.
pub open spec fn has_streamed(
    k: Kernels,
    cfg: ModelConfig,
    w: &Weights,
    cuts: Seq<usize>,
    s: nat,
    steps: Seq<ActivationView>,
    on_node: SessionView,
) -> bool {
    let stage = Stage::over(cfg, w, cuts[s as int], cuts[s as int + 1]);
    &&& on_node.inputs == streamed(k, cfg, w, cuts, steps, s)
    &&& on_node.caches == session(k, stage, on_node.inputs).1
}

/// A node that works its steps off honestly is one stage of the pipeline: for what arrives from the
/// stages before it, it gives out what those and its own stage make of the last step, and its
/// session has then gone through that step as well. A new session has gone through none.
pub proof fn honest_nodes_stream_their_stage(
    k: Kernels,
    cfg: ModelConfig,
    w: &Weights,
    cuts: Seq<usize>,
    s: nat,
    steps: Seq<ActivationView>,
    hosted: HostedView,
    name: Seq<char>,
)
    requires
        steps.len() > 0,
        hosted.stage == Stage::over(cfg, w, cuts[s as int], cuts[s as int + 1]),
        hosted.sessions.contains_key(name) ==> has_streamed(
            k,
            cfg,
            w,
            cuts,
            s,
            steps.drop_last(),
            hosted.session(name),
        ),
        !hosted.sessions.contains_key(name) ==> steps.len() == 1,
    ensures
        ({
            let input = streamed(k, cfg, w, cuts, steps, s).last();
            let pass = settled(k, hosted.pass(name, input));
            let out = stream_of(pass.task);
            &&& streamed(k, cfg, w, cuts, steps, s + 1).last() == ActivationView::Hidden(out)
            &&& has_streamed(
                k,
                cfg,
                w,
                cuts,
                s,
                steps,
                hosted.session(name).after(pass.caches->0, input, out),
            )
        }),
{
    broadcast use Stage::lemma_over;

    lemma_streamed_before(k, cfg, w, cuts, steps, s);
    let inputs = streamed(k, cfg, w, cuts, steps, s);
    let on_node = hosted.session(name);
    if !hosted.sessions.contains_key(name) {
        assert(inputs.drop_last() =~= Seq::empty());
        assert(on_node.inputs =~= inputs.drop_last());
    }
    assert(on_node.inputs.push(inputs.last()) =~= inputs);
    assert(inputs.take(inputs.len() - 1 + 1) =~= inputs);
    assert(on_node.caches =~= session(k, hosted.stage, inputs.drop_last()).1);
}

} // verus!
