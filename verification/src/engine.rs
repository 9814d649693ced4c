//! Drives one inference across the layer-sharded pipeline.
//!
//! For each token an activation enters the node of the first stage and hops from stage to stage to
//! the last, which gives logits; the token that is picked from them enters at the first stage
//! again. The caches stay on the nodes, and only the activation hops. Every hop is metered and
//! credited, and may be audited; a node that is caught in the middle of a stream is routed around.
//!
//! The numeric work of a stage and of an audit is done outside. A [`TokenRun`] says what is to be
//! done next, and the engine's steps take it from there:
//!
//! * [`Engine::enter_stage`] meters the hop and begins the stage on its node,
//! * [`Engine::end_stage`] takes in what came out, and credits the node,
//! * [`Engine::audit`] decides whether the node is audited,
//! * [`Engine::end_audit`] takes in what the stage gave out when it was run again.

use vstd::arithmetic::power2::{lemma_pow2_adds, lemma_pow2_pos, pow2};
use vstd::prelude::*;

use crate::accuracy::{
    lemma_bits, lemma_magnitudes_ordered, lemma_near, lemma_near_exact, lemma_rounded_ordered, lemma_sum,
    near,
};
use crate::cache::{bytes_of, measurable, CacheView};
use crate::config::ModelConfig;
use crate::double::{
    is_zero, lemma_pow2_split, lemma_zero, magnitude, nearest_double, nearest_ratio, nearest_signed, negate,
    negated, product, product_of, sum, sum_of,
};
use crate::error::{EngineError, ModelError, NetError, VerifyError};
use crate::ledger::{slashing_takes_everything, Ledger, LedgerView, Tier};
use crate::memo::{
    all_have_layers, are_cuts, cuts_do_not_change_the_logits, pipelines_equal_the_stateless_run,
    replayable, stateless_rows, streamed, Kernels,
};
use crate::node::{Node, NodeView, RunView, StageRun};
use crate::numbers::{
    argmax, at_most, double_le, is_argmax, the_greedy_choice_is_unique, DOUBLE_INFINITY,
};
use crate::random::{unit_double, Stream};
use crate::router::{covered, names_of, serves, ProviderView, Router};
use crate::stage::{
    accepts_all, concatenated, outputs_have_one_row_per_token, replied, stream_of, Activation,
    ActivationView, PassView, ReplyView, Stage, StagePass, Task,
};
use crate::table::Table;
use crate::tensor::{Grid, Matrix};
use crate::text::{
    hex, hex_of, numeral, numerals_stand_for_their_number, padding_keeps_the_number,
};
use crate::tokenizer::{decode, decode_of, encode, encode_of};
use crate::transport::{MonitorView, NetworkMonitor, NetworkReport};
use crate::verify::{same_shape, Audit, Execution, ExecutionView, Verifier, VerifierView};
use crate::weights::Weights;

verus! {

/// What one generation went through.
#[derive(Debug, Clone, Copy)]
pub struct GenStats {
    pub tokens: usize,
    pub audits: usize,
    pub audit_fails: usize,
    pub reroutes: usize,
    pub network: Option<NetworkReport>,
}

impl GenStats {
    /// Whether the counters have room for another audit.
    pub open spec fn has_room(self) -> bool {
        self.audits < usize::MAX && self.audit_fails < usize::MAX && self.reroutes < usize::MAX
    }

    /// The counters after an audit that was passed.
    pub open spec fn after_pass(self) -> GenStats {
        GenStats { audits: (self.audits + 1) as usize, ..self }
    }

    /// The counters after an audit that was failed, and the reroute that follows.
    pub open spec fn after_fail(self) -> GenStats {
        GenStats {
            audits: (self.audits + 1) as usize,
            audit_fails: (self.audit_fails + 1) as usize,
            reroutes: (self.reroutes + 1) as usize,
            ..self
        }
    }

    /// No counts.
    pub open spec fn blank() -> GenStats {
        GenStats { tokens: 0, audits: 0, audit_fails: 0, reroutes: 0, network: None }
    }
}

impl Default for GenStats {
    fn default() -> (stats: Self)
        ensures
            stats == GenStats::blank(),
    {
        GenStats { tokens: 0, audits: 0, audit_fails: 0, reroutes: 0, network: None }
    }
}

/// The size of an activation on the wire, four bytes for each id or entry.
pub open spec fn payload(x: ActivationView) -> nat {
    match x {
        ActivationView::Ids(ids) => ids.len() * 4,
        ActivationView::Hidden(h) => h.size() * 4,
    }
}

/// The size of an activation on the wire.
pub fn transfer_bytes(x: &Activation) -> (n: usize)
    requires
        payload(x@) <= usize::MAX,
    ensures
        n == payload(x@),
{
    match x {
        Activation::Ids(ids) => ids.len() * 4,
        Activation::Hidden(h) => h.len() * 4,
    }
}

/// The size of an activation on the wire, if it fits a machine word.
fn checked_transfer_bytes(x: &Activation) -> (n: Option<usize>)
    ensures
        n is Some <==> payload(x@) <= usize::MAX,
        n matches Some(bytes) ==> bytes == payload(x@),
{
    let entries: Option<usize> = match x {
        Activation::Ids(ids) => Some(ids.len()),
        Activation::Hidden(h) => h.checked_len(),
    };
    match entries {
        Some(count) => if count <= usize::MAX / 4 {
            Some(count * 4)
        } else {
            None
        },
        None => None,
    }
}

/// The contents of an optional matrix.
pub open spec fn optional_grid(m: Option<Matrix>) -> Option<Grid> {
    match m {
        Some(matrix) => Some(matrix@),
        None => None,
    }
}

/// What is to be done next for a token.
#[derive(Debug)]
pub enum Work {
    /// The next stage is to be entered.
    Ready,
    /// The stage's pass is to be worked off.
    Stage(StageRun),
    /// The stage is over, and the node may be audited.
    Claimed { claim: Execution, output: Matrix },
    /// The node is audited: the pass is to be worked off.
    Audit { claim: Execution, output: Matrix, pass: StagePass },
    /// The last stage is over.
    Done(Matrix),
}

/// The contents of what is to be done next.
pub enum WorkView {
    Ready,
    Stage(RunView),
    Claimed { claim: ExecutionView, output: Grid },
    Audit { claim: ExecutionView, output: Grid, pass: PassView },
    Done(Grid),
}

impl View for Work {
    type V = WorkView;

    open spec fn view(&self) -> WorkView {
        match *self {
            Work::Ready => WorkView::Ready,
            Work::Stage(run) => WorkView::Stage(run@),
            Work::Claimed { claim, output } => WorkView::Claimed { claim: claim@, output: output@ },
            Work::Audit { claim, output, pass } => WorkView::Audit {
                claim: claim@,
                output: output@,
                pass: pass@,
            },
            Work::Done(logits) => WorkView::Done(logits@),
        }
    }
}

/// One activation on its way through all stages.
#[derive(Debug)]
pub struct TokenRun {
    pub session: String,
    pub client: String,
    /// The stage that the activation is at.
    pub stage: usize,
    /// What enters the stage.
    pub current: Activation,
    /// The node of every stage.
    pub pipeline: Vec<String>,
    /// The nodes that were caught on the way.
    pub excluded: Vec<String>,
    pub work: Work,
}

/// The contents of a token run.
#[verifier::ext_equal]
pub struct TokenView {
    pub session: Seq<char>,
    pub client: Seq<char>,
    pub stage: usize,
    pub current: ActivationView,
    pub pipeline: Seq<Seq<char>>,
    pub excluded: Set<Seq<char>>,
    pub work: WorkView,
}

/// The contents of a list of names.
pub open spec fn spelled(names: Seq<String>) -> Seq<Seq<char>> {
    names.map_values(|name: String| name@)
}

impl View for TokenRun {
    type V = TokenView;

    open spec fn view(&self) -> TokenView {
        TokenView {
            session: self.session@,
            client: self.client@,
            stage: self.stage,
            current: self.current@,
            pipeline: spelled(self.pipeline@),
            excluded: names_of(self.excluded@),
            work: self.work@,
        }
    }
}

impl TokenView {
    /// The node of the stage that the activation is at.
    pub open spec fn node(self) -> Seq<char> {
        self.pipeline[self.stage as int]
    }

    /// Whether the run is at one of `n_stages` stages, with a node for each.
    pub open spec fn wf(self, n_stages: usize) -> bool {
        self.stage < n_stages && self.pipeline.len() == n_stages
    }

    /// The run behind its stage, which gave `output`: at the next one, or over.
    pub open spec fn advanced(self, n_stages: usize, output: Grid) -> TokenView {
        if self.stage + 1 == n_stages {
            TokenView { work: WorkView::Done(output), ..self }
        } else {
            TokenView {
                stage: (self.stage + 1) as usize,
                current: ActivationView::Hidden(output),
                work: WorkView::Ready,
                ..self
            }
        }
    }

    /// The run once its node was caught: the same stage again, on another pipeline.
    pub open spec fn rerouted(self, pipeline: Seq<Seq<char>>) -> TokenView {
        TokenView {
            pipeline,
            excluded: self.excluded.insert(self.node()),
            work: WorkView::Ready,
            ..self
        }
    }
}

/// The contents of an engine.
#[verifier::ext_equal]
pub struct EngineView<'w> {
    pub nodes: Map<Seq<char>, NodeView<'w>>,
    pub router: Seq<ProviderView>,
    pub ledger: LedgerView,
    pub verifier: VerifierView<'w>,
    pub monitor: MonitorView,
    pub n_stages: usize,
    pub rng: Stream,
    pub session_counter: u64,
}

impl<'w> EngineView<'w> {
    /// Whether the next stage of a run can be entered: its node is not there, which is an error,
    /// or the node can take the step and the counters have room.
    pub open spec fn can_enter(self, run: TokenView) -> bool {
        self.nodes.contains_key(run.node()) ==> {
            &&& payload(run.current) <= usize::MAX
            &&& self.monitor.has_room(payload(run.current))
            &&& self.nodes[run.node()].admits(run.stage, run.session, run.current)
        }
    }

    /// The engine once a stage was entered.
    pub open spec fn entered(self, run: TokenView) -> EngineView<'w> {
        let node = self.nodes[run.node()];
        if self.nodes.contains_key(run.node()) {
            EngineView {
                nodes: self.nodes.insert(run.node(), node.begun(run.stage, run.session)),
                monitor: self.monitor.after_transfer(payload(run.current) as usize, node.link),
                ..self
            }
        } else {
            self
        }
    }

    /// Whether a stage of the run is being worked off on its node.
    pub open spec fn works_on(self, run: TokenView) -> bool {
        &&& run.wf(self.n_stages)
        &&& run.work matches WorkView::Stage(step) && self.nodes.contains_key(run.node())
            && self.nodes[run.node()].owns(step) && step.stage_id == run.stage && step.session
            == run.session
    }

    /// Whether the stage of a run can be ended: its pass is over, and the counters have room.
    pub open spec fn can_end(self, run: TokenView) -> bool {
        &&& self.works_on(run)
        &&& self.nodes[run.node()].can_end(run.work->Stage_0)
        &&& measurable(run.work->Stage_0.pass.caches->0)
        &&& self.monitor.kv_ship_bytes_avoided + bytes_of(run.work->Stage_0.pass.caches->0)
            <= u64::MAX
    }

    /// What the stage of a run gave out: what its pass computed, or `corrupted` where the node
    /// tampers.
    pub open spec fn output(self, run: TokenView, corrupted: Option<Grid>) -> Grid {
        match corrupted {
            Some(m) if self.nodes[run.node()].tamper is AddConstant => m,
            _ => stream_of(run.work->Stage_0.pass.task),
        }
    }

    /// The engine once a stage was ended. The node is credited, and the client charged, for what
    /// can be put together for an audit.
    pub open spec fn ended(self, run: TokenView, output: Grid) -> EngineView<'w> {
        let node = self.nodes[run.node()];
        let step = run.work->Stage_0;
        let nodes = self.nodes.insert(run.node(), node.ended(step, output));
        if node.auditable(step, output) {
            EngineView {
                nodes,
                ledger: self.ledger.recorded(run.node(), run.client, node.work(step) as u64),
                monitor: self.monitor.after_kv_avoided(bytes_of(step.pass.caches->0) as usize),
                ..self
            }
        } else {
            EngineView { nodes, ..self }
        }
    }

    /// The engine once it was decided whether to audit a claim.
    pub open spec fn decided(self, claim: ExecutionView) -> EngineView<'w> {
        EngineView {
            verifier: VerifierView { rng: self.verifier.rng.after(2), ..self.verifier },
            ledger: if self.verifier.audits_next() && !claim.binds() {
                self.ledger.slashed(claim.worker)
            } else {
                self.ledger
            },
            ..self
        }
    }

    /// The engine once an audit was ended.
    pub open spec fn judged(self, claim: ExecutionView, recomputed: Grid) -> EngineView<'w> {
        EngineView {
            ledger: if self.verifier.verdict(claim, recomputed).passed {
                self.ledger
            } else {
                self.ledger.slashed(claim.worker)
            },
            ..self
        }
    }

    /// What the audit compares a claim with: what the pass computed, or `disturbed` where the
    /// verifier stands for other hardware.
    pub open spec fn recomputed(self, pass: PassView, disturbed: Option<Grid>) -> Grid {
        match disturbed {
            Some(m) if self.verifier.hw_noise % 0x8000_0000_0000_0000 != 0 => m,
            _ => stream_of(pass.task),
        }
    }

    /// Whether some stage has no provider left, and which is the first.
    pub open spec fn first_uncovered(self, exclude: Set<Seq<char>>, stage: usize) -> bool {
        &&& stage < self.n_stages
        &&& !covered(self.router, stage, exclude, self.ledger)
        &&& forall|s: usize|
            s < stage ==> #[trigger] covered(self.router, s, exclude, self.ledger)
    }

    /// Whether every stage has a provider.
    pub open spec fn all_covered(self, exclude: Set<Seq<char>>) -> bool {
        forall|s: usize|
            s < self.n_stages ==> #[trigger] covered(self.router, s, exclude, self.ledger)
    }

    /// Whether `pipeline` is the one of lowest latency.
    pub open spec fn is_routed(self, exclude: Set<Seq<char>>, pipeline: Seq<Seq<char>>) -> bool {
        &&& pipeline.len() == self.n_stages
        &&& forall|s: int|
            0 <= s < pipeline.len() ==> serves(
                self.router,
                s as usize,
                exclude,
                self.ledger,
                #[trigger] pipeline[s],
            )
    }

    /// How a run goes on once its node was caught: around it, or not at all.
    pub open spec fn reroutes(self, run: TokenView, out: Result<TokenRun, EngineError>) -> bool {
        let exclude = run.excluded.insert(run.node());
        &&& out is Ok <==> self.all_covered(exclude)
        &&& out matches Ok(next) ==> self.is_routed(exclude, next@.pipeline) && next@
            == run.rerouted(next@.pipeline)
        &&& out matches Err(e) ==> e matches EngineError::Net(NetError::NoProvider(stage))
            && self.first_uncovered(exclude, stage)
    }
}

/// The inference orchestrator. It owns the nodes, the ledger and the router, which last from one
/// generation to the next.
#[derive(Debug)]
pub struct Engine<'w> {
    nodes: Table<Node<'w>>,
    router: Router,
    ledger: Ledger,
    verifier: Verifier<'w>,
    mon: NetworkMonitor,
    n_stages: usize,
    rng: Stream,
    session_counter: u64,
}

impl<'w> View for Engine<'w> {
    type V = EngineView<'w>;

    closed spec fn view(&self) -> EngineView<'w> {
        EngineView {
            nodes: node_views(self.nodes@),
            router: self.router@,
            ledger: self.ledger@,
            verifier: self.verifier@,
            monitor: self.mon@,
            n_stages: self.n_stages,
            rng: self.rng,
            session_counter: self.session_counter,
        }
    }
}

/// The contents of nodes.
pub open spec fn node_views<'w>(nodes: Map<Seq<char>, Node<'w>>) -> Map<Seq<char>, NodeView<'w>> {
    nodes.map_values(|n: Node<'w>| n@)
}

/// Whether all nodes are in order.
pub open spec fn nodes_wf(nodes: Map<Seq<char>, Node>) -> bool {
    forall|id: Seq<char>| nodes.contains_key(id) ==> (#[trigger] nodes[id]).wf()
}

impl<'w> Engine<'w> {
    /// Whether everything that the engine owns is in order.
    pub closed spec fn wf(&self) -> bool {
        &&& self.nodes.wf()
        &&& nodes_wf(self.nodes@)
        &&& self.ledger.wf()
    }

    /// An engine for `n_stages` stages. `seed` seeds the sampling.
    pub fn new(
        nodes: Table<Node<'w>>,
        router: Router,
        ledger: Ledger,
        verifier: Verifier<'w>,
        n_stages: usize,
        seed: u64,
    ) -> (engine: Self)
        requires
            nodes.wf(),
            nodes_wf(nodes@),
            ledger.wf(),
        ensures
            engine.wf(),
            engine@ == (EngineView {
                nodes: node_views(nodes@),
                router: router@,
                ledger: ledger@,
                verifier: verifier@,
                monitor: MonitorView::blank(),
                n_stages,
                rng: Stream { seed, position: 0 },
                session_counter: 0,
            }),
    {
        Engine {
            nodes,
            router,
            ledger,
            verifier,
            mon: NetworkMonitor::new(),
            n_stages,
            rng: Stream::new(seed),
            session_counter: 0,
        }
    }

    /// Puts another verifier in place.
    pub fn set_verifier(&mut self, verifier: Verifier<'w>)
        requires
            old(self).wf(),
        ensures
            final(self).wf(),
            final(self)@ == (EngineView { verifier: verifier@, ..old(self)@ }),
    {
        self.verifier = verifier;
    }

    /// Starts counting from zero.
    pub fn reset_monitor(&mut self)
        requires
            old(self).wf(),
        ensures
            final(self).wf(),
            final(self)@ == (EngineView { monitor: MonitorView::blank(), ..old(self)@ }),
    {
        self.mon = NetworkMonitor::new();
    }

    /// The ledger.
    pub fn ledger(&self) -> (ledger: &Ledger)
        requires
            self.wf(),
        ensures
            ledger.wf(),
            ledger@ == self@.ledger,
    {
        &self.ledger
    }

    /// The ledger, to be changed.
    pub fn ledger_mut(&mut self) -> (ledger: &mut Ledger)
        requires
            old(self).wf(),
        ensures
            ledger.wf(),
            ledger@ == old(self)@.ledger,
            final(self)@ == (EngineView { ledger: final(ledger)@, ..old(self)@ }),
            final(ledger).wf() ==> final(self).wf(),
    {
        &mut self.ledger
    }

    /// A node, to be changed.
    pub fn node_mut(&mut self, id: &str) -> (node: Option<&mut Node<'w>>)
        requires
            old(self).wf(),
        ensures
            node is Some <==> old(self)@.nodes.contains_key(id@),
            node matches Some(n) ==> {
                &&& n.wf()
                &&& n@ == old(self)@.nodes[id@]
                &&& final(self)@ == (EngineView {
                    nodes: old(self)@.nodes.insert(id@, final(n)@),
                    ..old(self)@
                })
                &&& final(n).wf() ==> final(self).wf()
            },
            node is None ==> *final(self) == *old(self),
    {
        let ghost before = self.nodes@;
        proof {
            assert forall|n: Node<'w>| node_views(#[trigger] before.insert(id@, n)) == node_views(
                before,
            ).insert(id@, n@) by {
                assert(node_views(before.insert(id@, n)) =~= node_views(before).insert(id@, n@));
            }
        }
        self.nodes.get_mut(id)
    }

    /// The verifier, to be drawn from or changed.
    pub fn verifier_mut(&mut self) -> (verifier: &mut Verifier<'w>)
        requires
            old(self).wf(),
        ensures
            verifier@ == old(self)@.verifier,
            final(self)@ == (EngineView { verifier: final(verifier)@, ..old(self)@ }),
            final(self).wf(),
    {
        &mut self.verifier
    }

    /// What was counted.
    pub fn monitor(&self) -> (monitor: &NetworkMonitor)
        ensures
            monitor@ == self@.monitor,
    {
        &self.mon
    }

    /// A name for the next session.
    fn next_session(&mut self) -> (session: String)
        requires
            old(self).wf(),
            old(self)@.session_counter < u64::MAX,
        ensures
            final(self).wf(),
            session@ == "sess-"@ + hex_of(old(self)@.session_counter as nat, 8),
            final(self)@ == (EngineView {
                session_counter: (old(self)@.session_counter + 1) as u64,
                ..old(self)@
            }),
    {
        let mut session: String = "sess-".to_owned();
        session.append(hex(self.session_counter, 8).as_str());
        self.session_counter = self.session_counter + 1;
        session
    }

    /// The pipeline of lowest latency without the excluded nodes.
    fn assemble(&self, exclude: &Vec<String>) -> (out: Result<Vec<String>, EngineError>)
        requires
            self.wf(),
        ensures
            out is Ok <==> self@.all_covered(names_of(exclude@)),
            out matches Ok(pipeline) ==> self@.is_routed(names_of(exclude@), spelled(pipeline@)),
            out matches Err(e) ==> e matches EngineError::Net(NetError::NoProvider(stage))
                && self@.first_uncovered(names_of(exclude@), stage),
    {
        match self.router.assemble(self.n_stages, exclude, &self.ledger) {
            Ok(pipeline) => {
                assert forall|s: int| 0 <= s < spelled(pipeline@).len() implies serves(
                    self@.router,
                    s as usize,
                    names_of(exclude@),
                    self@.ledger,
                    #[trigger] spelled(pipeline@)[s],
                ) by {
                    assert(spelled(pipeline@)[s] == pipeline@[s]@);
                }
                Ok(pipeline)
            },
            Err(e) => {
                proof {
                    let NetError::NoProvider(stage) = e;
                    assert(!covered(self@.router, stage, names_of(exclude@), self@.ledger));
                }
                Err(EngineError::Net(e))
            },
        }
    }

    /// Whether the next stage of a run can be entered.
    pub fn can_enter_stage(&self, run: &TokenRun) -> (ok: bool)
        requires
            self.wf(),
            run@.wf(self@.n_stages),
        ensures
            ok == self@.can_enter(run@),
    {
        assert(run@.node() == run.pipeline@[run.stage as int]@);
        match self.nodes.get(run.pipeline[run.stage].as_str()) {
            Some(node) => {
                assert(node.wf());
                assert(self@.nodes[run@.node()] == node@);
                match checked_transfer_bytes(&run.current) {
                    Some(n) => n as u64 <= u64::MAX - self.mon.total_bytes && self.mon.hops
                        < u64::MAX && node.can_begin(run.stage, run.session.as_str(), &run.current),
                    None => false,
                }
            },
            None => true,
        }
    }

    /// Meters the hop of the current activation to the node of the next stage, and begins the
    /// stage there.
    pub fn enter_stage(&mut self, run: TokenRun) -> (out: Result<TokenRun, EngineError>)
        requires
            old(self).wf(),
            run@.wf(old(self)@.n_stages),
            run@.work is Ready,
            old(self)@.can_enter(run@),
        ensures
            final(self).wf(),
            final(self)@ == old(self)@.entered(run@),
            ({
                let node = old(self)@.nodes[run@.node()];
                if !old(self)@.nodes.contains_key(run@.node()) {
                    out matches Err(EngineError::UnknownNode(id)) && id@ == run@.node()
                } else if !node.hosted.contains_key(run@.stage) {
                    out == Err::<TokenRun, EngineError>(EngineError::NoStage(run@.stage))
                } else if !node.hosted[run@.stage].stage.takes(run@.current) {
                    out == Err::<TokenRun, EngineError>(
                        EngineError::Model(
                            if run@.current is Ids {
                                ModelError::ExpectedHidden
                            } else {
                                ModelError::ExpectedIds
                            },
                        ),
                    )
                } else {
                    out matches Ok(next) && next@ == (TokenView {
                        work: WorkView::Stage(
                            RunView {
                                stage_id: run@.stage,
                                session: run@.session,
                                input: run@.current,
                                pass: node.hosted[run@.stage].pass(run@.session, run@.current),
                            },
                        ),
                        ..run@
                    }) && next@.work->Stage_0.pass.wf() && final(self)@.works_on(next@)
                }
            }),
    {
        let ghost before = self.nodes@;
        let ghost old_view = self@;
        let mut run: TokenRun = run;
        let ghost view = run@;
        assert(view.node() == run.pipeline@[run.stage as int]@);
        let node_id: String = run.pipeline[run.stage].clone();
        let begun = match self.nodes.get_mut(node_id.as_str()) {
            Some(node) => {
                assert(*node == before[view.node()]);
                assert(node.wf());
                assert(old_view.nodes[view.node()] == node@);
                let n_bytes: usize = transfer_bytes(&run.current);
                let link = node.link();
                self.mon.transfer(n_bytes, &link);
                node.begin_stage(run.stage, run.session.as_str(), &run.current)
            },
            None => Err(EngineError::UnknownNode(node_id.clone())),
        };
        assert(self@.nodes =~= old_view.entered(view).nodes);
        assert(nodes_wf(self.nodes@)) by {
            assert forall|id: Seq<char>| self.nodes@.contains_key(id) implies (
            #[trigger] self.nodes@[id]).wf() by {
                if id != view.node() {
                    assert(before[id].wf());
                }
            }
        }
        match begun {
            Ok(step) => {
                run.work = Work::Stage(step);
                Ok(run)
            },
            Err(e) => Err(e),
        }
    }

    /// Whether the stage of a run can be ended.
    pub fn can_end_stage(&self, run: &TokenRun) -> (ok: bool)
        requires
            self.wf(),
            self@.works_on(run@),
        ensures
            ok == self@.can_end(run@),
    {
        assert(run@.node() == run.pipeline@[run.stage as int]@);
        match &run.work {
            Work::Stage(step) => match self.nodes.get(run.pipeline[run.stage].as_str()) {
                Some(node) => {
                    assert(node.wf());
                    assert(self@.nodes[run@.node()] == node@);
                    if !node.can_end_stage(step) {
                        return false;
                    }
                    match step.pass.checked_bytes() {
                        Some(bytes) => bytes as u64 <= u64::MAX - self.mon.kv_ship_bytes_avoided,
                        None => false,
                    }
                },
                None => false,
            },
            _ => false,
        }
    }

    /// Takes in that the pass of a stage is over: the node logs the step, is credited with its
    /// work, and stands by its claim. A node that tampers gives out `corrupted` instead.
    pub fn end_stage(&mut self, run: TokenRun, corrupted: Option<Matrix>) -> (out: Result<
        TokenRun,
        EngineError,
    >)
        requires
            old(self).wf(),
            old(self)@.can_end(run@),
            old(self)@.nodes[run@.node()].tamper is AddConstant ==> corrupted is Some,
        ensures
            final(self).wf(),
            ({
                let node = old(self)@.nodes[run@.node()];
                let step = run@.work->Stage_0;
                let output = old(self)@.output(run@, optional_grid(corrupted));
                &&& final(self)@ == old(self)@.ended(run@, output)
                &&& if node.auditable(step, output) {
                    out matches Ok(next) && next@ == (TokenView {
                        work: WorkView::Claimed { claim: node.claim(step, output), output },
                        ..run@
                    })
                } else {
                    out == Err::<TokenRun, EngineError>(EngineError::Model(ModelError::Shape))
                }
            }),
    {
        let ghost before = self.nodes@;
        let ghost old_view = self@;
        let ghost view = run@;
        let ghost given = optional_grid(corrupted);
        assert(view.node() == run.pipeline@[run.stage as int]@);
        let TokenRun { session, client, stage, current, pipeline, excluded, work } = run;
        let step: StageRun = match work {
            Work::Stage(step) => step,
            _ => {
                return Err(EngineError::NoStage(stage));
            },
        };
        let node_id: String = pipeline[stage].clone();
        let ghost step_view = step@;
        let ended = match self.nodes.get_mut(node_id.as_str()) {
            Some(node) => {
                assert(*node == before[view.node()]);
                assert(node.wf());
                assert(old_view.nodes[view.node()] == node@);
                match node.end_stage(step, corrupted) {
                    Ok((output, claim, flops)) => {
                        let kv: usize = node.kv_footprint_bytes(stage, session.as_str());
                        Ok((output, claim, flops, kv))
                    },
                    Err(e) => Err(e),
                }
            },
            None => Err(EngineError::UnknownNode(node_id.clone())),
        };
        assert(nodes_wf(self.nodes@)) by {
            assert forall|id: Seq<char>| self.nodes@.contains_key(id) implies (
            #[trigger] self.nodes@[id]).wf() by {
                if id != view.node() {
                    assert(before[id].wf());
                }
            }
        }
        let ghost nodes_after = node_views(self.nodes@);
        match ended {
            Ok((output, claim, flops, kv)) => {
                assert(nodes_after =~= old_view.ended(view, output@).nodes);
                self.ledger.record(node_id.as_str(), client.as_str(), flops);
                self.mon.note_kv_avoided(kv);
                let work = Work::Claimed { claim, output };
                Ok(TokenRun { session, client, stage, current, pipeline, excluded, work })
            },
            Err(e) => {
                proof {
                    let output = old_view.output(view, given);
                    assert(nodes_after =~= old_view.ended(view, output).nodes);
                }
                Err(e)
            },
        }
    }

    /// Takes in that the pass of a stage failed: the node gives the step up.
    pub fn fail_stage(&mut self, run: TokenRun)
        requires
            old(self).wf(),
            old(self)@.works_on(run@),
        ensures
            final(self).wf(),
            final(self)@ == (EngineView {
                nodes: old(self)@.nodes.insert(
                    run@.node(),
                    old(self)@.nodes[run@.node()].abandoned(run@.work->Stage_0),
                ),
                ..old(self)@
            }),
    {
        let ghost before = self.nodes@;
        let ghost old_view = self@;
        let ghost view = run@;
        assert(view.node() == run.pipeline@[run.stage as int]@);
        let node_id: String = run.pipeline[run.stage].clone();
        match run.work {
            Work::Stage(step) => {
                match self.nodes.get_mut(node_id.as_str()) {
                    Some(node) => {
                        assert(*node == before[view.node()]);
                        assert(node.wf());
                        assert(old_view.nodes[view.node()] == node@);
                        node.abandon_stage(step);
                    },
                    None => {},
                }
                assert(node_views(self.nodes@) =~= old_view.nodes.insert(
                    view.node(),
                    old_view.nodes[view.node()].abandoned(view.work->Stage_0),
                ));
                assert(nodes_wf(self.nodes@)) by {
                    assert forall|id: Seq<char>| self.nodes@.contains_key(id) implies (
                    #[trigger] self.nodes@[id]).wf() by {
                        if id != view.node() {
                            assert(before[id].wf());
                        }
                    }
                }
            },
            _ => {},
        }
    }

    /// The run behind its stage: at the next one, or over.
    fn advance(&self, run: TokenRun, output: Matrix) -> (next: TokenRun)
        requires
            run@.wf(self@.n_stages),
        ensures
            next@ == run@.advanced(self@.n_stages, output@),
    {
        let mut next: TokenRun = run;
        if next.stage == self.n_stages - 1 {
            next.work = Work::Done(output);
        } else {
            next.current = Activation::Hidden(output);
            next.stage = next.stage + 1;
            next.work = Work::Ready;
        }
        next
    }

    /// The run around its node, which was caught: the same stage on another pipeline.
    fn reroute(&self, run: TokenRun) -> (out: Result<TokenRun, EngineError>)
        requires
            self.wf(),
            run@.wf(self@.n_stages),
        ensures
            self@.reroutes(run@, out),
    {
        let mut next: TokenRun = run;
        let ghost before = next.excluded@;
        assert(run@.node() == next.pipeline@[next.stage as int]@);
        next.excluded.push(next.pipeline[next.stage].clone());
        proof {
            let now = names_of(next.excluded@);
            assert forall|name: Seq<char>| #[trigger] now.contains(name) == names_of(before).insert(
                run@.node(),
            ).contains(name) by {
                if names_of(before).contains(name) {
                    let i = choose|i: int| 0 <= i < before.len() && (#[trigger] before[i])@ == name;
                    assert(next.excluded@[i]@ == name);
                }
                if now.contains(name) {
                    let i = choose|i: int|
                        0 <= i < next.excluded@.len() && (#[trigger] next.excluded@[i])@ == name;
                    if i < before.len() {
                        assert(before[i]@ == name);
                    }
                }
                assert(next.excluded@[before.len() as int]@ == run@.node());
            }
            assert(now =~= names_of(before).insert(run@.node()));
        }
        match self.assemble(&next.excluded) {
            Ok(pipeline) => {
                next.pipeline = pipeline;
                next.work = Work::Ready;
                Ok(next)
            },
            Err(e) => Err(e),
        }
    }

    /// Whether a claim can be audited, should the verifier decide so.
    pub fn can_audit(&self, run: &TokenRun) -> (ok: bool)
        ensures
            ok == (self@.verifier.rng.has(2) && (run@.work matches WorkView::Claimed { claim, .. }
                && self@.verifier.can_follow(claim))),
    {
        match &run.work {
            Work::Claimed { claim, .. } => self.verifier.can_audit(claim),
            _ => false,
        }
    }

    /// Decides whether the node of a stage is audited. If it is not, the run goes on. If it is, the
    /// stage is to be run again, unless the claim does not even bind its output: then the node is
    /// slashed, and routed around.
    pub fn audit(&mut self, run: TokenRun, stats: &mut GenStats) -> (out: Result<
        TokenRun,
        EngineError,
    >)
        requires
            old(self).wf(),
            run@.wf(old(self)@.n_stages),
            old(stats).has_room(),
            old(self)@.verifier.rng.has(2),
            run@.work matches WorkView::Claimed { claim, .. } && old(self)@.verifier.can_follow(
                claim,
            ),
        ensures
            final(self).wf(),
            ({
                let claim = run@.work->Claimed_claim;
                let output = run@.work->Claimed_output;
                let verifier = old(self)@.verifier;
                let stage = verifier.stage(claim.stage_id);
                &&& final(self)@ == old(self)@.decided(claim)
                &&& if !verifier.audits_next() {
                    &&& out matches Ok(next) && next@ == run@.advanced(old(self)@.n_stages, output)
                    &&& *final(stats) == *old(stats)
                } else if !claim.binds() {
                    &&& final(self)@.reroutes(run@, out)
                    &&& *final(stats) == old(stats).after_fail()
                } else if stage.takes(claim.inp) {
                    &&& out matches Ok(next) && next@ == (TokenView {
                        work: WorkView::Audit {
                            claim,
                            output,
                            pass: stage.pass(claim.inp, None, 0),
                        },
                        ..run@
                    }) && next@.work->Audit_pass.wf()
                    &&& *final(stats) == *old(stats)
                } else {
                    &&& out == Err::<TokenRun, EngineError>(
                        EngineError::Verify(
                            VerifyError::Model(
                                if claim.inp is Ids {
                                    ModelError::ExpectedHidden
                                } else {
                                    ModelError::ExpectedIds
                                },
                            ),
                        ),
                    )
                    &&& *final(stats) == *old(stats)
                }
            }),
    {
        let ghost view = run@;
        let TokenRun { session, client, stage, current, pipeline, excluded, work } = run;
        let (claim, output) = match work {
            Work::Claimed { claim, output } => (claim, output),
            _ => {
                return Err(EngineError::NoStage(stage));
            },
        };
        let base = TokenRun {
            session,
            client,
            stage,
            current,
            pipeline,
            excluded,
            work: Work::Ready,
        };
        match self.verifier.maybe_audit(&claim, &mut self.ledger) {
            Err(e) => Err(EngineError::Verify(e)),
            Ok(Audit::Settled(result)) => {
                if result.audited {
                    stats.audits = stats.audits + 1;
                    if !result.passed {
                        stats.audit_fails = stats.audit_fails + 1;
                        stats.reroutes = stats.reroutes + 1;
                        return self.reroute(base);
                    }
                }
                Ok(self.advance(base, output))
            },
            Ok(Audit::Rerun(pass)) => {
                let mut next: TokenRun = base;
                next.work = Work::Audit { claim, output, pass };
                Ok(next)
            },
        }
    }

    /// Takes in that the pass of an audit is over. A verifier that stands for other hardware
    /// compares with `disturbed` in place of what it computed. A node that is caught is slashed and
    /// routed around; otherwise the run goes on.
    pub fn end_audit(
        &mut self,
        run: TokenRun,
        disturbed: Option<Matrix>,
        stats: &mut GenStats,
    ) -> (out: Result<TokenRun, EngineError>)
        requires
            old(self).wf(),
            run@.wf(old(self)@.n_stages),
            old(stats).has_room(),
            run@.work matches WorkView::Audit { pass, .. } && pass.done(),
            old(self)@.verifier.hw_noise % 0x8000_0000_0000_0000 != 0 ==> disturbed is Some,
        ensures
            final(self).wf(),
            ({
                let claim = run@.work->Audit_claim;
                let output = run@.work->Audit_output;
                let recomputed = old(self)@.recomputed(
                    run@.work->Audit_pass,
                    optional_grid(disturbed),
                );
                &&& final(self)@ == old(self)@.judged(claim, recomputed)
                &&& if old(self)@.verifier.verdict(claim, recomputed).passed {
                    &&& out matches Ok(next) && next@ == run@.advanced(old(self)@.n_stages, output)
                    &&& *final(stats) == old(stats).after_pass()
                } else {
                    &&& final(self)@.reroutes(run@, out)
                    &&& *final(stats) == old(stats).after_fail()
                }
            }),
    {
        let TokenRun { session, client, stage, current, pipeline, excluded, work } = run;
        let (claim, output, pass) = match work {
            Work::Audit { claim, output, pass } => (claim, output, pass),
            _ => {
                return Err(EngineError::NoStage(stage));
            },
        };
        let base = TokenRun {
            session,
            client,
            stage,
            current,
            pipeline,
            excluded,
            work: Work::Ready,
        };
        let (computed, _caches) = pass.finish();
        let recomputed: Matrix = match (self.verifier.drifts(), disturbed) {
            (true, Some(m)) => m,
            _ => computed,
        };
        let result = self.verifier.conclude(&claim, &recomputed, &mut self.ledger);
        stats.audits = stats.audits + 1;
        if !result.passed {
            stats.audit_fails = stats.audit_fails + 1;
            stats.reroutes = stats.reroutes + 1;
            return self.reroute(base);
        }
        Ok(self.advance(base, output))
    }
}

/// The greedy choice: the first of the greatest logits of the last row.
pub fn greedy(logits: &Matrix) -> (token: usize)
    requires
        logits@.rows.len() > 0,
    ensures
        is_argmax(logits@.rows.last(), token as int),
{
    assert(logits@.rows.last() == logits.rows@.last()@);
    argmax(logits.rows[logits.rows.len() - 1].as_slice())
}

/// The sum of weights, from the first to the last.
pub open spec fn total_weight(weights: Seq<u64>) -> u64
    decreases weights.len(),
{
    if weights.len() == 0 {
        0
    } else {
        sum_of(total_weight(weights.drop_last()), weights.last())
    }
}

/// What is left of `start` once the weights were taken off it, from the first to the last.
pub open spec fn remainder(start: u64, weights: Seq<u64>) -> u64
    decreases weights.len(),
{
    if weights.len() == 0 {
        start
    } else {
        sum_of(remainder(start, weights.drop_last()), negated(weights.last()))
    }
}

/// Whether the weights up to and with `i` use `start` up.
pub open spec fn used_up(start: u64, weights: Seq<u64>, i: int) -> bool {
    double_le(remainder(start, weights.take(i + 1)), 0)
}

/// Whether `i` is where a share of `draw` of the total weight is reached for the first time, or the
/// last place if rounding never lets it be.
pub open spec fn is_picked(weights: Seq<u64>, draw: u64, i: int) -> bool {
    let start = product_of(draw, total_weight(weights));
    &&& 0 <= i < weights.len()
    &&& forall|j: int| 0 <= j < i ==> !#[trigger] used_up(start, weights, j)
    &&& used_up(start, weights, i) || i == weights.len() - 1
}

/// Picks a place at random, each with the chance that its weight has in the total. `draw` is the
/// random double of the unit interval, and all are bit patterns of doubles.
pub fn pick(weights: &Vec<u64>, draw: u64) -> (place: usize)
    requires
        weights@.len() > 0,
    ensures
        is_picked(weights@, draw, place as int),
{
    let mut total: u64 = 0;
    let mut i: usize = 0;
    assert(weights@.take(0) =~= Seq::empty());
    while i < weights.len()
        invariant
            i <= weights@.len(),
            total == total_weight(weights@.take(i as int)),
        decreases weights@.len() - i,
    {
        assert(weights@.take(i + 1).drop_last() =~= weights@.take(i as int));
        total = sum(total, weights[i]);
        i = i + 1;
    }
    assert(weights@.take(i as int) =~= weights@);
    let start: u64 = product(draw, total);
    let mut left: u64 = start;
    let mut place: usize = 0;
    while place < weights.len()
        invariant
            place <= weights@.len(),
            weights@.len() > 0,
            start == product_of(draw, total_weight(weights@)),
            left == remainder(start, weights@.take(place as int)),
            forall|j: int| 0 <= j < place ==> !#[trigger] used_up(start, weights@, j),
        decreases weights@.len() - place,
    {
        assert(weights@.take(place + 1).drop_last() =~= weights@.take(place as int));
        left = sum(left, negate(weights[place]));
        if at_most(left, 0) {
            assert(used_up(start, weights@, place as int));
            return place;
        }
        assert(!used_up(start, weights@, place as int));
        place = place + 1;
    }
    weights.len() - 1
}

/// A draw picks one place.
pub proof fn a_draw_picks_one_place(weights: Seq<u64>, draw: u64, a: int, b: int)
    requires
        is_picked(weights, draw, a),
        is_picked(weights, draw, b),
    ensures
        a == b,
{
}

/// A generation under way.
#[derive(Debug)]
pub struct Generation {
    pub max_tokens: usize,
    /// The bit pattern of the double-precision sampling temperature.
    pub temperature: u64,
    /// The prompt or the last token, on its way through the stages.
    pub run: TokenRun,
    /// The tokens that were picked.
    pub out_ids: Vec<usize>,
    pub stats: GenStats,
}

/// The contents of a generation.
#[verifier::ext_equal]
pub struct GenerationView {
    pub max_tokens: usize,
    pub temperature: u64,
    pub run: TokenView,
    pub out_ids: Seq<usize>,
    pub stats: GenStats,
}

impl View for Generation {
    type V = GenerationView;

    open spec fn view(&self) -> GenerationView {
        GenerationView {
            max_tokens: self.max_tokens,
            temperature: self.temperature,
            run: self.run@,
            out_ids: self.out_ids@,
            stats: self.stats,
        }
    }
}

impl GenerationView {
    /// Whether tokens are picked greedily.
    pub open spec fn is_greedy(self) -> bool {
        double_le(self.temperature, 0)
    }

    /// Whether the next token is to be picked.
    pub open spec fn awaits_token(self) -> bool {
        self.run.work is Done && self.out_ids.len() < self.max_tokens
    }

    /// Whether all tokens were picked and have gone through the stages.
    pub open spec fn is_over(self) -> bool {
        self.run.work is Done && self.out_ids.len() >= self.max_tokens
    }

    /// The generation once `token` was picked: it enters at the first stage again.
    pub open spec fn extended(self, token: usize) -> GenerationView {
        GenerationView {
            run: TokenView {
                stage: 0,
                current: ActivationView::Ids(seq![token]),
                excluded: Set::empty(),
                work: WorkView::Ready,
                ..self.run
            },
            out_ids: self.out_ids.push(token),
            ..self
        }
    }

    /// What the generation went through, with the counts of the network.
    pub open spec fn final_stats(self, network: NetworkReport) -> GenStats {
        GenStats { tokens: self.out_ids.len() as usize, network: Some(network), ..self.stats }
    }
}

impl<'w> Engine<'w> {
    /// Begins a generation of `max_tokens` tokens: a new session on the pipeline of lowest latency,
    /// which the encoded prompt is to enter. Fails if a stage has no provider, or if there is none.
    pub fn begin_generation(
        &mut self,
        prompt: &str,
        max_tokens: usize,
        client_id: &str,
        temperature: u64,
    ) -> (out: Result<Generation, EngineError>)
        requires
            old(self).wf(),
            old(self)@.session_counter < u64::MAX,
        ensures
            final(self).wf(),
            final(self)@ == (EngineView {
                session_counter: (old(self)@.session_counter + 1) as u64,
                ..old(self)@
            }),
            out is Ok <==> old(self)@.n_stages > 0 && old(self)@.all_covered(Set::empty()),
            out matches Ok(generation) ==> {
                let view = generation@;
                &&& view.run.wf(old(self)@.n_stages)
                &&& old(self)@.is_routed(Set::empty(), view.run.pipeline)
                &&& view == (GenerationView {
                    max_tokens,
                    temperature,
                    run: TokenView {
                        session: "sess-"@ + hex_of(old(self)@.session_counter as nat, 8),
                        client: client_id@,
                        stage: 0,
                        current: ActivationView::Ids(encode_of(prompt@)),
                        pipeline: view.run.pipeline,
                        excluded: Set::empty(),
                        work: WorkView::Ready,
                    },
                    out_ids: Seq::empty(),
                    stats: GenStats::blank(),
                })
            },
            out matches Err(e) ==> if old(self)@.n_stages == 0 {
                e == EngineError::NoLogits
            } else {
                e matches EngineError::Net(NetError::NoProvider(stage))
                    && old(self)@.first_uncovered(Set::empty(), stage)
            },
    {
        let session: String = self.next_session();
        if self.n_stages == 0 {
            return Err(EngineError::NoLogits);
        }
        let excluded: Vec<String> = Vec::new();
        assert(names_of(excluded@) =~= Set::empty());
        assert(self@.all_covered(Set::empty()) == old(self)@.all_covered(Set::empty())) by {
            let (a, b) = (self@, old(self)@);
            assert(a.router == b.router && a.ledger == b.ledger && a.n_stages == b.n_stages);
            assert forall|s: usize| s < a.n_stages implies covered(
                a.router,
                s,
                Set::empty(),
                a.ledger,
            ) == covered(b.router, s, Set::empty(), b.ledger) by {}
        }
        match self.assemble(&excluded) {
            Ok(pipeline) => {
                let run = TokenRun {
                    session,
                    client: client_id.to_owned(),
                    stage: 0,
                    current: Activation::Ids(encode(prompt)),
                    pipeline,
                    excluded,
                    work: Work::Ready,
                };
                Ok(
                    Generation {
                        max_tokens,
                        temperature,
                        run,
                        out_ids: Vec::new(),
                        stats: GenStats::default(),
                    },
                )
            },
            Err(e) => Err(e),
        }
    }

    /// Whether there is another draw for sampling.
    pub fn can_sample(&self) -> (ok: bool)
        ensures
            ok == self@.rng.has(2),
    {
        self.rng.position <= u64::MAX - 2
    }

    /// Samples a token by the next draw, each with the chance that its weight has in the total.
    pub fn sample(&mut self, weights: &Vec<u64>) -> (token: usize)
        requires
            old(self).wf(),
            old(self)@.rng.has(2),
            weights@.len() > 0,
        ensures
            final(self).wf(),
            is_picked(weights@, unit_double(old(self)@.rng.pair()), token as int),
            final(self)@ == (EngineView { rng: old(self)@.rng.after(2), ..old(self)@ }),
    {
        let draw: u64 = self.rng.next_double();
        pick(weights, draw)
    }

    /// Ends a generation: the text, the tokens and what it went through.
    pub fn finish_generation(&self, generation: Generation) -> (out: (String, Vec<usize>, GenStats))
        requires
            generation@.is_over(),
        ensures
            out.0@ == decode_of(generation@.out_ids),
            out.1@ == generation@.out_ids,
            out.2 == generation@.final_stats(self@.monitor.summary()),
    {
        let Generation { out_ids, stats, .. } = generation;
        let text: String = decode(out_ids.as_slice());
        let stats = GenStats {
            tokens: out_ids.len(),
            audits: stats.audits,
            audit_fails: stats.audit_fails,
            reroutes: stats.reroutes,
            network: Some(self.mon.report()),
        };
        (text, out_ids, stats)
    }
}

impl Generation {
    /// Whether tokens are picked greedily.
    pub fn is_greedy(&self) -> (yes: bool)
        ensures
            yes == self@.is_greedy(),
    {
        at_most(self.temperature, 0)
    }

    /// Whether all tokens were picked and have gone through the stages.
    pub fn is_over(&self) -> (yes: bool)
        ensures
            yes == self@.is_over(),
    {
        match &self.run.work {
            Work::Done(_) => self.out_ids.len() >= self.max_tokens,
            _ => false,
        }
    }

    /// Picks the next token and sends it to the first stage: the greedy choice, or `sampled` where
    /// the temperature asks for sampling. The pipeline stays, with its reroutes.
    pub fn next_token(self, sampled: Option<usize>) -> (next: Generation)
        requires
            self@.awaits_token(),
            self@.run.work->Done_0.rows.len() > 0,
            !self@.is_greedy() ==> sampled is Some && sampled->0
                < self@.run.work->Done_0.rows.last().len(),
        ensures
            self@.run.work->Done_0.rows.last().len() > 0 ==> next@.out_ids.last()
                < self@.run.work->Done_0.rows.last().len(),
            self@.is_greedy() ==> exists|token: usize|
                is_argmax(self@.run.work->Done_0.rows.last(), token as int) && next@
                    == #[trigger] self@.extended(token),
            !self@.is_greedy() ==> next@ == self@.extended(sampled->0),
    {
        let ghost view = self@;
        let greedily: bool = self.is_greedy();
        let Generation { max_tokens, temperature, run, out_ids, stats } = self;
        let TokenRun { session, client, pipeline, work, .. } = run;
        let mut out_ids: Vec<usize> = out_ids;
        let token: usize = match (greedily, sampled) {
            (false, Some(token)) => token,
            _ => match &work {
                Work::Done(logits) => greedy(logits),
                _ => 0,
            },
        };
        out_ids.push(token);
        let mut ids: Vec<usize> = Vec::new();
        ids.push(token);
        assert(ids@ =~= seq![token]);
        let excluded: Vec<String> = Vec::new();
        assert(names_of(excluded@) =~= Set::empty());
        let run = TokenRun {
            session,
            client,
            stage: 0,
            current: Activation::Ids(ids),
            pipeline,
            excluded,
            work: Work::Ready,
        };
        let next = Generation { max_tokens, temperature, run, out_ids, stats };
        assert(next@ == view.extended(token));
        next
    }
}

/// How many stages of a token have been entered.
pub open spec fn progress(run: TokenView) -> int {
    if run.work is Ready {
        run.stage as int
    } else {
        run.stage + 1
    }
}

/// Whether the hops that were counted since there were `start` of them are exactly those of the
/// generation: one for every stage that a token entered, and one more for every reroute.
pub open spec fn accounted(start: int, hops: u64, n_stages: usize, generation: GenerationView) -> bool {
    hops == start + generation.stats.reroutes + generation.out_ids.len() * n_stages + progress(
        generation.run,
    )
}

/// Every step of a generation keeps its hops accounted for: entering a stage, ending it, going on
/// behind it or around a node that was caught, and picking the next token. When the generation is
/// over, there was one hop for each stage of the prompt and of every token, and one more for each
/// reroute.
pub proof fn hops_are_accounted_for(
    start: int,
    engine: EngineView,
    generation: GenerationView,
    work: WorkView,
    output: Grid,
    pipeline: Seq<Seq<char>>,
    token: usize,
)
    requires
        accounted(start, engine.monitor.hops, engine.n_stages, generation),
        generation.run.wf(engine.n_stages),
        engine.monitor.hops < u64::MAX,
        generation.stats.has_room(),
        !(work is Ready),
    ensures
        generation.run.work is Ready && engine.nodes.contains_key(generation.run.node())
            ==> accounted(
            start,
            engine.entered(generation.run).monitor.hops,
            engine.n_stages,
            GenerationView { run: TokenView { work, ..generation.run }, ..generation },
        ),
        !(generation.run.work is Ready) ==> {
            &&& accounted(
                start,
                engine.monitor.hops,
                engine.n_stages,
                GenerationView { run: TokenView { work, ..generation.run }, ..generation },
            )
            &&& accounted(
                start,
                engine.monitor.hops,
                engine.n_stages,
                GenerationView {
                    run: generation.run.advanced(engine.n_stages, output),
                    ..generation
                },
            )
            &&& accounted(
                start,
                engine.monitor.hops,
                engine.n_stages,
                GenerationView {
                    run: generation.run.rerouted(pipeline),
                    stats: generation.stats.after_fail(),
                    ..generation
                },
            )
        },
        generation.run.work is Done && generation.run.stage + 1 == engine.n_stages ==> {
            &&& engine.monitor.hops == start + (generation.out_ids.len() + 1) * engine.n_stages
                + generation.stats.reroutes
            &&& accounted(
                start,
                engine.monitor.hops,
                engine.n_stages,
                generation.extended(token),
            )
        },
{
    let n = engine.n_stages as int;
    let count = generation.out_ids.len() as int;
    assert((count + 1) * n == count * n + n) by (nonlinear_arith);
}

/// A pipeline that was assembled around nodes that were caught does not come back to them, nor to
/// anyone who is blocked.
pub proof fn reroutes_avoid_the_caught(
    engine: EngineView,
    exclude: Set<Seq<char>>,
    pipeline: Seq<Seq<char>>,
    s: int,
)
    requires
        engine.is_routed(exclude, pipeline),
        0 <= s < pipeline.len(),
    ensures
        !exclude.contains(pipeline[s]),
        engine.ledger.access_of(pipeline[s]).tier != Tier::Blocked,
{
    assert(serves(engine.router, s as usize, exclude, engine.ledger, pipeline[s]));
}

/// A worker that failed an audit, or that broke its commitment, is on no pipeline that is assembled
/// afterwards, whoever else is excluded.
pub proof fn the_caught_serve_no_more(
    engine: EngineView,
    claim: ExecutionView,
    recomputed: Grid,
    exclude: Set<Seq<char>>,
    pipeline: Seq<Seq<char>>,
    s: int,
)
    requires
        0 <= s < pipeline.len(),
        ({
            ||| !engine.verifier.verdict(claim, recomputed).passed && engine.judged(
                claim,
                recomputed,
            ).is_routed(exclude, pipeline)
            ||| engine.verifier.audits_next() && !claim.binds() && engine.decided(claim).is_routed(
                exclude,
                pipeline,
            )
        }),
    ensures
        pipeline[s] != claim.worker,
{
    let after = EngineView { ledger: engine.ledger.slashed(claim.worker), ..engine };
    assert(serves(after.router, s as usize, exclude, after.ledger, pipeline[s]));
    if engine.ledger.accounts.contains_key(claim.worker) {
        slashing_takes_everything(engine.ledger, claim.worker);
    }
}

/// A generation picks no more tokens than it was asked for, one at a time, so that it has exactly
/// as many when it is over.
pub proof fn generations_pick_what_was_asked(generation: GenerationView, token: usize)
    requires
        generation.out_ids.len() <= generation.max_tokens,
    ensures
        generation.awaits_token() ==> {
            let next = generation.extended(token);
            &&& next.out_ids == generation.out_ids.push(token)
            &&& next.out_ids.len() <= next.max_tokens
        },
        generation.is_over() ==> generation.out_ids.len() == generation.max_tokens,
{
}

/// Whether every failed audit was followed by one reroute, and there were no more of them than
/// audits.
pub open spec fn tallied(stats: GenStats) -> bool {
    stats.reroutes == stats.audit_fails && stats.audit_fails <= stats.audits
}

/// From its beginning to its end a generation is rerouted once for each audit that was failed, and
/// fails no more audits than there were.
pub proof fn every_failed_audit_reroutes_once(
    stats: GenStats,
    generation: GenerationView,
    network: NetworkReport,
)
    requires
        tallied(stats),
        stats.has_room(),
        generation.stats == stats,
    ensures
        tallied(GenStats::blank()),
        tallied(stats.after_pass()),
        tallied(stats.after_fail()),
        tallied(generation.final_stats(network)),
{
}

/// Whether all tokens are below the size of the vocabulary.
pub open spec fn in_vocabulary(ids: Seq<usize>, vocab: nat) -> bool {
    forall|i: int| 0 <= i < ids.len() ==> #[trigger] ids[i] < vocab
}

/// Every token that is picked from the logits of the last stage is in the vocabulary: a greedy
/// choice, and a place that is drawn by weights, one for each logit. The logits are what the last
/// stage computed, or of the same shape where its node tampers.
pub proof fn generated_tokens_are_in_the_vocabulary(
    stage: Stage,
    input: ActivationView,
    caches: Option<Seq<CacheView>>,
    base_pos: usize,
    replies: Seq<ReplyView>,
    generation: GenerationView,
    token: usize,
    weights: Seq<u64>,
    draw: u64,
)
    requires
        stage.admits(input, caches, base_pos),
        stage.takes(input),
        stage.owns_head(),
        stage.weights().tok_emb@.rows.len() > 0,
        input.tokens() > 0,
        accepts_all(stage.pass(input, caches, base_pos), replies),
        replied(stage.pass(input, caches, base_pos), replies).task matches Task::Done { out }
            && generation.run.work is Done && same_shape(
            generation.run.work->Done_0,
            out,
        ),
        in_vocabulary(generation.out_ids, stage.weights().tok_emb@.rows.len()),
        ({
            let row = generation.run.work->Done_0.rows.last();
            ||| is_argmax(row, token as int)
            ||| weights.len() == row.len() && is_picked(weights, draw, token as int)
        }),
    ensures
        token < stage.weights().tok_emb@.rows.len(),
        in_vocabulary(
            generation.extended(token).out_ids,
            stage.weights().tok_emb@.rows.len(),
        ),
{
    outputs_have_one_row_per_token(stage, input, caches, base_pos, replies);
    let out = stream_of(replied(stage.pass(input, caches, base_pos), replies).task);
    let logits = generation.run.work->Done_0;
    let n = logits.rows.len();
    assert(logits.rows[n - 1].len() == out.rows[n - 1].len());
    assert(out.rows[n - 1].len() == out.cols);
}

/// Every reroute of a token excludes a node that was not excluded before, so that a token is
/// rerouted at most once for each node.
pub proof fn every_reroute_excludes_another_node(
    engine: EngineView,
    run: TokenView,
    pipeline: Seq<Seq<char>>,
)
    requires
        run.wf(engine.n_stages),
        run.excluded.finite(),
        run.excluded == Set::<Seq<char>>::empty() || engine.is_routed(run.excluded, run.pipeline),
    ensures
        run.rerouted(pipeline).excluded.finite(),
        run.rerouted(pipeline).excluded.len() == run.excluded.len() + 1,
{
    if run.excluded != Set::<Seq<char>>::empty() {
        reroutes_avoid_the_caught(engine, run.excluded, run.pipeline, run.stage as int);
    }
}

/// What hops on from a stage is one row of the model's width for each token that entered it, four
/// bytes for each entry: its size depends neither on the context that the caches hold nor on the
/// position of the tokens.
pub proof fn hops_do_not_grow_with_the_context(
    stage: Stage,
    input: ActivationView,
    caches: Option<Seq<CacheView>>,
    base_pos: usize,
    replies: Seq<ReplyView>,
)
    requires
        stage.admits(input, caches, base_pos),
        stage.takes(input),
        !stage.owns_head(),
        accepts_all(stage.pass(input, caches, base_pos), replies),
    ensures
        payload(
            ActivationView::Hidden(
                stream_of(replied(stage.pass(input, caches, base_pos), replies).task),
            ),
        ) == input.tokens() * stage.config().d_model * 4,
{
    outputs_have_one_row_per_token(stage, input, caches, base_pos, replies);
}

/// The steps of a generation: the prompt, then one token after the other.
pub open spec fn steps_of(prompt: Seq<usize>, out_ids: Seq<usize>) -> Seq<ActivationView> {
    Seq::new(
        out_ids.len() + 1,
        |i: int|
            if i == 0 {
                ActivationView::Ids(prompt)
            } else {
                ActivationView::Ids(seq![out_ids[i - 1]])
            },
    )
}

/// The logits that come out of a pipeline for the last step of a generation, where every stage works
/// online with the backend `k`.
pub open spec fn logits_after(
    k: Kernels,
    cfg: ModelConfig,
    w: &Weights,
    cuts: Seq<usize>,
    prompt: Seq<usize>,
    out_ids: Seq<usize>,
) -> Grid {
    streamed(
        k,
        cfg,
        w,
        cuts,
        steps_of(prompt, out_ids),
        (cuts.len() - 1) as nat,
    ).last()->Hidden_0
}

/// Whether each token is the greedy choice from the logits that the pipeline gave for those before
/// it.
pub open spec fn picked_greedily(
    k: Kernels,
    cfg: ModelConfig,
    w: &Weights,
    cuts: Seq<usize>,
    prompt: Seq<usize>,
    out_ids: Seq<usize>,
) -> bool {
    forall|i: int|
        0 <= i < out_ids.len() ==> is_argmax(
            logits_after(k, cfg, w, cuts, prompt, #[trigger] out_ids.take(i)).rows.last(),
            out_ids[i] as int,
        )
}

/// A generation that picks greedily from the logits of its pipeline goes on picking greedily: it
/// begins so, and the next greedy choice keeps it so.
pub proof fn greedy_choices_go_on(
    k: Kernels,
    cfg: ModelConfig,
    w: &Weights,
    cuts: Seq<usize>,
    prompt: Seq<usize>,
    generation: GenerationView,
    token: usize,
)
    requires
        picked_greedily(k, cfg, w, cuts, prompt, generation.out_ids),
        generation.run.work is Done,
        generation.run.work->Done_0 == logits_after(k, cfg, w, cuts, prompt, generation.out_ids),
        is_argmax(generation.run.work->Done_0.rows.last(), token as int),
    ensures
        picked_greedily(k, cfg, w, cuts, prompt, Seq::empty()),
        picked_greedily(k, cfg, w, cuts, prompt, generation.extended(token).out_ids),
        steps_of(prompt, generation.extended(token).out_ids) == steps_of(
            prompt,
            generation.out_ids,
        ).push(generation.extended(token).run.current),
{
    let before = generation.out_ids;
    let after = before.push(token);
    assert forall|i: int| 0 <= i < after.len() implies is_argmax(
        logits_after(k, cfg, w, cuts, prompt, #[trigger] after.take(i)).rows.last(),
        after[i] as int,
    ) by {
        if i < before.len() {
            assert(after.take(i) =~= before.take(i));
        } else {
            assert(after.take(i) =~= before);
        }
    }
    assert(steps_of(prompt, after) =~= steps_of(prompt, before).push(
        ActivationView::Ids(seq![token]),
    ));
}

/// The steps of a generation, taken together, are the prompt and the tokens behind it.
proof fn lemma_steps(prompt: Seq<usize>, out_ids: Seq<usize>)
    ensures
        concatenated(steps_of(prompt, out_ids)) == ActivationView::Ids(prompt + out_ids),
    decreases out_ids.len(),
{
    let steps = steps_of(prompt, out_ids);
    if out_ids.len() == 0 {
        assert(prompt + out_ids =~= prompt);
    } else {
        let before = out_ids.drop_last();
        lemma_steps(prompt, before);
        assert(steps.drop_last() =~= steps_of(prompt, before));
        assert((prompt + before) + seq![out_ids.last()] =~= prompt + out_ids);
    }
}

/// Wherever a pipeline is cut, the next token is picked from the logits that one stateless run of
/// the whole model has for the prompt and the tokens behind it.
proof fn lemma_logits(
    k: Kernels,
    cfg: ModelConfig,
    w: &Weights,
    cuts: Seq<usize>,
    prompt: Seq<usize>,
    out_ids: Seq<usize>,
)
    requires
        are_cuts(cuts, cfg.n_layer),
        all_have_layers(cuts),
        prompt.len() > 0,
        replayable(
            k,
            Stage::over(cfg, w, 0, cfg.n_layer),
            ActivationView::Ids(prompt + out_ids),
        ),
    ensures
        logits_after(k, cfg, w, cuts, prompt, out_ids).rows.last() == stateless_rows(
            k,
            Stage::over(cfg, w, 0, cfg.n_layer),
            ActivationView::Ids(prompt + out_ids),
        ).last(),
{
    let steps = steps_of(prompt, out_ids);
    let n = (cuts.len() - 1) as nat;
    let outs = streamed(k, cfg, w, cuts, steps, n);
    lemma_steps(prompt, out_ids);
    pipelines_equal_the_stateless_run(k, cfg, w, cuts, steps, n);
    cuts_do_not_change_the_logits(k, cfg, w, cuts, prompt + out_ids);
    let last = outs[outs.len() - 1];
    assert(last.tokens() == steps[steps.len() - 1].tokens());
    assert(outs[0].same_kind(last));
    let all = concatenated(outs)->Hidden_0.rows;
    if outs.len() > 1 {
        let before = concatenated(outs.drop_last());
        assert(concatenated(outs) == before.followed_by(last));
        assert(before is Hidden) by {
            if before is Ids {
                assert(before.followed_by(last) == before);
            }
        }
        assert(all == before->Hidden_0.rows + last->Hidden_0.rows);
    }
}

/// Two greedy generations from one prompt give the same tokens, whichever pipelines they go through
/// and wherever those are cut, as long as the backends of all stages compute in the same way.
pub proof fn greedy_generations_are_alike(
    k: Kernels,
    cfg: ModelConfig,
    w: &Weights,
    cuts: Seq<usize>,
    other_cuts: Seq<usize>,
    prompt: Seq<usize>,
    out_ids: Seq<usize>,
    other_ids: Seq<usize>,
)
    requires
        are_cuts(cuts, cfg.n_layer),
        are_cuts(other_cuts, cfg.n_layer),
        all_have_layers(cuts),
        all_have_layers(other_cuts),
        prompt.len() > 0,
        out_ids.len() == other_ids.len(),
        replayable(
            k,
            Stage::over(cfg, w, 0, cfg.n_layer),
            ActivationView::Ids(prompt + out_ids),
        ),
        picked_greedily(k, cfg, w, cuts, prompt, out_ids),
        picked_greedily(k, cfg, w, other_cuts, prompt, other_ids),
    ensures
        out_ids == other_ids,
        decode_of(out_ids) == decode_of(other_ids),
    decreases out_ids.len(),
{
    if out_ids.len() > 0 {
        let last = out_ids.len() - 1;
        let (before, other_before) = (out_ids.drop_last(), other_ids.drop_last());
        assert(before =~= out_ids.take(last));
        assert(other_before =~= other_ids.take(last));
        lemma_picked_before(k, cfg, w, cuts, prompt, out_ids);
        lemma_picked_before(k, cfg, w, other_cuts, prompt, other_ids);
        let whole = Stage::over(cfg, w, 0, cfg.n_layer);
        let ids = prompt + before;
        assert(replayable(k, whole, ActivationView::Ids(ids))) by {
            assert forall|i: int| 0 <= i < ids.len() implies #[trigger] ids[i]
                < whole.weights().tok_emb@.rows.len() by {
                assert(ids[i] == (prompt + out_ids)[i]);
            }
        }
        greedy_generations_are_alike(
            k,
            cfg,
            w,
            cuts,
            other_cuts,
            prompt,
            before,
            other_before,
        );
        lemma_logits(k, cfg, w, cuts, prompt, before);
        lemma_logits(k, cfg, w, other_cuts, prompt, before);
        the_greedy_choice_is_unique(
            stateless_rows(k, whole, ActivationView::Ids(ids)).last(),
            out_ids[last] as int,
            other_ids[last] as int,
        );
        assert(out_ids =~= before.push(out_ids[last]));
        assert(other_ids =~= other_before.push(other_ids[last]));
    } else {
        assert(out_ids =~= other_ids);
    }
}

/// The tokens up to the last one were picked in the same way.
proof fn lemma_picked_before(
    k: Kernels,
    cfg: ModelConfig,
    w: &Weights,
    cuts: Seq<usize>,
    prompt: Seq<usize>,
    out_ids: Seq<usize>,
)
    requires
        out_ids.len() > 0,
        picked_greedily(k, cfg, w, cuts, prompt, out_ids),
    ensures
        picked_greedily(k, cfg, w, cuts, prompt, out_ids.drop_last()),
{
    let before = out_ids.drop_last();
    assert forall|i: int| 0 <= i < before.len() implies is_argmax(
        logits_after(k, cfg, w, cuts, prompt, #[trigger] before.take(i)).rows.last(),
        before[i] as int,
    ) by {
        assert(before.take(i) =~= out_ids.take(i));
    }
}

/// What one stage gives out is what the next runs on: the same rows, at the next stage, on the same pipeline
/// and for the same session. The output of the last stage is the logits.
pub proof fn outputs_go_on_to_the_next_stage(run: TokenView, n_stages: usize, output: Grid)
    requires
        run.stage < n_stages,
    ensures
        ({
            let next = run.advanced(n_stages, output);
            &&& run.stage + 1 < n_stages ==> {
                &&& next.stage == run.stage + 1
                &&& next.current is Hidden
                &&& next.current->Hidden_0 == output
                &&& next.work is Ready
            }
            &&& run.stage + 1 == n_stages ==> {
                &&& next.work is Done
                &&& next.work->Done_0 == output
                &&& next.stage == run.stage
            }
            &&& next.session == run.session
            &&& next.client == run.client
            &&& next.pipeline == run.pipeline
            &&& next.excluded == run.excluded
        }),
{
}

/// A node that was caught is left out, and the same input enters the same stage again on another pipeline.
pub proof fn reroutes_repeat_the_stage(run: TokenView, n_stages: usize, pipeline: Seq<Seq<char>>)
    requires
        run.wf(n_stages),
    ensures
        ({
            let next = run.rerouted(pipeline);
            &&& next.stage == run.stage
            &&& next.current == run.current
            &&& next.work is Ready
            &&& next.pipeline == pipeline
            &&& next.excluded.contains(run.pipeline[run.stage as int])
            &&& forall|id: Seq<char>|
                id != run.pipeline[run.stage as int] ==> next.excluded.contains(id)
                    == run.excluded.contains(id)
            &&& next.session == run.session
            &&& next.client == run.client
        }),
{
}

/// Entering a stage meters one hop, of four bytes for each id or entry, over the link of the stage's node,
/// and begins the step on that node and no other.
pub proof fn hops_are_metered(engine: EngineView, run: TokenView, other: Seq<char>)
    requires
        engine.can_enter(run),
        engine.nodes.contains_key(run.node()),
    ensures
        ({
            let after = engine.entered(run);
            let bytes = match run.current {
                ActivationView::Ids(ids) => 4 * ids.len(),
                ActivationView::Hidden(h) => 4 * (h.rows.len() * h.cols),
            };
            &&& after.monitor.hops == engine.monitor.hops + 1
            &&& after.monitor.total_bytes == engine.monitor.total_bytes + bytes
            &&& after.monitor.hop_bytes.len() == engine.monitor.hop_bytes.len() + 1
            &&& after.monitor.hop_bytes.last() == bytes
            &&& after.monitor.kv_ship_bytes_avoided == engine.monitor.kv_ship_bytes_avoided
            &&& other != run.pipeline[run.stage as int] && engine.nodes.contains_key(other)
                ==> after.nodes[other] == engine.nodes[other]
            &&& after.ledger == engine.ledger
            &&& after.verifier == engine.verifier
        }),
{
}

/// A stage that ended is paid for: its node is credited, and the client charged, with two operations for each
/// parameter and token, and the caches that stayed where they are are counted.
pub proof fn work_is_credited_and_charged(engine: EngineView, run: TokenView, output: Grid)
    requires
        engine.can_end(run),
        engine.nodes[run.node()].auditable(run.work->Stage_0, output),
        run.node() != run.client,
        engine.ledger.accounts.contains_key(run.node()),
        engine.ledger.accounts.contains_key(run.client),
    ensures
        ({
            let step = run.work->Stage_0;
            let stage = engine.nodes[run.node()].hosted[step.stage_id].stage;
            let work = 2 * stage.params() * step.input.tokens();
            let after = engine.ended(run, output);
            let (node, client) = (run.pipeline[run.stage as int], run.client);
            let (was, is) = (engine.ledger.accounts, after.ledger.accounts);
            &&& was[node].seeded + work <= u128::MAX ==> is[node].seeded == was[node].seeded + work
            &&& was[client].leeched + work <= u128::MAX ==> is[client].leeched == was[client].leeched
                + work
            &&& is[node].leeched == was[node].leeched
            &&& is[client].seeded == was[client].seeded
            &&& after.monitor.kv_ship_bytes_avoided == engine.monitor.kv_ship_bytes_avoided
                + bytes_of(step.pass.caches->0)
            &&& after.monitor.hops == engine.monitor.hops
            &&& after.monitor.total_bytes == engine.monitor.total_bytes
            &&& after.nodes[node].flops_served == engine.nodes[node].flops_served + work
        }),
{
}

/// Sessions of one engine have names of their own.
pub proof fn session_names_differ(a: u64, b: u64)
    requires
        "sess-"@ + hex_of(a as nat, 8) == "sess-"@ + hex_of(b as nat, 8),
    ensures
        a == b,
{
    let (x, y) = (hex_of(a as nat, 8), hex_of(b as nat, 8));
    let n = "sess-"@.len() as int;
    assert(("sess-"@ + x).skip(n) =~= x);
    assert(("sess-"@ + y).skip(n) =~= y);
    numerals_stand_for_their_number(a as nat, 16);
    padding_keeps_the_number(numeral(a as nat, 16), 8, 16);
    numerals_stand_for_their_number(b as nat, 16);
    padding_keeps_the_number(numeral(b as nat, 16), 8, 16);
}

/// The sum of whole parts.
pub open spec fn sum_of_parts(parts: Seq<nat>) -> nat
    decreases parts.len(),
{
    if parts.len() == 0 {
        0
    } else {
        sum_of_parts(parts.drop_last()) + parts.last()
    }
}

/// Whether each weight is a whole number of parts, where one part is `pow2(scale)` units.
pub open spec fn in_parts(weights: Seq<u64>, parts: Seq<nat>, scale: nat) -> bool {
    &&& weights.len() == parts.len()
    &&& scale <= 1900
    &&& forall|j: int|
        0 <= j < weights.len() ==> (#[trigger] weights[j]) < DOUBLE_INFINITY && magnitude(weights[j])
            == parts[j] * pow2(scale)
}

/// So many parts are far from the largest double.
proof fn lemma_parts_fit(n: nat, scale: nat)
    requires
        n <= 0x20_0000_0000_0000,
        scale <= 1900,
    ensures
        n * pow2(scale) <= pow2(2000),
{
    vstd::arithmetic::power2::lemma2_to64_rest();
    lemma_pow2_adds(53, scale);
    lemma_pow2_split(scale + 53, 2000);
    assert(n * pow2(scale) <= 0x20_0000_0000_0000 * pow2(scale)) by (nonlinear_arith)
        requires
            n <= 0x20_0000_0000_0000,
    ;
}

/// Weights in parts add up exactly.
proof fn lemma_total_weight(weights: Seq<u64>, parts: Seq<nat>, scale: nat)
    requires
        in_parts(weights, parts, scale),
        sum_of_parts(parts) <= 0x20_0000_0000_0000,
    ensures
        total_weight(weights) < DOUBLE_INFINITY,
        magnitude(total_weight(weights)) == sum_of_parts(parts) * pow2(scale),
    decreases weights.len(),
{
    if weights.len() == 0 {
        assert(magnitude(0) == 0);
    } else {
        let (w, p) = (weights.drop_last(), parts.drop_last());
        lemma_total_weight(w, p, scale);
        assert(weights.last() == weights[weights.len() - 1]);
        let (a, b) = (sum_of_parts(p), parts.last());
        assert(a * pow2(scale) + b * pow2(scale) == (a + b) * pow2(scale)) by (nonlinear_arith);
        lemma_parts_fit(a + b, scale);
        lemma_sum(total_weight(w), weights.last());
        lemma_near_exact(a + b, scale);
    }
}

/// Whole parts are taken off exactly.
proof fn lemma_taken_off(start: u64, n: nat, scale: nat)
    requires
        start < DOUBLE_INFINITY,
        scale <= 1900,
        magnitude(start) <= 0x20_0000_0000_0000 * pow2(scale),
        n * pow2(scale) <= magnitude(start),
    ensures
        ({
            let left = (magnitude(start) - n * pow2(scale)) as nat;
            &&& nearest_double(left) < DOUBLE_INFINITY
            &&& near(left) == left
        }),
{
    let (v, e) = lemma_bits(start);
    let m = magnitude(start);
    let left = (m - n * pow2(scale)) as nat;
    lemma_parts_fit(0x20_0000_0000_0000, scale);
    lemma_pow2_pos(scale);
    lemma_pow2_pos(e);
    if e <= scale {
        lemma_pow2_adds((scale - e) as nat, e);
        let c = n * pow2((scale - e) as nat);
        assert(n * pow2(scale) == c * pow2(e)) by (nonlinear_arith)
            requires
                pow2(scale) == pow2((scale - e) as nat) * pow2(e),
                c == n * pow2((scale - e) as nat),
        ;
        assert(c <= v) by (nonlinear_arith)
            requires
                c * pow2(e) <= v * pow2(e),
                pow2(e) > 0,
        ;
        assert(left == (v - c) * pow2(e)) by (nonlinear_arith)
            requires
                left == v * pow2(e) - c * pow2(e),
        ;
        lemma_near_exact((v - c) as nat, e);
    } else {
        lemma_pow2_adds((e - scale) as nat, scale);
        let q = v * pow2((e - scale) as nat);
        assert(m == q * pow2(scale)) by (nonlinear_arith)
            requires
                m == v * pow2(e),
                pow2(e) == pow2((e - scale) as nat) * pow2(scale),
                q == v * pow2((e - scale) as nat),
        ;
        assert(q <= 0x20_0000_0000_0000) by (nonlinear_arith)
            requires
                q * pow2(scale) <= 0x20_0000_0000_0000 * pow2(scale),
                pow2(scale) > 0,
        ;
        assert(n <= q) by (nonlinear_arith)
            requires
                n * pow2(scale) <= q * pow2(scale),
                pow2(scale) > 0,
        ;
        assert(left == (q - n) * pow2(scale)) by (nonlinear_arith)
            requires
                left == q * pow2(scale) - n * pow2(scale),
        ;
        lemma_near_exact((q - n) as nat, scale);
    }
    lemma_near(left);
}

/// What is left of `start` behind some weights, as long as it was not used up before the last of them.
proof fn lemma_left(start: u64, weights: Seq<u64>, parts: Seq<nat>, scale: nat)
    requires
        in_parts(weights, parts, scale),
        start < DOUBLE_INFINITY,
        magnitude(start) <= 0x20_0000_0000_0000 * pow2(scale),
        weights.len() > 1 ==> sum_of_parts(parts.drop_last()) * pow2(scale) < magnitude(start),
    ensures
        ({
            let left = remainder(start, weights);
            let used = sum_of_parts(parts) * pow2(scale);
            &&& used < magnitude(start) || weights.len() == 0 ==> left < DOUBLE_INFINITY
                && magnitude(left) == magnitude(start) - used
            &&& used >= magnitude(start) && weights.len() > 0 ==> double_le(left, 0)
        }),
    decreases weights.len(),
{
    if weights.len() == 0 {
        assert(0 * pow2(scale) == 0);
    } else {
        let (w, p) = (weights.drop_last(), parts.drop_last());
        let (a, b) = (sum_of_parts(p), parts.last());
        let last = weights.last();
        assert(last == weights[weights.len() - 1]);
        if w.len() > 1 {
            let c = sum_of_parts(p.drop_last());
            assert(c * pow2(scale) <= a * pow2(scale)) by (nonlinear_arith)
                requires
                    c <= a,
            ;
        }
        lemma_left(start, w, p, scale);
        let left = remainder(start, w);
        assert(magnitude(left) == magnitude(start) - a * pow2(scale));
        assert(a * pow2(scale) + b * pow2(scale) == (a + b) * pow2(scale)) by (nonlinear_arith);
        let d = magnitude(start) - (a + b) * pow2(scale);
        let off = negated(last);
        assert(off % 0x8000_0000_0000_0000 == last);
        assert(last % 0x8000_0000_0000_0000 == last);
        assert(magnitude(off) == magnitude(last));
        assert(left % 0x8000_0000_0000_0000 == left);
        if is_zero(left) && is_zero(off) {
            assert(magnitude(left) == 0 && magnitude(last) == 0);
        } else {
            assert(remainder(start, weights) == nearest_signed(d));
            if d >= 0 {
                lemma_taken_off(start, a + b, scale);
                lemma_zero(d as nat);
            }
        }
    }
}

/// While the start is not used up, the weights so far are less than it.
proof fn lemma_not_used_up(start: u64, weights: Seq<u64>, parts: Seq<nat>, scale: nat, n: int)
    requires
        in_parts(weights, parts, scale),
        start < DOUBLE_INFINITY,
        magnitude(start) <= 0x20_0000_0000_0000 * pow2(scale),
        0 <= n <= weights.len(),
        forall|j: int| 0 <= j < n ==> !#[trigger] used_up(start, weights, j),
    ensures
        n > 0 ==> sum_of_parts(parts.take(n)) * pow2(scale) < magnitude(start),
    decreases n,
{
    if n > 0 {
        lemma_not_used_up(start, weights, parts, scale, n - 1);
        let (w, p) = (weights.take(n), parts.take(n));
        assert(p.drop_last() =~= parts.take(n - 1));
        assert forall|j: int| 0 <= j < w.len() implies (#[trigger] w[j]) < DOUBLE_INFINITY
            && magnitude(w[j]) == p[j] * pow2(scale) by {
            assert(w[j] == weights[j]);
        }
        lemma_left(start, w, p, scale);
        assert(!used_up(start, weights, n - 1));
    }
}

/// Which place a draw picks: the draw's share of the total weight lies behind the weights in front of that
/// place, and not behind its own. So each place is picked by as large a part of the draws as its weight is of
/// the total. This is of weights that add up without rounding: whole numbers of a common part, of which the
/// total is no more than what a double can count.
pub proof fn places_are_picked_by_their_weight(
    weights: Seq<u64>,
    parts: Seq<nat>,
    scale: nat,
    draw: u64,
    i: int,
)
    requires
        in_parts(weights, parts, scale),
        sum_of_parts(parts) <= 0x20_0000_0000_0000,
        draw <= 0x3ff0_0000_0000_0000,
        is_picked(weights, draw, i),
    ensures
        magnitude(total_weight(weights)) == sum_of_parts(parts) * pow2(scale),
        ({
            let share = nearest_ratio(
                magnitude(draw) * (sum_of_parts(parts) * pow2(scale)),
                pow2(1074),
            );
            &&& i > 0 ==> sum_of_parts(parts.take(i)) * pow2(scale) < magnitude(share)
            &&& magnitude(share) <= sum_of_parts(parts.take(i + 1)) * pow2(scale)
        }),
{
    let all = sum_of_parts(parts) * pow2(scale);
    lemma_total_weight(weights, parts, scale);
    let total = total_weight(weights);
    let start = product_of(draw, total);
    lemma_parts_fit(sum_of_parts(parts), scale);
    lemma_near_exact(sum_of_parts(parts), scale);
    lemma_near(all);
    vstd::arithmetic::power2::lemma2_to64();
    vstd::arithmetic::power2::lemma2_to64_rest();
    let one = 0x3ff0_0000_0000_0000u64;
    lemma_pow2_adds(52, 1022);
    assert(magnitude(one) == pow2(1074));
    lemma_magnitudes_ordered(draw, one);
    lemma_pow2_pos(1074);
    let m = magnitude(draw);
    assert((m * all) * 1 <= all * pow2(1074)) by (nonlinear_arith)
        requires
            m <= pow2(1074),
    ;
    lemma_rounded_ordered(m * all, pow2(1074), all, 1, 0);
    assert(start <= nearest_double(all));
    lemma_magnitudes_ordered(start, nearest_double(all));
    assert(all <= 0x20_0000_0000_0000 * pow2(scale)) by (nonlinear_arith)
        requires
            all == sum_of_parts(parts) * pow2(scale),
            sum_of_parts(parts) <= 0x20_0000_0000_0000,
    ;
    lemma_not_used_up(start, weights, parts, scale, i);
    if i == weights.len() - 1 {
        assert(parts.take(i + 1) =~= parts);
    } else {
        let (w, p) = (weights.take(i + 1), parts.take(i + 1));
        assert(p.drop_last() =~= parts.take(i));
        assert forall|j: int| 0 <= j < w.len() implies (#[trigger] w[j]) < DOUBLE_INFINITY
            && magnitude(w[j]) == p[j] * pow2(scale) by {
            assert(w[j] == weights[j]);
        }
        lemma_left(start, w, p, scale);
        assert(used_up(start, weights, i));
        assert(magnitude(0) == 0);
    }
}

} // verus!
