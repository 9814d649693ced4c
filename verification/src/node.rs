//! A peer in the swarm.
//!
//! A node hosts stages and keeps their caches, for each session, as long as the session lasts. The
//! caches never leave the node. For audits it also keeps the whole stream of inputs and outputs of
//! every session, so that an auditor can ask for it and run the stage again statelessly.

use std::collections::HashMap;

use vstd::prelude::*;

use crate::cache::{
    bytes_of, caches_of, copy_caches, empty_caches, measurable, total_bytes, CacheView, KVCache,
};
use crate::error::{EngineError, ModelError};
use crate::random::{chacha_word, Stream};
use crate::stage::{
    activations_of, concatenated, one_kind, stream_of, Activation, ActivationView, PassView, Stage,
    StagePass,
};
use crate::table::Table;
use crate::tensor::{grids_of, one_width, stack, stacked, Grid, Matrix};
use crate::text::{
    all_digits, hex, hex_of, numeral, numerals_stand_for_their_number, padding_keeps_the_number,
    value_of,
};
use crate::transport::LinkProfile;
use crate::verify::{commitment_of, log_execution, Execution, ExecutionView};

verus! {

/// How a node corrupts its output. Honest nodes do not.
#[derive(Debug, Clone, Copy, PartialEq, Eq, Structural)]
pub enum Tamper {
    Honest,
    /// Adds the single with this bit pattern to every entry.
    AddConstant(u32),
}

/// What a node keeps of one session of one stage.
#[derive(Debug)]
pub struct Session {
    caches: Vec<KVCache>,
    inputs: Vec<Activation>,
    outputs: Vec<Matrix>,
}

/// The contents of a session.
#[verifier::ext_equal]
pub struct SessionView {
    pub caches: Seq<CacheView>,
    pub inputs: Seq<ActivationView>,
    pub outputs: Seq<Grid>,
}

impl View for Session {
    type V = SessionView;

    closed spec fn view(&self) -> SessionView {
        SessionView {
            caches: caches_of(self.caches@),
            inputs: activations_of(self.inputs@),
            outputs: grids_of(self.outputs@),
        }
    }
}

impl SessionView {
    /// A session before its first step, on a stage of `n_layers` layers.
    pub open spec fn fresh(n_layers: nat) -> SessionView {
        SessionView {
            caches: Seq::new(n_layers, |i: int| CacheView::empty()),
            inputs: Seq::empty(),
            outputs: Seq::empty(),
        }
    }

    /// The position that the next step begins at.
    pub open spec fn position(self) -> usize {
        self.caches[0].length() as usize
    }

    /// Whether there is a cache in order for each of `n_layers` layers.
    pub open spec fn wf(self, n_layers: nat) -> bool {
        &&& self.caches.len() == n_layers
        &&& forall|i: int| 0 <= i < self.caches.len() ==> (#[trigger] self.caches[i]).wf()
    }

    /// The session after a step.
    pub open spec fn after(
        self,
        caches: Seq<CacheView>,
        input: ActivationView,
        output: Grid,
    ) -> SessionView {
        SessionView {
            caches,
            inputs: self.inputs.push(input),
            outputs: self.outputs.push(output),
        }
    }
}

/// A stage on a node, with its sessions.
#[derive(Debug)]
pub struct HostedStage<'w> {
    stage: Stage<'w>,
    n_layers: usize,
    sessions: Table<Session>,
}

/// The contents of a hosted stage.
#[verifier::ext_equal]
pub struct HostedView<'w> {
    pub stage: Stage<'w>,
    pub sessions: Map<Seq<char>, SessionView>,
}

impl<'w> View for HostedStage<'w> {
    type V = HostedView<'w>;

    closed spec fn view(&self) -> HostedView<'w> {
        HostedView {
            stage: self.stage,
            sessions: self.sessions@.map_values(|s: Session| s@),
        }
    }
}

impl<'w> HostedView<'w> {
    /// The number of layers of the stage.
    pub open spec fn layers(self) -> nat {
        (self.stage.end_layer() - self.stage.first_layer()) as nat
    }

    /// A session, new or running.
    pub open spec fn session(self, name: Seq<char>) -> SessionView {
        if self.sessions.contains_key(name) {
            self.sessions[name]
        } else {
            SessionView::fresh(self.layers())
        }
    }

    /// The hosted stage once it has the session.
    pub open spec fn opened(self, name: Seq<char>) -> HostedView<'w> {
        self.with(name, self.session(name))
    }

    /// The hosted stage with a session changed.
    pub open spec fn with(self, name: Seq<char>, session: SessionView) -> HostedView<'w> {
        HostedView { stage: self.stage, sessions: self.sessions.insert(name, session) }
    }

    /// Whether all sessions are in order.
    pub open spec fn wf(self) -> bool {
        &&& self.stage.first_layer() <= self.stage.end_layer()
        &&& forall|name: Seq<char>|
            self.sessions.contains_key(name) ==> (#[trigger] self.sessions[name]).wf(self.layers())
    }

    /// Whether the stage can take the next step of a session.
    pub open spec fn admits(self, name: Seq<char>, input: ActivationView) -> bool {
        let s = self.session(name);
        &&& self.layers() > 0
        &&& self.stage.admits(input, Some(s.caches), s.position())
    }

    /// The pass of the next step of a session, at its start.
    pub open spec fn pass(self, name: Seq<char>, input: ActivationView) -> PassView {
        let s = self.session(name);
        self.stage.pass(input, Some(s.caches), s.position())
    }
}

impl<'w> HostedStage<'w> {
    /// Whether the table of sessions and what it holds are in order.
    closed spec fn wf(&self) -> bool {
        &&& self.sessions.wf()
        &&& self@.wf()
        &&& self.n_layers == self@.layers()
    }

    /// Makes sure that the session is there.
    fn open(&mut self, name: &str)
        requires
            old(self).wf(),
        ensures
            final(self).wf(),
            final(self)@ == old(self)@.opened(name@),
    {
        if !self.sessions.contains(name) {
            let fresh = Session {
                caches: empty_caches(self.n_layers),
                inputs: Vec::new(),
                outputs: Vec::new(),
            };
            assert(fresh@ =~= SessionView::fresh(self.n_layers as nat));
            self.sessions.insert(name, fresh);
        }
        assert(self@.sessions =~= old(self)@.opened(name@).sessions);
    }
}

/// A step of a session that is being worked off.
#[derive(Debug)]
pub struct StageRun {
    pub stage_id: usize,
    pub session: String,
    pub input: Activation,
    /// The numeric work of the step.
    pub pass: StagePass,
}

/// The contents of a step.
pub struct RunView {
    pub stage_id: usize,
    pub session: Seq<char>,
    pub input: ActivationView,
    pub pass: PassView,
}

impl View for StageRun {
    type V = RunView;

    open spec fn view(&self) -> RunView {
        RunView {
            stage_id: self.stage_id,
            session: self.session@,
            input: self.input@,
            pass: self.pass@,
        }
    }
}

/// A swarm peer.
#[derive(Debug)]
pub struct Node<'w> {
    pub id: String,
    pub link: LinkProfile,
    pub flops_served: u64,
    pub tamper: Tamper,
    hosted: HashMap<usize, HostedStage<'w>>,
    rng: Stream,
}

/// The contents of a node.
#[verifier::ext_equal]
pub struct NodeView<'w> {
    pub id: Seq<char>,
    pub link: LinkProfile,
    pub flops_served: u64,
    pub tamper: Tamper,
    pub hosted: Map<usize, HostedView<'w>>,
    pub rng: Stream,
}

impl<'w> View for Node<'w> {
    type V = NodeView<'w>;

    closed spec fn view(&self) -> NodeView<'w> {
        NodeView {
            id: self.id@,
            link: self.link,
            flops_served: self.flops_served,
            tamper: self.tamper,
            hosted: self.hosted@.map_values(|h: HostedStage<'w>| h@),
            rng: self.rng,
        }
    }
}

impl<'w> NodeView<'w> {
    /// The node with one hosted stage changed.
    pub open spec fn with(self, stage_id: usize, hosted: HostedView<'w>) -> NodeView<'w> {
        NodeView { hosted: self.hosted.insert(stage_id, hosted), ..self }
    }

    /// The node once it hosts `stage`, with no sessions.
    pub open spec fn hosting(self, stage_id: usize, stage: Stage<'w>) -> NodeView<'w> {
        self.with(stage_id, HostedView { stage, sessions: Map::empty() })
    }

    /// Whether the node can take the next step of a session: it does not host the stage, which is
    /// an error, or the stage can.
    pub open spec fn admits(self, stage_id: usize, session: Seq<char>, input: ActivationView) -> bool {
        self.hosted.contains_key(stage_id) ==> self.hosted[stage_id].admits(session, input)
    }

    /// The node once a step was begun: the session is there.
    pub open spec fn begun(self, stage_id: usize, session: Seq<char>) -> NodeView<'w> {
        if self.hosted.contains_key(stage_id) {
            self.with(stage_id, self.hosted[stage_id].opened(session))
        } else {
            self
        }
    }

    /// Whether `run` is a step of a stage on this node, with caches that can be kept.
    pub open spec fn owns(self, run: RunView) -> bool {
        &&& self.hosted.contains_key(run.stage_id)
        &&& self.hosted[run.stage_id].sessions.contains_key(run.session)
        &&& run.pass.caches is Some
        &&& run.pass.caches->0.len() == self.hosted[run.stage_id].layers()
        &&& run.pass.sound()
    }

    /// The operations that a step counts for.
    pub open spec fn work(self, run: RunView) -> nat {
        2 * self.hosted[run.stage_id].stage.params() * run.input.tokens()
    }

    /// Whether a step can be ended: its pass is over, and the counters have room.
    pub open spec fn can_end(self, run: RunView) -> bool {
        let stage = self.hosted[run.stage_id].stage;
        &&& self.owns(run)
        &&& run.pass.done()
        &&& stage.countable(run.input.tokens())
        &&& self.flops_served + self.work(run) <= u64::MAX
        &&& self.rng.has(2)
    }

    /// The session after a step.
    pub open spec fn session_after(self, run: RunView, output: Grid) -> SessionView {
        self.hosted[run.stage_id].sessions[run.session].after(
            run.pass.caches->0,
            run.input,
            output,
        )
    }

    /// Whether the streams of a session can be put together for an auditor.
    pub open spec fn auditable(self, run: RunView, output: Grid) -> bool {
        let s = self.session_after(run, output);
        one_kind(s.inputs) && one_width(s.outputs)
    }

    /// The node after a step. The nonce is drawn only where there is something to commit to.
    pub open spec fn ended(self, run: RunView, output: Grid) -> NodeView<'w> {
        NodeView {
            flops_served: (self.flops_served + self.work(run)) as u64,
            rng: if self.auditable(run, output) {
                self.rng.after(2)
            } else {
                self.rng
            },
            ..self.with(
                run.stage_id,
                self.hosted[run.stage_id].with(run.session, self.session_after(run, output)),
            )
        }
    }

    /// What the node claims of a step: the whole streams of the session, bound by a fresh nonce.
    pub open spec fn claim(self, run: RunView, output: Grid) -> ExecutionView {
        let s = self.session_after(run, output);
        let nonce = hex_of(self.rng.pair() as nat, 16);
        ExecutionView {
            session: run.session,
            stage_id: run.stage_id,
            worker: self.id,
            inp: concatenated(s.inputs),
            out: stacked(s.outputs),
            nonce,
            commitment: commitment_of(stacked(s.outputs), nonce),
        }
    }

    /// The node once a step was given up: what it did to the caches stays.
    pub open spec fn abandoned(self, run: RunView) -> NodeView<'w> {
        let h = self.hosted[run.stage_id];
        self.with(
            run.stage_id,
            h.with(
                run.session,
                SessionView { caches: run.pass.caches->0, ..h.sessions[run.session] },
            ),
        )
    }
}

impl<'w> Node<'w> {
    /// Whether all hosted stages are in order.
    pub closed spec fn wf(&self) -> bool {
        forall|id: usize|
            self.hosted@.contains_key(id) ==> (#[trigger] self.hosted@[id]).wf()
    }

    /// A node without stages. `seed` seeds the nonces of its commitments.
    pub fn new(id: &str, link: LinkProfile, seed: u64) -> (node: Self)
        ensures
            node.wf(),
            node@ == (NodeView {
                id: id@,
                link,
                flops_served: 0,
                tamper: Tamper::Honest,
                hosted: Map::empty(),
                rng: Stream { seed, position: 0 },
            }),
    {
        broadcast use vstd::std_specs::hash::group_hash_axioms;

        let node = Node {
            id: id.to_owned(),
            link,
            flops_served: 0,
            tamper: Tamper::Honest,
            hosted: HashMap::new(),
            rng: Stream::new(seed),
        };
        assert(node@.hosted =~= Map::empty());
        node
    }

    /// The link of the node.
    pub fn link(&self) -> (link: LinkProfile)
        ensures
            link == self@.link,
    {
        self.link
    }

    /// Makes the node corrupt its output from now on, or not.
    pub fn set_tamper(&mut self, tamper: Tamper)
        requires
            old(self).wf(),
        ensures
            final(self).wf(),
            final(self)@ == (NodeView { tamper, ..old(self)@ }),
    {
        self.tamper = tamper;
    }

    /// Hosts `stage` under `stage_id`.
    pub fn host(&mut self, stage_id: usize, stage: Stage<'w>)
        requires
            old(self).wf(),
            stage.first_layer() <= stage.end_layer(),
        ensures
            final(self).wf(),
            final(self)@ == old(self)@.hosting(stage_id, stage),
    {
        broadcast use vstd::std_specs::hash::group_hash_axioms;

        let (lo, hi) = stage.layer_range();
        let hosted = HostedStage { stage, n_layers: hi - lo, sessions: Table::new() };
        assert(hosted@.sessions =~= Map::empty());
        let ghost before = self.hosted@;
        self.hosted.insert(stage_id, hosted);
        assert(self@.hosted =~= old(self)@.hosting(stage_id, stage).hosted);
        assert forall|id: usize| self.hosted@.contains_key(id) implies (
        #[trigger] self.hosted@[id]).wf() by {
            if id != stage_id {
                assert(before[id].wf());
            }
        }
    }

    /// Whether the next step of a session can be taken: it is for stages that this node hosts that
    /// there is something to check.
    pub fn can_begin(&self, stage_id: usize, session: &str, x: &Activation) -> (ok: bool)
        requires
            self.wf(),
        ensures
            ok == self@.admits(stage_id, session@, x@),
    {
        broadcast use vstd::std_specs::hash::group_hash_axioms;

        match self.hosted.get(&stage_id) {
            Some(hosted) => {
                assert(hosted.wf());
                if hosted.n_layers == 0 {
                    return false;
                }
                match hosted.sessions.get(session) {
                    Some(s) => {
                        assert(hosted@.sessions[session@] == s@);
                        assert(s@.wf(hosted@.layers()));
                        assert(s@.caches[0] == s.caches@[0]@);
                        assert forall|i: int| 0 <= i < s.caches@.len() implies (
                        #[trigger] s.caches@[i])@.wf() by {
                            assert(s@.caches[i].wf());
                        }
                        hosted.stage.can_run(x, Some(&s.caches), s.caches[0].length())
                    },
                    None => {
                        let caches: Vec<KVCache> = empty_caches(hosted.n_layers);
                        let ghost views = caches_of(caches@);
                        assert(views == hosted@.session(session@).caches);
                        assert forall|i: int| 0 <= i < caches@.len() implies (
                        #[trigger] caches@[i])@.wf() by {
                            assert(views[i] == caches@[i]@);
                        }
                        assert(views[0].length() == 0);
                        hosted.stage.can_run(x, Some(&caches), 0)
                    },
                }
            },
            None => true,
        }
    }

    /// Begins the next step of a session: an online run of the hosted stage on the session's
    /// caches, from the position that they have reached.
    pub fn begin_stage(&mut self, stage_id: usize, session: &str, x: &Activation) -> (out: Result<
        StageRun,
        EngineError,
    >)
        requires
            old(self).wf(),
            old(self)@.admits(stage_id, session@, x@),
        ensures
            final(self).wf(),
            final(self)@ == old(self)@.begun(stage_id, session@),
            !old(self)@.hosted.contains_key(stage_id) ==> out == Err::<StageRun, EngineError>(
                EngineError::NoStage(stage_id),
            ),
            old(self)@.hosted.contains_key(stage_id) ==> {
                let h = old(self)@.hosted[stage_id];
                if h.stage.takes(x@) {
                    out matches Ok(run) && run@ == (RunView {
                        stage_id,
                        session: session@,
                        input: x@,
                        pass: h.pass(session@, x@),
                    }) && run@.pass.wf() && final(self)@.owns(run@)
                } else {
                    out == Err::<StageRun, EngineError>(
                        EngineError::Model(
                            if x@ is Ids {
                                ModelError::ExpectedHidden
                            } else {
                                ModelError::ExpectedIds
                            },
                        ),
                    )
                }
            },
    {
        broadcast use vstd::std_specs::hash::group_hash_axioms;

        let ghost before = self.hosted@;
        match self.hosted.remove(&stage_id) {
            None => {
                assert(self@.hosted =~= old(self)@.hosted);
                Err(EngineError::NoStage(stage_id))
            },
            Some(hosted) => {
                let mut hosted: HostedStage<'w> = hosted;
                assert(hosted == before[stage_id]);
                assert(hosted.wf());
                let ghost h = hosted@;
                assert(old(self)@.hosted[stage_id] == h);
                hosted.open(session);
                assert(hosted@.sessions.contains_key(session@));
                let out = match hosted.sessions.get(session) {
                    Some(s) => {
                        assert(hosted@.sessions[session@] == s@);
                        assert(s@ == h.session(session@));
                        assert(s@.wf(h.layers()));
                        assert(s@.caches[0] == s.caches@[0]@);
                        let base_pos: usize = s.caches[0].length();
                        let caches: Vec<KVCache> = copy_caches(&s.caches);
                        match hosted.stage.forward(x.copied(), Some(caches), base_pos) {
                            Ok(pass) => Ok(
                                StageRun { stage_id, session: session.to_owned(), input: x.copied(), pass },
                            ),
                            Err(e) => Err(EngineError::Model(e)),
                        }
                    },
                    None => Err(EngineError::NoStage(stage_id)),
                };
                self.hosted.insert(stage_id, hosted);
                assert(self@.hosted =~= old(self)@.begun(stage_id, session@).hosted);
                assert forall|id: usize| self.hosted@.contains_key(id) implies (
                #[trigger] self.hosted@[id]).wf() by {
                    if id != stage_id {
                        assert(before[id].wf());
                    }
                }
                out
            },
        }
    }

    /// Whether a step can be ended: its pass is over, and the counters have room.
    pub fn can_end_stage(&self, run: &StageRun) -> (ok: bool)
        requires
            self.wf(),
            self@.owns(run@),
        ensures
            ok == self@.can_end(run@),
    {
        broadcast use vstd::std_specs::hash::group_hash_axioms;

        if !run.pass.is_done() || self.rng.position > u64::MAX - 2 {
            return false;
        }
        match self.hosted.get(&run.stage_id) {
            Some(hosted) => {
                assert(hosted.wf());
                assert(self@.hosted[run.stage_id] == hosted@);
                match hosted.stage.checked_flops(run.input.n_tokens()) {
                    Some(flops) => flops as u64 <= u64::MAX - self.flops_served,
                    None => false,
                }
            },
            None => false,
        }
    }

    /// Ends a step whose pass is over: keeps the caches and logs input and output. A node that
    /// tampers gives out `corrupted` in place of what it computed, and logs and commits to that.
    /// Gives the output, the claim for an audit and the operations that were done.
    pub fn end_stage(&mut self, run: StageRun, corrupted: Option<Matrix>) -> (out: Result<
        (Matrix, Execution, u64),
        EngineError,
    >)
        requires
            old(self).wf(),
            old(self)@.can_end(run@),
            old(self)@.tamper is AddConstant ==> corrupted is Some,
        ensures
            final(self).wf(),
            ({
                let output = match corrupted {
                    Some(m) if old(self)@.tamper is AddConstant => m@,
                    _ => stream_of(run@.pass.task),
                };
                &&& final(self)@ == old(self)@.ended(run@, output)
                &&& out is Ok <==> old(self)@.auditable(run@, output)
                &&& out matches Ok(done) ==> {
                    &&& done.0@ == output
                    &&& done.1@ == old(self)@.claim(run@, output)
                    &&& done.2 == old(self)@.work(run@)
                }
                &&& out matches Err(e) ==> e == EngineError::Model(ModelError::Shape)
            }),
    {
        broadcast use vstd::std_specs::hash::group_hash_axioms;

        let ghost before = self.hosted@;
        let ghost old_view = self@;
        let StageRun { stage_id, session, input, pass } = run;
        let n_tokens: usize = input.n_tokens();
        let (computed, kept) = pass.finish();
        let output: Matrix = match (self.tamper, corrupted) {
            (Tamper::AddConstant(_), Some(m)) => m,
            _ => computed,
        };
        let ghost output_view = output@;
        let returned: Matrix = output.copied();
        match self.hosted.remove(&stage_id) {
            None => Err(EngineError::NoStage(stage_id)),
            Some(hosted) => {
                let mut hosted: HostedStage<'w> = hosted;
                assert(hosted == before[stage_id]);
                assert(hosted.wf());
                let ghost h = hosted@;
                assert(old_view.hosted[stage_id] == h);
                let flops: usize = hosted.stage.flops(n_tokens);
                let streams = match hosted.sessions.get_mut(session.as_str()) {
                    Some(s) => {
                        assert(h.sessions[session@] == s@);
                        match kept {
                            Some(caches) => {
                                s.caches = caches;
                            },
                            None => {},
                        }
                        s.inputs.push(input);
                        s.outputs.push(output);
                        assert(s@.inputs =~= h.sessions[session@].inputs.push(run@.input));
                        assert(s@.outputs =~= h.sessions[session@].outputs.push(output_view));
                        assert(s@ == old_view.session_after(run@, output_view));
                        (Activation::concat(&s.inputs), stack(&s.outputs))
                    },
                    None => (Err(ModelError::Shape), Err(ModelError::Shape)),
                };
                let ghost after = h.with(
                    run@.session,
                    old_view.session_after(run@, output_view),
                );
                assert(hosted@.sessions =~= after.sessions);
                self.hosted.insert(stage_id, hosted);
                self.flops_served = self.flops_served + flops as u64;
                assert(self@.hosted =~= old_view.with(stage_id, after).hosted);
                assert forall|id: usize| self.hosted@.contains_key(id) implies (
                #[trigger] self.hosted@[id]).wf() by {
                    if id != stage_id {
                        assert(before[id].wf());
                    }
                }
                match streams {
                    (Ok(cum_in), Ok(cum_out)) => {
                        let nonce: String = hex(self.rng.next_pair(), 16);
                        let ex = log_execution(
                            session.as_str(),
                            stage_id,
                            self.id.as_str(),
                            cum_in,
                            cum_out,
                            nonce,
                        );
                        Ok((returned, ex, flops as u64))
                    },
                    (Err(e), _) => Err(EngineError::Model(e)),
                    (_, Err(e)) => Err(EngineError::Model(e)),
                }
            },
        }
    }

    /// Gives a step up that failed: what it did to the caches stays, and nothing is logged.
    pub fn abandon_stage(&mut self, run: StageRun)
        requires
            old(self).wf(),
            old(self)@.owns(run@),
        ensures
            final(self).wf(),
            final(self)@ == old(self)@.abandoned(run@),
    {
        broadcast use vstd::std_specs::hash::group_hash_axioms;

        let ghost before = self.hosted@;
        let ghost old_view = self@;
        let StageRun { stage_id, session, input, pass } = run;
        match self.hosted.remove(&stage_id) {
            None => {},
            Some(hosted) => {
                let mut hosted: HostedStage<'w> = hosted;
                assert(hosted == before[stage_id]);
                assert(hosted.wf());
                let ghost h = hosted@;
                assert(old_view.hosted[stage_id] == h);
                match hosted.sessions.get_mut(session.as_str()) {
                    Some(s) => {
                        assert(h.sessions[session@] == s@);
                        match pass.into_caches() {
                            Some(caches) => {
                                s.caches = caches;
                            },
                            None => {},
                        }
                        assert(s@ == (SessionView {
                            caches: run@.pass.caches->0,
                            ..h.sessions[run@.session]
                        }));
                    },
                    None => {},
                }
                assert(hosted@.sessions =~= old_view.abandoned(
                    run@,
                ).hosted[stage_id].sessions);
                self.hosted.insert(stage_id, hosted);
                assert(self@.hosted =~= old_view.abandoned(run@).hosted);
                assert forall|id: usize| self.hosted@.contains_key(id) implies (
                #[trigger] self.hosted@[id]).wf() by {
                    if id != stage_id {
                        assert(before[id].wf());
                    }
                }
            },
        }
    }

    /// The size in bytes of the caches of one session of one stage: what is not shipped.
    pub fn kv_footprint_bytes(&self, stage_id: usize, session: &str) -> (n: usize)
        requires
            self.wf(),
            self@.hosted.contains_key(stage_id) && self@.hosted[stage_id].sessions.contains_key(
                session@,
            ) ==> measurable(self@.hosted[stage_id].sessions[session@].caches),
        ensures
            n == self@.footprint(stage_id, session@),
    {
        broadcast use vstd::std_specs::hash::group_hash_axioms;

        match self.hosted.get(&stage_id) {
            None => 0,
            Some(hosted) => {
                assert(hosted.wf());
                match hosted.sessions.get(session) {
                    None => 0,
                    Some(s) => {
                        assert(hosted@.sessions[session@] == s@);
                        assert(s@.wf(hosted@.layers()));
                        assert forall|i: int| 0 <= i < s.caches@.len() implies (
                        #[trigger] s.caches@[i])@.wf() by {
                            assert(s@.caches[i].wf());
                        }
                        total_bytes(&s.caches)
                    },
                }
            },
        }
    }
}

impl<'w> NodeView<'w> {
    /// The size in bytes of the caches of one session of one stage.
    pub open spec fn footprint(self, stage_id: usize, session: Seq<char>) -> nat {
        if self.hosted.contains_key(stage_id) && self.hosted[stage_id].sessions.contains_key(
            session,
        ) {
            bytes_of(self.hosted[stage_id].sessions[session].caches)
        } else {
            0
        }
    }
}

/// What a step leaves on its node: its input and its output at the end of the log of its session, the caches
/// of its pass, and its work in the count. Other sessions and other stages stay as they were.
pub proof fn steps_are_logged_in_order(
    node: NodeView,
    run: RunView,
    output: Grid,
    session: Seq<char>,
    stage_id: usize,
)
    requires
        node.can_end(run),
    ensures
        ({
            let before = node.hosted[run.stage_id].sessions[run.session];
            let ended = node.ended(run, output);
            let after = ended.hosted[run.stage_id].sessions[run.session];
            &&& after.inputs == before.inputs.push(run.input)
            &&& after.outputs == before.outputs.push(output)
            &&& Some(after.caches) == run.pass.caches
            &&& ended.hosted[run.stage_id].stage == node.hosted[run.stage_id].stage
            &&& ended.hosted[run.stage_id].sessions.dom() =~= node.hosted[run.stage_id].sessions.dom()
            &&& session != run.session && node.hosted[run.stage_id].sessions.contains_key(session)
                ==> ended.hosted[run.stage_id].sessions[session]
                == node.hosted[run.stage_id].sessions[session]
            &&& stage_id != run.stage_id && node.hosted.contains_key(stage_id)
                ==> ended.hosted[stage_id] == node.hosted[stage_id]
            &&& ended.flops_served == node.flops_served + 2
                * node.hosted[run.stage_id].stage.params() * run.input.tokens()
            &&& ended.id == node.id && ended.link == node.link && ended.tamper == node.tamper
        }),
{
}

/// What a node claims of a step: who it is, where the step was, all that went in and came out in the session
/// so far, and a commitment to that under sixteen characters that spell the next 64 random bits.
pub proof fn claims_tell_the_whole_session(node: NodeView, run: RunView, output: Grid)
    requires
        node.can_end(run),
        node.auditable(run, output),
    ensures
        ({
            let before = node.hosted[run.stage_id].sessions[run.session];
            let claim = node.claim(run, output);
            let words = chacha_word(node.rng.seed, node.rng.position) + 0x1_0000_0000 * chacha_word(
                node.rng.seed,
                (node.rng.position + 1) as u64,
            );
            &&& claim.worker == node.id
            &&& claim.session == run.session
            &&& claim.stage_id == run.stage_id
            &&& before.inputs.len() == 0 ==> claim.inp == run.input
            &&& before.inputs.len() > 0 ==> claim.inp == concatenated(before.inputs).followed_by(
                run.input,
            )
            &&& before.outputs.len() == 0 ==> claim.out == output
            &&& before.outputs.len() > 0 ==> claim.out.rows == stacked(before.outputs).rows
                + output.rows
            &&& claim.binds()
            &&& claim.nonce.len() == 16
            &&& all_digits(claim.nonce, 16)
            &&& value_of(claim.nonce, 16) == words
            &&& node.ended(run, output).rng.position == node.rng.position + 2
        }),
{
    let before = node.hosted[run.stage_id].sessions[run.session];
    let s = node.session_after(run, output);
    assert(s.inputs.drop_last() =~= before.inputs);
    assert(s.outputs.drop_last() =~= before.outputs);
    let n = node.rng.pair() as nat;
    numerals_stand_for_their_number(n, 16);
    padding_keeps_the_number(numeral(n, 16), 16, 16);
    vstd::arithmetic::power2::lemma2_to64();
    lemma_short_numeral(n, 16);
}

/// A number of `k` hexadecimal digits has a numeral of at most as many.
pub proof fn lemma_short_numeral(n: nat, k: nat)
    requires
        k > 0,
        n < vstd::arithmetic::power2::pow2(4 * k),
    ensures
        numeral(n, 16).len() <= k,
    decreases k,
{
    if n >= 16 {
        vstd::arithmetic::power2::lemma2_to64();
        if k > 1 {
            vstd::arithmetic::power2::lemma_pow2_adds((4 * (k - 1)) as nat, 4);
            lemma_short_numeral(n / 16, (k - 1) as nat);
        }
    }
}

/// Beginning a step of one session leaves all others as they were, and one that is there goes on where it
/// was. A new session begins at position zero, with empty caches and an empty log.
pub proof fn sessions_are_kept_apart(node: NodeView, stage_id: usize, session: Seq<char>, other: Seq<char>)
    requires
        node.hosted.contains_key(stage_id),
        node.hosted[stage_id].stage.first_layer() < node.hosted[stage_id].stage.end_layer(),
    ensures
        ({
            let h = node.hosted[stage_id];
            let begun = node.begun(stage_id, session).hosted[stage_id];
            &&& begun.stage == h.stage
            &&& begun.sessions.contains_key(session)
            &&& h.sessions.contains_key(session) ==> begun.sessions[session] == h.sessions[session]
            &&& !h.sessions.contains_key(session) ==> {
                &&& begun.sessions[session].inputs.len() == 0
                &&& begun.sessions[session].outputs.len() == 0
                &&& begun.sessions[session].caches.len() == h.stage.end_layer()
                    - h.stage.first_layer()
                &&& forall|i: int|
                    0 <= i < begun.sessions[session].caches.len() ==> (
                    #[trigger] begun.sessions[session].caches[i]).k is None
                        && begun.sessions[session].caches[i].v is None
                &&& h.session(session).position() == 0
            }
            &&& other != session ==> begun.sessions.contains_key(other) == h.sessions.contains_key(
                other,
            )
            &&& other != session && h.sessions.contains_key(other) ==> begun.sessions[other]
                == h.sessions[other]
        }),
{
}

/// A session takes four bytes for every entry of every key and value that a stage keeps of it, and nothing
/// where the stage knows nothing of it.
pub proof fn sessions_take_four_bytes_for_every_entry(
    node: NodeView,
    stage_id: usize,
    session: Seq<char>,
)
    ensures
        !node.hosted.contains_key(stage_id) ==> node.footprint(stage_id, session) == 0,
        node.hosted.contains_key(stage_id) && !node.hosted[stage_id].sessions.contains_key(session)
            ==> node.footprint(stage_id, session) == 0,
        node.hosted.contains_key(stage_id) && node.hosted[stage_id].sessions.contains_key(session)
            ==> node.footprint(stage_id, session) == bytes_of(
            node.hosted[stage_id].sessions[session].caches,
        ),
{
}

} // verus!
