//! The coordinator: drives the token loop over workers that were found in the network.
//!
//! Each hop is a request to the first provider of the stage that is not known to be dead. A request
//! that fails marks its peer as dead, and the next provider is asked. Peers are known by the
//! numbers that the owner of the network gives them.

use vstd::prelude::*;

use crate::engine::greedy;
use crate::halves::widened_half;
use crate::numbers::is_argmax;
use crate::stage::{Activation, ActivationView};
use crate::tensor::{Grid, Matrix};
use crate::tokenizer::{decode, decode_of, encode, encode_of};
use crate::wire::{
    arrivals_are_read_row_by_row, arrivals_travel_on_unchanged, has_length, proto_to_array2,
    stage_request, unwired, wired_input, ActivationStream, RequestView, StageResponse, WireError,
    WireView,
};

verus! {

/// What can go wrong for a coordinator.
#[derive(Debug, Clone, Copy, PartialEq, Eq, Structural)]
pub enum CoordinatorError {
    /// Every provider of the stage is dead.
    NoLiveProvider(usize),
    /// A worker's response could not be read.
    Wire(WireError),
    /// No stage gave logits.
    NoLogits,
}

/// For how long providers of a stage are looked for, in nanoseconds.
pub const DISCOVERY_TIMEOUT: u128 = 20_000_000_000;

/// How long to wait between two queries for providers, in milliseconds.
pub const POLL_INTERVAL: u64 = 300;

/// What to do after a query for the providers of a stage.
#[derive(Debug, Clone, Copy, PartialEq, Eq, Structural)]
pub enum Poll {
    /// Take the providers that were found.
    Found,
    /// Ask again after the interval.
    Again,
    /// Give the stage up.
    GiveUp,
}

/// What to do after a query that found `found` providers, `elapsed` nanoseconds after the first: it
/// is asked at least once, and again until the time is over.
pub fn poll(found: usize, elapsed: u128) -> (next: Poll)
    ensures
        next == if found > 0 {
            Poll::Found
        } else if elapsed > DISCOVERY_TIMEOUT {
            Poll::GiveUp
        } else {
            Poll::Again
        },
{
    if found > 0 {
        Poll::Found
    } else if elapsed > DISCOVERY_TIMEOUT {
        Poll::GiveUp
    } else {
        Poll::Again
    }
}

/// Where `c` is for the first time.
pub open spec fn is_first_char(s: Seq<char>, c: char, at: int) -> bool {
    &&& 0 <= at < s.len()
    &&& s[at] == c
    &&& forall|i: int| 0 <= i < at ==> #[trigger] s[i] != c
}

/// Splits the address of a bootstrap worker, `peer@address`, at its first `@`.
pub fn parse_bootstrap(s: &str) -> (out: Option<(String, String)>)
    ensures
        out is Some <==> exists|i: int| 0 <= i < s@.len() && #[trigger] s@[i] == '@',
        out matches Some(parts) ==> exists|at: int|
            #[trigger] is_first_char(s@, '@', at) && parts.0@ == s@.take(at) && parts.1@ == s@.skip(
                at + 1,
            ),
{
    let n: usize = s.unicode_len();
    let mut i: usize = 0;
    while i < n
        invariant
            i <= n,
            n == s@.len(),
            forall|j: int| 0 <= j < i ==> #[trigger] s@[j] != '@',
        decreases n - i,
    {
        if s.get_char(i) == '@' {
            let peer: String = s.substring_char(0, i).to_owned();
            let address: String = s.substring_char(i + 1, n).to_owned();
            assert(is_first_char(s@, '@', i as int));
            assert(peer@ =~= s@.take(i as int));
            assert(address@ =~= s@.skip(i + 1));
            return Some((peer, address));
        }
        i = i + 1;
    }
    None
}

/// The greedy choice from the last row of logits.
pub fn argmax_last(logits: &Matrix) -> (token: usize)
    requires
        logits@.rows.len() > 0,
    ensures
        is_argmax(logits@.rows.last(), token as int),
{
    greedy(logits)
}

/// The contents of a coordinator.
#[verifier::ext_equal]
pub struct CoordinatorView {
    pub session: Seq<char>,
    pub providers: Seq<Seq<u64>>,
    pub max_tokens: usize,
    /// Peers that failed.
    pub dead: Set<u64>,
    pub reroutes: usize,
    /// How many tokens have gone through all stages.
    pub seq: u64,
    pub out_ids: Seq<usize>,
    /// The stage that is asked next.
    pub stage: usize,
    /// How many tokens are on their way.
    pub n_in: u64,
    pub current: ActivationView,
    pub logits: Option<Grid>,
}

/// Whether the peer at `i` is the first one that is not dead.
pub open spec fn is_first_live(peers: Seq<u64>, dead: Set<u64>, i: int) -> bool {
    &&& 0 <= i < peers.len()
    &&& !dead.contains(peers[i])
    &&& forall|j: int| 0 <= j < i ==> dead.contains(#[trigger] peers[j])
}

impl CoordinatorView {
    /// Whether all stages were gone through.
    pub open spec fn pass_over(self) -> bool {
        self.stage >= self.providers.len()
    }

    /// Whether some provider of the next stage is not dead.
    pub open spec fn has_live(self) -> bool {
        exists|i: int|
            0 <= i < self.providers[self.stage as int].len() && !self.dead.contains(
                #[trigger] self.providers[self.stage as int][i],
            )
    }

    /// Whether `peer` is the one to ask next.
    pub open spec fn asks(self, peer: u64) -> bool {
        exists|i: int|
            #[trigger] is_first_live(self.providers[self.stage as int], self.dead, i)
                && self.providers[self.stage as int][i] == peer
    }

    /// The request for the next stage.
    pub open spec fn request(self) -> RequestView {
        RequestView {
            session: self.session,
            stage_id: self.stage as u32,
            seq_pos: self.seq,
            input: Some(wired_input(self.current)),
        }
    }

    /// The coordinator once a stage gave `out`.
    pub open spec fn after_output(self, out: Grid, is_logits: bool) -> CoordinatorView {
        CoordinatorView {
            stage: (self.stage + 1) as usize,
            current: if is_logits {
                self.current
            } else {
                ActivationView::Hidden(out)
            },
            logits: if is_logits {
                Some(out)
            } else {
                self.logits
            },
            ..self
        }
    }

    /// The coordinator once a peer failed.
    pub open spec fn after_failure(self, peer: u64) -> CoordinatorView {
        CoordinatorView {
            dead: self.dead.insert(peer),
            reroutes: (self.reroutes + 1) as usize,
            ..self
        }
    }

    /// The coordinator with another activation at the first stage.
    pub open spec fn entered(self, input: ActivationView) -> CoordinatorView {
        CoordinatorView {
            stage: 0,
            n_in: input.tokens() as u64,
            current: input,
            logits: None,
            ..self
        }
    }

    /// The coordinator behind a pass, with its tokens counted.
    pub open spec fn counted(self) -> CoordinatorView {
        CoordinatorView { seq: (self.seq + self.n_in) as u64, ..self }
    }

    /// Whether the pass can be ended: it is over, the count has room, and where a token is to be
    /// picked from logits, they have a row.
    pub open spec fn can_end_pass(self) -> bool {
        &&& self.pass_over()
        &&& self.seq + self.n_in <= u64::MAX
        &&& self.out_ids.len() < self.max_tokens ==> (self.logits matches Some(logits)
            ==> logits.rows.len() > 0)
    }

    /// The coordinator once `token` was picked.
    pub open spec fn extended(self, token: usize) -> CoordinatorView {
        CoordinatorView {
            out_ids: self.out_ids.push(token),
            ..self.entered(ActivationView::Ids(seq![token]))
        }
    }
}

/// One request of a coordinator.
#[derive(Debug)]
pub struct Hop {
    pub stage: usize,
    pub peer: u64,
    pub request: ActivationStream,
}

/// Drives one generation over the network.
#[derive(Debug)]
pub struct Coordinator {
    session: String,
    providers: Vec<Vec<u64>>,
    max_tokens: usize,
    dead: Vec<u64>,
    reroutes: usize,
    seq: u64,
    out_ids: Vec<usize>,
    stage: usize,
    n_in: u64,
    current: Activation,
    logits: Option<Matrix>,
}

/// The contents of lists of peers.
pub open spec fn peers_of(lists: Seq<Vec<u64>>) -> Seq<Seq<u64>> {
    lists.map_values(|list: Vec<u64>| list@)
}

impl View for Coordinator {
    type V = CoordinatorView;

    closed spec fn view(&self) -> CoordinatorView {
        CoordinatorView {
            session: self.session@,
            providers: peers_of(self.providers@),
            max_tokens: self.max_tokens,
            dead: self.dead@.to_set(),
            reroutes: self.reroutes,
            seq: self.seq,
            out_ids: self.out_ids@,
            stage: self.stage,
            n_in: self.n_in,
            current: self.current@,
            logits: match self.logits {
                Some(m) => Some(m@),
                None => None,
            },
        }
    }
}

impl Coordinator {
    /// A coordinator that is about to send the prompt to the first stage.
    pub fn new(session: String, providers: Vec<Vec<u64>>, prompt: &str, max_tokens: usize) -> (out:
        Self)
        ensures
            out@ == (CoordinatorView {
                session: session@,
                providers: peers_of(providers@),
                max_tokens,
                dead: Set::empty(),
                reroutes: 0,
                seq: 0,
                out_ids: Seq::empty(),
                stage: 0,
                n_in: encode_of(prompt@).len() as u64,
                current: ActivationView::Ids(encode_of(prompt@)),
                logits: None,
            }),
    {
        let ids: Vec<usize> = encode(prompt);
        let n_in: u64 = ids.len() as u64;
        let out = Coordinator {
            session,
            providers,
            max_tokens,
            dead: Vec::new(),
            reroutes: 0,
            seq: 0,
            out_ids: Vec::new(),
            stage: 0,
            n_in,
            current: Activation::Ids(ids),
            logits: None,
        };
        assert(out@.dead =~= Set::empty());
        out
    }

    /// Whether a peer is known to be dead.
    fn is_dead(&self, peer: u64) -> (dead: bool)
        ensures
            dead == self@.dead.contains(peer),
    {
        let mut i: usize = 0;
        while i < self.dead.len()
            invariant
                i <= self.dead@.len(),
                forall|j: int| 0 <= j < i ==> #[trigger] self.dead@[j] != peer,
            decreases self.dead@.len() - i,
        {
            if self.dead[i] == peer {
                return true;
            }
            i = i + 1;
        }
        false
    }

    /// Whether all stages were gone through.
    pub fn is_pass_over(&self) -> (over: bool)
        ensures
            over == self@.pass_over(),
    {
        self.stage >= self.providers.len()
    }

    /// The request to send next: to the first provider of the stage that is not dead. Fails if
    /// there is none.
    pub fn next_hop(&self) -> (out: Result<Hop, CoordinatorError>)
        requires
            !self@.pass_over(),
        ensures
            out is Ok <==> self@.has_live(),
            out matches Ok(hop) ==> hop.stage == self@.stage && self@.asks(hop.peer)
                && hop.request@ == self@.request(),
            out matches Err(e) ==> e == CoordinatorError::NoLiveProvider(self@.stage),
    {
        let peers: &Vec<u64> = &self.providers[self.stage];
        assert(self@.providers[self.stage as int] == peers@);
        let mut i: usize = 0;
        while i < peers.len()
            invariant
                i <= peers@.len(),
                self@.providers[self.stage as int] == peers@,
                forall|j: int| 0 <= j < i ==> self@.dead.contains(#[trigger] peers@[j]),
            decreases peers@.len() - i,
        {
            let peer: u64 = peers[i];
            if !self.is_dead(peer) {
                assert(is_first_live(peers@, self@.dead, i as int));
                let request = stage_request(
                    self.session.as_str(),
                    self.stage,
                    self.seq,
                    &self.current,
                );
                return Ok(Hop { stage: self.stage, peer, request });
            }
            i = i + 1;
        }
        Err(CoordinatorError::NoLiveProvider(self.stage))
    }

    /// Takes in the response of a worker.
    pub fn on_response(&mut self, response: &StageResponse) -> (out: Result<(), CoordinatorError>)
        requires
            !old(self)@.pass_over(),
        ensures
            out is Ok <==> response.output is Some && has_length(response.output->0@),
            out is Ok ==> final(self)@ == old(self)@.after_output(
                unwired(response.output->0@),
                response.is_logits,
            ),
            out matches Err(e) ==> final(self)@ == old(self)@ && e == CoordinatorError::Wire(
                match response.output {
                    None => WireError::EmptyResponse,
                    Some(a) => WireError::Length {
                        bytes: a.data@.len() as usize,
                        rows: a.n_tokens as usize,
                        cols: a.d_model as usize,
                    },
                },
            ),
    {
        match &response.output {
            None => Err(CoordinatorError::Wire(WireError::EmptyResponse)),
            Some(a) => match proto_to_array2(a) {
                Err(e) => Err(CoordinatorError::Wire(e)),
                Ok(out) => {
                    if response.is_logits {
                        self.logits = Some(out);
                    } else {
                        self.current = Activation::Hidden(out);
                    }
                    let count: usize = self.providers.len();
                    assert(self.stage < count);
                    self.stage = self.stage + 1;
                    Ok(())
                },
            },
        }
    }

    /// Takes in that the request to `peer` failed: the same stage is asked again, elsewhere.
    pub fn on_failure(&mut self, peer: u64)
        requires
            old(self)@.reroutes < usize::MAX,
        ensures
            final(self)@ == old(self)@.after_failure(peer),
    {
        self.reroutes = self.reroutes + 1;
        let ghost before = self.dead@;
        self.dead.push(peer);
        proof {
            let after = before.push(peer);
            assert forall|p: u64| after.to_set().contains(p) == before.to_set().insert(
                peer,
            ).contains(p) by {
                if before.contains(p) {
                    let j = choose|j: int| 0 <= j < before.len() && before[j] == p;
                    assert(after[j] == p);
                }
                if after.contains(p) {
                    let j = choose|j: int| 0 <= j < after.len() && after[j] == p;
                    if j < before.len() {
                        assert(before[j] == p);
                    }
                }
                assert(after[before.len() as int] == peer);
            }
            assert(after.to_set() =~= before.to_set().insert(peer));
        }
    }

    /// Whether the pass can be ended.
    pub fn can_end_pass(&self) -> (ok: bool)
        ensures
            ok == self@.can_end_pass(),
    {
        if !self.is_pass_over() || self.n_in > u64::MAX - self.seq {
            return false;
        }
        match &self.logits {
            Some(logits) => self.out_ids.len() >= self.max_tokens || logits.nrows() > 0,
            None => true,
        }
    }

    /// Ends a pass: picks the next token and sends it to the first stage, and gives the number of
    /// the token. Gives nothing once all tokens were picked and have gone through the stages.
    pub fn end_pass(&mut self) -> (out: Result<Option<usize>, CoordinatorError>)
        requires
            old(self)@.can_end_pass(),
        ensures
            old(self)@.logits is None ==> {
                &&& out == Err::<Option<usize>, CoordinatorError>(CoordinatorError::NoLogits)
                &&& final(self)@ == old(self)@.counted()
            },
            old(self)@.logits is Some && old(self)@.out_ids.len() >= old(self)@.max_tokens ==> {
                &&& out == Ok::<Option<usize>, CoordinatorError>(None)
                &&& final(self)@ == old(self)@.counted()
            },
            old(self)@.logits is Some && old(self)@.out_ids.len() < old(self)@.max_tokens ==> {
                &&& out == Ok::<Option<usize>, CoordinatorError>(
                    Some(old(self)@.out_ids.len() as usize),
                )
                &&& exists|token: usize|
                    is_argmax(old(self)@.logits->0.rows.last(), token as int) && final(self)@
                        == #[trigger] old(self)@.counted().extended(token)
            },
    {
        let ghost before = self@;
        self.seq = self.seq + self.n_in;
        let token: usize = match &self.logits {
            None => {
                return Err(CoordinatorError::NoLogits);
            },
            Some(logits) => {
                if self.out_ids.len() >= self.max_tokens {
                    return Ok(None);
                }
                argmax_last(logits)
            },
        };
        let number: usize = self.out_ids.len();
        self.out_ids.push(token);
        let mut ids: Vec<usize> = Vec::new();
        ids.push(token);
        assert(ids@ =~= seq![token]);
        self.stage = 0;
        self.n_in = 1;
        self.current = Activation::Ids(ids);
        self.logits = None;
        assert(self@ == before.counted().extended(token));
        Ok(Some(number))
    }

    /// How many requests were sent elsewhere.
    pub fn reroutes(&self) -> (n: usize)
        ensures
            n == self@.reroutes,
    {
        self.reroutes
    }

    /// The tokens that were picked.
    pub fn out_ids(&self) -> (ids: &Vec<usize>)
        ensures
            ids@ == self@.out_ids,
    {
        &self.out_ids
    }

    /// The text of the tokens that were picked.
    pub fn text(&self) -> (text: String)
        ensures
            text@ == decode_of(self@.out_ids),
    {
        decode(self.out_ids.as_slice())
    }
}

/// A peer that failed is not asked again, and every failure is of a peer that had not failed
/// before.
pub proof fn dead_peers_are_not_asked(coordinator: CoordinatorView, peer: u64, other: u64)
    requires
        !coordinator.pass_over(),
        coordinator.asks(peer),
    ensures
        !coordinator.dead.contains(peer),
        !coordinator.after_failure(peer).asks(peer),
        coordinator.after_failure(other).asks(peer) || other == peer,
{
    let peers = coordinator.providers[coordinator.stage as int];
    let i = choose|i: int|
        #[trigger] is_first_live(peers, coordinator.dead, i) && peers[i] == peer;
    if other != peer {
        let after = coordinator.after_failure(other);
        assert(after.providers[after.stage as int] == peers);
        assert(is_first_live(after.providers[after.stage as int], after.dead, i));
    }
}

/// What one stage gives out is what the next is asked to run on: the request carries the same tokens,
/// with the same bytes for every entry, whatever their number. It is a request to the next stage, for
/// the same session and the same position. (Only what is not a number may get its quiet bit on the way.)
pub proof fn outputs_are_handed_on_whole(coordinator: CoordinatorView, a: WireView)
    requires
        a.data.len() == a.n_tokens * a.d_model * 2,
        coordinator.stage < u32::MAX,
    ensures
        ({
            let next = coordinator.after_output(unwired(a), false);
            let request = next.request();
            let on = request.input->0->Activation_0;
            &&& request.session == coordinator.session
            &&& request.stage_id == coordinator.stage + 1
            &&& request.seq_pos == coordinator.seq
            &&& request.input is Some && request.input->0 is Activation
            &&& on.n_tokens == a.n_tokens
            &&& on.d_model == a.d_model
            &&& on.data.len() == a.data.len()
            &&& forall|i: int|
                #![trigger on.data[2 * i]]
                0 <= i < a.n_tokens * a.d_model && {
                    let half = (a.data[2 * i] + 0x100 * a.data[2 * i + 1]) % 0x8000;
                    half <= 0x7c00 || half >= 0x7e00
                } ==> on.data[2 * i] == a.data[2 * i] && on.data[2 * i + 1] == a.data[2 * i + 1]
            &&& next.stage == coordinator.stage + 1
            &&& next.logits == coordinator.logits
            &&& next.providers == coordinator.providers
            &&& next.dead == coordinator.dead
            &&& next.reroutes == coordinator.reroutes
            &&& next.out_ids == coordinator.out_ids
            &&& next.max_tokens == coordinator.max_tokens
            &&& next.n_in == coordinator.n_in
        }),
{
    arrivals_travel_on_unchanged(a);
}

/// Logits are kept entry by entry, as a row for each token, until the pass ends.
pub proof fn logits_are_kept_whole(coordinator: CoordinatorView, a: WireView, r: int, c: int)
    requires
        a.data.len() == a.n_tokens * a.d_model * 2,
        0 <= r < a.n_tokens,
        0 <= c < a.d_model,
        coordinator.stage < usize::MAX,
    ensures
        ({
            let next = coordinator.after_output(unwired(a), true);
            let i = r * a.d_model + c;
            &&& next.logits is Some
            &&& next.logits->0.rows.len() == a.n_tokens
            &&& next.logits->0.rows[r].len() == a.d_model
            &&& next.logits->0.rows[r][c] == widened_half(
                (a.data[2 * i] + 0x100 * a.data[2 * i + 1]) as u16,
            )
            &&& next.stage == coordinator.stage + 1
            &&& next.out_ids == coordinator.out_ids
            &&& next.seq == coordinator.seq
            &&& next.n_in == coordinator.n_in
        }),
{
    arrivals_are_read_row_by_row(a, r, c);
}

/// A failure changes nothing but who is asked: the same request goes to the first peer of the stage
/// that has not failed, and is counted as one reroute.
pub proof fn failures_only_change_the_peer(coordinator: CoordinatorView, peer: u64, next: u64, i: int)
    requires
        coordinator.reroutes < usize::MAX,
        coordinator.stage < coordinator.providers.len(),
        0 <= i < coordinator.providers[coordinator.stage as int].len(),
        coordinator.providers[coordinator.stage as int][i] == next,
        next != peer,
        !coordinator.dead.contains(next),
        forall|j: int|
            0 <= j < i ==> coordinator.dead.contains(
                #[trigger] coordinator.providers[coordinator.stage as int][j],
            ) || coordinator.providers[coordinator.stage as int][j] == peer,
    ensures
        ({
            let after = coordinator.after_failure(peer);
            &&& after.asks(next)
            &&& after.has_live()
            &&& after.request() == coordinator.request()
            &&& after.stage == coordinator.stage
            &&& after.reroutes == coordinator.reroutes + 1
            &&& after.dead.contains(peer)
            &&& forall|p: u64| p != peer ==> after.dead.contains(p) == coordinator.dead.contains(p)
            &&& after.out_ids == coordinator.out_ids
            &&& after.logits == coordinator.logits
        }),
{
    let after = coordinator.after_failure(peer);
    assert(is_first_live(after.providers[after.stage as int], after.dead, i));
    assert(after.providers[after.stage as int][i] == next);
}

/// The request to the first stage carries the ids, each as it is; what comes behind it is at the position
/// behind all tokens that have gone through before.
pub proof fn positions_count_all_tokens(
    coordinator: CoordinatorView,
    prompt: nat,
    token: usize,
)
    requires
        coordinator.seq + coordinator.n_in == prompt + coordinator.out_ids.len(),
        coordinator.seq + coordinator.n_in <= u64::MAX,
        token <= u32::MAX,
    ensures
        ({
            let next = coordinator.counted().extended(token);
            let request = next.request();
            &&& next.seq + next.n_in == prompt + next.out_ids.len()
            &&& next.out_ids.len() == coordinator.out_ids.len() + 1
            &&& next.out_ids.last() == token
            &&& next.out_ids.drop_last() == coordinator.out_ids
            &&& request.seq_pos == prompt + coordinator.out_ids.len()
            &&& request.stage_id == 0
            &&& request.session == coordinator.session
            &&& request.input is Some && request.input->0 is Ids
            &&& request.input->0->Ids_0.len() == 1
            &&& request.input->0->Ids_0[0] == token
            &&& next.logits is None
            &&& next.stage == 0
            &&& next.dead == coordinator.dead
            &&& next.reroutes == coordinator.reroutes
        }),
{
    let next = coordinator.counted().extended(token);
    assert(next.out_ids.drop_last() =~= coordinator.out_ids);
}

/// A pass asks as many stages as there are, one behind the other: it is over once each of them has answered,
/// and not before.
pub proof fn a_pass_asks_every_stage(
    coordinator: CoordinatorView,
    input: ActivationView,
    answers: Seq<CoordinatorView>,
    outs: Seq<Grid>,
    flags: Seq<bool>,
    n: int,
)
    requires
        coordinator.providers.len() <= usize::MAX,
        answers.len() == outs.len() + 1,
        outs.len() == flags.len(),
        answers[0] == coordinator.entered(input),
        forall|i: int|
            0 <= i < outs.len() ==> #[trigger] answers[i + 1] == answers[i].after_output(
                outs[i],
                flags[i],
            ),
        0 <= n <= outs.len(),
        n <= coordinator.providers.len(),
    ensures
        answers[n].stage == n,
        answers[n].providers == coordinator.providers,
        answers[n].session == coordinator.session,
        answers[n].seq == coordinator.seq,
        answers[n].out_ids == coordinator.out_ids,
        answers[n].pass_over() <==> n == coordinator.providers.len(),
    decreases n,
{
    if n > 0 {
        a_pass_asks_every_stage(coordinator, input, answers, outs, flags, n - 1);
        assert(answers[n - 1 + 1] == answers[n - 1].after_output(outs[n - 1], flags[n - 1]));
    }
}

/// A bootstrap address is cut behind the peer, which holds no `@`. The address itself may hold one.
pub proof fn bootstrap_addresses_are_cut_behind_the_peer(peer: Seq<char>, address: Seq<char>, at: int)
    requires
        forall|i: int| 0 <= i < peer.len() ==> #[trigger] peer[i] != '@',
    ensures
        is_first_char(peer + seq!['@'] + address, '@', at) <==> at == peer.len(),
        (peer + seq!['@'] + address).take(peer.len() as int) == peer,
        (peer + seq!['@'] + address).skip(peer.len() as int + 1) == address,
{
    let s = peer + seq!['@'] + address;
    assert(s[peer.len() as int] == '@');
    assert forall|i: int| 0 <= i < peer.len() implies #[trigger] s[i] != '@' by {
        assert(s[i] == peer[i]);
    }
    assert(s.take(peer.len() as int) =~= peer);
    assert(s.skip(peer.len() as int + 1) =~= address);
}

} // verus!
