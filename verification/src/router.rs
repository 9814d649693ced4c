//! Stage discovery and latency-aware pipeline assembly.
//!
//! The one question is which live nodes that are not blocked serve a stage, and how close they
//! are. What travels between stages is tiny, so the router goes by latency and not by bandwidth:
//! the provider with the lowest sum of round-trip time and queue delay serves the stage.

use vstd::arithmetic::power2::{lemma_pow2_adds, lemma_pow2_pos, lemma_pow2_unfold, pow2};
use vstd::prelude::*;

use crate::accuracy::{adding_zero_changes_nothing, lemma_bits, lemma_sum, near};
use crate::double::{
    larger_patterns_are_larger_doubles, lemma_pow2_split, magnitude, precedes, sum, sum_of,
    total_place,
};
use crate::error::NetError;
use crate::ledger::{Ledger, LedgerView, Tier};
use crate::numbers::DOUBLE_INFINITY;

verus! {

/// A node that says it serves a stage.
#[derive(Debug)]
pub struct Provider {
    pub node_id: String,
    pub stage_id: usize,
    /// The bit pattern of its double-precision round-trip time in milliseconds.
    pub rtt_ms: u64,
}

/// The contents of a provider.
pub struct ProviderView {
    pub node_id: Seq<char>,
    pub stage_id: usize,
    pub rtt_ms: u64,
}

impl View for Provider {
    type V = ProviderView;

    open spec fn view(&self) -> ProviderView {
        ProviderView { node_id: self.node_id@, stage_id: self.stage_id, rtt_ms: self.rtt_ms }
    }
}

/// The names in a list.
pub open spec fn names_of(names: Seq<String>) -> Set<Seq<char>> {
    Set::new(|name: Seq<char>| exists|i: int| 0 <= i < names.len() && (#[trigger] names[i])@ == name)
}

/// Whether `name` is in the list.
pub fn is_listed(names: &Vec<String>, name: &String) -> (found: bool)
    ensures
        found == names_of(names@).contains(name@),
{
    let mut i: usize = 0;
    while i < names.len()
        invariant
            i <= names@.len(),
            forall|j: int| 0 <= j < i ==> (#[trigger] names@[j])@ != name@,
        decreases names@.len() - i,
    {
        if names[i] == *name {
            assert(names@[i as int]@ == name@);
            return true;
        }
        i = i + 1;
    }
    false
}

/// Whether `p` may serve `stage`: it says so, is not excluded and is not blocked.
pub open spec fn candidate(
    p: ProviderView,
    stage: usize,
    exclude: Set<Seq<char>>,
    ledger: LedgerView,
) -> bool {
    &&& p.stage_id == stage
    &&& !exclude.contains(p.node_id)
    &&& ledger.access_of(p.node_id).tier != Tier::Blocked
}

/// The cost of a provider: its round-trip time and its queue delay.
pub open spec fn cost_of(p: ProviderView, ledger: LedgerView) -> u64 {
    sum_of(p.rtt_ms, ledger.access_of(p.node_id).queue_delay_ms)
}

/// Whether some provider may serve `stage`.
pub open spec fn covered(
    providers: Seq<ProviderView>,
    stage: usize,
    exclude: Set<Seq<char>>,
    ledger: LedgerView,
) -> bool {
    exists|i: int|
        0 <= i < providers.len() && candidate(#[trigger] providers[i], stage, exclude, ledger)
}

/// Whether the provider at `i` is the one for `stage`: no candidate costs less, and none that was
/// announced earlier costs the same.
pub open spec fn is_best(
    providers: Seq<ProviderView>,
    stage: usize,
    exclude: Set<Seq<char>>,
    ledger: LedgerView,
    i: int,
) -> bool {
    &&& 0 <= i < providers.len()
    &&& candidate(providers[i], stage, exclude, ledger)
    &&& forall|j: int|
        0 <= j < providers.len() && candidate(#[trigger] providers[j], stage, exclude, ledger)
            ==> total_place(cost_of(providers[i], ledger)) <= total_place(
            cost_of(providers[j], ledger),
        )
    &&& forall|j: int|
        0 <= j < i && candidate(#[trigger] providers[j], stage, exclude, ledger) ==> total_place(
            cost_of(providers[i], ledger),
        ) < total_place(cost_of(providers[j], ledger))
}

/// Whether `id` is the node that serves `stage`.
pub open spec fn serves(
    providers: Seq<ProviderView>,
    stage: usize,
    exclude: Set<Seq<char>>,
    ledger: LedgerView,
    id: Seq<char>,
) -> bool {
    exists|i: int|
        #[trigger] is_best(providers, stage, exclude, ledger, i) && providers[i].node_id == id
}

/// Whether `pipeline` holds the right node for every stage, in order.
pub open spec fn is_pipeline(
    providers: Seq<ProviderView>,
    exclude: Set<Seq<char>>,
    ledger: LedgerView,
    pipeline: Seq<String>,
) -> bool {
    forall|s: int|
        0 <= s < pipeline.len() ==> serves(
            providers,
            s as usize,
            exclude,
            ledger,
            (#[trigger] pipeline[s])@,
        )
}

/// All stages and their providers, as far as one node knows them.
#[derive(Debug)]
pub struct Router {
    providers: Vec<Provider>,
}

impl View for Router {
    type V = Seq<ProviderView>;

    closed spec fn view(&self) -> Seq<ProviderView> {
        self.providers@.map_values(|p: Provider| p@)
    }
}

impl Router {
    /// A router that knows no provider.
    pub fn new() -> (router: Self)
        ensures
            router@ == Seq::<ProviderView>::empty(),
    {
        let router = Router { providers: Vec::new() };
        assert(router@ =~= Seq::<ProviderView>::empty());
        router
    }

    /// Takes in that `node_id` serves `stage_id` at `rtt_ms`.
    pub fn announce(&mut self, node_id: &str, stage_id: usize, rtt_ms: u64)
        ensures
            final(self)@ == old(self)@.push(ProviderView { node_id: node_id@, stage_id, rtt_ms }),
    {
        let provider = Provider { node_id: node_id.to_owned(), stage_id, rtt_ms };
        self.providers.push(provider);
        assert(self@ =~= old(self)@.push(ProviderView { node_id: node_id@, stage_id, rtt_ms }));
    }

    /// Whether the ledger lets `node_id` serve.
    fn eligible(ledger: &Ledger, node_id: &str) -> (ok: bool)
        requires
            ledger.wf(),
        ensures
            ok == (ledger@.access_of(node_id@).tier != Tier::Blocked),
    {
        ledger.access(node_id).tier != Tier::Blocked
    }

    /// The best provider of one stage.
    fn best(&self, stage: usize, exclude: &Vec<String>, ledger: &Ledger) -> (best: Option<usize>)
        requires
            ledger.wf(),
        ensures
            best is Some <==> covered(self@, stage, names_of(exclude@), ledger@),
            best matches Some(i) ==> is_best(
                self@,
                stage,
                names_of(exclude@),
                ledger@,
                i as int,
            ),
    {
        let ghost excluded = names_of(exclude@);
        let mut best: Option<usize> = None;
        let mut least: u64 = 0;
        let mut i: usize = 0;
        while i < self.providers.len()
            invariant
                i <= self.providers@.len(),
                ledger.wf(),
                excluded == names_of(exclude@),
                best is None ==> forall|j: int|
                    0 <= j < i ==> !candidate(#[trigger] self@[j], stage, excluded, ledger@),
                best matches Some(b) ==> {
                    &&& b < i
                    &&& candidate(self@[b as int], stage, excluded, ledger@)
                    &&& least == cost_of(self@[b as int], ledger@)
                    &&& forall|j: int|
                        0 <= j < i && candidate(#[trigger] self@[j], stage, excluded, ledger@)
                            ==> total_place(least) <= total_place(cost_of(self@[j], ledger@))
                    &&& forall|j: int|
                        0 <= j < b && candidate(#[trigger] self@[j], stage, excluded, ledger@)
                            ==> total_place(least) < total_place(cost_of(self@[j], ledger@))
                },
            decreases self.providers@.len() - i,
        {
            let p = &self.providers[i];
            assert(p@ == self@[i as int]);
            if p.stage_id == stage && !is_listed(exclude, &p.node_id) && Self::eligible(
                ledger,
                p.node_id.as_str(),
            ) {
                let delay: u64 = ledger.access(p.node_id.as_str()).queue_delay_ms;
                let cost: u64 = sum(p.rtt_ms, delay);
                let better: bool = match best {
                    Some(_) => precedes(cost, least),
                    None => true,
                };
                if better {
                    best = Some(i);
                    least = cost;
                }
            }
            i = i + 1;
        }
        best
    }

    /// Assembles the pipeline of lowest latency for the stages below `n_stages`, without excluded
    /// and blocked providers. Fails at the first stage that nobody may serve.
    pub fn assemble(&self, n_stages: usize, exclude: &Vec<String>, ledger: &Ledger) -> (out: Result<
        Vec<String>,
        NetError,
    >)
        requires
            ledger.wf(),
        ensures
            out is Ok <==> forall|s: usize|
                s < n_stages ==> #[trigger] covered(self@, s, names_of(exclude@), ledger@),
            out matches Ok(pipeline) ==> pipeline@.len() == n_stages && is_pipeline(
                self@,
                names_of(exclude@),
                ledger@,
                pipeline@,
            ),
            out matches Err(NetError::NoProvider(stage)) ==> {
                &&& stage < n_stages
                &&& !covered(self@, stage, names_of(exclude@), ledger@)
                &&& forall|s: usize|
                    s < stage ==> #[trigger] covered(self@, s, names_of(exclude@), ledger@)
            },
    {
        let ghost excluded = names_of(exclude@);
        let mut pipeline: Vec<String> = Vec::new();
        let mut stage: usize = 0;
        while stage < n_stages
            invariant
                stage <= n_stages,
                ledger.wf(),
                excluded == names_of(exclude@),
                pipeline@.len() == stage,
                is_pipeline(self@, excluded, ledger@, pipeline@),
                forall|s: usize| s < stage ==> #[trigger] covered(self@, s, excluded, ledger@),
            decreases n_stages - stage,
        {
            match self.best(stage, exclude, ledger) {
                Some(i) => {
                    assert(self@[i as int] == self.providers@[i as int]@);
                    let ghost before = pipeline@;
                    pipeline.push(self.providers[i].node_id.clone());
                    assert forall|s: int| 0 <= s < pipeline@.len() implies serves(
                        self@,
                        s as usize,
                        excluded,
                        ledger@,
                        (#[trigger] pipeline@[s])@,
                    ) by {
                        if s < before.len() {
                            assert(pipeline@[s] == before[s]);
                        }
                    }
                },
                None => {
                    return Err(NetError::NoProvider(stage));
                },
            }
            stage = stage + 1;
        }
        Ok(pipeline)
    }
}

impl Default for Router {
    fn default() -> (router: Self)
        ensures
            router@ == Seq::<ProviderView>::empty(),
    {
        Router::new()
    }
}

/// A stage has at most one node that serves it.
pub proof fn one_node_serves_a_stage(
    providers: Seq<ProviderView>,
    stage: usize,
    exclude: Set<Seq<char>>,
    ledger: LedgerView,
    a: Seq<char>,
    b: Seq<char>,
)
    requires
        serves(providers, stage, exclude, ledger, a),
        serves(providers, stage, exclude, ledger, b),
    ensures
        a == b,
{
    let i = choose|i: int|
        #[trigger] is_best(providers, stage, exclude, ledger, i) && providers[i].node_id == a;
    let j = choose|j: int|
        #[trigger] is_best(providers, stage, exclude, ledger, j) && providers[j].node_id == b;
    assert(candidate(providers[i], stage, exclude, ledger));
    assert(candidate(providers[j], stage, exclude, ledger));
}

/// A node that serves a stage is neither excluded nor blocked, and no candidate is cheaper.
pub proof fn the_serving_node_is_eligible_and_cheapest(
    providers: Seq<ProviderView>,
    stage: usize,
    exclude: Set<Seq<char>>,
    ledger: LedgerView,
    id: Seq<char>,
    rival: int,
)
    requires
        serves(providers, stage, exclude, ledger, id),
        0 <= rival < providers.len(),
        candidate(providers[rival], stage, exclude, ledger),
    ensures
        !exclude.contains(id),
        ledger.access_of(id).tier != Tier::Blocked,
        exists|i: int|
            0 <= i < providers.len() && (#[trigger] providers[i]).node_id == id && providers[i].stage_id
                == stage && total_place(cost_of(providers[i], ledger)) <= total_place(
                cost_of(providers[rival], ledger),
            ),
{
    let i = choose|i: int|
        #[trigger] is_best(providers, stage, exclude, ledger, i) && providers[i].node_id == id;
    assert(providers[i].node_id == id);
}

/// Excluding a node changes nothing for the stages that other nodes serve.
pub proof fn rerouting_keeps_the_other_stages(
    providers: Seq<ProviderView>,
    stage: usize,
    exclude: Set<Seq<char>>,
    ledger: LedgerView,
    id: Seq<char>,
    dropped: Seq<char>,
)
    requires
        serves(providers, stage, exclude, ledger, id),
        id != dropped,
    ensures
        serves(providers, stage, exclude.insert(dropped), ledger, id),
{
    let i = choose|i: int|
        #[trigger] is_best(providers, stage, exclude, ledger, i) && providers[i].node_id == id;
    assert(is_best(providers, stage, exclude.insert(dropped), ledger, i));
}

/// Who serves a stage: a node that announced it, that is known, neither banned nor excluded, and that has the
/// least latency, its round-trip time and its queue delay together. Of several with the same it is the one that
/// was announced first.
pub proof fn the_nearest_node_serves(
    providers: Seq<ProviderView>,
    stage: usize,
    exclude: Set<Seq<char>>,
    ledger: LedgerView,
    id: Seq<char>,
    rival: int,
)
    requires
        serves(providers, stage, exclude, ledger, id),
        0 <= rival < providers.len(),
        providers[rival].stage_id == stage,
        !exclude.contains(providers[rival].node_id),
        ledger.accounts.contains_key(providers[rival].node_id),
        !ledger.accounts[providers[rival].node_id].banned,
        forall|j: int|
            0 <= j < providers.len() ==> (#[trigger] providers[j]).rtt_ms < 0x7000_0000_0000_0000
                && ledger.access_of(providers[j].node_id).queue_delay_ms < 0x7000_0000_0000_0000,
    ensures
        exists|i: int|
            {
                let (p, r) = (#[trigger] providers[i], providers[rival]);
                let delay = ledger.access_of(p.node_id).queue_delay_ms;
                let rival_delay = ledger.access_of(r.node_id).queue_delay_ms;
                let time = magnitude(p.rtt_ms) + magnitude(delay);
                let rival_time = magnitude(r.rtt_ms) + magnitude(rival_delay);
                &&& 0 <= i < providers.len()
                &&& p.node_id == id
                &&& p.stage_id == stage
                &&& !exclude.contains(id)
                &&& ledger.accounts.contains_key(id) && !ledger.accounts[id].banned
                &&& near(time) <= near(rival_time)
                &&& rival < i ==> near(time) < near(rival_time)
                &&& delay == 0 && rival_delay == 0 ==> p.rtt_ms <= r.rtt_ms
                &&& delay == 0 && rival_delay == 0 && rival < i ==> p.rtt_ms < r.rtt_ms
            },
{
    let i = choose|i: int|
        #[trigger] is_best(providers, stage, exclude, ledger, i) && providers[i].node_id == id;
    let (p, r) = (providers[i], providers[rival]);
    assert(candidate(r, stage, exclude, ledger));
    lemma_cost(p, ledger);
    lemma_cost(r, ledger);
    let (a, b) = (cost_of(p, ledger), cost_of(r, ledger));
    assert(a <= b);
    if a < b {
        larger_patterns_are_larger_doubles(a, b);
    }
}

/// What a provider costs, in numbers.
proof fn lemma_cost(p: ProviderView, ledger: LedgerView)
    requires
        p.rtt_ms < 0x7000_0000_0000_0000,
        ledger.access_of(p.node_id).queue_delay_ms < 0x7000_0000_0000_0000,
    ensures
        ({
            let delay = ledger.access_of(p.node_id).queue_delay_ms;
            let cost = cost_of(p, ledger);
            &&& cost < DOUBLE_INFINITY
            &&& magnitude(cost) == near(magnitude(p.rtt_ms) + magnitude(delay))
            &&& delay == 0 ==> cost == p.rtt_ms
        }),
{
    let delay = ledger.access_of(p.node_id).queue_delay_ms;
    lemma_moderate(p.rtt_ms);
    lemma_moderate(delay);
    lemma_pow2_unfold(1954);
    lemma_pow2_adds(1954, 46);
    lemma_pow2_pos(46);
    assert(pow2(1954) <= pow2(2000)) by (nonlinear_arith)
        requires
            pow2(2000) == pow2(1954) * pow2(46),
            pow2(46) >= 1,
            pow2(1954) >= 0,
    ;
    lemma_sum(p.rtt_ms, delay);
    if delay == 0 {
        adding_zero_changes_nothing(p.rtt_ms);
    }
}

/// Doubles that are far from the largest.
proof fn lemma_moderate(x: u64)
    requires
        x < 0x7000_0000_0000_0000,
    ensures
        magnitude(x) <= pow2(1953),
{
    let (v, e) = lemma_bits(x);
    vstd::arithmetic::power2::lemma2_to64_rest();
    lemma_pow2_split(e, 1900);
    lemma_pow2_adds(53, 1900);
    assert(v * pow2(e) <= 0x20_0000_0000_0000 * pow2(1900)) by (nonlinear_arith)
        requires
            v <= 0x20_0000_0000_0000,
            pow2(e) <= pow2(1900),
    ;
}

/// A stage is covered as long as one node that announced it is known, and neither banned nor excluded.
pub proof fn one_good_provider_covers_a_stage(
    providers: Seq<ProviderView>,
    stage: usize,
    exclude: Set<Seq<char>>,
    ledger: LedgerView,
)
    ensures
        covered(providers, stage, exclude, ledger) <==> exists|i: int|
            0 <= i < providers.len() && (#[trigger] providers[i]).stage_id == stage
                && !exclude.contains(providers[i].node_id) && ledger.accounts.contains_key(
                providers[i].node_id,
            ) && !ledger.accounts[providers[i].node_id].banned,
{
    if covered(providers, stage, exclude, ledger) {
        let i = choose|i: int|
            0 <= i < providers.len() && candidate(#[trigger] providers[i], stage, exclude, ledger);
        assert(providers[i].stage_id == stage);
    }
    if exists|i: int|
        0 <= i < providers.len() && (#[trigger] providers[i]).stage_id == stage && !exclude.contains(
            providers[i].node_id,
        ) && ledger.accounts.contains_key(providers[i].node_id)
            && !ledger.accounts[providers[i].node_id].banned {
        let i = choose|i: int|
            0 <= i < providers.len() && (#[trigger] providers[i]).stage_id == stage
                && !exclude.contains(providers[i].node_id) && ledger.accounts.contains_key(
                providers[i].node_id,
            ) && !ledger.accounts[providers[i].node_id].banned;
        assert(candidate(providers[i], stage, exclude, ledger));
    }
}

/// Every name of a list is in it, wherever it stands, and nothing else is.
pub proof fn listed_names_are_the_names_in_the_list(names: Seq<String>, other: Seq<char>, i: int)
    requires
        0 <= i < names.len(),
    ensures
        names_of(names).contains(names[i]@),
        names_of(names).contains(other) ==> exists|j: int|
            0 <= j < names.len() && (#[trigger] names[j])@ == other,
        names_of(Seq::<String>::empty()) == Set::<Seq<char>>::empty(),
{
    assert(names_of(Seq::<String>::empty()) =~= Set::<Seq<char>>::empty());
}

} // verus!
