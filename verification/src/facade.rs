//! A chat-completions facade over the swarm, in the shapes that existing clients know.

use vstd::prelude::*;

use crate::config::ModelConfig;
use crate::engine::{nodes_wf, Engine, EngineView, GenStats};
use crate::ledger::{default_pact, Account, Ledger};
use crate::node::{HostedView, Node, NodeView, Tamper};
use crate::pow::{is_first_pow, pow_holds};
use crate::random::Stream;
use crate::router::{ProviderView, Router};
use crate::shard::{shard, shard_of, stages_cover_the_model};
use crate::stage::Stage;
use crate::table::Table;
use crate::text::{decimal, decimal_of, decimals_differ, hex, hex_of};
use crate::tokenizer::{encode, encode_of};
use crate::transport::{LinkProfile, MonitorView};
use crate::verify::{Verifier, VerifierView};
use crate::weights::Weights;
use crate::worker::{default_link, stage_of};

verus! {

/// The result of one generation.
#[derive(Debug)]
pub struct GenOutput {
    pub text: String,
    pub completion_tokens: usize,
    pub prompt_tokens: usize,
    pub audits: usize,
    pub audit_fails: usize,
    pub reroutes: usize,
}

impl GenOutput {
    /// The result of a generation from its prompt, text, tokens and counts.
    pub fn new(prompt: &str, text: String, ids: &Vec<usize>, stats: &GenStats) -> (out: Self)
        ensures
            out.text@ == text@,
            out.completion_tokens == ids@.len(),
            out.prompt_tokens == encode_of(prompt@).len(),
            out.audits == stats.audits,
            out.audit_fails == stats.audit_fails,
            out.reroutes == stats.reroutes,
    {
        GenOutput {
            text,
            completion_tokens: ids.len(),
            prompt_tokens: encode(prompt).len(),
            audits: stats.audits,
            audit_fails: stats.audit_fails,
            reroutes: stats.reroutes,
        }
    }
}

/// One message of a chat.
#[derive(Debug)]
pub struct ChatMessage {
    pub role: String,
    pub content: String,
}

/// A request for a completion.
#[derive(Debug)]
pub struct ChatRequest {
    pub model: String,
    pub messages: Vec<ChatMessage>,
    pub max_tokens: usize,
    /// The bit pattern of the double-precision sampling temperature.
    pub temperature: u64,
}

/// The message of a completion.
#[derive(Debug)]
pub struct AssistantMessage {
    pub role: String,
    pub content: String,
}

/// One choice of a completion.
#[derive(Debug)]
pub struct Choice {
    pub index: u32,
    pub message: AssistantMessage,
    pub finish_reason: String,
}

/// The tokens of a completion.
#[derive(Debug)]
pub struct Usage {
    pub prompt_tokens: usize,
    pub completion_tokens: usize,
    pub total_tokens: usize,
}

/// What the swarm went through for a completion.
#[derive(Debug)]
pub struct HopperTelemetry {
    pub audits: usize,
    pub audit_fails: usize,
    pub reroutes: usize,
}

/// A completion.
#[derive(Debug)]
pub struct ChatResponse {
    pub id: String,
    pub object: String,
    pub created: u64,
    pub model: String,
    pub choices: Vec<Choice>,
    pub usage: Usage,
    pub hopper: HopperTelemetry,
}

/// The model of a request that names none.
pub fn default_model() -> (model: String)
    ensures
        model@ == "hopper-tiny"@,
{
    "hopper-tiny".to_owned()
}

/// The number of tokens of a request that gives none.
pub fn default_max_tokens() -> (n: usize)
    ensures
        n == 64,
{
    64
}

/// A message as a line of the prompt.
pub open spec fn line_of(message: ChatMessage) -> Seq<char> {
    message.role@ + ": "@ + message.content@
}

/// The prompt of a chat: one line for each message.
pub open spec fn prompt_of(messages: Seq<ChatMessage>) -> Seq<char>
    decreases messages.len(),
{
    if messages.len() == 0 {
        Seq::empty()
    } else if messages.len() == 1 {
        line_of(messages[0])
    } else {
        prompt_of(messages.drop_last()) + "\n"@ + line_of(messages.last())
    }
}

/// The prompt of a chat: one line for each message.
pub fn prompt(messages: &Vec<ChatMessage>) -> (text: String)
    ensures
        text@ == prompt_of(messages@),
{
    let mut text: String = "".to_owned();
    proof {
        reveal_strlit("");
    }
    let mut i: usize = 0;
    assert(messages@.take(0) =~= Seq::empty());
    assert(text@ =~= Seq::empty());
    while i < messages.len()
        invariant
            i <= messages@.len(),
            text@ == prompt_of(messages@.take(i as int)),
        decreases messages@.len() - i,
    {
        let ghost before = text@;
        let ghost front = messages@.take(i + 1);
        assert(front.drop_last() =~= messages@.take(i as int));
        if i > 0 {
            text.append("\n");
        }
        text.append(messages[i].role.as_str());
        text.append(": ");
        text.append(messages[i].content.as_str());
        proof {
            let line = line_of(messages@[i as int]);
            if i > 0 {
                assert(text@ =~= before + "\n"@ + line);
            } else {
                assert(before =~= Seq::empty());
                assert(text@ =~= line);
            }
        }
        i = i + 1;
    }
    assert(messages@.take(i as int) =~= messages@);
    text
}

/// The completion of a request: the `number`th of this process, at `created` seconds.
pub fn completion(number: u64, created: u64, model: String, out: GenOutput) -> (response: ChatResponse)
    requires
        out.prompt_tokens + out.completion_tokens <= usize::MAX,
    ensures
        response.id@ == "chatcmpl-"@ + hex_of(number as nat, 12),
        response.object@ == "chat.completion"@,
        response.created == created,
        response.model@ == model@,
        response.choices@.len() == 1,
        response.choices@[0].index == 0,
        response.choices@[0].message.role@ == "assistant"@,
        response.choices@[0].message.content@ == out.text@,
        response.choices@[0].finish_reason@ == "length"@,
        response.usage.prompt_tokens == out.prompt_tokens,
        response.usage.completion_tokens == out.completion_tokens,
        response.usage.total_tokens == out.prompt_tokens + out.completion_tokens,
        response.hopper.audits == out.audits,
        response.hopper.audit_fails == out.audit_fails,
        response.hopper.reroutes == out.reroutes,
{
    let mut id: String = "chatcmpl-".to_owned();
    id.append(hex(number, 12).as_str());
    let GenOutput { text, completion_tokens, prompt_tokens, audits, audit_fails, reroutes } = out;
    let mut choices: Vec<Choice> = Vec::new();
    choices.push(
        Choice {
            index: 0,
            message: AssistantMessage { role: "assistant".to_owned(), content: text },
            finish_reason: "length".to_owned(),
        },
    );
    ChatResponse {
        id,
        object: "chat.completion".to_owned(),
        created,
        model,
        choices,
        usage: Usage {
            prompt_tokens,
            completion_tokens,
            total_tokens: prompt_tokens + completion_tokens,
        },
        hopper: HopperTelemetry { audits, audit_fails, reroutes },
    }
}

/// The name of the local node of a stage.
pub open spec fn local_id(stage: int) -> Seq<char> {
    "local-"@ + decimal_of(stage as nat)
}

/// Whether a name is that of the local node of one of the first `n` stages.
pub open spec fn is_local_id(id: Seq<char>, n: int) -> bool {
    exists|s: int| 0 <= s < n && id == #[trigger] local_id(s)
}

/// The local node of a stage.
pub open spec fn local_node<'w>(cfg: ModelConfig, weights: &'w Weights, n_stages: nat, stage: int) -> NodeView<
    'w,
> {
    NodeView {
        id: local_id(stage),
        link: default_link(),
        flops_served: 0,
        tamper: Tamper::Honest,
        hosted: Map::empty().insert(
            stage as usize,
            HostedView { stage: stage_of(cfg, weights, n_stages, stage), sessions: Map::empty() },
        ),
        rng: Stream { seed: stage as u64, position: 0 },
    }
}

/// Whether an identity can be minted at the difficulty of local nodes.
pub open spec fn mints(id: Seq<char>) -> bool {
    exists|nonce: u64| nonce < u64::MAX && #[trigger] pow_holds(id, nonce, 4)
}

/// Whether an account is as it was minted.
pub open spec fn newly_minted(account: Account, id: Seq<char>) -> bool {
    &&& is_first_pow(id, account.nonce, 4)
    &&& account.stake == 100
    &&& !account.banned
    &&& account.seeded == 0 && account.leeched == 0 && account.taken == 0
    &&& account.minted_at == 0 && account.delay_ms == 0
}

/// Whether an engine serves all stages of a model from local nodes, and audits nobody.
pub open spec fn is_local<'w>(
    engine: EngineView<'w>,
    cfg: ModelConfig,
    weights: &'w Weights,
    n_stages: usize,
) -> bool {
    &&& engine.n_stages == n_stages
    &&& engine.rng == (Stream { seed: 7, position: 0 })
    &&& engine.session_counter == 0
    &&& engine.monitor == MonitorView::blank()
    &&& engine.router == Seq::new(
        n_stages as nat,
        |s: int|
            ProviderView {
                node_id: local_id(s),
                stage_id: s as usize,
                rtt_ms: 0x4024_0000_0000_0000,
            },
    )
    &&& forall|s: int|
        0 <= s < n_stages ==> {
            &&& engine.nodes.contains_key(#[trigger] local_id(s))
            &&& engine.nodes[local_id(s)] == local_node(cfg, weights, n_stages as nat, s)
            &&& engine.ledger.accounts.contains_key(local_id(s))
            &&& newly_minted(engine.ledger.accounts[local_id(s)], local_id(s))
        }
    &&& engine.ledger.now == 0
    &&& engine.ledger.pact == default_pact()
    &&& engine.ledger.accounts.contains_key("client"@)
    &&& newly_minted(engine.ledger.accounts["client"@], "client"@)
    &&& forall|id: Seq<char>| #[trigger]
        engine.nodes.contains_key(id) ==> is_local_id(id, n_stages as int)
    &&& forall|id: Seq<char>| #[trigger]
        engine.ledger.accounts.contains_key(id) ==> id == "client"@ || is_local_id(
            id,
            n_stages as int,
        )
    &&& engine.verifier == (VerifierView {
        cfg,
        weights,
        bounds: shard_of(cfg.n_layer as nat, n_stages as nat),
        audit_prob: 0,
        tolerance: 0x3f60_624d_d2f1_a9fc,
        hw_noise: 0,
        rng: Stream { seed: 0, position: 0 },
    })
}

proof fn lemma_local_ids_differ(a: int, b: int)
    requires
        0 <= a,
        0 <= b,
        local_id(a) == local_id(b),
    ensures
        a == b,
{
    let n = "local-"@.len() as int;
    assert(local_id(a).skip(n) =~= decimal_of(a as nat));
    assert(local_id(b).skip(n) =~= decimal_of(b as nat));
    decimals_differ(a as nat, b as nat);
}

proof fn lemma_client_is_not_local(a: int)
    ensures
        local_id(a) != "client"@,
{
    reveal_strlit("local-");
    reveal_strlit("client");
    assert(local_id(a)[0] == 'l');
}

/// An engine that serves all stages of a model from nodes of this process. There is none if the
/// identity of a node or of the client cannot be minted.
pub fn build_inprocess_engine<'w>(cfg: &ModelConfig, weights: &'w Weights, n_stages: usize) -> (out:
    Option<Engine<'w>>)
    requires
        n_stages <= 0x20_0000_0000_0000,
    ensures
        out is Some <==> mints("client"@) && forall|s: int|
            0 <= s < n_stages ==> mints(#[trigger] local_id(s)),
        out matches Some(engine) ==> engine.wf() && is_local(engine@, *cfg, weights, n_stages),
{
    broadcast use Stage::lemma_over;

    let bounds: Vec<(usize, usize)> = shard(cfg, n_stages);
    let mut ledger: Ledger = Ledger::default();
    let mut router: Router = Router::new();
    let mut nodes: Table<Node<'w>> = Table::new();
    let mut sid: usize = 0;
    while sid < n_stages
        invariant
            sid <= n_stages <= 0x20_0000_0000_0000,
            bounds@ == shard_of(cfg.n_layer as nat, n_stages as nat),
            ledger.wf(),
            ledger@.pact == default_pact(),
            ledger@.now == 0,
            nodes.wf(),
            nodes_wf(nodes@),
            router@ == Seq::new(
                sid as nat,
                |s: int|
                    ProviderView {
                        node_id: local_id(s),
                        stage_id: s as usize,
                        rtt_ms: 0x4024_0000_0000_0000,
                    },
            ),
            forall|id: Seq<char>| #[trigger]
                ledger@.accounts.contains_key(id) ==> is_local_id(id, sid as int),
            forall|id: Seq<char>| #[trigger]
                nodes@.contains_key(id) ==> is_local_id(id, sid as int),
            forall|s: int|
                0 <= s < sid ==> {
                    &&& mints(#[trigger] local_id(s))
                    &&& nodes@.contains_key(local_id(s))
                    &&& nodes@[local_id(s)]@ == local_node(*cfg, weights, n_stages as nat, s)
                    &&& ledger@.accounts.contains_key(local_id(s))
                    &&& newly_minted(ledger@.accounts[local_id(s)], local_id(s))
                },
        decreases n_stages - sid,
    {
        broadcast use Stage::lemma_over;

        let ghost accounts = ledger@.accounts;
        let ghost before = nodes@;
        let mut id: String = "local-".to_owned();
        id.append(decimal(sid as u64).as_str());
        assert(id@ == local_id(sid as int));
        proof {
            assert forall|s: int| 0 <= s < sid implies #[trigger] local_id(s) != id@ by {
                if local_id(s) == id@ {
                    lemma_local_ids_differ(s, sid as int);
                }
            }
        }
        assert(!accounts.contains_key(id@));
        if !ledger.register_within(id.as_str(), 4, u64::MAX) {
            assert(!mints(local_id(sid as int)));
            return None;
        }
        proof {
            stages_cover_the_model(cfg.n_layer as nat, n_stages as nat);
            let split = shard_of(cfg.n_layer as nat, n_stages as nat);
            assert(split[sid as int].0 <= split[sid as int].1);
        }
        let (lo, hi) = bounds[sid];
        let mut node: Node<'w> = Node::new(id.as_str(), LinkProfile::default(), sid as u64);
        node.host(sid, Stage::new(cfg.copied(), weights, lo, hi));
        assert(node@ == local_node(*cfg, weights, n_stages as nat, sid as int));
        router.announce(id.as_str(), sid, 0x4024_0000_0000_0000);
        nodes.insert(id.as_str(), node);
        proof {
            assert forall|k: Seq<char>| nodes@.contains_key(k) implies (
            #[trigger] nodes@[k]).wf() by {
                if k != id@ {
                    assert(before[k].wf());
                }
            }
            assert forall|k: Seq<char>|
                k == id@ || is_local_id(k, sid as int) implies #[trigger] is_local_id(
                k,
                sid + 1,
            ) by {
                if k == id@ {
                    assert(k == local_id(sid as int));
                } else {
                    let s = choose|s: int| 0 <= s < sid && k == #[trigger] local_id(s);
                    assert(k == local_id(s));
                }
            }
            assert forall|k: Seq<char>| #[trigger]
                ledger@.accounts.contains_key(k) implies is_local_id(k, sid + 1) by {
                assert(k == id@ || accounts.contains_key(k));
            }
            assert forall|k: Seq<char>| #[trigger] nodes@.contains_key(k) implies is_local_id(
                k,
                sid + 1,
            ) by {
                assert(k == id@ || before.contains_key(k));
            }
        }
        sid = sid + 1;
    }
    proof {
        if ledger@.accounts.contains_key("client"@) {
            let s = choose|s: int| 0 <= s < sid && "client"@ == #[trigger] local_id(s);
            lemma_client_is_not_local(s);
        }
        assert forall|s: int| 0 <= s < n_stages implies #[trigger] local_id(s) != "client"@ by {
            lemma_client_is_not_local(s);
        }
    }
    if !ledger.register_within("client", 4, u64::MAX) {
        return None;
    }
    let verifier = Verifier::new(cfg.copied(), weights, n_stages, 0, 0x3f60_624d_d2f1_a9fc, 0, 0);
    Some(Engine::new(nodes, router, ledger, verifier, n_stages, 7))
}

/// A prompt has one line for each message, its role, a colon and a space, and its content, in order; lines
/// are parted by line breaks and by nothing else, however the chat is grouped.
pub proof fn prompts_have_every_message(early: Seq<ChatMessage>, late: Seq<ChatMessage>)
    requires
        early.len() > 0,
        late.len() > 0,
    ensures
        prompt_of(early + late) == prompt_of(early) + seq!['\n'] + prompt_of(late),
        early.len() == 1 ==> prompt_of(early) == early[0].role@ + seq![':', ' ']
            + early[0].content@,
        prompt_of(Seq::empty()) == Seq::<char>::empty(),
    decreases late.len(),
{
    reveal_strlit("\n");
    reveal_strlit(": ");
    assert("\n"@ =~= seq!['\n']);
    assert(": "@ =~= seq![':', ' ']);
    let all = early + late;
    assert(all.drop_last() =~= early + late.drop_last());
    assert(all.last() == late.last());
    if late.len() == 1 {
        assert(early + late.drop_last() =~= early);
        assert(late.last() == late[0]);
    } else {
        prompts_have_every_message(early, late.drop_last());
        assert(prompt_of(all) =~= prompt_of(early) + seq!['\n'] + prompt_of(late));
    }
}

/// The local nodes of a model: each is named after its stage, and hosts it alone, and no two have the same
/// name.
pub proof fn local_nodes_host_their_stage(
    cfg: ModelConfig,
    weights: &Weights,
    n_stages: nat,
    a: int,
    b: int,
)
    requires
        0 <= a < n_stages,
        0 <= b < n_stages,
        n_stages <= usize::MAX,
        cfg.n_layer * n_stages < 0x4_0000_0000_0000,
    ensures
        local_id(a) == local_id(b) ==> a == b,
        ({
            let node = local_node(cfg, weights, n_stages, a);
            let stage = node.hosted[a as usize].stage;
            &&& node.hosted.dom() =~= set![a as usize]
            &&& stage.config() == cfg
            &&& stage.weights() == *weights
            &&& stage.first_layer() == shard_of(cfg.n_layer as nat, n_stages)[a].0
            &&& stage.end_layer() == shard_of(cfg.n_layer as nat, n_stages)[a].1
            &&& a == 0 ==> stage.first_layer() == 0
            &&& a == n_stages - 1 ==> stage.end_layer() == cfg.n_layer
            &&& a + 1 == b ==> stage.end_layer() == local_node(
                cfg,
                weights,
                n_stages,
                b,
            ).hosted[b as usize].stage.first_layer()
            &&& node.tamper == Tamper::Honest
        }),
{
    broadcast use Stage::lemma_over;

    if local_id(a) == local_id(b) {
        lemma_local_ids_differ(a, b);
    }
    assert(cfg.n_layer <= cfg.n_layer * n_stages) by (nonlinear_arith)
        requires
            n_stages >= 1,
    ;
    stages_cover_the_model(cfg.n_layer as nat, n_stages);
}

} // verus!
