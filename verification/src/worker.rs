//! The worker: hosts stages, keeps their caches and answers requests to run them.

use vstd::prelude::*;

use crate::config::ModelConfig;
use crate::node::{Node, NodeView, Tamper};
use crate::random::Stream;
use crate::shard::{shard, shard_of, stages_cover_the_model};
use crate::stage::Stage;
use crate::tensor::Matrix;
use crate::transport::LinkProfile;
use crate::verify::Execution;
use crate::weights::Weights;
use crate::wire::{array2_to_proto, wired, StageResponse};

verus! {

/// The stage of number `id` among `n_stages`.
pub open spec fn stage_of<'w>(cfg: ModelConfig, weights: &'w Weights, n_stages: nat, id: int) -> Stage<
    'w,
> {
    let bounds = shard_of(cfg.n_layer as nat, n_stages);
    Stage::over(cfg, weights, bounds[id].0, bounds[id].1)
}

/// A node once it hosts the stages of a list.
pub open spec fn hosting_all<'w>(
    node: NodeView<'w>,
    cfg: ModelConfig,
    weights: &'w Weights,
    n_stages: nat,
    stages: Seq<usize>,
) -> NodeView<'w>
    decreases stages.len(),
{
    if stages.len() == 0 {
        node
    } else {
        let id = stages.last();
        hosting_all(node, cfg, weights, n_stages, stages.drop_last()).hosting(
            id,
            stage_of(cfg, weights, n_stages, id as int),
        )
    }
}

/// The link that nodes have by default.
pub open spec fn default_link() -> LinkProfile {
    LinkProfile { rtt_ms: 0x4032_0000_0000_0000, up_mbps: 0x403e_0000_0000_0000 }
}

/// The node of a worker, which hosts the stages that it was assigned.
pub fn build_worker<'w>(
    peer_id: &str,
    cfg: &ModelConfig,
    weights: &'w Weights,
    n_stages: usize,
    stages: &Vec<usize>,
    seed: u64,
) -> (node: Node<'w>)
    requires
        n_stages <= 0x20_0000_0000_0000,
        forall|i: int| 0 <= i < stages@.len() ==> #[trigger] stages@[i] < n_stages,
    ensures
        node.wf(),
        node@ == hosting_all(
            NodeView {
                id: "worker-"@ + peer_id@,
                link: default_link(),
                flops_served: 0,
                tamper: Tamper::Honest,
                hosted: Map::empty(),
                rng: Stream { seed, position: 0 },
            },
            *cfg,
            weights,
            n_stages as nat,
            stages@,
        ),
{
    broadcast use Stage::lemma_over;

    let bounds: Vec<(usize, usize)> = shard(cfg, n_stages);
    let mut id: String = "worker-".to_owned();
    id.append(peer_id);
    let mut node: Node<'w> = Node::new(id.as_str(), LinkProfile::default(), seed);
    let ghost bare = node@;
    let mut i: usize = 0;
    assert(stages@.take(0) =~= Seq::empty());
    while i < stages.len()
        invariant
            i <= stages@.len(),
            n_stages <= 0x20_0000_0000_0000,
            forall|j: int| 0 <= j < stages@.len() ==> #[trigger] stages@[j] < n_stages,
            bounds@ == shard_of(cfg.n_layer as nat, n_stages as nat),
            node.wf(),
            node@ == hosting_all(bare, *cfg, weights, n_stages as nat, stages@.take(i as int)),
        decreases stages@.len() - i,
    {
        broadcast use Stage::lemma_over;

        let sid: usize = stages[i];
        proof {
            stages_cover_the_model(cfg.n_layer as nat, n_stages as nat);
            let split = shard_of(cfg.n_layer as nat, n_stages as nat);
            assert(split[sid as int].0 <= split[sid as int].1);
            assert(stages@.take(i + 1).drop_last() =~= stages@.take(i as int));
        }
        let (lo, hi) = bounds[sid];
        node.host(sid, Stage::new(cfg.copied(), weights, lo, hi));
        i = i + 1;
    }
    assert(stages@.take(i as int) =~= stages@);
    node
}

/// The response to a request: the output in half precision, and what an auditor needs.
pub fn respond(
    stage_id: usize,
    n_stages: usize,
    output: &Matrix,
    claim: Execution,
    flops: u64,
) -> (response: StageResponse)
    requires
        stage_id < usize::MAX,
    ensures
        response.output matches Some(wire) && wire@ == wired(output@),
        response.is_logits == (stage_id + 1 == n_stages),
        response.commitment@ == claim@.commitment,
        response.nonce@ == claim@.nonce,
        response.flops == flops,
{
    let Execution { nonce, commitment, .. } = claim;
    StageResponse {
        output: Some(array2_to_proto(output)),
        is_logits: stage_id + 1 == n_stages,
        commitment,
        nonce,
        flops,
    }
}

/// A worker hosts the stages that it was assigned and no others, each over the layers that the split of the
/// model gives it, and is the same node in all else.
pub proof fn workers_host_what_they_were_assigned(
    node: NodeView,
    cfg: ModelConfig,
    weights: &Weights,
    n_stages: nat,
    stages: Seq<usize>,
    id: usize,
)
    requires
        node.hosted == Map::<usize, crate::node::HostedView>::empty(),
    ensures
        ({
            let worker = hosting_all(node, cfg, weights, n_stages, stages);
            &&& worker.hosted.contains_key(id) == stages.contains(id)
            &&& stages.contains(id) ==> {
                let stage = worker.hosted[id].stage;
                &&& stage.config() == cfg
                &&& stage.weights() == *weights
                &&& stage.first_layer() == shard_of(cfg.n_layer as nat, n_stages)[id as int].0
                &&& stage.end_layer() == shard_of(cfg.n_layer as nat, n_stages)[id as int].1
                &&& worker.hosted[id].sessions.dom() =~= Set::<Seq<char>>::empty()
            }
            &&& worker.id == node.id
            &&& worker.link == node.link
            &&& worker.tamper == node.tamper
            &&& worker.flops_served == node.flops_served
            &&& worker.rng == node.rng
        }),
    decreases stages.len(),
{
    broadcast use Stage::lemma_over;

    if stages.len() > 0 {
        let before = stages.drop_last();
        workers_host_what_they_were_assigned(node, cfg, weights, n_stages, before, id);
        if before.contains(id) {
            let i = choose|i: int| 0 <= i < before.len() && before[i] == id;
            assert(stages[i] == id);
        }
        if stages.contains(id) {
            let i = choose|i: int| 0 <= i < stages.len() && stages[i] == id;
            if i < before.len() {
                assert(before[i] == id);
            }
        }
        assert(stages[stages.len() - 1] == stages.last());
    }
}

} // verus!
