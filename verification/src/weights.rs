//! Materialized model weights.

use vstd::prelude::*;

use crate::tensor::Matrix;

verus! {

/// The weights of one transformer layer.
#[derive(Debug)]
pub struct LayerWeights {
    /// Fused query/key/value projection `[d_model, 3 * d_model]`.
    pub wqkv: Matrix,
    /// Attention output projection `[d_model, d_model]`.
    pub wo: Matrix,
    /// Norm gain before attention `[d_model]`.
    pub g1: Vec<u32>,
    /// Norm gain before the feed-forward block `[d_model]`.
    pub g2: Vec<u32>,
    /// Up projection `[d_model, d_ff]`.
    pub w1: Matrix,
    /// Down projection `[d_ff, d_model]`.
    pub w2: Matrix,
}

/// All weights of a model: shared embeddings and one block for each layer.
#[derive(Debug)]
pub struct Weights {
    /// Token embedding `[vocab, d_model]`, also the output head of the last stage.
    pub tok_emb: Matrix,
    /// Learned absolute position embedding `[max_seq, d_model]`.
    pub pos_emb: Matrix,
    /// Final norm gain `[d_model]`.
    pub final_g: Vec<u32>,
    /// The weights of each layer, by its number.
    pub layers: Vec<LayerWeights>,
}

impl LayerWeights {
    /// The number of parameters of the layer.
    pub open spec fn params(&self) -> nat {
        self.wqkv@.size() + self.wo@.size() + self.g1@.len() + self.g2@.len() + self.w1@.size()
            + self.w2@.size()
    }

    /// The number of parameters of the layer, for metering.
    pub fn n_params(&self) -> (n: usize)
        requires
            self.params() <= usize::MAX,
        ensures
            n == self.params(),
    {
        self.wqkv.len() + self.wo.len() + self.g1.len() + self.g2.len() + self.w1.len()
            + self.w2.len()
    }

    /// The number of parameters of the layer, if it fits a machine word.
    pub fn checked_params(&self) -> (n: Option<usize>)
        ensures
            n is Some <==> self.params() <= usize::MAX,
            n matches Some(p) ==> p == self.params(),
    {
        match (
            self.wqkv.checked_len(),
            self.wo.checked_len(),
            self.w1.checked_len(),
            self.w2.checked_len(),
        ) {
            (Some(wqkv), Some(wo), Some(w1), Some(w2)) => {
                let mut left: usize = usize::MAX;
                if wqkv > left {
                    return None;
                }
                left = left - wqkv;
                if wo > left {
                    return None;
                }
                left = left - wo;
                if w1 > left {
                    return None;
                }
                left = left - w1;
                if w2 > left {
                    return None;
                }
                left = left - w2;
                if self.g1.len() > left || self.g2.len() > left - self.g1.len() {
                    return None;
                }
                Some(wqkv + wo + self.g1.len() + self.g2.len() + w1 + w2)
            },
            _ => None,
        }
    }
}

/// The number of parameters of the layers `lo..hi`.
pub open spec fn params_of(layers: Seq<LayerWeights>, lo: int, hi: int) -> nat
    decreases hi - lo,
{
    if hi <= lo {
        0
    } else {
        params_of(layers, lo, hi - 1) + layers[hi - 1].params()
    }
}

/// Fewer layers have no more parameters.
pub proof fn lemma_params_of_ordered(layers: Seq<LayerWeights>, lo: int, mid: int, hi: int)
    requires
        lo <= mid <= hi,
    ensures
        params_of(layers, lo, mid) <= params_of(layers, lo, hi),
    decreases hi - mid,
{
    if mid < hi {
        lemma_params_of_ordered(layers, lo, mid, hi - 1);
    }
}

} // verus!
