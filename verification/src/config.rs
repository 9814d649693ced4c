//! Model hyper-parameters and the model hash that pins the weights of a swarm.

use vstd::prelude::*;
use vstd::utf8::encode_utf8;

use crate::digest::{hex_bytes, hex_string, lemma_hex_bytes_len, sha256, sha256_of};

verus! {

/// Decoder-only transformer configuration. The default is `hopper-tiny`.
#[derive(Debug, Clone)]
pub struct ModelConfig {
    pub name: String,
    pub vocab_size: usize,
    pub d_model: usize,
    pub n_layer: usize,
    pub n_head: usize,
    pub d_ff: usize,
    pub max_seq: usize,
    /// The bit pattern of the single-precision norm epsilon.
    pub eps: u32,
}

/// The hash of a model name: the first sixteen characters of its digest's spelling.
pub open spec fn model_hash_of(name: Seq<char>) -> Seq<char> {
    hex_bytes(sha256_of(encode_utf8(name))).take(16)
}

impl ModelConfig {
    /// A second configuration equal to this one.
    pub fn copied(&self) -> (out: ModelConfig)
        ensures
            out == *self,
    {
        ModelConfig {
            name: self.name.clone(),
            vocab_size: self.vocab_size,
            d_model: self.d_model,
            n_layer: self.n_layer,
            n_head: self.n_head,
            d_ff: self.d_ff,
            max_seq: self.max_seq,
            eps: self.eps,
        }
    }

    /// Per-head width. `d_model` is assumed divisible by `n_head`.
    pub fn head_dim(&self) -> (width: usize)
        requires
            self.n_head != 0,
        ensures
            width == self.d_model / self.n_head,
    {
        self.d_model / self.n_head
    }

    /// The deterministic weight key: every node that agrees on the name agrees on it.
    pub fn model_hash(&self) -> (hash: String)
        ensures
            hash@ == model_hash_of(self.name@),
            hash@.len() == 16,
    {
        let digest = sha256(self.name.as_str().as_bytes());
        let spelled = hex_string(digest.as_slice());
        proof {
            lemma_hex_bytes_len(digest@);
        }
        spelled.as_str().substring_char(0, 16).to_owned()
    }
}

impl Default for ModelConfig {
    fn default() -> (cfg: Self)
        ensures
            cfg.name@ == "hopper-tiny"@,
            cfg.vocab_size == 256,
            cfg.d_model == 128,
            cfg.n_layer == 8,
            cfg.n_head == 4,
            cfg.d_ff == 512,
            cfg.max_seq == 512,
            cfg.eps == 0x3727_c5ac,
    {
        ModelConfig {
            name: "hopper-tiny".to_owned(),
            vocab_size: 256,
            d_model: 128,
            n_layer: 8,
            n_head: 4,
            d_ff: 512,
            max_seq: 512,
            eps: 0x3727_c5ac,
        }
    }
}

/// Nodes that agree on a model's name agree on its hash, whatever else they hold.
pub proof fn equal_names_hash_equally(a: ModelConfig, b: ModelConfig)
    requires
        a.name@ == b.name@,
    ensures
        model_hash_of(a.name@) == model_hash_of(b.name@),
{
}

} // verus!
