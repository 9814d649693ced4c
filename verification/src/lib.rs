//! A layer-sharded inference swarm: pipeline, routing, ledger and audits.

pub mod accuracy;
pub mod args;
pub mod cache;
pub mod config;
pub mod coordinator;
pub mod digest;
pub mod double;
pub mod engine;
pub mod error;
pub mod facade;
pub mod frame;
pub mod golden;
pub mod halves;
pub mod honest;
pub mod ledger;
pub mod memo;
pub mod net;
pub mod node;
pub mod numbers;
pub mod pow;
pub mod random;
pub mod router;
pub mod shard;
pub mod stage;
pub mod table;
pub mod tensor;
pub mod text;
pub mod tokenizer;
pub mod transport;
pub mod verify;
pub mod weights;
pub mod wire;
pub mod worker;
