//! What can go wrong with a model, a pipeline or an audit.

use vstd::prelude::*;

verus! {

/// What can go wrong when loading or running a model stage.
#[derive(Debug, Clone)]
pub enum ModelError {
    /// Tensors whose shapes do not fit each other.
    Shape,
    /// The first stage takes token ids as its input.
    ExpectedIds,
    /// Every other stage takes a hidden activation as its input.
    ExpectedHidden,
    /// A tensor is missing from the manifest.
    MissingTensor(String),
    /// A tensor has a type that its reader does not take.
    BadDtype { name: String, dtype: String },
    /// A tensor's file has the wrong number of bytes.
    TensorSize { name: String, expected: usize, got: usize },
}

/// What can go wrong when a pipeline is assembled.
#[derive(Debug, Clone, Copy, PartialEq, Eq, Structural)]
pub enum NetError {
    /// No eligible provider serves this stage.
    NoProvider(usize),
}

/// What can go wrong in an audit.
#[derive(Debug, Clone)]
pub enum VerifyError {
    /// The stage could not be run again.
    Model(ModelError),
}

/// What can go wrong when a stage is hosted or a generation is driven.
#[derive(Debug, Clone)]
pub enum EngineError {
    /// The node does not host this stage.
    NoStage(usize),
    /// The pipeline names a node that is not there.
    UnknownNode(String),
    /// A stage failed.
    Model(ModelError),
    /// No pipeline could be assembled.
    Net(NetError),
    /// An audit failed to run.
    Verify(VerifyError),
    /// There are no stages, so that nothing gives logits.
    NoLogits,
}

} // verus!
