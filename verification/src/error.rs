//! What can go wrong during an ingestion run.

use crate::pipeline::Phase;
use vstd::prelude::*;

verus! {

/// The remote collaborator that a call was made to.
#[derive(Clone, Copy, Debug, PartialEq, Eq, Structural)]
pub enum Stage {
    /// Splits a chunk into segments.
    Segmenter,
    /// Turns segments into vectors.
    Embedding,
    /// Stores the points.
    Store,
}

/// Why a call or a run ended without its result.
#[derive(Clone, Copy, Debug, PartialEq, Eq, Structural)]
pub enum IngestError {
    /// The tokenizer gave up on the text, so that there are no chunks.
    Tokenizing,
    /// The tokenizer cannot turn the tokens of the chunk with this index back
    /// into text.
    Encoding { chunk: usize },
    /// A parameter has a value that nothing can be done with: a token budget
    /// of zero, an identifier given twice, more identifiers asked for than
    /// can be remembered.
    InvalidArgument,
    /// The identifiers for the points of the chunk with this index would be
    /// more than the run can remember.
    IdSpace { chunk: usize },
    /// An event arrived that the run, in this phase and at the chunk with
    /// this index, does not wait for.
    Unexpected { phase: Phase, chunk: usize },
    /// A remote call failed, or answered with something unusable, while the
    /// chunk with this index was being worked on.
    RemoteCall { stage: Stage, chunk: usize },
}

} // verus!
