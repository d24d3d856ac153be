use vstd::prelude::*;

verus! {

/// The ways an operation on a corpus can fail.
#[derive(Debug, Clone)]
pub enum CorpusError {
    /// A layer of this name is already registered.
    DuplicateLayer(String),
    /// A string that names none of the layer types.
    UnknownLayerType(String),
    /// The computed content ID and the key that introduced the document
    /// disagree on their shared prefix: (computed, provided).
    DocumentHashMismatch(String, String),
    /// A value does not have the expected shape: (where, what was expected).
    MalformedInput(String, String),
}

} // verus!
