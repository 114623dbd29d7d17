//! The error kinds of the indexing engine.

use vstd::prelude::*;

verus! {

/// What went wrong while indexing or querying a project.
#[derive(Clone, Copy, Debug, PartialEq, Eq, Structural)]
pub enum IndexError {
    /// The file's extension is not bound to any grammar.
    UnsupportedLanguage,
    /// The file could not be read.
    Io,
    /// The parser produced no tree.
    ParseFailed,
    /// The embedding oracle produced no usable vector.
    EmbeddingFailed,
    /// The store refused the operation.
    StoreFailed,
    /// Any other failure surfaced across the service boundary.
    Internal,
}

} // verus!
