//! The errors surfaced across the service boundary.

use vstd::prelude::*;
use crate::errors::IndexError;

verus! {

/// What a caller of the search service can see go wrong: a transport
/// failure, or any internal failure with its description.
#[derive(Debug)]
pub enum RpcError {
    Tarpc(String),
    Internal(String),
}

impl IndexError {
    /// The description of this error kind.
    pub open spec fn message_spec(self) -> Seq<char> {
        match self {
            IndexError::UnsupportedLanguage => "unsupported file extension"@,
            IndexError::Io => "file could not be read"@,
            IndexError::ParseFailed => "failed to parse file"@,
            IndexError::EmbeddingFailed => "embedding failed"@,
            IndexError::StoreFailed => "store refused the operation"@,
            IndexError::Internal => "internal error"@,
        }
    }

    /// The description of this error kind, for display.
    pub fn message(&self) -> (r: String)
        ensures
            r@ == self.message_spec(),
    {
        match self {
            IndexError::UnsupportedLanguage => "unsupported file extension".to_owned(),
            IndexError::Io => "file could not be read".to_owned(),
            IndexError::ParseFailed => "failed to parse file".to_owned(),
            IndexError::EmbeddingFailed => "embedding failed".to_owned(),
            IndexError::StoreFailed => "store refused the operation".to_owned(),
            IndexError::Internal => "internal error".to_owned(),
        }
    }
}

impl RpcError {
    /// Every indexing failure crosses the boundary as an internal error
    /// carrying its description.
    pub fn from(e: IndexError) -> (r: RpcError)
        ensures
            r matches RpcError::Internal(m) && m@ == e.message_spec(),
    {
        RpcError::Internal(e.message())
    }

    /// The error's description, for display.
    pub fn message(&self) -> (r: String)
        ensures
            match self {
                RpcError::Tarpc(m) => r@ == m@,
                RpcError::Internal(m) => r@ == m@,
            },
    {
        match self {
            RpcError::Tarpc(m) => m.clone(),
            RpcError::Internal(m) => m.clone(),
        }
    }
}

} // verus!
