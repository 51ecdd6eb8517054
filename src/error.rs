//! The ways in which the inputs can be inconsistent, each with the value
//! that shows it.
use vstd::prelude::*;

verus! {

/// A violated input contract; every one of them ends the run.
#[derive(Debug, Clone, PartialEq, Eq)]
pub enum FulgorError {
    /// A data line of the identifier dump does not start with a decimal index.
    MalformedIndex { line: String },
    /// A chunk line does not start with a decimal chunk id; `token` is its first token.
    MalformedChunkId { token: String },
    /// A match entry of a chunk line does not start with a decimal index.
    MalformedMatchIndex { entry: String },
    /// A match entry names an index that the identifier dump does not hold.
    UnknownSequenceIndex { chunk: u64, index: u64 },
    /// A query identifier holds no `_` between genome and contig.
    MalformedQueryIdentifier { query: String },
    /// A table row has the wrong number of fields or an unreadable number.
    MalformedRow { line: String },
}

/// What an error says, with its text as characters.
pub enum ErrorModel {
    MalformedIndex { line: Seq<char> },
    MalformedChunkId { token: Seq<char> },
    MalformedMatchIndex { entry: Seq<char> },
    UnknownSequenceIndex { chunk: u64, index: u64 },
    MalformedQueryIdentifier { query: Seq<char> },
    MalformedRow { line: Seq<char> },
}

impl View for FulgorError {
    type V = ErrorModel;

    open spec fn view(&self) -> ErrorModel {
        match self {
            FulgorError::MalformedIndex { line } => ErrorModel::MalformedIndex { line: line@ },
            FulgorError::MalformedChunkId { token } => ErrorModel::MalformedChunkId { token: token@ },
            FulgorError::MalformedMatchIndex { entry } => ErrorModel::MalformedMatchIndex { entry: entry@ },
            FulgorError::UnknownSequenceIndex { chunk, index } => ErrorModel::UnknownSequenceIndex {
                chunk: *chunk,
                index: *index,
            },
            FulgorError::MalformedQueryIdentifier { query } => ErrorModel::MalformedQueryIdentifier {
                query: query@,
            },
            FulgorError::MalformedRow { line } => ErrorModel::MalformedRow { line: line@ },
        }
    }
}

} // verus!
