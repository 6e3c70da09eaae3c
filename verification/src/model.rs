//! Plain data carried between the index, the search evaluator and callers.

use vstd::prelude::*;

verus! {

/// One search hit: a file id and its stored canonical path.
#[derive(Debug, Clone)]
pub struct SearchHit {
    pub file_id: u32,
    pub path: String,
}

/// A snippet around the first line of a file that contains the query:
/// up to two preceding lines, the matching line, and up to two following
/// lines, each tagged with its 1-based line number.
#[derive(Debug, Clone)]
pub struct Snippet {
    pub path: String,
    pub line_number: usize,
    pub lines: Vec<(usize, String)>,
}

/// A search hit together with its snippet, or the reason the snippet
/// could not be extracted.
#[derive(Debug, Clone)]
pub struct SearchResult {
    pub file_id: u32,
    pub path: String,
    pub snippet: Option<Snippet>,
    pub snippet_error: Option<String>,
}

/// Arguments of the server's search tool.
#[derive(Debug, Clone)]
pub struct SearchCodeArgs {
    pub query: String,
    pub file_regex: Option<String>,
}

/// The error taxonomy of the index.
#[derive(Debug, Clone)]
pub enum IndexError {
    /// A file could not be opened or read.
    Io(String),
    /// The underlying storage reported an error.
    Db(String),
    /// A stored blob could not be decoded, or the writer is gone.
    Encode(String),
}

impl IndexError {
    /// A human-readable description of the error.
    pub fn message(&self) -> (r: String)
        ensures
            match self {
                IndexError::Io(m) => r@ == m@,
                IndexError::Db(m) => r@ == m@,
                IndexError::Encode(m) => r@ == m@,
            },
    {
        match self {
            IndexError::Io(m) => m.clone(),
            IndexError::Db(m) => m.clone(),
            IndexError::Encode(m) => m.clone(),
        }
    }
}

pub type IndexResult<T> = Result<T, IndexError>;

} // verus!
