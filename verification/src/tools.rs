//! Types of the paper-search tool's interface.

use vstd::prelude::*;

verus! {

/// Arguments of a paper search: the query text and an optional cap on
/// the number of results.
pub struct SearchArgs {
    pub query: String,
    pub max_results: Option<i32>,
}

impl SearchArgs {
    /// The result cap a search uses: the requested one, or five.
    pub fn effective_max_results(&self) -> (r: i32)
        ensures
            r == match self.max_results {
                Some(n) => n,
                None => 5i32,
            },
    {
        match self.max_results {
            Some(n) => n,
            None => 5,
        }
    }
}

/// The paper-search tool. Fetching the feed is the caller's collaborator;
/// turning the fetched document into records is this library's
/// [`crate::parser::ArxivParser`].
pub struct ArxivSearchTool;

} // verus!
