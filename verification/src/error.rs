//! The typed error conditions the core resolves itself.

use vstd::prelude::*;

verus! {

/// Rejection of an entity name that is empty once trimmed.
#[derive(Debug, PartialEq, Eq, Structural)]
pub enum NameError {
    Empty,
}

/// The distinguished outcome of a search that scored no document, an empty
/// or all-delimiter query included. It maps to a "not found" result, never
/// to a transport or store fault.
#[derive(Debug, PartialEq, Eq, Structural)]
pub enum SearchError {
    NoMatches,
}

impl NameError {
    /// The error rendered as text, for callers that report it.
    pub fn message(&self) -> (r: &'static str)
        ensures
            r@ == "name value is empty"@,
    {
        "name value is empty"
    }
}

impl SearchError {
    /// The error rendered as text, for callers that report it.
    pub fn message(&self) -> (r: &'static str)
        ensures
            r@ == "no items for search query"@,
    {
        "no items for search query"
    }
}

} // verus!
