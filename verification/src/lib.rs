//! An in-memory search index over a music collection: interned song
//! metadata, per-field exact and bigram indexes, and a small query
//! language (fuzzy terms, field predicates, boolean composition) that
//! is parsed into an expression tree and evaluated to a set of songs.
use vstd::prelude::*;

pub mod index;
pub mod query;
pub mod search;
pub mod storage;
pub mod interner;
pub mod sets;
pub mod text;

verus! {

/// The failures the search core can report.
#[derive(Clone, Copy, Debug, PartialEq, Eq, Structural)]
pub enum Error {
    /// The query string does not match the grammar.
    SearchQueryParseError,
    /// A song key could not be resolved to a path: the index and the
    /// reader do not belong together.
    SongNotFound,
    /// The interner could not accept another string.
    InternerExhausted,
}

} // verus!
