//! Core of a hybrid search service: a registry of named indices, each
//! bundling a vector engine and a text engine behind one write-coordinated
//! facade, with a checksum-framed write-ahead log, snapshot metadata
//! handling, and weighted reciprocal-rank fusion of ranked result lists.
//!
//! The two engines themselves are external collaborators; this crate owns
//! the orchestration: id allocation, the id-to-text map, durability
//! framing, recovery bookkeeping, and result fusion.

pub mod bridge;
pub mod codec;
pub mod errors;
pub mod fusion;
pub mod registry;
pub mod snapshot;
pub mod text_map;
pub mod wal;

use vstd::prelude::*;

verus! {

/// Default number of fused results for a search request.
pub fn default_k() -> (r: usize)
    ensures
        r == 10,
{
    10
}

/// Default page length handed to the text engine sub-query.
pub fn default_text_length() -> (r: u64)
    ensures
        r == 100,
{
    100
}

} // verus!
