//! Splitting large documents into bounded chunks and dispatching them, in
//! order-preserving batches, to a remote completion service.
//!
//! The library holds the logic of the tool: the chunker, the labeling and
//! merging of chunks from several documents, the dispatch engine that groups
//! chunks into batches and folds per-chunk outcomes into an ordered result
//! list, and the naming rules of the on-disk conversation store. All I/O —
//! reading files, talking to the service, the command line — lives outside,
//! in a thin caller that hands this library plain values.

pub mod chunker;
pub mod convo;
pub mod dispatch;
pub mod multidoc;

use vstd::prelude::*;

verus! {

/// Maximum chunk size, in characters.
pub const CHUNK_SIZE: usize = 20000;

/// Number of chunks dispatched concurrently in one batch.
pub const CHUNK_BATCH_SIZE: usize = 5;

} // verus!
