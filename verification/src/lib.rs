//! Parallel text statistics over byte buffers: line, word, character and
//! pattern counts, line-length statistics and histograms, and comment/markup
//! filters, with chunked scanning whose results are proved equal to a
//! sequential scan.
use vstd::prelude::*;

pub mod comments;
pub mod config;
pub mod count;
pub mod counts;
pub mod filter;
pub mod laws;
mod par;
pub mod plan;
pub mod scan;
mod search;
pub mod stats;
pub mod text;
pub mod unicode;
pub mod words;

verus! {

/// Number of bytes a buffer must reach before a statistic is computed over
/// chunks instead of in one sequential pass.
pub const PARALLEL_THRESHOLD: usize = 524288;

/// Target size in bytes of one chunk of a chunked scan.
pub const CHUNK_SIZE: usize = 1048576;

} // verus!
