//! Verified core of a quantized vector index.
//!
//! Vectors are stored as packed codes of two to four bits per coordinate with
//! one scale each. A query becomes a set of byte tables ([`lut`]); adding up
//! table entries scores 32 vectors at a time ([`interleaved`], [`sequential`]),
//! and blocks that a mask leaves nothing of are skipped ([`mask`], [`blocks`]).
//! Of the scores the best slots are selected and ranked ([`topk`], [`rank`],
//! [`search`], [`selection`]). [`index`] keeps vectors by slot and [`id_map`] by
//! id; [`history`] says what a sequence of changes makes of an index, and
//! [`header`] how a stored one begins.
//!
//! Floating point stays outside: scales and scores are bit patterns here
//! ([`score`]), and encoding vectors, filling tables and turning sums into
//! scores are the caller's.
use vstd::prelude::*;

pub mod blocks;
pub mod error;
pub mod header;
pub mod history;
pub mod id_map;
pub mod index;
pub mod interleaved;
pub mod lut;
pub mod mask;
pub mod rank;
pub mod score;
pub mod search;
pub mod selection;
pub mod sequential;
pub mod topk;
pub mod word;

pub use error::{AddError, LoadError};
pub use id_map::{IdMapIndex, IdMapParts};
pub use index::{Encoded, IndexParts, SearchResults, TurboQuantIndex};

verus! {

/// Number of vectors in one block of the blocked code layout.
pub const BLOCK: usize = 32;

/// Number of byte groups a 16-bit lane accumulator takes before it is flushed.
pub const FLUSH_EVERY: usize = 256;

} // verus!
