//! Write path of a segment-based inverted index: analysis, postings
//! accumulation, segment building and a compact binary segment codec.

pub mod codec;
pub mod terms;
pub mod postings;
pub mod document;
pub mod analysis;
pub mod segment;
pub mod store;
