//! Persistence and retrieval core of a segmented full-text index: binary
//! encoding of values, the skip-list index over posting entries, the segment
//! serializer, and the readers that search closed segments.

pub mod codec;
pub mod collector;
pub mod directory;
pub mod error;
pub mod serialize;
pub mod reader;
pub mod schema;
pub mod searcher;
pub mod segment;
pub mod skip;
pub mod term_dict;

use vstd::prelude::*;

verus! {

/// Identifies a document inside a segment. `DocId::MAX` is reserved as the
/// end-of-stream sentinel.
pub type DocId = u32;

/// Identifies a segment across segments: a 128-bit unique id.
pub type SegmentId = u128;

} // verus!
