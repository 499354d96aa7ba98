//! A closed segment, held in memory.

use crate::schema::Document;
use crate::SegmentId;
use vstd::prelude::*;

verus! {

/// A closed segment: its id and the contents of its three components.
pub struct Segment {
    /// The id under which the segment is known across segments.
    pub id: SegmentId,
    /// The term dictionary: from term bytes to the offset of the term's
    /// record in the postings.
    pub terms: Vec<u8>,
    /// The posting records of all terms, one after the other.
    pub postings: Vec<u8>,
    /// The stored documents; a document's id is its index.
    pub store: Vec<Document>,
}

} // verus!
