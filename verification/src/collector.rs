//! The consumer of a search: it is told which segment is searched, then each
//! matching document of that segment.

use crate::reader::SegmentReader;
use crate::searcher::DocAddress;
use crate::{DocId, SegmentId};
use vstd::prelude::*;

verus! {

/// What a collector is told.
pub enum Collected {
    /// The search has moved on to the segment with this id.
    Segment(SegmentId),
    /// This document of the current segment matches.
    Doc(DocId),
}

/// Consumes the matching documents of a search.
pub trait Collector {
    /// Everything the collector was told so far, in order.
    spec fn collected(&self) -> Seq<Collected>;

    /// Tells the collector that the documents collected next belong to `segment`.
    fn set_segment(&mut self, segment: &SegmentReader)
        ensures
            final(self).collected() == old(self).collected().push(Collected::Segment(segment@.id)),
    ;

    /// Hands the collector a matching document of the current segment.
    fn collect(&mut self, doc_id: DocId)
        ensures
            final(self).collected() == old(self).collected().push(Collected::Doc(doc_id)),
    ;
}

/// The addresses of the documents in what a collector was told: each
/// document with the segment that was current when it was collected.
/// Documents collected before any segment was set have no address.
pub open spec fn addresses(collected: Seq<Collected>) -> Seq<DocAddress>
    decreases collected.len(),
{
    if collected.len() == 0 {
        Seq::empty()
    } else {
        match collected.last() {
            Collected::Segment(_) => addresses(collected.drop_last()),
            Collected::Doc(doc_id) => match current_segment(collected.drop_last()) {
                Some(segment) => addresses(collected.drop_last()).push(DocAddress(segment, doc_id)),
                None => addresses(collected.drop_last()),
            },
        }
    }
}

/// The segment that was set last in what a collector was told.
pub open spec fn current_segment(collected: Seq<Collected>) -> Option<SegmentId>
    decreases collected.len(),
{
    if collected.len() == 0 {
        None
    } else {
        match collected.last() {
            Collected::Segment(segment) => Some(segment),
            Collected::Doc(_) => current_segment(collected.drop_last()),
        }
    }
}

/// A collector that keeps the address of every matching document.
pub struct DocAddressCollector {
    docs: Vec<DocAddress>,
    segment: Option<SegmentId>,
    told: Ghost<Seq<Collected>>,
}

impl DocAddressCollector {
    /// The addresses kept are those of the documents that the collector was told.
    pub closed spec fn wf(&self) -> bool {
        &&& self.docs@ == addresses(self.told@)
        &&& self.segment == current_segment(self.told@)
    }

    /// A collector that was told nothing yet.
    pub fn new() -> (collector: DocAddressCollector)
        ensures
            collector.wf(),
            collector.collected() == Seq::<Collected>::empty(),
    {
        DocAddressCollector { docs: Vec::new(), segment: None, told: Ghost(Seq::empty()) }
    }

    /// The addresses of the documents collected, in the order they came.
    pub fn docs(&self) -> (docs: &Vec<DocAddress>)
        requires
            self.wf(),
        ensures
            docs@ == addresses(self.collected()),
    {
        &self.docs
    }
}

impl Collector for DocAddressCollector {
    closed spec fn collected(&self) -> Seq<Collected> {
        self.told@
    }

    fn set_segment(&mut self, segment: &SegmentReader)
        ensures
            old(self).wf() ==> final(self).wf(),
    {
        self.segment = Some(segment.id());
        proof {
            let told = self.told@.push(Collected::Segment(segment@.id));
            assert(told.drop_last() =~= self.told@);
            self.told = Ghost(told);
        }
    }

    fn collect(&mut self, doc_id: DocId)
        ensures
            old(self).wf() ==> final(self).wf(),
    {
        match self.segment {
            Some(segment) => {
                self.docs.push(DocAddress(segment, doc_id));
            },
            None => {},
        }
        proof {
            let told = self.told@.push(Collected::Doc(doc_id));
            assert(told.drop_last() =~= self.told@);
            self.told = Ghost(told);
        }
    }
}

} // verus!
