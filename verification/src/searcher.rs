//! Searching several segments as one: the segments are searched in the order
//! they were added, and their matches handed to a collector.

use crate::collector::{Collected, Collector};
use crate::error::Result;
use crate::codec::SimpleSegmentSerializer;
use crate::reader::{
    contents_of, contents_written, posting_damaged, search_yields, SegmentContents, SegmentReader,
};
use crate::schema::{Document, Term};
use crate::segment::Segment;
use crate::term_dict::built;
use crate::{DocId, SegmentId};
use std::collections::HashMap;
use vstd::prelude::*;

verus! {

/// Searches the segments that were added to it.
pub struct Searcher {
    segments: Vec<SegmentReader>,
    segments_idx: HashMap<SegmentId, usize>,
}

/// Identifies a stored document across segments.
#[derive(Debug, Clone, Copy, PartialEq, Eq)]
pub struct DocAddress(pub SegmentId, pub DocId);

/// The index of the segment with the given id among `segments`: that of the
/// one added last, where several have the id.
pub open spec fn dense_index(segments: Seq<SegmentContents>, id: SegmentId) -> Option<int>
    decreases segments.len(),
{
    if segments.len() == 0 {
        None
    } else if segments.last().id == id {
        Some(segments.len() - 1)
    } else {
        dense_index(segments.drop_last(), id)
    }
}

/// The dense index of a segment is an index of a segment with that id.
pub proof fn lemma_dense_index(segments: Seq<SegmentContents>, id: SegmentId)
    ensures
        dense_index(segments, id) matches Some(i) ==> 0 <= i < segments.len() && segments[i].id == id,
        dense_index(segments, id) is None ==> forall|i: int|
            0 <= i < segments.len() ==> segments[i].id != id,
    decreases segments.len(),
{
    if segments.len() > 0 && segments.last().id != id {
        let front = segments.drop_last();
        lemma_dense_index(front, id);
        if dense_index(segments, id) is None {
            assert forall|i: int| 0 <= i < segments.len() implies segments[i].id != id by {
                if i < front.len() {
                    assert(front[i].id != id);
                }
            }
        }
    }
}

/// What a collector is told of a document.
pub open spec fn doc_events(docs: Seq<DocId>) -> Seq<Collected> {
    docs.map_values(|doc_id: DocId| Collected::Doc(doc_id))
}

/// `part` is what a collector is told of one segment in a search: the
/// segment, then the documents that the search of the segment yields. A
/// segment that holds one of the terms with a record cut short is skipped:
/// of it the collector is told the segment alone.
pub open spec fn segment_reports<D: Fn(&[u32]) -> Vec<DocId>>(
    contents: SegmentContents,
    terms: Seq<Term>,
    decode: D,
    part: Seq<Collected>,
) -> bool {
    if exists|i: int| 0 <= i < terms.len() && posting_damaged(contents, #[trigger] terms[i]@) {
        part == seq![Collected::Segment(contents.id)]
    } else {
        exists|docs: Seq<DocId>|
            #[trigger] search_yields(contents, terms, decode, docs) && part == seq![
                Collected::Segment(contents.id),
            ] + doc_events(docs)
    }
}

/// `told` is what a collector is told in a search of `segments`: what it is
/// told of each segment, in the order of the segments.
pub open spec fn search_reports<D: Fn(&[u32]) -> Vec<DocId>>(
    segments: Seq<SegmentContents>,
    terms: Seq<Term>,
    decode: D,
    told: Seq<Collected>,
) -> bool {
    exists|parts: Seq<Seq<Collected>>|
        {
            &&& parts.len() == segments.len()
            &&& told == #[trigger] parts.flatten()
            &&& forall|i: int|
                0 <= i < segments.len() ==> segment_reports(
                    segments[i],
                    terms,
                    decode,
                    #[trigger] parts[i],
                )
        }
}

/// The contents of each of the given readers.
pub(crate) open spec fn contents_seq(readers: Seq<SegmentReader>) -> Seq<SegmentContents> {
    Seq::new(readers.len(), |i: int| readers[i]@)
}

/// The contents of the given segments, in their order.
pub open spec fn contents_all(segments: Seq<Segment>) -> Seq<SegmentContents> {
    Seq::new(segments.len(), |i: int| contents_of(segments[i]))
}

/// The term dictionary of every one of the segments is a finished one.
pub open spec fn all_built(segments: Seq<Segment>) -> bool {
    forall|i: int| 0 <= i < segments.len() ==> built((#[trigger] segments[i]).terms@)
}

/// What the segments hold that the serializers close to, in their order.
pub open spec fn contents_all_written(serializers: Seq<SimpleSegmentSerializer>) -> Seq<
    SegmentContents,
> {
    Seq::new(serializers.len(), |i: int| contents_written(serializers[i]@))
}

impl View for Searcher {
    type V = Seq<SegmentContents>;

    /// The contents of the segments, in the order they were added.
    closed spec fn view(&self) -> Seq<SegmentContents> {
        contents_seq(self.segments@)
    }
}

impl Searcher {
    /// The map from segment ids to dense indices agrees with the segments.
    pub closed spec fn wf(&self) -> bool {
        forall|id: SegmentId|
            (#[trigger] self.segments_idx@.contains_key(id) <==> dense_index(self@, id) is Some)
                && (self.segments_idx@.contains_key(id) ==> Some(self.segments_idx@[id] as int)
                == dense_index(self@, id))
    }

    /// The stored document at the given address; `None` where no segment has
    /// the id or the segment stores no such document.
    pub fn get_doc(&self, doc_address: &DocAddress) -> (r: Option<&Document>)
        requires
            self.wf(),
        ensures
            r == (match dense_index(self@, doc_address.0) {
                Some(i) => if doc_address.1 < self@[i].documents.len() {
                    Some(&self@[i].documents[doc_address.1 as int])
                } else {
                    None
                },
                None => None,
            }),
    {
        proof {
            lemma_dense_index(self@, doc_address.0);
            assert(self.segments_idx@.contains_key(doc_address.0) <==> dense_index(
                self@,
                doc_address.0,
            ) is Some);
        }
        let segment_ord = match self.segments_idx.get(&doc_address.0) {
            Some(segment_ord) => *segment_ord,
            None => {
                return None;
            },
        };
        let segment_reader = &self.segments[segment_ord];
        segment_reader.get_doc(doc_address.1)
    }

    /// Opens the segment and appends it; its dense index is the number of
    /// segments added before.
    fn add_segment(&mut self, segment: Segment) -> (r: Result<()>)
        requires
            old(self).wf(),
            built(segment.terms@),
        ensures
            final(self).wf(),
            r is Ok,
            final(self)@ == old(self)@.push(contents_of(segment)),
    {
        let segment_reader = match SegmentReader::open(segment) {
            Ok(segment_reader) => segment_reader,
            Err(e) => {
                return Err(e);
            },
        };
        let segment_ord = self.segments.len();
        let segment_id = segment_reader.id();
        let ghost before = self@;
        self.segments.push(segment_reader);
        self.segments_idx.insert(segment_id, segment_ord);
        proof {
            assert(self@ =~= before.push(contents_of(segment)));
            assert(self@.drop_last() =~= before);
            assert forall|id: SegmentId|
                (#[trigger] self.segments_idx@.contains_key(id) <==> dense_index(self@, id) is Some)
                    && (self.segments_idx@.contains_key(id) ==> Some(
                    self.segments_idx@[id] as int,
                ) == dense_index(self@, id)) by {
                if id != segment_id {
                    assert(old(self).segments_idx@.contains_key(id) <==> dense_index(before, id)
                        is Some);
                }
            }
        }
        Ok(())
    }

    /// A searcher over no segment.
    pub fn new() -> (searcher: Searcher)
        ensures
            searcher.wf(),
            searcher@ == Seq::<SegmentContents>::empty(),
    {
        let searcher = Searcher { segments: Vec::new(), segments_idx: HashMap::new() };
        proof {
            assert(searcher@ =~= Seq::<SegmentContents>::empty());
        }
        searcher
    }

    /// A searcher over the given segments of a directory, each of them a
    /// closed segment, whose term dictionary is a finished one: each is
    /// opened and added in turn.
    pub fn for_directory(segments: Vec<Segment>) -> (searcher: Searcher)
        requires
            all_built(segments@),
        ensures
            searcher.wf(),
            searcher@ == contents_all(segments@),
    {
        let mut searcher = Searcher::new();
        let ghost all = segments@;
        for segment in taken: segments
            invariant
                searcher.wf(),
                taken.seq() == all,
                all_built(all),
                searcher@ == contents_all(all.take(taken.index() as int)),
        {
            proof {
                let at = taken.index() as int;
                assert(built(all[at].terms@));
                assert(contents_all(all.take(at)).push(contents_of(all[at])) =~= contents_all(
                    all.take(at + 1),
                ));
            }
            let _ = searcher.add_segment(segment);
        }
        proof {
            assert(all.take(all.len() as int) =~= all);
        }
        searcher
    }

    /// A searcher over the segments that the given serializers close to:
    /// each serializer is closed in turn, and the segments are opened and
    /// added in that order.
    pub fn for_serializers(serializers: Vec<SimpleSegmentSerializer>) -> (searcher: Searcher)
        requires
            forall|i: int| 0 <= i < serializers@.len() ==> (#[trigger] serializers@[i]).wf(),
        ensures
            searcher.wf(),
            searcher@ == contents_all_written(serializers@),
    {
        let ghost all = serializers@;
        let mut segments: Vec<Segment> = Vec::new();
        for serializer in taken: serializers
            invariant
                taken.seq() == all,
                forall|i: int| 0 <= i < all.len() ==> (#[trigger] all[i]).wf(),
                all_built(segments@),
                contents_all(segments@) == contents_all_written(all.take(taken.index() as int)),
        {
            let ghost at = taken.index() as int;
            let ghost before = segments@;
            assert(all[at].wf());
            match serializer.close() {
                Ok(segment) => {
                    segments.push(segment);
                    proof {
                        assert forall|i: int| 0 <= i < segments@.len() implies built(
                            (#[trigger] segments@[i]).terms@,
                        ) by {
                            if i < before.len() {
                                assert(built(before[i].terms@));
                            }
                        }
                        assert(contents_all(segments@) =~= contents_all(before).push(
                            contents_of(segment),
                        ));
                        assert(contents_all_written(all.take(at + 1)) =~= contents_all_written(
                            all.take(at),
                        ).push(contents_written(all[at]@)));
                    }
                },
                Err(_) => {},
            }
        }
        proof {
            assert(all.take(all.len() as int) =~= all);
        }
        Searcher::for_directory(segments)
    }

    /// Searches every segment in the order they were added: tells the
    /// collector the segment, then hands it each document that matches any
    /// of the terms, the posting lists given back by the codec `decode`. A
    /// segment whose postings cannot be read is skipped.
    pub fn search<C: Collector, D: Fn(&[u32]) -> Vec<DocId>>(
        &self,
        terms: &Vec<Term>,
        decode: &D,
        collector: &mut C,
    )
        requires
            forall|words: &[u32]| call_requires(*decode, (words,)),
        ensures
            exists|told: Seq<Collected>|
                #[trigger] search_reports(self@, terms@, *decode, told)
                    && final(collector).collected() == old(collector).collected() + told,
    {
        let ghost mut parts: Seq<Seq<Collected>> = Seq::empty();
        let ghost start = collector.collected();
        let mut segment_ord: usize = 0;
        while segment_ord < self.segments.len()
            invariant
                segment_ord <= self.segments@.len(),
                forall|words: &[u32]| call_requires(*decode, (words,)),
                parts.len() == segment_ord,
                collector.collected() == start + parts.flatten(),
                forall|i: int|
                    0 <= i < segment_ord ==> segment_reports(
                        self@[i],
                        terms@,
                        *decode,
                        #[trigger] parts[i],
                    ),
            decreases self.segments@.len() - segment_ord,
        {
            let segment = &self.segments[segment_ord];
            let ghost before = parts;
            let ghost told_before = collector.collected();
            collector.set_segment(segment);
            let ghost mut part = seq![Collected::Segment(segment@.id)];
            match segment.search(terms, decode) {
                Ok(postings) => {
                    let mut i: usize = 0;
                    while i < postings.len()
                        invariant
                            i <= postings@.len(),
                            collector.collected() == told_before + seq![
                                Collected::Segment(segment@.id),
                            ] + doc_events(postings@.take(i as int)),
                        decreases postings@.len() - i,
                    {
                        collector.collect(postings[i]);
                        proof {
                            assert(doc_events(postings@.take(i + 1)) =~= doc_events(
                                postings@.take(i as int),
                            ).push(Collected::Doc(postings@[i as int])));
                            assert(collector.collected() =~= told_before + seq![
                                Collected::Segment(segment@.id),
                            ] + doc_events(postings@.take(i + 1)));
                        }
                        i += 1;
                    }
                    proof {
                        assert(postings@.take(i as int) =~= postings@);
                        part = seq![Collected::Segment(segment@.id)] + doc_events(postings@);
                        assert(collector.collected() =~= told_before + part);
                    }
                },
                Err(_) => {
                    proof {
                        assert(collector.collected() =~= told_before + part);
                    }
                },
            }
            proof {
                parts = parts.push(part);
                before.lemma_flatten_push(part);
                assert(collector.collected() =~= start + parts.flatten());
                assert(segment@ == self@[segment_ord as int]);
                assert forall|i: int| 0 <= i < segment_ord + 1 implies segment_reports(
                    self@[i],
                    terms@,
                    *decode,
                    #[trigger] parts[i],
                ) by {
                    if i < segment_ord {
                        assert(parts[i] == before[i]);
                    }
                }
            }
            segment_ord += 1;
        }
        proof {
            assert(search_reports(self@, terms@, *decode, parts.flatten()));
        }
    }
}

} // verus!
