//! Reading a closed segment: term lookup, posting records, stored documents.

use crate::error::{IndexError, Result};
use crate::schema::{Document, Term};
use crate::segment::Segment;
use crate::codec::{posting_record, SerializerState, SimpleSegmentSerializer};
use crate::serialize::{
    decode_at, deserialize_vec, lemma_decode_at_encoding, lemma_u32_be_round_trip,
    lemma_vec_decode_at_encoding, u32_be_bytes, vec_decode_at, vec_encoding, BinarySerializable,
};
use crate::term_dict::{
    ascending, built, entries_lookup, fst_bytes, fst_lookup, fst_map_bytes, term_dict_get,
    term_dict_open,
};
use crate::{DocId, SegmentId};
use fst::Map as FstMap;
use vstd::prelude::*;

verus! {

/// Reads one closed segment. A reader does not change once it is open.
pub struct SegmentReader {
    segment_id: SegmentId,
    term_offsets: FstMap<Vec<u8>>,
    postings_data: Vec<u8>,
    store: Vec<Document>,
}

/// What a segment reader reads.
pub struct SegmentContents {
    /// The id of the segment.
    pub id: SegmentId,
    /// The bytes of the term dictionary.
    pub terms: Seq<u8>,
    /// The bytes of the postings.
    pub postings: Seq<u8>,
    /// The stored documents; a document's id is its index.
    pub documents: Seq<Document>,
}

/// The posting record of one term, as it stands in the postings.
pub struct Posting {
    /// The number of documents that hold the term.
    pub doc_freq: DocId,
    /// The document ids, compressed by the integer codec.
    pub docs_data: Vec<u32>,
}

/// What the segment holds that a serializer in the state `s` closes to.
pub open spec fn contents_written(s: SerializerState) -> SegmentContents {
    SegmentContents {
        id: s.segment,
        terms: fst_bytes(s.terms),
        postings: s.postings,
        documents: s.documents,
    }
}

/// What a closed segment holds.
pub open spec fn contents_of(segment: Segment) -> SegmentContents {
    SegmentContents {
        id: segment.id,
        terms: segment.terms@,
        postings: segment.postings@,
        documents: segment.store@,
    }
}

/// The posting record that starts at `offset`: the document frequency, then
/// the compressed words as a vector of `u32`. `None` where the record is cut
/// short.
pub open spec fn posting_at(postings: Seq<u8>, offset: int) -> Option<(DocId, Seq<u32>)> {
    match decode_at::<u32>(postings, offset) {
        Some((doc_freq, at)) => match vec_decode_at::<u32>(postings, at) {
            Some((words, _)) => Some((doc_freq, words)),
            None => None,
        },
        None => None,
    }
}

/// What was written is what is read: where the postings hold the record of
/// a term at some offset, whatever stands before and behind it, the record
/// read at that offset is the one that was written.
pub proof fn lemma_posting_round_trip(
    before: Seq<u8>,
    doc_freq: DocId,
    words: Seq<u32>,
    behind: Seq<u8>,
)
    requires
        words.len() <= u32::MAX,
    ensures
        posting_at(before + posting_record(doc_freq, words) + behind, before.len() as int) == Some(
            (doc_freq, words),
        ),
{
    let postings = before + posting_record(doc_freq, words) + behind;
    let offset = before.len() as int;
    lemma_u32_be_round_trip(doc_freq);
    assert(postings.subrange(offset, offset + 4) =~= u32_be_bytes(doc_freq));
    lemma_decode_at_encoding::<u32>(postings, offset, doc_freq);
    assert(postings.subrange(offset + 4, offset + 4 + vec_encoding(words).len()) =~= vec_encoding(
        words,
    ));
    lemma_vec_decode_at_encoding::<u32>(postings, offset + 4, words);
}

/// Whether the segment holds the term with a record that is cut short.
pub open spec fn posting_damaged(contents: SegmentContents, term: Seq<u8>) -> bool {
    match fst_lookup(contents.terms, term) {
        Some(offset) => posting_at(contents.postings, offset as int) is None,
        None => false,
    }
}

/// The compressed words of the term in the segment; none where the segment
/// does not hold the term.
pub open spec fn posting_words(contents: SegmentContents, term: Seq<u8>) -> Seq<u32> {
    match fst_lookup(contents.terms, term) {
        Some(offset) => match posting_at(contents.postings, offset as int) {
            Some((_, words)) => words,
            None => Seq::empty(),
        },
        None => Seq::empty(),
    }
}

/// Whether the segment holds the term.
pub open spec fn holds_term(contents: SegmentContents, term: Seq<u8>) -> bool {
    fst_lookup(contents.terms, term) is Some
}

/// `list` is what the codec `decode` may return for `words`.
pub open spec fn decodes_to<D: Fn(&[u32]) -> Vec<DocId>>(
    decode: D,
    words: Seq<u32>,
    list: Seq<DocId>,
) -> bool {
    exists|input: &[u32], output: Vec<DocId>|
        input@ == words && output@ == list && #[trigger] call_ensures(decode, (input,), output)
}

/// `list` is what a search of the segment yields for one term: nothing where
/// the segment does not hold the term, else the decoded posting list.
pub open spec fn term_matches<D: Fn(&[u32]) -> Vec<DocId>>(
    contents: SegmentContents,
    term: Seq<u8>,
    decode: D,
    list: Seq<DocId>,
) -> bool {
    if holds_term(contents, term) {
        decodes_to(decode, posting_words(contents, term), list)
    } else {
        list.len() == 0
    }
}

/// `docs` is what a search of the segment yields for the terms: the union of
/// their posting lists, in the order of the terms and, for each term, in the
/// order of its postings.
pub open spec fn search_yields<D: Fn(&[u32]) -> Vec<DocId>>(
    contents: SegmentContents,
    terms: Seq<Term>,
    decode: D,
    docs: Seq<DocId>,
) -> bool {
    exists|lists: Seq<Seq<DocId>>|
        {
            &&& lists.len() == terms.len()
            &&& docs == #[trigger] lists.flatten()
            &&& forall|i: int|
                0 <= i < terms.len() ==> term_matches(contents, terms[i]@, decode, #[trigger] lists[i])
        }
}

impl View for SegmentReader {
    type V = SegmentContents;

    closed spec fn view(&self) -> SegmentContents {
        SegmentContents {
            id: self.segment_id,
            terms: fst_map_bytes(self.term_offsets),
            postings: self.postings_data@,
            documents: self.store@,
        }
    }
}

impl SegmentReader {
    /// The term dictionary that the reader looks terms up in is a finished one.
    #[verifier::type_invariant]
    spec fn dictionary_built(&self) -> bool {
        built(fst_map_bytes(self.term_offsets))
    }

    /// Opens a closed segment: one whose term dictionary is a finished one,
    /// as `close` hands it out. Such a segment always opens.
    pub fn open(segment: Segment) -> (r: Result<SegmentReader>)
        requires
            built(segment.terms@),
        ensures
            r is Ok,
            r matches Ok(reader) ==> reader@ == contents_of(segment),
    {
        let term_offsets = match term_dict_open(segment.terms) {
            Ok(map) => map,
            Err(_) => {
                return Err(IndexError::ReadError("the term dictionary cannot be opened".to_owned()));
            },
        };
        Ok(
            SegmentReader {
                segment_id: segment.id,
                term_offsets: term_offsets,
                postings_data: segment.postings,
                store: segment.store,
            },
        )
    }

    /// Closes the serializer and opens the segment that it hands out: the
    /// reader reads what the serializer took.
    pub fn from_serializer(serializer: SimpleSegmentSerializer) -> (r: Result<SegmentReader>)
        requires
            serializer.wf(),
        ensures
            r is Ok,
            r matches Ok(reader) ==> reader@ == contents_written(serializer@),
    {
        match serializer.close() {
            Ok(segment) => SegmentReader::open(segment),
            Err(e) => Err(e),
        }
    }

    /// The id of the segment.
    pub fn id(&self) -> (id: SegmentId)
        ensures
            id == self@.id,
    {
        self.segment_id
    }

    /// The number of stored documents.
    pub fn num_docs(&self) -> (n: usize)
        ensures
            n == self@.documents.len(),
    {
        self.store.len()
    }

    /// The stored document with the given id; `None` where the segment
    /// stores no such document.
    pub fn get_doc(&self, doc_id: DocId) -> (r: Option<&Document>)
        ensures
            doc_id < self@.documents.len() ==> r == Some(&self@.documents[doc_id as int]),
            doc_id >= self@.documents.len() ==> r is None,
    {
        if (doc_id as usize) < self.store.len() {
            Some(&self.store[doc_id as usize])
        } else {
            None
        }
    }

    /// Looks the term up in the dictionary and reads its posting record.
    /// The result is `None` where the segment does not hold the term, and a
    /// `ReadError` exactly where it holds the term with a record cut short.
    /// The offset under which the term is found is the one that was
    /// recorded for it when the dictionary was built.
    pub fn read_postings(&self, term: &Term) -> (r: Result<Option<Posting>>)
        ensures
            forall|entries: Seq<(Seq<u8>, u64)>|
                ascending(entries) && self@.terms == #[trigger] fst_bytes(entries) ==> fst_lookup(
                    self@.terms,
                    term@,
                ) == entries_lookup(entries, term@),
            r is Err <==> posting_damaged(self@, term@),
            r matches Err(e) ==> e is ReadError,
            r matches Ok(found) ==> (found is Some <==> holds_term(self@, term@)),
            r matches Ok(Some(posting)) ==> posting_at(
                self@.postings,
                fst_lookup(self@.terms, term@).unwrap() as int,
            ) == Some((posting.doc_freq, posting.docs_data@)),
    {
        proof {
            use_type_invariant(self);
        }
        let offset = match term_dict_get(&self.term_offsets, term.as_slice()) {
            Some(offset) => offset,
            None => {
                return Ok(None);
            },
        };
        let postings = self.postings_data.as_slice();
        if offset > postings.len() as u64 {
            return Err(IndexError::ReadError("posting offset behind the end of the postings".to_owned()));
        }
        let (doc_freq, at) = match u32::deserialize(postings, offset as usize) {
            Ok(x) => x,
            Err(e) => {
                return Err(e);
            },
        };
        let (docs_data, _) = match deserialize_vec::<u32>(postings, at) {
            Ok(x) => x,
            Err(e) => {
                return Err(e);
            },
        };
        Ok(Some(Posting { doc_freq: doc_freq, docs_data: docs_data }))
    }

    /// The ids of the documents that match any of the terms: for each term in
    /// turn, its posting list as the codec `decode` gives it back.
    ///
    /// Fails with `ReadError` exactly where the record of one of the terms is
    /// cut short.
    pub fn search<D: Fn(&[u32]) -> Vec<DocId>>(&self, terms: &Vec<Term>, decode: &D) -> (r: Result<
        Vec<DocId>,
    >)
        requires
            forall|words: &[u32]| call_requires(*decode, (words,)),
        ensures
            r is Err <==> exists|i: int| 0 <= i < terms@.len() && posting_damaged(self@, #[trigger] terms@[i]@),
            r matches Err(e) ==> e is ReadError,
            r matches Ok(docs) ==> search_yields(self@, terms@, *decode, docs@),
    {
        let mut docs: Vec<DocId> = Vec::new();
        let ghost mut lists: Seq<Seq<DocId>> = Seq::empty();
        let mut i: usize = 0;
        while i < terms.len()
            invariant
                i <= terms@.len(),
                forall|words: &[u32]| call_requires(*decode, (words,)),
                forall|k: int| 0 <= k < i ==> !posting_damaged(self@, #[trigger] terms@[k]@),
                lists.len() == i,
                docs@ == lists.flatten(),
                forall|k: int|
                    0 <= k < i ==> term_matches(self@, terms@[k]@, *decode, #[trigger] lists[k]),
            decreases terms@.len() - i,
        {
            let ghost before = lists;
            match self.read_postings(&terms[i]) {
                Ok(Some(posting)) => {
                    let found = decode(posting.docs_data.as_slice());
                    proof {
                        assert(decodes_to(*decode, posting_words(self@, terms@[i as int]@), found@));
                        lists = lists.push(found@);
                        before.lemma_flatten_push(found@);
                    }
                    let mut found = found;
                    docs.append(&mut found);
                },
                Ok(None) => {
                    proof {
                        lists = lists.push(Seq::empty());
                        before.lemma_flatten_push(Seq::empty());
                        assert(docs@ =~= lists.flatten());
                    }
                },
                Err(e) => {
                    return Err(e);
                },
            }
            proof {
                assert forall|k: int| 0 <= k < i + 1 implies term_matches(
                    self@,
                    terms@[k]@,
                    *decode,
                    #[trigger] lists[k],
                ) by {
                    if k < i {
                        assert(lists[k] == before[k]);
                    }
                }
            }
            i += 1;
        }
        proof {
            assert(lists.len() == terms@.len());
        }
        Ok(docs)
    }
}

} // verus!
