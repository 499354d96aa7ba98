//! Writing a segment: terms and their posting records, in the order a
//! producer hands them over, and the stored documents.

use crate::error::{IndexError, Result};
use crate::schema::{Document, FieldValue, Term};
use crate::segment::Segment;
use crate::serialize::{
    lemma_sizes_encoding_len, serialize_slice, u32_be_bytes, vec_encoding, write_u32_be,
};
use crate::term_dict::{
    ascending, built, entries_lookup, fst_bytes, lemma_ascending_push, term_dict_builder,
    term_dict_entries, term_dict_finish, term_dict_insert, term_follows,
};
use crate::{DocId, SegmentId};
use fst::MapBuilder;
use vstd::prelude::*;

verus! {

/// The codec that lays a segment out as a term dictionary, a postings file of
/// big-endian records, and a document store.
pub struct SimpleCodec;

/// Accepts the terms, postings and documents of one segment, and turns them
/// into the segment's components.
pub struct SimpleSegmentSerializer {
    segment: SegmentId,
    written_bytes_postings: usize,
    postings_write: Vec<u8>,
    store_writer: Vec<Document>,
    term_fst_builder: MapBuilder<Vec<u8>>,
    cur_term_num_docs: DocId,
}

/// What a serializer has taken so far.
pub struct SerializerState {
    /// The id of the segment being written.
    pub segment: SegmentId,
    /// The terms begun, each with the offset of its record in the postings.
    pub terms: Seq<(Seq<u8>, u64)>,
    /// The postings written.
    pub postings: Seq<u8>,
    /// The documents stored; a document's id is its index.
    pub documents: Seq<Document>,
    /// The document frequency announced for the current term.
    pub cur_term_num_docs: DocId,
}

/// The posting record of a term: its document frequency, the number of
/// compressed words, and the words, all as big-endian `u32`.
pub open spec fn posting_record(doc_freq: DocId, words: Seq<u32>) -> Seq<u8> {
    u32_be_bytes(doc_freq) + vec_encoding(words)
}

/// Document ids that a posting list accepts: strictly ascending, none of them
/// the end-of-stream sentinel.
pub open spec fn valid_doc_ids(doc_ids: Seq<DocId>) -> bool {
    &&& forall|i: int, j: int| 0 <= i < j < doc_ids.len() ==> doc_ids[i] < doc_ids[j]
    &&& forall|i: int| 0 <= i < doc_ids.len() ==> doc_ids[i] != DocId::MAX
}

/// The state after a term was begun.
pub open spec fn after_new_term(s: SerializerState, term: Seq<u8>, doc_freq: DocId) -> SerializerState {
    SerializerState {
        segment: s.segment,
        terms: s.terms.push((term, s.postings.len() as u64)),
        postings: s.postings + u32_be_bytes(doc_freq),
        documents: s.documents,
        cur_term_num_docs: doc_freq,
    }
}

/// The state after the compressed words of the current term were written.
pub open spec fn after_docs(s: SerializerState, words: Seq<u32>) -> SerializerState {
    SerializerState {
        segment: s.segment,
        terms: s.terms,
        postings: s.postings + vec_encoding(words),
        documents: s.documents,
        cur_term_num_docs: s.cur_term_num_docs,
    }
}

/// The record of a term takes eight bytes and four for each compressed word,
/// and beginning a term and then writing its words appends exactly that
/// record.
pub proof fn lemma_posting_record(s: SerializerState, term: Seq<u8>, doc_freq: DocId, words: Seq<u32>)
    ensures
        posting_record(doc_freq, words).len() == 8 + 4 * words.len(),
        after_docs(after_new_term(s, term, doc_freq), words).postings == s.postings
            + posting_record(doc_freq, words),
{
    lemma_sizes_encoding_len(words);
    assert((s.postings + u32_be_bytes(doc_freq)) + vec_encoding(words) =~= s.postings + (
    u32_be_bytes(doc_freq) + vec_encoding(words)));
}

/// A term that was begun is recorded with the offset at which its record
/// starts, and the offsets recorded for other terms stay as they were.
pub proof fn lemma_new_term_is_recorded(s: SerializerState, term: Seq<u8>, doc_freq: DocId)
    ensures
        entries_lookup(after_new_term(s, term, doc_freq).terms, term) == Some(
            s.postings.len() as u64,
        ),
        forall|other: Seq<u8>|
            other != term ==> #[trigger] entries_lookup(
                after_new_term(s, term, doc_freq).terms,
                other,
            ) == entries_lookup(s.terms, other),
{
    let longer = after_new_term(s, term, doc_freq).terms;
    assert(longer.drop_last() =~= s.terms);
}

impl View for SimpleSegmentSerializer {
    type V = SerializerState;

    closed spec fn view(&self) -> SerializerState {
        SerializerState {
            segment: self.segment,
            terms: term_dict_entries(self.term_fst_builder),
            postings: self.postings_write@,
            documents: self.store_writer@,
            cur_term_num_docs: self.cur_term_num_docs,
        }
    }
}

impl SimpleSegmentSerializer {
    /// The byte counter agrees with the postings written, and the terms
    /// begun ascend.
    pub closed spec fn wf(&self) -> bool {
        &&& self.written_bytes_postings == self.postings_write@.len()
        &&& ascending(self@.terms)
    }

    /// The terms that a serializer has begun ascend.
    pub proof fn lemma_terms_ascend(&self)
        requires
            self.wf(),
        ensures
            ascending(self@.terms),
    {
    }

    /// The id of the segment being written.
    pub fn segment(&self) -> (id: SegmentId)
        ensures
            id == self@.segment,
    {
        self.segment
    }

    /// The number of bytes of postings written so far: the offset that will
    /// be recorded for the next term.
    pub fn written_bytes_postings(&self) -> (n: usize)
        requires
            self.wf(),
        ensures
            n == self@.postings.len(),
    {
        self.written_bytes_postings
    }

    /// Appends one stored document; its id is the number of documents stored before.
    pub fn store_doc(&mut self, field_values: Vec<FieldValue>)
        requires
            old(self).wf(),
        ensures
            final(self).wf(),
            final(self)@.documents.len() == old(self)@.documents.len() + 1,
            final(self)@.documents.last().field_values == field_values,
            final(self)@.documents.drop_last() == old(self)@.documents,
            final(self)@.segment == old(self)@.segment,
            final(self)@.terms == old(self)@.terms,
            final(self)@.postings == old(self)@.postings,
            final(self)@.cur_term_num_docs == old(self)@.cur_term_num_docs,
    {
        self.store_writer.push(Document { field_values: field_values });
        proof {
            assert(self.store_writer@.drop_last() =~= old(self).store_writer@);
        }
    }

    /// Begins a term: records the current postings offset in the term
    /// dictionary under `term`, then writes `doc_freq` to the postings.
    ///
    /// The term must be greater than the term begun before: it is rejected
    /// with `ContractViolation`, and the serializer left as it was, exactly
    /// when it is not.
    pub fn new_term(&mut self, term: &Term, doc_freq: DocId) -> (r: Result<()>)
        requires
            old(self).wf(),
        ensures
            final(self).wf(),
            r is Ok <==> term_follows(old(self)@.terms, term@),
            r is Ok ==> final(self)@ == after_new_term(old(self)@, term@, doc_freq),
            r matches Err(e) ==> e is ContractViolation && final(self)@ == old(self)@,
    {
        proof {
            if term_follows(self@.terms, term@) {
                lemma_ascending_push(self@.terms, term@, self.written_bytes_postings as u64);
            }
        }
        match term_dict_insert(
            &mut self.term_fst_builder,
            term.as_slice(),
            self.written_bytes_postings as u64,
        ) {
            Ok(_) => {},
            Err(_) => {
                return Err(
                    IndexError::ContractViolation("terms must be inserted in ascending order".to_owned()),
                );
            },
        }
        self.cur_term_num_docs = doc_freq;
        // writing the size of the posting list
        write_u32_be(&mut self.postings_write, doc_freq);
        self.written_bytes_postings = self.postings_write.len();
        Ok(())
    }

    /// Writes the compressed words of the current term: their number, then
    /// each word, as big-endian `u32`.
    ///
    /// Fails with `WriteError`, leaving the serializer as it was, exactly
    /// when there are more words than a `u32` can count.
    pub fn write_encoded_docs(&mut self, docs_data: &[u32]) -> (r: Result<()>)
        requires
            old(self).wf(),
        ensures
            final(self).wf(),
            r is Ok <==> docs_data@.len() <= u32::MAX,
            r is Ok ==> final(self)@ == after_docs(old(self)@, docs_data@),
            r matches Err(e) ==> e is WriteError && final(self)@ == old(self)@,
    {
        match serialize_slice(docs_data, &mut self.postings_write) {
            Ok(_) => {},
            Err(_) => {
                return Err(IndexError::WriteError("Failed while writing posting list".to_owned()));
            },
        }
        self.written_bytes_postings = self.postings_write.len();
        Ok(())
    }

    /// Writes the posting list of the current term: runs the integer codec
    /// `encode` over `doc_ids`, and writes the words it returns as
    /// `write_encoded_docs` does.
    ///
    /// The document ids must be strictly ascending and below the
    /// end-of-stream sentinel: they are rejected with `ContractViolation`,
    /// before the codec is run, exactly when they are not.
    pub fn write_docs<E: Fn(&[DocId]) -> Vec<u32>>(&mut self, doc_ids: &[DocId], encode: &E) -> (r:
        Result<()>)
        requires
            old(self).wf(),
            call_requires(*encode, (doc_ids,)),
        ensures
            final(self).wf(),
            !valid_doc_ids(doc_ids@) ==> (r matches Err(e) && e is ContractViolation),
            !valid_doc_ids(doc_ids@) ==> final(self)@ == old(self)@,
            valid_doc_ids(doc_ids@) ==> exists|docs_data: Vec<u32>|
                {
                    &&& #[trigger] call_ensures(*encode, (doc_ids,), docs_data)
                    &&& r is Ok <==> docs_data@.len() <= u32::MAX
                    &&& r is Ok ==> final(self)@ == after_docs(old(self)@, docs_data@)
                    &&& r matches Err(e) ==> e is WriteError && final(self)@ == old(self)@
                },
    {
        if !check_doc_ids(doc_ids) {
            return Err(
                IndexError::ContractViolation(
                    "document ids must be written in ascending order".to_owned(),
                ),
            );
        }
        let docs_data = encode(doc_ids);
        self.write_encoded_docs(docs_data.as_slice())
    }

    /// Finalizes the term dictionary and hands out the closed segment, whose
    /// term dictionary is a finished one.
    pub fn close(self) -> (r: Result<Segment>)
        requires
            self.wf(),
        ensures
            r is Ok,
            r matches Ok(segment) ==> closes_to(self@, segment) && built(segment.terms@),
    {
        match term_dict_finish(self.term_fst_builder) {
            Ok(terms) => Ok(
                Segment {
                    id: self.segment,
                    terms: terms,
                    postings: self.postings_write,
                    store: self.store_writer,
                },
            ),
            Err(_) => Err(IndexError::WriteError("Failed to finish the term dictionary".to_owned())),
        }
    }
}

/// The closed segment holds what the serializer took: the terms as a finished
/// dictionary, the postings, and the documents.
pub open spec fn closes_to(s: SerializerState, segment: Segment) -> bool {
    &&& segment.id == s.segment
    &&& segment.terms@ == fst_bytes(s.terms)
    &&& segment.postings@ == s.postings
    &&& segment.store@ == s.documents
}

/// Whether the document ids are strictly ascending and below the sentinel.
pub fn check_doc_ids(doc_ids: &[DocId]) -> (ok: bool)
    ensures
        ok == valid_doc_ids(doc_ids@),
{
    let mut i: usize = 0;
    while i < doc_ids.len()
        invariant
            i <= doc_ids.len(),
            valid_doc_ids(doc_ids@.take(i as int)),
        decreases doc_ids.len() - i,
    {
        if doc_ids[i] == DocId::MAX || (i > 0 && doc_ids[i - 1] >= doc_ids[i]) {
            proof {
                if valid_doc_ids(doc_ids@) {
                    if i > 0 {
                        assert(doc_ids@[i - 1] < doc_ids@[i as int]);
                    }
                }
            }
            return false;
        }
        proof {
            let shorter = doc_ids@.take(i as int);
            let longer = doc_ids@.take(i + 1);
            assert forall|a: int, b: int| 0 <= a < b < longer.len() implies longer[a] < longer[b] by {
                if b == i {
                    if a < i - 1 {
                        assert(shorter[a] < shorter[i - 1]);
                    }
                } else {
                    assert(shorter[a] < shorter[b]);
                }
            }
            assert forall|a: int| 0 <= a < longer.len() implies longer[a] != DocId::MAX by {
                if a < i {
                    assert(shorter[a] != DocId::MAX);
                }
            }
        }
        i += 1;
    }
    proof {
        assert(doc_ids@.take(doc_ids@.len() as int) =~= doc_ids@);
    }
    true
}

/// An index that can write itself into a segment serializer: it begins its terms
/// in ascending order, writes the postings of each, and stores its documents.
pub trait SerializableSegment {
    /// Whether the index, writing itself into a serializer in the state
    /// `before`, may leave it in the state `after` and report `written`. An
    /// index that is verified says here what it writes; the default is for
    /// those that are not, of which nothing is known.
    closed spec fn writes(&self, before: SerializerState, after: SerializerState, written: Result<()>) -> bool {
        true
    }

    fn write(&self, serializer: &mut SimpleSegmentSerializer) -> (r: Result<()>)
        requires
            old(serializer).wf(),
        ensures
            final(serializer).wf(),
            final(serializer)@.segment == old(serializer)@.segment,
            self.writes(old(serializer)@, final(serializer)@, r),
    ;
}

impl SimpleCodec {
    /// A serializer for the segment with the given id, that has taken nothing yet.
    pub fn serializer(segment: SegmentId) -> (r: Result<SimpleSegmentSerializer>)
        ensures
            r is Ok,
            r matches Ok(serializer) ==> serializer.wf() && serializer@ == fresh(segment),
    {
        Ok(SimpleSegmentSerializer {
            segment: segment,
            written_bytes_postings: 0,
            postings_write: Vec::new(),
            store_writer: Vec::new(),
            term_fst_builder: term_dict_builder(),
            cur_term_num_docs: 0,
        })
    }

    /// Lets `index` write itself into a fresh serializer for the segment
    /// with the given id, and closes the segment. Whatever error the index
    /// reports is handed on.
    pub fn write<I: SerializableSegment>(index: &I, segment: SegmentId) -> (r: Result<Segment>)
        ensures
            exists|after: SerializerState, written: Result<()>|
                #[trigger] index.writes(fresh(segment), after, written) && after.segment == segment
                    && closed_after(after, written, r),
            r matches Ok(closed) ==> built(closed.terms@),
    {
        let mut serializer = match SimpleCodec::serializer(segment) {
            Ok(serializer) => serializer,
            Err(e) => {
                return Err(e);
            },
        };
        let written = index.write(&mut serializer);
        let ghost reported = written;
        let ghost state = serializer@;
        match written {
            Ok(_) => {},
            Err(e) => {
                proof {
                    assert(index.writes(fresh(segment), state, reported));
                }
                return Err(e);
            },
        }
        let r = serializer.close();
        proof {
            assert(index.writes(fresh(segment), state, reported));
            assert(closed_after(state, reported, r));
        }
        r
    }
}

/// The state of a serializer for the segment with the given id that has
/// taken nothing yet.
pub open spec fn fresh(segment: SegmentId) -> SerializerState {
    SerializerState {
        segment: segment,
        terms: Seq::empty(),
        postings: Seq::empty(),
        documents: Seq::empty(),
        cur_term_num_docs: 0,
    }
}

/// `r` is what comes of an index that has written itself, leaving the
/// serializer in the state `after` and reporting `written`: the error that
/// the index reported, or else the segment that the serializer closes to.
pub open spec fn closed_after(after: SerializerState, written: Result<()>, r: Result<Segment>) -> bool {
    match written {
        Ok(_) => r is Ok && closes_to(after, r->Ok_0),
        Err(e) => r is Err && r->Err_0 == e,
    }
}

} // verus!
