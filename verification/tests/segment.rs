use segment_index::codec::{check_doc_ids, SerializableSegment, SimpleCodec, SimpleSegmentSerializer};
use segment_index::collector::DocAddressCollector;
use segment_index::error::{IndexError, Result};
use segment_index::reader::SegmentReader;
use segment_index::schema::{FieldValue, Term};
use segment_index::searcher::{DocAddress, Searcher};
use segment_index::segment::Segment;

fn identity(words: &[u32]) -> Vec<u32> {
    words.to_vec()
}

fn term(text: &str) -> Term {
    Term::from_bytes(text.as_bytes().to_vec())
}

fn small_segment(id: u128) -> Segment {
    let mut serializer = SimpleCodec::serializer(id).unwrap();
    serializer.store_doc(vec![FieldValue { field: 1, text: String::from("a b") }]);
    serializer.store_doc(vec![FieldValue { field: 1, text: String::from("b") }]);
    serializer.new_term(&term("a"), 1).unwrap();
    serializer.write_docs(&[0], &identity).unwrap();
    serializer.new_term(&term("b"), 2).unwrap();
    serializer.write_docs(&[0, 1], &identity).unwrap();
    serializer.close().unwrap()
}

#[test]
fn posting_record_takes_eight_bytes_and_four_per_word() {
    let mut serializer = SimpleCodec::serializer(7).unwrap();
    assert_eq!(serializer.written_bytes_postings(), 0);
    serializer.new_term(&term("a"), 3).unwrap();
    assert_eq!(serializer.written_bytes_postings(), 4);
    serializer.write_encoded_docs(&[10, 20, 30]).unwrap();
    assert_eq!(serializer.written_bytes_postings(), 8 + 4 * 3);
    let segment = serializer.close().unwrap();
    assert_eq!(
        segment.postings,
        vec![0, 0, 0, 3, 0, 0, 0, 3, 0, 0, 0, 10, 0, 0, 0, 20, 0, 0, 0, 30]
    );
    assert_eq!(segment.id, 7);
}

#[test]
fn terms_must_ascend() {
    let mut serializer = SimpleCodec::serializer(7).unwrap();
    serializer.new_term(&term("b"), 1).unwrap();
    let again = serializer.new_term(&term("b"), 1);
    assert!(matches!(again, Err(IndexError::ContractViolation(_))));
    let before = serializer.new_term(&term("a"), 1);
    assert!(matches!(before, Err(IndexError::ContractViolation(_))));
    assert_eq!(serializer.written_bytes_postings(), 4);
    serializer.new_term(&term("ba"), 1).unwrap();
    assert_eq!(serializer.written_bytes_postings(), 8);
}

#[test]
fn doc_ids_must_ascend() {
    assert!(check_doc_ids(&[]));
    assert!(check_doc_ids(&[0, 1, 5]));
    assert!(!check_doc_ids(&[0, 0]));
    assert!(!check_doc_ids(&[3, 2]));
    assert!(!check_doc_ids(&[3, u32::MAX]));
    let mut serializer = SimpleCodec::serializer(7).unwrap();
    serializer.new_term(&term("a"), 2).unwrap();
    let r = serializer.write_docs(&[4, 4], &identity);
    assert!(matches!(r, Err(IndexError::ContractViolation(_))));
    assert_eq!(serializer.written_bytes_postings(), 4);
}

#[test]
fn reader_finds_what_was_written() {
    let reader = SegmentReader::open(small_segment(1)).unwrap();
    assert_eq!(reader.id(), 1);
    assert_eq!(reader.num_docs(), 2);
    let a = reader.read_postings(&term("a")).unwrap().unwrap();
    assert_eq!(a.doc_freq, 1);
    assert_eq!(a.docs_data, vec![0]);
    let b = reader.read_postings(&term("b")).unwrap().unwrap();
    assert_eq!(b.doc_freq, 2);
    assert_eq!(b.docs_data, vec![0, 1]);
    assert!(reader.read_postings(&term("c")).unwrap().is_none());
    assert_eq!(reader.search(&vec![term("b"), term("c"), term("a")], &identity).unwrap(), vec![0, 1, 0]);
    assert_eq!(reader.get_doc(1).unwrap().field_values[0].text, "b");
    assert!(reader.get_doc(2).is_none());
}

#[test]
fn reader_reports_cut_postings() {
    let mut segment = small_segment(1);
    segment.postings.truncate(14);
    let reader = SegmentReader::open(segment).unwrap();
    assert_eq!(reader.read_postings(&term("a")).unwrap().unwrap().docs_data, vec![0]);
    assert!(matches!(reader.read_postings(&term("b")), Err(IndexError::ReadError(_))));
    assert!(matches!(reader.search(&vec![term("a"), term("b")], &identity), Err(IndexError::ReadError(_))));
}

#[test]
fn searcher_searches_segments_in_order() {
    let searcher =
        Searcher::for_directory(vec![small_segment(10), small_segment(20), small_segment(30)]);
    let mut collector = DocAddressCollector::new();
    searcher.search(&vec![term("b"), term("a")], &identity, &mut collector);
    assert_eq!(
        collector.docs(),
        &vec![
            DocAddress(10, 0),
            DocAddress(10, 1),
            DocAddress(10, 0),
            DocAddress(20, 0),
            DocAddress(20, 1),
            DocAddress(20, 0),
            DocAddress(30, 0),
            DocAddress(30, 1),
            DocAddress(30, 0),
        ]
    );
    assert_eq!(searcher.get_doc(&DocAddress(20, 1)).unwrap().field_values[0].text, "b");
    assert!(searcher.get_doc(&DocAddress(20, 2)).is_none());
    assert!(searcher.get_doc(&DocAddress(40, 0)).is_none());
}

struct TwoTerms;

impl SerializableSegment for TwoTerms {
    fn write(&self, serializer: &mut SimpleSegmentSerializer) -> Result<()> {
        serializer.new_term(&term("x"), 1)?;
        serializer.write_docs(&[5], &identity)?;
        serializer.new_term(&term("y"), 1)?;
        serializer.write_docs(&[6], &identity)
    }
}

struct OutOfOrder;

impl SerializableSegment for OutOfOrder {
    fn write(&self, serializer: &mut SimpleSegmentSerializer) -> Result<()> {
        serializer.new_term(&term("y"), 1)?;
        serializer.new_term(&term("x"), 1)
    }
}

#[test]
fn codec_writes_an_index() {
    let segment = SimpleCodec::write(&TwoTerms, 3).unwrap();
    assert_eq!(segment.id, 3);
    assert_eq!(segment.postings.len(), 24);
    let reader = SegmentReader::open(segment).unwrap();
    assert_eq!(reader.search(&vec![term("y"), term("x")], &identity).unwrap(), vec![6, 5]);
    assert!(matches!(SimpleCodec::write(&OutOfOrder, 3), Err(IndexError::ContractViolation(_))));
}

fn small_serializer(id: u128) -> SimpleSegmentSerializer {
    let mut serializer = SimpleCodec::serializer(id).unwrap();
    serializer.store_doc(vec![FieldValue { field: 1, text: String::from("a b") }]);
    serializer.new_term(&term("a"), 1).unwrap();
    serializer.write_docs(&[0], &identity).unwrap();
    serializer.new_term(&term("ab"), 1).unwrap();
    serializer.write_docs(&[0], &identity).unwrap();
    serializer
}

#[test]
fn reader_reads_what_the_serializer_took() {
    let reader = SegmentReader::from_serializer(small_serializer(9)).unwrap();
    assert_eq!(reader.id(), 9);
    assert_eq!(reader.num_docs(), 1);
    // the record of "a" starts at 0, that of "ab" behind it
    let a = reader.read_postings(&term("a")).unwrap().unwrap();
    assert_eq!((a.doc_freq, a.docs_data), (1, vec![0]));
    let ab = reader.read_postings(&term("ab")).unwrap().unwrap();
    assert_eq!((ab.doc_freq, ab.docs_data), (1, vec![0]));
    assert!(reader.read_postings(&term("b")).unwrap().is_none());
    assert!(reader.read_postings(&term("")).unwrap().is_none());
}

#[test]
fn term_is_found_under_its_recorded_offset() {
    let mut serializer = SimpleCodec::serializer(1).unwrap();
    serializer.new_term(&term("x"), 5).unwrap();
    serializer.write_encoded_docs(&[7, 8]).unwrap();
    assert_eq!(serializer.written_bytes_postings(), 16);
    serializer.new_term(&term("y"), 6).unwrap();
    serializer.write_encoded_docs(&[9]).unwrap();
    let reader = SegmentReader::from_serializer(serializer).unwrap();
    let y = reader.read_postings(&term("y")).unwrap().unwrap();
    assert_eq!((y.doc_freq, y.docs_data), (6, vec![9]));
    let x = reader.read_postings(&term("x")).unwrap().unwrap();
    assert_eq!((x.doc_freq, x.docs_data), (5, vec![7, 8]));
}

#[test]
fn searcher_over_serializers() {
    let searcher = Searcher::for_serializers(vec![small_serializer(4), small_serializer(5)]);
    let mut collector = DocAddressCollector::new();
    searcher.search(&vec![term("ab"), term("zz"), term("a")], &identity, &mut collector);
    assert_eq!(
        collector.docs(),
        &vec![DocAddress(4, 0), DocAddress(4, 0), DocAddress(5, 0), DocAddress(5, 0)]
    );
    assert_eq!(searcher.get_doc(&DocAddress(5, 0)).unwrap().field_values[0].text, "a b");
    let none = Searcher::for_serializers(Vec::new());
    let mut collector = DocAddressCollector::new();
    none.search(&vec![term("a")], &identity, &mut collector);
    assert!(collector.docs().is_empty());
}
