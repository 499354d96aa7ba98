//! Terms and stored documents.

use vstd::prelude::*;

verus! {

/// A term of the index: an opaque byte string, conceptually a field id
/// followed by the bytes of a token. Terms are ordered as byte strings.
pub struct Term {
    data: Vec<u8>,
}

impl View for Term {
    type V = Seq<u8>;

    closed spec fn view(&self) -> Seq<u8> {
        self.data@
    }
}

impl Term {
    /// The term with the given bytes.
    pub fn from_bytes(data: Vec<u8>) -> (term: Term)
        ensures
            term@ == data@,
    {
        Term { data }
    }

    /// The bytes of the term.
    pub fn as_slice(&self) -> (bytes: &[u8])
        ensures
            bytes@ == self@,
    {
        self.data.as_slice()
    }
}

/// Whether the byte string `a` comes before `b`: bytes compare as unsigned
/// numbers, the first difference decides, and a proper prefix comes first.
pub open spec fn bytes_less(a: Seq<u8>, b: Seq<u8>) -> bool
    decreases a.len(),
{
    if b.len() == 0 {
        false
    } else if a.len() == 0 {
        true
    } else if a[0] != b[0] {
        a[0] < b[0]
    } else {
        bytes_less(a.skip(1), b.skip(1))
    }
}

/// One field of a stored document.
#[derive(Debug, PartialEq, Eq)]
pub struct FieldValue {
    pub field: u32,
    pub text: String,
}

/// A stored document: an ordered list of field values.
#[derive(Debug, PartialEq, Eq)]
pub struct Document {
    pub field_values: Vec<FieldValue>,
}

} // verus!
