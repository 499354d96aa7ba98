//! The term dictionary: an ordered map from term bytes to offsets, built and
//! read by the `fst` crate.

use crate::schema::bytes_less;
use fst::{Map as FstMap, MapBuilder};
use vstd::prelude::*;

verus! {

/// `fst::MapBuilder`, taken as it is: what a builder holds is told by
/// `term_dict_entries` alone.
#[verifier::external_type_specification]
#[verifier::external_body]
#[verifier::reject_recursive_types(W)]
pub struct ExMapBuilder<W>(fst::MapBuilder<W>);

/// `fst::Map`, taken as it is: what a dictionary reads is told by
/// `fst_map_bytes` alone.
#[verifier::external_type_specification]
#[verifier::external_body]
#[verifier::reject_recursive_types(D)]
pub struct ExFstMap<D>(fst::Map<D>);

/// `fst::Error`, taken as it is: nothing is told of an error but that it came.
#[verifier::external_type_specification]
#[verifier::external_body]
pub struct ExFstError(fst::Error);

/// The key-value pairs that were inserted into a builder, in insertion order.
pub uninterp spec fn term_dict_entries(builder: MapBuilder<Vec<u8>>) -> Seq<(Seq<u8>, u64)>;

/// The bytes of the finished dictionary that holds the given pairs.
pub uninterp spec fn fst_bytes(entries: Seq<(Seq<u8>, u64)>) -> Seq<u8>;

/// The bytes that an opened dictionary reads.
pub uninterp spec fn fst_map_bytes(map: FstMap<Vec<u8>>) -> Seq<u8>;

/// The value that the dictionary with the given bytes holds for a key.
pub uninterp spec fn fst_lookup(bytes: Seq<u8>, key: Seq<u8>) -> Option<u64>;

/// Whether `key` may be inserted after `entries`: it is greater than the last key.
pub open spec fn term_follows(entries: Seq<(Seq<u8>, u64)>, key: Seq<u8>) -> bool {
    entries.len() > 0 ==> bytes_less(entries.last().0, key)
}

/// Pairs as a builder takes them: each key is greater than the key before it.
pub open spec fn ascending(entries: Seq<(Seq<u8>, u64)>) -> bool {
    forall|i: int| 0 < i < entries.len() ==> bytes_less(entries[i - 1].0, #[trigger] entries[i].0)
}

/// Whether the bytes are those of a finished dictionary: there are pairs, as a
/// builder takes them, that the dictionary was built from.
pub open spec fn built(bytes: Seq<u8>) -> bool {
    exists|entries: Seq<(Seq<u8>, u64)>| ascending(entries) && bytes == #[trigger] fst_bytes(entries)
}

/// The value that the pairs hold for a key.
pub open spec fn entries_lookup(entries: Seq<(Seq<u8>, u64)>, key: Seq<u8>) -> Option<u64>
    decreases entries.len(),
{
    if entries.len() == 0 {
        None
    } else if entries.last().0 == key {
        Some(entries.last().1)
    } else {
        entries_lookup(entries.drop_last(), key)
    }
}

/// Pairs that ascend still do once a key that follows them is appended.
pub proof fn lemma_ascending_push(entries: Seq<(Seq<u8>, u64)>, key: Seq<u8>, value: u64)
    requires
        ascending(entries),
        term_follows(entries, key),
    ensures
        ascending(entries.push((key, value))),
{
    let longer = entries.push((key, value));
    assert forall|i: int| 0 < i < longer.len() implies bytes_less(
        longer[i - 1].0,
        #[trigger] longer[i].0,
    ) by {
        if i < entries.len() {
            assert(bytes_less(entries[i - 1].0, entries[i].0));
        }
    }
}

/// `fst::MapBuilder::memory`: a builder that writes to memory and holds no pair yet.
#[verifier::external_body]
pub(crate) fn term_dict_builder() -> (builder: MapBuilder<Vec<u8>>)
    ensures
        term_dict_entries(builder) == Seq::<(Seq<u8>, u64)>::empty(),
{
    MapBuilder::memory()
}

/// `fst::MapBuilder::insert`: the pair is appended when the key is greater
/// than the key inserted last, as byte strings; otherwise the builder reports
/// an error and holds what it held. The builder writes to memory, so no
/// other error can come.
#[verifier::external_body]
pub(crate) fn term_dict_insert(builder: &mut MapBuilder<Vec<u8>>, key: &[u8], value: u64) -> (r:
    Result<(), fst::Error>)
    ensures
        r is Ok <==> term_follows(term_dict_entries(*old(builder)), key@),
        r is Ok ==> term_dict_entries(*final(builder)) == term_dict_entries(*old(builder)).push(
            (key@, value),
        ),
        r is Err ==> term_dict_entries(*final(builder)) == term_dict_entries(*old(builder)),
{
    builder.insert(key, value)
}

/// `fst::MapBuilder::into_inner`: the bytes of the finished dictionary,
/// which are determined by the pairs inserted. The builder writes to memory,
/// so finishing cannot fail.
#[verifier::external_body]
pub(crate) fn term_dict_finish(builder: MapBuilder<Vec<u8>>) -> (r: Result<Vec<u8>, fst::Error>)
    ensures
        r is Ok,
        r matches Ok(bytes) ==> bytes@ == fst_bytes(term_dict_entries(builder)),
{
    builder.into_inner()
}

/// `fst::Map::new`: a dictionary that reads the given bytes. Opening looks
/// at the length, the version and the root address, which a builder writes
/// so that its bytes open. It is asked for the bytes of a finished
/// dictionary only: of other bytes that open, later reads may panic.
#[verifier::external_body]
pub(crate) fn term_dict_open(bytes: Vec<u8>) -> (r: Result<FstMap<Vec<u8>>, fst::Error>)
    requires
        built(bytes@),
    ensures
        r is Ok,
        r matches Ok(map) ==> fst_map_bytes(map) == bytes@,
{
    FstMap::new(bytes)
}

/// `fst::Map::get`: the value that the dictionary holds for the key, if any.
/// The lookup walks the nodes without checking them, so it is made only on
/// the bytes of a finished dictionary. What it finds there is the value
/// that was inserted with the key.
#[verifier::external_body]
pub(crate) fn term_dict_get(map: &FstMap<Vec<u8>>, key: &[u8]) -> (r: Option<u64>)
    requires
        built(fst_map_bytes(*map)),
    ensures
        r == fst_lookup(fst_map_bytes(*map), key@),
        forall|entries: Seq<(Seq<u8>, u64)>|
            ascending(entries) && fst_map_bytes(*map) == #[trigger] fst_bytes(entries) ==> r
                == entries_lookup(entries, key@),
{
    map.get(key)
}

} // verus!
