//! What a cursor does on the bytes of a layer, told by the layer's entries.

use crate::serialize::{
    lemma_decode_at_encoding, lemma_u32_be_round_trip, u32_be_bytes, BinarySerializable,
};
use crate::skip::layout::{
    entry_offset, layer_bytes, lemma_layer_bytes_push, record_bytes, valid_keys,
};
use crate::skip::reader::{
    cursor_at, cursor_next, cursor_seek, cursor_seek_offset, LayerCursor,
};
use crate::DocId;
use vstd::prelude::*;

verus! {

/// The bytes of the first `j` entries are the first bytes of the layer.
pub proof fn lemma_layer_prefix<T: BinarySerializable>(entries: Seq<(DocId, T)>, j: int)
    requires
        0 <= j <= entries.len(),
    ensures
        entry_offset(entries, j) <= layer_bytes(entries).len(),
        layer_bytes(entries.take(j)) == layer_bytes(entries).take(entry_offset(entries, j)),
    decreases entries.len() - j,
{
    if j == entries.len() {
        assert(entries.take(j) =~= entries);
        assert(layer_bytes(entries).take(layer_bytes(entries).len() as int) =~= layer_bytes(entries));
    } else {
        lemma_layer_prefix(entries, j + 1);
        assert(entries.take(j + 1) =~= entries.take(j).push(entries[j]));
        lemma_layer_bytes_push(entries.take(j), entries[j].0, entries[j].1);
        let longer = layer_bytes(entries.take(j + 1));
        let shorter = layer_bytes(entries.take(j));
        assert(shorter =~= longer.take(shorter.len() as int));
        assert(shorter =~= layer_bytes(entries).take(shorter.len() as int));
    }
}

/// Where the record of entry `k` lies in the layer, and what it holds.
pub proof fn lemma_layer_record<T: BinarySerializable>(entries: Seq<(DocId, T)>, k: int)
    requires
        0 <= k < entries.len(),
    ensures
        entry_offset(entries, k + 1) == entry_offset(entries, k) + 4
            + entries[k].1.encoding().len(),
        entry_offset(entries, k + 1) <= layer_bytes(entries).len(),
        layer_bytes(entries).subrange(
            entry_offset(entries, k),
            entry_offset(entries, k) + 4,
        ) == u32_be_bytes(entries[k].0),
        layer_bytes(entries).subrange(
            entry_offset(entries, k) + 4,
            entry_offset(entries, k + 1),
        ) == entries[k].1.encoding(),
{
    lemma_layer_prefix(entries, k);
    lemma_layer_prefix(entries, k + 1);
    assert(entries.take(k + 1) =~= entries.take(k).push(entries[k]));
    lemma_layer_bytes_push(entries.take(k), entries[k].0, entries[k].1);
    lemma_u32_be_round_trip(entries[k].0);
    let whole = layer_bytes(entries);
    let start = entry_offset(entries, k);
    let end = entry_offset(entries, k + 1);
    let record = record_bytes(entries[k].0, entries[k].1);
    assert(whole.take(end) == whole.take(start) + record);
    assert(whole.subrange(start, end) =~= record) by {
        assert(whole.subrange(start, end) =~= whole.take(end).subrange(start, end));
    }
    assert(whole.subrange(start, start + 4) =~= record.subrange(0, 4));
    assert(record.subrange(0, 4) =~= u32_be_bytes(entries[k].0));
    assert(whole.subrange(start + 4, end) =~= record.subrange(4, record.len() as int));
    assert(record.subrange(4, record.len() as int) =~= entries[k].1.encoding());
}

/// The end of the last entry is the end of the layer.
pub proof fn lemma_layer_end<T: BinarySerializable>(entries: Seq<(DocId, T)>)
    ensures
        entry_offset(entries, entries.len() as int) == layer_bytes(entries).len(),
        entry_offset(entries, 0) == 0,
{
    assert(entries.take(entries.len() as int) =~= entries);
    assert(entries.take(0) =~= Seq::<(DocId, T)>::empty());
}

/// The cursor `c` reads the layer of `entries` and stands on entry `k`, or
/// behind the last entry where `k` is their number.
pub open spec fn cursor_on<T: BinarySerializable>(
    c: LayerCursor,
    entries: Seq<(DocId, T)>,
    k: int,
) -> bool {
    &&& c.bytes == layer_bytes(entries)
    &&& 0 <= k <= entries.len()
    &&& k < entries.len() ==> c.next_id == entries[k].0 && c.pos == entry_offset(entries, k) + 4
    &&& k == entries.len() ==> c.next_id == DocId::MAX
}

/// Reading ahead at the offset of entry `k` puts the cursor on entry `k`.
pub proof fn lemma_cursor_at_entry<T: BinarySerializable>(
    entries: Seq<(DocId, T)>,
    k: int,
    stay: int,
)
    requires
        0 <= k <= entries.len(),
    ensures
        cursor_on(cursor_at(layer_bytes(entries), entry_offset(entries, k), stay), entries, k),
{
    let bytes = layer_bytes(entries);
    let at = entry_offset(entries, k);
    if k < entries.len() {
        lemma_layer_record(entries, k);
        lemma_u32_be_round_trip(entries[k].0);
        lemma_decode_at_encoding::<u32>(bytes, at, entries[k].0);
    } else {
        lemma_layer_end(entries);
        assert(bytes.skip(at).len() == 0);
    }
}

/// A step on entry `k` yields that entry and moves to the next; behind the
/// last entry it yields nothing.
pub proof fn lemma_next_on<T: BinarySerializable>(c: LayerCursor, entries: Seq<(DocId, T)>, k: int)
    requires
        cursor_on(c, entries, k),
        valid_keys(entries),
    ensures
        k < entries.len() ==> cursor_next::<T>(c).1 == Some(entries[k]) && cursor_on(
            cursor_next::<T>(c).0,
            entries,
            k + 1,
        ),
        k == entries.len() ==> cursor_next::<T>(c) == (c, None::<(DocId, T)>),
{
    if k < entries.len() {
        lemma_layer_record(entries, k);
        lemma_decode_at_encoding::<T>(c.bytes, c.pos, entries[k].1);
        let after = entry_offset(entries, k + 1);
        lemma_cursor_at_entry(entries, k + 1, after);
    }
}

/// The number of entries whose key is less than `target`: in an ascending
/// layer, the index of the first entry whose key is not.
pub open spec fn first_not_less<T>(entries: Seq<(DocId, T)>, target: DocId) -> int
    decreases entries.len(),
{
    if entries.len() == 0 {
        0
    } else if entries.last().0 < target {
        entries.len() as int
    } else {
        first_not_less(entries.drop_last(), target)
    }
}

/// In an ascending layer, exactly the entries before `first_not_less` have a
/// key less than the target.
pub proof fn lemma_first_not_less<T>(entries: Seq<(DocId, T)>, target: DocId)
    requires
        valid_keys(entries),
    ensures
        0 <= first_not_less(entries, target) <= entries.len(),
        forall|i: int| 0 <= i < first_not_less(entries, target) ==> entries[i].0 < target,
        forall|i: int|
            first_not_less(entries, target) <= i < entries.len() ==> entries[i].0 >= target,
    decreases entries.len(),
{
    if entries.len() > 0 {
        let front = entries.drop_last();
        if entries.last().0 < target {
            assert forall|i: int| 0 <= i < entries.len() implies entries[i].0 < target by {
                if i < entries.len() - 1 {
                    assert(entries[i].0 < entries[entries.len() - 1].0);
                }
            }
        } else {
            assert(valid_keys(front)) by {
                assert forall|i: int, j: int| 0 <= i < j < front.len() implies front[i].0
                    < front[j].0 by {
                    assert(entries[i].0 < entries[j].0);
                }
                assert forall|i: int| 0 <= i < front.len() implies front[i].0 != DocId::MAX by {
                    assert(entries[i].0 != DocId::MAX);
                }
            }
            lemma_first_not_less(front, target);
            assert forall|i: int|
                first_not_less(entries, target) <= i < entries.len() implies entries[i].0
                >= target by {
                if i < front.len() {
                    assert(front[i].0 >= target);
                }
            }
            assert forall|i: int| 0 <= i < first_not_less(entries, target) implies entries[i].0
                < target by {
                assert(front[i].0 < target);
            }
        }
    }
}

/// Seeking on an ascending layer moves the cursor forward to the first entry
/// whose key is not less than the target, and yields the entry before it if
/// the cursor moved at all.
pub proof fn lemma_seek_on<T: BinarySerializable>(
    c: LayerCursor,
    entries: Seq<(DocId, T)>,
    k: int,
    target: DocId,
)
    requires
        cursor_on(c, entries, k),
        valid_keys(entries),
    ensures
        k < first_not_less(entries, target) ==> cursor_on(
            cursor_seek::<T>(c, target).0,
            entries,
            first_not_less(entries, target),
        ) && cursor_seek::<T>(c, target).1 == Some(entries[first_not_less(entries, target) - 1]),
        k >= first_not_less(entries, target) ==> cursor_seek::<T>(c, target) == (
            c,
            None::<(DocId, T)>,
        ),
    decreases entries.len() - k,
{
    let f = first_not_less(entries, target);
    lemma_first_not_less(entries, target);
    if c.next_id < target {
        assert(k < entries.len());
        assert(k < f) by {
            if k >= f {
                assert(entries[k].0 >= target);
            }
        }
        lemma_next_on(c, entries, k);
        let (stepped, found) = cursor_next::<T>(c);
        if stepped.next_id < target {
            lemma_seek_on(stepped, entries, k + 1, target);
            assert(k + 1 < f) by {
                if k + 1 >= f {
                    assert(k + 1 < entries.len());
                    assert(entries[k + 1].0 >= target);
                }
            }
        } else {
            assert(k + 1 == f) by {
                if k + 1 < f {
                    assert(entries[k + 1].0 < target);
                }
            }
        }
    } else {
        assert(k >= f) by {
            if k < f {
                assert(entries[k].0 < target);
            }
        }
    }
}

/// Repositioning to the offset of entry `k` puts the cursor on entry `k`.
pub proof fn lemma_seek_offset_on<T: BinarySerializable>(
    c: LayerCursor,
    entries: Seq<(DocId, T)>,
    k: int,
)
    requires
        c.bytes == layer_bytes(entries),
        0 <= k <= entries.len(),
    ensures
        cursor_on(cursor_seek_offset(c, entry_offset(entries, k)), entries, k),
{
    lemma_cursor_at_entry(entries, k, c.pos);
}

} // verus!
