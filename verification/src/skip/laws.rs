//! What holds of every skip list: iteration gives back what was built, and
//! seek lands on the first entry whose key is not less than the target.

use crate::serialize::{
    lemma_vec_decoding_inverts_encoding, vec_encoding, BinarySerializable,
};
use crate::skip::layer_laws::{
    cursor_on, first_not_less, lemma_cursor_at_entry, lemma_first_not_less, lemma_layer_end,
    lemma_layer_prefix, lemma_next_on, lemma_seek_offset_on, lemma_seek_on,
};
use crate::skip::layout::{
    concat, cumulative_sizes, entry_offset, layer_blocks, layer_bytes, layer_tower, layers_size,
    lemma_concat_len_counts, lemma_concat_take_len, lemma_concat_take_step,
    lemma_layer_bytes_len, lemma_promoted_index, linked, promoted, promoted_index, skip_layers,
    skip_list_bytes, valid_keys,
};
use crate::skip::reader::{
    cursor_follow, cursor_seek, layer_slice, seek_skips, sizes_fit, skip_list_drain,
    skip_list_next, skip_list_open, skip_list_seek, LayerCursor, SkipListCursor,
};
use crate::DocId;
use vstd::prelude::*;

verus! {

/// What a layer with valid keys promotes has valid keys.
pub proof fn lemma_promoted_valid_keys<T: BinarySerializable>(entries: Seq<(DocId, T)>, period: nat)
    requires
        period >= 1,
        valid_keys(entries),
    ensures
        valid_keys(promoted(entries, period)),
{
    let above = promoted(entries, period);
    let len = entries.len() as int;
    assert forall|i: int, j: int| 0 <= i < j < above.len() implies above[i].0 < above[j].0 by {
        lemma_promoted_index(i, len, period);
        lemma_promoted_index(j, len, period);
        assert(entries[promoted_index(i, period)].0 < entries[promoted_index(j, period)].0);
    }
    assert forall|i: int| 0 <= i < above.len() implies above[i].0 != DocId::MAX by {
        lemma_promoted_index(i, len, period);
    }
}

/// The tower over a layer is a chain: it starts with that layer, each layer
/// is what the one below promotes, none is empty, the topmost promotes
/// nothing, and all have valid keys where the first has.
pub proof fn lemma_tower_is_chain(first: Seq<(DocId, u32)>, period: nat)
    requires
        period >= 2,
    ensures
        first.len() > 0 ==> layer_tower(first, period).len() > 0 && layer_tower(first, period)[0]
            == first,
        first.len() == 0 ==> layer_tower(first, period).len() == 0,
        forall|k: int|
            0 < k < layer_tower(first, period).len() ==> #[trigger] layer_tower(first, period)[k]
                == promoted(layer_tower(first, period)[k - 1], period),
        forall|k: int|
            0 <= k < layer_tower(first, period).len() ==> (#[trigger] layer_tower(
                first,
                period,
            )[k]).len() > 0,
        layer_tower(first, period).len() > 0 ==> promoted(
            layer_tower(first, period).last(),
            period,
        ).len() == 0,
        valid_keys(first) ==> forall|k: int|
            0 <= k < layer_tower(first, period).len() ==> valid_keys(
                #[trigger] layer_tower(first, period)[k],
            ),
    decreases first.len(),
{
    if first.len() > 0 {
        let above = promoted(first, period);
        let upper = layer_tower(above, period);
        let tower = layer_tower(first, period);
        vstd::arithmetic::div_mod::lemma_div_decreases(first.len() as int, period as int);
        lemma_tower_is_chain(above, period);
        assert(tower =~= seq![first] + upper);
        assert forall|k: int| 0 < k < tower.len() implies #[trigger] tower[k] == promoted(
            tower[k - 1],
            period,
        ) by {
            if k >= 2 {
                assert(upper[k - 1] == promoted(upper[k - 1 - 1], period));
            }
        }
        assert forall|k: int| 0 <= k < tower.len() implies (#[trigger] tower[k]).len() > 0 by {
            if k >= 1 {
                assert(upper[k - 1].len() > 0);
            }
        }
        if upper.len() > 0 {
            assert(tower.last() == upper.last());
        }
        if valid_keys(first) {
            lemma_promoted_valid_keys(first, period);
            assert forall|k: int| 0 <= k < tower.len() implies valid_keys(#[trigger] tower[k]) by {
                if k >= 1 {
                    assert(valid_keys(upper[k - 1]));
                }
            }
        }
    }
}

/// The skip layers that the format defines are linked to the data layer, and
/// have valid keys where the data layer has.
pub proof fn lemma_skip_layers_linked<T: BinarySerializable>(entries: Seq<(DocId, T)>, period: nat)
    requires
        period >= 2,
    ensures
        linked(entries, skip_layers(entries, period), period),
        valid_keys(entries) ==> forall|k: int|
            0 <= k < skip_layers(entries, period).len() ==> valid_keys(
                #[trigger] skip_layers(entries, period)[k],
            ),
{
    lemma_tower_is_chain(promoted(entries, period), period);
    if valid_keys(entries) {
        lemma_promoted_valid_keys(entries, period);
    }
}

/// `pointer` is what a seek for `target` finds in the layer above `below`:
/// nothing, or the last entry of that layer whose key is less than `target`.
pub open spec fn pointer_into<B: BinarySerializable>(
    pointer: Option<(DocId, u32)>,
    below: Seq<(DocId, B)>,
    period: nat,
    target: DocId,
) -> bool {
    match pointer {
        None => true,
        Some(found) => {
            let above = promoted(below, period);
            first_not_less(above, target) >= 1 && found == above[first_not_less(above, target) - 1]
        },
    }
}

/// A layer follows the pointer found above it and seeks: it lands on its
/// first entry whose key is not less than the target, unless it had no
/// pointer and stood behind that entry already; and it finds the entry before
/// the one it lands on whenever it passed any.
pub proof fn lemma_follow_and_seek<B: BinarySerializable>(
    c: LayerCursor,
    below: Seq<(DocId, B)>,
    at: int,
    pointer: Option<(DocId, u32)>,
    period: nat,
    target: DocId,
)
    requires
        period >= 1,
        cursor_on(c, below, at),
        valid_keys(below),
        layer_bytes(below).len() <= u32::MAX,
        pointer_into(pointer, below, period, target),
    ensures
        (pointer is Some || at < first_not_less(below, target)) ==> first_not_less(below, target)
            >= 1 && cursor_on(
            cursor_seek::<B>(cursor_follow(c, pointer), target).0,
            below,
            first_not_less(below, target),
        ) && cursor_seek::<B>(cursor_follow(c, pointer), target).1 == Some(
            below[first_not_less(below, target) - 1],
        ),
        (pointer is None && at >= first_not_less(below, target)) ==> cursor_seek::<B>(
            cursor_follow(c, pointer),
            target,
        ) == (c, None::<(DocId, B)>),
{
    let f = first_not_less(below, target);
    lemma_first_not_less(below, target);
    match pointer {
        Some(found) => {
            let above = promoted(below, period);
            let fa = first_not_less(above, target);
            lemma_promoted_valid_keys(below, period);
            lemma_first_not_less(above, target);
            let idx = promoted_index(fa - 1, period);
            lemma_promoted_index(fa - 1, below.len() as int, period);
            assert(above[fa - 1].0 < target);
            assert(below[idx].0 < target);
            assert(idx < f) by {
                if idx >= f {
                    assert(below[idx].0 >= target);
                }
            }
            lemma_layer_prefix(below, idx);
            assert(found.1 as int == entry_offset(below, idx));
            lemma_seek_offset_on(c, below, idx);
            lemma_seek_on(cursor_follow(c, pointer), below, idx, target);
        },
        None => {
            lemma_seek_on(c, below, at, target);
        },
    }
}

/// The cursor `c` reads the layer of `entries` and stands on one of its
/// entries or behind the last.
pub open spec fn cursor_in<T: BinarySerializable>(c: LayerCursor, entries: Seq<(DocId, T)>) -> bool {
    exists|at: int| cursor_on(c, entries, at)
}

/// The cursors `skips`, topmost first, read the layers `layers`, lowest first.
pub open spec fn skips_in(skips: Seq<LayerCursor>, layers: Seq<Seq<(DocId, u32)>>) -> bool {
    &&& skips.len() == layers.len()
    &&& forall|j: int|
        0 <= j < skips.len() ==> cursor_in(#[trigger] skips[j], layers[layers.len() - 1 - j])
}

/// The reader state `c` reads the skip list built from `entries` with the
/// given period, and its data cursor has passed the first `passed` entries.
pub open spec fn reads<T: BinarySerializable>(
    c: SkipListCursor,
    entries: Seq<(DocId, T)>,
    period: nat,
    passed: int,
) -> bool {
    &&& cursor_on(c.data, entries, passed)
    &&& skips_in(c.skips, skip_layers(entries, period))
}

/// The layer that the cursor at `from` reads, or the data layer below all of
/// them: what the pointer handed to that position points into.
pub open spec fn pointer_fits_walk<T: BinarySerializable>(
    pointer: Option<(DocId, u32)>,
    entries: Seq<(DocId, T)>,
    layers: Seq<Seq<(DocId, u32)>>,
    from: int,
    period: nat,
    target: DocId,
) -> bool {
    if from < layers.len() {
        pointer_into(pointer, layers[layers.len() - 1 - from], period, target)
    } else {
        pointer_into(pointer, entries, period, target)
    }
}

/// The walk down the skip layers leaves every cursor in its layer, and hands
/// the data layer nothing or the last entry of the lowest skip layer whose
/// key is less than the target.
pub proof fn lemma_seek_skips<T: BinarySerializable>(
    skips: Seq<LayerCursor>,
    entries: Seq<(DocId, T)>,
    layers: Seq<Seq<(DocId, u32)>>,
    from: int,
    pointer: Option<(DocId, u32)>,
    period: nat,
    target: DocId,
)
    requires
        period >= 2,
        0 <= from <= layers.len(),
        skips_in(skips, layers),
        linked(entries, layers, period),
        forall|k: int| 0 <= k < layers.len() ==> valid_keys(#[trigger] layers[k]),
        forall|k: int| 0 <= k < layers.len() ==> layer_bytes(#[trigger] layers[k]).len() <= u32::MAX,
        pointer_fits_walk(pointer, entries, layers, from, period, target),
    ensures
        skips_in(seek_skips(skips, from, pointer, target).0, layers),
        pointer_into(seek_skips(skips, from, pointer, target).1, entries, period, target),
    decreases layers.len() - from,
{
    if from < layers.len() {
        let m = layers.len() - 1 - from;
        let layer = layers[m];
        assert(cursor_in(skips[from], layers[layers.len() - 1 - from]));
        let at = choose|at: int| cursor_on(skips[from], layer, at);
        lemma_follow_and_seek::<u32>(skips[from], layer, at, pointer, period, target);
        let (moved, found) = cursor_seek::<u32>(cursor_follow(skips[from], pointer), target);
        let f = first_not_less(layer, target);
        lemma_first_not_less(layer, target);
        let moved_at = if pointer is Some || at < f {
            f
        } else {
            at
        };
        assert(cursor_on(moved, layer, moved_at));
        let after = skips.update(from, moved);
        assert(skips_in(after, layers)) by {
            assert forall|j: int| 0 <= j < after.len() implies cursor_in(
                #[trigger] after[j],
                layers[layers.len() - 1 - j],
            ) by {
                if j != from {
                    assert(cursor_in(skips[j], layers[layers.len() - 1 - j]));
                }
            }
        }
        assert(pointer_fits_walk(found, entries, layers, from + 1, period, target)) by {
            if found is Some {
                if m > 0 {
                    assert(layers[m] == promoted(layers[m - 1], period));
                } else {
                    assert(layers[0] == promoted(entries, period));
                }
            }
        }
        lemma_seek_skips(after, entries, layers, from + 1, found, period, target);
    }
}

/// Block `i` lies in the concatenation between the sizes of the blocks
/// before it and of the blocks up to it.
pub proof fn lemma_concat_block(blocks: Seq<Seq<u8>>, i: int)
    requires
        0 <= i < blocks.len(),
    ensures
        concat(blocks.take(i)).len() <= concat(blocks.take(i + 1)).len() <= concat(blocks).len(),
        concat(blocks).subrange(
            concat(blocks.take(i)).len() as int,
            concat(blocks.take(i + 1)).len() as int,
        ) == blocks[i],
        blocks[i].len() <= concat(blocks).len(),
    decreases blocks.len() - i,
{
    lemma_concat_take_step(blocks, i);
    lemma_concat_take_len(blocks, i + 1);
    let start = concat(blocks.take(i)).len() as int;
    let end = concat(blocks.take(i + 1)).len() as int;
    if i + 1 == blocks.len() {
        assert(blocks.take(i + 1) =~= blocks);
        assert(concat(blocks).subrange(start, end) =~= blocks[i]);
    } else {
        let shorter = blocks.drop_last();
        assert(shorter.take(i) =~= blocks.take(i));
        assert(shorter.take(i + 1) =~= blocks.take(i + 1));
        lemma_concat_block(shorter, i);
        assert(concat(blocks).subrange(start, end) =~= concat(shorter).subrange(start, end));
    }
}

/// The layers of a skip list whose size a `u32` can tell: none is empty,
/// there are no more of them than bytes, and each is no larger than all
/// together.
pub proof fn lemma_layers_fit<T: BinarySerializable>(entries: Seq<(DocId, T)>, period: nat)
    requires
        period >= 2,
        layers_size(entries, period) <= u32::MAX,
    ensures
        layer_blocks(entries, period).len() <= u32::MAX,
        layer_bytes(entries).len() <= u32::MAX,
        forall|k: int|
            0 <= k < skip_layers(entries, period).len() ==> layer_bytes(
                #[trigger] skip_layers(entries, period)[k],
            ).len() <= u32::MAX,
        entries.len() > 0 ==> layer_blocks(entries, period).len() == 1 + skip_layers(
            entries,
            period,
        ).len(),
        entries.len() == 0 ==> skip_layers(entries, period).len() == 0,
{
    let blocks = layer_blocks(entries, period);
    let layers = skip_layers(entries, period);
    lemma_skip_layers_linked(entries, period);
    if entries.len() > 0 {
        assert forall|k: int| 0 <= k < blocks.len() implies (#[trigger] blocks[k]).len() > 0 by {
            if k == 0 {
                lemma_layer_bytes_len(entries);
            } else {
                assert(layers[k - 1].len() > 0);
                lemma_layer_bytes_len(layers[k - 1]);
            }
        }
        lemma_concat_len_counts(blocks);
        lemma_concat_block(blocks, 0);
        assert forall|k: int| 0 <= k < layers.len() implies layer_bytes(#[trigger] layers[k]).len()
            <= u32::MAX by {
            lemma_concat_block(blocks, k + 1);
            assert(blocks[k + 1] == layer_bytes(layers[k]));
        }
    } else {
        vstd::arithmetic::div_mod::lemma_basic_div(0, period as int);
        assert(promoted(entries, period).len() == 0);
    }
}

/// Opening what was built: the reader over the serialization of `entries`
/// reads `entries`, and has passed none of them.
pub proof fn lemma_open_reads<T: BinarySerializable>(entries: Seq<(DocId, T)>, period: nat)
    requires
        period >= 2,
        layers_size(entries, period) <= u32::MAX,
    ensures
        skip_list_open(skip_list_bytes(entries, period)) is Some,
        reads(skip_list_open(skip_list_bytes(entries, period)).unwrap(), entries, period, 0),
{
    let blocks = layer_blocks(entries, period);
    let layers = skip_layers(entries, period);
    let sizes = cumulative_sizes(blocks);
    let bytes = skip_list_bytes(entries, period);
    lemma_layers_fit(entries, period);
    lemma_vec_decoding_inverts_encoding::<u32>(sizes, concat(blocks));
    let start = vec_encoding(sizes).len() as int;
    let region = bytes.skip(start);
    assert(region =~= concat(blocks));
    assert forall|i: int| 0 <= i < blocks.len() implies #[trigger] sizes[i] as int == concat(
        blocks.take(i + 1),
    ).len() by {
        lemma_concat_block(blocks, i);
    }
    assert(sizes_fit(sizes, region.len() as int)) by {
        assert forall|i: int, j: int| 0 <= i <= j < sizes.len() implies sizes[i] <= sizes[j] by {
            let upto = blocks.take(j + 1);
            assert(upto.take(i + 1) =~= blocks.take(i + 1));
            lemma_concat_take_len(upto, i + 1);
            assert(sizes[i] as int == concat(blocks.take(i + 1)).len());
            assert(sizes[j] as int == concat(blocks.take(j + 1)).len());
        }
        if sizes.len() > 0 {
            assert(blocks.take(blocks.len() as int) =~= blocks);
            assert(sizes[sizes.len() - 1] as int == concat(blocks.take(sizes.len() - 1 + 1)).len());
        }
    }
    assert forall|i: int| 0 <= i < blocks.len() implies layer_slice(region, sizes, i)
        == #[trigger] blocks[i] by {
        lemma_concat_block(blocks, i);
        if i == 0 {
            assert(blocks.take(0) =~= Seq::<Seq<u8>>::empty());
        } else {
            assert(sizes[i - 1] as int == concat(blocks.take(i - 1 + 1)).len());
        }
        assert(sizes[i] as int == concat(blocks.take(i + 1)).len());
    }
    let c = skip_list_open(bytes).unwrap();
    lemma_layer_end(entries);
    lemma_cursor_at_entry(entries, 0, 0);
    if entries.len() == 0 {
        assert(layer_bytes(entries) =~= Seq::<u8>::empty());
    } else {
        assert(layer_slice(region, sizes, 0) == blocks[0]);
    }
    assert(cursor_on(c.data, entries, 0));
    assert(skips_in(c.skips, layers)) by {
        assert forall|j: int| 0 <= j < c.skips.len() implies cursor_in(
            #[trigger] c.skips[j],
            layers[layers.len() - 1 - j],
        ) by {
            let layer = layers[layers.len() - 1 - j];
            assert(layer_slice(region, sizes, sizes.len() - 1 - j) == blocks[sizes.len() - 1 - j]);
            assert(blocks[sizes.len() - 1 - j] == layer_bytes(layer));
            lemma_layer_end(layer);
            lemma_cursor_at_entry(layer, 0, 0);
            assert(cursor_on(c.skips[j], layer, 0));
        }
    }
}

/// One step of iteration yields the first entry not passed yet and passes
/// it; once all are passed it yields nothing and changes nothing.
pub proof fn lemma_next_reads<T: BinarySerializable>(
    c: SkipListCursor,
    entries: Seq<(DocId, T)>,
    period: nat,
    passed: int,
)
    requires
        valid_keys(entries),
        reads(c, entries, period, passed),
    ensures
        passed < entries.len() ==> skip_list_next::<T>(c).1 == Some(entries[passed]) && reads(
            skip_list_next::<T>(c).0,
            entries,
            period,
            passed + 1,
        ),
        passed == entries.len() ==> skip_list_next::<T>(c) == (c, None::<(DocId, T)>),
{
    lemma_next_on(c.data, entries, passed);
}

/// Iteration to the end yields the entries not passed yet, in order.
pub proof fn lemma_drain_reads<T: BinarySerializable>(
    c: SkipListCursor,
    entries: Seq<(DocId, T)>,
    period: nat,
    passed: int,
)
    requires
        valid_keys(entries),
        reads(c, entries, period, passed),
    ensures
        skip_list_drain::<T>(c) == entries.skip(passed),
    decreases entries.len() - passed,
{
    lemma_next_reads(c, entries, period, passed);
    if passed < entries.len() {
        let stepped = skip_list_next::<T>(c).0;
        lemma_drain_reads(stepped, entries, period, passed + 1);
        assert(seq![entries[passed]] + entries.skip(passed + 1) =~= entries.skip(passed));
    } else {
        assert(entries.skip(passed) =~= Seq::<(DocId, T)>::empty());
    }
}

/// For entries with valid keys and a period of at least two, the serialized
/// skip list opens, and iterating it yields exactly the entries that were
/// built into it.
pub proof fn lemma_build_then_iterate<T: BinarySerializable>(entries: Seq<(DocId, T)>, period: nat)
    requires
        valid_keys(entries),
        period >= 2,
        layers_size(entries, period) <= u32::MAX,
    ensures
        skip_list_open(skip_list_bytes(entries, period)) is Some,
        skip_list_drain::<T>(skip_list_open(skip_list_bytes(entries, period)).unwrap()) == entries,
{
    lemma_open_reads(entries, period);
    let c = skip_list_open(skip_list_bytes(entries, period)).unwrap();
    lemma_drain_reads(c, entries, period, 0);
    assert(entries.skip(0) =~= entries);
}

/// The number of entries that the data cursor has passed after a seek: those
/// whose key is less than the target, unless the cursor had passed more
/// before and the walk down the skip layers found no pointer to send it back.
pub open spec fn seek_lands<T: BinarySerializable>(
    c: SkipListCursor,
    entries: Seq<(DocId, T)>,
    passed: int,
    target: DocId,
) -> int {
    if seek_skips(c.skips, 0, None, target).1 is Some || passed < first_not_less(entries, target) {
        first_not_less(entries, target)
    } else {
        passed
    }
}

/// Where a seek leaves the reader: it still reads the same list, and its
/// data cursor has passed the entries that `seek_lands` tells, which are at
/// least those whose key is less than the target. The seek returns the last
/// entry whose key is less than the target whenever the data cursor moved,
/// and nothing otherwise.
pub proof fn lemma_seek_reads<T: BinarySerializable>(
    c: SkipListCursor,
    entries: Seq<(DocId, T)>,
    period: nat,
    passed: int,
    target: DocId,
)
    requires
        valid_keys(entries),
        period >= 2,
        layers_size(entries, period) <= u32::MAX,
        reads(c, entries, period, passed),
    ensures
        reads(
            skip_list_seek::<T>(c, target).0,
            entries,
            period,
            seek_lands(c, entries, passed, target),
        ),
        first_not_less(entries, target) <= seek_lands(c, entries, passed, target) <= entries.len(),
        skip_list_seek::<T>(c, target).1 == (if seek_skips(c.skips, 0, None, target).1 is Some
            || passed < first_not_less(entries, target) {
            Some(entries[first_not_less(entries, target) - 1])
        } else {
            None
        }),
        skip_list_seek::<T>(c, target).1 is Some ==> first_not_less(entries, target) >= 1,
{
    let layers = skip_layers(entries, period);
    let f = first_not_less(entries, target);
    lemma_first_not_less(entries, target);
    lemma_skip_layers_linked(entries, period);
    lemma_layers_fit(entries, period);
    lemma_seek_skips(c.skips, entries, layers, 0, None, period, target);
    let (skips, pointer) = seek_skips(c.skips, 0, None, target);
    lemma_follow_and_seek::<T>(c.data, entries, passed, pointer, period, target);
}

/// After a seek, the next entry yielded is the first that
/// the data cursor has not passed, as `seek_lands` tells, and its key is not
/// less than the target. Where the data cursor had not passed the first
/// entry with such a key before the seek, or a skip layer sent it back, the
/// next entry yielded is exactly that one, the entry with the smallest key
/// not less than the target; and nothing is yielded only where no entry has
/// such a key.
pub proof fn lemma_seek_then_next<T: BinarySerializable>(
    c: SkipListCursor,
    entries: Seq<(DocId, T)>,
    period: nat,
    passed: int,
    target: DocId,
)
    requires
        valid_keys(entries),
        period >= 2,
        layers_size(entries, period) <= u32::MAX,
        reads(c, entries, period, passed),
    ensures
        skip_list_next::<T>(skip_list_seek::<T>(c, target).0).1 == (if seek_lands(
            c,
            entries,
            passed,
            target,
        ) < entries.len() {
            Some(entries[seek_lands(c, entries, passed, target)])
        } else {
            None
        }),
        skip_list_next::<T>(skip_list_seek::<T>(c, target).0).1 matches Some(next) ==> next.0
            >= target,
        seek_lands(c, entries, passed, target) == first_not_less(entries, target) ==> match skip_list_next::<
            T,
        >(skip_list_seek::<T>(c, target).0).1 {
            Some(next) => {
                &&& entries.contains(next)
                &&& next.0 >= target
                &&& forall|i: int| 0 <= i < entries.len() && entries[i].0 >= target ==> next.0
                    <= entries[i].0
            },
            None => forall|i: int| 0 <= i < entries.len() ==> entries[i].0 < target,
        },
{
    let f = first_not_less(entries, target);
    let sought = skip_list_seek::<T>(c, target).0;
    let landed = seek_lands(c, entries, passed, target);
    lemma_first_not_less(entries, target);
    lemma_seek_reads(c, entries, period, passed, target);
    lemma_next_reads(sought, entries, period, landed);
    if landed < entries.len() {
        assert(entries[landed].0 >= target);
    }
    if landed == f && f < entries.len() {
        assert forall|i: int| 0 <= i < entries.len() && entries[i].0 >= target implies entries[f].0
            <= entries[i].0 by {
            if i < f {
                assert(entries[i].0 < target);
            } else if i > f {
                assert(entries[f].0 < entries[i].0);
            }
        }
    }
}

/// After a seek for a target greater than every key, iteration yields
/// nothing.
pub proof fn lemma_seek_past_end<T: BinarySerializable>(
    c: SkipListCursor,
    entries: Seq<(DocId, T)>,
    period: nat,
    passed: int,
    target: DocId,
)
    requires
        valid_keys(entries),
        period >= 2,
        layers_size(entries, period) <= u32::MAX,
        reads(c, entries, period, passed),
        forall|i: int| 0 <= i < entries.len() ==> entries[i].0 < target,
    ensures
        skip_list_next::<T>(skip_list_seek::<T>(c, target).0).1 is None,
{
    let f = first_not_less(entries, target);
    lemma_first_not_less(entries, target);
    assert(f == entries.len()) by {
        if f < entries.len() {
            assert(entries[f].0 >= target);
        }
    }
    lemma_seek_reads(c, entries, period, passed, target);
    lemma_seek_then_next(c, entries, period, passed, target);
}

} // verus!
