//! The byte format of a skip list, as a function of its entries and period.

use crate::serialize::{u32_be_bytes, vec_encoding, BinarySerializable};
use crate::DocId;
use vstd::prelude::*;

verus! {

/// The bytes of one record: the key, big-endian, then the encoded value.
pub open spec fn record_bytes<T: BinarySerializable>(doc_id: DocId, value: T) -> Seq<u8> {
    u32_be_bytes(doc_id) + value.encoding()
}

/// The bytes of a layer: its records in insertion order.
pub open spec fn layer_bytes<T: BinarySerializable>(entries: Seq<(DocId, T)>) -> Seq<u8>
    decreases entries.len(),
{
    if entries.len() == 0 {
        Seq::empty()
    } else {
        layer_bytes(entries.drop_last()) + record_bytes(entries.last().0, entries.last().1)
    }
}

/// The byte offset in its layer at which entry `i` starts.
pub open spec fn entry_offset<T: BinarySerializable>(entries: Seq<(DocId, T)>, i: int) -> int {
    layer_bytes(entries.take(i)).len() as int
}

/// The index in a layer of the entry that its `k`-th promotion records.
pub open spec fn promoted_index(k: int, period: nat) -> int {
    (k + 1) * period - 1
}

/// The entries that a layer promotes to the layer above it: for every
/// `period`-th entry, its key and the byte offset at which it starts. The
/// offset is kept in 32 bits, which hold it in every list that can be written.
pub open spec fn promoted<T: BinarySerializable>(entries: Seq<(DocId, T)>, period: nat) -> Seq<
    (DocId, u32),
> {
    Seq::new(
        entries.len() / period,
        |k: int|
            (
                entries[promoted_index(k, period)].0,
                entry_offset(entries, promoted_index(k, period)) as u32,
            ),
    )
}

/// The non-empty layers from `first` upwards, each the promotion of the one below.
pub open spec fn layer_tower(first: Seq<(DocId, u32)>, period: nat) -> Seq<Seq<(DocId, u32)>>
    decreases first.len(),
{
    if period < 2 || first.len() == 0 {
        Seq::empty()
    } else {
        proof {
            assert(first.len() / period < first.len()) by (nonlinear_arith)
                requires
                    period >= 2,
                    first.len() > 0,
            ;
        }
        seq![first] + layer_tower(promoted(first, period), period)
    }
}

/// The skip layers over a data layer, lowest first.
pub open spec fn skip_layers<T: BinarySerializable>(entries: Seq<(DocId, T)>, period: nat) -> Seq<
    Seq<(DocId, u32)>,
> {
    layer_tower(promoted(entries, period), period)
}

/// The given byte blocks, one after the other.
pub open spec fn concat(blocks: Seq<Seq<u8>>) -> Seq<u8>
    decreases blocks.len(),
{
    if blocks.len() == 0 {
        Seq::empty()
    } else {
        concat(blocks.drop_last()) + blocks.last()
    }
}

/// For each block, the size of all blocks up to and including it.
pub open spec fn cumulative_sizes(blocks: Seq<Seq<u8>>) -> Seq<u32> {
    Seq::new(blocks.len(), |i: int| concat(blocks.take(i + 1)).len() as u32)
}

/// The bytes of every layer of a skip list, data layer first; none for an empty list.
pub open spec fn layer_blocks<T: BinarySerializable>(entries: Seq<(DocId, T)>, period: nat) -> Seq<
    Seq<u8>,
> {
    if entries.len() == 0 {
        Seq::empty()
    } else {
        seq![layer_bytes(entries)] + skip_layers(entries, period).map_values(
            |layer: Seq<(DocId, u32)>| layer_bytes(layer),
        )
    }
}

/// The size of all layers of a skip list together.
pub open spec fn layers_size<T: BinarySerializable>(entries: Seq<(DocId, T)>, period: nat) -> nat {
    concat(layer_blocks(entries, period)).len()
}

/// The serialized skip list: the cumulative layer sizes as a vector of `u32`,
/// then the data layer, then the skip layers from the lowest up.
pub open spec fn skip_list_bytes<T: BinarySerializable>(entries: Seq<(DocId, T)>, period: nat) -> Seq<
    u8,
>
    recommends
        layers_size(entries, period) <= u32::MAX,
{
    let blocks = layer_blocks(entries, period);
    vec_encoding(cumulative_sizes(blocks)) + concat(blocks)
}

/// Keys that a skip list accepts: strictly ascending, none of them the
/// end-of-stream sentinel.
pub open spec fn valid_keys<T>(entries: Seq<(DocId, T)>) -> bool {
    &&& forall|i: int, j: int| 0 <= i < j < entries.len() ==> entries[i].0 < entries[j].0
    &&& forall|i: int| 0 <= i < entries.len() ==> entries[i].0 != DocId::MAX
}

/// How quotient and remainder change when the dividend grows by one.
pub proof fn lemma_div_mod_step(n: int, period: int)
    requires
        0 <= n,
        1 <= period,
    ensures
        0 <= n % period < period,
        n % period == period - 1 ==> (n + 1) % period == 0 && (n + 1) / period == n / period + 1,
        n % period != period - 1 ==> (n + 1) % period == n % period + 1 && (n + 1) / period == n
            / period,
{
    vstd::arithmetic::div_mod::lemma_fundamental_div_mod(n, period);
    vstd::arithmetic::div_mod::lemma_mod_bound(n, period);
    let q = n / period;
    let r = n % period;
    if r == period - 1 {
        assert(n + 1 == (q + 1) * period + 0) by (nonlinear_arith)
            requires
                n == period * q + r,
                r == period - 1,
        ;
        vstd::arithmetic::div_mod::lemma_fundamental_div_mod_converse(n + 1, period, q + 1, 0);
    } else {
        assert(n + 1 == q * period + (r + 1)) by (nonlinear_arith)
            requires
                n == period * q + r,
        ;
        vstd::arithmetic::div_mod::lemma_fundamental_div_mod_converse(n + 1, period, q, r + 1);
    }
}

/// Appending an entry to a layer appends its record.
pub proof fn lemma_layer_bytes_push<T: BinarySerializable>(
    entries: Seq<(DocId, T)>,
    doc_id: DocId,
    value: T,
)
    ensures
        layer_bytes(entries.push((doc_id, value))) == layer_bytes(entries) + record_bytes(
            doc_id,
            value,
        ),
{
    assert(entries.push((doc_id, value)).drop_last() =~= entries);
}

/// Every record takes at least the four bytes of its key.
pub proof fn lemma_layer_bytes_len<T: BinarySerializable>(entries: Seq<(DocId, T)>)
    ensures
        layer_bytes(entries).len() >= 4 * entries.len(),
    decreases entries.len(),
{
    if entries.len() > 0 {
        lemma_layer_bytes_len(entries.drop_last());
    }
}

/// The entry that a promotion records lies in the layer, and later
/// promotions record later entries.
pub proof fn lemma_promoted_index(k: int, len: int, period: nat)
    requires
        period >= 1,
        0 <= k < len / (period as int),
        0 <= len,
    ensures
        0 <= promoted_index(k, period) < len,
        forall|j: int| 0 <= j < k ==> promoted_index(j, period) < promoted_index(k, period),
{
    let p = period as int;
    vstd::arithmetic::div_mod::lemma_fundamental_div_mod(len, p);
    vstd::arithmetic::div_mod::lemma_mod_bound(len, p);
    assert(0 <= (k + 1) * p - 1 < len) by (nonlinear_arith)
        requires
            0 <= k < len / p,
            p >= 1,
            len == p * (len / p) + len % p,
            0 <= len % p,
    {
    }
    assert forall|j: int| 0 <= j < k implies promoted_index(j, period) < promoted_index(
        k,
        period,
    ) by {
        assert((j + 1) * p - 1 < (k + 1) * p - 1) by (nonlinear_arith)
            requires
                0 <= j < k,
                p >= 1,
        {
        }
    }
}

/// What a layer promotes after one more entry: one more pointer, to the new
/// entry, when its length has become a multiple of the period; otherwise what
/// it promoted before.
pub proof fn lemma_promoted_push<T: BinarySerializable>(
    entries: Seq<(DocId, T)>,
    doc_id: DocId,
    value: T,
    period: nat,
)
    requires
        period >= 1,
    ensures
        (entries.len() + 1) % period == 0 ==> promoted(
            entries.push((doc_id, value)),
            period,
        ) == promoted(entries, period).push((doc_id, layer_bytes(entries).len() as u32)),
        (entries.len() + 1) % period != 0 ==> promoted(
            entries.push((doc_id, value)),
            period,
        ) == promoted(entries, period),
{
    let longer = entries.push((doc_id, value));
    let n = entries.len() as int;
    let p = period as int;
    lemma_div_mod_step(n, p);
    let before = promoted(entries, period);
    let after = promoted(longer, period);
    assert forall|k: int| 0 <= k < before.len() implies after[k] == before[k] by {
        let idx = promoted_index(k, period);
        lemma_promoted_index(k, n, period);
        assert(longer.take(idx) =~= entries.take(idx));
    }
    if (n + 1) % p == 0 {
        let k = n / p;
        vstd::arithmetic::div_mod::lemma_fundamental_div_mod(n, p);
        assert(promoted_index(k, period) == n) by (nonlinear_arith)
            requires
                n == p * k + (p - 1),
                promoted_index(k, period) == (k + 1) * p - 1,
        {
        }
        assert(longer.take(n) =~= entries);
        assert(after =~= before.push((doc_id, layer_bytes(entries).len() as u32)));
    } else {
        assert(after =~= before);
    }
}

/// The key of the last entry, if there is one.
pub open spec fn last_key<T>(entries: Seq<(DocId, T)>) -> Option<DocId> {
    if entries.len() > 0 {
        Some(entries.last().0)
    } else {
        None
    }
}

/// Whether `doc_id` may follow `entries`: it is not the end-of-stream sentinel
/// and is greater than every key before it.
pub open spec fn key_follows<T>(entries: Seq<(DocId, T)>, doc_id: DocId) -> bool {
    &&& doc_id != DocId::MAX
    &&& entries.len() > 0 ==> entries.last().0 < doc_id
}

/// Valid keys stay valid when a key that follows them is appended.
pub proof fn lemma_valid_keys_push<T>(entries: Seq<(DocId, T)>, doc_id: DocId, value: T)
    requires
        valid_keys(entries),
        key_follows(entries, doc_id),
    ensures
        valid_keys(entries.push((doc_id, value))),
{
    let longer = entries.push((doc_id, value));
    assert forall|i: int, j: int| 0 <= i < j < longer.len() implies longer[i].0 < longer[j].0 by {
        if j == entries.len() {
            if i < entries.len() - 1 {
                assert(entries[i].0 < entries[entries.len() - 1].0);
            }
        }
    }
}

/// `above` holds the skip layers over `data`, lowest first: each is what the
/// layer below it promotes, none is empty, and the topmost promotes nothing.
pub open spec fn linked<T: BinarySerializable>(
    data: Seq<(DocId, T)>,
    above: Seq<Seq<(DocId, u32)>>,
    period: nat,
) -> bool {
    &&& above.len() > 0 ==> above[0] == promoted(data, period)
    &&& forall|k: int| 0 < k < above.len() ==> #[trigger] above[k] == promoted(above[k - 1], period)
    &&& forall|k: int| 0 <= k < above.len() ==> (#[trigger] above[k]).len() > 0
    &&& above.len() == 0 ==> promoted(data, period).len() == 0
    &&& above.len() > 0 ==> promoted(above.last(), period).len() == 0
}

/// A chain of non-empty layers, each the promotion of the one below and the
/// last promoting nothing, is the tower over its first layer.
pub proof fn lemma_tower_of_chain(layers: Seq<Seq<(DocId, u32)>>, period: nat)
    requires
        period >= 2,
        layers.len() > 0,
        forall|k: int| 0 < k < layers.len() ==> #[trigger] layers[k] == promoted(layers[k - 1], period),
        forall|k: int| 0 <= k < layers.len() ==> (#[trigger] layers[k]).len() > 0,
        promoted(layers.last(), period).len() == 0,
    ensures
        layer_tower(layers[0], period) == layers,
    decreases layers.len(),
{
    let rest = layers.skip(1);
    if layers.len() == 1 {
        assert(promoted(layers[0], period) =~= Seq::<(DocId, u32)>::empty());
        assert(layer_tower(promoted(layers[0], period), period) =~= Seq::<Seq<(DocId, u32)>>::empty());
        assert(seq![layers[0]] + Seq::<Seq<(DocId, u32)>>::empty() =~= layers);
    } else {
        assert(layers[1] == promoted(layers[0], period));
        assert forall|k: int| 0 < k < rest.len() implies #[trigger] rest[k] == promoted(
            rest[k - 1],
            period,
        ) by {
            assert(layers[k + 1] == promoted(layers[k + 1 - 1], period));
        }
        assert forall|k: int| 0 <= k < rest.len() implies (#[trigger] rest[k]).len() > 0 by {
            assert(layers[k + 1].len() > 0);
        }
        assert(rest.last() == layers.last());
        lemma_tower_of_chain(rest, period);
        assert(seq![layers[0]] + rest =~= layers);
    }
}

/// Linked layers are the skip layers that the format defines over the data layer.
pub proof fn lemma_linked_is_skip_layers<T: BinarySerializable>(
    data: Seq<(DocId, T)>,
    above: Seq<Seq<(DocId, u32)>>,
    period: nat,
)
    requires
        period >= 2,
        linked(data, above, period),
    ensures
        above == skip_layers(data, period),
{
    if above.len() == 0 {
        assert(promoted(data, period) =~= Seq::<(DocId, u32)>::empty());
        assert(above =~= skip_layers(data, period));
    } else {
        lemma_tower_of_chain(above, period);
    }
}

/// The first `j + 1` blocks together are the first `j` followed by block `j`.
pub proof fn lemma_concat_take_step(blocks: Seq<Seq<u8>>, j: int)
    requires
        0 <= j < blocks.len(),
    ensures
        concat(blocks.take(j + 1)) == concat(blocks.take(j)) + blocks[j],
{
    assert(blocks.take(j + 1).drop_last() =~= blocks.take(j));
}

/// A prefix of the blocks is no longer than all of them.
pub proof fn lemma_concat_take_len(blocks: Seq<Seq<u8>>, j: int)
    requires
        0 <= j <= blocks.len(),
    ensures
        concat(blocks.take(j)).len() <= concat(blocks).len(),
    decreases blocks.len() - j,
{
    if j < blocks.len() {
        lemma_concat_take_step(blocks, j);
        lemma_concat_take_len(blocks, j + 1);
    } else {
        assert(blocks.take(j) =~= blocks);
    }
}

/// Blocks of which none is empty hold at least one byte each.
pub proof fn lemma_concat_len_counts(blocks: Seq<Seq<u8>>)
    requires
        forall|k: int| 0 <= k < blocks.len() ==> (#[trigger] blocks[k]).len() > 0,
    ensures
        concat(blocks).len() >= blocks.len(),
    decreases blocks.len(),
{
    if blocks.len() > 0 {
        lemma_concat_len_counts(blocks.drop_last());
    }
}

} // verus!
