//! The size of a serialized skip list, as a function of the number of its
//! entries and the period.

use crate::serialize::lemma_sizes_encoding_len;
use crate::skip::layout::{
    concat, cumulative_sizes, layer_blocks, layer_bytes, layer_tower, layers_size, promoted,
    skip_layers, skip_list_bytes,
};
use crate::DocId;
use vstd::prelude::*;

verus! {

/// The number of non-empty layers in the tower over a layer of `len` entries.
pub open spec fn tower_height(len: nat, period: nat) -> nat
    decreases len,
{
    if period < 2 || len == 0 {
        0
    } else {
        proof {
            vstd::arithmetic::div_mod::lemma_div_decreases(len as int, period as int);
            vstd::arithmetic::div_mod::lemma_div_pos_is_pos(len as int, period as int);
        }
        1 + tower_height(len / period, period)
    }
}

/// The number of entries in the tower over a layer of `len` entries.
pub open spec fn tower_entries(len: nat, period: nat) -> nat
    decreases len,
{
    if period < 2 || len == 0 {
        0
    } else {
        proof {
            vstd::arithmetic::div_mod::lemma_div_decreases(len as int, period as int);
            vstd::arithmetic::div_mod::lemma_div_pos_is_pos(len as int, period as int);
        }
        len + tower_entries(len / period, period)
    }
}

/// The size of the serialized skip list over `len` entries without payload:
/// the vector of layer sizes, four bytes for each key of the data layer, and
/// eight bytes for each entry of a skip layer.
pub open spec fn unit_list_size(len: nat, period: nat) -> nat {
    if len == 0 {
        4
    } else {
        4 + 4 * (1 + tower_height(len / period, period)) + 4 * len + 8 * tower_entries(
            len / period,
            period,
        )
    }
}

/// The tower over a layer holds no more than `period / (period - 1)` times
/// the entries of the layer.
pub proof fn lemma_tower_entries_bound(len: nat, period: nat)
    requires
        period >= 2,
    ensures
        tower_entries(len, period) * (period - 1) <= len * period,
    decreases len,
{
    if len > 0 {
        let above = len / period;
        vstd::arithmetic::div_mod::lemma_div_decreases(len as int, period as int);
        vstd::arithmetic::div_mod::lemma_fundamental_div_mod(len as int, period as int);
        vstd::arithmetic::div_mod::lemma_mod_bound(len as int, period as int);
        lemma_tower_entries_bound(above, period);
        assert(tower_entries(len, period) * (period - 1) <= len * period) by (nonlinear_arith)
            requires
                tower_entries(len, period) == len + tower_entries(above, period),
                tower_entries(above, period) * (period - 1) <= above * period,
                len == period * above + len % period,
                0 <= len % period,
                period >= 2,
        {
        }
    } else {
        assert(tower_entries(len, period) == 0);
        assert(tower_entries(len, period) * (period - 1) == 0) by (nonlinear_arith)
            requires
                tower_entries(len, period) == 0,
        {
        }
    }
}

/// The skip layers hold no more than one entry for every `period - 1`
/// entries of the data layer: what they add to the data layer is linear in
/// its length.
pub proof fn lemma_skip_overhead(len: nat, period: nat)
    requires
        period >= 2,
    ensures
        tower_entries(len / period, period) * (period - 1) <= len,
        tower_entries(len / period, period) <= len,
{
    let above = len / period;
    lemma_tower_entries_bound(above, period);
    vstd::arithmetic::div_mod::lemma_fundamental_div_mod(len as int, period as int);
    vstd::arithmetic::div_mod::lemma_mod_bound(len as int, period as int);
    assert(tower_entries(above, period) * (period - 1) <= len) by (nonlinear_arith)
        requires
            tower_entries(above, period) * (period - 1) <= above * period,
            len == period * above + len % period,
            0 <= len % period,
    {
    }
    assert(tower_entries(above, period) <= len) by (nonlinear_arith)
        requires
            tower_entries(above, period) * (period - 1) <= len,
            period >= 2,
    {
    }
}

/// A data layer without payload takes four bytes for each entry.
pub proof fn lemma_unit_layer_len(entries: Seq<(DocId, ())>)
    ensures
        layer_bytes(entries).len() == 4 * entries.len(),
    decreases entries.len(),
{
    if entries.len() > 0 {
        lemma_unit_layer_len(entries.drop_last());
    }
}

/// A skip layer takes eight bytes for each entry.
pub proof fn lemma_skip_layer_len(entries: Seq<(DocId, u32)>)
    ensures
        layer_bytes(entries).len() == 8 * entries.len(),
    decreases entries.len(),
{
    if entries.len() > 0 {
        lemma_skip_layer_len(entries.drop_last());
    }
}

/// A block followed by more blocks: their concatenation starts with the block.
pub proof fn lemma_concat_prepend(first: Seq<u8>, rest: Seq<Seq<u8>>)
    ensures
        concat(seq![first] + rest) == first + concat(rest),
    decreases rest.len(),
{
    let all = seq![first] + rest;
    if rest.len() == 0 {
        assert(all.drop_last() =~= Seq::<Seq<u8>>::empty());
        assert(concat(all.drop_last()) =~= Seq::<u8>::empty());
        assert(all.last() == first);
        assert(concat(rest) =~= Seq::<u8>::empty());
        assert(concat(all) =~= first + concat(rest));
    } else {
        assert(all.drop_last() =~= seq![first] + rest.drop_last());
        lemma_concat_prepend(first, rest.drop_last());
        assert(all.last() == rest.last());
        assert(concat(all) =~= first + concat(rest));
    }
}

/// The bytes of the given layers.
pub open spec fn layers_bytes(layers: Seq<Seq<(DocId, u32)>>) -> Seq<Seq<u8>> {
    layers.map_values(|layer: Seq<(DocId, u32)>| layer_bytes(layer))
}

/// The height and the size of a tower depend on the length of its first
/// layer alone.
pub proof fn lemma_tower_size(first: Seq<(DocId, u32)>, period: nat)
    requires
        period >= 2,
    ensures
        layer_tower(first, period).len() == tower_height(first.len(), period),
        concat(layers_bytes(layer_tower(first, period))).len() == 8 * tower_entries(
            first.len(),
            period,
        ),
    decreases first.len(),
{
    if first.len() > 0 {
        let above = promoted(first, period);
        vstd::arithmetic::div_mod::lemma_div_decreases(first.len() as int, period as int);
        lemma_tower_size(above, period);
        let upper = layer_tower(above, period);
        assert(layers_bytes(seq![first] + upper) =~= seq![layer_bytes(first)] + layers_bytes(upper));
        lemma_concat_prepend(layer_bytes(first), layers_bytes(upper));
        lemma_skip_layer_len(first);
    } else {
        assert(layers_bytes(layer_tower(first, period)) =~= Seq::<Seq<u8>>::empty());
    }
}

/// The size of a serialized skip list: the vector of layer sizes, the data
/// layer, and eight bytes for each entry of a skip layer.
pub proof fn lemma_list_size<T: crate::serialize::BinarySerializable>(
    entries: Seq<(DocId, T)>,
    period: nat,
)
    requires
        period >= 2,
    ensures
        entries.len() == 0 ==> layers_size(entries, period) == 0,
        entries.len() > 0 ==> layers_size(entries, period) == layer_bytes(entries).len() + 8
            * tower_entries(entries.len() / period, period),
        entries.len() == 0 ==> skip_list_bytes(entries, period).len() == 4,
        entries.len() > 0 ==> skip_list_bytes(entries, period).len() == 4 + 4 * (1 + tower_height(
            entries.len() / period,
            period,
        )) + layer_bytes(entries).len() + 8 * tower_entries(entries.len() / period, period),
{
    let blocks = layer_blocks(entries, period);
    lemma_sizes_encoding_len(cumulative_sizes(blocks));
    if entries.len() > 0 {
        let layers = skip_layers(entries, period);
        lemma_tower_size(promoted(entries, period), period);
        assert(blocks =~= seq![layer_bytes(entries)] + layers_bytes(layers));
        lemma_concat_prepend(layer_bytes(entries), layers_bytes(layers));
    } else {
        assert(concat(blocks) =~= Seq::<u8>::empty());
    }
}

/// A data layer without payload takes exactly four bytes for each entry, and
/// the size of the serialized skip list is determined by the number of
/// entries and the period.
pub proof fn lemma_unit_list_size(entries: Seq<(DocId, ())>, period: nat)
    requires
        period >= 2,
    ensures
        layer_bytes(entries).len() == 4 * entries.len(),
        layers_size(entries, period) == unit_list_size(entries.len(), period) - (if entries.len()
            == 0 {
            4
        } else {
            8 + 4 * tower_height(entries.len() / period, period)
        }),
        skip_list_bytes(entries, period).len() == unit_list_size(entries.len(), period),
{
    lemma_unit_layer_len(entries);
    lemma_list_size(entries, period);
}

} // verus!
