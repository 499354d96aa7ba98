//! Building a skip list entry by entry and writing it out.

use crate::error::{IndexError, Result};
use crate::serialize::{serialize_vec, u32_be_bytes, write_u32_be, BinarySerializable};
use crate::skip::layout::{
    concat, cumulative_sizes, key_follows, last_key, layer_blocks, layer_bytes, layers_size,
    lemma_concat_len_counts, lemma_concat_take_len, lemma_concat_take_step, lemma_div_mod_step,
    lemma_layer_bytes_len, lemma_layer_bytes_push, lemma_linked_is_skip_layers,
    lemma_promoted_push, lemma_valid_keys_push, linked, promoted, skip_list_bytes, valid_keys,
};
use crate::DocId;
use vstd::prelude::*;

verus! {

/// One layer under construction: its records, and the countdown to the next promotion.
pub(crate) struct LayerBuilder<T: BinarySerializable> {
    pub(crate) period: usize,
    pub(crate) buffer: Vec<u8>,
    pub(crate) remaining: usize,
    pub(crate) len: usize,
    pub(crate) entries: Ghost<Seq<(DocId, T)>>,
}

impl<T: BinarySerializable> LayerBuilder<T> {
    /// The buffer holds the records of the entries, and the countdown tells how
    /// many more fit before the next promotion.
    pub(crate) open spec fn wf(&self) -> bool {
        &&& self.period >= 2
        &&& self.buffer@ == layer_bytes(self.entries@)
        &&& self.len == self.entries@.len()
        &&& self.remaining == self.period - self.len % self.period
    }

    pub(crate) fn written_size(&self) -> (size: usize)
        ensures
            size == self.buffer@.len(),
    {
        self.buffer.len()
    }

    pub(crate) fn write(&self, output: &mut Vec<u8>)
        ensures
            final(output)@ == old(output)@ + self.buffer@,
    {
        output.extend_from_slice(self.buffer.as_slice());
    }

    pub(crate) fn with_period(period: usize) -> (layer: LayerBuilder<T>)
        requires
            period >= 2,
        ensures
            layer.wf(),
            layer.period == period,
            layer.entries@ == Seq::<(DocId, T)>::empty(),
    {
        proof {
            lemma_div_mod_step(0, period as int);
            vstd::arithmetic::div_mod::lemma_small_mod(0, period as nat);
        }
        LayerBuilder {
            period: period,
            buffer: Vec::new(),
            remaining: period,
            len: 0,
            entries: Ghost(Seq::empty()),
        }
    }

    /// Appends the record of `(doc_id, value)`. Every `period`-th insertion is
    /// promoted: the result is then the key with the offset at which the
    /// record starts.
    pub(crate) fn insert(&mut self, doc_id: DocId, value: &T) -> (res: Option<(DocId, u32)>)
        requires
            old(self).wf(),
        ensures
            final(self).wf(),
            final(self).period == old(self).period,
            final(self).entries@ == old(self).entries@.push((doc_id, *value)),
            res == (if final(self).entries@.len() % (old(self).period as nat) == 0 {
                Some((doc_id, #[verifier::truncate] (old(self).buffer@.len() as u32)))
            } else {
                None
            }),
    {
        let size = self.written_size();
        proof {
            lemma_layer_bytes_len(self.entries@);
            lemma_div_mod_step(self.len as int, self.period as int);
        }
        self.remaining -= 1;
        self.len += 1;
        let offset = #[verifier::truncate] (size as u32);
        let res;
        if self.remaining == 0 {
            self.remaining = self.period;
            res = Some((doc_id, offset));
        } else {
            res = None;
        }
        write_u32_be(&mut self.buffer, doc_id);
        value.serialize(&mut self.buffer);
        proof {
            lemma_layer_bytes_push(self.entries@, doc_id, *value);
            assert(self.buffer@ =~= layer_bytes(self.entries@) + (u32_be_bytes(doc_id)
                + value.encoding()));
            self.entries = Ghost(self.entries@.push((doc_id, *value)));
        }
        res
    }
}

/// Builds a skip list over entries inserted in ascending key order.
pub struct SkipListBuilder<T: BinarySerializable> {
    period: usize,
    data_layer: LayerBuilder<T>,
    skip_layers: Vec<LayerBuilder<u32>>,
    last_doc_id: Option<DocId>,
}

impl<T: BinarySerializable> View for SkipListBuilder<T> {
    type V = Seq<(DocId, T)>;

    /// The entries inserted so far, in insertion order.
    closed spec fn view(&self) -> Seq<(DocId, T)> {
        self.data_layer.entries@
    }
}

/// The entries of each of the given layers.
pub(crate) open spec fn views_of(layers: Seq<LayerBuilder<u32>>) -> Seq<Seq<(DocId, u32)>> {
    Seq::new(layers.len(), |k: int| layers[k].entries@)
}

/// Every one of the given layers is a well-formed layer of the given period.
pub(crate) open spec fn all_wf(layers: Seq<LayerBuilder<u32>>, period: usize) -> bool {
    forall|k: int| 0 <= k < layers.len() ==> (#[trigger] layers[k]).wf() && layers[k].period == period
}

/// What layer `layer_id` has to hold: the promotion of the layer below it.
pub(crate) open spec fn wanted_layer<T: BinarySerializable>(
    data: Seq<(DocId, T)>,
    above: Seq<Seq<(DocId, u32)>>,
    layer_id: int,
    period: nat,
) -> Seq<(DocId, u32)> {
    if layer_id == 0 {
        promoted(data, period)
    } else {
        promoted(above[layer_id - 1], period)
    }
}

/// What layer `layer_id` holds; nothing where it does not exist yet.
pub(crate) open spec fn present_layer(above: Seq<Seq<(DocId, u32)>>, layer_id: int) -> Seq<
    (DocId, u32),
> {
    if layer_id < above.len() {
        above[layer_id]
    } else {
        Seq::empty()
    }
}

/// The number of entries of the layer below layer `layer_id`.
pub(crate) open spec fn below_len<T>(
    data: Seq<(DocId, T)>,
    above: Seq<Seq<(DocId, u32)>>,
    layer_id: int,
) -> nat {
    if layer_id == 0 {
        data.len()
    } else {
        above[layer_id - 1].len()
    }
}

/// The layers in the middle of an insertion: those below `layer_id` hold the
/// new entry's promotions already, those from `layer_id` on are as before,
/// and `pointer` is what layer `layer_id` still has to take.
#[verifier::opaque]
pub(crate) open spec fn cascading<T: BinarySerializable>(
    data: Seq<(DocId, T)>,
    above: Seq<Seq<(DocId, u32)>>,
    layer_id: int,
    pointer: Option<(DocId, u32)>,
    period: nat,
) -> bool {
    &&& 0 <= layer_id <= above.len()
    &&& layer_id > 0 ==> above[0] == promoted(data, period)
    &&& forall|k: int|
        0 < k < above.len() && k != layer_id ==> #[trigger] above[k] == promoted(above[k - 1], period)
    &&& forall|k: int| 0 <= k < above.len() ==> (#[trigger] above[k]).len() > 0
    &&& layer_id < above.len() ==> promoted(above.last(), period).len() == 0
    &&& match pointer {
        Some(p) => wanted_layer(data, above, layer_id, period) == present_layer(above, layer_id).push(p),
        None => wanted_layer(data, above, layer_id, period) == present_layer(above, layer_id),
    }
}

/// The layers once layer `layer_id` has taken `pointer`.
pub(crate) open spec fn with_pointer(
    above: Seq<Seq<(DocId, u32)>>,
    layer_id: int,
    pointer: (DocId, u32),
) -> Seq<Seq<(DocId, u32)>> {
    if layer_id < above.len() {
        above.update(layer_id, above[layer_id].push(pointer))
    } else {
        above.push(Seq::<(DocId, u32)>::empty().push(pointer))
    }
}

/// What a layer promotes in turn once it has taken `pointer`.
pub(crate) open spec fn next_pointer(
    present: Seq<(DocId, u32)>,
    pointer: (DocId, u32),
    period: nat,
) -> Option<(DocId, u32)> {
    if present.push(pointer).len() % period == 0 {
        Some((pointer.0, #[verifier::truncate] (layer_bytes(present).len() as u32)))
    } else {
        None
    }
}

/// After the data layer has taken a new entry, the skip layers are in the
/// middle of an insertion at the lowest of them.
pub(crate) proof fn lemma_cascade_start<T: BinarySerializable>(
    data: Seq<(DocId, T)>,
    above: Seq<Seq<(DocId, u32)>>,
    doc_id: DocId,
    value: T,
    period: nat,
)
    requires
        period >= 2,
        linked(data, above, period),
    ensures
        cascading(
            data.push((doc_id, value)),
            above,
            0,
            if data.push((doc_id, value)).len() % period == 0 {
                Some((doc_id, #[verifier::truncate] (layer_bytes(data).len() as u32)))
            } else {
                None
            },
            period,
        ),
{
    reveal(cascading);
    lemma_promoted_push(data, doc_id, value, period);
    assert(present_layer(above, 0) =~= promoted(data, period));
}

/// One step of an insertion: layer `layer_id` takes its pointer, and the
/// insertion goes on one layer higher with what that layer promotes.
pub(crate) proof fn lemma_cascade_step<T: BinarySerializable>(
    data: Seq<(DocId, T)>,
    above: Seq<Seq<(DocId, u32)>>,
    layer_id: int,
    pointer: (DocId, u32),
    period: nat,
)
    requires
        period >= 2,
        cascading(data, above, layer_id, Some(pointer), period),
    ensures
        cascading(
            data,
            with_pointer(above, layer_id, pointer),
            layer_id + 1,
            next_pointer(present_layer(above, layer_id), pointer, period),
            period,
        ),
        below_len(data, with_pointer(above, layer_id, pointer), layer_id + 1) < below_len(
            data,
            above,
            layer_id,
        ),
{
    reveal(cascading);
    let present = present_layer(above, layer_id);
    let grown = present.push(pointer);
    let after = with_pointer(above, layer_id, pointer);
    lemma_promoted_push(present, pointer.0, pointer.1, period);
    assert(after[layer_id] == grown);
    assert forall|k: int| 0 <= k < above.len() && k != layer_id implies after[k] == above[k] by {}
    assert(promoted(present, period) =~= present_layer(after, layer_id + 1)) by {
        if layer_id + 1 < above.len() {
            assert(above[layer_id + 1] == promoted(above[layer_id + 1 - 1], period));
        } else if layer_id < above.len() {
            assert(above.last() == present);
        } else {
            vstd::arithmetic::div_mod::lemma_basic_div(0, period as int);
        }
    }
    assert(wanted_layer(data, after, layer_id + 1, period) == promoted(grown, period));
    assert forall|k: int| 0 < k < after.len() && k != layer_id + 1 implies #[trigger] after[k]
        == promoted(after[k - 1], period) by {
        if k != layer_id {
            assert(above[k] == promoted(above[k - 1], period));
        }
    }
    assert forall|k: int| 0 <= k < after.len() implies (#[trigger] after[k]).len() > 0 by {
        if k != layer_id {
            assert(above[k].len() > 0);
        }
    }
    if layer_id + 1 < after.len() {
        assert(after.last() == above.last());
    }
    if layer_id > 0 {
        assert(after[0] == above[0]);
    }
    let below = below_len(data, above, layer_id);
    assert(grown.len() == below / period);
    if below < period {
        vstd::arithmetic::div_mod::lemma_basic_div(below as int, period as int);
    }
    vstd::arithmetic::div_mod::lemma_div_decreases(below as int, period as int);
}

/// An insertion that has nothing left to promote leaves the layers linked.
pub(crate) proof fn lemma_cascade_done<T: BinarySerializable>(
    data: Seq<(DocId, T)>,
    above: Seq<Seq<(DocId, u32)>>,
    layer_id: int,
    period: nat,
)
    requires
        cascading(data, above, layer_id, None, period),
    ensures
        linked(data, above, period),
{
    reveal(cascading);
    if layer_id < above.len() && layer_id > 0 {
        assert(above[layer_id] == promoted(above[layer_id - 1], period));
    }
    if above.len() > 0 && layer_id == above.len() {
        assert(above.last() == above[layer_id - 1]);
    }
}

impl<T: BinarySerializable> SkipListBuilder<T> {
    /// The promotion interval.
    pub closed spec fn period(&self) -> nat {
        self.period as nat
    }

    /// The entries of the skip layers, lowest first.
    pub(crate) closed spec fn skip_views(&self) -> Seq<Seq<(DocId, u32)>> {
        views_of(self.skip_layers@)
    }

    /// The builder's invariant: the keys are valid, and the skip layers are
    /// the periodic subsamples of the layers below them.
    pub closed spec fn wf(&self) -> bool {
        &&& self.period >= 2
        &&& self.data_layer.wf()
        &&& self.data_layer.period == self.period
        &&& all_wf(self.skip_layers@, self.period)
        &&& linked(self@, self.skip_views(), self.period as nat)
        &&& valid_keys(self@)
        &&& self.last_doc_id == last_key(self@)
    }

    /// What a builder holds can be written and read back: its keys are
    /// valid, and its period is at least two.
    pub proof fn lemma_valid(&self)
        requires
            self.wf(),
        ensures
            valid_keys(self@),
            self.period() >= 2,
    {
    }

    /// An empty builder that promotes every `period`-th entry of a layer.
    pub fn new(period: usize) -> (builder: SkipListBuilder<T>)
        requires
            period >= 2,
        ensures
            builder.wf(),
            builder.period() == period,
            builder@ == Seq::<(DocId, T)>::empty(),
    {
        let builder = SkipListBuilder {
            period: period,
            data_layer: LayerBuilder::with_period(period),
            skip_layers: Vec::new(),
            last_doc_id: None,
        };
        proof {
            assert(promoted(builder@, period as nat).len() == 0) by {
                vstd::arithmetic::div_mod::lemma_basic_div(0, period as int);
            }
            assert(builder.skip_views() =~= Seq::<Seq<(DocId, u32)>>::empty());
        }
        builder
    }

    /// Layer `layer_id`, which is created when it is the first that does not
    /// exist yet.
    fn get_skip_layer(&mut self, layer_id: usize) -> (layer: &mut LayerBuilder<u32>)
        requires
            old(self).period >= 2,
            layer_id <= old(self).skip_layers@.len(),
        ensures
            final(self).period == old(self).period,
            final(self).data_layer == old(self).data_layer,
            final(self).last_doc_id == old(self).last_doc_id,
            layer_id < old(self).skip_layers@.len() ==> *layer == old(self).skip_layers@[layer_id as int]
                && final(self).skip_layers@ == old(self).skip_layers@.update(layer_id as int, *final(layer)),
            layer_id == old(self).skip_layers@.len() ==> layer.wf()
                && layer.period == old(self).period
                && layer.entries@ == Seq::<(DocId, u32)>::empty()
                && final(self).skip_layers@ == old(self).skip_layers@.push(*final(layer)),
    {
        if layer_id == self.skip_layers.len() {
            let layer_builder = LayerBuilder::with_period(self.period);
            self.skip_layers.push(layer_builder);
        }
        &mut self.skip_layers[layer_id]
    }

    /// Layer `layer_id` takes `pointer`; the layer is created when it does not
    /// exist yet. The result is what the layer promotes in turn.
    fn promote(&mut self, layer_id: usize, pointer: (DocId, u32)) -> (res: Option<(DocId, u32)>)
        requires
            old(self).period >= 2,
            all_wf(old(self).skip_layers@, old(self).period),
            layer_id <= old(self).skip_layers@.len(),
        ensures
            final(self).period == old(self).period,
            final(self).data_layer == old(self).data_layer,
            final(self).last_doc_id == old(self).last_doc_id,
            all_wf(final(self).skip_layers@, final(self).period),
            layer_id < final(self).skip_layers@.len() <= usize::MAX,
            final(self).skip_views() == with_pointer(old(self).skip_views(), layer_id as int, pointer),
            res == next_pointer(
                present_layer(old(self).skip_views(), layer_id as int),
                pointer,
                old(self).period as nat,
            ),
    {
        let ghost layers = self.skip_layers@;
        let layer = self.get_skip_layer(layer_id);
        let res = layer.insert(pointer.0, &pointer.1);
        let layer_count = self.skip_layers.len();
        proof {
            assert(layer_id < layer_count);
            assert(self.skip_views() =~= with_pointer(views_of(layers), layer_id as int, pointer));
            assert forall|k: int| 0 <= k < self.skip_layers@.len() implies (
            #[trigger] self.skip_layers@[k]).wf() && self.skip_layers@[k].period == self.period by {
                if k != layer_id {
                    assert(self.skip_layers@[k] == layers[k]);
                    assert(layers[k].wf());
                }
            }
        }
        res
    }

    /// Appends `(doc_id, dest)` to the data layer and, on every `period`-th
    /// insertion into a layer, records the entry in the layer above, creating
    /// that layer when it does not exist yet.
    ///
    /// The key must follow the keys inserted before: it is rejected with
    /// `ContractViolation`, and the builder left as it was, exactly when it is
    /// the end-of-stream sentinel or not greater than the last key.
    pub fn insert(&mut self, doc_id: DocId, dest: &T) -> (r: Result<()>)
        requires
            old(self).wf(),
        ensures
            final(self).wf(),
            final(self).period() == old(self).period(),
            r is Ok <==> key_follows(old(self)@, doc_id),
            r is Ok ==> final(self)@ == old(self)@.push((doc_id, *dest)),
            r matches Err(e) ==> e is ContractViolation && final(self)@ == old(self)@,
    {
        let in_order = match self.last_doc_id {
            Some(last) => last < doc_id,
            None => true,
        };
        if doc_id == DocId::MAX || !in_order {
            return Err(
                IndexError::ContractViolation("document ids must be inserted in ascending order".to_owned()),
            );
        }
        let ghost period = self.period as nat;
        proof {
            lemma_valid_keys_push(self@, doc_id, *dest);
            lemma_cascade_start(self@, self.skip_views(), doc_id, *dest, period);
        }
        let mut layer_id: usize = 0;
        let mut skip_pointer = self.data_layer.insert(doc_id, dest);
        self.last_doc_id = Some(doc_id);
        loop
            invariant
                self.period == old(self).period,
                period == self.period,
                period >= 2,
                self.data_layer.wf(),
                self.data_layer.period == self.period,
                all_wf(self.skip_layers@, self.period),
                self@ == old(self)@.push((doc_id, *dest)),
                valid_keys(self@),
                self.last_doc_id == Some(doc_id),
                key_follows(old(self)@, doc_id),
                layer_id <= self.skip_layers@.len(),
                cascading(self@, self.skip_views(), layer_id as int, skip_pointer, period),
            decreases below_len(self@, self.skip_views(), layer_id as int),
        {
            match skip_pointer {
                Some(pointer) => {
                    proof {
                        lemma_cascade_step(self@, self.skip_views(), layer_id as int, pointer, period);
                    }
                    skip_pointer = self.promote(layer_id, pointer);
                },
                None => {
                    proof {
                        lemma_cascade_done(self@, self.skip_views(), layer_id as int, period);
                    }
                    return Ok(());
                },
            }
            layer_id += 1;
        }
    }

    /// The bytes of each layer, data layer first; none for an empty builder.
    pub(crate) closed spec fn blocks(&self) -> Seq<Seq<u8>> {
        if self@.len() == 0 {
            Seq::empty()
        } else {
            Seq::new(
                1 + self.skip_layers@.len(),
                |i: int|
                    if i == 0 {
                        self.data_layer.buffer@
                    } else {
                        self.skip_layers@[i - 1].buffer@
                    },
            )
        }
    }

    /// The buffers of a well-formed builder are the layers that the format defines.
    pub(crate) proof fn lemma_blocks(&self)
        requires
            self.wf(),
        ensures
            self.blocks() == layer_blocks(self@, self.period()),
            forall|k: int| 0 <= k < self.blocks().len() ==> (#[trigger] self.blocks()[k]).len() > 0,
    {
        let period = self.period as nat;
        lemma_linked_is_skip_layers(self@, self.skip_views(), period);
        if self@.len() > 0 {
            assert(self.blocks() =~= layer_blocks(self@, period));
            assert forall|k: int| 0 <= k < self.blocks().len() implies (
            #[trigger] self.blocks()[k]).len() > 0 by {
                if k == 0 {
                    lemma_layer_bytes_len(self@);
                } else {
                    assert(self.skip_layers@[k - 1].wf());
                    assert(self.skip_views()[k - 1].len() > 0);
                    lemma_layer_bytes_len(self.skip_layers@[k - 1].entries@);
                }
            }
        }
    }

    /// Writes the skip list to `output`: the cumulative layer sizes as a
    /// vector of `u32`, then the data layer, then the skip layers from the
    /// lowest up. An empty builder writes an empty vector of sizes and nothing else.
    ///
    /// Fails with `WriteError`, leaving `output` as it was, exactly when the
    /// layers together are larger than a `u32` can tell.
    pub fn write(self, output: &mut Vec<u8>) -> (r: Result<()>)
        requires
            self.wf(),
        ensures
            r is Ok <==> layers_size(self@, self.period()) <= u32::MAX,
            r is Ok ==> final(output)@ == old(output)@ + skip_list_bytes(self@, self.period()),
            r matches Err(e) ==> e is WriteError && final(output)@ == old(output)@,
    {
        let ghost blocks = self.blocks();
        proof {
            self.lemma_blocks();
            lemma_concat_len_counts(blocks);
        }
        let mut layer_sizes: Vec<u32> = Vec::new();
        if self.data_layer.len > 0 {
            let data_size = self.data_layer.written_size();
            proof {
                lemma_concat_take_step(blocks, 0);
                assert(concat(blocks.take(0)) =~= Seq::<u8>::empty());
                lemma_concat_take_len(blocks, 1);
            }
            if data_size > u32::MAX as usize {
                return Err(IndexError::WriteError("skip list larger than 4 GiB".to_owned()));
            }
            let mut size: u32 = data_size as u32;
            layer_sizes.push(size);
            let mut i: usize = 0;
            while i < self.skip_layers.len()
                invariant
                    i <= self.skip_layers@.len(),
                    self@.len() > 0,
                    blocks == self.blocks(),
                    blocks.len() == 1 + self.skip_layers@.len(),
                    layers_size(self@, self.period()) == concat(blocks).len(),
                    layer_sizes@.len() == i + 1,
                    forall|j: int|
                        0 <= j <= i ==> #[trigger] layer_sizes@[j] == concat(blocks.take(j + 1)).len(),
                    size == concat(blocks.take(i + 1)).len(),
                decreases self.skip_layers@.len() - i,
            {
                let layer_size = self.skip_layers[i].written_size();
                proof {
                    lemma_concat_take_step(blocks, i + 1);
                    lemma_concat_take_len(blocks, i + 2);
                }
                if layer_size > (u32::MAX - size) as usize {
                    return Err(IndexError::WriteError("skip list larger than 4 GiB".to_owned()));
                }
                size += layer_size as u32;
                layer_sizes.push(size);
                i += 1;
            }
            proof {
                assert(blocks.take(i + 1) =~= blocks);
            }
        }
        proof {
            assert(blocks.take(blocks.len() as int) =~= blocks);
            assert(layer_sizes@ =~= cumulative_sizes(blocks)) by {
                assert forall|j: int| 0 <= j < blocks.len() implies layer_sizes@[j]
                    == cumulative_sizes(blocks)[j] by {
                    lemma_concat_take_len(blocks, j + 1);
                }
            }
        }
        let ghost before = output@;
        match serialize_vec(&layer_sizes, output) {
            Ok(()) => {},
            Err(e) => {
                return Err(e);
            },
        }
        let ghost header = output@;
        if self.data_layer.len > 0 {
            self.data_layer.write(output);
            proof {
                lemma_concat_take_step(blocks, 0);
                assert(concat(blocks.take(0)) =~= Seq::<u8>::empty());
                assert(output@ =~= header + concat(blocks.take(1)));
            }
            let mut i: usize = 0;
            while i < self.skip_layers.len()
                invariant
                    i <= self.skip_layers@.len(),
                    self@.len() > 0,
                    blocks == self.blocks(),
                    blocks.len() == 1 + self.skip_layers@.len(),
                    output@ == header + concat(blocks.take(i + 1)),
                decreases self.skip_layers@.len() - i,
            {
                self.skip_layers[i].write(output);
                proof {
                    lemma_concat_take_step(blocks, i + 1);
                    assert(output@ =~= header + concat(blocks.take(i + 2)));
                }
                i += 1;
            }
            proof {
                assert(blocks.take(i + 1) =~= blocks);
            }
        } else {
            proof {
                assert(output@ =~= header + concat(blocks));
            }
        }
        proof {
            assert(output@ =~= before + skip_list_bytes(self@, self.period()));
        }
        Ok(())
    }
}

} // verus!
