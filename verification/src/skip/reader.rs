//! Reading a skip list: one cursor per layer, forward iteration, and seek.

use crate::error::{IndexError, Result};
use crate::serialize::{
    decode_at, deserialize_vec, lemma_decode_at_fits, vec_decode_at, BinarySerializable,
};
use crate::DocId;
use core::marker::PhantomData;
use vstd::prelude::*;
use vstd::slice::slice_subrange;

verus! {

/// The state of a cursor over one layer: the layer's bytes, the position just
/// behind the key that was read ahead, and that key. A cursor whose key is
/// `DocId::MAX` is exhausted.
pub struct LayerCursor {
    pub bytes: Seq<u8>,
    pub pos: int,
    pub next_id: DocId,
}

/// The cursor over `bytes` that has read ahead the key at `at`. Where no key
/// can be read there, the cursor is exhausted and rests at `stay`.
pub open spec fn cursor_at(bytes: Seq<u8>, at: int, stay: int) -> LayerCursor {
    match decode_at::<u32>(bytes, at) {
        Some((id, pos)) => LayerCursor { bytes, pos, next_id: id },
        None => LayerCursor { bytes, pos: stay, next_id: DocId::MAX },
    }
}

/// The cursor at the start of a layer.
pub open spec fn cursor_open(bytes: Seq<u8>) -> LayerCursor {
    cursor_at(bytes, 0, 0)
}

/// The cursor repositioned to the record that starts at `offset`.
pub open spec fn cursor_seek_offset(c: LayerCursor, offset: int) -> LayerCursor {
    cursor_at(c.bytes, offset, c.pos)
}

/// One step of iteration: the entry under the cursor, and the cursor behind
/// it. An exhausted cursor yields nothing and stays; a record whose value
/// cannot be decoded ends the layer.
pub open spec fn cursor_next<T: BinarySerializable>(c: LayerCursor) -> (
    LayerCursor,
    Option<(DocId, T)>,
) {
    if c.next_id == DocId::MAX {
        (c, None)
    } else {
        match decode_at::<T>(c.bytes, c.pos) {
            Some((value, after)) => (cursor_at(c.bytes, after, after), Some((c.next_id, value))),
            None => (LayerCursor { bytes: c.bytes, pos: c.pos, next_id: DocId::MAX }, None),
        }
    }
}

/// A bound on the steps that a cursor can still take.
pub open spec fn cursor_fuel(c: LayerCursor) -> nat {
    if c.next_id == DocId::MAX || c.pos < 0 || c.pos > c.bytes.len() {
        0
    } else {
        (c.bytes.len() - c.pos + 1) as nat
    }
}

/// A step that yields an entry uses up fuel.
pub proof fn lemma_cursor_next_uses_fuel<T: BinarySerializable>(c: LayerCursor)
    ensures
        cursor_next::<T>(c).1 is Some ==> cursor_fuel(cursor_next::<T>(c).0) < cursor_fuel(c),
{
    lemma_decode_at_fits::<T>(c.bytes, c.pos);
    if let Some((value, after)) = decode_at::<T>(c.bytes, c.pos) {
        lemma_decode_at_fits::<u32>(c.bytes, after);
    }
}

/// Advances the cursor while its key is less than `target`. The result is the
/// last entry passed, the one with the largest key less than `target` in an
/// ascending layer, or nothing where no entry was passed.
pub open spec fn cursor_seek<T: BinarySerializable>(c: LayerCursor, target: DocId) -> (
    LayerCursor,
    Option<(DocId, T)>,
)
    decreases cursor_fuel(c),
{
    if c.next_id < target {
        let (stepped, found) = cursor_next::<T>(c);
        if found is Some && stepped.next_id < target {
            proof {
                lemma_cursor_next_uses_fuel::<T>(c);
            }
            let (landed, later) = cursor_seek::<T>(stepped, target);
            (
                landed,
                if later is Some {
                    later
                } else {
                    found
                },
            )
        } else {
            (stepped, found)
        }
    } else {
        (c, None)
    }
}

/// A cursor over the records of one layer.
pub(crate) struct Layer<'a, T> {
    pub(crate) data: &'a [u8],
    pub(crate) pos: usize,
    pub(crate) next_id: DocId,
    pub(crate) _phantom_: PhantomData<T>,
}

impl<'a, T> View for Layer<'a, T> {
    type V = LayerCursor;

    closed spec fn view(&self) -> LayerCursor {
        LayerCursor { bytes: self.data@, pos: self.pos as int, next_id: self.next_id }
    }
}

impl<'a, T: BinarySerializable> Layer<'a, T> {
    /// Reads ahead the key at `at`; where there is none, the layer is exhausted.
    fn read_ahead(&mut self, at: usize)
        ensures
            final(self)@ == cursor_at(old(self)@.bytes, at as int, old(self)@.pos),
    {
        match u32::deserialize(self.data, at) {
            Ok((id, pos)) => {
                self.next_id = id;
                self.pos = pos;
            },
            Err(_) => {
                self.next_id = DocId::MAX;
            },
        }
    }

    pub(crate) fn read(data: &'a [u8]) -> (layer: Layer<'a, T>)
        ensures
            layer@ == cursor_open(data@),
    {
        let mut layer = Layer { data: data, pos: 0, next_id: DocId::MAX, _phantom_: PhantomData };
        layer.read_ahead(0);
        layer
    }

    /// A cursor over a layer without records.
    pub(crate) fn empty() -> (layer: Layer<'a, T>)
        ensures
            layer@ == cursor_open(Seq::empty()),
    {
        let no_bytes: &'a [u8] = &[];
        assert(no_bytes@ =~= Seq::<u8>::empty());
        Layer { data: no_bytes, pos: 0, next_id: DocId::MAX, _phantom_: PhantomData }
    }

    pub(crate) fn next(&mut self) -> (r: Option<(DocId, T)>)
        ensures
            (final(self)@, r) == cursor_next::<T>(old(self)@),
    {
        if self.next_id == DocId::MAX {
            None
        } else {
            match T::deserialize(self.data, self.pos) {
                Ok((cur_val, after)) => {
                    let cur_id = self.next_id;
                    self.pos = after;
                    self.read_ahead(after);
                    Some((cur_id, cur_val))
                },
                Err(_) => {
                    self.next_id = DocId::MAX;
                    None
                },
            }
        }
    }

    pub(crate) fn seek_offset(&mut self, offset: usize)
        ensures
            final(self)@ == cursor_seek_offset(old(self)@, offset as int),
    {
        self.read_ahead(offset);
    }

    /// Returns the last entry whose key is less than `doc_id`, leaving the
    /// cursor on the first entry whose key is not; `None` where no entry is
    /// passed.
    pub(crate) fn seek(&mut self, doc_id: DocId) -> (r: Option<(DocId, T)>)
        ensures
            (final(self)@, r) == cursor_seek::<T>(old(self)@, doc_id),
    {
        let mut val: Option<(DocId, T)> = None;
        while self.next_id < doc_id
            invariant
                cursor_seek::<T>(old(self)@, doc_id) == (
                    cursor_seek::<T>(self@, doc_id).0,
                    if cursor_seek::<T>(self@, doc_id).1 is Some {
                        cursor_seek::<T>(self@, doc_id).1
                    } else {
                        val
                    },
                ),
            ensures
                cursor_seek::<T>(old(self)@, doc_id) == (self@, val),
            decreases cursor_fuel(self@),
        {
            proof {
                lemma_cursor_next_uses_fuel::<T>(self@);
            }
            match self.next() {
                None => {
                    break ;
                },
                v => {
                    val = v;
                },
            }
        }
        val
    }
}

/// The state of a skip list reader: the cursor over the data layer, and the
/// cursors over the skip layers, topmost first.
pub struct SkipListCursor {
    pub data: LayerCursor,
    pub skips: Seq<LayerCursor>,
}

/// Whether cumulative layer sizes describe layers that lie, one after the
/// other, inside `avail` bytes.
pub open spec fn sizes_fit(sizes: Seq<u32>, avail: int) -> bool {
    &&& forall|i: int, j: int| 0 <= i <= j < sizes.len() ==> sizes[i] <= sizes[j]
    &&& sizes.len() > 0 ==> sizes.last() <= avail
}

/// The bytes of layer `i` in the region that the cumulative sizes describe.
pub open spec fn layer_slice(region: Seq<u8>, sizes: Seq<u32>, i: int) -> Seq<u8> {
    region.subrange(
        if i == 0 {
            0
        } else {
            sizes[i - 1] as int
        },
        sizes[i] as int,
    )
}

/// The reader over a serialized skip list, every cursor at the start of its
/// layer; `None` where the header cannot be decoded or describes layers that
/// are not there.
pub open spec fn skip_list_open(bytes: Seq<u8>) -> Option<SkipListCursor> {
    match vec_decode_at::<u32>(bytes, 0) {
        Some((sizes, start)) => {
            let region = bytes.skip(start);
            if sizes_fit(sizes, region.len() as int) {
                Some(
                    SkipListCursor {
                        data: if sizes.len() == 0 {
                            cursor_open(Seq::empty())
                        } else {
                            cursor_open(layer_slice(region, sizes, 0))
                        },
                        skips: Seq::new(
                            if sizes.len() == 0 {
                                0nat
                            } else {
                                (sizes.len() - 1) as nat
                            },
                            |k: int| cursor_open(layer_slice(region, sizes, sizes.len() - 1 - k)),
                        ),
                    },
                )
            } else {
                None
            }
        },
        None => None,
    }
}

/// The entries that iteration yields from the cursor on, up to the end of the layer.
pub open spec fn cursor_drain<T: BinarySerializable>(c: LayerCursor) -> Seq<(DocId, T)>
    decreases cursor_fuel(c),
{
    let (stepped, found) = cursor_next::<T>(c);
    match found {
        Some(entry) => {
            proof {
                lemma_cursor_next_uses_fuel::<T>(c);
            }
            seq![entry] + cursor_drain::<T>(stepped)
        },
        None => Seq::empty(),
    }
}

/// One step of iteration over the data layer.
pub open spec fn skip_list_next<T: BinarySerializable>(c: SkipListCursor) -> (
    SkipListCursor,
    Option<(DocId, T)>,
) {
    let (data, found) = cursor_next::<T>(c.data);
    (SkipListCursor { data, skips: c.skips }, found)
}

/// The entries that repeated calls of `next` yield, up to the first `None`.
pub open spec fn skip_list_drain<T: BinarySerializable>(c: SkipListCursor) -> Seq<(DocId, T)> {
    cursor_drain::<T>(c.data)
}

/// The cursor `c` sent to the record that `pointer` points to, if there is a pointer.
pub open spec fn cursor_follow(c: LayerCursor, pointer: Option<(DocId, u32)>) -> LayerCursor {
    match pointer {
        Some((_, offset)) => cursor_seek_offset(c, offset as int),
        None => c,
    }
}

/// The walk down the skip layers from layer `from` on: each layer follows the
/// pointer found in the layer above, then seeks `target`. The result is the
/// layers as the walk leaves them, with the pointer found in the lowest.
pub open spec fn seek_skips(
    skips: Seq<LayerCursor>,
    from: int,
    pointer: Option<(DocId, u32)>,
    target: DocId,
) -> (Seq<LayerCursor>, Option<(DocId, u32)>)
    decreases skips.len() - from,
{
    if 0 <= from < skips.len() {
        let (moved, found) = cursor_seek::<u32>(cursor_follow(skips[from], pointer), target);
        seek_skips(skips.update(from, moved), from + 1, found, target)
    } else {
        (skips, pointer)
    }
}

/// Seeking `target`: the walk down the skip layers, then the data layer
/// follows the pointer found in the lowest skip layer and seeks `target`.
pub open spec fn skip_list_seek<T: BinarySerializable>(c: SkipListCursor, target: DocId) -> (
    SkipListCursor,
    Option<(DocId, T)>,
) {
    let (skips, pointer) = seek_skips(c.skips, 0, None, target);
    let (data, found) = cursor_seek::<T>(cursor_follow(c.data, pointer), target);
    (SkipListCursor { data, skips }, found)
}

/// Reads a serialized skip list: iterates over its entries, and seeks.
pub struct SkipList<'a, T: BinarySerializable> {
    data_layer: Layer<'a, T>,
    skip_layers: Vec<Layer<'a, u32>>,
}

/// The states of the given layer cursors.
pub(crate) open spec fn cursors_of<'a>(layers: Seq<Layer<'a, u32>>) -> Seq<LayerCursor> {
    Seq::new(layers.len(), |k: int| layers[k]@)
}

impl<'a, T: BinarySerializable> View for SkipList<'a, T> {
    type V = SkipListCursor;

    closed spec fn view(&self) -> SkipListCursor {
        SkipListCursor { data: self.data_layer@, skips: cursors_of(self.skip_layers@) }
    }
}

impl<'a, T: BinarySerializable> SkipList<'a, T> {
    /// Yields the entry under the data cursor and moves behind it; `None` at
    /// the end of the list.
    pub fn next(&mut self) -> (r: Option<(DocId, T)>)
        ensures
            (final(self)@, r) == skip_list_next::<T>(old(self)@),
    {
        self.data_layer.next()
    }

    /// Moves forward to the first entry whose key is not less than `doc_id`,
    /// using the skip layers from the topmost down, and returns the last
    /// entry that the data cursor passed on the way.
    pub fn seek(&mut self, doc_id: DocId) -> (r: Option<(DocId, T)>)
        ensures
            (final(self)@, r) == skip_list_seek::<T>(old(self)@, doc_id),
    {
        let mut next_layer_skip: Option<(DocId, u32)> = None;
        let mut skip_layer_id: usize = 0;
        while skip_layer_id < self.skip_layers.len()
            invariant
                self.data_layer == old(self).data_layer,
                seek_skips(old(self)@.skips, 0, None, doc_id) == seek_skips(
                    self@.skips,
                    skip_layer_id as int,
                    next_layer_skip,
                    doc_id,
                ),
            decreases self.skip_layers@.len() - skip_layer_id,
        {
            let ghost before = self@.skips;
            let skip_layer = &mut self.skip_layers[skip_layer_id];
            match next_layer_skip {
                Some((_, offset)) => {
                    skip_layer.seek_offset(offset as usize);
                },
                None => {},
            }
            next_layer_skip = skip_layer.seek(doc_id);
            proof {
                assert(self@.skips =~= before.update(skip_layer_id as int, self.skip_layers@[skip_layer_id as int]@));
            }
            skip_layer_id += 1;
        }
        match next_layer_skip {
            Some((_, offset)) => {
                self.data_layer.seek_offset(offset as usize);
            },
            None => {},
        }
        self.data_layer.seek(doc_id)
    }

    /// Opens the skip list serialized in `data`: decodes the cumulative layer
    /// sizes, and puts one cursor at the start of each layer, those of the
    /// skip layers topmost first. Bytes behind the last layer are ignored.
    ///
    /// Fails with `ReadError` exactly when the sizes cannot be decoded, do not
    /// ascend, or reach beyond the end of `data`.
    pub fn read(data: &'a [u8]) -> (r: Result<SkipList<'a, T>>)
        ensures
            r is Ok <==> skip_list_open(data@) is Some,
            r matches Ok(list) ==> skip_list_open(data@) == Some(list@),
            r matches Err(e) ==> e is ReadError,
    {
        let (offsets, start_position) = match deserialize_vec::<u32>(data, 0) {
            Ok(x) => x,
            Err(e) => {
                return Err(e);
            },
        };
        proof {
            crate::serialize::lemma_seq_decode_at_fits::<u32>(
                data@,
                decode_at::<u32>(data@, 0).unwrap().1,
                decode_at::<u32>(data@, 0).unwrap().0 as nat,
            );
        }
        let num_layers = offsets.len();
        let layers_data: &'a [u8] = slice_subrange(data, start_position, data.len());
        assert(layers_data@ == data@.skip(start_position as int));
        let mut last: u32 = 0;
        let mut i: usize = 0;
        while i < num_layers
            invariant
                i <= num_layers,
                num_layers == offsets@.len(),
                vec_decode_at::<u32>(data@, 0) == Some((offsets@, start_position as int)),
                forall|a: int, b: int| 0 <= a <= b < i ==> offsets@[a] <= offsets@[b],
                i > 0 ==> last == offsets@[i - 1],
                i == 0 ==> last == 0,
            decreases num_layers - i,
        {
            if offsets[i] < last {
                proof {
                    assert(!(offsets@[i - 1] <= offsets@[i as int]));
                }
                return Err(IndexError::ReadError("layer sizes do not ascend".to_owned()));
            }
            last = offsets[i];
            i += 1;
        }
        if num_layers > 0 && last as usize > layers_data.len() {
            return Err(IndexError::ReadError("layers reach beyond the end of the data".to_owned()));
        }
        let data_layer: Layer<'a, T> = if num_layers == 0 {
            Layer::empty()
        } else {
            Layer::read(slice_subrange(layers_data, 0, offsets[0] as usize))
        };
        let mut skip_layers: Vec<Layer<'a, u32>> = Vec::new();
        let mut layer_id: usize = num_layers;
        while layer_id > 1
            invariant
                num_layers == offsets@.len(),
                layer_id <= num_layers,
                num_layers > 0 ==> layer_id >= 1,
                sizes_fit(offsets@, layers_data@.len() as int),
                num_layers > 0 ==> skip_layers@.len() == num_layers - layer_id,
                num_layers == 0 ==> skip_layers@.len() == 0,
                forall|k: int|
                    0 <= k < skip_layers@.len() ==> (#[trigger] skip_layers@[k])@ == cursor_open(
                        layer_slice(layers_data@, offsets@, num_layers - 1 - k),
                    ),
            decreases layer_id,
        {
            layer_id -= 1;
            let start = offsets[layer_id - 1] as usize;
            let stop = offsets[layer_id] as usize;
            proof {
                assert(offsets@[layer_id - 1] <= offsets@[layer_id as int]);
                assert(offsets@[layer_id as int] <= offsets@.last());
            }
            skip_layers.push(Layer::read(slice_subrange(layers_data, start, stop)));
        }
        let list = SkipList { skip_layers: skip_layers, data_layer: data_layer };
        proof {
            assert(list@.skips =~= skip_list_open(data@).unwrap().skips);
        }
        Ok(list)
    }
}

} // verus!
