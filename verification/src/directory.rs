//! A directory of segment files on a file system, and the block cache
//! through which a file of it is read.

use crate::error::{IndexError, Result};
use std::collections::BTreeMap;
use vstd::prelude::*;
use vstd::slice::slice_subrange;

verus! {

/// A directory that reads its files from below a root path.
#[derive(Debug, Clone)]
pub struct FsDirectory {
    root: String,
}

impl FsDirectory {
    /// The directory rooted at `path`.
    pub fn new(path: &str) -> (directory: FsDirectory)
        ensures
            directory.root_path() == path@,
    {
        FsDirectory { root: path.to_owned() }
    }

    /// The root path, as a sequence of characters.
    pub closed spec fn root_path(&self) -> Seq<char> {
        self.root@
    }

    /// The root path.
    pub fn root(&self) -> (path: &str)
        ensures
            path@ == self.root_path(),
    {
        self.root.as_str()
    }
}

/// The size of a cached block.
pub const CS: u64 = 4096;

/// The most blocks that a cache keeps; a full cache is emptied before it
/// takes another block.
pub const MAX_CACHED_BLOCKS: usize = 1024;

/// The offset in the file at which block `i` starts.
pub open spec fn block_start(i: int) -> int {
    i * CS
}

/// The offset in a file of `len` bytes at which block `i` ends: a block is
/// `CS` bytes long, but for the last, which ends with the file.
pub open spec fn block_end(i: int, len: int) -> int {
    if (i + 1) * CS <= len {
        (i + 1) * CS
    } else {
        len
    }
}

/// Where in block `i` the bytes of the range that starts at `from` begin.
pub open spec fn part_start(i: int, from: int) -> int {
    if i == from / (CS as int) {
        from % (CS as int)
    } else {
        0
    }
}

/// Where in block `i` the bytes of the range that ends at `to` end.
pub open spec fn part_end(i: int, to: int) -> int {
    if i == to / (CS as int) {
        to % (CS as int)
    } else {
        CS as int
    }
}

/// The bytes of the range `[from, to)` that lie in the blocks before block
/// `upto`, put together from the given blocks.
pub open spec fn assembled(blocks: Map<u64, Seq<u8>>, from: int, to: int, upto: int) -> Seq<u8>
    decreases upto - from / (CS as int),
{
    if upto <= from / (CS as int) {
        Seq::empty()
    } else {
        assembled(blocks, from, to, upto - 1) + blocks[(upto - 1) as u64].subrange(
            part_start(upto - 1, from),
            part_end(upto - 1, to),
        )
    }
}

/// `block` is what the reader `fetch` may return for the bytes `[start, end)`.
pub open spec fn fetched<F: Fn(u64, u64) -> Vec<u8>>(
    fetch: F,
    start: int,
    end: int,
    block: Seq<u8>,
) -> bool {
    exists|out: Vec<u8>|
        out@ == block && #[trigger] call_ensures(fetch, (start as u64, end as u64), out)
}

/// `block` is block `i` as a read serves it: what the cache held for it, or
/// what the reader returned for its bytes.
pub open spec fn served<F: Fn(u64, u64) -> Vec<u8>>(
    cached: Map<u64, Seq<u8>>,
    fetch: F,
    len: int,
    i: int,
    block: Seq<u8>,
) -> bool {
    ||| cached.contains_key(i as u64) && cached[i as u64] == block
    ||| fetched(fetch, block_start(i), block_end(i, len), block)
}

/// A reader that, asked for bytes of a file of `len` bytes, returns as many
/// as it is asked for.
pub open spec fn reads_in_file<F: Fn(u64, u64) -> Vec<u8>>(fetch: F, len: int) -> bool {
    forall|start: u64, end: u64, out: Vec<u8>|
        start <= end <= len && #[trigger] call_ensures(fetch, (start, end), out) ==> out@.len()
            == end - start
}

/// The reader returned, for a block of the range `[from, to)` of a file of
/// `len` bytes, other than as many bytes as the block has.
pub open spec fn block_read_short<F: Fn(u64, u64) -> Vec<u8>>(
    fetch: F,
    len: int,
    from: int,
    to: int,
) -> bool {
    exists|i: int, out: Vec<u8>|
        from / (CS as int) <= i <= to / (CS as int) && #[trigger] call_ensures(
            fetch,
            (block_start(i) as u64, block_end(i, len) as u64),
            out,
        ) && out@.len() != block_end(i, len) - block_start(i)
}

/// The cache holds every block of the range `[from, to)`.
pub open spec fn range_cached(blocks: Map<u64, Seq<u8>>, from: int, to: int) -> bool {
    forall|i: int|
        from / (CS as int) <= i <= to / (CS as int) ==> #[trigger] blocks.contains_key(i as u64)
}

/// The blocks that hold the range `[from, to)` of a file of `len` bytes are
/// among `blocks`, each as a read serves it and as long as the file says.
pub open spec fn range_served<F: Fn(u64, u64) -> Vec<u8>>(
    cached: Map<u64, Seq<u8>>,
    fetch: F,
    len: int,
    blocks: Map<u64, Seq<u8>>,
    from: int,
    to: int,
) -> bool {
    forall|i: int|
        from / (CS as int) <= i <= to / (CS as int) ==> #[trigger] blocks.contains_key(i as u64)
            && served(cached, fetch, len, i, blocks[i as u64]) && blocks[i as u64].len()
            == block_end(i, len) - block_start(i)
}

/// Blocks from `upto` on do not matter to what is put together before `upto`.
pub proof fn lemma_assembled_insert(
    blocks: Map<u64, Seq<u8>>,
    from: int,
    to: int,
    upto: int,
    i: int,
    block: Seq<u8>,
)
    requires
        0 <= from,
        upto <= i <= u64::MAX,
    ensures
        assembled(blocks.insert(i as u64, block), from, to, upto) == assembled(
            blocks,
            from,
            to,
            upto,
        ),
    decreases upto - from / (CS as int),
{
    if upto > from / (CS as int) {
        lemma_assembled_insert(blocks, from, to, upto - 1, i, block);
    }
}

/// Every one of the blocks holds the bytes of its place in the file `contents`.
pub open spec fn blocks_hold(blocks: Map<u64, Seq<u8>>, contents: Seq<u8>) -> bool {
    forall|i: u64| #[trigger]
        blocks.contains_key(i) ==> blocks[i] == contents.subrange(
            block_start(i as int),
            block_end(i as int, contents.len() as int),
        )
}

/// The reader returns the bytes of the file `contents` that it is asked for.
pub open spec fn reader_holds<F: Fn(u64, u64) -> Vec<u8>>(fetch: F, contents: Seq<u8>) -> bool {
    forall|start: u64, end: u64, out: Vec<u8>|
        start <= end <= contents.len() && #[trigger] call_ensures(fetch, (start, end), out)
            ==> out@ == contents.subrange(start as int, end as int)
}

/// What is put together from blocks that hold the bytes of a file is the
/// range of the file, as far as the blocks before `upto` reach.
pub proof fn lemma_assembled_prefix(
    contents: Seq<u8>,
    blocks: Map<u64, Seq<u8>>,
    from: int,
    to: int,
    upto: int,
)
    requires
        0 <= from <= to <= contents.len() <= u64::MAX,
        from / (CS as int) <= upto <= to / (CS as int) + 1,
        forall|i: int|
            from / (CS as int) <= i < upto ==> #[trigger] blocks.contains_key(i as u64)
                && blocks[i as u64] == contents.subrange(
                block_start(i),
                block_end(i, contents.len() as int),
            ),
    ensures
        upto == from / (CS as int) ==> assembled(blocks, from, to, upto) == Seq::<u8>::empty(),
        upto > from / (CS as int) ==> assembled(blocks, from, to, upto) == contents.subrange(
            from,
            if upto * CS <= to {
                upto * CS
            } else {
                to
            },
        ),
    decreases upto - from / (CS as int),
{
    if upto > from / (CS as int) {
        let k = upto - 1;
        lemma_assembled_prefix(contents, blocks, from, to, k);
        assert(blocks.contains_key(k as u64));
        let block = blocks[k as u64];
        let lo = part_start(k, from);
        let hi = part_end(k, to);
        let reached = if upto * CS <= to {
            upto * CS
        } else {
            to
        };
        let begun = if k == from / (CS as int) {
            from
        } else {
            k * CS
        };
        assert(block.subrange(lo, hi) =~= contents.subrange(begun, reached));
        if k == from / (CS as int) {
            assert(assembled(blocks, from, to, upto) =~= contents.subrange(from, reached));
        } else {
            assert(contents.subrange(from, k * CS) + contents.subrange(k * CS, reached)
                =~= contents.subrange(from, reached));
        }
    }
}

/// Correctness of a read: with a cache whose blocks hold the bytes of the
/// file, and a reader that returns the bytes of the file, what a read puts
/// together is the range of the file that was asked for.
pub proof fn lemma_read_is_the_range<F: Fn(u64, u64) -> Vec<u8>>(
    contents: Seq<u8>,
    cached: Map<u64, Seq<u8>>,
    fetch: F,
    blocks: Map<u64, Seq<u8>>,
    from: int,
    to: int,
)
    requires
        0 <= from <= to <= contents.len() <= u64::MAX,
        blocks_hold(cached, contents),
        reader_holds(fetch, contents),
        range_served(cached, fetch, contents.len() as int, blocks, from, to),
    ensures
        assembled(blocks, from, to, to / (CS as int) + 1) == contents.subrange(from, to),
{
    let len = contents.len() as int;
    assert forall|i: int| from / (CS as int) <= i < to / (CS as int) + 1 implies #[trigger] blocks.contains_key(
        i as u64,
    ) && blocks[i as u64] == contents.subrange(block_start(i), block_end(i, len)) by {
        assert(blocks.contains_key(i as u64));
        let block = blocks[i as u64];
        assert(served(cached, fetch, len, i, block));
        if cached.contains_key(i as u64) && cached[i as u64] == block {
        } else {
            let out = choose|out: Vec<u8>|
                out@ == block && #[trigger] call_ensures(
                    fetch,
                    (block_start(i) as u64, block_end(i, len) as u64),
                    out,
                );
            assert(out@ == contents.subrange(
                block_start(i) as u64 as int,
                block_end(i, len) as u64 as int,
            ));
        }
    }
    lemma_assembled_prefix(contents, blocks, from, to, to / (CS as int) + 1);
}

/// The file `contents` is what the cache and the reader stand for: it is as
/// long as the cache says, the cached blocks hold its bytes, and the reader
/// returns its bytes.
pub open spec fn stands_for<F: Fn(u64, u64) -> Vec<u8>>(
    state: FSFileState,
    fetch: F,
    contents: Seq<u8>,
) -> bool {
    &&& contents.len() == state.len
    &&& blocks_hold(state.blocks, contents)
    &&& reader_holds(fetch, contents)
}

/// Blocks that a read serves from a cache and a reader that stand for a file
/// hold the bytes of that file.
pub proof fn lemma_served_blocks_hold<F: Fn(u64, u64) -> Vec<u8>>(
    state: FSFileState,
    fetch: F,
    contents: Seq<u8>,
    blocks: Map<u64, Seq<u8>>,
)
    requires
        stands_for(state, fetch, contents),
        forall|i: u64| #[trigger]
            blocks.contains_key(i) ==> block_start(i as int) <= state.len && served(
                state.blocks,
                fetch,
                state.len as int,
                i as int,
                blocks[i],
            ),
    ensures
        blocks_hold(blocks, contents),
{
    let len = state.len as int;
    assert forall|i: u64| #[trigger] blocks.contains_key(i) implies blocks[i] == contents.subrange(
        block_start(i as int),
        block_end(i as int, contents.len() as int),
    ) by {
        let block = blocks[i];
        assert(served(state.blocks, fetch, len, i as int, block));
        if state.blocks.contains_key(i) && state.blocks[i] == block {
        } else {
            let out = choose|out: Vec<u8>|
                out@ == block && #[trigger] call_ensures(
                    fetch,
                    (block_start(i as int) as u64, block_end(i as int, len) as u64),
                    out,
                );
            assert(out@ == contents.subrange(
                block_start(i as int) as u64 as int,
                block_end(i as int, len) as u64 as int,
            ));
        }
    }
}

/// What is known of a file: its length and the blocks cached.
pub struct FSFileState {
    /// The length of the file.
    pub len: u64,
    /// The cached blocks, by block index.
    pub blocks: Map<u64, Seq<u8>>,
}

/// Every block of the cache is a block of the file, as long as the file
/// says it is.
pub open spec fn blocks_fit(state: FSFileState) -> bool {
    forall|i: u64| #[trigger]
        state.blocks.contains_key(i) ==> block_start(i as int) <= state.len
            && state.blocks[i].len() == block_end(i as int, state.len as int) - block_start(
            i as int,
        )
}

/// A file of the directory, read through a cache of fixed-size blocks. The
/// bytes themselves come from the reader that `read_bytes` is handed.
#[derive(Debug)]
pub struct FSFile {
    len: u64,
    cache: BTreeMap<u64, Vec<u8>>,
}

impl View for FSFile {
    type V = FSFileState;

    closed spec fn view(&self) -> FSFileState {
        FSFileState {
            len: self.len,
            blocks: Map::new(
                |i: u64| self.cache@.contains_key(i),
                |i: u64| self.cache@[i]@,
            ),
        }
    }
}

impl FSFile {
    /// The cache is bounded, and its blocks fit the file.
    pub closed spec fn wf(&self) -> bool {
        &&& self.cache@.len() <= MAX_CACHED_BLOCKS
        &&& blocks_fit(self@)
    }

    /// The cache never holds more than `MAX_CACHED_BLOCKS` blocks, and each
    /// of them is as long as its place in the file.
    pub proof fn lemma_bounded(&self)
        requires
            self.wf(),
        ensures
            self@.blocks.dom().finite(),
            self@.blocks.len() <= MAX_CACHED_BLOCKS,
            blocks_fit(self@),
    {
        assert(self@.blocks.dom() =~= self.cache@.dom());
    }

    /// A file of `len` bytes, with nothing cached yet.
    pub fn new(len: u64) -> (cache: FSFile)
        ensures
            cache.wf(),
            cache@.len == len,
            cache@.blocks == Map::<u64, Seq<u8>>::empty(),
    {
        let cache = FSFile { len: len, cache: BTreeMap::new() };
        proof {
            assert(cache@.blocks =~= Map::<u64, Seq<u8>>::empty());
        }
        cache
    }

    /// Returns the bytes `[from, to)` of the file. The blocks that hold the
    /// range are taken from the cache; a block that the cache does not hold
    /// is read with `read_bytes_real`, which is handed the offsets at which
    /// the block starts and ends, and is then cached.
    ///
    /// Fails with `ReadError` where the range does not lie in the file, and
    /// where the reader returns a block that is not as long as asked. A
    /// range in the file is always served where the reader reads in full
    /// inside the file, and where the cache holds all its blocks. Where cache
    /// and reader stand for a file, the result is the range of that file,
    /// whatever is cached, and they stand for it afterwards too.
    pub fn read_bytes<F: Fn(u64, u64) -> Vec<u8>>(
        &mut self,
        from: u64,
        to: u64,
        read_bytes_real: &F,
    ) -> (r: Result<Vec<u8>>)
        requires
            old(self).wf(),
            forall|start: u64, end: u64| call_requires(*read_bytes_real, (start, end)),
        ensures
            final(self).wf(),
            final(self)@.len == old(self)@.len,
            forall|i: u64| #[trigger]
                final(self)@.blocks.contains_key(i) ==> served(
                    old(self)@.blocks,
                    *read_bytes_real,
                    old(self)@.len as int,
                    i as int,
                    final(self)@.blocks[i],
                ),
            r matches Err(e) ==> e is ReadError,
            !(from <= to <= old(self)@.len) ==> r is Err && final(self)@ == old(self)@,
            from <= to <= old(self)@.len && reads_in_file(
                *read_bytes_real,
                old(self)@.len as int,
            ) ==> r is Ok,
            from <= to <= old(self)@.len && range_cached(
                old(self)@.blocks,
                from as int,
                to as int,
            ) ==> r is Ok && final(self)@ == old(self)@,
            from <= to <= old(self)@.len && r is Err ==> block_read_short(
                *read_bytes_real,
                old(self)@.len as int,
                from as int,
                to as int,
            ),
            forall|contents: Seq<u8>|
                from <= to <= old(self)@.len && #[trigger] stands_for(
                    old(self)@,
                    *read_bytes_real,
                    contents,
                ) ==> r is Ok && r->Ok_0@ == contents.subrange(from as int, to as int)
                    && stands_for(final(self)@, *read_bytes_real, contents),
            r matches Ok(bytes) ==> exists|blocks: Map<u64, Seq<u8>>|
                #[trigger] range_served(
                    old(self)@.blocks,
                    *read_bytes_real,
                    old(self)@.len as int,
                    blocks,
                    from as int,
                    to as int,
                ) && bytes@ == assembled(blocks, from as int, to as int, to / CS + 1),
    {
        let len: u64 = self.len;
        if from > to || to > len {
            return Err(IndexError::ReadError("range outside the file".to_owned()));
        }
        let starti: u64 = from / CS;
        let endi: u64 = to / CS;
        let mut out_buf: Vec<u8> = Vec::new();
        let ghost mut blocks: Map<u64, Seq<u8>> = Map::empty();
        let mut i: u64 = starti;
        while i <= endi
            invariant
                from <= to <= len,
                len == self.len,
                len == old(self)@.len,
                starti == from / CS,
                endi == to / CS,
                starti <= i <= endi + 1,
                forall|start: u64, end: u64| call_requires(*read_bytes_real, (start, end)),
                self.wf(),
                forall|k: u64| #[trigger]
                    self@.blocks.contains_key(k) ==> served(
                        old(self)@.blocks,
                        *read_bytes_real,
                        len as int,
                        k as int,
                        self@.blocks[k],
                    ),
                forall|k: int|
                    starti <= k < i ==> #[trigger] blocks.contains_key(k as u64) && served(
                        old(self)@.blocks,
                        *read_bytes_real,
                        len as int,
                        k,
                        blocks[k as u64],
                    ) && blocks[k as u64].len() == block_end(k, len as int) - block_start(k),
                range_cached(old(self)@.blocks, from as int, to as int) ==> self@ == old(self)@,
                out_buf@ == assembled(blocks, from as int, to as int, i as int),
            decreases endi + 1 - i,
        {
            let startofs: usize = if i == starti {
                (from % CS) as usize
            } else {
                0
            };
            let endofs: usize = if i == endi {
                (to % CS) as usize
            } else {
                CS as usize
            };
            let block_from: u64 = i * CS;
            let block_to: u64 = if len - block_from >= CS {
                block_from + CS
            } else {
                len
            };
            let expected: usize = (block_to - block_from) as usize;
            assert(block_from == block_start(i as int));
            assert(block_to == block_end(i as int, len as int));
            let ghost before = blocks;
            match self.cache.get(&i) {
                Some(chunk) => {
                    assert(self@.blocks.contains_key(i));
                    assert(self@.blocks[i] == chunk@);
                    let part = slice_subrange(chunk.as_slice(), startofs, endofs);
                    out_buf.extend_from_slice(part);
                    proof {
                        blocks = blocks.insert(i, chunk@);
                    }
                },
                None => {
                    proof {
                        assert(!self@.blocks.contains_key(i));
                        if range_cached(old(self)@.blocks, from as int, to as int) {
                            assert(old(self)@.blocks.contains_key(i as int as u64));
                        }
                    }
                    let chunk = read_bytes_real(block_from, block_to);
                    if chunk.len() != expected {
                        proof {
                            assert(block_read_short(
                                *read_bytes_real,
                                len as int,
                                from as int,
                                to as int,
                            )) by {
                                assert(call_ensures(
                                    *read_bytes_real,
                                    (block_start(i as int) as u64, block_end(i as int, len as int) as u64),
                                    chunk,
                                ));
                            }
                        }
                        return Err(IndexError::ReadError("block read short".to_owned()));
                    }
                    let part = slice_subrange(chunk.as_slice(), startofs, endofs);
                    out_buf.extend_from_slice(part);
                    proof {
                        blocks = blocks.insert(i, chunk@);
                        assert(fetched(*read_bytes_real, block_from as int, block_to as int, chunk@));
                    }
                    if self.cache.len() >= MAX_CACHED_BLOCKS {
                        self.cache.clear();
                    }
                    let ghost cached = self@.blocks;
                    let ghost held = self.cache@;
                    self.cache.insert(i, chunk);
                    proof {
                        assert(self@.blocks =~= cached.insert(i, chunk@));
                        assert(self.cache@.len() <= held.len() + 1);
                    }
                },
            }
            proof {
                lemma_assembled_insert(before, from as int, to as int, i as int, i as int, blocks[i]);
                assert forall|k: int| starti <= k < i + 1 implies #[trigger] blocks.contains_key(
                    k as u64,
                ) && served(old(self)@.blocks, *read_bytes_real, len as int, k, blocks[k as u64])
                    && blocks[k as u64].len() == block_end(k, len as int) - block_start(k) by {
                    if k < i {
                        assert(before.contains_key(k as u64));
                    }
                }
            }
            i += 1;
        }
        proof {
            assert(range_served(
                old(self)@.blocks,
                *read_bytes_real,
                len as int,
                blocks,
                from as int,
                to as int,
            ));
            assert forall|contents: Seq<u8>| #[trigger]
                stands_for(old(self)@, *read_bytes_real, contents) implies out_buf@
                == contents.subrange(from as int, to as int) && stands_for(
                self@,
                *read_bytes_real,
                contents,
            ) by {
                lemma_read_is_the_range(
                    contents,
                    old(self)@.blocks,
                    *read_bytes_real,
                    blocks,
                    from as int,
                    to as int,
                );
                lemma_served_blocks_hold(old(self)@, *read_bytes_real, contents, self@.blocks);
            }
        }
        Ok(out_buf)
    }

    /// The length of the file.
    pub fn len(&self) -> (len: u64)
        ensures
            len == self@.len,
    {
        self.len
    }
}

} // verus!
