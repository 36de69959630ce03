//! The block lists of sparse files.
//!
//! A sparse file is kept as a list of blocks, each with its place in the file
//! and its length. The bytes of the blocks follow each other in the archive;
//! what lies between the blocks is zeros, which the archive does not hold.

use crate::entry::{lemma_len_push, stored_len, total_len, EntryIo};
use crate::error::{Field, TarError};
use crate::header::{number, number_from};
use vstd::prelude::*;

verus! {

/// The size of a block descriptor, in bytes.
pub const DESCRIPTOR: usize = 24;

/// Where the descriptors stand in a GNU header, and how many there are.
pub const HEADER_BLOCKS_AT: usize = 386;

pub const HEADER_BLOCKS: usize = 4;

/// How many descriptors stand at the start of an extension header.
pub const EXTENSION_BLOCKS: usize = 21;

/// `true` for a descriptor that is not in use.
pub open spec fn unused(d: Seq<u8>) -> bool {
    d[0] == 0 || d[12] == 0
}

/// Where the block of a descriptor starts in the file.
pub open spec fn block_offset(d: Seq<u8>) -> Option<u64> {
    number(d.subrange(0, 12))
}

/// The length of the block of a descriptor.
pub open spec fn block_length(d: Seq<u8>) -> Option<u64> {
    number(d.subrange(12, 24))
}

/// The `n` descriptors that stand in a block of the archive from `start` on.
pub open spec fn descriptors(block: Seq<u8>, start: int, n: nat) -> Seq<Seq<u8>> {
    Seq::new(n, |i: int| block.subrange(start + 24 * i, start + 24 * i + 24))
}

/// `true` if a GNU header announces an extension header.
pub open spec fn header_extended(h: Seq<u8>) -> bool {
    h[482] == 1
}

/// `true` if an extension header announces a further one.
pub open spec fn extension_extended(b: Seq<u8>) -> bool {
    b[504] == 1
}

/// A block list as far as it is known.
#[verifier::ext_equal]
pub ghost struct SparseView {
    /// The bytes of the entry.
    pub size: u64,
    /// Where the last block ends in the file.
    pub cur: u64,
    /// How many of the entry's bytes no block has taken yet.
    pub remaining: u64,
    /// The contents of the file up to `cur`.
    pub data: Seq<EntryIo>,
}

impl SparseView {
    /// An empty list for an entry of `size` bytes.
    pub open spec fn start(size: u64) -> SparseView {
        SparseView { size, cur: 0, remaining: size, data: Seq::empty() }
    }

    /// The list with a block more.
    pub open spec fn add_block(self, d: Seq<u8>) -> Result<SparseView, TarError> {
        if unused(d) {
            Ok(self)
        } else {
            match (block_offset(d), block_length(d)) {
                (None, _) => Err(TarError::InvalidField(Field::SparseOffset)),
                (_, None) => Err(TarError::InvalidField(Field::SparseLength)),
                (Some(off), Some(len)) => if (self.size - self.remaining) % 512 != 0 {
                    Err(TarError::SparseUnaligned)
                } else if off < self.cur {
                    Err(TarError::SparseOutOfOrder)
                } else if off + len > u64::MAX {
                    Err(TarError::SparseTooLarge)
                } else if len > self.remaining {
                    Err(TarError::SparseOverrun)
                } else {
                    let padded = if self.cur < off {
                        self.data.push(EntryIo::Pad((off - self.cur) as u64))
                    } else {
                        self.data
                    };
                    Ok(
                        SparseView {
                            size: self.size,
                            cur: (off + len) as u64,
                            remaining: (self.remaining - len) as u64,
                            data: padded.push(EntryIo::Data(len)),
                        },
                    )
                },
            }
        }
    }

    /// The list with some blocks more, in their order.
    pub open spec fn add_blocks(self, ds: Seq<Seq<u8>>) -> Result<SparseView, TarError>
        decreases ds.len(),
    {
        if ds.len() == 0 {
            Ok(self)
        } else {
            match self.add_blocks(ds.drop_last()) {
                Ok(list) => list.add_block(ds.last()),
                Err(e) => Err(e),
            }
        }
    }
}

/// A block list as far as it was read.
pub struct SparseMap {
    size: u64,
    cur: u64,
    remaining: u64,
    data: Vec<EntryIo>,
}

impl View for SparseMap {
    type V = SparseView;

    closed spec fn view(&self) -> SparseView {
        SparseView {
            size: self.size,
            cur: self.cur,
            remaining: self.remaining,
            data: self.data@,
        }
    }
}

impl SparseMap {
    /// No more bytes are left than the entry has.
    pub open spec fn wf(self) -> bool {
        self@.remaining <= self@.size
    }

    /// An empty list for an entry of `size` bytes.
    pub fn new(size: u64) -> (map: SparseMap)
        ensures
            map@ == SparseView::start(size),
            map.wf(),
    {
        SparseMap { size, cur: 0, remaining: size, data: Vec::new() }
    }

    /// Where the last block ends in the file.
    pub fn end(&self) -> (end: u64)
        ensures
            end == self@.cur,
    {
        self.cur
    }

    /// How many of the entry's bytes no block has taken.
    pub fn remaining(&self) -> (n: u64)
        ensures
            n == self@.remaining,
    {
        self.remaining
    }

    /// The contents of the file.
    pub fn into_data(self) -> (data: Vec<EntryIo>)
        ensures
            data@ == self@.data,
    {
        self.data
    }

    /// Adds the block of a descriptor, unless the descriptor is not in use.
    ///
    /// A block has to start on a block boundary of the archive, not before
    /// the end of the block before it, and within the bytes of the entry.
    pub fn add_block(&mut self, d: &[u8]) -> (r: Result<(), TarError>)
        requires
            old(self).wf(),
            d@.len() == 24,
        ensures
            final(self).wf(),
            match old(self)@.add_block(d@) {
                Ok(list) => r is Ok && final(self)@ == list,
                Err(e) => r == Err::<(), TarError>(e),
            },
    {
        if d[0] == 0 || d[12] == 0 {
            return Ok(());
        }
        let off: u64 = match number_from(&d[0..12]) {
            Some(n) => n,
            None => {
                return Err(TarError::InvalidField(Field::SparseOffset));
            },
        };
        let len: u64 = match number_from(&d[12..24]) {
            Some(n) => n,
            None => {
                return Err(TarError::InvalidField(Field::SparseLength));
            },
        };
        if (self.size - self.remaining) % 512 != 0 {
            return Err(TarError::SparseUnaligned);
        } else if off < self.cur {
            return Err(TarError::SparseOutOfOrder);
        }
        let end: u64 = match off.checked_add(len) {
            Some(n) => n,
            None => {
                return Err(TarError::SparseTooLarge);
            },
        };
        let remaining: u64 = match self.remaining.checked_sub(len) {
            Some(n) => n,
            None => {
                return Err(TarError::SparseOverrun);
            },
        };
        if self.cur < off {
            self.data.push(EntryIo::Pad(off - self.cur));
        }
        self.cur = end;
        self.remaining = remaining;
        self.data.push(EntryIo::Data(len));
        Ok(())
    }

    /// Adds the blocks of the `n` descriptors that stand in a block of the
    /// archive from `start` on.
    pub fn add_blocks(&mut self, block: &[u8], start: usize, n: usize) -> (r: Result<(), TarError>)
        requires
            old(self).wf(),
            start + 24 * n <= block@.len(),
        ensures
            final(self).wf(),
            match old(self)@.add_blocks(descriptors(block@, start as int, n as nat)) {
                Ok(list) => r is Ok && final(self)@ == list,
                Err(e) => r == Err::<(), TarError>(e),
            },
    {
        let ghost all = descriptors(block@, start as int, n as nat);
        let ghost before = self@;
        let mut i: usize = 0;
        assert(all.take(0) =~= Seq::<Seq<u8>>::empty());
        while i < n
            invariant
                i <= n,
                start + 24 * n <= block.len(),
                all == descriptors(block@, start as int, n as nat),
                before == old(self)@,
                self.wf(),
                before.add_blocks(all.take(i as int)) == Ok::<SparseView, TarError>(self@),
            decreases n - i,
        {
            let at: usize = start + DESCRIPTOR * i;
            let d: &[u8] = &block[at..at + DESCRIPTOR];
            assert(d@ =~= all[i as int]);
            let ghost upto = all.take(i + 1);
            assert(upto.drop_last() =~= all.take(i as int));
            match self.add_block(d) {
                Ok(()) => {},
                Err(e) => {
                    proof {
                        lemma_add_blocks_fails(before, all, i + 1);
                    }
                    return Err(e);
                },
            }
            i += 1;
        }
        assert(all.take(n as int) =~= all);
        Ok(())
    }
}

/// A list that a prefix of some blocks makes wrong stays wrong in the same way.
pub(crate) proof fn lemma_add_blocks_fails(list: SparseView, ds: Seq<Seq<u8>>, i: int)
    requires
        0 <= i <= ds.len(),
        list.add_blocks(ds.take(i)) is Err,
    ensures
        list.add_blocks(ds) == list.add_blocks(ds.take(i)),
    decreases ds.len(),
{
    if i < ds.len() {
        assert(ds.drop_last().take(i) =~= ds.take(i));
        lemma_add_blocks_fails(list, ds.drop_last(), i);
    } else {
        assert(ds.take(i) =~= ds);
    }
}

/// Adding blocks leaves the size of the entry as it is, and no more bytes than
/// were left before.
pub proof fn lemma_add_blocks_remaining(list: SparseView, ds: Seq<Seq<u8>>)
    ensures
        list.add_blocks(ds) matches Ok(after) ==> after.size == list.size && after.remaining
            <= list.remaining,
    decreases ds.len(),
{
    if ds.len() > 0 {
        lemma_add_blocks_remaining(list, ds.drop_last());
    }
}

/// The descriptors that are in use.
pub open spec fn used(ds: Seq<Seq<u8>>) -> Seq<Seq<u8>> {
    ds.filter(|d: Seq<u8>| !unused(d))
}

/// How many bytes of the archive some blocks take.
pub open spec fn blocks_len(bs: Seq<Seq<u8>>) -> int
    decreases bs.len(),
{
    if bs.len() == 0 {
        0
    } else {
        blocks_len(bs.drop_last()) + block_length(bs.last()).unwrap()
    }
}

/// Where the first `i` of some blocks end in the file.
pub open spec fn blocks_end(bs: Seq<Seq<u8>>, i: int) -> int {
    if i <= 0 {
        0
    } else {
        block_offset(bs[i - 1]).unwrap() + block_length(bs[i - 1]).unwrap()
    }
}

/// `true` if the block at `i` is described by numbers, lies behind the block
/// before it, ends where a `u64` can say, and starts on a block boundary of
/// the archive.
pub open spec fn in_place(bs: Seq<Seq<u8>>, i: int) -> bool {
    &&& block_offset(bs[i]) is Some
    &&& block_length(bs[i]) is Some
    &&& blocks_end(bs, i) <= block_offset(bs[i]).unwrap()
    &&& blocks_end(bs, i + 1) <= u64::MAX
    &&& blocks_len(bs.take(i)) % 512 == 0
}

/// `true` if some blocks can be laid out one behind the other in a file, from
/// the bytes of an entry of this size.
pub open spec fn laid_out(size: u64, bs: Seq<Seq<u8>>) -> bool {
    &&& forall|i: int| 0 <= i < bs.len() ==> #[trigger] in_place(bs, i)
    &&& blocks_len(bs) <= size
}

/// A block list is accepted exactly if its blocks in use can be laid out: each
/// comes after the one before it, none overruns the entry, and each starts on
/// a block boundary of the archive. The list then ends where its last block
/// does, and its blocks have taken their lengths from the entry's bytes.
pub proof fn law_sparse_accepts(size: u64, ds: Seq<Seq<u8>>)
    ensures
        SparseView::start(size).add_blocks(ds) is Ok <==> laid_out(size, used(ds)),
        SparseView::start(size).add_blocks(ds) matches Ok(list) ==> {
            &&& list.size == size
            &&& list.cur == blocks_end(used(ds), used(ds).len() as int)
            &&& list.remaining == size - blocks_len(used(ds))
        },
    decreases ds.len(),
{
    reveal(Seq::filter);
    let start = SparseView::start(size);
    if ds.len() > 0 {
        let d = ds.last();
        let bs = used(ds.drop_last());
        law_sparse_accepts(size, ds.drop_last());
        if unused(d) {
            assert(used(ds) == bs);
        } else {
            let more = bs.push(d);
            let n = bs.len() as int;
            assert(used(ds) == more);
            assert(more.drop_last() =~= bs);
            assert(more.take(n) =~= bs);
            assert forall|i: int| 0 <= i < n implies #[trigger] in_place(more, i) == in_place(
                bs,
                i,
            ) by {
                assert(more.take(i) =~= bs.take(i));
            }
            assert(blocks_end(more, n) == blocks_end(bs, n));
            if laid_out(size, more) {
                assert(in_place(more, n));
                assert forall|i: int| 0 <= i < n implies #[trigger] in_place(bs, i) by {
                    assert(in_place(more, i));
                }
            }
            if laid_out(size, bs) && in_place(more, n) {
                assert forall|i: int| 0 <= i < more.len() implies #[trigger] in_place(more, i) by {
                    if i < n {
                        assert(in_place(bs, i));
                    }
                }
            }
        }
    }
}

/// `true` if the contents of a list run from the start of the file to the end
/// of its last block, and take from the archive what the blocks have taken
/// from the entry's bytes.
pub open spec fn tiled(list: SparseView) -> bool {
    &&& list.remaining <= list.size
    &&& total_len(list.data) == list.cur
    &&& stored_len(list.data) == list.size - list.remaining
}

/// The contents that an accepted block list describes have no gap and no
/// overlap, whichever blocks are added to it.
pub proof fn law_sparse_tiles(list: SparseView, ds: Seq<Seq<u8>>)
    requires
        tiled(list),
    ensures
        list.add_blocks(ds) matches Ok(after) ==> tiled(after) && after.size == list.size,
    decreases ds.len(),
{
    if ds.len() > 0 {
        law_sparse_tiles(list, ds.drop_last());
        if let Ok(before) = list.add_blocks(ds.drop_last()) {
            let d = ds.last();
            if before.add_block(d) is Ok && !unused(d) {
                let off = block_offset(d).unwrap();
                let gap = EntryIo::Pad((off - before.cur) as u64);
                let block = EntryIo::Data(block_length(d).unwrap());
                lemma_len_push(before.data, gap);
                lemma_len_push(before.data, block);
                lemma_len_push(before.data.push(gap), block);
            }
        }
    }
}

/// It makes no difference how the blocks of a list are spread over headers.
pub proof fn law_sparse_lists_join(list: SparseView, ds: Seq<Seq<u8>>, more: Seq<Seq<u8>>)
    ensures
        list.add_blocks(ds + more) == match list.add_blocks(ds) {
            Ok(after) => after.add_blocks(more),
            Err(e) => Err(e),
        },
    decreases more.len(),
{
    if more.len() == 0 {
        assert(ds + more =~= ds);
    } else {
        assert((ds + more).drop_last() =~= ds + more.drop_last());
        law_sparse_lists_join(list, ds, more.drop_last());
    }
}

} // verus!
