//! Where the blocks of sparse files lie.
//!
//! Here stands how the blocks of a sparse file are listed in the bytes of its
//! headers, apart from how the list is read. The laws say which lists are
//! accepted, and that each block then lies where the list says, with zeros
//! between the blocks.

use crate::entry::{lemma_len_push, total_len, EntryIo, EntryView, MembersView, Options};
use crate::error::{Field, TarError};
use crate::fields::{
    law_no_number_is_read, law_number_is_read, law_sizes_are_read, law_sound_header_is_accepted,
    no_number, written,
};
use crate::found::{gnu_at, header_at, lemma_header_is_not_zero, lemma_kind, rounded, taken_from};
use crate::machine::{finish_sparse, header_listing, listed, padded, raw_entry};
use crate::outcome::{entry_outcome, extension_outcome, next_outcome, Outcome};
use crate::sparse::{descriptors, law_sparse_lists_join, lemma_add_blocks_fails, SparseView};
use vstd::prelude::*;

verus! {

/// `true` if the descriptors `ds` list the blocks `bs`, each with its place in
/// the file and its length: a descriptor whose place or length starts with a
/// zero byte lists none, and the others list one each, in their order.
pub open spec fn lists(ds: Seq<Seq<u8>>, bs: Seq<(int, int)>) -> bool
    decreases ds.len(),
{
    if ds.len() == 0 {
        bs.len() == 0
    } else {
        let d = ds.last();
        if d[0] == 0 || d[12] == 0 {
            lists(ds.drop_last(), bs)
        } else {
            &&& bs.len() > 0
            &&& written(d.subrange(0, 12), bs.last().0)
            &&& written(d.subrange(12, 24), bs.last().1)
            &&& lists(ds.drop_last(), bs.drop_last())
        }
    }
}

/// How many bytes some blocks have together.
pub open spec fn bytes_of(bs: Seq<(int, int)>) -> int {
    bs.fold_left(0int, |sum: int, b: (int, int)| sum + b.1)
}

/// Where the last of some blocks ends in the file.
pub open spec fn end_of(bs: Seq<(int, int)>) -> int {
    if bs.len() == 0 {
        0
    } else {
        bs.last().0 + bs.last().1
    }
}

/// `true` if the block at `k` can follow those before it: it starts at the end
/// of the block before it or behind, it ends where a `u64` can say, and the
/// bytes of the blocks before it fill whole blocks of the archive.
pub open spec fn follows(bs: Seq<(int, int)>, k: int) -> bool {
    &&& end_of(bs.take(k)) <= bs[k].0
    &&& bs[k].0 + bs[k].1 <= u64::MAX
    &&& bytes_of(bs.take(k)) % 512 == 0
}

/// `true` if some blocks can make up a file with no more than `size` bytes in
/// the archive.
pub open spec fn can_lie(size: int, bs: Seq<(int, int)>) -> bool {
    &&& forall|k: int| 0 <= k < bs.len() ==> #[trigger] follows(bs, k)
    &&& bytes_of(bs) <= size
}

/// `true` if the contents `data` hold the block at `k` as the stretch at
/// `at[k]`: it has the length of the block, and what lies before it is as long
/// as the place of the block says.
pub open spec fn holds_block(data: Seq<EntryIo>, bs: Seq<(int, int)>, at: Seq<int>, k: int) -> bool {
    &&& 0 <= at[k] < data.len()
    &&& data[at[k]] == EntryIo::Data(bs[k].1 as u64)
    &&& total_len(data.take(at[k])) == bs[k].0
    &&& k > 0 ==> at[k - 1] < at[k]
}

/// `true` if the contents `data` are the blocks `bs`, each in its place, in
/// their order and as one stretch, with one stretch of zeros in each gap before
/// a block and nothing else.
pub open spec fn holds(data: Seq<EntryIo>, bs: Seq<(int, int)>, at: Seq<int>) -> bool {
    &&& at.len() == bs.len()
    &&& forall|k: int| 0 <= k < bs.len() ==> #[trigger] holds_block(data, bs, at, k)
    &&& forall|i: int|
        0 <= i < data.len() ==> match #[trigger] data[i] {
            EntryIo::Data(_) => at.contains(i),
            EntryIo::Pad(n) => n > 0 && i + 1 < data.len() && data[i + 1] is Data,
        }
}

/// `true` if the contents `data` are the blocks `bs` with zeros between them.
pub open spec fn made_of(data: Seq<EntryIo>, bs: Seq<(int, int)>) -> bool {
    exists|at: Seq<int>| #[trigger] holds(data, bs, at)
}

proof fn lemma_bytes_push(bs: Seq<(int, int)>, b: (int, int))
    ensures
        bytes_of(bs.push(b)) == bytes_of(bs) + b.1,
{
    assert(bs.push(b).drop_last() =~= bs);
}

proof fn lemma_can_lie_push(size: int, bs: Seq<(int, int)>, b: (int, int))
    requires
        0 <= b.1,
    ensures
        can_lie(size, bs.push(b)) <==> can_lie(size, bs) && follows(bs.push(b), bs.len() as int)
            && bytes_of(bs) + b.1 <= size,
        follows(bs.push(b), bs.len() as int) <==> end_of(bs) <= b.0 && b.0 + b.1 <= u64::MAX
            && bytes_of(bs) % 512 == 0,
{
    let more = bs.push(b);
    let n = bs.len() as int;
    lemma_bytes_push(bs, b);
    assert(more.take(n) =~= bs);
    assert forall|k: int| 0 <= k < n implies #[trigger] follows(more, k) == follows(bs, k) by {
        assert(more.take(k) =~= bs.take(k));
    }
    if can_lie(size, more) {
        assert(follows(more, n));
        assert forall|k: int| 0 <= k < n implies #[trigger] follows(bs, k) by {
            assert(follows(more, k));
        }
    }
    if can_lie(size, bs) && follows(more, n) {
        assert forall|k: int| 0 <= k < more.len() implies #[trigger] follows(more, k) by {
            if k < n {
                assert(follows(bs, k));
            }
        }
    }
}

/// The contents with a block more, behind a stretch of zeros where there is a
/// gap.
proof fn lemma_holds_push(data: Seq<EntryIo>, bs: Seq<(int, int)>, b: (int, int), gap: int)
    requires
        made_of(data, bs),
        0 <= gap <= u64::MAX,
        total_len(data) + gap == b.0,
    ensures
        gap == 0 ==> made_of(data.push(EntryIo::Data(b.1 as u64)), bs.push(b)),
        gap > 0 ==> made_of(
            data.push(EntryIo::Pad(gap as u64)).push(EntryIo::Data(b.1 as u64)),
            bs.push(b),
        ),
{
    let at = choose|at: Seq<int>| #[trigger] holds(data, bs, at);
    let padded = if gap > 0 {
        data.push(EntryIo::Pad(gap as u64))
    } else {
        data
    };
    lemma_len_push(data, EntryIo::Pad(gap as u64));
    let all = padded.push(EntryIo::Data(b.1 as u64));
    let more = bs.push(b);
    let places = at.push(padded.len() as int);
    let n = bs.len() as int;
    assert forall|k: int| 0 <= k < more.len() implies #[trigger] holds_block(
        all,
        more,
        places,
        k,
    ) by {
        if k < n {
            assert(holds_block(data, bs, at, k));
            assert(all.take(places[k]) =~= data.take(at[k]));
            if k > 0 {
                assert(holds_block(data, bs, at, k - 1));
            }
        } else {
            assert(all.take(places[k]) =~= padded);
            if k > 0 {
                assert(holds_block(data, bs, at, k - 1));
            }
        }
    }
    assert forall|i: int| 0 <= i < all.len() implies match #[trigger] all[i] {
        EntryIo::Data(_) => places.contains(i),
        EntryIo::Pad(n) => n > 0 && i + 1 < all.len() && all[i + 1] is Data,
    } by {
        if i < data.len() {
            assert(all[i] == data[i]);
            if data[i] is Data {
                let k = choose|k: int| 0 <= k < at.len() && at[k] == i;
                assert(places[k] == i);
            } else {
                assert(all[i + 1] == data[i + 1]);
            }
        } else if i == padded.len() {
            assert(places[n] == i);
        }
    }
    assert(holds(all, more, places));
}

/// A list is accepted exactly if its blocks can lie one behind the other in a
/// file, within the bytes of the entry. The contents are then the blocks, each
/// at its place in the file, with zeros between them.
#[verifier::spinoff_prover]
#[verifier::rlimit(60)]
pub proof fn law_blocks_lie_where_they_are_listed(
    size: u64,
    ds: Seq<Seq<u8>>,
    bs: Seq<(int, int)>,
)
    requires
        lists(ds, bs),
    ensures
        SparseView::start(size).add_blocks(ds) is Ok <==> can_lie(size as int, bs),
        SparseView::start(size).add_blocks(ds) matches Ok(list) ==> {
            &&& list.size == size
            &&& list.cur == end_of(bs)
            &&& list.remaining == size - bytes_of(bs)
            &&& total_len(list.data) == end_of(bs)
            &&& made_of(list.data, bs)
        },
    decreases ds.len(),
{
    let start = SparseView::start(size);
    if ds.len() == 0 {
        assert(holds(start.data, bs, Seq::<int>::empty()));
    } else {
        let d = ds.last();
        if d[0] == 0 || d[12] == 0 {
            law_blocks_lie_where_they_are_listed(size, ds.drop_last(), bs);
        } else {
            let less = bs.drop_last();
            let b = bs.last();
            assert(bs =~= less.push(b));
            law_blocks_lie_where_they_are_listed(size, ds.drop_last(), less);
            law_number_is_read(d.subrange(0, 12), b.0);
            law_number_is_read(d.subrange(12, 24), b.1);
            lemma_can_lie_push(size as int, less, b);
            lemma_bytes_push(less, b);
            if let Ok(list) = start.add_blocks(ds.drop_last()) {
                if list.add_block(d) is Ok {
                    let gap = b.0 - list.cur;
                    lemma_holds_push(list.data, less, b, gap);
                    lemma_len_push(list.data, EntryIo::Pad(gap as u64));
                    lemma_len_push(list.data, EntryIo::Data(b.1 as u64));
                    lemma_len_push(
                        list.data.push(EntryIo::Pad(gap as u64)),
                        EntryIo::Data(b.1 as u64),
                    );
                }
            }
        }
    }
}

/// The first block of a list that cannot follow those before it decides what is
/// wrong with the list, whatever comes behind it.
pub proof fn law_first_wrong_block_decides(
    size: u64,
    ds: Seq<Seq<u8>>,
    bs: Seq<(int, int)>,
    d: Seq<u8>,
    b: (int, int),
    rest: Seq<Seq<u8>>,
)
    requires
        lists(ds, bs),
        can_lie(size as int, bs),
        d.len() == 24,
        d[0] != 0,
        d[12] != 0,
    ensures
        ({
            let r = SparseView::start(size).add_blocks(ds.push(d) + rest);
            let offset = d.subrange(0, 12);
            let length = d.subrange(12, 24);
            &&& no_number(offset) ==> r == Err::<SparseView, TarError>(
                TarError::InvalidField(Field::SparseOffset),
            )
            &&& written(offset, b.0) && no_number(length) ==> r == Err::<SparseView, TarError>(
                TarError::InvalidField(Field::SparseLength),
            )
            &&& written(offset, b.0) && written(length, b.1) ==> {
                if bytes_of(bs) % 512 != 0 {
                    r == Err::<SparseView, TarError>(TarError::SparseUnaligned)
                } else if b.0 < end_of(bs) {
                    r == Err::<SparseView, TarError>(TarError::SparseOutOfOrder)
                } else if b.0 + b.1 > u64::MAX {
                    r == Err::<SparseView, TarError>(TarError::SparseTooLarge)
                } else if bytes_of(bs) + b.1 > size {
                    r == Err::<SparseView, TarError>(TarError::SparseOverrun)
                } else {
                    true
                }
            }
        }),
{
    let start = SparseView::start(size);
    let more = ds.push(d);
    law_blocks_lie_where_they_are_listed(size, ds, bs);
    assert(more.drop_last() =~= ds);
    if no_number(d.subrange(0, 12)) {
        law_no_number_is_read(d.subrange(0, 12));
    }
    if no_number(d.subrange(12, 24)) {
        law_no_number_is_read(d.subrange(12, 24));
    }
    if written(d.subrange(0, 12), b.0) {
        law_number_is_read(d.subrange(0, 12), b.0);
    }
    if written(d.subrange(12, 24), b.1) {
        law_number_is_read(d.subrange(12, 24), b.1);
    }
    assert(start.add_blocks(more) == start.add_blocks(ds).unwrap().add_block(d));
    if start.add_blocks(more) is Err {
        assert((more + rest).take(more.len() as int) =~= more);
        lemma_add_blocks_fails(start, more + rest, more.len() as int);
    }
}

/// The descriptors of the sparse file whose header stands at `next` in the
/// archive `a`: four in the header, and twenty-one in each of the `exts` blocks
/// behind it.
pub open spec fn descriptors_at(a: Seq<u8>, next: int, exts: nat) -> Seq<Seq<u8>> {
    Seq::new(
        4 + 21 * exts,
        |j: int|
            if j < 4 {
                a.subrange(next + 386 + 24 * j, next + 386 + 24 * j + 24)
            } else {
                let block = next + 512 + 512 * ((j - 4) / 21);
                let at = block + 24 * ((j - 4) % 21);
                a.subrange(at, at + 24)
            },
    )
}

/// `true` if the header at `next`, or the extension header before the one at
/// `i`, says that the extension header at `i` is there.
pub open spec fn announced(a: Seq<u8>, next: int, i: int) -> bool {
    if i == 0 {
        a[next + 482] == 1
    } else {
        a[next + 512 * i + 504] == 1
    }
}

/// `true` if the header of a sparse file of GNU, with `n` bytes in the archive,
/// stands at `next`.
pub open spec fn sparse_at(a: Seq<u8>, next: int, n: int) -> bool {
    &&& header_at(a, next, n)
    &&& gnu_at(a, next)
    &&& a[next + 156] == 0x53
}

/// The descriptors in a block of the archive follow each other, twenty-four bytes
/// each.
pub proof fn law_descriptors_follow_each_other(
    block: Seq<u8>,
    start: int,
    n: nat,
    i: int,
    k: int,
)
    requires
        0 <= start,
        start + 24 * n <= block.len(),
        0 <= i < n,
        0 <= k < 24,
    ensures
        descriptors(block, start, n).len() == n,
        descriptors(block, start, n)[i].len() == 24,
        descriptors(block, start, n)[i][k] == block[start + 24 * i + k],
{
}

proof fn lemma_descriptors_at(a: Seq<u8>, next: int, exts: nat)
    requires
        0 <= next,
        next + 512 + 512 * exts <= a.len(),
    ensures
        exts == 0 ==> descriptors_at(a, next, exts) == descriptors(
            a.subrange(next, next + 512),
            386,
            4,
        ),
        exts > 0 ==> descriptors_at(a, next, exts) == descriptors_at(a, next, (exts - 1) as nat)
            + descriptors(a.subrange(next + 512 * exts, next + 512 * exts + 512), 0, 21),
{
    let all = descriptors_at(a, next, exts);
    if exts == 0 {
        let h = a.subrange(next, next + 512);
        let ds = descriptors(h, 386, 4);
        assert forall|j: int| 0 <= j < 4 implies #[trigger] all[j] == ds[j] by {
            assert(all[j] =~= ds[j]);
        }
        assert(all =~= ds);
    } else {
        let less = descriptors_at(a, next, (exts - 1) as nat);
        let at = next + 512 * exts;
        let ds = descriptors(a.subrange(at, at + 512), 0, 21);
        let len = less.len() as int;
        assert forall|j: int| 0 <= j < all.len() implies #[trigger] all[j] == (less + ds)[j] by {
            if j >= len {
                let r = j - len;
                assert(0 <= r < 21);
                assert((j - 4) / 21 == exts - 1 && (j - 4) % 21 == r);
                assert(all[j] =~= ds[r]);
            }
        }
        assert(all =~= less + ds);
    }
}

/// The entry of the header at `next`, before its block list is read.
spec fn entry_at(a: Seq<u8>, next: int, options: Options, members: MembersView) -> EntryView {
    EntryView {
        members,
        ..raw_entry(a.subrange(next, next + 512), next, options)->Ok_0
    }
}

proof fn lemma_sparse_starts(
    a: Seq<u8>,
    next: int,
    n: int,
    options: Options,
    members: MembersView,
)
    requires
        sparse_at(a, next, n),
    ensures
        ({
            let entry = entry_at(a, next, options, members);
            &&& next_outcome(a, next, false, options, members) == entry_outcome(
                a,
                next + 512,
                next + 512 + padded(n),
                entry,
            )
            &&& entry.size == n
            &&& entry.members == members
            &&& taken_from(entry, a, next, options)
            &&& header_listing(entry) == listed(
                entry,
                SparseView::start(n as u64).add_blocks(descriptors_at(a, next, 0)),
                announced(a, next, 0),
            )
            &&& 0 <= n <= u64::MAX
        }),
{
    let h = a.subrange(next, next + 512);
    lemma_header_is_not_zero(a, next, n);
    lemma_kind(a, next);
    law_sound_header_is_accepted(h, n, next, options);
    lemma_descriptors_at(a, next, 0);
    assert(h[482] == a[next + 482]);
}

/// Where the search stands once `i` extension headers were read, and a further
/// one is announced.
#[verifier::spinoff_prover]
#[verifier::rlimit(60)]
proof fn lemma_extensions_are_read(
    a: Seq<u8>,
    next: int,
    n: int,
    i: nat,
    options: Options,
    members: MembersView,
)
    requires
        sparse_at(a, next, n),
        next + 512 + 512 * i <= a.len(),
        forall|k: int| 0 <= k <= i ==> #[trigger] announced(a, next, k),
    ensures
        ({
            let o = next_outcome(a, next, false, options, members);
            let entry = entry_at(a, next, options, members);
            match SparseView::start(n as u64).add_blocks(descriptors_at(a, next, i)) {
                Ok(list) => o == extension_outcome(
                    a,
                    next + 512 + 512 * i,
                    next + 512 + padded(n) + 512 * i,
                    entry,
                    list,
                ),
                Err(e) => o.result == Err::<Option<EntryView>, TarError>(e),
            }
        }),
    decreases i,
{
    lemma_sparse_starts(a, next, n, options, members);
    assert(announced(a, next, i as int));
    if i > 0 {
        let start = SparseView::start(n as u64);
        let less = descriptors_at(a, next, (i - 1) as nat);
        let at = next + 512 * i;
        let block = a.subrange(at, at + 512);
        let ds = descriptors(block, 0, 21);
        assert(announced(a, next, 0));
        lemma_extensions_are_read(a, next, n, (i - 1) as nat, options, members);
        lemma_descriptors_at(a, next, i);
        law_sparse_lists_join(start, less, ds);
        assert(block[504] == a[at + 504]);
    }
}

/// A sparse file of GNU is found with the blocks that its header and extension
/// headers list, each at its place, if the blocks can lie so, end at the size
/// of the file that is written into the header, and have as many bytes as it
/// says that follow. Otherwise it is an error. The bytes of the blocks follow
/// the last extension header, and the next header is due at the first block
/// boundary behind them.
#[verifier::spinoff_prover]
#[verifier::rlimit(60)]
pub proof fn law_sparse_file_is_found(
    a: Seq<u8>,
    next: int,
    n: int,
    size: int,
    exts: nat,
    bs: Seq<(int, int)>,
    options: Options,
    members: MembersView,
)
    requires
        sparse_at(a, next, n),
        next + 512 + 512 * exts <= a.len(),
        forall|i: int| 0 <= i <= exts ==> #[trigger] announced(a, next, i) == (i < exts),
        lists(descriptors_at(a, next, exts), bs),
    ensures
        ({
            let o = next_outcome(a, next, false, options, members);
            let real_size = a.subrange(next + 483, next + 495);
            if !can_lie(n, bs) {
                o.result is Err
            } else {
                &&& no_number(real_size) ==> o.result == Err::<Option<EntryView>, TarError>(
                    TarError::InvalidField(Field::RealSize),
                )
                &&& written(real_size, size) ==> {
                    if end_of(bs) != size {
                        o.pos == next + 512 + 512 * exts && o.result == Err::<
                            Option<EntryView>,
                            TarError,
                        >(TarError::SparseSizeMismatch)
                    } else if bytes_of(bs) != n {
                        o.pos == next + 512 + 512 * exts && o.result == Err::<
                            Option<EntryView>,
                            TarError,
                        >(TarError::SparseEntrySizeMismatch)
                    } else {
                        &&& o.result matches Ok(Some(e)) && {
                            &&& taken_from(e, a, next, options)
                            &&& e.size == size
                            &&& made_of(e.data, bs)
                            &&& total_len(e.data) == size
                            &&& e.members.long_pathname == members.long_pathname
                            &&& e.members.long_linkname == members.long_linkname
                            &&& e.members.pax_extensions == members.pax_extensions
                        }
                        &&& o.pos == next + 512 + 512 * exts
                        &&& rounded(o.pos, n, o.next)
                    }
                }
            }
        }),
        0 <= n <= u64::MAX,
        SparseView::start(n as u64).add_blocks(descriptors_at(a, next, exts)) matches Err(e)
            ==> next_outcome(a, next, false, options, members).result == Err::<
            Option<EntryView>,
            TarError,
        >(e),
{
    let all = descriptors_at(a, next, exts);
    let h = a.subrange(next, next + 512);
    lemma_sparse_starts(a, next, n, options, members);
    lemma_list_is_finished(a, next, n, exts, options, members);
    law_blocks_lie_where_they_are_listed(n as u64, all, bs);
    assert(h.subrange(483, 495) =~= a.subrange(next + 483, next + 495));
    law_sizes_are_read(h, size);
    if written(h.subrange(483, 495), size) {
        law_number_is_read(h.subrange(483, 495), size);
    }
    lemma_rounded(next + 512 + 512 * exts, n);
}

proof fn lemma_rounded(from: int, n: int)
    requires
        0 <= n,
    ensures
        rounded(from, n, from + padded(n)),
{
}

/// What the search comes to once the last extension header was read.
#[verifier::spinoff_prover]
#[verifier::rlimit(60)]
proof fn lemma_list_is_finished(
    a: Seq<u8>,
    next: int,
    n: int,
    exts: nat,
    options: Options,
    members: MembersView,
)
    requires
        sparse_at(a, next, n),
        next + 512 + 512 * exts <= a.len(),
        forall|i: int| 0 <= i <= exts ==> #[trigger] announced(a, next, i) == (i < exts),
    ensures
        ({
            let o = next_outcome(a, next, false, options, members);
            match SparseView::start(n as u64).add_blocks(descriptors_at(a, next, exts)) {
                Ok(list) => o == (Outcome {
                    result: finish_sparse(entry_at(a, next, options, members), list),
                    pos: next + 512 + 512 * exts,
                    next: next + 512 + padded(n) + 512 * exts,
                }),
                Err(e) => o.result == Err::<Option<EntryView>, TarError>(e),
            }
        }),
{
    lemma_sparse_starts(a, next, n, options, members);
    assert(announced(a, next, exts as int) == false);
    if exts > 0 {
        let i = (exts - 1) as nat;
        let at = next + 512 * exts;
        let block = a.subrange(at, at + 512);
        assert forall|k: int| 0 <= k <= i implies #[trigger] announced(a, next, k) by {}
        lemma_extensions_are_read(a, next, n, i, options, members);
        lemma_descriptors_at(a, next, exts);
        law_sparse_lists_join(
            SparseView::start(n as u64),
            descriptors_at(a, next, i),
            descriptors(block, 0, 21),
        );
        assert(block[504] == a[at + 504]);
    }
}

/// It is an error if the archive ends where an extension header is announced, or
/// inside it.
pub proof fn law_missing_extension_is_an_error(
    a: Seq<u8>,
    next: int,
    n: int,
    i: nat,
    bs: Seq<(int, int)>,
    options: Options,
    members: MembersView,
)
    requires
        sparse_at(a, next, n),
        next + 512 + 512 * i <= a.len() < next + 512 + 512 * i + 512,
        forall|k: int| 0 <= k <= i ==> #[trigger] announced(a, next, k),
        lists(descriptors_at(a, next, i), bs),
        can_lie(n, bs),
    ensures
        next_outcome(a, next, false, options, members).result == if a.len() == next + 512 + 512
            * i {
            Err::<Option<EntryView>, TarError>(TarError::NoExtension)
        } else {
            Err::<Option<EntryView>, TarError>(TarError::ShortBlock)
        },
{
    lemma_sparse_starts(a, next, n, options, members);
    lemma_extensions_are_read(a, next, n, i, options, members);
    law_blocks_lie_where_they_are_listed(n as u64, descriptors_at(a, next, i), bs);
}

/// A sparse file without the magic of GNU is an error.
pub proof fn law_sparse_file_needs_gnu(
    a: Seq<u8>,
    next: int,
    n: int,
    options: Options,
    members: MembersView,
)
    requires
        header_at(a, next, n),
        !gnu_at(a, next),
        a[next + 156] == 0x53,
    ensures
        next_outcome(a, next, false, options, members).result == Err::<
            Option<EntryView>,
            TarError,
        >(TarError::SparseNotGnu),
{
    lemma_header_is_not_zero(a, next, n);
    lemma_kind(a, next);
    law_sound_header_is_accepted(a.subrange(next, next + 512), n, next, options);
}

} // verus!
