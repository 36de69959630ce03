//! What an iteration finds in an archive.
//!
//! Here an archive is its bytes, and the entry that an iteration finds next is
//! a function of them. The laws say that the iteration finds that entry in
//! whatever pieces the archive is read, and where the entries lie.

use crate::entry::{
    lemma_len_push, stored_len, total_len, EntryIo, EntryView, MemberKind, MembersView, Options,
};
use crate::error::TarError;
use crate::header::{all_zero, header_sum, stated_size, stated_sum, type_flag, GNU_SPARSE};
use crate::machine::{
    extension_listing, header_listing, law_read_keeps_wf, member_kind, no_entry, padded,
    raw_entry, two_of, Listing, Machine, Phase, ProgressView, Request, Turn,
};
use crate::sparse::{descriptors, law_sparse_tiles, tiled, SparseView};
use vstd::prelude::*;

verus! {

/// What the search for an entry comes to.
#[verifier::ext_equal]
pub ghost struct Outcome {
    /// An entry, the end of the archive, or an error.
    pub result: Result<Option<EntryView>, TarError>,
    /// How many bytes of the archive were read or skipped then.
    pub pos: int,
    /// Where the next header is expected then.
    pub next: int,
}

/// What stands where a header is due.
#[verifier::ext_equal]
pub ghost enum Landing {
    /// A header, at this place.
    At(int),
    /// Not a header, with the outcome.
    Stop(Outcome),
}

/// Looks for a header at `next`, and behind it past blocks of zeros if they are
/// ignored.
pub open spec fn land(
    a: Seq<u8>,
    next: int,
    ignore_zeros: bool,
    members: MembersView,
) -> Landing
    decreases a.len() - next,
{
    if next > a.len() {
        Landing::Stop(Outcome { result: Err(TarError::SkipEof), pos: a.len() as int, next })
    } else if next == a.len() {
        Landing::Stop(Outcome { result: no_entry(members), pos: next, next })
    } else if next + 512 > a.len() {
        Landing::Stop(Outcome { result: Err(TarError::ShortBlock), pos: a.len() as int, next })
    } else if !all_zero(a.subrange(next, next + 512)) {
        Landing::At(next)
    } else if ignore_zeros {
        land(a, next + 512, ignore_zeros, members)
    } else {
        Landing::Stop(Outcome { result: no_entry(members), pos: next + 512, next })
    }
}

/// The smaller of two integers.
pub open spec fn least(x: int, y: int) -> int {
    if x <= y {
        x
    } else {
        y
    }
}

/// What a sparse entry comes to whose next extension header is due at `pos`.
pub open spec fn extension_outcome(
    a: Seq<u8>,
    pos: int,
    next: int,
    entry: EntryView,
    list: SparseView,
) -> Outcome
    decreases a.len() - pos,
{
    if pos >= a.len() {
        Outcome { result: Err(TarError::NoExtension), pos, next }
    } else if pos + 512 > a.len() {
        Outcome { result: Err(TarError::ShortBlock), pos: a.len() as int, next }
    } else {
        match extension_listing(entry, list, a.subrange(pos, pos + 512)) {
            Listing::More(list) => extension_outcome(a, pos + 512, next + 512, entry, list),
            Listing::Ready(result) => Outcome { result, pos: pos + 512, next: next + 512 },
        }
    }
}

/// What an entry comes to that describes itself.
pub open spec fn entry_outcome(a: Seq<u8>, pos: int, next: int, entry: EntryView) -> Outcome {
    match header_listing(entry) {
        Listing::More(list) => extension_outcome(a, pos, next, entry, list),
        Listing::Ready(result) => Outcome { result, pos, next },
    }
}

/// The entry of the archive `a` that comes next where a header is due at
/// `next`, and `members` were seen before it.
pub open spec fn next_outcome(
    a: Seq<u8>,
    next: int,
    raw: bool,
    options: Options,
    members: MembersView,
) -> Outcome
    decreases members.missing(),
{
    match land(a, next, options.ignore_zeros, members) {
        Landing::Stop(outcome) => outcome,
        Landing::At(at) => {
            let file = at + 512;
            match raw_entry(a.subrange(at, file), at, options) {
                Err(e) => Outcome { result: Err(e), pos: file, next: file },
                Ok(entry) => {
                    let behind = file + padded(entry.size as int);
                    match (raw, member_kind(entry.header)) {
                        (true, _) => Outcome { result: Ok(Some(entry)), pos: file, next: behind },
                        (false, None) => entry_outcome(
                            a,
                            file,
                            behind,
                            EntryView { members, ..entry },
                        ),
                        (false, Some(kind)) => if members.has(kind) {
                            Outcome { result: Err(two_of(kind)), pos: file, next: behind }
                        } else {
                            let end = least(file + entry.size, a.len() as int);
                            next_outcome(
                                a,
                                behind,
                                raw,
                                options,
                                members.with(kind, a.subrange(file, end)),
                            )
                        },
                    }
                },
            }
        },
    }
}

/// `true` if an iteration can have come to this phase by reading the first
/// `pos` bytes of the archive `a`.
pub open spec fn tracks(m: Machine, a: Seq<u8>, pos: int) -> bool {
    &&& m.wf()
    &&& 0 <= pos <= a.len()
    &&& match m.phase {
        Phase::Seeking { .. } => pos <= m.next,
        Phase::Skipping { left, .. } => pos + left == m.next,
        Phase::Header { buf, .. } => pos == m.next + buf.len() && buf == a.subrange(m.next, pos),
        Phase::Contents { left, .. } => pos + left <= m.next,
        Phase::Extension { buf, .. } => buf.len() <= pos && buf == a.subrange(
            pos - buf.len(),
            pos,
        ),
        _ => true,
    }
}

/// What the search for an entry of the archive `a` comes to from here.
pub open spec fn outcome(m: Machine, a: Seq<u8>, pos: int) -> Outcome {
    match m.phase {
        Phase::NotPolled => next_outcome(a, m.next, m.raw, m.options, MembersView::none()),
        Phase::Seeking { members } | Phase::Skipping { members, .. } | Phase::Header {
            members,
            ..
        } => next_outcome(a, m.next, m.raw, m.options, members),
        Phase::Contents { members, kind, left, data } => {
            let end = least(pos + left, a.len() as int);
            next_outcome(
                a,
                m.next,
                m.raw,
                m.options,
                members.with(kind, data + a.subrange(pos, end)),
            )
        },
        Phase::Extension { entry, list, buf } => extension_outcome(
            a,
            pos - buf.len(),
            m.next,
            entry,
            list,
        ),
        Phase::Done => Outcome { result: Ok(None), pos, next: m.next },
    }
}

/// An iteration after a search that came to this.
pub open spec fn after(m: Machine, o: Outcome) -> Machine {
    Machine {
        next: o.next,
        phase: if o.result is Err || m.phase is Done {
            Phase::Done
        } else {
            Phase::NotPolled
        },
        ..m
    }
}

/// The result of a search as it is handed out.
pub open spec fn answer(result: Result<Option<EntryView>, TarError>) -> ProgressView {
    ProgressView::Ready(
        match result {
            Ok(Some(entry)) => Some(Ok(entry)),
            Ok(None) => None,
            Err(e) => Some(Err(e)),
        },
    )
}

/// Being told the position changes nothing about what a search comes to.
pub proof fn law_located(m: Machine, a: Seq<u8>, pos: int)
    requires
        tracks(m, a, pos),
        m.phase is Seeking,
    ensures
        tracks(m.located(pos), a, pos),
        outcome(m.located(pos), a, pos) == outcome(m, a, pos),
{
    if pos == m.next {
        assert(a.subrange(pos, pos) =~= Seq::<u8>::empty());
    }
}

/// `true` if the archive `a`, of which `pos` bytes were read, can answer a read
/// of the iteration with `n` bytes: at least one and no more than asked for,
/// or none at the end of the archive.
pub open spec fn can_read(m: Machine, a: Seq<u8>, pos: int, n: int) -> bool {
    &&& m.request() matches Request::Read(want) && 0 <= n <= want
    &&& pos + n <= a.len()
    &&& n == 0 ==> pos == a.len()
    &&& m.read(a.subrange(pos, pos + n)).0.next <= u64::MAX
}

/// `true` if a read of `n` bytes changes nothing about what the search for an
/// entry comes to, and brings nothing else where it brings the answer.
pub open spec fn read_agrees(m: Machine, a: Seq<u8>, pos: int, n: int) -> bool {
    let (then, progress) = m.read(a.subrange(pos, pos + n));
    let o = outcome(m, a, pos);
    match progress {
        ProgressView::Pending => {
            &&& tracks(then, a, pos + n)
            &&& outcome(then, a, pos + n) == o
            &&& then.raw == m.raw
            &&& then.options == m.options
        },
        ProgressView::Ready(_) => {
            &&& progress == answer(o.result)
            &&& then == after(m, o)
            &&& pos + n == o.pos
        },
    }
}

/// A read changes nothing about what a search comes to, however many bytes it
/// brings; and once a read brings the answer, it is what the search comes to.
pub proof fn law_read(m: Machine, a: Seq<u8>, pos: int, n: int)
    requires
        tracks(m, a, pos),
        can_read(m, a, pos, n),
    ensures
        read_agrees(m, a, pos, n),
        m.read(a.subrange(pos, pos + n)).0.wf(),
{
    law_read_keeps_wf(m, a.subrange(pos, pos + n));
    match m.phase {
        Phase::Skipping { .. } => lemma_read_skipping(m, a, pos, n),
        Phase::Header { .. } => lemma_read_header(m, a, pos, n),
        Phase::Contents { .. } => lemma_read_contents(m, a, pos, n),
        Phase::Extension { .. } => lemma_read_extension(m, a, pos, n),
        _ => {},
    }
}

proof fn lemma_read_skipping(m: Machine, a: Seq<u8>, pos: int, n: int)
    requires
        tracks(m, a, pos),
        can_read(m, a, pos, n),
        m.phase is Skipping,
    ensures
        read_agrees(m, a, pos, n),
{
    if m.next <= a.len() {
        assert(a.subrange(m.next, m.next) =~= Seq::<u8>::empty());
    }
}

proof fn lemma_read_contents(m: Machine, a: Seq<u8>, pos: int, n: int)
    requires
        tracks(m, a, pos),
        can_read(m, a, pos, n),
        m.phase is Contents,
    ensures
        read_agrees(m, a, pos, n),
{
    let chunk = a.subrange(pos, pos + n);
    if let Phase::Contents { members, kind, left, data } = m.phase {
        let end = least(pos + left, a.len() as int);
        assert((data + chunk) + a.subrange(pos + n, end) =~= data + a.subrange(pos, end));
        if n == 0 || n == left {
            assert(data + chunk =~= data + a.subrange(pos, end));
        }
    }
}

proof fn lemma_read_extension(m: Machine, a: Seq<u8>, pos: int, n: int)
    requires
        tracks(m, a, pos),
        can_read(m, a, pos, n),
        m.phase is Extension,
        m.read(a.subrange(pos, pos + n)).0.wf(),
    ensures
        read_agrees(m, a, pos, n),
{
    let chunk = a.subrange(pos, pos + n);
    if let Phase::Extension { entry, list, buf } = m.phase {
        assert(buf + chunk =~= a.subrange(pos - buf.len(), pos + n));
        assert(a.subrange(pos + n, pos + n) =~= Seq::<u8>::empty());
    }
}

#[verifier::spinoff_prover]
#[verifier::rlimit(60)]
proof fn lemma_read_header(m: Machine, a: Seq<u8>, pos: int, n: int)
    requires
        tracks(m, a, pos),
        can_read(m, a, pos, n),
        m.phase is Header,
        m.read(a.subrange(pos, pos + n)).0.wf(),
    ensures
        read_agrees(m, a, pos, n),
{
    let chunk = a.subrange(pos, pos + n);
    if let Phase::Header { members, buf } = m.phase {
        let block = buf + chunk;
        assert(block =~= a.subrange(m.next, pos + n));
        let file = m.next + 512;
        if n == 0 {
            assert(land(a, m.next, m.options.ignore_zeros, members) is Stop);
        } else if block.len() < 512 {
        } else if all_zero(block) {
            if m.options.ignore_zeros {
                assert(land(a, m.next, true, members) == land(a, file, true, members));
            }
        } else {
            assert(land(a, m.next, m.options.ignore_zeros, members) == Landing::At(m.next));
            if let Ok(entry) = raw_entry(block, m.next, m.options) {
                assert(padded(entry.size as int) >= entry.size);
                assert(a.subrange(file, file) =~= Seq::<u8>::empty());
                let end = least(file + entry.size, a.len() as int);
                assert(Seq::<u8>::empty() + a.subrange(file, end) =~= a.subrange(file, end));
            }
        }
    }
}

/// What becomes of an iteration that is asked for an entry.
#[verifier::ext_equal]
pub ghost enum Drive {
    /// The archive cannot have been read like that.
    Impossible,
    /// More of the archive is to be read.
    Pending(Machine, int),
    /// The answer has come.
    Ready(Machine, int, ProgressView),
}

/// What becomes of an iteration that is asked for an entry of the archive `a`
/// when `pos` bytes of it were read, if the reads bring so many bytes each.
pub open spec fn drive(m: Machine, a: Seq<u8>, pos: int, reads: Seq<int>) -> Drive
    decreases
            reads.len(),
            if m.request() is Position {
                1int
            } else {
                0int
            },
{
    match m.request() {
        Request::Nothing => Drive::Ready(m, pos, ProgressView::Ready(None)),
        Request::Position => if pos > m.next {
            Drive::Impossible
        } else {
            drive(m.polled().located(pos), a, pos, reads)
        },
        Request::Read(_) => if reads.len() == 0 {
            Drive::Pending(m, pos)
        } else if !can_read(m, a, pos, reads[0]) {
            Drive::Impossible
        } else {
            let (then, progress) = m.read(a.subrange(pos, pos + reads[0]));
            match progress {
                ProgressView::Pending => drive(then, a, pos + reads[0], reads.skip(1)),
                ProgressView::Ready(_) => Drive::Ready(then, pos + reads[0], progress),
            }
        },
    }
}

/// In whatever pieces the archive is read, the answer is the one that the bytes
/// of the archive determine, and so are the bytes read and the iteration as it
/// is left for the next entry.
pub proof fn law_pieces_do_not_matter(m: Machine, a: Seq<u8>, pos: int, reads: Seq<int>)
    requires
        tracks(m, a, pos),
    ensures
        drive(m, a, pos, reads) matches Drive::Ready(then, read, progress) ==> {
            let o = outcome(m, a, pos);
            progress == answer(o.result) && read == o.pos && then == after(m, o)
        },
    decreases
            reads.len(),
            if m.request() is Position {
                1int
            } else {
                0int
            },
{
    match m.request() {
        Request::Nothing => {},
        Request::Position => if pos <= m.next {
            assert(outcome(m.polled(), a, pos) == outcome(m, a, pos));
            law_located(m.polled(), a, pos);
            law_pieces_do_not_matter(m.polled().located(pos), a, pos, reads);
        },
        Request::Read(_) => if reads.len() > 0 && can_read(m, a, pos, reads[0]) {
            law_read(m, a, pos, reads[0]);
            let (then, progress) = m.read(a.subrange(pos, pos + reads[0]));
            if progress is Pending {
                law_pieces_do_not_matter(then, a, pos + reads[0], reads.skip(1));
            }
        },
    }
}

/// An iteration can always go on: it asks for the position of the archive before
/// it looks for a header, and else for at least one byte, until it failed.
pub proof fn law_iteration_can_go_on(m: Machine)
    requires
        m.wf(),
    ensures
        match m.request() {
            Request::Position => m.phase is NotPolled || m.phase is Seeking,
            Request::Read(want) => want > 0 && !(m.phase is Done) && !(m.phase is NotPolled),
            Request::Nothing => m.phase is Done,
        },
        m.polled().request() == m.request(),
        m.polled().next == m.next,
        m.polled().raw == m.raw,
        m.polled().options == m.options,
{
}

/// How many kinds of members a search can still come upon.
pub open spec fn still_missing(m: Machine) -> int {
    match m.phase {
        Phase::NotPolled | Phase::Done => 3,
        Phase::Seeking { members } | Phase::Skipping { members, .. } | Phase::Header {
            members,
            ..
        } | Phase::Contents { members, .. } => members.missing() as int,
        Phase::Extension { .. } => 0,
    }
}

proof fn lemma_missing(m: Machine, chunk: Seq<u8>)
    requires
        m.wf(),
        m.request() is Read,
        m.read(chunk).1 is Pending,
    ensures
        still_missing(m.read(chunk).0) <= still_missing(m),
        chunk.len() == 0 ==> still_missing(m.read(chunk).0) < still_missing(m),
{
}

/// An answer comes after no more reads than there are bytes left in the
/// archive, and one for each kind of member that describes a later one.
pub proof fn law_answer_comes(m: Machine, a: Seq<u8>, pos: int, reads: Seq<int>)
    requires
        tracks(m, a, pos),
    ensures
        drive(m, a, pos, reads) is Pending ==> reads.len() <= a.len() - pos + still_missing(m),
    decreases
            reads.len(),
            if m.request() is Position {
                1int
            } else {
                0int
            },
{
    match m.request() {
        Request::Nothing => {},
        Request::Position => if pos <= m.next {
            law_located(m.polled(), a, pos);
            law_answer_comes(m.polled().located(pos), a, pos, reads);
        },
        Request::Read(_) => if reads.len() > 0 && can_read(m, a, pos, reads[0]) {
            law_read(m, a, pos, reads[0]);
            let (then, progress) = m.read(a.subrange(pos, pos + reads[0]));
            if progress is Pending {
                law_answer_comes(then, a, pos + reads[0], reads.skip(1));
                lemma_missing(m, a.subrange(pos, pos + reads[0]));
            }
        },
    }
}

/// The answer is the same however much of the contents of the entry before was
/// read: what is left of them is skipped.
pub proof fn law_unread_contents_do_not_matter(
    m: Machine,
    a: Seq<u8>,
    pos: int,
    reads: Seq<int>,
    other_pos: int,
    other_reads: Seq<int>,
)
    requires
        m.phase is NotPolled,
        tracks(m, a, pos),
        tracks(m, a, other_pos),
    ensures
        (drive(m, a, pos, reads), drive(m, a, other_pos, other_reads)) matches (
            Drive::Ready(then, read, progress),
            Drive::Ready(other_then, other_read, other_progress),
        ) ==> progress == other_progress && read == other_read && then == other_then,
{
    law_pieces_do_not_matter(m, a, pos, reads);
    law_pieces_do_not_matter(m, a, other_pos, other_reads);
}

/// Where zeros are ignored, blocks of zeros in front of a header make no
/// difference.
pub proof fn law_zeros_are_ignored(
    a: Seq<u8>,
    next: int,
    blocks: nat,
    raw: bool,
    options: Options,
    members: MembersView,
)
    requires
        0 <= next,
        next + 512 * blocks <= a.len(),
        options.ignore_zeros,
        all_zero(a.subrange(next, next + 512 * blocks)),
    ensures
        next_outcome(a, next, raw, options, members) == next_outcome(
            a,
            next + 512 * blocks,
            raw,
            options,
            members,
        ),
    decreases blocks,
{
    if blocks > 0 {
        let all = a.subrange(next, next + 512 * blocks);
        let block = a.subrange(next, next + 512);
        let rest = a.subrange(next + 512, next + 512 * blocks);
        assert forall|i: int| 0 <= i < block.len() implies #[trigger] block[i] == 0 by {
            assert(block[i] == all[i]);
        }
        assert forall|i: int| 0 <= i < rest.len() implies #[trigger] rest[i] == 0 by {
            assert(rest[i] == all[i + 512]);
        }
        assert(land(a, next, true, members) == land(a, next + 512, true, members));
        law_zeros_are_ignored(a, next + 512, (blocks - 1) as nat, raw, options, members);
    }
}

/// Where zeros are not ignored, a block of zeros in place of a header ends the
/// archive.
pub proof fn law_zeros_end_the_archive(
    a: Seq<u8>,
    next: int,
    raw: bool,
    options: Options,
    members: MembersView,
)
    requires
        0 <= next,
        next + 512 <= a.len(),
        !options.ignore_zeros,
        all_zero(a.subrange(next, next + 512)),
    ensures
        next_outcome(a, next, raw, options, members).result == no_entry(members),
        next_outcome(a, next, raw, options, members).next == next,
{
}

/// After an error the iteration is over: it asks for nothing, and every further
/// request for an entry is answered with the end.
pub proof fn law_error_ends_the_iteration(m: Machine, chunk: Seq<u8>, then: Machine, e: TarError)
    requires
        (then, ProgressView::Ready(Some(Err(e)))) == m.read(chunk) || (
            then,
            ProgressView::Ready(Some(Err(e))),
        ) == m.settle(Turn::Ready(Err(e))),
    ensures
        then.request() == Request::Nothing,
        then.polled() == then,
        forall|a: Seq<u8>, pos: int, reads: Seq<int>| #[trigger]
            drive(then, a, pos, reads) == Drive::Ready(then, pos, ProgressView::Ready(None)),
{
    assert(then.phase is Done);
}

/// What `land` finds lies where a header is due, in the archive.
proof fn lemma_land(a: Seq<u8>, next: int, ignore_zeros: bool, members: MembersView)
    requires
        0 <= next,
    ensures
        land(a, next, ignore_zeros, members) matches Landing::At(at) ==> {
            &&& next <= at
            &&& !ignore_zeros ==> at == next
            &&& at + 512 <= a.len()
            &&& (at - next) % 512 == 0
            &&& !all_zero(a.subrange(at, at + 512))
        },
        land(a, next, ignore_zeros, members) matches Landing::Stop(o) ==> {
            !(o.result matches Ok(Some(_)))
        },
    decreases a.len() - next,
{
    if next + 512 <= a.len() && all_zero(a.subrange(next, next + 512)) && ignore_zeros {
        lemma_land(a, next + 512, ignore_zeros, members);
    }
}

/// `true` if `e` is an entry whose header stands in the archive `a` at `next`
/// or a number of blocks behind it, with contents that add up.
pub open spec fn well_placed(e: EntryView, a: Seq<u8>, next: int, options: Options) -> bool {
    &&& next <= e.header_pos
    &&& (e.header_pos - next) % 512 == 0
    &&& e.file_pos == e.header_pos + 512
    &&& e.file_pos <= a.len()
    &&& e.header == a.subrange(e.header_pos, e.file_pos)
    &&& !all_zero(e.header)
    &&& stated_sum(e.header) == Some(header_sum(e.header) as u64)
    &&& stated_size(e.header) is Some
    &&& total_len(e.data) == e.size
    &&& stored_len(e.data) == stated_size(e.header).unwrap()
    &&& e.unpack_xattrs == options.unpack_xattrs
    &&& e.preserve_permissions == options.preserve_permissions
    &&& e.preserve_mtime == options.preserve_mtime
}

/// An entry's header stands a number of blocks behind the place where it was
/// expected, adds up to its checksum, and is followed by the contents. The
/// stretches of contents add up to the size of the file, and those that lie
/// in the archive to the size in the header.
///
/// The next header is expected exactly behind the bytes of the entry, rounded
/// up to whole blocks; these follow what was read, which is the header and the
/// extension headers of a sparse entry. The entry's own header stands exactly
/// where it was expected, unless zeros or members that describe the entry lie
/// before it.
pub proof fn law_entry_is_well_placed(
    a: Seq<u8>,
    next: int,
    raw: bool,
    options: Options,
    members: MembersView,
)
    requires
        0 <= next,
    ensures
        ({
            let o = next_outcome(a, next, raw, options, members);
            o.result matches Ok(Some(e)) ==> {
                &&& well_placed(e, a, next, options)
                &&& e.file_pos <= o.pos <= a.len()
                &&& o.next == o.pos + padded(stated_size(e.header).unwrap() as int)
                &&& (o.next - next) % 512 == 0
                &&& raw || type_flag(e.header) != GNU_SPARSE ==> o.pos == e.file_pos
                &&& raw ==> e.size == stated_size(e.header).unwrap() && o.next == e.file_pos + padded(
                    e.size as int,
                )
                &&& !options.ignore_zeros && (raw || member_kind(
                    a.subrange(next, next + 512),
                ) is None) ==> e.header_pos == next
            }
        }),
    decreases members.missing(),
{
    lemma_land(a, next, options.ignore_zeros, members);
    if let Landing::At(at) = land(a, next, options.ignore_zeros, members) {
        let file = at + 512;
        if let Ok(entry) = raw_entry(a.subrange(at, file), at, options) {
            let behind = file + padded(entry.size as int);
            lemma_raw_entry_is_well_placed(a, next, at, options);
            match (raw, member_kind(entry.header)) {
                (false, Some(kind)) => if !members.has(kind) {
                    let end = least(file + entry.size, a.len() as int);
                    let more = members.with(kind, a.subrange(file, end));
                    law_entry_is_well_placed(a, behind, raw, options, more);
                    let o = next_outcome(a, behind, raw, options, more);
                    assert(next_outcome(a, next, raw, options, members) == o);
                    lemma_blocks_add(o.next, behind, next);
                    if let Ok(Some(e)) = o.result {
                        lemma_blocks_add(e.header_pos, behind, next);
                    }
                },
                (false, None) => {
                    let described = EntryView { members, ..entry };
                    lemma_entry_outcome(a, file, behind, next, described, options);
                    let o = entry_outcome(a, file, behind, described);
                    assert(next_outcome(a, next, raw, options, members) == o);
                    lemma_blocks_add(o.next, behind, next);
                },
                (true, _) => {},
            }
        }
    }
}

proof fn lemma_blocks_add(x: int, y: int, z: int)
    ensures
        (x - y) % 512 == 0 && (y - z) % 512 == 0 ==> (x - z) % 512 == 0,
{
}

proof fn lemma_raw_entry_is_well_placed(a: Seq<u8>, next: int, at: int, options: Options)
    requires
        0 <= next <= at,
        at + 512 <= a.len(),
        (at - next) % 512 == 0,
        !all_zero(a.subrange(at, at + 512)),
    ensures
        raw_entry(a.subrange(at, at + 512), at, options) matches Ok(e) ==> {
            &&& well_placed(e, a, next, options)
            &&& e.header_pos == at
            &&& e.size == stated_size(e.header).unwrap()
            &&& padded(e.size as int) >= e.size
            &&& (at + 512 + padded(e.size as int) - next) % 512 == 0
        },
{
    if let Ok(entry) = raw_entry(a.subrange(at, at + 512), at, options) {
        let none = Seq::<EntryIo>::empty();
        lemma_len_push(none, EntryIo::Data(entry.size));
        assert(none.push(EntryIo::Data(entry.size)) =~= entry.data);
        assert(padded(entry.size as int) % 512 == 0);
    }
}

proof fn lemma_entry_outcome(
    a: Seq<u8>,
    pos: int,
    behind: int,
    next: int,
    entry: EntryView,
    options: Options,
)
    requires
        well_placed(entry, a, next, options),
        entry.size == stated_size(entry.header).unwrap(),
        pos <= a.len(),
    ensures
        ({
            let o = entry_outcome(a, pos, behind, entry);
            o.result matches Ok(Some(e)) ==> {
                &&& well_placed(e, a, next, options)
                &&& e.header == entry.header
                &&& e.file_pos == entry.file_pos
                &&& pos <= o.pos <= a.len()
                &&& o.next - behind == o.pos - pos
                &&& (o.next - behind) % 512 == 0
                &&& type_flag(e.header) != GNU_SPARSE ==> o.pos == pos
            }
        }),
{
    let start = SparseView::start(entry.size);
    let ds = descriptors(entry.header, 386, 4);
    assert(tiled(start));
    law_sparse_tiles(start, ds);
    if let Listing::More(list) = header_listing(entry) {
        lemma_extension_outcome(a, pos, behind, next, entry, list, options);
    }
}

proof fn lemma_extension_outcome(
    a: Seq<u8>,
    pos: int,
    behind: int,
    next: int,
    entry: EntryView,
    list: SparseView,
    options: Options,
)
    requires
        well_placed(entry, a, next, options),
        tiled(list),
        list.size == stated_size(entry.header).unwrap(),
    ensures
        ({
            let o = extension_outcome(a, pos, behind, entry, list);
            o.result matches Ok(Some(e)) ==> {
                &&& well_placed(e, a, next, options)
                &&& e.header == entry.header
                &&& e.file_pos == entry.file_pos
                &&& pos <= o.pos <= a.len()
                &&& o.next - behind == o.pos - pos
                &&& (o.next - behind) % 512 == 0
            }
        }),
    decreases a.len() - pos,
{
    if pos + 512 <= a.len() {
        let block = a.subrange(pos, pos + 512);
        law_sparse_tiles(list, descriptors(block, 0, 21));
        if let Listing::More(more) = extension_listing(entry, list, block) {
            lemma_extension_outcome(a, pos + 512, behind + 512, next, entry, more, options);
        }
    }
}

/// In raw mode every header is handed out as an entry of its own, with its
/// contents as one stretch and nothing from other members.
pub proof fn law_raw_entries_are_as_they_stand(
    a: Seq<u8>,
    next: int,
    options: Options,
    members: MembersView,
)
    requires
        0 <= next,
        next + 512 <= a.len(),
        !all_zero(a.subrange(next, next + 512)),
    ensures
        next_outcome(a, next, true, options, members).result == (match raw_entry(
            a.subrange(next, next + 512),
            next,
            options,
        ) {
            Ok(entry) => Ok(Some(entry)),
            Err(e) => Err::<Option<EntryView>, TarError>(e),
        }),
{
}

/// A member that describes a later one is not handed out outside raw mode: its
/// contents go with the entry that comes next.
pub proof fn law_members_describe_the_next_entry(
    a: Seq<u8>,
    next: int,
    options: Options,
    members: MembersView,
    kind: MemberKind,
)
    requires
        0 <= next,
        next + 512 <= a.len(),
        !all_zero(a.subrange(next, next + 512)),
        raw_entry(a.subrange(next, next + 512), next, options) matches Ok(e) && next + 512 + e.size
            <= a.len(),
        member_kind(a.subrange(next, next + 512)) == Some(kind),
    ensures
        ({
            let file = next + 512;
            let size = stated_size(a.subrange(next, file)).unwrap() as int;
            let contents = a.subrange(file, file + size);
            let o = next_outcome(a, next, false, options, members);
            if members.has(kind) {
                o.result == Err::<Option<EntryView>, TarError>(two_of(kind))
            } else {
                o == next_outcome(
                    a,
                    file + padded(size),
                    false,
                    options,
                    members.with(kind, contents),
                )
            }
        }),
{
}

/// An entry that describes itself and is not sparse is handed out as it stands,
/// with what the members before it say of it.
pub proof fn law_plain_entries_are_described_by_members(
    a: Seq<u8>,
    next: int,
    options: Options,
    members: MembersView,
)
    requires
        0 <= next,
        next + 512 <= a.len(),
        !all_zero(a.subrange(next, next + 512)),
        member_kind(a.subrange(next, next + 512)) is None,
        type_flag(a.subrange(next, next + 512)) != GNU_SPARSE,
    ensures
        next_outcome(a, next, false, options, members).result == (match raw_entry(
            a.subrange(next, next + 512),
            next,
            options,
        ) {
            Ok(entry) => Ok(Some(EntryView { members, ..entry })),
            Err(e) => Err::<Option<EntryView>, TarError>(e),
        }),
{
}

/// The header of an entry lies behind all the bytes of the entry before it,
/// rounded up to whole blocks, and a number of blocks behind them. In raw mode,
/// and where zeros are not ignored, it stands exactly there. Headers stay on
/// block boundaries, and what was read never lies past the next header.
#[verifier::spinoff_prover]
#[verifier::rlimit(40)]
pub proof fn law_entries_do_not_overlap(
    a: Seq<u8>,
    next: int,
    raw: bool,
    options: Options,
    members: MembersView,
)
    requires
        0 <= next,
    ensures
        ({
            let first = next_outcome(a, next, raw, options, members);
            let second = next_outcome(a, first.next, raw, options, MembersView::none());
            (first.result, second.result) matches (Ok(Some(e)), Ok(Some(f))) ==> {
                let size = stated_size(e.header).unwrap() as int;
                &&& f.header_pos >= e.file_pos + padded(size)
                &&& (f.header_pos - e.file_pos) % 512 == 0
                &&& raw && !options.ignore_zeros ==> f.header_pos == e.file_pos + padded(size)
                &&& raw ==> e.size == size
                &&& e.file_pos == e.header_pos + 512
                &&& f.file_pos == f.header_pos + 512
                &&& first.pos <= first.next
                &&& second.pos <= second.next
                &&& next % 512 == 0 ==> {
                    &&& e.header_pos % 512 == 0
                    &&& f.header_pos % 512 == 0
                    &&& first.next % 512 == 0
                    &&& second.next % 512 == 0
                }
            }
        }),
{
    law_entry_is_well_placed(a, next, raw, options, members);
    let first = next_outcome(a, next, raw, options, members);
    if let Ok(Some(e)) = first.result {
        law_entry_is_well_placed(a, first.next, raw, options, MembersView::none());
        let second = next_outcome(a, first.next, raw, options, MembersView::none());
        if let Ok(Some(f)) = second.result {
            lemma_blocks_stay(
                next,
                e.header_pos as int,
                first.next,
                f.header_pos as int,
                second.next,
            );
        }
    }
}

/// Places that lie whole blocks behind a first one lie whole blocks apart, and
/// on block boundaries where the first one does.
proof fn lemma_blocks_stay(next: int, header: int, behind: int, other: int, end: int)
    requires
        (header - next) % 512 == 0,
        (behind - next) % 512 == 0,
        (other - behind) % 512 == 0,
        (end - behind) % 512 == 0,
    ensures
        (other - (header + 512)) % 512 == 0,
        next % 512 == 0 ==> {
            &&& header % 512 == 0
            &&& behind % 512 == 0
            &&& other % 512 == 0
            &&& end % 512 == 0
        },
{
}

/// Once an entry was found, the next one is the same however much of the bytes
/// of the entry was read, rounded up to whole blocks: the position can always
/// be told, what is left is skipped, and the answer, the bytes read in the end
/// and the iteration that is left do not differ.
pub proof fn law_next_entry_after_part_of_the_contents(
    m: Machine,
    a: Seq<u8>,
    pos: int,
    part: int,
    other: int,
    reads: Seq<int>,
    other_reads: Seq<int>,
)
    requires
        m.phase is NotPolled,
        tracks(m, a, pos),
        ({
            let o = outcome(m, a, pos);
            &&& o.next <= u64::MAX
            &&& o.result matches Ok(Some(e)) && {
                let size = padded(stated_size(e.header).unwrap() as int);
                &&& 0 <= part <= size
                &&& 0 <= other <= size
                &&& o.pos + part <= a.len()
                &&& o.pos + other <= a.len()
            }
        }),
    ensures
        ({
            let o = outcome(m, a, pos);
            let then = after(m, o);
            &&& tracks(then, a, o.pos + part)
            &&& tracks(then, a, o.pos + other)
            &&& o.pos + part <= then.next
            &&& o.pos + other <= then.next
            &&& outcome(then, a, o.pos + part) == outcome(then, a, o.pos + other)
            &&& (drive(then, a, o.pos + part, reads), drive(
                then,
                a,
                o.pos + other,
                other_reads,
            )) matches (Drive::Ready(m1, read1, progress1), Drive::Ready(m2, read2, progress2))
                ==> progress1 == progress2 && read1 == read2 && m1 == m2
        }),
{
    let o = outcome(m, a, pos);
    let then = after(m, o);
    law_entry_is_well_placed(a, m.next, m.raw, m.options, MembersView::none());
    law_unread_contents_do_not_matter(then, a, o.pos + part, reads, o.pos + other, other_reads);
}

/// At the end of the input there is no entry, and asking again changes nothing:
/// every further request is answered in the same way.
pub proof fn law_end_of_input_is_final(m: Machine, a: Seq<u8>, pos: int, reads: Seq<int>)
    requires
        m.phase is NotPolled,
        tracks(m, a, pos),
        m.next == a.len(),
    ensures
        ({
            let o = outcome(m, a, pos);
            &&& o == (Outcome { result: Ok(None), pos: a.len() as int, next: m.next })
            &&& after(m, o) == m
        }),
        drive(m, a, pos, reads) matches Drive::Ready(then, read, progress) ==> {
            &&& progress == ProgressView::Ready(None)
            &&& then == m
            &&& read == a.len()
        },
{
    law_pieces_do_not_matter(m, a, pos, reads);
}

/// Where an iteration came to the end because the archive has no more bytes, it
/// comes to the same end again, with the position and the place of the next
/// header as they are.
pub proof fn law_end_comes_again(a: Seq<u8>, next: int, raw: bool, options: Options)
    requires
        0 <= next,
        ({
            let o = next_outcome(a, next, raw, options, MembersView::none());
            o.result == Ok::<Option<EntryView>, TarError>(None) && o.pos == o.next
        }),
    ensures
        ({
            let o = next_outcome(a, next, raw, options, MembersView::none());
            &&& o.next == a.len()
            &&& next_outcome(a, o.next, raw, options, MembersView::none()) == o
        }),
{
    lemma_end(a, next, raw, options, MembersView::none());
}

/// Where an iteration ends without an error, it has seen no members that
/// describe a later entry, and it stopped at a block of zeros or at the end.
pub(crate) proof fn lemma_end(a: Seq<u8>, next: int, raw: bool, options: Options, members: MembersView)
    requires
        0 <= next,
        next_outcome(a, next, raw, options, members).result == Ok::<Option<EntryView>, TarError>(
            None,
        ),
    ensures
        ({
            let o = next_outcome(a, next, raw, options, members);
            &&& !members.any()
            &&& land(a, next, options.ignore_zeros, members) == Landing::Stop(o)
            &&& o.pos == o.next && o.next == a.len() || !options.ignore_zeros && o.pos == o.next
                + 512
        }),
    decreases members.missing(),
{
    lemma_land(a, next, options.ignore_zeros, members);
    lemma_land_end(a, next, options.ignore_zeros, members);
    if let Landing::At(at) = land(a, next, options.ignore_zeros, members) {
        let file = at + 512;
        if let Ok(entry) = raw_entry(a.subrange(at, file), at, options) {
            let behind = file + padded(entry.size as int);
            match (raw, member_kind(entry.header)) {
                (false, Some(kind)) => if !members.has(kind) {
                    let end = least(file + entry.size, a.len() as int);
                    let more = members.with(kind, a.subrange(file, end));
                    assert(next_outcome(a, behind, raw, options, more) == next_outcome(
                        a,
                        next,
                        raw,
                        options,
                        members,
                    ));
                    lemma_end(a, behind, raw, options, more);
                },
                (false, None) => {
                    let described = EntryView { members, ..entry };
                    if let Listing::More(list) = header_listing(described) {
                        lemma_extension_has_an_end(a, file, behind, described, list);
                    }
                },
                (true, _) => {},
            }
        }
    }
}

proof fn lemma_land_end(a: Seq<u8>, next: int, ignore_zeros: bool, members: MembersView)
    requires
        0 <= next,
    ensures
        land(a, next, ignore_zeros, members) matches Landing::Stop(o) ==> (o.result == Ok::<
            Option<EntryView>,
            TarError,
        >(None) ==> {
            &&& !members.any()
            &&& o.pos == o.next && o.next == a.len() || !ignore_zeros && o.pos == o.next + 512
        }),
    decreases a.len() - next,
{
    if next + 512 <= a.len() && all_zero(a.subrange(next, next + 512)) && ignore_zeros {
        lemma_land_end(a, next + 512, ignore_zeros, members);
    }
}

proof fn lemma_extension_has_an_end(
    a: Seq<u8>,
    pos: int,
    next: int,
    entry: EntryView,
    list: SparseView,
)
    ensures
        extension_outcome(a, pos, next, entry, list).result != Ok::<Option<EntryView>, TarError>(
            None,
        ),
    decreases a.len() - pos,
{
    if pos + 512 <= a.len() {
        if let Listing::More(more) = extension_listing(entry, list, a.subrange(pos, pos + 512)) {
            lemma_extension_has_an_end(a, pos + 512, next + 512, entry, more);
        }
    }
}

} // verus!
