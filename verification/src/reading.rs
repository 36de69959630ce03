//! What an archive holds from one place to its end.
//!
//! A reading is what an iteration hands out until it ends. The laws say that
//! an iteration hands out just that, and how archives that follow each other
//! are read.

use crate::entry::{EntryView, MemberKind, MembersView, Options};
use crate::error::TarError;
use crate::header::{all_zero, stated_size};
use crate::machine::{
    extension_listing, header_listing, member_kind, padded, raw_entry, Listing, Machine, ProgressView,
};
use crate::outcome::{
    drive, entry_outcome, extension_outcome, land, law_entry_is_well_placed,
    law_pieces_do_not_matter, least, lemma_end, next_outcome, tracks, Drive, Landing, Outcome,
};
use crate::sparse::SparseView;
use vstd::prelude::*;

verus! {

/// The entries of an archive, and how they end.
#[verifier::ext_equal]
pub ghost struct Reading {
    /// The entries in their order.
    pub entries: Seq<EntryView>,
    /// The end of the archive, or an error.
    pub end: Result<(), TarError>,
}

impl Reading {
    /// With an entry before the others.
    pub open spec fn after_entry(self, e: EntryView) -> Reading {
        Reading { entries: seq![e] + self.entries, end: self.end }
    }

    /// With other entries before these.
    pub open spec fn after_entries(self, entries: Seq<EntryView>) -> Reading {
        Reading { entries: entries + self.entries, end: self.end }
    }

    /// The same, `n` bytes further on in an archive.
    pub open spec fn moved(self, n: int) -> Reading {
        Reading { entries: self.entries.map_values(|e: EntryView| moved(e, n)), end: self.end }
    }
}

/// An entry that stands `n` bytes further on in an archive.
pub open spec fn moved(e: EntryView, n: int) -> EntryView {
    EntryView { header_pos: e.header_pos + n, file_pos: e.file_pos + n, ..e }
}

/// What is read of the archive `a` where a header is due at `next`.
pub open spec fn reading(a: Seq<u8>, next: int, raw: bool, options: Options) -> Reading
    decreases room(a, next),
{
    let o = next_outcome(a, next, raw, options, MembersView::none());
    if next < 0 {
        Reading { entries: Seq::empty(), end: Ok(()) }
    } else {
        match o.result {
            Err(e) => Reading { entries: Seq::empty(), end: Err(e) },
            Ok(None) => Reading { entries: Seq::empty(), end: Ok(()) },
            Ok(Some(e)) => {
                proof {
                    law_entries_take_room(a, next, raw, options);
                }
                reading(a, o.next, raw, options).after_entry(e)
            },
        }
    }
}

/// How much of an archive is left for entries; it shrinks with each one.
pub open spec fn room(a: Seq<u8>, next: int) -> int {
    if next <= a.len() {
        a.len() - next + 1
    } else {
        0
    }
}

/// Each entry takes room, so that an archive holds a limited number of them.
pub proof fn law_entries_take_room(a: Seq<u8>, next: int, raw: bool, options: Options)
    requires
        0 <= next,
    ensures
        ({
            let o = next_outcome(a, next, raw, options, MembersView::none());
            o.result matches Ok(Some(e)) ==> next < o.next && 0 <= room(a, o.next) < room(a, next)
        }),
{
    law_entry_is_well_placed(a, next, raw, options, MembersView::none());
}

/// An iteration hands out the entries of the reading one after the other, and
/// ends as it does, in whatever pieces the archive is read.
pub proof fn law_iteration_hands_out_the_reading(
    m: Machine,
    a: Seq<u8>,
    pos: int,
    reads: Seq<int>,
)
    requires
        m.phase is NotPolled,
        tracks(m, a, pos),
    ensures
        drive(m, a, pos, reads) matches Drive::Ready(after, _, progress) ==> {
            let here = reading(a, m.next, m.raw, m.options);
            match progress {
                ProgressView::Pending => false,
                ProgressView::Ready(None) => here == (Reading {
                    entries: Seq::empty(),
                    end: Ok(()),
                }),
                ProgressView::Ready(Some(Err(e))) => here == (Reading {
                    entries: Seq::empty(),
                    end: Err(e),
                }),
                ProgressView::Ready(Some(Ok(e))) => {
                    &&& after.phase is NotPolled
                    &&& after.raw == m.raw
                    &&& after.options == m.options
                    &&& here == reading(a, after.next, m.raw, m.options).after_entry(e)
                },
            }
        },
{
    law_pieces_do_not_matter(m, a, pos, reads);
}

/// `true` if these entries of an archive of `len` bytes stand in their order
/// from `next` on: each behind all the bytes of those before it, rounded up to
/// whole blocks, on block boundaries counted from `next`, and with the contents
/// behind the header.
pub open spec fn in_order(entries: Seq<EntryView>, next: int, len: int) -> bool {
    &&& forall|i: int|
        0 <= i < entries.len() ==> {
            &&& next <= (#[trigger] entries[i]).header_pos
            &&& (entries[i].header_pos - next) % 512 == 0
            &&& entries[i].file_pos == entries[i].header_pos + 512
            &&& entries[i].file_pos <= len
        }
    &&& forall|i: int, j: int|
        0 <= i < j < entries.len() ==> (#[trigger] entries[i]).file_pos + padded(
            stated_size(entries[i].header).unwrap() as int,
        ) <= (#[trigger] entries[j]).header_pos
}

/// The entries of an archive stand in their order.
pub proof fn law_entries_stand_in_order(a: Seq<u8>, next: int, raw: bool, options: Options)
    requires
        0 <= next,
    ensures
        in_order(reading(a, next, raw, options).entries, next, a.len() as int),
    decreases room(a, next),
{
    let o = next_outcome(a, next, raw, options, MembersView::none());
    if let Ok(Some(e)) = o.result {
        law_entries_take_room(a, next, raw, options);
        law_entry_is_well_placed(a, next, raw, options, MembersView::none());
        law_entries_stand_in_order(a, o.next, raw, options);
        let more = reading(a, o.next, raw, options).entries;
        lemma_in_order(e, more, next, o.next, a.len() as int);
    }
}

proof fn lemma_in_order(e: EntryView, more: Seq<EntryView>, next: int, behind: int, len: int)
    requires
        in_order(more, behind, len),
        next <= e.header_pos,
        next <= behind,
        (e.header_pos - next) % 512 == 0,
        (behind - next) % 512 == 0,
        e.file_pos == e.header_pos + 512,
        e.file_pos <= len,
        e.file_pos + padded(stated_size(e.header).unwrap() as int) <= behind,
    ensures
        in_order(seq![e] + more, next, len),
{
    let es = seq![e] + more;
    assert(forall|i: int| 0 < i < es.len() ==> es[i] == more[i - 1]);
}

/// Archives that follow each other are read as one where zeros are ignored: if
/// the first one, alone, is read to its end without an error, what is read of
/// the two are its entries, and then what is read of the second one alone, with
/// every place further on by the length of the first.
pub proof fn law_joined_archives_are_read_as_one(
    a: Seq<u8>,
    b: Seq<u8>,
    raw: bool,
    options: Options,
)
    requires
        options.ignore_zeros,
        reading(a, 0, raw, options).end is Ok,
    ensures
        reading(a + b, 0, raw, options) == reading(b, 0, raw, options).moved(
            a.len() as int,
        ).after_entries(reading(a, 0, raw, options).entries),
{
    lemma_first_reading(a, b, 0, raw, options);
    lemma_moved_reading(a, b, 0, raw, options);
}

proof fn lemma_first_reading(a: Seq<u8>, b: Seq<u8>, next: int, raw: bool, options: Options)
    requires
        0 <= next,
        options.ignore_zeros,
        reading(a, next, raw, options).end is Ok,
    ensures
        reading(a + b, next, raw, options) == reading(
            a + b,
            a.len() as int,
            raw,
            options,
        ).after_entries(reading(a, next, raw, options).entries),
    decreases room(a, next),
{
    let none = MembersView::none();
    let o = next_outcome(a, next, raw, options, none);
    let rest = reading(a + b, a.len() as int, raw, options);
    if let Ok(Some(e)) = o.result {
        law_entries_take_room(a, next, raw, options);
        lemma_first_outcome(a, b, next, raw, options, none);
        lemma_first_reading(a, b, o.next, raw, options);
        let more = reading(a, o.next, raw, options).entries;
        assert(seq![e] + (more + rest.entries) =~= (seq![e] + more) + rest.entries);
    } else {
        lemma_end(a, next, raw, options, none);
        lemma_first_land(a, b, next, none);
        assert(next_outcome(a + b, next, raw, options, none) == next_outcome(
            a + b,
            a.len() as int,
            raw,
            options,
            none,
        ));
        assert(Seq::<EntryView>::empty() + rest.entries =~= rest.entries);
    }
}

/// The search in the first of two archives lands where it does in that one
/// alone, or goes on behind it.
proof fn lemma_first_land(a: Seq<u8>, b: Seq<u8>, next: int, members: MembersView)
    requires
        0 <= next,
    ensures
        match land(a, next, true, members) {
            Landing::At(at) => land(a + b, next, true, members) == Landing::At(at),
            Landing::Stop(o) => o.result is Ok ==> land(a + b, next, true, members) == land(
                a + b,
                a.len() as int,
                true,
                members,
            ),
        },
    decreases a.len() - next,
{
    if next + 512 <= a.len() {
        assert((a + b).subrange(next, next + 512) =~= a.subrange(next, next + 512));
        if all_zero(a.subrange(next, next + 512)) {
            lemma_first_land(a, b, next + 512, members);
        }
    }
}

/// An entry that is found in an archive is found there whatever follows it.
#[verifier::spinoff_prover]
#[verifier::rlimit(40)]
proof fn lemma_first_outcome(
    a: Seq<u8>,
    b: Seq<u8>,
    next: int,
    raw: bool,
    options: Options,
    members: MembersView,
)
    requires
        0 <= next,
        options.ignore_zeros,
        next_outcome(a, next, raw, options, members).result matches Ok(Some(_)),
    ensures
        next_outcome(a + b, next, raw, options, members) == next_outcome(
            a,
            next,
            raw,
            options,
            members,
        ),
    decreases members.missing(),
{
    lemma_first_land(a, b, next, members);
    law_entry_is_well_placed(a, next, raw, options, members);
    lemma_land_place(a, next, members);
    if let Landing::At(at) = land(a, next, true, members) {
        let file = at + 512;
        assert((a + b).subrange(at, file) =~= a.subrange(at, file));
        if let Ok(entry) = raw_entry(a.subrange(at, file), at, options) {
            let behind = file + padded(entry.size as int);
            match (raw, member_kind(entry.header)) {
                (false, Some(kind)) => if !members.has(kind) {
                    let end = least(file + entry.size, a.len() as int);
                    let more = members.with(kind, a.subrange(file, end));
                    law_entry_is_well_placed(a, behind, raw, options, more);
                    assert(end == file + entry.size);
                    assert((a + b).subrange(file, end) =~= a.subrange(file, end));
                    lemma_first_outcome(a, b, behind, raw, options, more);
                },
                (false, None) => {
                    let described = EntryView { members, ..entry };
                    if let Listing::More(list) = header_listing(described) {
                        lemma_first_extension(a, b, file, behind, described, list);
                    }
                },
                (true, _) => {},
            }
        }
    }
}

proof fn lemma_land_place(a: Seq<u8>, next: int, members: MembersView)
    requires
        0 <= next,
    ensures
        match land(a, next, true, members) {
            Landing::At(at) => next <= at && at + 512 <= a.len(),
            Landing::Stop(o) => !(o.result matches Ok(Some(_))),
        },
    decreases a.len() - next,
{
    if next + 512 <= a.len() && all_zero(a.subrange(next, next + 512)) {
        lemma_land_place(a, next + 512, members);
    }
}

proof fn lemma_first_extension(
    a: Seq<u8>,
    b: Seq<u8>,
    pos: int,
    next: int,
    entry: EntryView,
    list: SparseView,
)
    requires
        0 <= pos,
        extension_outcome(a, pos, next, entry, list).result matches Ok(Some(_)),
    ensures
        extension_outcome(a + b, pos, next, entry, list) == extension_outcome(
            a,
            pos,
            next,
            entry,
            list,
        ),
    decreases a.len() - pos,
{
    if pos + 512 <= a.len() {
        let block = a.subrange(pos, pos + 512);
        assert((a + b).subrange(pos, pos + 512) =~= block);
        if let Listing::More(more) = extension_listing(entry, list, block) {
            lemma_first_extension(a, b, pos + 512, next + 512, entry, more);
        }
    }
}

/// What a search comes to, `n` bytes further on in an archive.
pub open spec fn moved_outcome(o: Outcome, n: int) -> Outcome {
    Outcome {
        result: match o.result {
            Ok(Some(e)) => Ok(Some(moved(e, n))),
            Ok(None) => Ok(None),
            Err(e) => Err(e),
        },
        pos: o.pos + n,
        next: o.next + n,
    }
}

proof fn lemma_moved_reading(a: Seq<u8>, b: Seq<u8>, next: int, raw: bool, options: Options)
    requires
        0 <= next,
    ensures
        reading(a + b, a.len() + next, raw, options) == reading(b, next, raw, options).moved(
            a.len() as int,
        ),
    decreases room(b, next),
{
    let n = a.len() as int;
    let none = MembersView::none();
    let o = next_outcome(b, next, raw, options, none);
    law_search_is_the_same_further_on(a, b, next, raw, options, none);
    if let Ok(Some(e)) = o.result {
        law_entries_take_room(b, next, raw, options);
        lemma_moved_reading(a, b, o.next, raw, options);
        let more = reading(b, o.next, raw, options);
        assert(more.after_entry(e).moved(n) =~= more.moved(n).after_entry(moved(e, n)));
    } else {
        assert(reading(b, next, raw, options).moved(n).entries =~= Seq::empty());
    }
}

/// Where an archive follows other bytes, a search in it comes to the same, with
/// every place further on by so many bytes.
#[verifier::spinoff_prover]
#[verifier::rlimit(40)]
pub proof fn law_search_is_the_same_further_on(
    a: Seq<u8>,
    b: Seq<u8>,
    next: int,
    raw: bool,
    options: Options,
    members: MembersView,
)
    requires
        0 <= next,
    ensures
        next_outcome(a + b, a.len() + next, raw, options, members) == moved_outcome(
            next_outcome(b, next, raw, options, members),
            a.len() as int,
        ),
    decreases members.missing(),
{
    lemma_moved_land(a, b, next, options.ignore_zeros, members);
    if let Landing::At(at) = land(b, next, options.ignore_zeros, members) {
        if let Ok(entry) = raw_entry(b.subrange(at, at + 512), at, options) {
            match (raw, member_kind(entry.header)) {
                (false, Some(kind)) => if !members.has(kind) {
                    let file = at + 512;
                    let behind = file + padded(entry.size as int);
                    let end = least(file + entry.size, b.len() as int);
                    let more = members.with(kind, b.subrange(file, end));
                    law_search_is_the_same_further_on(a, b, behind, raw, options, more);
                    lemma_moved_member(a, b, next, options, members, at, entry, kind);
                } else {
                    lemma_moved_other(a, b, next, raw, options, members, at);
                },
                (false, None) => lemma_moved_plain(a, b, next, options, members, at, entry),
                (true, _) => lemma_moved_other(a, b, next, raw, options, members, at),
            }
        } else {
            lemma_moved_other(a, b, next, raw, options, members, at);
        }
    }
}

/// `true` if a search in `b` lands at `at`, and one in `a + b` so much further
/// on.
spec fn both_land(
    a: Seq<u8>,
    b: Seq<u8>,
    next: int,
    options: Options,
    members: MembersView,
    at: int,
) -> bool {
    &&& 0 <= next <= at
    &&& at + 512 <= b.len()
    &&& land(b, next, options.ignore_zeros, members) == Landing::At(at)
    &&& land(a + b, a.len() + next, options.ignore_zeros, members) == Landing::At(a.len() + at)
}

#[verifier::spinoff_prover]
#[verifier::rlimit(40)]
proof fn lemma_moved_member(
    a: Seq<u8>,
    b: Seq<u8>,
    next: int,
    options: Options,
    members: MembersView,
    at: int,
    entry: EntryView,
    kind: MemberKind,
)
    requires
        both_land(a, b, next, options, members, at),
        raw_entry(b.subrange(at, at + 512), at, options) == Ok::<EntryView, TarError>(entry),
        member_kind(entry.header) == Some(kind),
        !members.has(kind),
        ({
            let behind = at + 512 + padded(entry.size as int);
            let end = least(at + 512 + entry.size, b.len() as int);
            let more = members.with(kind, b.subrange(at + 512, end));
            next_outcome(a + b, a.len() + behind, false, options, more) == moved_outcome(
                next_outcome(b, behind, false, options, more),
                a.len() as int,
            )
        }),
    ensures
        next_outcome(a + b, a.len() + next, false, options, members) == moved_outcome(
            next_outcome(b, next, false, options, members),
            a.len() as int,
        ),
{
    let n = a.len() as int;
    let file = at + 512;
    let behind = file + padded(entry.size as int);
    let contents = b.subrange(file, least(file + entry.size, b.len() as int));
    lemma_moved_raw_entry(a, b, at, options);
    lemma_moved_contents(a, b, file, entry.size as int);
    lemma_member_is_passed(b, next, options, members, at, entry, kind, behind, contents);
    lemma_member_is_passed(
        a + b,
        n + next,
        options,
        members,
        n + at,
        moved(entry, n),
        kind,
        n + behind,
        contents,
    );
}

proof fn lemma_moved_contents(a: Seq<u8>, b: Seq<u8>, file: int, size: int)
    requires
        0 <= file <= b.len(),
        0 <= size,
    ensures
        (a + b).subrange(a.len() + file, least(a.len() + file + size, (a + b).len() as int))
            == b.subrange(file, least(file + size, b.len() as int)),
{
    let end = least(file + size, b.len() as int);
    assert((a + b).subrange(a.len() + file, a.len() + end) =~= b.subrange(file, end));
}

#[verifier::spinoff_prover]
#[verifier::rlimit(40)]
proof fn lemma_moved_plain(
    a: Seq<u8>,
    b: Seq<u8>,
    next: int,
    options: Options,
    members: MembersView,
    at: int,
    entry: EntryView,
)
    requires
        both_land(a, b, next, options, members, at),
        raw_entry(b.subrange(at, at + 512), at, options) == Ok::<EntryView, TarError>(entry),
        member_kind(entry.header) is None,
    ensures
        next_outcome(a + b, a.len() + next, false, options, members) == moved_outcome(
            next_outcome(b, next, false, options, members),
            a.len() as int,
        ),
{
    let n = a.len() as int;
    let behind = at + 512 + padded(entry.size as int);
    lemma_moved_raw_entry(a, b, at, options);
    lemma_entry_is_found(b, next, options, members, at, entry);
    lemma_entry_is_found(a + b, n + next, options, members, n + at, moved(entry, n));
    lemma_moved_entry(a, b, at + 512, behind, EntryView { members, ..entry });
}

/// What a search comes to that ends with the header it landed at.
proof fn lemma_moved_other(
    a: Seq<u8>,
    b: Seq<u8>,
    next: int,
    raw: bool,
    options: Options,
    members: MembersView,
    at: int,
)
    requires
        both_land(a, b, next, options, members, at),
        raw_entry(b.subrange(at, at + 512), at, options) matches Ok(entry) ==> raw || (
        member_kind(entry.header) matches Some(kind) && members.has(kind)),
    ensures
        next_outcome(a + b, a.len() + next, raw, options, members) == moved_outcome(
            next_outcome(b, next, raw, options, members),
            a.len() as int,
        ),
{
    lemma_moved_raw_entry(a, b, at, options);
}

/// A member that describes a later one is kept, and the search goes on.
proof fn lemma_member_is_passed(
    a: Seq<u8>,
    next: int,
    options: Options,
    members: MembersView,
    at: int,
    entry: EntryView,
    kind: MemberKind,
    behind: int,
    contents: Seq<u8>,
)
    requires
        land(a, next, options.ignore_zeros, members) == Landing::At(at),
        raw_entry(a.subrange(at, at + 512), at, options) == Ok::<EntryView, TarError>(entry),
        member_kind(entry.header) == Some(kind),
        !members.has(kind),
        behind == at + 512 + padded(entry.size as int),
        contents == a.subrange(at + 512, least(at + 512 + entry.size, a.len() as int)),
    ensures
        next_outcome(a, next, false, options, members) == next_outcome(
            a,
            behind,
            false,
            options,
            members.with(kind, contents),
        ),
{
}

/// An entry that describes itself is what the search comes to.
proof fn lemma_entry_is_found(
    a: Seq<u8>,
    next: int,
    options: Options,
    members: MembersView,
    at: int,
    entry: EntryView,
)
    requires
        land(a, next, options.ignore_zeros, members) == Landing::At(at),
        raw_entry(a.subrange(at, at + 512), at, options) == Ok::<EntryView, TarError>(entry),
        member_kind(entry.header) is None,
    ensures
        next_outcome(a, next, false, options, members) == entry_outcome(
            a,
            at + 512,
            at + 512 + padded(entry.size as int),
            EntryView { members, ..entry },
        ),
{
}

proof fn lemma_moved_raw_entry(a: Seq<u8>, b: Seq<u8>, at: int, options: Options)
    requires
        0 <= at,
        at + 512 <= b.len(),
    ensures
        ({
            let n = a.len() as int;
            let there = raw_entry((a + b).subrange(n + at, n + at + 512), n + at, options);
            match raw_entry(b.subrange(at, at + 512), at, options) {
                Ok(entry) => there == Ok::<EntryView, TarError>(moved(entry, n)),
                Err(e) => there == Err::<EntryView, TarError>(e),
            }
        }),
{
    let n = a.len() as int;
    assert((a + b).subrange(n + at, n + at + 512) =~= b.subrange(at, at + 512));
}

proof fn lemma_moved_land(
    a: Seq<u8>,
    b: Seq<u8>,
    next: int,
    ignore_zeros: bool,
    members: MembersView,
)
    requires
        0 <= next,
    ensures
        match land(b, next, ignore_zeros, members) {
            Landing::At(at) => {
                &&& next <= at && at + 512 <= b.len()
                &&& land(a + b, a.len() + next, ignore_zeros, members) == Landing::At(
                    a.len() + at,
                )
            },
            Landing::Stop(o) => {
                &&& !(o.result matches Ok(Some(_)))
                &&& land(a + b, a.len() + next, ignore_zeros, members) == Landing::Stop(
                    moved_outcome(o, a.len() as int),
                )
            },
        },
    decreases b.len() - next,
{
    let n = a.len() as int;
    if next + 512 <= b.len() {
        assert((a + b).subrange(n + next, n + next + 512) =~= b.subrange(next, next + 512));
        if all_zero(b.subrange(next, next + 512)) && ignore_zeros {
            lemma_moved_land(a, b, next + 512, ignore_zeros, members);
        }
    }
}

proof fn lemma_moved_entry(a: Seq<u8>, b: Seq<u8>, pos: int, next: int, entry: EntryView)
    requires
        0 <= pos,
    ensures
        entry_outcome(a + b, a.len() + pos, a.len() + next, moved(entry, a.len() as int))
            == moved_outcome(entry_outcome(b, pos, next, entry), a.len() as int),
{
    if let Listing::More(list) = header_listing(entry) {
        lemma_moved_extension(a, b, pos, next, entry, list);
    }
}

proof fn lemma_moved_extension(
    a: Seq<u8>,
    b: Seq<u8>,
    pos: int,
    next: int,
    entry: EntryView,
    list: SparseView,
)
    requires
        0 <= pos,
    ensures
        extension_outcome(a + b, a.len() + pos, a.len() + next, moved(entry, a.len() as int), list)
            == moved_outcome(extension_outcome(b, pos, next, entry, list), a.len() as int),
    decreases b.len() - pos,
{
    let n = a.len() as int;
    if pos + 512 <= b.len() {
        let block = b.subrange(pos, pos + 512);
        assert((a + b).subrange(n + pos, n + pos + 512) =~= block);
        if let Listing::More(more) = extension_listing(entry, list, block) {
            lemma_moved_extension(a, b, pos + 512, next + 512, entry, more);
        }
    }
}

} // verus!
