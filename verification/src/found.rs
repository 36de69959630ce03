//! What is found where in the bytes of an archive.
//!
//! The laws start from the bytes: from the numbers, types and magics that are
//! written into the headers of an archive, and say what a search comes to.

use crate::entry::{EntryIo, EntryView, MemberKind, MembersView, Options};
use crate::error::{Field, TarError};
use crate::fields::{
    law_sound_header_is_accepted, law_unsound_header_is_refused, no_number, no_octal, octal_at,
    octal_written, sound, sum_with_spaces,
};
use crate::header::{all_zero, gnu_header, ustar_header};
use crate::machine::{extension_listing, header_listing, member_kind, padded, raw_entry, Listing};
use crate::outcome::{
    entry_outcome, extension_outcome, land, least, lemma_end, next_outcome, Landing, Outcome,
};
use crate::sparse::SparseView;
use vstd::prelude::*;

verus! {

/// `true` if a header for `n` bytes stands at `at` in the archive `a`.
pub open spec fn header_at(a: Seq<u8>, at: int, n: int) -> bool {
    &&& 0 <= at
    &&& at + 512 <= a.len()
    &&& sound(a.subrange(at, at + 512), n)
}

/// `true` if the header at `at` has the magic `"ustar  \0"` of GNU.
pub open spec fn gnu_at(a: Seq<u8>, at: int) -> bool {
    &&& a[at + 257] == 0x75
    &&& a[at + 258] == 0x73
    &&& a[at + 259] == 0x74
    &&& a[at + 260] == 0x61
    &&& a[at + 261] == 0x72
    &&& a[at + 262] == 0x20
    &&& a[at + 263] == 0x20
    &&& a[at + 264] == 0x00
}

/// `true` if the header at `at` has the magic `"ustar\0"` and `"00"` of POSIX.
pub open spec fn ustar_at(a: Seq<u8>, at: int) -> bool {
    &&& a[at + 257] == 0x75
    &&& a[at + 258] == 0x73
    &&& a[at + 259] == 0x74
    &&& a[at + 260] == 0x61
    &&& a[at + 261] == 0x72
    &&& a[at + 262] == 0x00
    &&& a[at + 263] == 0x30
    &&& a[at + 264] == 0x30
}

/// `true` for the header of a member with a long path name.
pub open spec fn long_name_at(a: Seq<u8>, at: int) -> bool {
    gnu_at(a, at) && a[at + 156] == 0x4c
}

/// `true` for the header of a member with a long link name.
pub open spec fn long_link_at(a: Seq<u8>, at: int) -> bool {
    gnu_at(a, at) && a[at + 156] == 0x4b
}

/// `true` for the header of a member with pax extensions.
pub open spec fn pax_at(a: Seq<u8>, at: int) -> bool {
    ustar_at(a, at) && a[at + 156] == 0x78
}

/// `true` if `end` is the first block boundary behind `n` bytes that start at
/// `from`, which is one itself.
pub open spec fn rounded(from: int, n: int, end: int) -> bool {
    &&& from + n <= end < from + n + 512
    &&& (end - from) % 512 == 0
}

/// `true` if `e` has the header that stands at `at` in the archive `a`, and its
/// contents behind it, and is to be unpacked as `options` say.
pub open spec fn taken_from(e: EntryView, a: Seq<u8>, at: int, options: Options) -> bool {
    &&& e.header_pos == at
    &&& e.file_pos == at + 512
    &&& e.header == a.subrange(at, at + 512)
    &&& e.unpack_xattrs == options.unpack_xattrs
    &&& e.preserve_permissions == options.preserve_permissions
    &&& e.preserve_mtime == options.preserve_mtime
}

/// There is a byte in a header that is not zero: a digit of its checksum.
pub(crate) proof fn lemma_header_is_not_zero(a: Seq<u8>, at: int, n: int)
    requires
        header_at(a, at, n),
    ensures
        !all_zero(a.subrange(at, at + 512)),
{
    let h = a.subrange(at, at + 512);
    let s = h.subrange(148, 156);
    let sum = sum_with_spaces(h);
    let (lo, hi, end) = choose|lo: int, hi: int, end: int| #[trigger]
        octal_at(s, sum, lo, hi, end);
    assert(s[lo] >= 0x30) by {
        let q = sum / vstd::arithmetic::power::pow(8, (hi - 1 - lo) as nat);
        assert(q % 8 >= 0);
    }
    assert(h[148 + lo] == s[lo]);
}

proof fn lemma_padded(from: int, n: int, end: int)
    requires
        0 <= n,
    ensures
        rounded(from, n, end) <==> end == from + padded(n),
{
}

/// What is said of a header by its bytes is said of it as a block.
pub(crate) proof fn lemma_kind(a: Seq<u8>, at: int)
    requires
        0 <= at,
        at + 512 <= a.len(),
    ensures
        ({
            let h = a.subrange(at, at + 512);
            &&& gnu_header(h) <==> gnu_at(a, at)
            &&& ustar_header(h) <==> ustar_at(a, at)
            &&& h[156] == a[at + 156]
            &&& member_kind(h) == if long_name_at(a, at) {
                Some(MemberKind::LongName)
            } else if long_link_at(a, at) {
                Some(MemberKind::LongLink)
            } else if pax_at(a, at) {
                Some(MemberKind::PaxExtensions)
            } else {
                None::<MemberKind>
            }
        }),
{
    let h = a.subrange(at, at + 512);
    let magic = h.subrange(257, 265);
    assert forall|i: int| 0 <= i < 8 implies #[trigger] magic[i] == a[at + 257 + i] by {}
    let gnu = seq![0x75u8, 0x73, 0x74, 0x61, 0x72, 0x20, 0x20, 0x00];
    let ustar = seq![0x75u8, 0x73, 0x74, 0x61, 0x72, 0x00, 0x30, 0x30];
    if gnu_at(a, at) {
        assert(magic =~= gnu);
    }
    if ustar_at(a, at) {
        assert(magic =~= ustar);
    }
    assert(magic[0] == a[at + 257] && magic[1] == a[at + 258] && magic[2] == a[at + 259]);
    assert(magic[3] == a[at + 260] && magic[4] == a[at + 261] && magic[5] == a[at + 262]);
    assert(magic[6] == a[at + 263] && magic[7] == a[at + 264]);
}

/// In raw mode a header with a right checksum is an entry, of the size that is
/// written into it, whatever it describes. The next header is due at the first
/// block boundary behind its contents.
pub proof fn law_raw_entry_is_found(
    a: Seq<u8>,
    next: int,
    n: int,
    options: Options,
    members: MembersView,
)
    requires
        header_at(a, next, n),
    ensures
        ({
            let o = next_outcome(a, next, true, options, members);
            &&& o.result matches Ok(Some(e)) && {
                &&& taken_from(e, a, next, options)
                &&& e.size == n
                &&& e.data == seq![EntryIo::Data(n as u64)]
                &&& e.members.long_pathname is None
                &&& e.members.long_linkname is None
                &&& e.members.pax_extensions is None
            }
            &&& o.pos == next + 512
            &&& rounded(next + 512, n, o.next)
        }),
{
    let h = a.subrange(next, next + 512);
    lemma_header_is_not_zero(a, next, n);
    law_sound_header_is_accepted(h, n, next, options);
    lemma_padded(next + 512, n, next + 512 + padded(n));
}

/// Outside raw mode a header with a right checksum is an entry too, unless it
/// announces a member that describes a later one, or a sparse file. It goes with
/// what the members before it hold, byte by byte.
pub proof fn law_plain_entry_is_found(
    a: Seq<u8>,
    next: int,
    n: int,
    options: Options,
    members: MembersView,
)
    requires
        header_at(a, next, n),
        !long_name_at(a, next),
        !long_link_at(a, next),
        !pax_at(a, next),
        a[next + 156] != 0x53,
    ensures
        ({
            let o = next_outcome(a, next, false, options, members);
            &&& o.result matches Ok(Some(e)) && {
                &&& taken_from(e, a, next, options)
                &&& e.size == n
                &&& e.data == seq![EntryIo::Data(n as u64)]
                &&& e.members.long_pathname == members.long_pathname
                &&& e.members.long_linkname == members.long_linkname
                &&& e.members.pax_extensions == members.pax_extensions
            }
            &&& o.pos == next + 512
            &&& rounded(next + 512, n, o.next)
        }),
{
    let h = a.subrange(next, next + 512);
    lemma_header_is_not_zero(a, next, n);
    lemma_kind(a, next);
    law_sound_header_is_accepted(h, n, next, options);
    lemma_padded(next + 512, n, next + 512 + padded(n));
}

/// What a search comes to at a member that describes a later one, if none of
/// its kind came before.
proof fn lemma_member(
    a: Seq<u8>,
    next: int,
    n: int,
    behind: int,
    options: Options,
    members: MembersView,
    kind: MemberKind,
)
    requires
        header_at(a, next, n),
        member_kind(a.subrange(next, next + 512)) == Some(kind),
        rounded(next + 512, n, behind),
    ensures
        ({
            let o = next_outcome(a, next, false, options, members);
            let end = least(next + 512 + n, a.len() as int);
            if members.has(kind) {
                o.result is Err && o == (Outcome {
                    result: Err(
                        match kind {
                            MemberKind::LongName => TarError::TwoLongNames,
                            MemberKind::LongLink => TarError::TwoLongLinks,
                            MemberKind::PaxExtensions => TarError::TwoPaxExtensions,
                        },
                    ),
                    ..o
                })
            } else {
                o == next_outcome(
                    a,
                    behind,
                    false,
                    options,
                    members.with(kind, a.subrange(next + 512, end)),
                )
            }
        }),
{
    let h = a.subrange(next, next + 512);
    lemma_header_is_not_zero(a, next, n);
    law_sound_header_is_accepted(h, n, next, options);
    lemma_padded(next + 512, n, behind);
}

/// A member with a long path name, a long link name or pax extensions is not
/// handed out. All of its contents are kept for the entry that it describes, in
/// the field of its kind, and the other fields stay as they are; the search
/// goes on at the first block boundary behind the contents. A second member of
/// a kind is an error.
#[verifier::spinoff_prover]
#[verifier::rlimit(60)]
pub proof fn law_member_is_kept(
    a: Seq<u8>,
    next: int,
    n: int,
    behind: int,
    options: Options,
    members: MembersView,
)
    requires
        header_at(a, next, n),
        next + 512 + n <= a.len(),
        rounded(next + 512, n, behind),
    ensures
        ({
            let o = next_outcome(a, next, false, options, members);
            let contents = a.subrange(next + 512, next + 512 + n);
            &&& long_name_at(a, next) && members.long_pathname is None ==> o == next_outcome(
                a,
                behind,
                false,
                options,
                (MembersView {
                    long_pathname: Some(contents),
                    long_linkname: members.long_linkname,
                    pax_extensions: members.pax_extensions,
                }),
            )
            &&& long_link_at(a, next) && members.long_linkname is None ==> o == next_outcome(
                a,
                behind,
                false,
                options,
                (MembersView {
                    long_pathname: members.long_pathname,
                    long_linkname: Some(contents),
                    pax_extensions: members.pax_extensions,
                }),
            )
            &&& pax_at(a, next) && members.pax_extensions is None ==> o == next_outcome(
                a,
                behind,
                false,
                options,
                (MembersView {
                    long_pathname: members.long_pathname,
                    long_linkname: members.long_linkname,
                    pax_extensions: Some(contents),
                }),
            )
        }),
{
    lemma_kind(a, next);
    if let Some(kind) = member_kind(a.subrange(next, next + 512)) {
        lemma_member(a, next, n, behind, options, members, kind);
    }
}

/// A second member of a kind for the same entry is an error, and so is one that
/// the archive ends in.
pub proof fn law_member_is_refused(
    a: Seq<u8>,
    next: int,
    n: int,
    options: Options,
    members: MembersView,
)
    requires
        header_at(a, next, n),
    ensures
        ({
            let o = next_outcome(a, next, false, options, members);
            let cut_off = next + 512 + n > a.len();
            &&& long_name_at(a, next) && members.long_pathname is Some ==> o.result == Err::<
                Option<EntryView>,
                TarError,
            >(TarError::TwoLongNames)
            &&& long_link_at(a, next) && members.long_linkname is Some ==> o.result == Err::<
                Option<EntryView>,
                TarError,
            >(TarError::TwoLongLinks)
            &&& pax_at(a, next) && members.pax_extensions is Some ==> o.result == Err::<
                Option<EntryView>,
                TarError,
            >(TarError::TwoPaxExtensions)
            &&& cut_off && (long_name_at(a, next) && members.long_pathname is None
                || long_link_at(a, next) && members.long_linkname is None || pax_at(a, next)
                && members.pax_extensions is None) ==> o.result == Err::<
                Option<EntryView>,
                TarError,
            >(TarError::SkipEof)
        }),
{
    let h = a.subrange(next, next + 512);
    let behind = next + 512 + padded(n);
    lemma_kind(a, next);
    law_sound_header_is_accepted(h, n, next, options);
    lemma_padded(next + 512, n, behind);
    if let Some(kind) = member_kind(h) {
        lemma_member(a, next, n, behind, options, members, kind);
    }
}

/// Where the archive ends, so does the iteration, unless members before its end
/// describe an entry that is not there; it may end neither before the place
/// where a header is due nor inside the header.
pub proof fn law_archive_ends(
    a: Seq<u8>,
    next: int,
    raw: bool,
    options: Options,
    members: MembersView,
)
    requires
        0 <= next,
    ensures
        ({
            let o = next_outcome(a, next, raw, options, members);
            &&& next == a.len() ==> {
                &&& o.pos == next
                &&& o.next == next
                &&& o.result == if members.long_pathname is Some || members.long_linkname is Some
                    || members.pax_extensions is Some {
                    Err::<Option<EntryView>, TarError>(TarError::NoFutureMember)
                } else {
                    Ok::<Option<EntryView>, TarError>(None)
                }
            }
            &&& next > a.len() ==> o.pos == a.len() && o.next == next && o.result == Err::<
                Option<EntryView>,
                TarError,
            >(TarError::SkipEof)
            &&& next < a.len() < next + 512 ==> o.pos == a.len() && o.next == next && o.result
                == Err::<Option<EntryView>, TarError>(TarError::ShortBlock)
        }),
{
}

/// A block of zeros where a header is due is passed over if zeros are ignored,
/// and ends the iteration otherwise. No other block does either.
pub proof fn law_only_zeros_are_zeros(
    a: Seq<u8>,
    next: int,
    raw: bool,
    options: Options,
    members: MembersView,
)
    requires
        0 <= next,
        next + 512 <= a.len(),
    ensures
        ({
            let o = next_outcome(a, next, raw, options, members);
            if forall|i: int| next <= i < next + 512 ==> #[trigger] a[i] == 0 {
                if options.ignore_zeros {
                    o == next_outcome(a, next + 512, raw, options, members)
                } else {
                    &&& o.pos == next + 512
                    &&& o.next == next
                    &&& o.result == if members.long_pathname is Some || members.long_linkname is Some
                        || members.pax_extensions is Some {
                        Err::<Option<EntryView>, TarError>(TarError::NoFutureMember)
                    } else {
                        Ok::<Option<EntryView>, TarError>(None)
                    }
                }
            } else {
                &&& o.result != Ok::<Option<EntryView>, TarError>(None)
                &&& raw ==> match o.result {
                    Ok(Some(e)) => e.header_pos == next,
                    Ok(None) => false,
                    Err(e) => e == TarError::ChecksumMismatch || e is InvalidField,
                }
            }
        }),
{
    let h = a.subrange(next, next + 512);
    let o = next_outcome(a, next, raw, options, members);
    if forall|i: int| next <= i < next + 512 ==> #[trigger] a[i] == 0 {
        assert(all_zero(h));
    } else {
        let i = choose|i: int| next <= i < next + 512 && #[trigger] a[i] != 0;
        assert(h[i - next] == a[i]);
        assert(!all_zero(h));
        assert(land(a, next, options.ignore_zeros, members) == Landing::At(next));
        if o.result == Ok::<Option<EntryView>, TarError>(None) {
            lemma_end(a, next, raw, options, members);
        }
    }
}

/// A header whose checksum is another number than the sum of its bytes, or no
/// number, ends the search with an error, and so does one without a size. Only
/// the header was read then.
pub proof fn law_wrong_header_is_an_error(
    a: Seq<u8>,
    next: int,
    m: int,
    raw: bool,
    options: Options,
    members: MembersView,
)
    requires
        0 <= next,
        next + 512 <= a.len(),
        exists|i: int| next <= i < next + 512 && #[trigger] a[i] != 0,
    ensures
        ({
            let o = next_outcome(a, next, raw, options, members);
            let h = a.subrange(next, next + 512);
            let sum = h.subrange(148, 156);
            let file = next + 512;
            &&& octal_written(sum, m) && m != sum_with_spaces(h) ==> o == (Outcome {
                result: Err(TarError::ChecksumMismatch),
                pos: file,
                next: file,
            })
            &&& no_octal(sum) ==> o == (Outcome {
                result: Err(TarError::InvalidField(Field::Checksum)),
                pos: file,
                next: file,
            })
            &&& octal_written(sum, sum_with_spaces(h)) && no_number(h.subrange(124, 136)) ==> o == (
            Outcome { result: Err(TarError::InvalidField(Field::Size)), pos: file, next: file })
        }),
{
    let h = a.subrange(next, next + 512);
    let i = choose|i: int| next <= i < next + 512 && #[trigger] a[i] != 0;
    assert(h[i - next] == a[i]);
    assert(!all_zero(h));
    law_unsound_header_is_refused(h, m, next, options);
}

/// What is known of an entry from members before it stays known until the entry
/// is found.
#[verifier::spinoff_prover]
#[verifier::rlimit(60)]
pub proof fn law_members_stay(a: Seq<u8>, next: int, options: Options, members: MembersView)
    requires
        0 <= next,
    ensures
        next_outcome(a, next, false, options, members).result matches Ok(Some(e)) ==> {
            &&& members.long_pathname is Some ==> e.members.long_pathname == members.long_pathname
            &&& members.long_linkname is Some ==> e.members.long_linkname == members.long_linkname
            &&& members.pax_extensions is Some ==> e.members.pax_extensions
                == members.pax_extensions
        },
    decreases members.missing(),
{
    if let Landing::At(at) = land(a, next, options.ignore_zeros, members) {
        lemma_land_is_behind(a, next, options.ignore_zeros, members);
        let file = at + 512;
        if let Ok(entry) = raw_entry(a.subrange(at, file), at, options) {
            let behind = file + padded(entry.size as int);
            match member_kind(entry.header) {
                Some(kind) => if !members.has(kind) {
                    let end = least(file + entry.size, a.len() as int);
                    let more = members.with(kind, a.subrange(file, end));
                    assert(next_outcome(a, next, false, options, members) == next_outcome(
                        a,
                        behind,
                        false,
                        options,
                        more,
                    ));
                    law_members_stay(a, behind, options, more);
                },
                None => lemma_entry_keeps_members(
                    a,
                    file,
                    behind,
                    EntryView { members, ..entry },
                ),
            }
        }
    } else {
        lemma_stop_is_no_entry(a, next, options.ignore_zeros, members);
    }
}

proof fn lemma_land_is_behind(a: Seq<u8>, next: int, ignore_zeros: bool, members: MembersView)
    requires
        0 <= next,
    ensures
        land(a, next, ignore_zeros, members) matches Landing::At(at) ==> next <= at,
    decreases a.len() - next,
{
    if next + 512 <= a.len() && all_zero(a.subrange(next, next + 512)) && ignore_zeros {
        lemma_land_is_behind(a, next + 512, ignore_zeros, members);
    }
}

proof fn lemma_stop_is_no_entry(a: Seq<u8>, next: int, ignore_zeros: bool, members: MembersView)
    requires
        0 <= next,
    ensures
        land(a, next, ignore_zeros, members) matches Landing::Stop(o) ==> !(o.result matches Ok(
            Some(_),
        )),
    decreases a.len() - next,
{
    if next + 512 <= a.len() && all_zero(a.subrange(next, next + 512)) && ignore_zeros {
        lemma_stop_is_no_entry(a, next + 512, ignore_zeros, members);
    }
}

proof fn lemma_entry_keeps_members(a: Seq<u8>, pos: int, next: int, entry: EntryView)
    ensures
        entry_outcome(a, pos, next, entry).result matches Ok(Some(e)) ==> e.members
            == entry.members,
{
    if let Listing::More(list) = header_listing(entry) {
        lemma_extension_keeps_members(a, pos, next, entry, list);
    }
}

proof fn lemma_extension_keeps_members(
    a: Seq<u8>,
    pos: int,
    next: int,
    entry: EntryView,
    list: SparseView,
)
    ensures
        extension_outcome(a, pos, next, entry, list).result matches Ok(Some(e)) ==> e.members
            == entry.members,
    decreases a.len() - pos,
{
    if pos + 512 <= a.len() {
        if let Listing::More(more) = extension_listing(entry, list, a.subrange(pos, pos + 512)) {
            lemma_extension_keeps_members(a, pos + 512, next + 512, entry, more);
        }
    }
}

/// An entry that is found behind a member of a kind has all the contents of that
/// member, and nothing else, in the field of its kind; and what was known from
/// members before it is still in the others.
#[verifier::spinoff_prover]
#[verifier::rlimit(60)]
pub proof fn law_entry_has_what_members_hold(
    a: Seq<u8>,
    next: int,
    n: int,
    options: Options,
    members: MembersView,
)
    requires
        header_at(a, next, n),
    ensures
        next_outcome(a, next, false, options, members).result matches Ok(Some(e)) ==> {
            let contents = a.subrange(next + 512, next + 512 + n);
            &&& long_name_at(a, next) ==> e.members.long_pathname == Some(contents)
            &&& long_link_at(a, next) ==> e.members.long_linkname == Some(contents)
            &&& pax_at(a, next) ==> e.members.pax_extensions == Some(contents)
            &&& members.long_pathname is Some ==> e.members.long_pathname == members.long_pathname
            &&& members.long_linkname is Some ==> e.members.long_linkname == members.long_linkname
            &&& members.pax_extensions is Some ==> e.members.pax_extensions
                == members.pax_extensions
        },
{
    let behind = next + 512 + padded(n);
    let contents = a.subrange(next + 512, next + 512 + n);
    law_members_stay(a, next, options, members);
    law_sound_header_is_accepted(a.subrange(next, next + 512), n, next, options);
    lemma_padded(next + 512, n, behind);
    law_member_is_refused(a, next, n, options, members);
    if next + 512 + n <= a.len() {
        law_member_is_kept(a, next, n, behind, options, members);
        if long_name_at(a, next) && members.long_pathname is None {
            law_members_stay(
                a,
                behind,
                options,
                MembersView { long_pathname: Some(contents), ..members },
            );
        }
        if long_link_at(a, next) && members.long_linkname is None {
            law_members_stay(
                a,
                behind,
                options,
                MembersView { long_linkname: Some(contents), ..members },
            );
        }
        if pax_at(a, next) && members.pax_extensions is None {
            law_members_stay(
                a,
                behind,
                options,
                MembersView { pax_extensions: Some(contents), ..members },
            );
        }
    }
}

} // verus!
