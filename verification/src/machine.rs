//! The course of an iteration over an archive.
//!
//! An iteration reads blocks, and decides after each what to do next. Here
//! stands what it decides, as a function of what it has seen and of what came
//! back from the archive.

use crate::entry::{EntryIo, EntryView, MemberKind, MembersView, Options};
use crate::error::{Field, TarError};
use crate::header::{
    all_zero, gnu_header, header_sum, stated_real_size, stated_size, stated_sum, type_flag,
    ustar_header, GNU_LONG_LINK, GNU_LONG_NAME, GNU_SPARSE, PAX_EXTENSIONS,
};
use crate::sparse::{
    descriptors, extension_extended, header_extended, lemma_add_blocks_remaining, SparseView,
};
use vstd::prelude::*;

verus! {

/// The most bytes that are read at once where the bytes are not a block.
pub const BUFFER: u64 = 32768;

/// What an iteration needs next.
#[derive(Clone, Copy, Debug, PartialEq, Eq, Structural)]
pub enum Request {
    /// The position of the archive.
    Position,
    /// At least one and at most so many bytes of the archive, or none if it
    /// has no more.
    Read(usize),
    /// Nothing: the iteration has ended for good.
    Nothing,
}

/// How far an iteration has come with the next entry.
#[verifier::ext_equal]
pub ghost enum Phase {
    /// No entry was asked for.
    NotPolled,
    /// The next header is to be found.
    Seeking { members: MembersView },
    /// So many bytes lie before the next header.
    Skipping { members: MembersView, left: int },
    /// This much of a header was read.
    Header { members: MembersView, buf: Seq<u8> },
    /// A member that describes a later one is read; so many bytes are left.
    Contents { members: MembersView, kind: MemberKind, left: int, data: Seq<u8> },
    /// An extension header of a sparse file is read.
    Extension { entry: EntryView, list: SparseView, buf: Seq<u8> },
    /// The iteration failed.
    Done,
}

/// What follows from a decision.
#[verifier::ext_equal]
pub ghost enum Turn {
    /// The search for the entry goes on.
    Goto(Phase),
    /// The search is over.
    Ready(Result<Option<EntryView>, TarError>),
}

/// What an iteration answers once it was told what it needed.
#[verifier::ext_equal]
pub ghost enum ProgressView {
    /// It needs more.
    Pending,
    /// An entry, an error, or the end of the archive.
    Ready(Option<Result<EntryView, TarError>>),
}

/// What becomes of a sparse entry once more of its block list was read.
#[verifier::ext_equal]
pub ghost enum Listing {
    /// The list goes on in an extension header.
    More(SparseView),
    /// The list is complete, or wrong.
    Ready(Result<Option<EntryView>, TarError>),
}

/// What a block, or the lack of one, means where a header is due.
#[verifier::ext_equal]
pub ghost enum RawView {
    /// A block of zeros that is passed over.
    Zeros,
    /// The end of the archive.
    End,
    /// An entry.
    Found(EntryView),
}

/// A size, rounded up to whole blocks.
pub open spec fn padded(size: int) -> int {
    (size + 511) / 512 * 512
}

/// The entry that a header describes which stands at `at` in the archive.
pub open spec fn raw_entry(block: Seq<u8>, at: int, options: Options) -> Result<
    EntryView,
    TarError,
> {
    match stated_sum(block) {
        None => Err(TarError::InvalidField(Field::Checksum)),
        Some(sum) => if sum != header_sum(block) {
            Err(TarError::ChecksumMismatch)
        } else {
            match stated_size(block) {
                None => Err(TarError::InvalidField(Field::Size)),
                Some(size) => Ok(
                    EntryView {
                        size,
                        header_pos: at,
                        file_pos: at + 512,
                        data: seq![EntryIo::Data(size)],
                        header: block,
                        members: MembersView::none(),
                        unpack_xattrs: options.unpack_xattrs,
                        preserve_permissions: options.preserve_permissions,
                        preserve_mtime: options.preserve_mtime,
                    },
                ),
            }
        },
    }
}

/// The kind of member that a header announces, if it describes a later member.
pub open spec fn member_kind(h: Seq<u8>) -> Option<MemberKind> {
    if gnu_header(h) && type_flag(h) == GNU_LONG_NAME {
        Some(MemberKind::LongName)
    } else if gnu_header(h) && type_flag(h) == GNU_LONG_LINK {
        Some(MemberKind::LongLink)
    } else if ustar_header(h) && type_flag(h) == PAX_EXTENSIONS {
        Some(MemberKind::PaxExtensions)
    } else {
        None
    }
}

/// What is wrong with a second member of a kind.
pub open spec fn two_of(kind: MemberKind) -> TarError {
    match kind {
        MemberKind::LongName => TarError::TwoLongNames,
        MemberKind::LongLink => TarError::TwoLongLinks,
        MemberKind::PaxExtensions => TarError::TwoPaxExtensions,
    }
}

/// What no further entry means after some members.
pub open spec fn no_entry(members: MembersView) -> Result<Option<EntryView>, TarError> {
    if members.any() {
        Err(TarError::NoFutureMember)
    } else {
        Ok(None)
    }
}

/// A sparse entry once its block list is complete.
pub open spec fn finish_sparse(entry: EntryView, list: SparseView) -> Result<
    Option<EntryView>,
    TarError,
> {
    match stated_real_size(entry.header) {
        None => Err(TarError::InvalidField(Field::RealSize)),
        Some(size) => if list.cur != size {
            Err(TarError::SparseSizeMismatch)
        } else if list.remaining > 0 {
            Err(TarError::SparseEntrySizeMismatch)
        } else {
            Ok(Some(EntryView { size: list.cur, data: list.data, ..entry }))
        },
    }
}

/// What becomes of a sparse entry with this block list.
pub open spec fn listed(
    entry: EntryView,
    list: Result<SparseView, TarError>,
    extended: bool,
) -> Listing {
    match list {
        Err(e) => Listing::Ready(Err(e)),
        Ok(list) => if extended {
            Listing::More(list)
        } else {
            Listing::Ready(finish_sparse(entry, list))
        },
    }
}

/// What becomes of an entry that describes itself after its header. One that is
/// not sparse is complete.
pub open spec fn header_listing(entry: EntryView) -> Listing {
    if type_flag(entry.header) != GNU_SPARSE {
        Listing::Ready(Ok(Some(entry)))
    } else if !gnu_header(entry.header) {
        Listing::Ready(Err(TarError::SparseNotGnu))
    } else {
        listed(
            entry,
            SparseView::start(entry.size).add_blocks(descriptors(entry.header, 386, 4)),
            header_extended(entry.header),
        )
    }
}

/// What becomes of a sparse entry after an extension header.
pub open spec fn extension_listing(
    entry: EntryView,
    list: SparseView,
    block: Seq<u8>,
) -> Listing {
    listed(entry, list.add_blocks(descriptors(block, 0, 21)), extension_extended(block))
}

/// What follows after more of a block list was read.
pub open spec fn sparse_turn(entry: EntryView, listing: Listing) -> Turn {
    match listing {
        Listing::More(list) => Turn::Goto(Phase::Extension { entry, list, buf: Seq::empty() }),
        Listing::Ready(result) => Turn::Ready(result),
    }
}

/// What follows after the header of a member that describes a later one.
pub open spec fn collect_turn(members: MembersView, kind: MemberKind, size: u64) -> Turn {
    if members.has(kind) {
        Turn::Ready(Err(two_of(kind)))
    } else if size == 0 {
        Turn::Goto(Phase::Seeking { members: members.with(kind, Seq::empty()) })
    } else {
        Turn::Goto(Phase::Contents { members, kind, left: size as int, data: Seq::empty() })
    }
}

/// What follows after a block where a header was due.
pub open spec fn next_turn(raw: bool, members: MembersView, step: RawView) -> Turn {
    match step {
        RawView::Zeros => Turn::Goto(Phase::Seeking { members }),
        RawView::End => Turn::Ready(no_entry(members)),
        RawView::Found(entry) => if raw {
            Turn::Ready(Ok(Some(entry)))
        } else {
            match member_kind(entry.header) {
                Some(kind) => collect_turn(members, kind, entry.size),
                None => {
                    let described = EntryView { members, ..entry };
                    sparse_turn(described, header_listing(described))
                },
            }
        },
    }
}

/// What bytes that were read mean for a block of `len` bytes of which `buf` was
/// read before: `Some(true)` that it is complete, `Some(false)` that there is
/// no block, `None` that more is to be read.
pub open spec fn filled(buf: Seq<u8>, len: int, chunk: Seq<u8>) -> Result<
    Option<bool>,
    TarError,
> {
    if chunk.len() == 0 {
        if buf.len() == 0 {
            Ok(Some(false))
        } else {
            Err(TarError::ShortBlock)
        }
    } else if buf.len() + chunk.len() == len {
        Ok(Some(true))
    } else {
        Ok(None)
    }
}

/// An iteration over an archive.
#[verifier::ext_equal]
pub ghost struct Machine {
    /// Where the next header starts.
    pub next: int,
    /// Entries are handed out as they are, whatever they describe.
    pub raw: bool,
    /// The options of the archive.
    pub options: Options,
    /// How far the search for the next entry has come.
    pub phase: Phase,
}

impl Machine {
    /// The phases hold no more than is still to be read.
    pub open spec fn wf(self) -> bool {
        &&& 0 <= self.next <= u64::MAX
        &&& match self.phase {
            Phase::Skipping { left, .. } => 0 < left <= u64::MAX,
            Phase::Header { buf, .. } => buf.len() < 512,
            Phase::Contents { left, members, kind, .. } => 0 < left <= u64::MAX && !members.has(
                kind,
            ),
            Phase::Extension { list, buf, .. } => buf.len() < 512 && list.remaining <= list.size,
            _ => true,
        }
    }

    /// An iteration from the start of an archive.
    pub open spec fn start(options: Options) -> Machine {
        Machine { next: 0, raw: false, options, phase: Phase::NotPolled }
    }

    /// What the iteration needs, once it was asked for an entry.
    pub open spec fn request(self) -> Request {
        match self.phase {
            Phase::NotPolled | Phase::Seeking { .. } => Request::Position,
            Phase::Skipping { left, .. } | Phase::Contents { left, .. } => Request::Read(
                (if left < BUFFER { left } else { BUFFER as int }) as usize,
            ),
            Phase::Header { buf, .. } | Phase::Extension { buf, .. } => Request::Read(
                (512 - buf.len()) as usize,
            ),
            Phase::Done => Request::Nothing,
        }
    }

    /// The iteration after it was asked for an entry.
    pub open spec fn polled(self) -> Machine {
        match self.phase {
            Phase::NotPolled => Machine {
                phase: Phase::Seeking { members: MembersView::none() },
                ..self
            },
            _ => self,
        }
    }

    /// The iteration after it was told the position of the archive.
    pub open spec fn located(self, pos: int) -> Machine {
        match self.phase {
            Phase::Seeking { members } => if pos == self.next {
                Machine { phase: Phase::Header { members, buf: Seq::empty() }, ..self }
            } else {
                Machine { phase: Phase::Skipping { members, left: self.next - pos }, ..self }
            },
            _ => self,
        }
    }

    /// The iteration after a decision, and its answer. An error ends it for
    /// good; otherwise the next entry can be asked for.
    pub open spec fn settle(self, turn: Turn) -> (Machine, ProgressView) {
        match turn {
            Turn::Goto(phase) => (Machine { phase, ..self }, ProgressView::Pending),
            Turn::Ready(Err(e)) => (
                Machine { phase: Phase::Done, ..self },
                ProgressView::Ready(Some(Err(e))),
            ),
            Turn::Ready(Ok(Some(entry))) => (
                Machine { phase: Phase::NotPolled, ..self },
                ProgressView::Ready(Some(Ok(entry))),
            ),
            Turn::Ready(Ok(None)) => (
                Machine { phase: Phase::NotPolled, ..self },
                ProgressView::Ready(None),
            ),
        }
    }

    /// What a block means where a header is due, and where the next header
    /// starts then. `None` stands for the end of the archive.
    pub open spec fn raw_step(self, block: Option<Seq<u8>>) -> (int, Result<RawView, TarError>) {
        match block {
            None => (self.next, Ok(RawView::End)),
            Some(block) => if all_zero(block) {
                if self.options.ignore_zeros {
                    (self.next + 512, Ok(RawView::Zeros))
                } else {
                    (self.next, Ok(RawView::End))
                }
            } else {
                match raw_entry(block, self.next, self.options) {
                    Err(e) => (self.next + 512, Err(e)),
                    Ok(entry) => (
                        self.next + 512 + padded(entry.size as int),
                        Ok(RawView::Found(entry)),
                    ),
                }
            },
        }
    }

    /// The iteration after a block where a header was due, and its answer.
    pub open spec fn headed(self, members: MembersView, block: Option<Seq<u8>>) -> (
        Machine,
        ProgressView,
    ) {
        let (next, step) = self.raw_step(block);
        let turn = match step {
            Err(e) => Turn::Ready(Err(e)),
            Ok(step) => next_turn(self.raw, members, step),
        };
        Machine { next, ..self }.settle(turn)
    }

    /// The iteration after some bytes were read, and its answer. No bytes
    /// mean that the archive has no more.
    pub open spec fn read(self, chunk: Seq<u8>) -> (Machine, ProgressView) {
        match self.phase {
            Phase::Skipping { members, left } => if chunk.len() == 0 {
                self.settle(Turn::Ready(Err(TarError::SkipEof)))
            } else if chunk.len() == left {
                self.settle(Turn::Goto(Phase::Header { members, buf: Seq::empty() }))
            } else {
                self.settle(Turn::Goto(Phase::Skipping { members, left: left - chunk.len() }))
            },
            Phase::Header { members, buf } => match filled(buf, 512, chunk) {
                Err(e) => self.settle(Turn::Ready(Err(e))),
                Ok(None) => self.settle(Turn::Goto(Phase::Header { members, buf: buf + chunk })),
                Ok(Some(true)) => self.headed(members, Some(buf + chunk)),
                Ok(Some(false)) => self.headed(members, None),
            },
            Phase::Contents { members, kind, left, data } => if chunk.len() == 0 || chunk.len()
                == left {
                self.settle(
                    Turn::Goto(Phase::Seeking { members: members.with(kind, data + chunk) }),
                )
            } else {
                self.settle(
                    Turn::Goto(
                        Phase::Contents {
                            members,
                            kind,
                            left: left - chunk.len(),
                            data: data + chunk,
                        },
                    ),
                )
            },
            Phase::Extension { entry, list, buf } => match filled(buf, 512, chunk) {
                Err(e) => self.settle(Turn::Ready(Err(e))),
                Ok(None) => self.settle(
                    Turn::Goto(Phase::Extension { entry, list, buf: buf + chunk }),
                ),
                Ok(Some(true)) => Machine { next: self.next + 512, ..self }.settle(
                    sparse_turn(entry, extension_listing(entry, list, buf + chunk)),
                ),
                Ok(Some(false)) => self.settle(Turn::Ready(Err(TarError::NoExtension))),
            },
            _ => (self, ProgressView::Pending),
        }
    }
}

/// What an iteration keeps: whatever bytes it is told, it comes to a phase that
/// holds no more than is still to be read.
pub proof fn law_read_keeps_wf(m: Machine, chunk: Seq<u8>)
    requires
        m.wf(),
        m.request() matches Request::Read(want) && chunk.len() <= want,
        m.read(chunk).0.next <= u64::MAX,
    ensures
        m.read(chunk).0.wf(),
        m.read(chunk).0.next >= m.next,
{
    match m.phase {
        Phase::Header { buf, .. } => {
            let block = buf + chunk;
            if let Ok(entry) = raw_entry(block, m.next, m.options) {
                assert(padded(entry.size as int) >= 0);
                lemma_add_blocks_remaining(
                    SparseView::start(entry.size),
                    descriptors(entry.header, 386, 4),
                );
            }
        },
        Phase::Extension { list, buf, .. } => {
            lemma_add_blocks_remaining(list, descriptors(buf + chunk, 0, 21));
        },
        _ => {},
    }
}

} // verus!
