//! The entries of an archive, one after the other.
//!
//! [`Entries`] reads nothing itself. Asked for an entry, it says what it
//! needs: the position of the archive, or some of its bytes. Told what came
//! back, it answers with an entry, an error or the end of the archive, or it
//! needs more.

use crate::archive::Archive;
use crate::entry::{Entry, EntryIo, EntryView, MemberKind, Members, Options};
use crate::error::TarError;
use crate::header::{Header, BLOCK, GNU_LONG_LINK, GNU_LONG_NAME, GNU_SPARSE, PAX_EXTENSIONS};
use crate::machine::{
    collect_turn, extension_listing, filled, finish_sparse, header_listing, law_read_keeps_wf,
    listed, member_kind, next_turn, padded, raw_entry, sparse_turn, Machine, Phase, ProgressView,
    RawView, Request, Turn,
};
use crate::sparse::{SparseMap, EXTENSION_BLOCKS, HEADER_BLOCKS, HEADER_BLOCKS_AT};
use vstd::prelude::*;

verus! {

/// The entries of an archive.
#[verifier::reject_recursive_types(R)]
pub struct Entries<R> {
    fields: EntriesFields<R>,
}

#[verifier::reject_recursive_types(R)]
struct EntriesFields<R> {
    archive: Archive<R>,
    next: u64,
    state: EntriesFieldsState,
    raw: bool,
}

enum EntriesFieldsState {
    NotPolled,
    Seeking { members: Members },
    Skipping { members: Members, left: u64 },
    Header { members: Members, buf: Vec<u8> },
    Contents { members: Members, kind: MemberKind, left: u64, data: Vec<u8> },
    Extension { entry: Entry, map: SparseMap, buf: Vec<u8> },
    Done,
}

/// What the entries answer once they were told what they needed.
#[derive(Debug)]
pub enum Progress {
    /// More is needed.
    Pending,
    /// An entry, an error, or the end of the archive.
    Ready(Option<Result<Entry, TarError>>),
}

/// What a block, or the lack of one, means where a header is due.
enum RawStep {
    Zeros,
    End,
    Found(Entry),
}

/// What follows from a decision.
enum Next {
    Goto(EntriesFieldsState),
    Ready(Result<Option<Entry>, TarError>),
}

impl View for EntriesFieldsState {
    type V = Phase;

    closed spec fn view(&self) -> Phase {
        match *self {
            EntriesFieldsState::NotPolled => Phase::NotPolled,
            EntriesFieldsState::Seeking { members } => Phase::Seeking { members: members@ },
            EntriesFieldsState::Skipping { members, left } => Phase::Skipping {
                members: members@,
                left: left as int,
            },
            EntriesFieldsState::Header { members, buf } => Phase::Header {
                members: members@,
                buf: buf@,
            },
            EntriesFieldsState::Contents { members, kind, left, data } => Phase::Contents {
                members: members@,
                kind,
                left: left as int,
                data: data@,
            },
            EntriesFieldsState::Extension { entry, map, buf } => Phase::Extension {
                entry: entry@,
                list: map@,
                buf: buf@,
            },
            EntriesFieldsState::Done => Phase::Done,
        }
    }
}

impl View for Progress {
    type V = ProgressView;

    open spec fn view(&self) -> ProgressView {
        match *self {
            Progress::Pending => ProgressView::Pending,
            Progress::Ready(None) => ProgressView::Ready(None),
            Progress::Ready(Some(Ok(entry))) => ProgressView::Ready(Some(Ok(entry@))),
            Progress::Ready(Some(Err(e))) => ProgressView::Ready(Some(Err(e))),
        }
    }
}

/// An answer is seen as it is.
pub proof fn law_progress_is_seen_as_it_is(progress: Progress)
    ensures
        match (progress, progress@) {
            (Progress::Pending, ProgressView::Pending) => true,
            (Progress::Ready(None), ProgressView::Ready(None)) => true,
            (
                Progress::Ready(Some(Ok(entry))),
                ProgressView::Ready(Some(Ok(seen))),
            ) => seen == entry@,
            (Progress::Ready(Some(Err(e))), ProgressView::Ready(Some(Err(seen)))) => seen == e,
            _ => false,
        },
{
}

impl View for RawStep {
    type V = RawView;

    closed spec fn view(&self) -> RawView {
        match *self {
            RawStep::Zeros => RawView::Zeros,
            RawStep::End => RawView::End,
            RawStep::Found(entry) => RawView::Found(entry@),
        }
    }
}

spec fn result_view(r: Result<Option<Entry>, TarError>) -> Result<Option<EntryView>, TarError> {
    match r {
        Ok(Some(entry)) => Ok(Some(entry@)),
        Ok(None) => Ok(None),
        Err(e) => Err(e),
    }
}

impl View for Next {
    type V = Turn;

    closed spec fn view(&self) -> Turn {
        match *self {
            Next::Goto(state) => Turn::Goto(state@),
            Next::Ready(r) => Turn::Ready(result_view(r)),
        }
    }
}

impl<R> View for EntriesFields<R> {
    type V = Machine;

    closed spec fn view(&self) -> Machine {
        Machine {
            next: self.next as int,
            raw: self.raw,
            options: self.archive.options(),
            phase: self.state@,
        }
    }
}

impl<R> View for Entries<R> {
    type V = Machine;

    closed spec fn view(&self) -> Machine {
        self.fields@
    }
}

/// Adds bytes that were read to a block of `len` bytes of which `buf` was read
/// before.
///
/// The answer is `Some(true)` once the block is complete, `Some(false)` if the
/// archive ended before the block, and `None` if more is to be read.
pub fn try_read_all(buf: &mut Vec<u8>, len: usize, chunk: &[u8]) -> (r: Result<
    Option<bool>,
    TarError,
>)
    requires
        old(buf)@.len() < len,
        chunk@.len() <= len - old(buf)@.len(),
    ensures
        final(buf)@ == old(buf)@ + chunk@,
        r == filled(old(buf)@, len as int, chunk@),
        match r {
            Ok(Some(true)) => final(buf)@.len() == len,
            Ok(Some(false)) => final(buf)@.len() == 0,
            Ok(None) => chunk@.len() > 0 && final(buf)@.len() < len,
            Err(e) => e == TarError::ShortBlock && chunk@.len() == 0 && old(buf)@.len() > 0,
        },
{
    let ghost before = buf@;
    if chunk.len() == 0 {
        assert(before + chunk@ =~= before);
        if buf.len() == 0 {
            return Ok(Some(false));
        }
        return Err(TarError::ShortBlock);
    }
    buf.extend_from_slice(chunk);
    assert(buf@ =~= before + chunk@);
    if buf.len() == len {
        Ok(Some(true))
    } else {
        Ok(None)
    }
}

/// Rounds a size up to whole blocks.
fn round_up(size: u64) -> (rounded: u64)
    requires
        padded(size as int) <= u64::MAX,
    ensures
        rounded == padded(size as int),
{
    let sum: u64 = size + 511;
    assert(sum & !511u64 == sum / 512 * 512) by (bit_vector);
    sum & !511u64
}

/// The kind of member that a header announces, if it describes a later member.
fn kind_of(header: &Header) -> (kind: Option<MemberKind>)
    ensures
        kind == member_kind(header@),
{
    if header.is_gnu() && header.entry_type() == GNU_LONG_NAME {
        Some(MemberKind::LongName)
    } else if header.is_gnu() && header.entry_type() == GNU_LONG_LINK {
        Some(MemberKind::LongLink)
    } else if header.is_ustar() && header.entry_type() == PAX_EXTENSIONS {
        Some(MemberKind::PaxExtensions)
    } else {
        None
    }
}

/// Reads the entry that a header describes which stands at `at` in the archive.
fn decode_entry(header: &Header, at: u64, options: Options) -> (r: Result<Entry, TarError>)
    requires
        at + 512 <= u64::MAX,
    ensures
        match raw_entry(header@, at as int, options) {
            Ok(entry) => r matches Ok(e) && e@ == entry,
            Err(e) => r == Err::<Entry, TarError>(e),
        },
{
    // The header has to add up to the checksum that it states.
    let sum: u32 = header.sum();
    let cksum: u64 = match header.cksum() {
        Ok(n) => n,
        Err(e) => {
            return Err(e);
        },
    };
    if sum as u64 != cksum {
        return Err(TarError::ChecksumMismatch);
    }
    let size: u64 = match header.entry_size() {
        Ok(n) => n,
        Err(e) => {
            return Err(e);
        },
    };
    let mut data: Vec<EntryIo> = Vec::new();
    data.push(EntryIo::Data(size));
    assert(data@ =~= seq![EntryIo::Data(size)]);
    Ok(
        Entry {
            size,
            header_pos: at,
            file_pos: at + 512,
            data,
            header: *header,
            long_pathname: None,
            long_linkname: None,
            pax_extensions: None,
            unpack_xattrs: options.unpack_xattrs,
            preserve_permissions: options.preserve_permissions,
            preserve_mtime: options.preserve_mtime,
        },
    )
}

/// Completes a sparse entry with its block list.
fn complete_sparse(entry: Entry, map: SparseMap) -> (r: Result<Option<Entry>, TarError>)
    ensures
        result_view(r) == finish_sparse(entry@, map@),
{
    let size: u64 = match entry.header.real_size() {
        Ok(n) => n,
        Err(e) => {
            return Err(e);
        },
    };
    if map.end() != size {
        return Err(TarError::SparseSizeMismatch);
    }
    if map.remaining() > 0 {
        return Err(TarError::SparseEntrySizeMismatch);
    }
    let mut entry = entry;
    entry.size = size;
    entry.data = map.into_data();
    Ok(Some(entry))
}

/// Goes on with the block list of a sparse entry.
fn continue_sparse(entry: Entry, map: SparseMap, extended: bool) -> (next: Next)
    ensures
        next@ == sparse_turn(entry@, listed(entry@, Ok(map@), extended)),
{
    if extended {
        let buf: Vec<u8> = Vec::new();
        Next::Goto(EntriesFieldsState::Extension { entry, map, buf })
    } else {
        Next::Ready(complete_sparse(entry, map))
    }
}

/// Reads the block list in the header of an entry, if the entry is sparse.
///
/// The contents of a sparse file are a list of stretches, each either zeros or
/// bytes of the archive. Blocks are listed in the header and, where there are
/// many, in extension headers that follow it. In the end the blocks have to
/// reach the size of the file and to take all the bytes of the entry.
fn parse_sparse_header(entry: Entry) -> (next: Next)
    ensures
        next@ == sparse_turn(entry@, header_listing(entry@)),
{
    if entry.header.entry_type() != GNU_SPARSE {
        return Next::Ready(Ok(Some(entry)));
    }
    if !entry.header.is_gnu() {
        return Next::Ready(Err(TarError::SparseNotGnu));
    }
    let mut map: SparseMap = SparseMap::new(entry.size);
    let block: &[u8] = entry.header.as_bytes();
    let extended: bool = block[482] == 1;
    match map.add_blocks(block, HEADER_BLOCKS_AT, HEADER_BLOCKS) {
        Ok(()) => continue_sparse(entry, map, extended),
        Err(e) => Next::Ready(Err(e)),
    }
}

/// Reads the part of a block list that stands in an extension header.
fn parse_extension(entry: Entry, map: SparseMap, block: &[u8]) -> (next: Next)
    requires
        map.wf(),
        block@.len() == 512,
    ensures
        next@ == sparse_turn(entry@, extension_listing(entry@, map@, block@)),
{
    let mut map = map;
    let extended: bool = block[504] == 1;
    match map.add_blocks(block, 0, EXTENSION_BLOCKS) {
        Ok(()) => continue_sparse(entry, map, extended),
        Err(e) => Next::Ready(Err(e)),
    }
}

/// Starts to read a member that describes a later one.
fn collect(members: Members, kind: MemberKind, size: u64) -> (next: Next)
    ensures
        next@ == collect_turn(members@, kind, size),
{
    if members.has(kind) {
        let e: TarError = match kind {
            MemberKind::LongName => TarError::TwoLongNames,
            MemberKind::LongLink => TarError::TwoLongLinks,
            MemberKind::PaxExtensions => TarError::TwoPaxExtensions,
        };
        return Next::Ready(Err(e));
    }
    let data: Vec<u8> = Vec::new();
    if size == 0 {
        let mut members = members;
        members.insert(kind, data);
        Next::Goto(EntriesFieldsState::Seeking { members })
    } else {
        Next::Goto(EntriesFieldsState::Contents { members, kind, left: size, data })
    }
}

/// Decides what follows after a block where a header was due.
///
/// In raw mode an entry is handed out as it is. Otherwise a member that
/// describes a later one is kept for that one, and the search goes on.
fn next_entry(raw: bool, members: Members, step: RawStep) -> (next: Next)
    ensures
        next@ == next_turn(raw, members@, step@),
{
    match step {
        RawStep::Zeros => Next::Goto(EntriesFieldsState::Seeking { members }),
        RawStep::End => if members.any() {
            Next::Ready(Err(TarError::NoFutureMember))
        } else {
            Next::Ready(Ok(None))
        },
        RawStep::Found(entry) => {
            if raw {
                return Next::Ready(Ok(Some(entry)));
            }
            match kind_of(&entry.header) {
                Some(kind) => collect(members, kind, entry.size),
                None => {
                    let mut entry = entry;
                    entry.long_pathname = members.long_pathname;
                    entry.long_linkname = members.long_linkname;
                    entry.pax_extensions = members.pax_extensions;
                    parse_sparse_header(entry)
                },
            }
        },
    }
}

impl<R> EntriesFields<R> {
    /// Decides what a block means where a header is due. `None` stands for the
    /// end of the archive.
    ///
    /// A block of zeros ends the archive too, unless zeros are ignored. After
    /// a header the next one is expected behind the bytes of the entry,
    /// rounded up to whole blocks.
    fn next_entry_raw(&mut self, block: Option<Header>) -> (r: Result<RawStep, TarError>)
        requires
            old(self)@.raw_step(
                match block {
                    Some(h) => Some(h@),
                    None => None,
                },
            ).0 <= u64::MAX,
        ensures
            ({
                let (next, step) = old(self)@.raw_step(
                    match block {
                        Some(h) => Some(h@),
                        None => None,
                    },
                );
                &&& final(self)@ == (Machine { next, ..old(self)@ })
                &&& final(self).archive == old(self).archive
                &&& match step {
                    Ok(step) => r matches Ok(s) && s@ == step,
                    Err(e) => r == Err::<RawStep, TarError>(e),
                }
            }),
    {
        let header: Header = match block {
            Some(h) => h,
            None => {
                return Ok(RawStep::End);
            },
        };
        if header.is_zero() {
            if !self.archive.config().ignore_zeros {
                return Ok(RawStep::End);
            }
            self.next = self.next + 512;
            return Ok(RawStep::Zeros);
        }
        let at: u64 = self.next;
        let options: Options = self.archive.config();
        match decode_entry(&header, at, options) {
            Ok(entry) => {
                self.next = at + 512 + round_up(entry.size);
                Ok(RawStep::Found(entry))
            },
            Err(e) => {
                self.next = at + 512;
                Err(e)
            },
        }
    }

    /// Goes on as decided. An error ends the iteration for good; after
    /// anything else the next entry can be asked for.
    fn settle(&mut self, next: Next) -> (progress: Progress)
        ensures
            (final(self)@, progress@) == old(self)@.settle(next@),
            final(self).archive == old(self).archive,
    {
        match next {
            Next::Goto(state) => {
                self.state = state;
                Progress::Pending
            },
            Next::Ready(Err(e)) => {
                self.state = EntriesFieldsState::Done;
                Progress::Ready(Some(Err(e)))
            },
            Next::Ready(Ok(Some(entry))) => {
                self.state = EntriesFieldsState::NotPolled;
                Progress::Ready(Some(Ok(entry)))
            },
            Next::Ready(Ok(None)) => {
                self.state = EntriesFieldsState::NotPolled;
                Progress::Ready(None)
            },
        }
    }

    /// Goes on with bytes that were read.
    fn step(&mut self, chunk: &[u8]) -> (progress: Progress)
        requires
            old(self)@.wf(),
            old(self)@.request() matches Request::Read(want) && chunk@.len() <= want,
            old(self)@.read(chunk@).0.next <= u64::MAX,
        ensures
            (final(self)@, progress@) == old(self)@.read(chunk@),
            final(self).archive == old(self).archive,
    {
        let mut state = EntriesFieldsState::NotPolled;
        std::mem::swap(&mut self.state, &mut state);
        let next: Next = match state {
            EntriesFieldsState::Skipping { members, left } => match Archive::<R>::skip(
                left,
                chunk.len(),
            ) {
                Err(e) => Next::Ready(Err(e)),
                Ok(left) => if left > 0 {
                    Next::Goto(EntriesFieldsState::Skipping { members, left })
                } else {
                    let buf: Vec<u8> = Vec::new();
                    Next::Goto(EntriesFieldsState::Header { members, buf })
                },
            },
            EntriesFieldsState::Header { members, buf } => {
                let mut buf = buf;
                match try_read_all(&mut buf, BLOCK, chunk) {
                    Err(e) => Next::Ready(Err(e)),
                    Ok(None) => Next::Goto(EntriesFieldsState::Header { members, buf }),
                    Ok(Some(complete)) => {
                        let block: Option<Header> = if complete {
                            Some(Header::from_block(buf.as_slice()))
                        } else {
                            None
                        };
                        match self.next_entry_raw(block) {
                            Ok(step) => next_entry(self.raw, members, step),
                            Err(e) => Next::Ready(Err(e)),
                        }
                    },
                }
            },
            EntriesFieldsState::Contents { members, kind, left, data } => {
                let mut members = members;
                let mut data = data;
                let ghost before = data@;
                data.extend_from_slice(chunk);
                assert(data@ =~= before + chunk@);
                if chunk.len() == 0 || chunk.len() as u64 == left {
                    members.insert(kind, data);
                    Next::Goto(EntriesFieldsState::Seeking { members })
                } else {
                    let left: u64 = left - chunk.len() as u64;
                    Next::Goto(EntriesFieldsState::Contents { members, kind, left, data })
                }
            },
            EntriesFieldsState::Extension { entry, map, buf } => {
                let mut buf = buf;
                match try_read_all(&mut buf, BLOCK, chunk) {
                    Err(e) => Next::Ready(Err(e)),
                    Ok(None) => Next::Goto(EntriesFieldsState::Extension { entry, map, buf }),
                    Ok(Some(true)) => {
                        self.next = self.next + 512;
                        parse_extension(entry, map, buf.as_slice())
                    },
                    Ok(Some(false)) => Next::Ready(Err(TarError::NoExtension)),
                }
            },
            other => Next::Goto(other),
        };
        self.settle(next)
    }
}

impl<R> Entries<R> {
    /// The archive whose entries these are.
    pub closed spec fn archive(self) -> Archive<R> {
        self.fields.archive
    }

    /// The entries of an archive from its start.
    pub(crate) fn new(archive: Archive<R>) -> (entries: Entries<R>)
        ensures
            entries.archive() == archive,
            entries@ == Machine::start(archive.options()),
    {
        Entries {
            fields: EntriesFields {
                archive,
                next: 0,
                state: EntriesFieldsState::NotPolled,
                raw: false,
            },
        }
    }

    /// Where the next header starts.
    pub fn next_header(&self) -> (next: u64)
        ensures
            next == self@.next,
    {
        self.fields.next
    }

    /// Whether entries are handed out as they are. If they are, a member that
    /// describes a later one is an entry like any other, and block lists are
    /// not read. They are not by default.
    pub fn raw(self, raw: bool) -> (entries: Entries<R>)
        ensures
            entries@ == (Machine { raw, ..self@ }),
            entries.archive() == self.archive(),
    {
        let mut entries = self;
        entries.fields.raw = raw;
        entries
    }

    /// Asks for the next entry and says what is needed for it.
    pub fn poll_next(&mut self) -> (request: Request)
        requires
            old(self)@.wf(),
        ensures
            final(self)@ == old(self)@.polled(),
            final(self)@.wf(),
            final(self).archive() == old(self).archive(),
            request == final(self)@.request(),
    {
        if let EntriesFieldsState::NotPolled = self.fields.state {
            self.fields.state = EntriesFieldsState::Seeking { members: Members::new() };
        }
        match &self.fields.state {
            EntriesFieldsState::NotPolled => Request::Position,
            EntriesFieldsState::Seeking { .. } => Request::Position,
            EntriesFieldsState::Skipping { left, .. } => Request::Read(
                Archive::<R>::skip_request(*left),
            ),
            EntriesFieldsState::Contents { left, .. } => Request::Read(
                Archive::<R>::skip_request(*left),
            ),
            EntriesFieldsState::Header { buf, .. } => Request::Read(BLOCK - buf.len()),
            EntriesFieldsState::Extension { buf, .. } => Request::Read(BLOCK - buf.len()),
            EntriesFieldsState::Done => Request::Nothing,
        }
    }

    /// Tells the position of the archive, which must not lie past the start of
    /// the next header.
    pub fn at_position(&mut self, pos: u64)
        requires
            old(self)@.wf(),
            old(self)@.phase is Seeking,
            pos <= old(self)@.next,
        ensures
            final(self)@ == old(self)@.located(pos as int),
            final(self)@.wf(),
            final(self).archive() == old(self).archive(),
    {
        let mut state = EntriesFieldsState::NotPolled;
        std::mem::swap(&mut self.fields.state, &mut state);
        if let EntriesFieldsState::Seeking { members } = state {
            let delta: u64 = self.fields.next - pos;
            if delta > 0 {
                self.fields.state = EntriesFieldsState::Skipping { members, left: delta };
            } else {
                let buf: Vec<u8> = Vec::new();
                self.fields.state = EntriesFieldsState::Header { members, buf };
            }
        }
    }

    /// Tells that the archive could not be read.
    pub fn read_failed(&mut self) -> (progress: Progress)
        requires
            old(self)@.request() is Read,
        ensures
            (final(self)@, progress@) == old(self)@.settle(Turn::Ready(Err(TarError::Reader))),
            progress matches Progress::Ready(Some(Err(e))) && e == TarError::Reader,
            final(self)@.request() == Request::Nothing,
            final(self)@.next == old(self)@.next,
            final(self).archive() == old(self).archive(),
    {
        self.fields.settle(Next::Ready(Err(TarError::Reader)))
    }

    /// `true` if the start of the next header can be said in a `u64` after
    /// these bytes were read.
    pub fn fits(&self, chunk: &[u8]) -> (fits: bool)
        requires
            self@.wf(),
            self@.request() matches Request::Read(want) && chunk@.len() <= want,
        ensures
            fits == (self@.read(chunk@).0.next <= u64::MAX),
    {
        match &self.fields.state {
            EntriesFieldsState::Header { buf, .. } => {
                if buf.len() + chunk.len() < BLOCK {
                    return true;
                }
                let mut block: Vec<u8> = Vec::new();
                block.extend_from_slice(buf.as_slice());
                block.extend_from_slice(chunk);
                assert(block@ =~= buf@ + chunk@);
                let header: Header = Header::from_block(block.as_slice());
                if header.is_zero() && !self.fields.archive.config().ignore_zeros {
                    return true;
                }
                if self.fields.next > u64::MAX - 512 {
                    return false;
                }
                if header.is_zero() {
                    return true;
                }
                match decode_entry(&header, self.fields.next, self.fields.archive.config()) {
                    Ok(entry) => {
                        entry.size <= u64::MAX - 511 && round_up(entry.size) <= u64::MAX - 512
                            - self.fields.next
                    },
                    Err(_) => true,
                }
            },
            EntriesFieldsState::Extension { buf, .. } => {
                buf.len() + chunk.len() < BLOCK || self.fields.next <= u64::MAX - 512
            },
            _ => true,
        }
    }

    /// Tells which bytes were read. No bytes mean that the archive has no
    /// more.
    pub fn read(&mut self, chunk: &[u8]) -> (progress: Progress)
        requires
            old(self)@.wf(),
            old(self)@.request() matches Request::Read(want) && chunk@.len() <= want,
            old(self)@.read(chunk@).0.next <= u64::MAX,
        ensures
            (final(self)@, progress@) == old(self)@.read(chunk@),
            final(self)@.wf(),
            final(self).archive() == old(self).archive(),
    {
        proof {
            law_read_keeps_wf(self@, chunk@);
        }
        self.fields.step(chunk)
    }
}

} // verus!
