//! The entries of an archive.

use crate::header::Header;
use vstd::prelude::*;

verus! {

/// How the entries of an archive are read and unpacked.
#[derive(Clone, Copy, Debug, PartialEq, Eq, Structural)]
pub struct Options {
    /// Extended file attributes are kept when unpacking.
    pub unpack_xattrs: bool,
    /// Extended permissions are kept when unpacking.
    pub preserve_permissions: bool,
    /// The modification time is kept when unpacking.
    pub preserve_mtime: bool,
    /// Headers of zeros are passed over.
    pub ignore_zeros: bool,
}

impl Options {
    /// The options of an archive that was not configured.
    pub open spec fn standard() -> Options {
        Options {
            unpack_xattrs: false,
            preserve_permissions: false,
            preserve_mtime: true,
            ignore_zeros: false,
        }
    }

    /// Only the modification time is kept, and zeros end the archive.
    pub fn new() -> (options: Options)
        ensures
            options == Options::standard(),
    {
        Options {
            unpack_xattrs: false,
            preserve_permissions: false,
            preserve_mtime: true,
            ignore_zeros: false,
        }
    }
}

/// A stretch of an entry's contents.
#[derive(Clone, Copy, Debug, PartialEq, Eq, Structural)]
pub enum EntryIo {
    /// So many zeros, which the archive does not hold.
    Pad(u64),
    /// So many bytes of the archive.
    Data(u64),
}

/// The members of an archive that describe a later member.
#[derive(Clone, Copy, Debug, PartialEq, Eq, Structural)]
pub enum MemberKind {
    /// GNU's long path name.
    LongName,
    /// GNU's long link name.
    LongLink,
    /// Extensions of the pax format.
    PaxExtensions,
}

/// The contents of bytes that may be there.
pub open spec fn bytes_view(bytes: Option<Vec<u8>>) -> Option<Seq<u8>> {
    match bytes {
        Some(b) => Some(b@),
        None => None,
    }
}

/// What the members before an entry say of it.
pub struct Members {
    pub long_pathname: Option<Vec<u8>>,
    pub long_linkname: Option<Vec<u8>>,
    pub pax_extensions: Option<Vec<u8>>,
}

/// What the members before an entry say of it, as sequences.
#[verifier::ext_equal]
pub ghost struct MembersView {
    pub long_pathname: Option<Seq<u8>>,
    pub long_linkname: Option<Seq<u8>>,
    pub pax_extensions: Option<Seq<u8>>,
}

impl View for Members {
    type V = MembersView;

    open spec fn view(&self) -> MembersView {
        MembersView {
            long_pathname: bytes_view(self.long_pathname),
            long_linkname: bytes_view(self.long_linkname),
            pax_extensions: bytes_view(self.pax_extensions),
        }
    }
}

impl MembersView {
    /// No such members.
    pub open spec fn none() -> MembersView {
        MembersView { long_pathname: None, long_linkname: None, pax_extensions: None }
    }

    /// `true` if a member of this kind was seen.
    pub open spec fn has(self, kind: MemberKind) -> bool {
        match kind {
            MemberKind::LongName => self.long_pathname is Some,
            MemberKind::LongLink => self.long_linkname is Some,
            MemberKind::PaxExtensions => self.pax_extensions is Some,
        }
    }

    /// `true` if any member was seen.
    pub open spec fn any(self) -> bool {
        self.has(MemberKind::LongName) || self.has(MemberKind::LongLink) || self.has(
            MemberKind::PaxExtensions,
        )
    }

    /// How many kinds of members are still to be seen.
    pub open spec fn missing(self) -> nat {
        (if self.has(MemberKind::LongName) { 0nat } else { 1 }) + (if self.has(
            MemberKind::LongLink,
        ) { 0nat } else { 1 }) + (if self.has(MemberKind::PaxExtensions) { 0nat } else { 1 })
    }

    /// With the contents of one member more.
    pub open spec fn with(self, kind: MemberKind, contents: Seq<u8>) -> MembersView {
        match kind {
            MemberKind::LongName => MembersView { long_pathname: Some(contents), ..self },
            MemberKind::LongLink => MembersView { long_linkname: Some(contents), ..self },
            MemberKind::PaxExtensions => MembersView { pax_extensions: Some(contents), ..self },
        }
    }
}

impl Members {
    /// No such members.
    pub fn new() -> (members: Members)
        ensures
            members@ == MembersView::none(),
            members.long_pathname is None,
            members.long_linkname is None,
            members.pax_extensions is None,
    {
        Members { long_pathname: None, long_linkname: None, pax_extensions: None }
    }

    /// `true` if a member of this kind was seen.
    pub fn has(&self, kind: MemberKind) -> (yes: bool)
        ensures
            yes == self@.has(kind),
            yes == match kind {
                MemberKind::LongName => self.long_pathname is Some,
                MemberKind::LongLink => self.long_linkname is Some,
                MemberKind::PaxExtensions => self.pax_extensions is Some,
            },
    {
        match kind {
            MemberKind::LongName => self.long_pathname.is_some(),
            MemberKind::LongLink => self.long_linkname.is_some(),
            MemberKind::PaxExtensions => self.pax_extensions.is_some(),
        }
    }

    /// `true` if any member was seen.
    pub fn any(&self) -> (yes: bool)
        ensures
            yes == self@.any(),
            yes == (self.long_pathname is Some || self.long_linkname is Some
                || self.pax_extensions is Some),
    {
        self.long_pathname.is_some() || self.long_linkname.is_some()
            || self.pax_extensions.is_some()
    }

    /// Keeps the contents of a member.
    pub fn insert(&mut self, kind: MemberKind, contents: Vec<u8>)
        ensures
            final(self)@ == old(self)@.with(kind, contents@),
            match kind {
                MemberKind::LongName => {
                    &&& final(self).long_pathname matches Some(kept) && kept@ == contents@
                    &&& final(self).long_linkname == old(self).long_linkname
                    &&& final(self).pax_extensions == old(self).pax_extensions
                },
                MemberKind::LongLink => {
                    &&& final(self).long_linkname matches Some(kept) && kept@ == contents@
                    &&& final(self).long_pathname == old(self).long_pathname
                    &&& final(self).pax_extensions == old(self).pax_extensions
                },
                MemberKind::PaxExtensions => {
                    &&& final(self).pax_extensions matches Some(kept) && kept@ == contents@
                    &&& final(self).long_pathname == old(self).long_pathname
                    &&& final(self).long_linkname == old(self).long_linkname
                },
            },
    {
        match kind {
            MemberKind::LongName => {
                self.long_pathname = Some(contents);
            },
            MemberKind::LongLink => {
                self.long_linkname = Some(contents);
            },
            MemberKind::PaxExtensions => {
                self.pax_extensions = Some(contents);
            },
        }
    }
}

/// An entry of an archive.
#[derive(Debug)]
pub struct Entry {
    /// The size of the file.
    pub size: u64,
    /// Where the header of the entry starts in the archive.
    pub header_pos: u64,
    /// Where the contents of the entry start in the archive.
    pub file_pos: u64,
    /// The contents of the entry, stretch by stretch.
    pub data: Vec<EntryIo>,
    /// The header of the entry.
    pub header: Header,
    /// The path, where the header is too short for it.
    pub long_pathname: Option<Vec<u8>>,
    /// The target of a link, where the header is too short for it.
    pub long_linkname: Option<Vec<u8>>,
    /// The pax extensions of the entry.
    pub pax_extensions: Option<Vec<u8>>,
    /// Extended file attributes are kept when unpacking.
    pub unpack_xattrs: bool,
    /// Extended permissions are kept when unpacking.
    pub preserve_permissions: bool,
    /// The modification time is kept when unpacking.
    pub preserve_mtime: bool,
}

/// An entry of an archive, as sequences and integers.
#[verifier::ext_equal]
pub ghost struct EntryView {
    pub size: u64,
    pub header_pos: int,
    pub file_pos: int,
    pub data: Seq<EntryIo>,
    pub header: Seq<u8>,
    pub members: MembersView,
    pub unpack_xattrs: bool,
    pub preserve_permissions: bool,
    pub preserve_mtime: bool,
}

impl View for Entry {
    type V = EntryView;

    open spec fn view(&self) -> EntryView {
        EntryView {
            size: self.size,
            header_pos: self.header_pos as int,
            file_pos: self.file_pos as int,
            data: self.data@,
            header: self.header@,
            members: MembersView {
                long_pathname: bytes_view(self.long_pathname),
                long_linkname: bytes_view(self.long_linkname),
                pax_extensions: bytes_view(self.pax_extensions),
            },
            unpack_xattrs: self.unpack_xattrs,
            preserve_permissions: self.preserve_permissions,
            preserve_mtime: self.preserve_mtime,
        }
    }
}

/// An entry is seen as it is: its numbers, its contents, its header, and all the
/// bytes of what members before it say of it.
pub proof fn law_entry_is_seen_as_it_is(e: Entry)
    ensures
        e@.size == e.size,
        e@.header_pos == e.header_pos,
        e@.file_pos == e.file_pos,
        e@.data == e.data@,
        e@.header == e.header@,
        match (e@.members.long_pathname, e.long_pathname) {
            (Some(seen), Some(kept)) => seen == kept@,
            (None, None) => true,
            _ => false,
        },
        match (e@.members.long_linkname, e.long_linkname) {
            (Some(seen), Some(kept)) => seen == kept@,
            (None, None) => true,
            _ => false,
        },
        match (e@.members.pax_extensions, e.pax_extensions) {
            (Some(seen), Some(kept)) => seen == kept@,
            (None, None) => true,
            _ => false,
        },
        e@.unpack_xattrs == e.unpack_xattrs,
        e@.preserve_permissions == e.preserve_permissions,
        e@.preserve_mtime == e.preserve_mtime,
{
}

/// How many bytes some stretches of contents stand for.
pub open spec fn total_len(data: Seq<EntryIo>) -> int
    decreases data.len(),
{
    if data.len() == 0 {
        0
    } else {
        total_len(data.drop_last()) + match data.last() {
            EntryIo::Pad(n) => n as int,
            EntryIo::Data(n) => n as int,
        }
    }
}

/// How many bytes of the archive some stretches of contents take.
pub open spec fn stored_len(data: Seq<EntryIo>) -> int
    decreases data.len(),
{
    if data.len() == 0 {
        0
    } else {
        stored_len(data.drop_last()) + match data.last() {
            EntryIo::Pad(_) => 0,
            EntryIo::Data(n) => n as int,
        }
    }
}

/// What a stretch more adds to contents.
pub proof fn lemma_len_push(data: Seq<EntryIo>, more: EntryIo)
    ensures
        total_len(data.push(more)) == total_len(data) + match more {
            EntryIo::Pad(n) => n as int,
            EntryIo::Data(n) => n as int,
        },
        stored_len(data.push(more)) == stored_len(data) + match more {
            EntryIo::Pad(_) => 0,
            EntryIo::Data(n) => n as int,
        },
{
    assert(data.push(more).drop_last() =~= data);
}

} // verus!
