//! What can be wrong with an archive.

use vstd::prelude::*;

verus! {

/// A numeric field of a header.
#[derive(Clone, Copy, Debug, PartialEq, Eq, Structural)]
pub enum Field {
    Checksum,
    Size,
    SparseOffset,
    SparseLength,
    RealSize,
}

/// Why an archive, or one of its entries, cannot be read.
#[derive(Clone, Copy, Debug, PartialEq, Eq, Structural)]
pub enum TarError {
    /// The entries were asked for after some of the archive had been read.
    NotAtStart,
    /// The archive ends before the next header.
    SkipEof,
    /// The archive ends inside a block.
    ShortBlock,
    /// A header does not add up to its checksum.
    ChecksumMismatch,
    /// A numeric field of a header holds no number.
    InvalidField(Field),
    /// The archive ends after members that describe a later one.
    NoFutureMember,
    /// A second long path name for the same member.
    TwoLongNames,
    /// A second long link name for the same member.
    TwoLongLinks,
    /// A second set of pax extensions for the same member.
    TwoPaxExtensions,
    /// A sparse member without a GNU header.
    SparseNotGnu,
    /// A sparse block that is not the last one ends off a block boundary.
    SparseUnaligned,
    /// A sparse block starts before the end of the one before it.
    SparseOutOfOrder,
    /// A sparse block ends beyond what a `u64` can hold.
    SparseTooLarge,
    /// The sparse blocks need more bytes than the entry has.
    SparseOverrun,
    /// The archive ends before an announced extension header.
    NoExtension,
    /// The sparse blocks do not end at the size of the file.
    SparseSizeMismatch,
    /// The sparse blocks leave bytes of the entry unused.
    SparseEntrySizeMismatch,
    /// The reader of the archive failed.
    Reader,
}

impl TarError {
    /// The text that describes the error.
    pub open spec fn text(self) -> Seq<char> {
        match self {
            TarError::NotAtStart => "cannot call entries unless archive is at position 0"@,
            TarError::SkipEof => "unexpected EOF during skip"@,
            TarError::ShortBlock => "failed to read entire block"@,
            TarError::ChecksumMismatch => "archive header checksum mismatch"@,
            TarError::InvalidField(Field::Checksum) => "checksum field was not a number"@,
            TarError::InvalidField(Field::Size) => "size field was not a number"@,
            TarError::InvalidField(Field::SparseOffset) => "sparse offset was not a number"@,
            TarError::InvalidField(Field::SparseLength) => "sparse length was not a number"@,
            TarError::InvalidField(Field::RealSize) => "real size field was not a number"@,
            TarError::NoFutureMember =>
                "members found describing a future member but no future member found"@,
            TarError::TwoLongNames => "two long name entries describing the same member"@,
            TarError::TwoLongLinks => "two long name entries describing the same member"@,
            TarError::TwoPaxExtensions =>
                "two pax extensions entries describing the same member"@,
            TarError::SparseNotGnu => "sparse entry type listed but not GNU header"@,
            TarError::SparseUnaligned =>
                "previous block in sparse file was not aligned to 512-byte boundary"@,
            TarError::SparseOutOfOrder => "out of order or overlapping sparse blocks"@,
            TarError::SparseTooLarge => "more bytes listed in sparse file than u64 can hold"@,
            TarError::SparseOverrun =>
                "sparse file consumed more data than the header listed"@,
            TarError::NoExtension => "failed to read extension"@,
            TarError::SparseSizeMismatch =>
                "mismatch in sparse file chunks and size in header"@,
            TarError::SparseEntrySizeMismatch =>
                "mismatch in sparse file chunks and entry size in header"@,
            TarError::Reader => "failed to read from the archive"@,
        }
    }

    /// Describes the error.
    pub fn message(&self) -> (text: &'static str)
        ensures
            text@ == self.text(),
    {
        match self {
            TarError::NotAtStart => "cannot call entries unless archive is at position 0",
            TarError::SkipEof => "unexpected EOF during skip",
            TarError::ShortBlock => "failed to read entire block",
            TarError::ChecksumMismatch => "archive header checksum mismatch",
            TarError::InvalidField(Field::Checksum) => "checksum field was not a number",
            TarError::InvalidField(Field::Size) => "size field was not a number",
            TarError::InvalidField(Field::SparseOffset) => "sparse offset was not a number",
            TarError::InvalidField(Field::SparseLength) => "sparse length was not a number",
            TarError::InvalidField(Field::RealSize) => "real size field was not a number",
            TarError::NoFutureMember =>
                "members found describing a future member but no future member found",
            TarError::TwoLongNames => "two long name entries describing the same member",
            TarError::TwoLongLinks => "two long name entries describing the same member",
            TarError::TwoPaxExtensions =>
                "two pax extensions entries describing the same member",
            TarError::SparseNotGnu => "sparse entry type listed but not GNU header",
            TarError::SparseUnaligned =>
                "previous block in sparse file was not aligned to 512-byte boundary",
            TarError::SparseOutOfOrder => "out of order or overlapping sparse blocks",
            TarError::SparseTooLarge => "more bytes listed in sparse file than u64 can hold",
            TarError::SparseOverrun =>
                "sparse file consumed more data than the header listed",
            TarError::NoExtension => "failed to read extension",
            TarError::SparseSizeMismatch =>
                "mismatch in sparse file chunks and size in header",
            TarError::SparseEntrySizeMismatch =>
                "mismatch in sparse file chunks and entry size in header",
            TarError::Reader => "failed to read from the archive",
        }
    }
}

/// Callers know errors by their texts.
pub proof fn law_errors_are_known_by_their_texts(e: TarError)
    ensures
        match e {
            TarError::NotAtStart => e.text()
                == "cannot call entries unless archive is at position 0"@,
            TarError::SkipEof => e.text() == "unexpected EOF during skip"@,
            TarError::ShortBlock => e.text() == "failed to read entire block"@,
            TarError::ChecksumMismatch => e.text() == "archive header checksum mismatch"@,
            TarError::NoFutureMember => e.text()
                == "members found describing a future member but no future member found"@,
            TarError::TwoLongNames | TarError::TwoLongLinks => e.text()
                == "two long name entries describing the same member"@,
            TarError::TwoPaxExtensions => e.text()
                == "two pax extensions entries describing the same member"@,
            TarError::SparseNotGnu => e.text()
                == "sparse entry type listed but not GNU header"@,
            TarError::SparseUnaligned => e.text()
                == "previous block in sparse file was not aligned to 512-byte boundary"@,
            TarError::SparseOutOfOrder => e.text()
                == "out of order or overlapping sparse blocks"@,
            TarError::SparseTooLarge => e.text()
                == "more bytes listed in sparse file than u64 can hold"@,
            TarError::SparseOverrun => e.text()
                == "sparse file consumed more data than the header listed"@,
            TarError::NoExtension => e.text() == "failed to read extension"@,
            TarError::SparseSizeMismatch => e.text()
                == "mismatch in sparse file chunks and size in header"@,
            TarError::SparseEntrySizeMismatch => e.text()
                == "mismatch in sparse file chunks and entry size in header"@,
            TarError::InvalidField(_) | TarError::Reader => true,
        },
{
}

} // verus!
