//! Archives and how they are configured.

use crate::cells::try_unwrap;
use crate::entries::Entries;
use crate::entry::Options;
use crate::error::TarError;
use crate::machine::{Machine, BUFFER};
use pin_cell::PinCell;
use std::cell::{Cell, RefCell};
use std::sync::Arc;
use vstd::prelude::*;

verus! {

/// A handle of an archive that is read from an `R`.
///
/// All clones of a handle share the reader and the position in the archive.
#[verifier::reject_recursive_types(R)]
pub struct Archive<R> {
    inner: Arc<ArchiveInner<R>>,
}

/// What the handles of an archive share.
#[verifier::reject_recursive_types(R)]
pub struct ArchiveInner<R> {
    pos: Cell<u64>,
    options: Options,
    obj: PinCell<R>,
}

/// Configures an archive.
#[verifier::reject_recursive_types(R)]
pub struct ArchiveBuilder<R> {
    obj: PinCell<R>,
    options: Options,
}

impl<R> ArchiveBuilder<R> {
    /// The options that the archive will have.
    pub closed spec fn options(self) -> Options {
        self.options
    }

    /// The cell around the reader.
    pub closed spec fn obj(self) -> PinCell<R> {
        self.obj
    }

    /// Starts to configure an archive that is read from `obj`.
    pub fn new(obj: R) -> (builder: ArchiveBuilder<R>)
        ensures
            builder.options() == Options::standard(),
            call_ensures(PinCell::<R>::new, (obj,), builder.obj()),
    {
        ArchiveBuilder { options: Options::new(), obj: PinCell::new(obj) }
    }

    /// Whether extended file attributes are kept when unpacking. They are not
    /// by default.
    pub fn set_unpack_xattrs(self, unpack_xattrs: bool) -> (builder: ArchiveBuilder<R>)
        ensures
            builder.options() == (Options { unpack_xattrs, ..self.options() }),
            builder.obj() == self.obj(),
    {
        let mut builder = self;
        builder.options.unpack_xattrs = unpack_xattrs;
        builder
    }

    /// Whether extended permissions are kept when unpacking. They are not by
    /// default.
    pub fn set_preserve_permissions(self, preserve: bool) -> (builder: ArchiveBuilder<R>)
        ensures
            builder.options() == (Options { preserve_permissions: preserve, ..self.options() }),
            builder.obj() == self.obj(),
    {
        let mut builder = self;
        builder.options.preserve_permissions = preserve;
        builder
    }

    /// Whether the modification time is kept when unpacking. It is by default.
    pub fn set_preserve_mtime(self, preserve: bool) -> (builder: ArchiveBuilder<R>)
        ensures
            builder.options() == (Options { preserve_mtime: preserve, ..self.options() }),
            builder.obj() == self.obj(),
    {
        let mut builder = self;
        builder.options.preserve_mtime = preserve;
        builder
    }

    /// Whether headers of zeros are passed over, which otherwise end the
    /// archive. With it archives that follow each other can be read as one.
    pub fn set_ignore_zeros(self, ignore_zeros: bool) -> (builder: ArchiveBuilder<R>)
        ensures
            builder.options() == (Options { ignore_zeros, ..self.options() }),
            builder.obj() == self.obj(),
    {
        let mut builder = self;
        builder.options.ignore_zeros = ignore_zeros;
        builder
    }

    /// The archive, at position 0.
    pub fn build(self) -> (archive: Archive<R>)
        ensures
            archive.options() == self.options(),
            archive.obj() == self.obj(),
            call_ensures(Cell::<u64>::new, (0u64,), archive.pos()),
    {
        let ArchiveBuilder { options, obj } = self;
        Archive { inner: Arc::new(ArchiveInner { options, obj, pos: Cell::new(0) }) }
    }
}

impl<R> Clone for Archive<R> {
    /// Another handle of the same archive.
    fn clone(&self) -> (archive: Archive<R>)
        ensures
            archive == *self,
    {
        Archive { inner: self.inner.clone() }
    }
}

impl<R> Archive<R> {
    /// The options of the archive.
    pub closed spec fn options(self) -> Options {
        self.inner.options
    }

    /// The cell around the reader.
    pub closed spec fn obj(self) -> PinCell<R> {
        self.inner.obj
    }

    /// The cell around the position.
    pub closed spec fn pos(self) -> Cell<u64> {
        self.inner.pos
    }

    /// An archive that is read from `obj`, at position 0 and with the default
    /// options.
    pub fn new(obj: R) -> (archive: Archive<R>)
        ensures
            archive.options() == Options::standard(),
            call_ensures(PinCell::<R>::new, (obj,), archive.obj()),
            call_ensures(Cell::<u64>::new, (0u64,), archive.pos()),
    {
        Archive {
            inner: Arc::new(
                ArchiveInner { options: Options::new(), obj: PinCell::new(obj), pos: Cell::new(0) },
            ),
        }
    }

    /// `true` if `obj` is what came out of the cell around the reader.
    pub open spec fn held(self, obj: R) -> bool {
        exists|cell: RefCell<R>| #[trigger]
            call_ensures(<PinCell<R> as Into<RefCell<R>>>::into, (self.obj(),), cell) && call_ensures(
                RefCell::<R>::into_inner,
                (cell,),
                obj,
            )
    }

    /// `true` if it was looked up whether this is the last handle, and the
    /// answer was `last`.
    pub closed spec fn found_last(self, last: bool) -> bool {
        exists|r: Result<ArchiveInner<R>, Arc<ArchiveInner<R>>>| #[trigger]
            call_ensures(try_unwrap::<ArchiveInner<R>>, (self.inner,), r) && last == r is Ok
    }

    /// Gives the reader back, or the handle if there are others.
    pub fn into_inner(self) -> (r: Result<R, Archive<R>>)
        ensures
            self.found_last(r is Ok),
            match r {
                Ok(obj) => self.held(obj),
                Err(same) => same == self,
            },
    {
        let unwrapped: Result<ArchiveInner<R>, Arc<ArchiveInner<R>>> = try_unwrap(self.inner);
        assert(call_ensures(try_unwrap::<ArchiveInner<R>>, (self.inner,), unwrapped));
        match unwrapped {
            Ok(inner) => {
                let cell: RefCell<R> = inner.obj.into();
                let obj: R = cell.into_inner();
                assert(call_ensures(<PinCell<R> as Into<RefCell<R>>>::into, (self.obj(),), cell));
                assert(call_ensures(RefCell::<R>::into_inner, (cell,), obj));
                Ok(obj)
            },
            Err(inner) => Err(Archive { inner }),
        }
    }

    /// `true` if `r` answers a request for the entries of this archive while
    /// it is at `pos`.
    pub open spec fn entries_answer(self, pos: u64, r: Result<Entries<R>, TarError>) -> bool {
        match r {
            Ok(entries) => {
                &&& pos == 0
                &&& entries.archive() == self
                &&& entries@ == Machine::start(self.options())
            },
            Err(e) => pos != 0 && e == TarError::NotAtStart,
        }
    }

    /// The entries of the archive, if it is at position 0.
    ///
    /// The entries are to be read in the order in which they come: otherwise
    /// what is read of them is not their contents.
    pub fn entries(&mut self) -> (r: Result<Entries<R>, TarError>)
        ensures
            *final(self) == *old(self),
            exists|pos: u64| #[trigger]
                call_ensures(Cell::<u64>::get, (&old(self).pos(),), pos) && old(
                    self,
                ).entries_answer(pos, r) && (r is Ok <==> pos == 0),
    {
        let pos: u64 = self.position();
        self.entries_at(pos)
    }

    /// The entries of the archive, if `pos`, where it is, is 0.
    pub fn entries_at(&self, pos: u64) -> (r: Result<Entries<R>, TarError>)
        ensures
            self.entries_answer(pos, r),
            match r {
                Ok(entries) => pos == 0 && entries.archive() == *self && entries@.next == 0
                    && !entries@.raw && entries@.phase is NotPolled && entries@.options == self.options(),
                Err(e) => pos > 0 && e == TarError::NotAtStart,
            },
    {
        if pos != 0 {
            return Err(TarError::NotAtStart);
        }
        Ok(Entries::new(self.clone()))
    }

    /// How many bytes of the archive were read.
    pub fn position(&self) -> (pos: u64)
        ensures
            call_ensures(Cell::<u64>::get, (&self.pos(),), pos),
    {
        self.inner.pos.get()
    }

    /// The position once `n` bytes more were read, if it can be said in a
    /// `u64`.
    pub fn advanced(pos: u64, n: usize) -> (then: Option<u64>)
        ensures
            then == if pos + n <= u64::MAX {
                Some((pos + n) as u64)
            } else {
                None::<u64>
            },
    {
        pos.checked_add(n as u64)
    }

    /// Notes that `n` bytes were read, unless the position cannot be said in a
    /// `u64` then; `false` stands for that.
    pub fn advance(&self, n: usize) -> (advanced: bool)
        ensures
            exists|pos: u64| #[trigger]
                call_ensures(Cell::<u64>::get, (&self.pos(),), pos) && advanced == (pos + n
                    <= u64::MAX) && (advanced ==> call_ensures(
                    Cell::<u64>::set,
                    (&self.pos(), (pos + n) as u64),
                    (),
                )),
    {
        let pos: u64 = self.position();
        match Archive::<R>::advanced(pos, n) {
            Some(then) => {
                self.inner.pos.set(then);
                true
            },
            None => false,
        }
    }

    /// The options of the archive.
    pub fn config(&self) -> (options: Options)
        ensures
            options == self.options(),
    {
        self.inner.options
    }

    /// The cell around the reader.
    pub fn reader(&self) -> (cell: &PinCell<R>)
        ensures
            *cell == self.obj(),
    {
        &self.inner.obj
    }

    /// How many bytes are read next where `amt` bytes are to be skipped.
    pub fn skip_request(amt: u64) -> (n: usize)
        ensures
            n == (if amt < BUFFER { amt } else { BUFFER }),
    {
        if amt < BUFFER {
            amt as usize
        } else {
            BUFFER as usize
        }
    }

    /// How many bytes are left to skip once `n` of `amt` were read. The
    /// archive has no more if none were.
    pub fn skip(amt: u64, n: usize) -> (left: Result<u64, TarError>)
        requires
            0 < amt,
            n <= amt,
        ensures
            left == if n == 0 {
                Err::<u64, TarError>(TarError::SkipEof)
            } else {
                Ok::<u64, TarError>((amt - n) as u64)
            },
    {
        if n == 0 {
            Err(TarError::SkipEof)
        } else {
            Ok(amt - n as u64)
        }
    }
}

} // verus!
