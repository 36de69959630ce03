//! The cells in which an archive keeps what its handles share.
//!
//! What a cell holds can change through any handle at any time, so nothing is
//! said of what comes out of one. A contract that speaks of a cell says which
//! calls were made on it, with which arguments, and what they returned.

use pin_cell::PinCell;
use std::cell::{Cell, RefCell};
use std::sync::Arc;
use vstd::prelude::*;

verus! {

/// The cell around a reader.
#[verifier::external_type_specification]
#[verifier::external_body]
#[verifier::reject_recursive_types(T)]
pub struct ExPinCell<T: ?Sized>(PinCell<T>);

/// The cell around a position.
#[verifier::external_type_specification]
#[verifier::external_body]
#[verifier::reject_recursive_types(T)]
pub struct ExCell<T: ?Sized>(Cell<T>);

/// What a `PinCell` is made of.
#[verifier::external_type_specification]
#[verifier::external_body]
#[verifier::reject_recursive_types(T)]
pub struct ExRefCell<T: ?Sized>(RefCell<T>);

/// `PinCell::new` puts a value into a cell. Nothing is claimed of the cell.
pub assume_specification<T>[ PinCell::<T>::new ](value: T) -> PinCell<T>;

/// `Cell::new` puts a value into a cell. Nothing is claimed of the cell.
pub assume_specification<T>[ Cell::<T>::new ](value: T) -> Cell<T>;

/// `Cell::get` copies out what the cell holds at that time. Nothing is claimed
/// of the value, which any handle of the cell may have changed.
pub assume_specification<T: Copy>[ Cell::<T>::get ](cell: &Cell<T>) -> T;

/// `Cell::set` changes what the cell holds. Nothing is claimed of the cell.
pub assume_specification<T>[ Cell::<T>::set ](cell: &Cell<T>, val: T);

/// `RefCell::into_inner` takes the value out of a cell. Nothing is claimed of
/// the value, which may have changed since it was put in.
pub assume_specification<T>[ RefCell::<T>::into_inner ](cell: RefCell<T>) -> T;

/// The conversion of a `PinCell` into the `RefCell` that it is made of.
/// Nothing is claimed of the `RefCell`.
pub assume_specification<T>[ <PinCell<T> as Into<RefCell<T>>>::into ](cell: PinCell<T>) -> RefCell<T>;

/// `Arc::try_unwrap` hands out the shared value if there is no other handle,
/// and gives the handle back if there is one. Nothing is claimed of which of
/// the two happens.
#[verifier::external_body]
pub(crate) fn try_unwrap<T>(handle: Arc<T>) -> (r: Result<T, Arc<T>>)
    ensures
        match r {
            Ok(value) => value == *handle,
            Err(same) => same == handle,
        },
{
    Arc::try_unwrap(handle)
}

} // verus!
