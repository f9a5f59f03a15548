//! The cell that a stored item is loaded into: the thread-safe `OnceCell`
//! of the `once_cell` crate, which is written once and read ever after.
//!
//! The cell is filled through a shared reference, so nothing here says
//! what it holds: between two reads another holder may have filled it.

use once_cell::sync::OnceCell;
use vstd::prelude::*;

verus! {

/// `once_cell::sync::OnceCell`, taken as opaque: nothing is known of what
/// a cell holds.
#[verifier::external_type_specification]
#[verifier::external_body]
#[verifier::reject_recursive_types(T)]
pub struct ExOnceCell<T>(OnceCell<T>);

/// `OnceCell::new`: a cell that holds nothing yet. Nothing is claimed of
/// the result.
pub assume_specification<T>[ OnceCell::<T>::new ]() -> (cell: OnceCell<T>);

/// `OnceCell::get`: what the cell holds, if it holds anything. It does not
/// block. Nothing is claimed of the result.
pub assume_specification<'a, T>[ OnceCell::<T>::get ](cell: &'a OnceCell<T>) -> (item: Option<&'a T>);

/// `OnceCell::into_inner`: takes the cell apart and gives what it held.
/// Nothing is claimed of the result.
pub assume_specification<T>[ OnceCell::<T>::into_inner ](cell: OnceCell<T>) -> (item: Option<T>);

/// `OnceCell::clone`: a cell of its own, which holds a copy of what this
/// one holds at the moment, or nothing. Nothing is claimed of the result.
pub assume_specification<T: Clone>[ <OnceCell<T> as Clone>::clone ](cell: &OnceCell<T>) -> (copy:
    OnceCell<T>);

/// `OnceCell::get_or_init`: what the cell holds once it has been filled,
/// by this call with `item` or by an earlier one with something else.
/// Nothing is claimed of the result: which of the two it is depends on the
/// cell.
#[verifier::external_body]
pub(crate) fn settle<T>(cell: &OnceCell<T>, item: T) -> (held: &T) {
    cell.get_or_init(|| item)
}

} // verus!
