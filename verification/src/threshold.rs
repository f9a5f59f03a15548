//! The shared threshold cell: an atomic binary64 of the `atomic_float`
//! crate, reached through its bit pattern.
//!
//! Nothing here says what a load returns: the cell may be shared between
//! threads, so any other holder may have written to it in between.

use atomic_float::AtomicF64;
use std::sync::atomic::AtomicU64;
use std::sync::atomic::Ordering;
use vstd::prelude::*;

use crate::score::Score;

verus! {

/// `atomic_float::AtomicF64`, taken as opaque: nothing is known of the
/// number that a cell holds.
#[verifier::external_type_specification]
#[verifier::external_body]
pub struct ExAtomicF64(AtomicF64);

/// `AtomicF64::as_atomic_bits`: the same cell, seen as an atomic integer
/// that holds the number's bit pattern. Nothing is claimed of the result.
pub assume_specification[ AtomicF64::as_atomic_bits ](cell: &AtomicF64) -> (bits: &AtomicU64);

/// `AtomicF64::default`: a new cell that holds positive zero. Nothing is
/// claimed of the result.
#[verifier::external_body]
pub(crate) fn zeroed() -> (cell: AtomicF64) {
    AtomicF64::default()
}

/// `AtomicU64::fetch_update`, on the integer that `as_atomic_bits` gives:
/// replaces the number held, in one atomic step, by what
/// [`Score::raised_bits`] makes of it, `score` and `best_only`, and leaves
/// it where that is `None`. Nothing is claimed of the cell afterwards.
#[verifier::external_body]
pub(crate) fn raise(cell: &AtomicF64, score: Score, best_only: bool) {
    let _ = cell.as_atomic_bits().fetch_update(
        Ordering::Relaxed,
        Ordering::Relaxed,
        |held| Score::raised_bits(held, score, best_only),
    );
}

/// Overwrites the number held by the cell.
pub(crate) fn overwrite(cell: &AtomicF64, score: Score)
    ensures
        stored_in(cell, score),
{
    let bits = cell.as_atomic_bits();
    bits.store(score.to_bits(), Ordering::SeqCst);
}

/// The number that the cell holds at the moment of the call.
pub(crate) fn current(cell: &AtomicF64) -> (score: Score)
    ensures
        read_of(cell, score),
{
    let bits = cell.as_atomic_bits();
    let pattern: u64 = bits.load(Ordering::SeqCst);
    Score::from_bits(pattern)
}

/// Whether `score` is a number that a read of the cell gives: its bit
/// pattern is what a load returns of the atomic integer that the cell is
/// seen as. What a read gives depends on the moment, so this picks out no
/// single number.
pub open spec fn read_of(cell: &AtomicF64, score: Score) -> bool {
    exists|bits: &AtomicU64|
        #[trigger] call_ensures(AtomicF64::as_atomic_bits, (cell,), bits) && call_ensures(
            AtomicU64::load,
            (bits, Ordering::SeqCst),
            score.bits,
        )
}

/// Whether `score` was stored in the cell: the atomic integer that the
/// cell is seen as was handed the bit pattern of `score` to store, and the
/// store has returned.
pub open spec fn stored_in(cell: &AtomicF64, score: Score) -> bool {
    exists|bits: &AtomicU64|
        #[trigger] call_ensures(AtomicF64::as_atomic_bits, (cell,), bits) && call_ensures(
            AtomicU64::store,
            (bits, score.bits, Ordering::SeqCst),
            (),
        )
}

} // verus!
