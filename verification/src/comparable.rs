//! What an index asks of its items: that two of them can be compared.

use vstd::prelude::*;

use crate::error::Error;
use crate::score::{Ratio, Score};
use crate::sketch::Signature;

verus! {

/// An item that can say how much it has in common with another.
///
/// A comparison fails where one of the two carries no sketch that can be
/// compared, or cannot be had at all. [`Comparable::comparable`] says of
/// which pairs it is known beforehand that it succeeds, and
/// [`Comparable::spec_similarity`] and [`Comparable::spec_containment`] say
/// with what.
pub trait Comparable<O> {
    /// Whether this item and `other` are known to carry sketches that can
    /// be compared.
    spec fn comparable(&self, other: &O) -> bool;

    /// What is shared, over the size of what the two hold together.
    spec fn spec_similarity(&self, other: &O) -> Ratio;

    /// What is shared, over the size of this item.
    spec fn spec_containment(&self, other: &O) -> Ratio;

    /// How similar the two are: a number from 0 to 1, which is
    /// [`Comparable::spec_similarity`] divided out.
    fn similarity(&self, other: &O) -> (r: Result<Score, Error>)
        ensures
            self.comparable(other) ==> r == Ok::<Score, Error>(
                self.spec_similarity(other).quotient(),
            ),
            r matches Ok(score) ==> score.in_unit_interval(),
    ;

    /// How much of this item is found in `other`: a number from 0 to 1,
    /// which is [`Comparable::spec_containment`] divided out.
    fn containment(&self, other: &O) -> (r: Result<Score, Error>)
        ensures
            self.comparable(other) ==> r == Ok::<Score, Error>(
                self.spec_containment(other).quotient(),
            ),
            r matches Ok(score) ==> score.in_unit_interval(),
    ;
}

/// A reference compares as what it refers to.
impl<'a, N, L> Comparable<L> for &'a N where N: Comparable<L> {
    open spec fn comparable(&self, other: &L) -> bool {
        (**self).comparable(other)
    }

    open spec fn spec_similarity(&self, other: &L) -> Ratio {
        (**self).spec_similarity(other)
    }

    open spec fn spec_containment(&self, other: &L) -> Ratio {
        (**self).spec_containment(other)
    }

    /// The similarity that the item referred to gives.
    fn similarity(&self, other: &L) -> (r: Result<Score, Error>)
        ensures
            call_ensures(N::similarity, (*self, other), r),
    {
        (*self).similarity(other)
    }

    /// The containment that the item referred to gives.
    fn containment(&self, other: &L) -> (r: Result<Score, Error>)
        ensures
            call_ensures(N::containment, (*self, other), r),
    {
        (*self).containment(other)
    }
}

/// Two signatures are compared by the first sketch of each, and only
/// where both of these are MinHash sketches: any other pair is an error.
impl Comparable<Signature> for Signature {
    open spec fn comparable(&self, other: &Signature) -> bool {
        self.spec_first_minhash() is Some && other.spec_first_minhash() is Some
    }

    open spec fn spec_similarity(&self, other: &Signature) -> Ratio {
        self.spec_first_minhash()->0.spec_similarity(&other.spec_first_minhash()->0)
    }

    open spec fn spec_containment(&self, other: &Signature) -> Ratio {
        self.spec_first_minhash()->0.spec_containment(&other.spec_first_minhash()->0)
    }

    fn similarity(&self, other: &Signature) -> (r: Result<Score, Error>)
        ensures
            !self.comparable(other) ==> r == Err::<Score, Error>(Error::IncompatibleSketch),
    {
        match (self.first_minhash(), other.first_minhash()) {
            (Some(mh), Some(omh)) => Ok(mh.similarity(omh).to_score()),
            _ => Err(Error::IncompatibleSketch),
        }
    }

    fn containment(&self, other: &Signature) -> (r: Result<Score, Error>)
        ensures
            !self.comparable(other) ==> r == Err::<Score, Error>(Error::IncompatibleSketch),
    {
        match (self.first_minhash(), other.first_minhash()) {
            (Some(mh), Some(omh)) => Ok(mh.containment(omh).to_score()),
            _ => Err(Error::IncompatibleSketch),
        }
    }
}

} // verus!
