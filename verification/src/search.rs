//! The search policy: which similarity is scored, and which scores are
//! accepted.
//!
//! A [`JaccardSearch`] is shared by the branches of one traversal of an
//! index. Its threshold sits in an atomic cell, so a branch that finds a
//! better match can raise it for all the others. What a contract here says
//! of the threshold therefore holds whatever the cell held at the moment it
//! was read; the rules themselves are [`Score::clears`] and [`Score::max`],
//! and the laws at the end of this file are stated of those.

use atomic_float::AtomicF64;
use vstd::prelude::*;

use crate::error::Error;
use crate::score::{Ratio, Score};
use crate::sketch::Signature;
use crate::threshold;

verus! {

/// The similarity that a search scores by.
#[derive(Clone, Copy, Debug, PartialEq, Eq, Structural)]
pub enum SearchType {
    /// Shared hashes over the size of the union.
    Jaccard,
    /// Shared hashes over the size of the query.
    Containment,
    /// Shared hashes over the size of the smaller of query and subject.
    MaxContainment,
}

impl SearchType {
    /// Whether the similarity only makes sense between scaled sketches:
    /// true of the two containments.
    pub open spec fn needs_scaled(self) -> bool {
        self != SearchType::Jaccard
    }
}

/// The smaller of two sizes.
pub open spec fn smaller(a: u64, b: u64) -> u64 {
    if a <= b {
        a
    } else {
        b
    }
}

/// The score of a subject against a query under each kind of search,
/// before it is divided out, from the four sizes: those of the query, of
/// what both share, of the subject, and of their union.
pub open spec fn spec_score(
    search_type: SearchType,
    query_size: u64,
    shared_size: u64,
    subject_size: u64,
    total_size: u64,
) -> Ratio {
    match search_type {
        SearchType::Jaccard => Ratio { numerator: shared_size, denominator: total_size },
        SearchType::Containment => if query_size == 0 {
            Ratio::spec_zero()
        } else {
            Ratio { numerator: shared_size, denominator: query_size }
        },
        SearchType::MaxContainment => if smaller(query_size, subject_size) == 0 {
            Ratio::spec_zero()
        } else {
            Ratio { numerator: shared_size, denominator: smaller(query_size, subject_size) }
        },
    }
}

/// A search policy: the kind of similarity, a threshold that the branches
/// of a traversal share, and whether only the best match is wanted.
pub struct JaccardSearch {
    search_type: SearchType,
    threshold: AtomicF64,
    require_scaled: bool,
    best_only: bool,
}

impl JaccardSearch {
    #[verifier::type_invariant]
    spec fn well_formed(self) -> bool {
        self.require_scaled == self.search_type.needs_scaled()
    }

    /// The kind of similarity that the search scores by.
    pub closed spec fn kind(&self) -> SearchType {
        self.search_type
    }

    /// Whether the search asks for scaled sketches.
    pub closed spec fn scaled_only(&self) -> bool {
        self.require_scaled
    }

    /// Whether the search keeps raising its threshold to the best score
    /// collected so far.
    pub closed spec fn adaptive(&self) -> bool {
        self.best_only
    }

    /// A search of the given kind, with a threshold of zero, that collects
    /// every match.
    pub fn new(search_type: SearchType) -> (search: JaccardSearch)
        ensures
            search.kind() == search_type,
            search.scaled_only() == search_type.needs_scaled(),
            !search.adaptive(),
            search.made_at_zero(),
    {
        let require_scaled = match search_type {
            SearchType::Containment | SearchType::MaxContainment => true,
            SearchType::Jaccard => false,
        };
        JaccardSearch {
            search_type,
            threshold: threshold::zeroed(),
            require_scaled,
            best_only: false,
        }
    }

    /// A search of the given kind that starts from the given threshold.
    pub fn with_threshold(search_type: SearchType, threshold: Score) -> (search: JaccardSearch)
        ensures
            search.kind() == search_type,
            search.scaled_only() == search_type.needs_scaled(),
            !search.adaptive(),
            search.made_at_zero(),
            search.set_to(threshold),
    {
        let s = JaccardSearch::new(search_type);
        s.set_threshold(threshold);
        s
    }

    /// Turns the raising of the threshold on or off.
    pub fn set_best_only(&mut self, best_only: bool)
        ensures
            final(self).adaptive() == best_only,
            final(self).kind() == old(self).kind(),
            final(self).scaled_only() == old(self).scaled_only(),
    {
        proof {
            use_type_invariant(&*self);
        }
        self.best_only = best_only;
    }

    /// Overwrites the shared threshold.
    pub fn set_threshold(&self, threshold: Score)
        ensures
            self.set_to(threshold),
    {
        threshold::overwrite(&self.threshold, threshold);
    }

    /// The threshold at the moment of the call.
    pub fn threshold(&self) -> (threshold: Score)
        ensures
            self.reads(threshold),
    {
        threshold::current(&self.threshold)
    }

    /// The kind of similarity that the search scores by.
    pub fn search_type(&self) -> (search_type: SearchType)
        ensures
            search_type == self.kind(),
    {
        self.search_type
    }

    /// Whether the search asks for scaled sketches: true of the two
    /// containments, false of Jaccard.
    pub fn require_scaled(&self) -> (scaled: bool)
        ensures
            scaled == self.scaled_only(),
            scaled == self.kind().needs_scaled(),
    {
        proof {
            use_type_invariant(self);
        }
        self.require_scaled
    }

    /// Whether the search raises its threshold to the best score collected.
    pub fn best_only(&self) -> (best_only: bool)
        ensures
            best_only == self.adaptive(),
    {
        self.best_only
    }

    /// Whether a signature can be searched for under this policy. Every
    /// signature is accepted: that its sketches are scaled, where the search
    /// asks for it, is left to the caller.
    pub fn check_is_compatible(&self, sig: &Signature) -> (r: Result<(), Error>)
        ensures
            r is Ok,
    {
        Ok(())
    }

    /// The score of a subject against a query, from their sizes, the size
    /// of what they share and the size of their union: the count of shared
    /// hashes divided by the size that this kind of search normalises by,
    /// and zero where that size is zero under either containment.
    pub fn score(
        &self,
        query_size: u64,
        shared_size: u64,
        subject_size: u64,
        total_size: u64,
    ) -> (score: Score)
        ensures
            score == spec_score(
                self.kind(),
                query_size,
                shared_size,
                subject_size,
                total_size,
            ).quotient(),
    {
        self.ratio(query_size, shared_size, subject_size, total_size).to_score()
    }

    /// The score before it is divided out: the count of shared hashes over
    /// the size that this kind of search normalises by.
    pub fn ratio(
        &self,
        query_size: u64,
        shared_size: u64,
        subject_size: u64,
        total_size: u64,
    ) -> (ratio: Ratio)
        ensures
            ratio == spec_score(self.kind(), query_size, shared_size, subject_size, total_size),
    {
        match self.search_type {
            SearchType::Jaccard => Ratio { numerator: shared_size, denominator: total_size },
            SearchType::Containment => {
                if query_size == 0 {
                    Ratio::zero()
                } else {
                    Ratio { numerator: shared_size, denominator: query_size }
                }
            },
            SearchType::MaxContainment => {
                let min_denom: u64 = if query_size <= subject_size {
                    query_size
                } else {
                    subject_size
                };
                if min_denom == 0 {
                    Ratio::zero()
                } else {
                    Ratio { numerator: shared_size, denominator: min_denom }
                }
            },
        }
    }

    /// Records a match. Where only the best match is wanted, the shared
    /// threshold is raised to the score if it lies below it, and never
    /// lowered. The match is always to be kept: a caller that filters does
    /// so with [`JaccardSearch::passes`].
    pub fn collect(&self, score: Score, subj: &Signature) -> (keep: bool)
        ensures
            keep,
            self.collected(score),
    {
        threshold::raise(&self.threshold, score, self.best_only);
        true
    }

    /// Whether a score meets the threshold as it stands at the moment of
    /// the call: the score must be above zero and at least the threshold.
    /// Whatever the threshold, a score that is not above zero fails.
    pub fn passes(&self, score: Score) -> (ok: bool)
        ensures
            exists|threshold: Score| #[trigger]
                self.reads(threshold) && ok == score.spec_clears(threshold),
            ok ==> score.positive(),
    {
        let threshold = threshold::current(&self.threshold);
        assert(self.reads(threshold));
        score.clears(threshold)
    }

    /// Whether the cell of the shared threshold is one that was made to hold
    /// zero.
    pub closed spec fn made_at_zero(&self) -> bool {
        call_ensures(threshold::zeroed, (), self.threshold)
    }

    /// Whether an overwrite of the shared threshold with `threshold` was
    /// made and has returned: the cell was handed that number to store.
    pub closed spec fn set_to(&self, threshold: Score) -> bool {
        threshold::stored_in(&self.threshold, threshold)
    }

    /// Whether a match with `score` was collected: the shared threshold was
    /// handed `score`, together with whether only the best match is wanted,
    /// to be replaced in one step by what [`Score::raised_bits`] makes of
    /// the number it held and these two.
    pub closed spec fn collected(&self, score: Score) -> bool {
        call_ensures(threshold::raise, (&self.threshold, score, self.best_only), ())
    }

    /// Whether `threshold` is a number that a read of the shared threshold
    /// gives. The threshold is shared, so what a read gives depends on the
    /// moment: two reads need not agree.
    pub closed spec fn reads(&self, threshold: Score) -> bool {
        threshold::read_of(&self.threshold, threshold)
    }
}

/// The threshold that results from `initial` when it is raised, in turn, to
/// each of `scores`.
pub open spec fn raised_by(initial: Score, scores: Seq<Score>) -> Score
    decreases scores.len(),
{
    if scores.len() == 0 {
        initial
    } else {
        raised_by(initial, scores.drop_last()).spec_max(scores.last())
    }
}

/// Under a containment search a query without hashes scores zero against
/// every subject, whatever the two are said to share.
pub proof fn lemma_empty_query_scores_zero(shared_size: u64, subject_size: u64, total_size: u64)
    ensures
        spec_score(SearchType::Containment, 0, shared_size, subject_size, total_size)
            == Ratio::spec_zero(),
        spec_score(SearchType::MaxContainment, 0, shared_size, subject_size, total_size)
            == Ratio::spec_zero(),
        Ratio::spec_zero().quotient() == (Score { bits: 0 }),
        !Ratio::spec_zero().quotient().positive(),
{
}

/// Under a search by the larger containment an empty subject scores zero
/// as well.
pub proof fn lemma_empty_subject_scores_zero(query_size: u64, shared_size: u64, total_size: u64)
    ensures
        spec_score(SearchType::MaxContainment, query_size, shared_size, 0, total_size)
            == Ratio::spec_zero(),
{
}

/// A score that is not above zero is accepted under no threshold.
pub proof fn lemma_nonpositive_never_clears(score: Score, threshold: Score)
    requires
        !score.positive(),
    ensures
        !score.spec_clears(threshold),
{
}

/// When the threshold moves up from `lower` to `higher`, a score above zero
/// that lies between the two, `lower <= score < higher`, is accepted before
/// the move and rejected after it.
pub proof fn lemma_higher_threshold_rejects(score: Score, lower: Score, higher: Score)
    requires
        lower.spec_lt(higher),
        score.spec_ge(lower),
        score.spec_lt(higher),
        score.positive(),
    ensures
        score.spec_clears(lower),
        !score.spec_clears(higher),
{
}

/// Raising never lowers: the threshold after a raise is at least the
/// threshold before it, and at least the score it was raised to.
pub proof fn lemma_raise_never_lowers(threshold: Score, score: Score)
    ensures
        !threshold.nan() ==> threshold.spec_max(score).spec_ge(threshold),
        !score.nan() ==> threshold.spec_max(score).spec_ge(score),
        threshold.spec_max(score) == threshold || threshold.spec_max(score) == score,
{
}

/// After any sequence of raises the threshold is the maximum of where it
/// started and the scores it was raised to: it is one of them, and it is at
/// least each of them that is a number.
pub proof fn lemma_raised_is_maximum(initial: Score, scores: Seq<Score>)
    ensures
        raised_by(initial, scores) == initial || scores.contains(raised_by(initial, scores)),
        !initial.nan() ==> raised_by(initial, scores).spec_ge(initial),
        forall|i: int|
            0 <= i < scores.len() && !(#[trigger] scores[i]).nan() ==> raised_by(
                initial,
                scores,
            ).spec_ge(scores[i]),
    decreases scores.len(),
{
    if scores.len() > 0 {
        let front = scores.drop_last();
        let before = raised_by(initial, front);
        let after = raised_by(initial, scores);
        lemma_raised_is_maximum(initial, front);
        lemma_raise_never_lowers(before, scores.last());
        if after != initial && after != scores.last() {
            assert(front.contains(before));
            let k = choose|k: int| 0 <= k < front.len() && front[k] == before;
            assert(scores[k] == after);
        }
        assert forall|i: int| 0 <= i < scores.len() && !(#[trigger] scores[i]).nan() implies after.spec_ge(
            scores[i],
        ) by {
            if i < front.len() {
                assert(front[i] == scores[i]);
                assert(before.spec_ge(front[i]));
            }
        }
    }
}

/// The order of the raises does not matter: two sequences that hold the
/// same scores, each as often as the other, lead from one starting
/// threshold to the same number.
pub proof fn lemma_raise_order_is_irrelevant(initial: Score, first: Seq<Score>, second: Seq<Score>)
    requires
        first.to_multiset() == second.to_multiset(),
    ensures
        raised_by(initial, first).nan() == raised_by(initial, second).nan(),
        raised_by(initial, first).rank() == raised_by(initial, second).rank()
            || raised_by(initial, first).nan(),
{
    let a = raised_by(initial, first);
    let b = raised_by(initial, second);
    lemma_raised_is_maximum(initial, first);
    lemma_raised_is_maximum(initial, second);
    lemma_dominates(initial, first, second);
    lemma_dominates(initial, second, first);
}

/// What a sequence of raises reaches is reached, or passed, by any
/// sequence that holds the same scores.
proof fn lemma_dominates(initial: Score, first: Seq<Score>, second: Seq<Score>)
    requires
        first.to_multiset() == second.to_multiset(),
    ensures
        !raised_by(initial, first).nan() ==> raised_by(initial, second).spec_ge(
            raised_by(initial, first),
        ),
{
    let a = raised_by(initial, first);
    lemma_raised_is_maximum(initial, first);
    lemma_raised_is_maximum(initial, second);
    if !a.nan() && a != initial {
        first.to_multiset_ensures();
        second.to_multiset_ensures();
        assert(first.contains(a));
        assert(first.to_multiset().count(a) > 0);
        assert(second.contains(a));
        let k = choose|k: int| 0 <= k < second.len() && second[k] == a;
        assert(!second[k].nan());
    }
}

} // verus!
