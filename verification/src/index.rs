//! What every index offers, whatever its structure: insertion, and a search
//! that filters the items it holds.

use vstd::prelude::*;

use crate::comparable::Comparable;
use crate::error::Error;
use crate::score::Score;

verus! {

/// The items that a sequence of references refers to.
pub open spec fn referents<T>(refs: Seq<&T>) -> Seq<T> {
    Seq::new(refs.len(), |i: int| *refs[i])
}

/// The elements of `items` whose mark in `keep` is set, in their order.
pub open spec fn kept<T>(items: Seq<T>, keep: Seq<bool>) -> Seq<T>
    recommends
        items.len() == keep.len(),
    decreases items.len(),
{
    if items.len() == 0 || keep.len() == 0 {
        Seq::empty()
    } else if keep.last() {
        kept(items.drop_last(), keep.drop_last()).push(items.last())
    } else {
        kept(items.drop_last(), keep.drop_last())
    }
}

/// Marking each element by a predicate and keeping the marked ones is
/// filtering by the predicate.
pub proof fn lemma_kept_is_filter<T>(items: Seq<T>, keep: Seq<bool>, pred: spec_fn(T) -> bool)
    requires
        keep.len() == items.len(),
        forall|i: int| 0 <= i < items.len() ==> #[trigger] keep[i] == pred(items[i]),
    ensures
        kept(items, keep) == items.filter(pred),
    decreases items.len(),
{
    reveal(Seq::filter);
    if items.len() > 0 {
        lemma_kept_is_filter(items.drop_last(), keep.drop_last(), pred);
    }
}

/// Whether `node` is more similar to `query` than `threshold`.
pub open spec fn spec_search_minhashes<N: Comparable<L>, L>(
    node: &N,
    query: &L,
    threshold: Score,
) -> bool {
    node.spec_similarity(query).quotient().spec_gt(threshold)
}

/// Whether more of `node` is found in `query` than `threshold`.
pub open spec fn spec_search_minhashes_containment<N: Comparable<L>, L>(
    node: &N,
    query: &L,
    threshold: Score,
) -> bool {
    node.spec_containment(query).quotient().spec_gt(threshold)
}

/// The predicate of a similarity search: whether the similarity of `node`
/// to `query` lies above `threshold`. Fails where the two
/// cannot be compared.
pub fn search_minhashes<N: Comparable<L>, L>(node: &N, query: &L, threshold: Score) -> (hit:
    Result<bool, Error>)
    ensures
        node.comparable(query) ==> hit == Ok::<bool, Error>(
            spec_search_minhashes(node, query, threshold),
        ),
{
    match node.similarity(query) {
        Ok(score) => Ok(score.gt(threshold)),
        Err(e) => Err(e),
    }
}

/// The predicate of a containment search: whether the containment of
/// `node` in `query` lies above `threshold`. Fails where the
/// two cannot be compared.
pub fn search_minhashes_containment<N: Comparable<L>, L>(
    node: &N,
    query: &L,
    threshold: Score,
) -> (hit: Result<bool, Error>)
    ensures
        node.comparable(query) ==> hit == Ok::<bool, Error>(
            spec_search_minhashes_containment(node, query, threshold),
        ),
{
    match node.containment(query) {
        Ok(score) => Ok(score.gt(threshold)),
        Err(e) => Err(e),
    }
}

/// What the outcomes of the chosen predicate mean for a search: where
/// every item is comparable with the query, the predicate passed each, so
/// the search succeeded with the items that match; and a search that failed
/// met an item that is not comparable.
proof fn lemma_search_outcome<T: Comparable<T>>(
    held: Seq<T>,
    keep: Seq<bool>,
    sig: T,
    threshold: Score,
    containment: bool,
    found: Result<Vec<&T>, Error>,
)
    requires
        keep.len() <= held.len(),
        forall|i: int|
            0 <= i < keep.len() ==> (held[i].comparable(&sig) ==> #[trigger] keep[i]
                == spec_matches(held[i], sig, threshold, containment)),
        match found {
            Ok(items) => keep.len() == held.len() && referents(items@) == kept(held, keep),
            Err(e) => keep.len() < held.len() && !held[keep.len() as int].comparable(&sig),
        },
    ensures
        (forall|i: int| 0 <= i < held.len() ==> (#[trigger] held[i]).comparable(&sig)) ==> found is Ok
            && referents(found->Ok_0@) == held.filter(
            |node: T| spec_matches(node, sig, threshold, containment),
        ),
        found is Err ==> exists|i: int| 0 <= i < held.len() && !(#[trigger] held[i]).comparable(&sig),
{
    if forall|i: int| 0 <= i < held.len() ==> (#[trigger] held[i]).comparable(&sig) {
        if found is Err {
            assert(held[keep.len() as int].comparable(&sig));
        } else {
            lemma_kept_is_filter(
                held,
                keep,
                |node: T| spec_matches(node, sig, threshold, containment),
            );
        }
    }
}

/// What a search keeps of an item: under a containment search the items
/// of which more than `threshold` is found in the query, else those that
/// are more similar to it than `threshold`.
pub open spec fn spec_matches<T: Comparable<T>>(
    node: T,
    query: T,
    threshold: Score,
    containment: bool,
) -> bool {
    if containment {
        spec_search_minhashes_containment(&node, &query, threshold)
    } else {
        spec_search_minhashes(&node, &query, threshold)
    }
}

/// Whether `states` holds the states of an index in a run of `n` steps
/// that began in the state `start`: the state before each step, and the
/// state after the last.
pub open spec fn begun<I>(states: Seq<I>, n: int, start: I) -> bool {
    0 <= n && states.len() == n + 1 && states[0] == start
}

/// What a search of the items `held` with the predicate `search_fn` comes
/// to. It succeeds with the items of which the predicate came back with
/// `Ok(true)`, in their order, where it came back with `Ok` of every item;
/// it fails with an error that the predicate came back with of one of the
/// items, every item before that one having been passed with `Ok`.
pub open spec fn found_by<T, F: Fn(&T, &T, Score) -> Result<bool, Error>>(
    held: Seq<T>,
    search_fn: F,
    sig: &T,
    threshold: Score,
    found: Result<Vec<&T>, Error>,
) -> bool {
    exists|keep: Seq<bool>|
        {
            &&& #[trigger] keep.len() <= held.len()
            &&& forall|i: int|
                0 <= i < keep.len() ==> call_ensures(
                    search_fn,
                    (&held[i], sig, threshold),
                    Ok::<bool, Error>(#[trigger] keep[i]),
                )
            &&& match found {
                Ok(items) => keep.len() == held.len() && referents(items@) == kept(held, keep),
                Err(e) => keep.len() < held.len() && call_ensures(
                    search_fn,
                    (&held[keep.len() as int], sig, threshold),
                    Err::<bool, Error>(e),
                ),
            }
        }
}

/// Whether `i` counts one of the first `n` steps of a run.
pub open spec fn step_of(i: int, n: int) -> bool {
    0 <= i < n
}

/// The multiset of the first `n` elements of `items`.
pub open spec fn first_as_multiset<T>(items: Seq<T>, n: int) -> vstd::multiset::Multiset<T> {
    items.take(n).to_multiset()
}

/// A collection of comparable items that can be added to and searched.
pub trait Index: Sized {
    type Item: Comparable<Self::Item>;

    /// The items that the index holds, in the order in which
    /// [`Index::signature_refs`] hands them out.
    spec fn held(&self) -> Seq<Self::Item>;

    /// The items for which `search_fn` holds of the item, the query `sig`
    /// and `threshold`, in the order in which the index holds them. Each
    /// reference in the result is one that [`Index::signature_refs`] gave.
    /// Where `search_fn` fails of an item the search ends there, and its
    /// error is the result.
    fn find<F>(&self, search_fn: F, sig: &Self::Item, threshold: Score) -> (found: Result<
        Vec<&Self::Item>,
        Error,
    >) where F: Fn(&Self::Item, &Self::Item, Score) -> Result<bool, Error>
        requires
            forall|i: int|
                0 <= i < self.held().len() ==> call_requires(
                    search_fn,
                    (&#[trigger] self.held()[i], sig, threshold),
                ),
        ensures
            found_by(self.held(), search_fn, sig, threshold, found),
    {
        let refs = self.signature_refs();
        let mut found: Vec<&Self::Item> = Vec::new();
        let ghost mut keep: Seq<bool> = Seq::empty();
        let mut i: usize = 0;
        while i < refs.len()
            invariant
                i <= refs.len(),
                referents(refs@) == self.held(),
                forall|k: int|
                    0 <= k < self.held().len() ==> call_requires(
                        search_fn,
                        (&#[trigger] self.held()[k], sig, threshold),
                    ),
                keep.len() == i,
                forall|k: int|
                    0 <= k < i ==> call_ensures(
                        search_fn,
                        (&self.held()[k], sig, threshold),
                        Ok::<bool, Error>(#[trigger] keep[k]),
                    ),
                referents(found@) == kept(self.held().take(i as int), keep),
            decreases refs.len() - i,
        {
            let node: &Self::Item = refs[i];
            assert(*node == self.held()[i as int]) by {
                assert(referents(refs@)[i as int] == *refs@[i as int]);
            }
            let hit = match search_fn(node, sig, threshold) {
                Ok(hit) => hit,
                Err(e) => {
                    assert(keep.len() <= self.held().len());
                    return Err(e);
                },
            };
            proof {
                let before = self.held().take(i as int);
                let after = self.held().take(i + 1);
                assert(after.drop_last() == before);
                assert(after.last() == self.held()[i as int]);
                assert(keep.push(hit).drop_last() == keep);
                keep = keep.push(hit);
            }
            if hit {
                let ghost earlier = found@;
                found.push(node);
                assert(referents(found@) =~= referents(earlier).push(*node));
            }
            i = i + 1;
        }
        proof {
            assert(referents(refs@).len() == refs@.len());
            assert(self.held().take(i as int) == self.held());
            assert(keep.len() <= self.held().len());
        }
        Ok(found)
    }

    /// The items that match the query `sig` above `threshold`, in the order
    /// in which the index holds them: by their containment in the query
    /// where `containment` is set, else by their similarity to it. A
    /// comparison that fails ends the search, and its error is the result;
    /// none fails where every item of the index is comparable with the
    /// query.
    fn search(&self, sig: &Self::Item, threshold: Score, containment: bool) -> (found: Result<
        Vec<&Self::Item>,
        Error,
    >)
        ensures
            containment ==> found_by(
                self.held(),
                search_minhashes_containment::<Self::Item, Self::Item>,
                sig,
                threshold,
                found,
            ),
            !containment ==> found_by(
                self.held(),
                search_minhashes::<Self::Item, Self::Item>,
                sig,
                threshold,
                found,
            ),
            (forall|i: int|
                0 <= i < self.held().len() ==> (#[trigger] self.held()[i]).comparable(sig))
                ==> found is Ok && referents(found->Ok_0@) == self.held().filter(
                |node: Self::Item| spec_matches(node, *sig, threshold, containment),
            ),
            found is Err ==> exists|i: int|
                0 <= i < self.held().len() && !(#[trigger] self.held()[i]).comparable(sig),
    {
        let found = if containment {
            self.find(search_minhashes_containment::<Self::Item, Self::Item>, sig, threshold)
        } else {
            self.find(search_minhashes::<Self::Item, Self::Item>, sig, threshold)
        };
        proof {
            let held = self.held();
            if containment {
                let keep = choose|keep: Seq<bool>|
                    {
                        &&& #[trigger] keep.len() <= held.len()
                        &&& forall|i: int|
                            0 <= i < keep.len() ==> call_ensures(
                                search_minhashes_containment::<Self::Item, Self::Item>,
                                (&held[i], sig, threshold),
                                Ok::<bool, Error>(#[trigger] keep[i]),
                            )
                        &&& match found {
                            Ok(items) => keep.len() == held.len() && referents(items@) == kept(
                                held,
                                keep,
                            ),
                            Err(e) => keep.len() < held.len() && call_ensures(
                                search_minhashes_containment::<Self::Item, Self::Item>,
                                (&held[keep.len() as int], sig, threshold),
                                Err::<bool, Error>(e),
                            ),
                        }
                    };
                lemma_search_outcome(held, keep, *sig, threshold, containment, found);
            } else {
                let keep = choose|keep: Seq<bool>|
                    {
                        &&& #[trigger] keep.len() <= held.len()
                        &&& forall|i: int|
                            0 <= i < keep.len() ==> call_ensures(
                                search_minhashes::<Self::Item, Self::Item>,
                                (&held[i], sig, threshold),
                                Ok::<bool, Error>(#[trigger] keep[i]),
                            )
                        &&& match found {
                            Ok(items) => keep.len() == held.len() && referents(items@) == kept(
                                held,
                                keep,
                            ),
                            Err(e) => keep.len() < held.len() && call_ensures(
                                search_minhashes::<Self::Item, Self::Item>,
                                (&held[keep.len() as int], sig, threshold),
                                Err::<bool, Error>(e),
                            ),
                        }
                    };
                lemma_search_outcome(held, keep, *sig, threshold, containment, found);
            }
        }
        found
    }

    /// Adds one item. On success the index holds what it held and the new
    /// item; on failure it holds what it held.
    fn insert(&mut self, node: Self::Item) -> (r: Result<(), Error>)
        ensures
            r is Ok ==> final(self).held().to_multiset() == old(self).held().to_multiset().insert(
                node,
            ),
            r is Err ==> final(self).held() == old(self).held(),
    ;

    /// Adds the items one after the other, in their order, and stops at the
    /// first that the index refuses: the items before it stay in the index,
    /// no item after it is offered, and its error is the result. Where the
    /// index takes every item the result is `Ok`.
    ///
    /// The contract speaks of the insertions that were made. `states` holds
    /// the state of the index before each of them and after the last that
    /// succeeded; `n` of them succeeded, one for each of the first `n`
    /// items. Either that is all the items, or the insertion of the next
    /// item failed with the error that is the result.
    fn batch_insert(&mut self, nodes: Vec<Self::Item>) -> (r: Result<(), Error>)
        ensures
            exists|states: Seq<Self>, n: int|
                {
                    &&& #[trigger] begun(states, n, *old(self))
                    &&& n <= nodes.len()
                    &&& forall|i: int| #[trigger]
                        step_of(i, n) ==> exists|borrow: &mut Self, taken: Result<(), Error>|
                            *borrow == states[i] && #[trigger] call_ensures(
                                Self::insert,
                                (borrow, nodes@[i]),
                                taken,
                            ) && taken is Ok && *final(borrow) == states[i + 1]
                    &&& r is Ok ==> n == nodes.len() && *final(self) == states[n]
                    &&& r matches Err(e) ==> n < nodes.len() && exists|borrow: &mut Self|
                        *borrow == states[n] && #[trigger] call_ensures(
                            Self::insert,
                            (borrow, nodes@[n]),
                            Err::<(), Error>(e),
                        ) && *final(borrow) == *final(self)
                },
            r is Ok ==> final(self).held().to_multiset() == old(self).held().to_multiset().add(
                nodes@.to_multiset(),
            ),
            r is Err ==> exists|n: int|
                0 <= n < nodes.len() && final(self).held().to_multiset() == old(
                    self,
                ).held().to_multiset().add(#[trigger] first_as_multiset(nodes@, n)),
    {
        let ghost all = nodes@;
        let ghost start = self.held().to_multiset();
        let ghost mut states: Seq<Self> = seq![*self];
        let ghost mut n: int = 0;
        proof {
            Seq::<Self::Item>::empty().to_multiset_ensures();
            assert(all.take(0) =~= Seq::<Self::Item>::empty());
            assert(start.add(first_as_multiset(all, 0)) =~= start);
        }
        for node in it: nodes
            invariant
                start == old(self).held().to_multiset(),
                it.seq() == all,
                all == nodes@,
                self.held().to_multiset() == start.add(first_as_multiset(all, it.index() as int)),
                n == it.index(),
                begun(states, n, *old(self)),
                states[n] == *self,
                forall|i: int| #[trigger]
                    step_of(i, n) ==> exists|borrow: &mut Self, taken: Result<(), Error>|
                        *borrow == states[i] && #[trigger] call_ensures(
                            Self::insert,
                            (borrow, nodes@[i]),
                            taken,
                        ) && taken is Ok && *final(borrow) == states[i + 1],
        {
            let ghost done = n;
            let ghost before = *self;
            let ghost earlier = states;
            assert(node == nodes@[done]);
            let outcome = self.insert(node);
            let ghost after = *self;
            proof {
                assert(exists|borrow: &mut Self|
                    *borrow == before && #[trigger] call_ensures(
                        Self::insert,
                        (borrow, nodes@[done]),
                        outcome,
                    ) && *final(borrow) == after);
            }
            if let Err(e) = outcome {
                proof {
                    assert(begun(states, done, *old(self)));
                    assert(states[done] == before);
                    assert(done < nodes@.len());
                    assert(exists|borrow: &mut Self|
                        *borrow == states[done] && #[trigger] call_ensures(
                            Self::insert,
                            (borrow, nodes@[done]),
                            Err::<(), Error>(e),
                        ) && *final(borrow) == *self);
                }
                return Err(e);
            }
            proof {
                let prefix = all.take(done);
                let longer = all.take(done + 1);
                assert(longer =~= prefix.push(all[done]));
                prefix.to_multiset_ensures();
                assert(start.add(prefix.to_multiset()).insert(all[done]) =~= start.add(
                    longer.to_multiset(),
                ));
                states = earlier.push(after);
                n = n + 1;
                assert(states[done] == before);
                assert(states[done + 1] == after);
                assert forall|i: int| #[trigger] step_of(i, n) implies exists|
                    borrow: &mut Self,
                    taken: Result<(), Error>,
                |
                    *borrow == states[i] && #[trigger] call_ensures(
                        Self::insert,
                        (borrow, nodes@[i]),
                        taken,
                    ) && taken is Ok && *final(borrow) == states[i + 1] by {
                    if i < done {
                        assert(step_of(i, done));
                        assert(states[i] == earlier[i]);
                        assert(states[i + 1] == earlier[i + 1]);
                    }
                }
            }
        }
        proof {
            assert(all.take(all.len() as int) =~= all);
            assert(begun(states, n, *old(self)));
            assert(n == nodes@.len());
            assert(states[n] == *self);
        }
        Ok(())
    }

    /// The items of the index, each as a copy of its own.
    fn signatures(&self) -> (items: Vec<Self::Item>)
        ensures
            items.len() == self.held().len(),
    ;

    /// The items of the index, by reference and without copying them.
    fn signature_refs(&self) -> (refs: Vec<&Self::Item>)
        ensures
            referents(refs@) == self.held(),
    ;
}

/// The plainest index: its items in a row, in the order in which they
/// came, up to a limit on their number.
pub struct LinearIndex<T> {
    datasets: Vec<T>,
    limit: usize,
}

impl<T> LinearIndex<T> {
    /// The items, in the order in which they came.
    pub closed spec fn view(&self) -> Seq<T> {
        self.datasets@
    }

    /// The most items that the index takes.
    pub closed spec fn capacity(&self) -> usize {
        self.limit
    }

    /// What holds of every index that was made empty and added to: it
    /// holds no more items than it takes.
    pub open spec fn valid(&self) -> bool {
        self@.len() <= self.capacity()
    }

    /// An empty index that takes as many items as memory holds.
    pub fn new() -> (index: LinearIndex<T>)
        ensures
            index@ == Seq::<T>::empty(),
            index.capacity() == usize::MAX,
            index.valid(),
    {
        LinearIndex { datasets: Vec::new(), limit: usize::MAX }
    }

    /// An empty index that takes `limit` items and refuses any further one.
    pub fn bounded(limit: usize) -> (index: LinearIndex<T>)
        ensures
            index@ == Seq::<T>::empty(),
            index.capacity() == limit,
            index.valid(),
    {
        LinearIndex { datasets: Vec::new(), limit }
    }

    /// The number of items in the index.
    pub fn len(&self) -> (n: usize)
        ensures
            n == self@.len(),
    {
        self.datasets.len()
    }
}

impl<T: Comparable<T> + Clone> Index for LinearIndex<T> {
    type Item = T;

    open spec fn held(&self) -> Seq<T> {
        self@
    }

    /// Puts the item behind those that the index holds, or refuses it
    /// where the index is full.
    fn insert(&mut self, node: T) -> (r: Result<(), Error>)
        ensures
            r is Ok <==> old(self)@.len() < old(self).capacity(),
            r is Ok ==> final(self)@ == old(self)@.push(node),
            r is Err ==> final(self)@ == old(self)@,
            r matches Err(e) ==> e == Error::Rejected,
            final(self).capacity() == old(self).capacity(),
            old(self).valid() ==> final(self).valid(),
    {
        if self.datasets.len() >= self.limit {
            return Err(Error::Rejected);
        }
        proof {
            self.datasets@.to_multiset_ensures();
        }
        self.datasets.push(node);
        Ok(())
    }

    /// A copy of each item, in the order of the index: what `clone` gives
    /// of it.
    fn signatures(&self) -> (items: Vec<T>)
        ensures
            forall|i: int|
                0 <= i < items.len() ==> call_ensures(T::clone, (&self@[i],), #[trigger] items@[i]),
    {
        let mut items: Vec<T> = Vec::new();
        let mut i: usize = 0;
        while i < self.datasets.len()
            invariant
                i <= self.datasets.len(),
                items.len() == i,
                forall|k: int|
                    0 <= k < i ==> call_ensures(
                        T::clone,
                        (&self.datasets@[k],),
                        #[trigger] items@[k],
                    ),
            decreases self.datasets.len() - i,
        {
            let copy = self.datasets[i].clone();
            items.push(copy);
            i = i + 1;
        }
        items
    }

    fn signature_refs(&self) -> (refs: Vec<&T>) {
        let mut refs: Vec<&T> = Vec::new();
        let mut i: usize = 0;
        while i < self.datasets.len()
            invariant
                i <= self.datasets.len(),
                referents(refs@) == self.datasets@.take(i as int),
            decreases self.datasets.len() - i,
        {
            let ghost earlier = refs@;
            refs.push(&self.datasets[i]);
            assert(referents(refs@) =~= referents(earlier).push(self.datasets@[i as int]));
            assert(self.datasets@.take(i + 1) =~= self.datasets@.take(i as int).push(
                self.datasets@[i as int],
            ));
            i = i + 1;
        }
        assert(self.datasets@.take(i as int) =~= self.datasets@);
        refs
    }
}

/// What [`Index::batch_insert`] comes to for the plainest index, from what
/// its contract says of the insertions made: it succeeds exactly where the
/// index has room for all the items, and then holds them behind what it
/// held, in their order; else it holds as many of them as it had room for,
/// and the result is the refusal of the next.
pub proof fn lemma_batch_into_linear<T: Comparable<T> + Clone>(
    before: LinearIndex<T>,
    nodes: Seq<T>,
    after: LinearIndex<T>,
    r: Result<(), Error>,
    states: Seq<LinearIndex<T>>,
    n: int,
)
    requires
        before.valid(),
        begun(states, n, before),
        n <= nodes.len(),
        forall|i: int| #[trigger]
            step_of(i, n) ==> exists|borrow: &mut LinearIndex<T>, taken: Result<(), Error>|
                *borrow == states[i] && #[trigger] call_ensures(
                    <LinearIndex<T> as Index>::insert,
                    (borrow, nodes[i]),
                    taken,
                ) && taken is Ok && *final(borrow) == states[i + 1],
        r is Ok ==> n == nodes.len() && after == states[n],
        r matches Err(e) ==> n < nodes.len() && exists|borrow: &mut LinearIndex<T>|
            *borrow == states[n] && #[trigger] call_ensures(
                <LinearIndex<T> as Index>::insert,
                (borrow, nodes[n]),
                Err::<(), Error>(e),
            ) && *final(borrow) == after,
    ensures
        r is Ok <==> before@.len() + nodes.len() <= before.capacity(),
        r is Ok ==> after@ == before@ + nodes,
        r matches Err(e) ==> e == Error::Rejected && after@ == before@ + nodes.take(
            before.capacity() - before@.len(),
        ),
        after.capacity() == before.capacity(),
        after.valid(),
{
    lemma_linear_steps(nodes, states, n, n);
    assert(nodes.take(nodes.len() as int) =~= nodes);
    assert(states[n]@.len() == before@.len() + n);
    if r is Err {
        let e = r->Err_0;
        let borrow = choose|borrow: &mut LinearIndex<T>|
            *borrow == states[n] && #[trigger] call_ensures(
                <LinearIndex<T> as Index>::insert,
                (borrow, nodes[n]),
                Err::<(), Error>(e),
            ) && *final(borrow) == after;
        assert(states[n]@.len() >= states[n].capacity());
        assert(after@ == states[n]@);
        assert(n == before.capacity() - before@.len());
    }
}

/// Each insertion that succeeded put its item behind the others and found
/// room for it.
proof fn lemma_linear_steps<T: Comparable<T> + Clone>(
    nodes: Seq<T>,
    states: Seq<LinearIndex<T>>,
    n: int,
    k: int,
)
    requires
        0 <= k <= n <= nodes.len(),
        states.len() == n + 1,
        forall|i: int| #[trigger]
            step_of(i, n) ==> exists|borrow: &mut LinearIndex<T>, taken: Result<(), Error>|
                *borrow == states[i] && #[trigger] call_ensures(
                    <LinearIndex<T> as Index>::insert,
                    (borrow, nodes[i]),
                    taken,
                ) && taken is Ok && *final(borrow) == states[i + 1],
    ensures
        states[k]@ == states[0]@ + nodes.take(k),
        states[k].capacity() == states[0].capacity(),
        states[k]@.len() <= states[0].capacity() || k == 0,
    decreases k,
{
    if k == 0 {
        assert(states[0]@ + nodes.take(0) =~= states[0]@);
    } else {
        lemma_linear_steps(nodes, states, n, k - 1);
        assert(step_of(k - 1, n));
        assert(nodes.take(k) =~= nodes.take(k - 1).push(nodes[k - 1]));
        assert(states[0]@ + nodes.take(k) =~= (states[0]@ + nodes.take(k - 1)).push(nodes[k - 1]));
    }
}

} // verus!
