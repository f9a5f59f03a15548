//! The items held by an index: signatures and their sketches.

use vstd::prelude::*;

use crate::rounding::{lemma_quotient_of_equal_counts, ONE_BITS};
use crate::score::{Ratio, Score};

verus! {

/// The most hashes that a sketch holds. No sketch in memory comes near it;
/// the bound keeps the sizes of two sketches, added up, within 64 bits.
pub const MAX_HASHES: u64 = 0x7fff_ffff_ffff_ffff;

/// A MinHash sketch: a set of hashes, kept in ascending order, and the
/// bound that the sketch was scaled with.
#[derive(Debug)]
pub struct MinHash {
    mins: Vec<u64>,
    max_hash: u64,
}

impl Clone for MinHash {
    /// A sketch of the same hashes and bound.
    fn clone(&self) -> (copy: MinHash)
        ensures
            copy@ == self@,
            copy.bound() == self.bound(),
    {
        proof {
            use_type_invariant(self);
        }
        let mins = self.mins.clone();
        assert(mins@ =~= self.mins@);
        MinHash { mins, max_hash: self.max_hash }
    }
}

/// True when no element exceeds `bound`, or `bound` is zero and so stands
/// for no bound at all.
pub open spec fn respects_bound(s: Seq<u64>, bound: u64) -> bool {
    bound == 0 || forall|i: int| 0 <= i < s.len() ==> s[i] <= bound
}

/// True when each element is larger than the one before it.
pub open spec fn ascending(s: Seq<u64>) -> bool {
    forall|i: int, j: int| 0 <= i < j < s.len() ==> s[i] < s[j]
}

impl MinHash {
    #[verifier::type_invariant]
    spec fn well_formed(self) -> bool {
        self.valid()
    }

    /// What holds of every sketch: its hashes are in ascending order, none
    /// exceeds its bound, and there are not too many of them.
    pub open spec fn valid(&self) -> bool {
        &&& ascending(self@)
        &&& self@.len() <= MAX_HASHES
        &&& respects_bound(self@, self.bound())
    }

    /// The hashes of the sketch, in ascending order.
    pub closed spec fn view(&self) -> Seq<u64> {
        self.mins@
    }

    /// The hashes of the sketch, as a set.
    pub open spec fn hashes(&self) -> Set<u64> {
        self@.to_set()
    }

    /// The largest hash that the sketch admits; zero where it has no bound.
    pub closed spec fn bound(&self) -> u64 {
        self.max_hash
    }

    /// A sketch of the given hashes, scaled with the bound `max_hash`, or
    /// without a bound where that is zero. `None` where the hashes are not
    /// in strictly ascending order, or one of them exceeds the bound.
    pub fn from_sorted(mins: Vec<u64>, max_hash: u64) -> (sketch: Option<MinHash>)
        ensures
            sketch is Some <==> ascending(mins@) && mins@.len() <= MAX_HASHES && respects_bound(
                mins@,
                max_hash,
            ),
            sketch matches Some(s) ==> s@ == mins@ && s.bound() == max_hash && s.valid(),
    {
        if mins.len() as u64 > MAX_HASHES {
            return None;
        }
        let mut i: usize = 1;
        while i < mins.len()
            invariant
                1 <= i,
                forall|k: int| 0 < k < i && k < mins.len() ==> mins[k - 1] < #[trigger] mins[k],
            decreases mins.len() - i,
        {
            if mins[i - 1] >= mins[i] {
                return None;
            }
            i = i + 1;
        }
        proof {
            lemma_adjacent_ascending(mins@);
        }
        if max_hash != 0 && mins.len() > 0 && mins[mins.len() - 1] > max_hash {
            return None;
        }
        Some(MinHash { mins, max_hash })
    }

    /// The number of hashes in the sketch.
    pub fn size(&self) -> (n: usize)
        ensures
            n == self@.len(),
            n == self.hashes().len(),
            self.valid(),
    {
        proof {
            use_type_invariant(self);
            lemma_ascending_distinct(self.mins@);
            self.mins@.unique_seq_to_set();
        }
        self.mins.len()
    }

    /// The hashes of the sketch, in ascending order.
    pub fn mins(&self) -> (hashes: Vec<u64>)
        ensures
            hashes@ == self@,
            self.valid(),
    {
        proof {
            use_type_invariant(self);
        }
        let hashes = self.mins.clone();
        assert(hashes@ =~= self.mins@);
        hashes
    }

    /// The bound that the sketch was scaled with.
    pub fn max_hash(&self) -> (bound: u64)
        ensures
            bound == self.bound(),
    {
        self.max_hash
    }

    /// How many hashes the two sketches share.
    pub open spec fn common(&self, other: &MinHash) -> nat {
        self.hashes().intersect(other.hashes()).len()
    }

    /// The hashes of this sketch that a sketch scaled with `bound` would
    /// have kept.
    pub open spec fn downsampled(&self, bound: u64) -> Set<u64> {
        within(self.hashes(), bound)
    }

    /// The similarity of two sketches: both are cut down to the smaller of
    /// their bounds, and what the results share is set against the size of
    /// their union. Two sketches that are then both empty have similarity
    /// zero.
    pub open spec fn spec_similarity(&self, other: &MinHash) -> Ratio {
        let bound = shared_bound(self.bound(), other.bound());
        let a = self.downsampled(bound);
        let b = other.downsampled(bound);
        if a.union(b).len() == 0 {
            Ratio::spec_zero()
        } else {
            Ratio { numerator: a.intersect(b).len() as u64, denominator: a.union(b).len() as u64 }
        }
    }

    /// How much of this sketch is found in the other: what the two share,
    /// set against the size of this one. An empty sketch is contained in
    /// nothing: its containment is zero.
    pub open spec fn spec_containment(&self, other: &MinHash) -> Ratio {
        if self.hashes().len() == 0 {
            Ratio::spec_zero()
        } else {
            Ratio { numerator: self.common(other) as u64, denominator: self.hashes().len() as u64 }
        }
    }

    /// The number of hashes that the two sketches share.
    pub fn count_common(&self, other: &MinHash) -> (n: u64)
        ensures
            n == self.common(other),
            n <= self.hashes().len(),
    {
        proof {
            use_type_invariant(self);
            use_type_invariant(other);
        }
        let (shared, _total) = overlap(&self.mins, self.mins.len(), &other.mins, other.mins.len());
        proof {
            assert(self.mins@.take(self.mins@.len() as int) == self.mins@);
            assert(other.mins@.take(other.mins@.len() as int) == other.mins@);
            vstd::set_lib::lemma_len_intersect(self.hashes(), other.hashes());
        }
        shared
    }

    /// The similarity of the two sketches, as [`MinHash::spec_similarity`]
    /// defines it.
    pub fn similarity(&self, other: &MinHash) -> (r: Ratio)
        ensures
            r == self.spec_similarity(other),
            r.is_fraction(),
    {
        proof {
            use_type_invariant(self);
            use_type_invariant(other);
        }
        let bound = smaller_bound(self.max_hash, other.max_hash);
        let la = count_within(&self.mins, bound);
        let lb = count_within(&other.mins, bound);
        let (shared, total) = overlap(&self.mins, la, &other.mins, lb);
        proof {
            let a = self.downsampled(bound);
            let b = other.downsampled(bound);
            vstd::set_lib::lemma_len_intersect(a, b);
            vstd::set_lib::lemma_len_subset(a, a.union(b));
        }
        if total == 0 {
            Ratio::zero()
        } else {
            Ratio { numerator: shared, denominator: total }
        }
    }

    /// How much of this sketch is found in the other, as
    /// [`MinHash::spec_containment`] defines it.
    pub fn containment(&self, other: &MinHash) -> (r: Ratio)
        ensures
            r == self.spec_containment(other),
            r.is_fraction(),
    {
        let size = self.size();
        if size == 0 {
            return Ratio::zero();
        }
        let shared = self.count_common(other);
        Ratio { numerator: shared, denominator: size as u64 }
    }
}

/// A sequence in which each element is larger than its predecessor is
/// ascending.
pub proof fn lemma_adjacent_ascending(s: Seq<u64>)
    requires
        forall|k: int| 0 < k < s.len() ==> s[k - 1] < #[trigger] s[k],
    ensures
        ascending(s),
{
    assert forall|i: int, j: int| 0 <= i < j < s.len() implies s[i] < s[j] by {
        lemma_adjacent_step(s, i, j);
    }
}

proof fn lemma_adjacent_step(s: Seq<u64>, i: int, j: int)
    requires
        forall|k: int| 0 < k < s.len() ==> s[k - 1] < #[trigger] s[k],
        0 <= i < j < s.len(),
    ensures
        s[i] < s[j],
    decreases j - i,
{
    if i + 1 < j {
        lemma_adjacent_step(s, i, j - 1);
    }
}

/// An ascending sequence holds no element twice.
pub proof fn lemma_ascending_distinct(s: Seq<u64>)
    requires
        ascending(s),
    ensures
        s.no_duplicates(),
{
}

/// The bound that two sketches can both be cut down to: the smaller of
/// their bounds, where zero stands for a sketch without one.
pub open spec fn shared_bound(a: u64, b: u64) -> u64 {
    if a == 0 {
        b
    } else if b == 0 {
        a
    } else if a <= b {
        a
    } else {
        b
    }
}

/// The hashes of a set that do not exceed `bound`; all of them where
/// `bound` is zero.
pub open spec fn within(hashes: Set<u64>, bound: u64) -> Set<u64> {
    hashes.filter(|h: u64| bound == 0 || h <= bound)
}

fn smaller_bound(a: u64, b: u64) -> (bound: u64)
    ensures
        bound == shared_bound(a, b),
{
    if a == 0 {
        b
    } else if b == 0 {
        a
    } else if a <= b {
        a
    } else {
        b
    }
}

/// The length of the prefix of an ascending vector that holds its hashes up
/// to `bound`.
fn count_within(mins: &Vec<u64>, bound: u64) -> (n: usize)
    requires
        ascending(mins@),
    ensures
        n <= mins.len(),
        mins@.take(n as int).to_set() == within(mins@.to_set(), bound),
{
    if bound == 0 {
        assert(mins@.take(mins@.len() as int) == mins@);
        assert(within(mins@.to_set(), bound) =~= mins@.to_set());
        return mins.len();
    }
    let mut n: usize = 0;
    while n < mins.len() && mins[n] <= bound
        invariant
            n <= mins.len(),
            forall|k: int| 0 <= k < n ==> mins[k] <= bound,
        decreases mins.len() - n,
    {
        n = n + 1;
    }
    proof {
        let prefix = mins@.take(n as int);
        assert forall|h: u64| prefix.to_set().contains(h) <==> within(
            mins@.to_set(),
            bound,
        ).contains(h) by {
            if prefix.to_set().contains(h) {
                let k = choose|k: int| 0 <= k < prefix.len() && prefix[k] == h;
                assert(mins@[k] == h);
                assert(mins@.contains(h));
            }
            if within(mins@.to_set(), bound).contains(h) {
                let k = choose|k: int| 0 <= k < mins@.len() && mins@[k] == h;
                if k >= n {
                    assert(mins@[n as int] <= mins@[k]);
                }
                assert(prefix[k] == h);
            }
        }
        assert(prefix.to_set() =~= within(mins@.to_set(), bound));
    }
    n
}

/// Walks the first `la` hashes of `a` and the first `lb` of `b`, both
/// ascending, and counts the hashes found in both and the hashes found in
/// either.
fn overlap(a: &Vec<u64>, la: usize, b: &Vec<u64>, lb: usize) -> (counts: (u64, u64))
    requires
        ascending(a@),
        ascending(b@),
        la <= a.len() <= MAX_HASHES,
        lb <= b.len() <= MAX_HASHES,
    ensures
        counts.0 == a@.take(la as int).to_set().intersect(b@.take(lb as int).to_set()).len(),
        counts.1 == a@.take(la as int).to_set().union(b@.take(lb as int).to_set()).len(),
{
    let mut i: usize = 0;
    let mut j: usize = 0;
    let mut shared: u64 = 0;
    let mut total: u64 = 0;
    proof {
        assert(a@.take(0).to_set() =~= Set::<u64>::empty());
        assert(b@.take(0).to_set() =~= Set::<u64>::empty());
        assert(a@.take(0).to_set().intersect(b@.take(0).to_set()) =~= Set::<u64>::empty());
        assert(a@.take(0).to_set().union(b@.take(0).to_set()) =~= Set::<u64>::empty());
    }
    while i < la || j < lb
        invariant
            ascending(a@),
            ascending(b@),
            i <= la <= a.len() <= MAX_HASHES,
            j <= lb <= b.len() <= MAX_HASHES,
            shared <= total <= i + j,
            shared == a@.take(i as int).to_set().intersect(b@.take(j as int).to_set()).len(),
            total == a@.take(i as int).to_set().union(b@.take(j as int).to_set()).len(),
            forall|p: int, q: int| 0 <= p < i && j <= q < lb ==> a@[p] < b@[q],
            forall|p: int, q: int| i <= p < la && 0 <= q < j ==> b@[q] < a@[p],
        decreases (la - i) + (lb - j),
    {
        let ghost seen_a = a@.take(i as int).to_set();
        let ghost seen_b = b@.take(j as int).to_set();
        proof {
            lemma_take_one_more(a@, i as int);
            lemma_take_one_more(b@, j as int);
        }
        if j >= lb || (i < la && a[i] < b[j]) {
            proof {
                let h = a@[i as int];
                lemma_prefix_excludes(a@, i as int, h);
                assert(!seen_b.contains(h)) by {
                    if seen_b.contains(h) {
                        let q = choose|q: int| 0 <= q < b@.take(j as int).len() && b@.take(
                            j as int,
                        )[q] == h;
                        assert(b@[q] < a@[i as int]);
                    }
                }
                assert(seen_a.insert(h).intersect(seen_b) =~= seen_a.intersect(seen_b));
                assert(seen_a.insert(h).union(seen_b) =~= seen_a.union(seen_b).insert(h));
            }
            i = i + 1;
            total = total + 1;
        } else if i >= la || b[j] < a[i] {
            proof {
                let h = b@[j as int];
                lemma_prefix_excludes(b@, j as int, h);
                assert(!seen_a.contains(h)) by {
                    if seen_a.contains(h) {
                        let p = choose|p: int| 0 <= p < a@.take(i as int).len() && a@.take(
                            i as int,
                        )[p] == h;
                        assert(a@[p] < b@[j as int]);
                    }
                }
                assert(seen_a.intersect(seen_b.insert(h)) =~= seen_a.intersect(seen_b));
                assert(seen_a.union(seen_b.insert(h)) =~= seen_a.union(seen_b).insert(h));
            }
            j = j + 1;
            total = total + 1;
        } else {
            proof {
                let h = a@[i as int];
                assert(h == b@[j as int]);
                lemma_prefix_excludes(a@, i as int, h);
                lemma_prefix_excludes(b@, j as int, h);
                assert(seen_a.insert(h).intersect(seen_b.insert(h)) =~= seen_a.intersect(
                    seen_b,
                ).insert(h));
                assert(seen_a.insert(h).union(seen_b.insert(h)) =~= seen_a.union(seen_b).insert(
                    h,
                ));
            }
            i = i + 1;
            j = j + 1;
            shared = shared + 1;
            total = total + 1;
        }
    }
    (shared, total)
}

/// Similarity does not depend on which of the two sketches is asked.
pub proof fn lemma_similarity_is_symmetric(a: MinHash, b: MinHash)
    ensures
        a.spec_similarity(&b) == b.spec_similarity(&a),
{
    let bound = shared_bound(a.bound(), b.bound());
    assert(bound == shared_bound(b.bound(), a.bound()));
    let x = a.downsampled(bound);
    let y = b.downsampled(bound);
    assert(x.union(y) =~= y.union(x));
    assert(x.intersect(y) =~= y.intersect(x));
}

/// A sketch that holds a hash at all is as similar to itself as can be,
/// and wholly contained in itself: both ratios are its size over its size,
/// which divides out to 1.
pub proof fn lemma_self_comparison_is_whole(a: MinHash)
    requires
        a.valid(),
        a@.len() > 0,
    ensures
        a.spec_similarity(&a) == (Ratio { numerator: a@.len() as u64, denominator: a@.len() as u64 }),
        a.spec_containment(&a) == (Ratio {
            numerator: a@.len() as u64,
            denominator: a@.len() as u64,
        }),
        a.spec_similarity(&a).quotient() == (Score { bits: ONE_BITS }),
        a.spec_containment(&a).quotient() == (Score { bits: ONE_BITS }),
{
    lemma_ascending_distinct(a@);
    a@.unique_seq_to_set();
    lemma_quotient_of_equal_counts(a@.len() as u64);
    let bound = shared_bound(a.bound(), a.bound());
    let x = a.downsampled(bound);
    assert(x =~= a.hashes()) by {
        assert forall|h: u64| a.hashes().contains(h) implies x.contains(h) by {
            let k = choose|k: int| 0 <= k < a@.len() && a@[k] == h;
            assert(bound == a.bound());
        }
    }
    assert(x.union(x) =~= x);
    assert(x.intersect(x) =~= x);
    assert(a.hashes().intersect(a.hashes()) =~= a.hashes());
}

/// The set of the first `n + 1` elements is that of the first `n`, with
/// the one at `n`.
proof fn lemma_take_one_more(s: Seq<u64>, n: int)
    ensures
        0 <= n < s.len() ==> s.take(n + 1).to_set() == s.take(n).to_set().insert(s[n]),
        s.take(n).to_set().finite(),
{
    if 0 <= n < s.len() {
        assert(s.take(n + 1) =~= s.take(n).push(s[n]));
        s.take(n).lemma_push_to_set_commute(s[n]);
    }
    vstd::seq_lib::seq_to_set_is_finite(s.take(n));
}

/// In an ascending sequence, the element at `n` is not among those before
/// it.
proof fn lemma_prefix_excludes(s: Seq<u64>, n: int, h: u64)
    requires
        ascending(s),
        0 <= n < s.len(),
        h == s[n],
    ensures
        !s.take(n).to_set().contains(h),
{
    if s.take(n).to_set().contains(h) {
        let k = choose|k: int| 0 <= k < s.take(n).len() && s.take(n)[k] == h;
        assert(s[k] < s[n]);
    }
}

/// One sketch of a signature.
#[derive(Clone, Debug)]
pub enum Sketch {
    /// A MinHash sketch, the kind that the index compares.
    MinHash(MinHash),
    /// A sketch of another kind, kept as its raw bytes.
    Other(Vec<u8>),
}

/// A named item that carries one or more sketches.
#[derive(Clone, Debug)]
pub struct Signature {
    pub name: String,
    pub filename: String,
    pub signatures: Vec<Sketch>,
}

impl Signature {
    /// A signature of the given name, file name and sketches.
    pub fn new(name: String, filename: String, signatures: Vec<Sketch>) -> (sig: Signature)
        ensures
            sig.name == name,
            sig.filename == filename,
            sig.signatures == signatures,
    {
        Signature { name, filename, signatures }
    }

    /// The display name.
    pub fn name(&self) -> (name: String)
        ensures
            name@ == self.name@,
    {
        self.name.clone()
    }

    /// The name of the file that the signature was read from.
    pub fn filename(&self) -> (filename: String)
        ensures
            filename@ == self.filename@,
    {
        self.filename.clone()
    }

    /// The sketch that comparisons use: the first one, where it is a
    /// MinHash.
    pub open spec fn spec_first_minhash(&self) -> Option<MinHash> {
        if self.signatures@.len() > 0 && self.signatures@[0] is MinHash {
            Some(self.signatures@[0]->MinHash_0)
        } else {
            None
        }
    }

    /// The sketch that comparisons use: the first one, where it is a
    /// MinHash; `None` where the signature has no sketch or its first
    /// sketch is of another kind.
    pub fn first_minhash(&self) -> (sketch: Option<&MinHash>)
        ensures
            sketch matches Some(s) ==> self.spec_first_minhash() == Some(*s),
            sketch is None ==> self.spec_first_minhash() is None,
    {
        if self.signatures.len() == 0 {
            return None;
        }
        match &self.signatures[0] {
            Sketch::MinHash(mh) => Some(mh),
            Sketch::Other(_) => None,
        }
    }
}

} // verus!
