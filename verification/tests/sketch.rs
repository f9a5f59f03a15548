use sketch_index::{Comparable, Error, MinHash, Ratio, Score, Signature, Sketch};

fn mh(hashes: Vec<u64>, max_hash: u64) -> MinHash {
    MinHash::from_sorted(hashes, max_hash).unwrap()
}

fn sig(name: &str, hashes: Vec<u64>) -> Signature {
    Signature::new(name.to_string(), format!("{}.sig", name), vec![Sketch::MinHash(mh(hashes, 0))])
}

fn n(r: Ratio) -> f64 {
    f64::from_bits(r.to_score().to_bits())
}

fn f(r: Result<Score, Error>) -> Result<f64, Error> {
    r.map(|score| f64::from_bits(score.to_bits()))
}

#[test]
fn from_sorted_wants_ascending_hashes() {
    assert!(MinHash::from_sorted(vec![], 0).is_some());
    assert!(MinHash::from_sorted(vec![7], 0).is_some());
    assert!(MinHash::from_sorted(vec![1, 2, 3], 0).is_some());
    assert!(MinHash::from_sorted(vec![0, u64::MAX], 0).is_some());
    assert!(MinHash::from_sorted(vec![1, 1], 0).is_none());
    assert!(MinHash::from_sorted(vec![2, 1], 0).is_none());
    assert!(MinHash::from_sorted(vec![1, 2, 3, 3], 0).is_none());
    assert!(MinHash::from_sorted(vec![1, 5, 4, 9], 0).is_none());
}

#[test]
fn from_sorted_wants_hashes_within_the_bound() {
    assert!(MinHash::from_sorted(vec![1, 10], 10).is_some());
    assert!(MinHash::from_sorted(vec![1, 11], 10).is_none());
    assert!(MinHash::from_sorted(vec![11], 10).is_none());
    assert!(MinHash::from_sorted(vec![], 10).is_some());
    assert!(MinHash::from_sorted(vec![u64::MAX], 0).is_some());
    assert!(MinHash::from_sorted(vec![u64::MAX], u64::MAX).is_some());
}

#[test]
fn a_sketch_compared_with_itself_scores_one() {
    for hashes in [vec![7], vec![1, 2, 3], vec![5, 50, 500, 5000]] {
        let a = mh(hashes.clone(), 10_000);
        let size = hashes.len() as u64;
        assert_eq!(a.similarity(&a), Ratio { numerator: size, denominator: size });
        assert_eq!(a.containment(&a), Ratio { numerator: size, denominator: size });
        assert_eq!(n(a.similarity(&a)), 1.0);
        assert_eq!(n(a.containment(&a)), 1.0);
    }
}

#[test]
fn similarity_is_symmetric() {
    let sketches = [
        mh(vec![], 0),
        mh(vec![1, 2, 3, 4], 0),
        mh(vec![3, 4, 5, 6], 10),
        mh(vec![2, 4, 40], 50),
        mh(vec![4], 4),
    ];
    for a in &sketches {
        for b in &sketches {
            assert_eq!(a.similarity(b), b.similarity(a));
        }
    }
}

#[test]
fn sketch_accessors() {
    let a = mh(vec![3, 9, 27], 100);
    assert_eq!(a.size(), 3);
    assert_eq!(a.mins(), vec![3, 9, 27]);
    assert_eq!(a.max_hash(), 100);
    let copy = a.clone();
    assert_eq!(copy.mins(), vec![3, 9, 27]);
    assert_eq!(copy.max_hash(), 100);
    assert_eq!(mh(vec![], 0).size(), 0);
}

#[test]
fn count_common_is_the_size_of_the_intersection() {
    let a = mh(vec![1, 2, 3, 4], 0);
    let b = mh(vec![3, 4, 5, 6], 0);
    assert_eq!(a.count_common(&b), 2);
    assert_eq!(b.count_common(&a), 2);
    assert_eq!(a.count_common(&a), 4);
    assert_eq!(a.count_common(&mh(vec![], 0)), 0);
    assert_eq!(mh(vec![], 0).count_common(&a), 0);
    assert_eq!(a.count_common(&mh(vec![5, 6, 7], 0)), 0);
    assert_eq!(a.count_common(&mh(vec![0, 4, 8], 0)), 1);
    assert_eq!(mh(vec![1, 3, 5, 7, 9], 0).count_common(&mh(vec![2, 3, 4, 5, 6, 9, 10], 0)), 3);
    assert_eq!(mh(vec![0, u64::MAX], 0).count_common(&mh(vec![u64::MAX], 0)), 1);
}

#[test]
fn overlapping_sketches() {
    let a = mh(vec![1, 2, 3, 4], 0);
    let b = mh(vec![3, 4, 5, 6], 0);
    assert_eq!(a.containment(&b), Ratio { numerator: 2, denominator: 4 });
    assert_eq!(n(a.containment(&b)), 0.5);
    assert_eq!(a.similarity(&b), Ratio { numerator: 2, denominator: 6 });
    assert_eq!(n(a.similarity(&b)), 2.0 / 6.0);
    assert!((n(a.similarity(&b)) - 0.333).abs() < 0.001);
    assert_eq!(b.similarity(&a), Ratio { numerator: 2, denominator: 6 });
}

#[test]
fn overlapping_signatures() {
    let a = sig("a", vec![1, 2, 3, 4]);
    let b = sig("b", vec![3, 4, 5, 6]);
    assert_eq!(f(a.containment(&b)), Ok(0.5));
    assert_eq!(f(a.similarity(&b)), Ok(2.0 / 6.0));
    assert!((f(a.similarity(&b)).unwrap() - 0.333).abs() < 0.001);
    assert_eq!(f(b.containment(&a)), Ok(0.5));
    assert_eq!(f(b.similarity(&a)), Ok(2.0 / 6.0));
    assert_eq!(f(a.similarity(&a)), Ok(1.0));
    assert_eq!(f(a.containment(&sig("c", vec![9]))), Ok(0.0));
}

#[test]
fn containment_is_not_symmetric() {
    let small = mh(vec![2, 4], 0);
    let large = mh(vec![1, 2, 3, 4, 5, 6, 7, 8], 0);
    assert_eq!(small.containment(&large), Ratio { numerator: 2, denominator: 2 });
    assert_eq!(large.containment(&small), Ratio { numerator: 2, denominator: 8 });
    assert_eq!(n(small.containment(&large)), 1.0);
    assert_eq!(n(large.containment(&small)), 0.25);
    assert_eq!(small.similarity(&large), large.similarity(&small));
}

#[test]
fn identical_and_disjoint_sketches() {
    let a = mh(vec![10, 20, 30], 0);
    assert_eq!(a.similarity(&a), Ratio { numerator: 3, denominator: 3 });
    assert_eq!(a.containment(&a), Ratio { numerator: 3, denominator: 3 });
    let b = mh(vec![11, 21], 0);
    assert_eq!(a.similarity(&b), Ratio { numerator: 0, denominator: 5 });
    assert_eq!(a.containment(&b), Ratio { numerator: 0, denominator: 3 });
    assert_eq!(n(a.similarity(&b)), 0.0);
}

#[test]
fn empty_sketches_score_zero() {
    let empty = mh(vec![], 0);
    let a = mh(vec![1, 2], 0);
    assert_eq!(empty.similarity(&empty), Ratio { numerator: 0, denominator: 1 });
    assert_eq!(empty.containment(&a), Ratio { numerator: 0, denominator: 1 });
    assert_eq!(empty.containment(&empty), Ratio { numerator: 0, denominator: 1 });
    assert_eq!(a.containment(&empty), Ratio { numerator: 0, denominator: 2 });
    assert_eq!(a.similarity(&empty), Ratio { numerator: 0, denominator: 2 });
}

#[test]
fn similarity_downsamples_to_the_smaller_bound() {
    let wide = mh(vec![1, 2, 3, 40, 50], 100);
    let narrow = mh(vec![2, 3, 4], 10);
    // both are cut down to hashes up to 10: {1, 2, 3} and {2, 3, 4}
    assert_eq!(wide.similarity(&narrow), Ratio { numerator: 2, denominator: 4 });
    assert_eq!(narrow.similarity(&wide), Ratio { numerator: 2, denominator: 4 });
    // containment sets what is shared against all of the sketch
    assert_eq!(wide.containment(&narrow), Ratio { numerator: 2, denominator: 5 });
    // a sketch without a bound takes the bound of the other
    let unbounded = mh(vec![1, 2, 3, 40, 50], 0);
    assert_eq!(unbounded.similarity(&narrow), Ratio { numerator: 2, denominator: 4 });
    assert_eq!(narrow.similarity(&unbounded), Ratio { numerator: 2, denominator: 4 });
    // the bound itself is kept
    let edge = mh(vec![5, 10, 11], 50);
    assert_eq!(edge.similarity(&mh(vec![10], 10)), Ratio { numerator: 1, denominator: 2 });
    // equal bounds and no bounds change nothing
    assert_eq!(
        mh(vec![1, 2, 3, 4], 7).similarity(&mh(vec![3, 4, 5, 6], 7)),
        Ratio { numerator: 2, denominator: 6 }
    );
    // cut down to nothing
    assert_eq!(mh(vec![20, 30], 100).similarity(&mh(vec![], 10)), Ratio { numerator: 0, denominator: 1 });
}

#[test]
fn signature_accessors() {
    let a = sig("alpha", vec![1, 2]);
    assert_eq!(a.name(), "alpha");
    assert_eq!(a.filename(), "alpha.sig");
    assert_eq!(a.first_minhash().unwrap().mins(), vec![1, 2]);
    let none = Signature::new("n".to_string(), "n.sig".to_string(), Vec::new());
    assert!(none.first_minhash().is_none());
    let other = Signature::new("o".to_string(), "o.sig".to_string(), vec![Sketch::Other(vec![9])]);
    assert!(other.first_minhash().is_none());
}

#[test]
fn only_the_first_sketch_is_compared() {
    let two = Signature::new(
        "two".to_string(),
        "two.sig".to_string(),
        vec![Sketch::MinHash(mh(vec![1, 2], 0)), Sketch::MinHash(mh(vec![7, 8, 9], 0))],
    );
    let b = sig("b", vec![7, 8, 9]);
    assert_eq!(f(two.similarity(&b)), Ok(0.0));
    assert_eq!(f(two.similarity(&sig("c", vec![2, 3]))), Ok(1.0 / 3.0));
    let hidden = Signature::new(
        "hidden".to_string(),
        "hidden.sig".to_string(),
        vec![Sketch::Other(vec![0]), Sketch::MinHash(mh(vec![7, 8, 9], 0))],
    );
    assert_eq!(f(hidden.similarity(&b)), Err(Error::IncompatibleSketch));
}

#[test]
fn incompatible_sketches_are_an_error() {
    let a = sig("a", vec![1, 2]);
    let none = Signature::new("n".to_string(), "n.sig".to_string(), Vec::new());
    let other = Signature::new("o".to_string(), "o.sig".to_string(), vec![Sketch::Other(vec![9])]);
    assert_eq!(f(a.similarity(&none)), Err(Error::IncompatibleSketch));
    assert_eq!(f(none.similarity(&a)), Err(Error::IncompatibleSketch));
    assert_eq!(f(a.similarity(&other)), Err(Error::IncompatibleSketch));
    assert_eq!(f(other.containment(&a)), Err(Error::IncompatibleSketch));
    assert_eq!(f(a.containment(&none)), Err(Error::IncompatibleSketch));
    assert_eq!(f(other.containment(&other)), Err(Error::IncompatibleSketch));
}

#[test]
fn a_reference_compares_as_its_referent() {
    let a = sig("a", vec![1, 2, 3, 4]);
    let b = sig("b", vec![3, 4, 5, 6]);
    let r: &Signature = &a;
    assert_eq!(f(Comparable::similarity(&r, &b)), f(a.similarity(&b)));
    assert_eq!(f(Comparable::containment(&r, &b)), f(a.containment(&b)));
    assert_eq!(f(Comparable::containment(&r, &b)), Ok(0.5));
    assert_eq!(f(Comparable::similarity(&r, &b)), Ok(2.0 / 6.0));
    let none = Signature::new("n".to_string(), "n.sig".to_string(), Vec::new());
    assert_eq!(f(Comparable::similarity(&r, &none)), Err(Error::IncompatibleSketch));
}
