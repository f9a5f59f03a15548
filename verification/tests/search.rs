use sketch_index::{JaccardSearch, MinHash, Ratio, Score, SearchType, Signature, Sketch};

fn s(x: f64) -> Score {
    Score::from_bits(x.to_bits())
}

fn n(score: Score) -> f64 {
    f64::from_bits(score.to_bits())
}

fn subject() -> Signature {
    let mh = MinHash::from_sorted(vec![1, 2, 3], 0).unwrap();
    Signature::new("subject".to_string(), "subject.sig".to_string(), vec![Sketch::MinHash(mh)])
}

#[test]
fn new_derives_require_scaled() {
    let j = JaccardSearch::new(SearchType::Jaccard);
    assert_eq!(j.search_type(), SearchType::Jaccard);
    assert!(!j.require_scaled());
    assert!(!j.best_only());
    let c = JaccardSearch::new(SearchType::Containment);
    assert_eq!(c.search_type(), SearchType::Containment);
    assert!(c.require_scaled());
    assert!(!c.best_only());
    let m = JaccardSearch::new(SearchType::MaxContainment);
    assert_eq!(m.search_type(), SearchType::MaxContainment);
    assert!(m.require_scaled());
    assert!(!m.best_only());
}

#[test]
fn new_starts_from_a_zero_threshold() {
    let j = JaccardSearch::new(SearchType::Jaccard);
    assert_eq!(j.threshold().to_bits(), 0.0f64.to_bits());
    assert!(j.passes(s(5e-324)));
}

#[test]
fn with_threshold_seeds_the_threshold() {
    let j = JaccardSearch::with_threshold(SearchType::Containment, s(0.4));
    assert_eq!(n(j.threshold()), 0.4);
    assert_eq!(j.search_type(), SearchType::Containment);
    assert!(j.require_scaled());
    assert!(!j.best_only());
    assert!(j.passes(s(0.4)));
    assert!(!j.passes(s(0.39999999999999997)));
}

#[test]
fn set_best_only_toggles() {
    let mut j = JaccardSearch::new(SearchType::MaxContainment);
    j.set_best_only(true);
    assert!(j.best_only());
    assert!(j.require_scaled());
    assert_eq!(j.search_type(), SearchType::MaxContainment);
    j.set_best_only(false);
    assert!(!j.best_only());
}

#[test]
fn passes_is_false_of_scores_not_above_zero() {
    for t in [-1.0, -0.0, 0.0, 0.5, f64::NEG_INFINITY, f64::NAN] {
        let j = JaccardSearch::with_threshold(SearchType::Jaccard, s(t));
        for x in [0.0, -0.0, -5e-324, -0.5, -1.0, f64::NEG_INFINITY, f64::NAN] {
            assert!(!j.passes(s(x)), "{:?} under {:?}", x, t);
        }
    }
}

#[test]
fn passes_before_and_fails_after_a_higher_threshold() {
    let j = JaccardSearch::new(SearchType::Jaccard);
    j.set_threshold(s(0.2));
    assert!(j.passes(s(0.2)));
    assert!(j.passes(s(0.3)));
    assert!(j.passes(s(0.49999999999999994)));
    j.set_threshold(s(0.5));
    assert!(!j.passes(s(0.2)));
    assert!(!j.passes(s(0.3)));
    assert!(!j.passes(s(0.49999999999999994)));
    assert!(j.passes(s(0.5)));
}

#[test]
fn set_threshold_overwrites_in_either_direction() {
    let j = JaccardSearch::with_threshold(SearchType::Jaccard, s(0.9));
    assert!(!j.passes(s(0.5)));
    j.set_threshold(s(0.1));
    assert_eq!(n(j.threshold()), 0.1);
    assert!(j.passes(s(0.5)));
}

#[test]
fn collect_always_keeps() {
    let subj = subject();
    let mut j = JaccardSearch::with_threshold(SearchType::Jaccard, s(0.5));
    assert!(j.collect(s(0.1), &subj));
    assert!(j.collect(s(0.0), &subj));
    assert!(j.collect(s(f64::NAN), &subj));
    j.set_best_only(true);
    assert!(j.collect(s(0.1), &subj));
    assert!(j.collect(s(0.9), &subj));
}

#[test]
fn collect_leaves_the_threshold_unless_best_only() {
    let subj = subject();
    let j = JaccardSearch::with_threshold(SearchType::Jaccard, s(0.25));
    j.collect(s(0.75), &subj);
    assert_eq!(n(j.threshold()), 0.25);
    assert!(j.passes(s(0.5)));
}

#[test]
fn collect_raises_the_threshold_to_the_maximum() {
    let subj = subject();
    let scores = [0.3, 0.1, 0.7, 0.7, 0.2, f64::NAN, 0.0, -1.0, 0.65];
    let mut j = JaccardSearch::with_threshold(SearchType::Jaccard, s(0.25));
    j.set_best_only(true);
    let mut highest = 0.25f64;
    for x in scores {
        j.collect(s(x), &subj);
        highest = highest.max(x);
        assert_eq!(n(j.threshold()), highest);
    }
    assert_eq!(n(j.threshold()), 0.7);
    assert!(!j.passes(s(0.65)));
    assert!(j.passes(s(0.7)));
}

#[test]
fn collect_order_does_not_matter() {
    let subj = subject();
    let orders: [[f64; 4]; 4] = [
        [0.1, 0.4, 0.2, 0.3],
        [0.4, 0.3, 0.2, 0.1],
        [0.3, 0.1, 0.4, 0.2],
        [0.2, 0.3, 0.1, 0.4],
    ];
    for order in orders {
        let mut j = JaccardSearch::with_threshold(SearchType::Containment, s(0.15));
        j.set_best_only(true);
        for x in order {
            j.collect(s(x), &subj);
        }
        assert_eq!(n(j.threshold()), 0.4);
    }
    let mut low = JaccardSearch::with_threshold(SearchType::Containment, s(0.9));
    low.set_best_only(true);
    for x in orders[0] {
        low.collect(s(x), &subj);
    }
    assert_eq!(n(low.threshold()), 0.9);
}

#[test]
fn collect_never_lowers_the_threshold() {
    let subj = subject();
    let mut j = JaccardSearch::with_threshold(SearchType::Jaccard, s(0.8));
    j.set_best_only(true);
    j.collect(s(0.2), &subj);
    assert_eq!(n(j.threshold()), 0.8);
    j.collect(s(f64::NEG_INFINITY), &subj);
    assert_eq!(n(j.threshold()), 0.8);
}

#[test]
fn shared_reference_sees_the_raised_threshold() {
    let subj = subject();
    let mut j = JaccardSearch::new(SearchType::Jaccard);
    j.set_best_only(true);
    let first = &j;
    let second = &j;
    assert!(second.passes(s(0.3)));
    first.collect(s(0.6), &subj);
    assert!(!second.passes(s(0.3)));
    second.collect(s(0.8), &subj);
    assert!(!first.passes(s(0.6)));
    assert!(first.passes(s(0.8)));
}

#[test]
fn check_is_compatible_accepts_everything() {
    let subj = subject();
    let empty = Signature::new(String::new(), String::new(), Vec::new());
    let other = Signature::new("o".to_string(), "o.sig".to_string(), vec![Sketch::Other(vec![1, 2])]);
    for kind in [SearchType::Jaccard, SearchType::Containment, SearchType::MaxContainment] {
        let j = JaccardSearch::new(kind);
        assert_eq!(j.check_is_compatible(&subj), Ok(()));
        assert_eq!(j.check_is_compatible(&empty), Ok(()));
        assert_eq!(j.check_is_compatible(&other), Ok(()));
    }
}

#[test]
fn score_jaccard() {
    let j = JaccardSearch::new(SearchType::Jaccard);
    assert_eq!(j.ratio(10, 0, 20, 100), Ratio { numerator: 0, denominator: 100 });
    assert_eq!(n(j.score(10, 0, 20, 100)), 0.0);
    assert_eq!(j.ratio(10, 50, 20, 100), Ratio { numerator: 50, denominator: 100 });
    assert_eq!(n(j.score(10, 50, 20, 100)), 0.5);
    // the sizes of query and subject do not enter
    assert_eq!(j.ratio(0, 50, 0, 100), Ratio { numerator: 50, denominator: 100 });
    assert_eq!(n(j.score(7, 1, 9, 3)), 1.0 / 3.0);
}

#[test]
fn score_jaccard_over_an_empty_union() {
    let j = JaccardSearch::new(SearchType::Jaccard);
    assert!(n(j.score(0, 0, 0, 0)).is_nan());
    assert_eq!(n(j.score(0, 3, 0, 0)), f64::INFINITY);
    assert!(!j.passes(j.score(0, 0, 0, 0)));
}

#[test]
fn score_containment() {
    let c = JaccardSearch::new(SearchType::Containment);
    assert_eq!(c.ratio(0, 0, 10, 100), Ratio { numerator: 0, denominator: 1 });
    assert_eq!(c.ratio(0, 5, 10, 100), Ratio { numerator: 0, denominator: 1 });
    assert_eq!(c.ratio(0, u64::MAX, 10, 100), Ratio { numerator: 0, denominator: 1 });
    assert_eq!(n(c.score(0, 5, 10, 100)), 0.0);
    assert_eq!(c.ratio(10, 5, 20, 100), Ratio { numerator: 5, denominator: 10 });
    assert_eq!(n(c.score(10, 5, 20, 100)), 0.5);
    assert_eq!(n(c.score(4, 1, 0, 0)), 0.25);
}

#[test]
fn score_max_containment() {
    let m = JaccardSearch::new(SearchType::MaxContainment);
    assert_eq!(m.ratio(0, 0, 10, 100), Ratio { numerator: 0, denominator: 1 });
    assert_eq!(n(m.score(0, 0, 10, 100)), 0.0);
    assert_eq!(n(m.score(0, 4, 10, 100)), 0.0);
    assert_eq!(n(m.score(10, 4, 0, 100)), 0.0);
    assert_eq!(m.ratio(10, 5, 20, 100), Ratio { numerator: 5, denominator: 10 });
    assert_eq!(n(m.score(10, 5, 20, 100)), 0.5);
    assert_eq!(m.ratio(20, 5, 10, 100), Ratio { numerator: 5, denominator: 10 });
    assert_eq!(m.ratio(8, 2, 8, 100), Ratio { numerator: 2, denominator: 8 });
}

#[test]
fn score_then_passes() {
    let j = JaccardSearch::with_threshold(SearchType::Jaccard, s(0.1));
    assert!(j.passes(j.score(0, 1, 0, 10)));
    assert!(!j.passes(j.score(0, 1, 0, 11)));
    assert!(!j.passes(j.score(0, 0, 0, 10)));
    let zero = JaccardSearch::new(SearchType::Containment);
    assert!(!zero.passes(zero.score(0, 3, 3, 3)));
    assert!(zero.passes(zero.score(3, 1, 3, 3)));
}
