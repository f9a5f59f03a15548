use sketch_index::index::{search_minhashes, search_minhashes_containment};
use sketch_index::{Error, Index, LinearIndex, MinHash, Score, SigStore, Signature, Sketch, Storage};
use std::rc::Rc;

fn s(x: f64) -> Score {
    Score::from_bits(x.to_bits())
}

fn sig(name: &str, hashes: Vec<u64>) -> Signature {
    let mh = MinHash::from_sorted(hashes, 0).unwrap();
    Signature::new(name.to_string(), format!("{}.sig", name), vec![Sketch::MinHash(mh)])
}

fn names(found: &Vec<&Signature>) -> Vec<String> {
    found.iter().map(|item| item.name.clone()).collect()
}

fn xyz() -> LinearIndex<Signature> {
    let mut index = LinearIndex::new();
    index.insert(sig("x", vec![1, 2, 3, 4])).unwrap();
    index.insert(sig("y", vec![3, 4, 5, 6])).unwrap();
    index.insert(sig("z", vec![7, 8])).unwrap();
    index
}

#[test]
fn a_new_index_is_empty() {
    let index: LinearIndex<Signature> = LinearIndex::new();
    assert_eq!(index.len(), 0);
    assert!(index.signature_refs().is_empty());
    assert!(index.signatures().is_empty());
    let query = sig("q", vec![1]);
    assert!(index.find(|_, _, _| Ok(true), &query, s(0.0)).unwrap().is_empty());
    assert!(index.search(&query, s(0.0), false).unwrap().is_empty());
}

#[test]
fn insert_keeps_the_order_of_arrival() {
    let index = xyz();
    assert_eq!(index.len(), 3);
    assert_eq!(names(&index.signature_refs()), vec!["x", "y", "z"]);
    let copies = index.signatures();
    assert_eq!(copies.len(), 3);
    assert_eq!(copies[1].name, "y");
    assert_eq!(copies[1].first_minhash().unwrap().mins(), vec![3, 4, 5, 6]);
}

#[test]
fn insert_keeps_duplicates() {
    let mut index = LinearIndex::new();
    index.insert(sig("x", vec![1])).unwrap();
    index.insert(sig("x", vec![1])).unwrap();
    assert_eq!(index.len(), 2);
}

#[test]
fn a_bounded_index_refuses_what_is_beyond_its_limit() {
    let mut index = LinearIndex::bounded(1);
    assert_eq!(index.insert(sig("x", vec![1])), Ok(()));
    assert_eq!(index.insert(sig("y", vec![2])), Err(Error::Rejected));
    assert_eq!(names(&index.signature_refs()), vec!["x"]);
    let mut none: LinearIndex<Signature> = LinearIndex::bounded(0);
    assert_eq!(none.insert(sig("x", vec![1])), Err(Error::Rejected));
    assert_eq!(none.len(), 0);
}

#[test]
fn find_gives_exactly_the_matching_item_by_reference() {
    let index = xyz();
    let query = sig("q", vec![1]);
    let found = index.find(|node: &Signature, _q: &Signature, _t: Score| Ok(node.name == "y"), &query, s(0.0)).unwrap();
    assert_eq!(found.len(), 1);
    assert_eq!(found[0].name, "y");
    let refs = index.signature_refs();
    assert!(std::ptr::eq(found[0], refs[1]));
    assert!(!std::ptr::eq(found[0], refs[0]));
}

#[test]
fn find_keeps_the_order_of_the_index() {
    let index = xyz();
    let query = sig("q", vec![1]);
    let found = index.find(|node: &Signature, _q: &Signature, _t: Score| Ok(node.name != "y"), &query, s(0.0)).unwrap();
    assert_eq!(names(&found), vec!["x", "z"]);
    let all = index.find(|_, _, _| Ok(true), &query, s(0.0)).unwrap();
    assert_eq!(names(&all), vec!["x", "y", "z"]);
    let refs = index.signature_refs();
    for (one, other) in all.iter().zip(refs.iter()) {
        assert!(std::ptr::eq(*one, *other));
    }
    assert!(index.find(|_, _, _| Ok(false), &query, s(0.0)).unwrap().is_empty());
}

#[test]
fn find_hands_query_and_threshold_to_the_predicate() {
    let index = xyz();
    let query = sig("y", vec![1]);
    let found = index
        .find(
            |node: &Signature, q: &Signature, t: Score| Ok(node.name == q.name && t.to_bits() == 0.25f64.to_bits()),
            &query,
            s(0.25),
        )
        .unwrap();
    assert_eq!(names(&found), vec!["y"]);
}

#[test]
fn search_by_similarity() {
    let index = xyz();
    let query = sig("q", vec![3, 4, 5, 6]);
    // similarities: x 2/6, y 4/4, z 0/6
    assert_eq!(names(&index.search(&query, s(0.0), false).unwrap()), vec!["x", "y"]);
    assert_eq!(names(&index.search(&query, s(0.3), false).unwrap()), vec!["x", "y"]);
    assert_eq!(names(&index.search(&query, s(2.0 / 6.0), false).unwrap()), vec!["y"]);
    assert_eq!(names(&index.search(&query, s(0.5), false).unwrap()), vec!["y"]);
    assert!(index.search(&query, s(1.0), false).unwrap().is_empty());
    assert_eq!(names(&index.search(&query, s(-1.0), false).unwrap()), vec!["x", "y", "z"]);
}

#[test]
fn search_by_containment() {
    let index = xyz();
    let query = sig("q", vec![1, 2, 3, 4, 7, 8]);
    // containment of each item in the query: x 4/4, y 2/4, z 2/2
    assert_eq!(names(&index.search(&query, s(0.4), true).unwrap()), vec!["x", "y", "z"]);
    assert_eq!(names(&index.search(&query, s(0.5), true).unwrap()), vec!["x", "z"]);
    // similarities: x 4/6, y 2/8, z 2/6
    assert_eq!(names(&index.search(&query, s(0.5), false).unwrap()), vec!["x"]);
    let found = index.search(&query, s(0.5), true).unwrap();
    let refs = index.signature_refs();
    assert!(std::ptr::eq(found[0], refs[0]));
    assert!(std::ptr::eq(found[1], refs[2]));
}

#[test]
fn the_search_predicates() {
    let a = sig("a", vec![1, 2, 3, 4]);
    let b = sig("b", vec![3, 4, 5, 6]);
    assert_eq!(search_minhashes(&a, &b, s(0.3)), Ok(true));
    assert_eq!(search_minhashes(&a, &b, s(2.0 / 6.0)), Ok(false));
    assert_eq!(search_minhashes(&a, &b, s(0.5)), Ok(false));
    assert_eq!(search_minhashes(&a, &b, s(f64::NAN)), Ok(false));
    assert_eq!(search_minhashes_containment(&a, &b, s(0.3)), Ok(true));
    assert_eq!(search_minhashes_containment(&a, &b, s(0.49)), Ok(true));
    assert_eq!(search_minhashes_containment(&a, &b, s(0.5)), Ok(false));
    let odd = Signature::new("odd".to_string(), "odd.sig".to_string(), vec![Sketch::Other(vec![1])]);
    assert_eq!(search_minhashes(&a, &odd, s(0.3)), Err(Error::IncompatibleSketch));
    assert_eq!(search_minhashes_containment(&odd, &a, s(0.3)), Err(Error::IncompatibleSketch));
}

#[test]
fn find_ends_at_the_first_failure_of_the_predicate() {
    let index = xyz();
    let query = sig("q", vec![1]);
    let seen = std::cell::Cell::new(0);
    let found = index.find(
        |node: &Signature, _q: &Signature, _t: Score| {
            seen.set(seen.get() + 1);
            if node.name == "y" {
                Err(Error::LoadError)
            } else {
                Ok(true)
            }
        },
        &query,
        s(0.0),
    );
    assert_eq!(found.err(), Some(Error::LoadError));
    assert_eq!(seen.get(), 2);
}

#[test]
fn a_comparison_that_fails_ends_the_search() {
    let mut index = xyz();
    index
        .insert(Signature::new("odd".to_string(), "odd.sig".to_string(), vec![Sketch::Other(vec![1])]))
        .unwrap();
    let query = sig("q", vec![3, 4, 5, 6]);
    assert_eq!(index.search(&query, s(0.0), false).err(), Some(Error::IncompatibleSketch));
    assert_eq!(index.search(&query, s(0.0), true).err(), Some(Error::IncompatibleSketch));
    let odd = Signature::new("odd".to_string(), "odd.sig".to_string(), vec![Sketch::Other(vec![1])]);
    assert_eq!(xyz().search(&odd, s(0.0), false).err(), Some(Error::IncompatibleSketch));
}

#[test]
fn batch_insert_adds_all() {
    let mut index = LinearIndex::new();
    index.insert(sig("w", vec![0])).unwrap();
    assert_eq!(index.batch_insert(vec![sig("x", vec![1]), sig("y", vec![2]), sig("z", vec![3])]), Ok(()));
    assert_eq!(names(&index.signature_refs()), vec!["w", "x", "y", "z"]);
    assert_eq!(index.batch_insert(Vec::new()), Ok(()));
    assert_eq!(index.len(), 4);
}

#[test]
fn batch_insert_stops_at_the_first_failure_and_keeps_what_went_in() {
    let mut index = LinearIndex::bounded(3);
    index.insert(sig("w", vec![0])).unwrap();
    let batch = vec![sig("x", vec![1]), sig("y", vec![2]), sig("z", vec![3]), sig("v", vec![4])];
    assert_eq!(index.batch_insert(batch), Err(Error::Rejected));
    assert_eq!(names(&index.signature_refs()), vec!["w", "x", "y"]);
}

#[test]
fn an_index_of_stores() {
    let mut index: LinearIndex<SigStore<Signature>> = LinearIndex::new();
    index
        .batch_insert(vec![
            SigStore::from(sig("x", vec![1, 2, 3, 4])),
            SigStore::from(sig("y", vec![3, 4, 5, 6])),
            SigStore::from(sig("z", vec![7, 8])),
        ])
        .unwrap();
    let query = SigStore::from(sig("q", vec![3, 4, 5, 6]));
    let found = index.search(&query, s(0.5), false).unwrap();
    assert_eq!(found.len(), 1);
    assert_eq!(found[0].name(), "y");
    assert!(std::ptr::eq(found[0], index.signature_refs()[1]));
    let contained = index.search(&query, s(0.4), true).unwrap();
    assert_eq!(contained.iter().map(|store| store.name()).collect::<Vec<_>>(), vec!["x", "y"]);
}

struct Shelf;

impl Storage<Signature> for Shelf {
    fn load(&self, path: &str) -> Result<Vec<u8>, Error> {
        if path == "gone" {
            Err(Error::Rejected)
        } else {
            Ok(path.as_bytes().to_vec())
        }
    }

    fn decode_list(&self, _raw: &Vec<u8>) -> Option<Vec<Signature>> {
        None
    }

    fn decode_item(&self, raw: &Vec<u8>) -> Option<Signature> {
        let hashes: Vec<u64> = raw.iter().map(|byte| (*byte - b'0') as u64).collect();
        Some(sig(&String::from_utf8(raw.clone()).unwrap(), hashes))
    }
}

fn stored(key: &str, shelf: &Rc<dyn Storage<Signature>>) -> SigStore<Signature> {
    SigStore::new(key.to_string(), key.to_string(), String::new(), Some(shelf.clone()), None)
}

#[test]
fn a_search_reads_the_stored_items_it_compares() {
    let shelf: Rc<dyn Storage<Signature>> = Rc::new(Shelf);
    let mut index: LinearIndex<SigStore<Signature>> = LinearIndex::new();
    index.batch_insert(vec![stored("1234", &shelf), stored("3456", &shelf), stored("78", &shelf)]).unwrap();
    let query = stored("3456", &shelf);
    let found = index.search(&query, s(0.5), false).unwrap();
    assert_eq!(found.iter().map(|store| store.name()).collect::<Vec<_>>(), vec!["3456"]);
    let contained = index.search(&query, s(0.4), true).unwrap();
    assert_eq!(contained.iter().map(|store| store.name()).collect::<Vec<_>>(), vec!["1234", "3456"]);
    index.insert(stored("gone", &shelf)).unwrap();
    assert_eq!(index.search(&query, s(0.5), false).err(), Some(Error::LoadError));
}
