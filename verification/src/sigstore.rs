//! A named handle to an item that is read from storage when it is first
//! asked for, and kept from then on.

use once_cell::sync::OnceCell;
use std::rc::Rc;
use vstd::prelude::*;
use vstd::string::StringExecFns;

use crate::comparable::Comparable;
use crate::error::Error;
use crate::lazy;
use crate::score::{Ratio, Score};
use crate::sketch::{ascending, MinHash, Signature};

verus! {

/// Where items are kept: a backend that reads the bytes stored under a
/// key and knows the format they are written in. The bytes of one key hold
/// either a list of items or a single item.
pub trait Storage<T> {
    /// The bytes kept under `path`, or an error where there are none or
    /// they cannot be read.
    fn load(&self, path: &str) -> Result<Vec<u8>, Error>;

    /// The items that `raw` holds, where it holds a list of items.
    fn decode_list(&self, raw: &Vec<u8>) -> Option<Vec<T>>;

    /// The item that `raw` holds, where it holds a single item.
    fn decode_item(&self, raw: &Vec<u8>) -> Option<T>;
}

/// What is known of a stored item without reading it.
#[derive(Debug)]
pub struct DatasetInfo {
    pub filename: String,
    pub name: String,
    pub metadata: String,
}

/// A handle to an item: its names, the storage it can be read from, and
/// the item itself once it is there.
///
/// A handle made from an item holds it from the start. Any other one reads
/// its item from storage on the first access that finds none, and every
/// later access gets the item that was kept then. The item that a handle
/// was made with is kept apart from the cell that a read fills: what it is
/// can then be said without asking the cell, which other holders of the
/// handle may fill at any time.
#[derive(Clone)]
#[verifier::reject_recursive_types(T)]
pub struct SigStore<T> {
    filename: String,
    name: String,
    metadata: String,
    storage: Option<Rc<dyn Storage<T>>>,
    given: Option<T>,
    data: OnceCell<T>,
}

/// The first item of a decoded list; `None` of an empty list.
pub fn first_of<T>(list: Vec<T>) -> (first: Option<T>)
    ensures
        list@.len() == 0 ==> first is None,
        list@.len() > 0 ==> first == Some(list@[0]),
{
    let mut list = list;
    if list.len() == 0 {
        None
    } else {
        Some(list.swap_remove(0))
    }
}

/// Reads the item kept under `filename`: the first of the list that the
/// bytes hold, or else the single item that they hold. Every failure, to
/// read or to decode, is a load error.
pub fn fetch<T, S: Storage<T> + ?Sized>(storage: &S, filename: &String) -> (item: Result<T, Error>)
    ensures
        fetched(storage, filename@, item),
        item matches Err(e) ==> e == Error::LoadError,
{
    let path = filename.as_str();
    let read = storage.load(path);
    assert(loads::<T, S>(storage, path, read));
    let raw = match read {
        Ok(raw) => raw,
        Err(_) => {
            return Err(Error::LoadError);
        },
    };
    let list = storage.decode_list(&raw);
    assert(decodes_list(storage, &raw, list));
    if let Some(list) = list {
        if let Some(first) = first_of(list) {
            assert(decoded(storage, &raw, Ok::<T, Error>(first)));
            return Ok(first);
        }
    }
    let single = storage.decode_item(&raw);
    assert(decodes_item(storage, &raw, single));
    let item = match single {
        Some(item) => Ok(item),
        None => Err(Error::LoadError),
    };
    assert(decoded(storage, &raw, item));
    item
}

/// Whether `list` is what the storage gives when it decodes `raw` as a
/// list of items.
pub open spec fn decodes_list<T, S: Storage<T> + ?Sized>(
    storage: &S,
    raw: &Vec<u8>,
    list: Option<Vec<T>>,
) -> bool {
    call_ensures(S::decode_list, (storage, raw), list)
}

/// Whether `single` is what the storage gives when it decodes `raw` as a
/// single item.
pub open spec fn decodes_item<T, S: Storage<T> + ?Sized>(
    storage: &S,
    raw: &Vec<u8>,
    single: Option<T>,
) -> bool {
    call_ensures(S::decode_item, (storage, raw), single)
}

/// What is made of the bytes `raw`, once they are read: the first item of
/// the list that they decode as; where they decode as no list, or as an
/// empty one, the single item that they decode as; and a load error where
/// they decode as neither.
pub open spec fn decoded<T, S: Storage<T> + ?Sized>(
    storage: &S,
    raw: &Vec<u8>,
    item: Result<T, Error>,
) -> bool {
    exists|list: Option<Vec<T>>| #[trigger]
        decodes_list(storage, raw, list) && if list is Some && list->0@.len() > 0 {
            item == Ok::<T, Error>(list->0@[0])
        } else {
            exists|single: Option<T>| #[trigger]
                decodes_item(storage, raw, single) && item == match single {
                    Some(found) => Ok::<T, Error>(found),
                    None => Err::<T, Error>(Error::LoadError),
                }
        }
}

/// Whether `read` is what the storage gives when it loads the key `path`.
pub open spec fn loads<T, S: Storage<T> + ?Sized>(
    storage: &S,
    path: &str,
    read: Result<Vec<u8>, Error>,
) -> bool {
    call_ensures(S::load, (storage, path), read)
}

/// What reading the item kept under `filename` comes to: the storage is
/// asked for the bytes under that key; where it has none the outcome is a
/// load error, and else it is what [`decoded`] makes of the bytes.
pub open spec fn fetched<T, S: Storage<T> + ?Sized>(
    storage: &S,
    filename: Seq<char>,
    item: Result<T, Error>,
) -> bool {
    exists|path: &str, read: Result<Vec<u8>, Error>| #[trigger]
        loads::<T, S>(storage, path, read) && path@ == filename && match read {
            Ok(raw) => decoded(storage, &raw, item),
            Err(_) => item == Err::<T, Error>(Error::LoadError),
        }
}

impl<T> SigStore<T> {
    /// The key that the item is stored under.
    pub closed spec fn spec_filename(&self) -> Seq<char> {
        self.filename@
    }

    /// The display name.
    pub closed spec fn spec_name(&self) -> Seq<char> {
        self.name@
    }

    /// The free text that comes with the item.
    pub closed spec fn spec_metadata(&self) -> Seq<char> {
        self.metadata@
    }

    /// The item that the handle was made with, if it was made with one.
    pub closed spec fn given(&self) -> Option<T> {
        self.given
    }

    /// Whether a storage is attached.
    pub closed spec fn has_storage(&self) -> bool {
        self.storage is Some
    }

    /// True of a handle that was made without an item and has no storage
    /// to read one from.
    pub open spec fn unreadable(&self) -> bool {
        self.given() is None && !self.has_storage()
    }

    /// A handle with the given names, storage and item.
    pub fn new(
        filename: String,
        name: String,
        metadata: String,
        storage: Option<Rc<dyn Storage<T>>>,
        data: Option<T>,
    ) -> (store: SigStore<T>)
        ensures
            store.spec_filename() == filename@,
            store.spec_name() == name@,
            store.spec_metadata() == metadata@,
            store.has_storage() == (storage is Some),
            store.given() == data,
    {
        SigStore { filename, name, metadata, storage, given: data, data: OnceCell::new() }
    }

    /// Attaches the storage that the item is read from.
    pub fn set_storage(&mut self, storage: Rc<dyn Storage<T>>)
        ensures
            final(self).has_storage(),
            final(self).given() == old(self).given(),
            final(self).spec_filename() == old(self).spec_filename(),
            final(self).spec_name() == old(self).spec_name(),
            final(self).spec_metadata() == old(self).spec_metadata(),
    {
        let attached = Some(storage);
        self.storage = attached;
    }

    /// The display name.
    pub fn name(&self) -> (name: String)
        ensures
            name@ == self.spec_name(),
    {
        self.name.clone()
    }

    /// The key that the item is stored under.
    pub fn filename(&self) -> (filename: String)
        ensures
            filename@ == self.spec_filename(),
    {
        self.filename.clone()
    }

    /// The free text that comes with the item.
    pub fn metadata(&self) -> (metadata: String)
        ensures
            metadata@ == self.spec_metadata(),
    {
        self.metadata.clone()
    }

    /// The handle in words: its names, without its item.
    pub fn describe(&self) -> (text: String)
        ensures
            text@ == "SigStore [filename: "@ + self.spec_filename() + ", name: "@
                + self.spec_name() + ", metadata: "@ + self.spec_metadata() + "]"@,
    {
        let mut text = String::new();
        text.append("SigStore [filename: ");
        text.append(self.filename.as_str());
        text.append(", name: ");
        text.append(self.name.as_str());
        text.append(", metadata: ");
        text.append(self.metadata.as_str());
        text.append("]");
        text
    }

    /// The item. A handle that was made with an item gives that item and
    /// touches no storage. Any other one gives the item that it has kept
    /// since it first read one, or reads it now; without a storage to read
    /// from, and on every failure to read or decode, it fails with a load
    /// error and keeps nothing.
    pub fn data(&self) -> (item: Result<&T, Error>)
        ensures
            self.given() matches Some(held) ==> item == Ok::<&T, Error>(&held),
            self.unreadable() ==> item == Err::<&T, Error>(Error::LoadError),
            self.given() is None && self.has_storage() ==> self.loaded_as(item),
            item is Ok && self.given() is None ==> self.has_storage(),
            item is Err ==> self.unreadable() || self.reads_as(Err::<T, Error>(Error::LoadError)),
            item matches Err(e) ==> e == Error::LoadError,
    {
        if let Some(held) = &self.given {
            return Ok(held);
        }
        match &self.storage {
            None => Err(Error::LoadError),
            Some(storage) => {
                let kept = self.data.get();
                assert(self.cell_gave(kept));
                if let Some(kept) = kept {
                    return Ok(kept);
                }
                let outcome = fetch::<T, dyn Storage<T>>(&**storage, &self.filename);
                assert(self.reads_as(outcome));
                match outcome {
                    Ok(read) => {
                        let held = lazy::settle(&self.data, read);
                        assert(self.settled(read, held));
                        Ok(held)
                    },
                    Err(e) => Err(e),
                }
            },
        }
    }

    /// The item, if the handle has it in memory: the one it was made with,
    /// or else the one that its cell gives, if it has read one. Nothing is
    /// read.
    pub fn loaded(&self) -> (item: Option<&T>)
        ensures
            self.given() matches Some(held) ==> item == Some(&held),
            self.given() is None ==> self.cell_gave(item),
    {
        match &self.given {
            Some(held) => Some(held),
            None => self.data.get(),
        }
    }

    /// Takes the handle apart and gives its item: the one it was made
    /// with, or else the one that its cell held, if it has read one.
    pub fn into_data(self) -> (item: Option<T>)
        ensures
            self.given() is Some ==> item == self.given(),
            self.given() is None ==> self.cell_held(item),
    {
        match self.given {
            Some(held) => Some(held),
            None => self.data.into_inner(),
        }
    }

    /// Whether reading from the attached storage, under the key of this
    /// handle, comes to `outcome`: see [`fetched`].
    pub closed spec fn reads_as(&self, outcome: Result<T, Error>) -> bool {
        self.storage is Some && fetched::<T, dyn Storage<T>>(
            &*(self.storage->0),
            self.filename@,
            outcome,
        )
    }

    /// Whether `kept` is what the cell of this handle gives when it is
    /// asked for what it holds.
    pub closed spec fn cell_gave(&self, kept: Option<&T>) -> bool {
        call_ensures(OnceCell::<T>::get, (&self.data,), kept)
    }

    /// Whether `held` is what the cell of this handle holds once it has
    /// been handed `read` to keep, were it still empty.
    pub closed spec fn settled(&self, read: T, held: &T) -> bool {
        call_ensures(lazy::settle, (&self.data, read), held)
    }

    /// Whether `item` is what the cell of this handle gives up when it is
    /// taken apart.
    pub closed spec fn cell_held(&self, item: Option<T>) -> bool {
        call_ensures(OnceCell::<T>::into_inner, (self.data,), item)
    }

    /// What [`SigStore::data`] comes to for a handle that was made without
    /// an item. Where its cell gives an item, that item. Where the cell
    /// gives none, the storage is read under the key of the handle: a
    /// failure is a load error, and an item that was read is handed to the
    /// cell, and the outcome is what the cell then holds.
    pub open spec fn loaded_as(&self, item: Result<&T, Error>) -> bool {
        exists|kept: Option<&T>| #[trigger]
            self.cell_gave(kept) && match kept {
                Some(found) => item == Ok::<&T, Error>(found),
                None => exists|outcome: Result<T, Error>| #[trigger]
                    self.reads_as(outcome) && match outcome {
                        Ok(read) => item is Ok && self.settled(read, item->Ok_0),
                        Err(_) => outcome == Err::<T, Error>(Error::LoadError) && item == Err::<
                            &T,
                            Error,
                        >(Error::LoadError),
                    },
            }
    }

    /// Whether `item` is what [`SigStore::data`] gave when it was called.
    pub open spec fn data_gave(&self, item: Result<&T, Error>) -> bool {
        call_ensures(SigStore::<T>::data, (self,), item)
    }
}

/// A handle without names, storage or item.
impl<T> Default for SigStore<T> {
    fn default() -> (store: SigStore<T>)
        ensures
            store.spec_filename() == Seq::<char>::empty(),
            store.spec_name() == Seq::<char>::empty(),
            store.spec_metadata() == Seq::<char>::empty(),
            store.given() is None,
            !store.has_storage(),
    {
        SigStore {
            filename: String::new(),
            name: String::new(),
            metadata: String::new(),
            storage: None,
            given: None,
            data: OnceCell::new(),
        }
    }
}

/// A handle made from what is known of a stored item: it holds no item
/// and has no storage, so it cannot give an item before a storage is
/// attached.
impl<L> From<DatasetInfo> for SigStore<L> {
    fn from(other: DatasetInfo) -> (store: SigStore<L>)
        ensures
            store.spec_filename() == other.filename@,
            store.spec_name() == other.name@,
            store.spec_metadata() == other.metadata@,
            store.given() is None,
            !store.has_storage(),
    {
        SigStore {
            filename: other.filename,
            name: other.name,
            metadata: other.metadata,
            storage: None,
            given: None,
            data: OnceCell::new(),
        }
    }
}

/// A handle holds a cell, which no ghost expression stands for: what
/// `from` returns is said by its own `ensures`.
impl<L> vstd::std_specs::convert::FromSpecImpl<DatasetInfo> for SigStore<L> {
    open spec fn obeys_from_spec() -> bool {
        false
    }

    open spec fn from_spec(other: DatasetInfo) -> SigStore<L> {
        vstd::pervasive::arbitrary()
    }
}

/// A handle made from an item in memory: it takes its names from the
/// item, has no metadata and no storage, and holds the item from the
/// start.
impl From<Signature> for SigStore<Signature> {
    fn from(other: Signature) -> (store: SigStore<Signature>)
        ensures
            store.spec_name() == other.name@,
            store.spec_filename() == other.filename@,
            store.spec_metadata() == Seq::<char>::empty(),
            store.given() == Some(other),
            !store.has_storage(),
    {
        let name = other.name();
        let filename = other.filename();
        SigStore {
            filename,
            name,
            metadata: String::new(),
            storage: None,
            given: Some(other),
            data: OnceCell::new(),
        }
    }
}

/// As for the handle made from what is known of an item: what `from`
/// returns is said by its own `ensures`.
impl vstd::std_specs::convert::FromSpecImpl<Signature> for SigStore<Signature> {
    open spec fn obeys_from_spec() -> bool {
        false
    }

    open spec fn from_spec(other: Signature) -> SigStore<Signature> {
        vstd::pervasive::arbitrary()
    }
}

/// The MinHash sketch that comparisons use, from what reading the
/// signature came to: the error of a failed read; else the first sketch of
/// the signature, where it is a MinHash; else an error of its own.
pub open spec fn minhash_of(item: Result<&Signature, Error>) -> Result<&MinHash, Error> {
    match item {
        Ok(sig) => match sig.spec_first_minhash() {
            Some(mh) => Ok(&mh),
            None => Err(Error::IncompatibleSketch),
        },
        Err(e) => Err(e),
    }
}

/// What a comparison of two signatures comes to, `similar` choosing
/// between their similarity and the containment of the first in the
/// second.
pub open spec fn compared(ng: &Signature, ong: &Signature, similar: bool) -> Result<Score, Error> {
    if !ng.comparable(ong) {
        Err(Error::IncompatibleSketch)
    } else if similar {
        Ok(ng.spec_similarity(ong).quotient())
    } else {
        Ok(ng.spec_containment(ong).quotient())
    }
}

impl SigStore<Signature> {
    /// The MinHash sketch that comparisons use, where the handle was made
    /// with a signature whose first sketch is one.
    pub open spec fn spec_minhash(&self) -> Option<MinHash> {
        match self.given() {
            Some(sig) => sig.spec_first_minhash(),
            None => None,
        }
    }

    /// Whether `sketch` is what [`SigStore::minhash`] gave when it was
    /// called.
    pub open spec fn minhash_gave(&self, sketch: Result<&MinHash, Error>) -> bool {
        call_ensures(SigStore::<Signature>::minhash, (self,), sketch)
    }

    /// What a comparison of this handle with `other` comes to: the
    /// signature of this handle is got, then that of the other, each read
    /// from storage if need be; the first failure is the outcome, and else
    /// it is what the two signatures compare as.
    pub open spec fn compared_as(
        &self,
        other: &SigStore<Signature>,
        similar: bool,
        r: Result<Score, Error>,
    ) -> bool {
        exists|first: Result<&Signature, Error>| #[trigger]
            self.data_gave(first) && match first {
                Err(e) => r == Err::<Score, Error>(e),
                Ok(ng) => exists|second: Result<&Signature, Error>| #[trigger]
                    other.data_gave(second) && match second {
                        Err(e) => r == Err::<Score, Error>(e),
                        Ok(ong) => r == compared(ng, ong, similar),
                    },
            }
    }

    /// The MinHash sketch that comparisons use: the first sketch of the
    /// signature, which is read from storage if need be. Fails with a load
    /// error where the signature cannot be had, and with an error of its
    /// own where its first sketch is missing or not a MinHash.
    pub fn minhash(&self) -> (sketch: Result<&MinHash, Error>)
        ensures
            exists|item: Result<&Signature, Error>| #[trigger]
                self.data_gave(item) && sketch == minhash_of(item),
            self.spec_minhash() matches Some(mh) ==> sketch == Ok::<&MinHash, Error>(&mh),
            self.given() is Some && self.spec_minhash() is None ==> sketch == Err::<
                &MinHash,
                Error,
            >(Error::IncompatibleSketch),
            self.unreadable() ==> sketch == Err::<&MinHash, Error>(Error::LoadError),
            sketch matches Err(e) ==> e == Error::LoadError || e == Error::IncompatibleSketch,
    {
        let item = self.data();
        assert(self.data_gave(item));
        let sig = match item {
            Ok(sig) => sig,
            Err(e) => {
                return Err(e);
            },
        };
        match sig.first_minhash() {
            Some(mh) => Ok(mh),
            None => Err(Error::IncompatibleSketch),
        }
    }

    /// The number of hashes that the first sketches of the two share. The
    /// sketch of this handle is got, then that of the other, each as
    /// [`SigStore::minhash`] gets it, and the first failure is the outcome.
    pub fn count_common(&self, other: &SigStore<Signature>) -> (n: Result<u64, Error>)
        ensures
            exists|first: Result<&MinHash, Error>| #[trigger]
                self.minhash_gave(first) && match first {
                    Err(e) => n == Err::<u64, Error>(e),
                    Ok(mh) => exists|second: Result<&MinHash, Error>| #[trigger]
                        other.minhash_gave(second) && match second {
                            Err(e) => n == Err::<u64, Error>(e),
                            Ok(omh) => n == Ok::<u64, Error>(mh.common(omh) as u64),
                        },
                },
            self.comparable(other) ==> n == Ok::<u64, Error>(
                self.spec_minhash()->0.common(&other.spec_minhash()->0) as u64,
            ),
            self.given() is Some && other.given() is Some && !self.comparable(other) ==> n == Err::<
                u64,
                Error,
            >(Error::IncompatibleSketch),
            self.unreadable() || (self.spec_minhash() is Some && other.unreadable()) ==> n == Err::<
                u64,
                Error,
            >(Error::LoadError),
            n matches Err(e) ==> e == Error::LoadError || e == Error::IncompatibleSketch,
    {
        let first = self.minhash();
        assert(self.minhash_gave(first));
        let mh = match first {
            Ok(mh) => mh,
            Err(e) => {
                return Err(e);
            },
        };
        let second = other.minhash();
        assert(other.minhash_gave(second));
        let omh = match second {
            Ok(omh) => omh,
            Err(e) => {
                return Err(e);
            },
        };
        Ok(mh.count_common(omh))
    }

    /// The hashes of the first sketch, in ascending order. Fails as
    /// [`SigStore::minhash`] does.
    pub fn mins(&self) -> (hashes: Result<Vec<u64>, Error>)
        ensures
            exists|sketch: Result<&MinHash, Error>| #[trigger]
                self.minhash_gave(sketch) && match sketch {
                    Ok(mh) => hashes is Ok && hashes->Ok_0@ == mh@,
                    Err(e) => hashes == Err::<Vec<u64>, Error>(e),
                },
            hashes matches Ok(found) ==> ascending(found@),
            self.spec_minhash() is Some ==> hashes is Ok && hashes->Ok_0@
                == self.spec_minhash()->0@,
            self.given() is Some && self.spec_minhash() is None ==> hashes is Err && hashes->Err_0
                == Error::IncompatibleSketch,
            self.unreadable() ==> hashes is Err && hashes->Err_0 == Error::LoadError,
            hashes matches Err(e) ==> e == Error::LoadError || e == Error::IncompatibleSketch,
    {
        let sketch = self.minhash();
        assert(self.minhash_gave(sketch));
        match sketch {
            Ok(mh) => Ok(mh.mins()),
            Err(e) => Err(e),
        }
    }
}

/// Two handles are compared as their signatures, each got through
/// [`SigStore::data`] and so read from storage if need be. Of two handles
/// that were made with signatures the outcome is known beforehand; of any
/// other pair it depends on what the storage gives, and is what the two
/// signatures that were got compare as.
impl Comparable<SigStore<Signature>> for SigStore<Signature> {
    open spec fn comparable(&self, other: &SigStore<Signature>) -> bool {
        self.spec_minhash() is Some && other.spec_minhash() is Some
    }

    open spec fn spec_similarity(&self, other: &SigStore<Signature>) -> Ratio {
        self.spec_minhash()->0.spec_similarity(&other.spec_minhash()->0)
    }

    open spec fn spec_containment(&self, other: &SigStore<Signature>) -> Ratio {
        self.spec_minhash()->0.spec_containment(&other.spec_minhash()->0)
    }

    fn similarity(&self, other: &SigStore<Signature>) -> (r: Result<Score, Error>)
        ensures
            self.compared_as(other, true, r),
            self.given() is Some && other.given() is Some && !self.comparable(other) ==> r == Err::<
                Score,
                Error,
            >(Error::IncompatibleSketch),
            self.unreadable() || (self.given() is Some && other.unreadable()) ==> r == Err::<
                Score,
                Error,
            >(Error::LoadError),
            r matches Err(e) ==> e == Error::LoadError || e == Error::IncompatibleSketch,
    {
        let first = self.data();
        assert(self.data_gave(first));
        let ng = match first {
            Ok(sig) => sig,
            Err(e) => {
                return Err(e);
            },
        };
        let second = other.data();
        assert(other.data_gave(second));
        let ong = match second {
            Ok(sig) => sig,
            Err(e) => {
                return Err(e);
            },
        };
        ng.similarity(ong)
    }

    fn containment(&self, other: &SigStore<Signature>) -> (r: Result<Score, Error>)
        ensures
            self.compared_as(other, false, r),
            self.given() is Some && other.given() is Some && !self.comparable(other) ==> r == Err::<
                Score,
                Error,
            >(Error::IncompatibleSketch),
            self.unreadable() || (self.given() is Some && other.unreadable()) ==> r == Err::<
                Score,
                Error,
            >(Error::LoadError),
            r matches Err(e) ==> e == Error::LoadError || e == Error::IncompatibleSketch,
    {
        let first = self.data();
        assert(self.data_gave(first));
        let ng = match first {
            Ok(sig) => sig,
            Err(e) => {
                return Err(e);
            },
        };
        let second = other.data();
        assert(other.data_gave(second));
        let ong = match second {
            Ok(sig) => sig,
            Err(e) => {
                return Err(e);
            },
        };
        ng.containment(ong)
    }
}

} // verus!
