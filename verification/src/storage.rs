//! The storage abstraction: a four-operation CRUD contract over the mug
//! collection, and its in-memory implementation.
//!
//! One storage instance is shared across all concurrently served requests;
//! the embedding program guards it with a reader-writer lock, so each method
//! call here is one critical section — reads share, mutations exclude. The
//! check-then-act sequence of an insert therefore runs under one exclusive
//! section, which is what keeps id assignment collision-free.

use vstd::prelude::*;
use crate::mugs;
use crate::mugs::{has_id, unique_ids, EphemeralMug, Mug};

verus! {

/// The storage layer's failure. It carries no distinguishing information;
/// handlers coalesce it to the generic internal-failure kind.
#[derive(Debug)]
pub struct StorageErr;

/// The CRUD contract over the mug collection. Further backends can be added
/// by implementing these four operations without touching the pipeline or
/// the router.
pub trait Storage: Sized {
    /// The records now stored, in insertion order.
    spec fn records(&self) -> Seq<Mug>;

    /// A snapshot copy of all records, insertion order preserved.
    fn select_all_mugs(&self) -> (r: Result<Vec<Mug>, StorageErr>)
        ensures
            (r matches Ok(v) && v@ == self.records()),
    ;

    /// Appends the payload under a freshly assigned id. The insert succeeds
    /// whenever the record count is below the id space; on the failure that
    /// leaves, the collection is unchanged.
    fn insert_mug(&mut self, v: EphemeralMug) -> (r: Result<Mug, StorageErr>)
        ensures
            old(self).records().len() < 0x7fffffffffffffff ==> r is Ok,
            (r matches Ok(m) ==> final(self).records() == old(self).records().push(m) && m@.data()
                == v@ && !has_id(old(self).records(), m.id)),
            (r matches Err(_) ==> final(self).records() == old(self).records()),
            unique_ids(final(self).records()),
    ;

    /// Replaces the stored record whose id matches `v.id` with `v` entirely;
    /// fails, leaving the collection unchanged, exactly when no record has
    /// that id.
    fn update_mug(&mut self, v: Mug) -> (r: Result<Mug, StorageErr>)
        ensures
            has_id(old(self).records(), v.id) ==> (r matches Ok(m) && m == v && exists|k: int|
                0 <= k < old(self).records().len() && old(self).records()[k].id == v.id
                    && final(self).records() == old(self).records().update(k, v)),
            !has_id(old(self).records(), v.id) ==> r is Err && final(self).records()
                == old(self).records(),
            unique_ids(final(self).records()),
    ;

    /// Removes the stored record whose id matches `v.id`; only the id is
    /// used for matching. Fails, leaving the collection unchanged, exactly
    /// when no record has that id; afterwards no record carries the id.
    fn delete(&mut self, v: Mug) -> (r: Result<(), StorageErr>)
        ensures
            has_id(old(self).records(), v.id) ==> r is Ok && exists|k: int|
                0 <= k < old(self).records().len() && old(self).records()[k].id == v.id
                    && final(self).records() == old(self).records().remove(k),
            !has_id(old(self).records(), v.id) ==> r is Err && final(self).records()
                == old(self).records(),
            forall|j: int|
                0 <= j < final(self).records().len() ==> final(self).records()[j].id != v.id,
            unique_ids(final(self).records()),
    ;
}

/// The in-memory backend: the verified mug store behind the CRUD contract.
pub struct TestStorage {
    store: mugs::Storage,
}

impl TestStorage {
    /// An empty collection.
    pub fn new() -> (s: TestStorage)
        ensures
            s.records() == Seq::<Mug>::empty(),
    {
        TestStorage { store: mugs::Storage::init() }
    }
}

impl Storage for TestStorage {
    closed spec fn records(&self) -> Seq<Mug> {
        self.store.records()
    }

    fn select_all_mugs(&self) -> (r: Result<Vec<Mug>, StorageErr>) {
        match self.store.select_all() {
            Ok(v) => Ok(v),
            Err(_) => Err(StorageErr),
        }
    }

    fn insert_mug(&mut self, v: EphemeralMug) -> (r: Result<Mug, StorageErr>) {
        let out = match self.store.insert(v) {
            Ok(m) => Ok(m),
            Err(_) => Err(StorageErr),
        };
        self.store.records_unique();
        out
    }

    fn update_mug(&mut self, v: Mug) -> (r: Result<Mug, StorageErr>) {
        let out = match self.store.update(v) {
            Ok(m) => Ok(m),
            Err(_) => Err(StorageErr),
        };
        self.store.records_unique();
        out
    }

    fn delete(&mut self, v: Mug) -> (r: Result<(), StorageErr>) {
        let out = match self.store.delete(v) {
            Ok(u) => Ok(u),
            Err(_) => Err(StorageErr),
        };
        self.store.records_unique();
        out
    }
}

} // verus!
