//! The mug collection: its record types, the concrete in-memory store, and
//! the route handlers that bind the pipeline to a storage backend.
//!
//! The two coordinate fields carry their JSON number token verbatim (the wire
//! format's decimal notation) rather than a machine float; the service never
//! computes with coordinates, it only stores and echoes them.

use rand::Rng;
use vstd::prelude::*;
use crate::error::{PipelineError, PipelineResult};

verus! {

/// A stored record. `id` is assigned on creation and never changes; no two
/// live records share an `id`.
#[derive(Debug)]
pub struct Mug {
    pub id: i64,
    pub name: String,
    /// Latitude, as its JSON number token.
    pub lat: String,
    /// Longitude, as its JSON number token.
    pub lon: String,
    pub address: String,
    pub num_mugs: u32,
}

/// The creation payload: all `Mug` fields except `id`.
#[derive(Debug)]
pub struct EphemeralMug {
    pub name: String,
    /// Latitude, as its JSON number token.
    pub lat: String,
    /// Longitude, as its JSON number token.
    pub lon: String,
    pub address: String,
    pub num_mugs: u32,
}

/// Mathematical image of a `Mug`.
pub ghost struct MugModel {
    pub id: int,
    pub name: Seq<char>,
    pub lat: Seq<char>,
    pub lon: Seq<char>,
    pub address: Seq<char>,
    pub num_mugs: int,
}

/// Mathematical image of an `EphemeralMug`.
pub ghost struct EphemeralMugModel {
    pub name: Seq<char>,
    pub lat: Seq<char>,
    pub lon: Seq<char>,
    pub address: Seq<char>,
    pub num_mugs: int,
}

impl View for Mug {
    type V = MugModel;

    open spec fn view(&self) -> MugModel {
        MugModel {
            id: self.id as int,
            name: self.name@,
            lat: self.lat@,
            lon: self.lon@,
            address: self.address@,
            num_mugs: self.num_mugs as int,
        }
    }
}

impl View for EphemeralMug {
    type V = EphemeralMugModel;

    open spec fn view(&self) -> EphemeralMugModel {
        EphemeralMugModel {
            name: self.name@,
            lat: self.lat@,
            lon: self.lon@,
            address: self.address@,
            num_mugs: self.num_mugs as int,
        }
    }
}

impl MugModel {
    /// The non-id data of this record, for structural comparison with a
    /// creation payload.
    pub open spec fn data(self) -> EphemeralMugModel {
        EphemeralMugModel {
            name: self.name,
            lat: self.lat,
            lon: self.lon,
            address: self.address,
            num_mugs: self.num_mugs,
        }
    }
}

impl Clone for Mug {
    fn clone(&self) -> (r: Mug)
        ensures
            r == *self,
    {
        Mug {
            id: self.id,
            name: self.name.clone(),
            lat: self.lat.clone(),
            lon: self.lon.clone(),
            address: self.address.clone(),
            num_mugs: self.num_mugs,
        }
    }
}

impl PartialEq for Mug {
    fn eq(&self, other: &Mug) -> (r: bool) {
        self.id == other.id && self.name == other.name && self.lat == other.lat && self.lon
            == other.lon && self.address == other.address && self.num_mugs == other.num_mugs
    }
}

impl vstd::std_specs::cmp::PartialEqSpecImpl for Mug {
    open spec fn obeys_eq_spec() -> bool {
        true
    }

    open spec fn eq_spec(&self, other: &Mug) -> bool {
        self@ == other@
    }
}

impl PartialEq<EphemeralMug> for Mug {
    fn eq(&self, other: &EphemeralMug) -> (r: bool) {
        self.name == other.name && self.lat == other.lat && self.lon == other.lon && self.address
            == other.address && self.num_mugs == other.num_mugs
    }
}

impl vstd::std_specs::cmp::PartialEqSpecImpl<EphemeralMug> for Mug {
    open spec fn obeys_eq_spec() -> bool {
        true
    }

    open spec fn eq_spec(&self, other: &EphemeralMug) -> bool {
        self@.data() == other@
    }
}

impl PartialEq<Mug> for EphemeralMug {
    fn eq(&self, other: &Mug) -> (r: bool) {
        self.name == other.name && self.lat == other.lat && self.lon == other.lon && self.address
            == other.address && self.num_mugs == other.num_mugs
    }
}

impl vstd::std_specs::cmp::PartialEqSpecImpl<Mug> for EphemeralMug {
    open spec fn obeys_eq_spec() -> bool {
        true
    }

    open spec fn eq_spec(&self, other: &Mug) -> bool {
        self@ == other@.data()
    }
}

impl PartialEq for EphemeralMug {
    fn eq(&self, other: &EphemeralMug) -> (r: bool) {
        self.name == other.name && self.lat == other.lat && self.lon == other.lon && self.address
            == other.address && self.num_mugs == other.num_mugs
    }
}

impl vstd::std_specs::cmp::PartialEqSpecImpl for EphemeralMug {
    open spec fn obeys_eq_spec() -> bool {
        true
    }

    open spec fn eq_spec(&self, other: &EphemeralMug) -> bool {
        self@ == other@
    }
}

// ---------------------------------------------------------------------------
// The record collection
// ---------------------------------------------------------------------------

/// No two records share an id.
pub open spec fn unique_ids(s: Seq<Mug>) -> bool {
    forall|i: int, j: int| 0 <= i < j < s.len() ==> s[i].id != s[j].id
}

/// Some record carries the id.
pub open spec fn has_id(s: Seq<Mug>, id: i64) -> bool {
    exists|k: int| 0 <= k < s.len() && s[k].id == id
}

/// Appending a record under a fresh id keeps ids pairwise distinct: the
/// induction step behind the uniqueness invariant of every storage backend.
pub proof fn lemma_unique_after_insert(s: Seq<Mug>, m: Mug)
    requires
        unique_ids(s),
        !has_id(s, m.id),
    ensures
        unique_ids(s.push(m)),
{
    let t = s.push(m);
    assert forall|i: int, j: int| 0 <= i < j < t.len() implies t[i].id != t[j].id by {
        if j == s.len() {
            assert(t[i] == s[i]);
            assert(!(0 <= i < s.len() && s[i].id == m.id));
        } else {
            assert(t[i] == s[i]);
            assert(t[j] == s[j]);
        }
    }
}

/// Relies on `rand::thread_rng` and `rand::Rng::gen`: draws a pseudo-random
/// `i64`. Nothing is promised of the value.
#[verifier::external_body]
pub(crate) fn random_id() -> i64 {
    rand::thread_rng().gen()
}

/// Pigeonhole: a collection in which every id from `0` through `n` occurs
/// holds more than `n` records.
proof fn lemma_id_pigeonhole(data: Seq<Mug>, n: int)
    requires
        0 <= n < 0x8000000000000000,
        forall|v: int| 0 <= v <= n ==> has_id(data, #[trigger] (v as i64)),
    ensures
        data.len() > n,
    decreases n,
{
    assert(has_id(data, n as i64));
    let idx = choose|k: int| 0 <= k < data.len() && data[k].id == n as i64;
    if n == 0 {
    } else {
        let rest = data.remove(idx);
        assert forall|v: int| 0 <= v <= n - 1 implies has_id(rest, #[trigger] (v as i64)) by {
            assert(has_id(data, v as i64));
            let kv = choose|k: int| 0 <= k < data.len() && data[k].id == v as i64;
            assert(data[kv].id == v as i64);
            assert(v as i64 != n as i64);
            assert(kv != idx);
            if kv < idx {
                assert(rest[kv] == data[kv]);
            } else {
                assert(rest[kv - 1] == data[kv]);
            }
        }
        lemma_id_pigeonhole(rest, n - 1);
    }
}

/// A deterministic search for an unused id: the smallest value in
/// `0..=data.len()` that no record carries. One always exists while the
/// record count is below the id space.
#[verifier::loop_isolation(false)]
pub(crate) fn fresh_id(data: &Vec<Mug>) -> (id: i64)
    requires
        data@.len() < 0x7fffffffffffffff,
    ensures
        !has_id(data@, id),
{
    let n = data.len();
    let mut k: usize = 0;
    loop
        invariant
            0 <= k <= n,
            forall|j: int| 0 <= j < k ==> has_id(data@, #[trigger] (j as i64)),
        decreases n - k,
    {
        let candidate = k as i64;
        match find_index(data, candidate) {
            None => {
                return candidate;
            },
            Some(_) => {},
        }
        if k == n {
            proof {
                assert(forall|v: int| 0 <= v <= n ==> has_id(data@, #[trigger] (v as i64)));
                lemma_id_pigeonhole(data@, n as int);
                assert(false);
            }
            return 0;
        }
        k = k + 1;
    }
}

/// Index of the first record carrying `id`, if any.
#[verifier::loop_isolation(false)]
pub(crate) fn find_index(data: &Vec<Mug>, id: i64) -> (r: Option<usize>)
    ensures
        match r {
            Some(k) => k < data@.len() && data@[k as int].id == id && forall|j: int|
                0 <= j < k ==> data@[j].id != id,
            None => !has_id(data@, id),
        },
{
    let mut i: usize = 0;
    while i < data.len()
        invariant
            i <= data@.len(),
            forall|j: int| 0 <= j < i ==> data@[j].id != id,
        decreases data@.len() - i,
    {
        if data[i].id == id {
            return Some(i);
        }
        i = i + 1;
    }
    None
}

/// A copy of the whole collection, record by record.
#[verifier::loop_isolation(false)]
pub(crate) fn clone_mugs(data: &Vec<Mug>) -> (r: Vec<Mug>)
    ensures
        r@ == data@,
{
    let mut out: Vec<Mug> = Vec::new();
    let mut i: usize = 0;
    while i < data.len()
        invariant
            i <= data@.len(),
            out@ == data@.subrange(0, i as int),
        decreases data@.len() - i,
    {
        out.push(data[i].clone());
        proof {
            assert(out@ =~= data@.subrange(0, i + 1 as int));
        }
        i = i + 1;
    }
    proof {
        assert(data@.subrange(0, data@.len() as int) =~= data@);
    }
    out
}

/// The in-memory collection behind the mug routes. Ids are pairwise
/// distinct at all times; this is a type invariant, so every method
/// preserves it and no caller can break it.
pub struct Storage {
    data: Vec<Mug>,
}

impl Storage {
    #[verifier::type_invariant]
    spec fn wf(self) -> bool {
        unique_ids(self.data@)
    }

    /// The records now stored, in insertion order.
    pub closed spec fn records(&self) -> Seq<Mug> {
        self.data@
    }

    /// Ids are pairwise distinct in every reachable collection.
    pub fn records_unique(&self)
        ensures
            unique_ids(self.records()),
    {
        proof {
            use_type_invariant(&*self);
        }
    }

    /// An empty collection.
    pub fn init() -> (s: Storage)
        ensures
            s.records() == Seq::<Mug>::empty(),
    {
        Storage { data: Vec::new() }
    }

    /// A snapshot copy of all records, insertion order preserved.
    pub fn select_all(&self) -> (r: PipelineResult<Vec<Mug>>)
        ensures
            (r matches Ok(v) && v@ == self.records()),
    {
        Ok(clone_mugs(&self.data))
    }

    /// One atomic check-then-append attempt: stores the payload under `id`
    /// exactly when no record carries that id yet.
    pub fn insert_with_id(&mut self, v: &EphemeralMug, id: i64) -> (r: Option<Mug>)
        ensures
            !has_id(old(self).records(), id) ==> (r matches Some(m) && m.id == id && m@.data()
                == v@ && final(self).records() == old(self).records().push(m)),
            has_id(old(self).records(), id) ==> r is None && final(self).records()
                == old(self).records(),
    {
        proof {
            use_type_invariant(&*self);
        }
        match find_index(&self.data, id) {
            Some(_) => None,
            None => {
                let entry = Mug {
                    id: id,
                    name: v.name.clone(),
                    lat: v.lat.clone(),
                    lon: v.lon.clone(),
                    address: v.address.clone(),
                    num_mugs: v.num_mugs,
                };
                let ret = entry.clone();
                let mut d: Vec<Mug> = Vec::new();
                core::mem::swap(&mut d, &mut self.data);
                proof {
                    lemma_unique_after_insert(d@, entry);
                }
                d.push(entry);
                self.data = d;
                Some(ret)
            },
        }
    }

    /// Assigns a fresh id by rejection sampling and appends the record.
    /// Each random draw-and-check is one atomic attempt; after a bounded run
    /// of colliding draws (astronomically unlikely) the smallest unused id
    /// completes the insert deterministically, so an insert succeeds
    /// whenever the record count is below the id space.
    pub fn insert(&mut self, v: EphemeralMug) -> (r: PipelineResult<Mug>)
        ensures
            old(self).records().len() < 0x7fffffffffffffff ==> r is Ok,
            (r matches Ok(m) ==> final(self).records() == old(self).records().push(m) && m@.data()
                == v@ && !has_id(old(self).records(), m.id)),
            (r matches Err(e) ==> (e matches PipelineError::CannotFulfil) && final(self).records()
                == old(self).records() && old(self).records().len() >= 0x7fffffffffffffff),
    {
        let mut tries: u64 = 0;
        while tries < 64
            invariant
                self.records() == old(self).records(),
            decreases 64 - tries,
        {
            let id = random_id();
            match self.insert_with_id(&v, id) {
                Some(m) => {
                    return Ok(m);
                },
                None => {},
            }
            tries = tries + 1;
        }
        if (self.data.len() as u64) < 0x7fffffffffffffffu64 {
            let id = fresh_id(&self.data);
            match self.insert_with_id(&v, id) {
                Some(m) => Ok(m),
                None => {
                    proof {
                        assert(false);
                    }
                    Err(PipelineError::CannotFulfil)
                },
            }
        } else {
            Err(PipelineError::CannotFulfil)
        }
    }

    /// Replaces the stored record whose id matches `v.id` with `v` entirely;
    /// fails, leaving the collection unchanged, exactly when no record has
    /// that id.
    pub fn update(&mut self, v: Mug) -> (r: PipelineResult<Mug>)
        ensures
            has_id(old(self).records(), v.id) ==> (r matches Ok(m) && m == v && exists|k: int|
                0 <= k < old(self).records().len() && old(self).records()[k].id == v.id
                    && final(self).records() == old(self).records().update(k, v)),
            !has_id(old(self).records(), v.id) ==> (r matches Err(e) && (e
                matches PipelineError::NotFound(t) && t@ == "Mug does not exist"@))
                && final(self).records() == old(self).records(),
    {
        proof {
            use_type_invariant(&*self);
        }
        match find_index(&self.data, v.id) {
            Some(k) => {
                let ret = v.clone();
                let ghost before = self.data@;
                let mut d: Vec<Mug> = Vec::new();
                core::mem::swap(&mut d, &mut self.data);
                d[k] = v;
                proof {
                    assert forall|i: int, j: int| 0 <= i < j < d@.len() implies d@[i].id
                        != d@[j].id by {
                        assert(before[i].id != before[j].id);
                    }
                }
                self.data = d;
                Ok(ret)
            },
            None => Err(PipelineError::NotFound("Mug does not exist".to_owned())),
        }
    }

    /// Removes the stored record whose id matches `v.id`; all other fields
    /// of the input are ignored. Fails, leaving the collection unchanged,
    /// exactly when no record has that id. Afterwards no record carries the
    /// id.
    pub fn delete(&mut self, v: Mug) -> (r: PipelineResult<()>)
        ensures
            has_id(old(self).records(), v.id) ==> r is Ok && exists|k: int|
                0 <= k < old(self).records().len() && old(self).records()[k].id == v.id
                    && final(self).records() == old(self).records().remove(k),
            !has_id(old(self).records(), v.id) ==> (r matches Err(e) && (e
                matches PipelineError::NotFound(t) && t@ == "Mug does not exist"@))
                && final(self).records() == old(self).records(),
            forall|j: int|
                0 <= j < final(self).records().len() ==> final(self).records()[j].id != v.id,
    {
        proof {
            use_type_invariant(&*self);
        }
        match find_index(&self.data, v.id) {
            Some(k) => {
                let ghost before = self.data@;
                let mut d: Vec<Mug> = Vec::new();
                core::mem::swap(&mut d, &mut self.data);
                d.remove(k);
                proof {
                    assert forall|i: int, j: int| 0 <= i < j < d@.len() implies d@[i].id
                        != d@[j].id by {
                        assert(d@[i] == (if i < k {
                            before[i]
                        } else {
                            before[i + 1]
                        }));
                        assert(d@[j] == (if j < k {
                            before[j]
                        } else {
                            before[j + 1]
                        }));
                    }
                    assert forall|j: int| 0 <= j < d@.len() implies d@[j].id != v.id by {
                        if j < k {
                            assert(d@[j] == before[j]);
                        } else {
                            assert(d@[j] == before[j + 1]);
                        }
                    }
                }
                self.data = d;
                Ok(())
            },
            None => Err(PipelineError::NotFound("Mug does not exist".to_owned())),
        }
    }
}

// ---------------------------------------------------------------------------
// Route handlers
// ---------------------------------------------------------------------------

/// Lists all records. Storage failures coalesce to the generic internal
/// failure; the in-memory backend never fails here.
pub fn get<S: crate::storage::Storage>(_input: (), storage: &S) -> (r: PipelineResult<Vec<Mug>>)
    ensures
        (r matches Ok(v) && v@ == storage.records()),
{
    match storage.select_all_mugs() {
        Ok(v) => Ok(v),
        Err(_) => Err(PipelineError::CannotFulfil),
    }
}

/// Inserts a creation payload under a fresh id. The insert succeeds
/// whenever the record count is below the id space.
pub fn put<S: crate::storage::Storage>(mug: EphemeralMug, storage: &mut S) -> (r: PipelineResult<
    Mug,
>)
    ensures
        old(storage).records().len() < 0x7fffffffffffffff ==> r is Ok,
        (r matches Ok(m) ==> final(storage).records() == old(storage).records().push(m)
            && m@.data() == mug@ && !has_id(old(storage).records(), m.id)),
        (r matches Err(e) ==> (e matches PipelineError::CannotFulfil) && final(storage).records()
            == old(storage).records()),
        unique_ids(final(storage).records()),
{
    match storage.insert_mug(mug) {
        Ok(m) => Ok(m),
        Err(_) => Err(PipelineError::CannotFulfil),
    }
}

/// Replaces the record whose id matches the input's id with the input
/// entirely. An unknown id surfaces as the generic internal failure: the
/// storage error carries no kind to map more finely.
pub fn patch<S: crate::storage::Storage>(mug: Mug, storage: &mut S) -> (r: PipelineResult<Mug>)
    ensures
        has_id(old(storage).records(), mug.id) ==> (r matches Ok(m) && m == mug && exists|k: int|
            0 <= k < old(storage).records().len() && old(storage).records()[k].id == mug.id
                && final(storage).records() == old(storage).records().update(k, mug)),
        !has_id(old(storage).records(), mug.id) ==> (r matches Err(e) && (e
            matches PipelineError::CannotFulfil)) && final(storage).records() == old(
            storage,
        ).records(),
        unique_ids(final(storage).records()),
{
    match storage.update_mug(mug) {
        Ok(m) => Ok(m),
        Err(_) => Err(PipelineError::CannotFulfil),
    }
}

/// Removes the record whose id matches the input's id; all other fields of
/// the input are ignored. An unknown id surfaces as the generic internal
/// failure, leaving the collection unchanged.
pub fn delete<S: crate::storage::Storage>(mug: Mug, storage: &mut S) -> (r: PipelineResult<()>)
    ensures
        has_id(old(storage).records(), mug.id) ==> r is Ok && exists|k: int|
            0 <= k < old(storage).records().len() && old(storage).records()[k].id == mug.id
                && final(storage).records() == old(storage).records().remove(k),
        !has_id(old(storage).records(), mug.id) ==> (r matches Err(e) && (e
            matches PipelineError::CannotFulfil)) && final(storage).records() == old(
            storage,
        ).records(),
        forall|j: int|
            0 <= j < final(storage).records().len() ==> final(storage).records()[j].id != mug.id,
        unique_ids(final(storage).records()),
{
    match storage.delete(mug) {
        Ok(u) => Ok(u),
        Err(_) => Err(PipelineError::CannotFulfil),
    }
}

} // verus!
