use crate::error::IndexError;
use crate::index::{Index, KeyFn};
use std::collections::{BTreeMap, BTreeSet};
use std::marker::PhantomData;
use vstd::laws_cmp::obeys_cmp;
use vstd::std_specs::btree::{axiom_increasing_seq_meaning, increasing_seq};
use vstd::prelude::*;
use vstd::std_specs::cmp::OrdSpec;
use vstd::std_specs::iter::IteratorSpec;

verus! {

/// A secondary index that maps each derived key to the set of primary keys of the
/// records that share it.
///
/// The key of a record is derived by the function given to [`BTreeIndex::new`].
#[verifier::reject_recursive_types(K)]
#[verifier::reject_recursive_types(T)]
pub struct BTreeIndex<T, K: Ord, F: KeyFn<T, K>> {
    map: F,
    data: BTreeMap<K, BTreeSet<u64>>,
    registered: Ghost<Map<u64, T>>,
    record_type: PhantomData<T>,
}

impl<T, K: Ord, F: KeyFn<T, K>> BTreeIndex<T, K, F> {
    /// The function that derives the key of a record.
    pub closed spec fn deriver(&self) -> F {
        self.map
    }

    /// The key that the derivation function gives for `r`.
    pub open spec fn key_of(&self, r: T) -> K {
        self.deriver().derive(r)
    }

    /// The primary keys of the registered records whose derived key is `k`.
    pub open spec fn keyed(&self, k: K) -> Set<u64> {
        self.records().dom().filter(|pk: u64| self.key_of(self.records()[pk]) == k)
    }

    /// The derived keys for which the index holds an entry.
    pub closed spec fn stored_keys(&self) -> Set<K> {
        self.data@.dom()
    }

    #[verifier::type_invariant]
    spec fn shape(&self) -> bool {
        obeys_cmp::<K>()
    }

    proof fn lemma_key_of(&self, r: &T, k: K)
        requires
            self.map.derive(*r) == k,
        ensures
            self.key_of(*r) == k,
    {
    }

    /// The index holds an entry for a derived key exactly while some registered
    /// record has that key: no entry is left with an empty set.
    pub proof fn lemma_stored_keys(&self)
        requires
            self.wf(),
        ensures
            forall|k: K| #[trigger]
                self.stored_keys().contains(k) <==> !self.keyed(k).is_empty(),
    {
        assert forall|k: K| #[trigger] self.stored_keys().contains(k) implies !self.keyed(
            k,
        ).is_empty() by {
            let pk = self.data@[k]@.choose();
            assert(self.data@[k]@.contains(pk));
            assert(self.keyed(k).contains(pk));
        }
        assert forall|k: K| !(#[trigger] self.keyed(k)).is_empty() implies self.stored_keys().contains(
            k,
        ) by {
            let pk = self.keyed(k).choose();
            assert(self.keyed(k).contains(pk));
            assert(self.registered@.contains_key(pk));
        }
    }

    /// Registering a record adds its primary key to the keys listed under its derived
    /// key, and to no other.
    pub proof fn lemma_keyed_after_insert(before: &Self, after: &Self, pk: u64, r: T, k: K)
        requires
            after.deriver() == before.deriver(),
            !before.records().contains_key(pk),
            after.records() == before.records().insert(pk, r),
        ensures
            after.keyed(k) == if before.key_of(r) == k {
                before.keyed(k).insert(pk)
            } else {
                before.keyed(k)
            },
    {
        assert(after.keyed(k) =~= if before.key_of(r) == k {
            before.keyed(k).insert(pk)
        } else {
            before.keyed(k)
        });
    }

    /// Unregistering a record takes its primary key out of the keys listed under its
    /// derived key, and changes no other list.
    pub proof fn lemma_keyed_after_remove(before: &Self, after: &Self, pk: u64, k: K)
        requires
            after.deriver() == before.deriver(),
            after.records() == before.records().remove(pk),
        ensures
            after.keyed(k) == before.keyed(k).remove(pk),
    {
        assert(after.keyed(k) =~= before.keyed(k).remove(pk));
    }

    /// Create an empty index whose keys `map` derives.
    pub fn new(map: F) -> (r: Self)
        requires
            obeys_cmp::<K>(),
        ensures
            r.wf(),
            r.deriver() == map,
            r.records() == Map::<u64, T>::empty(),
    {
        BTreeIndex {
            map,
            data: BTreeMap::new(),
            registered: Ghost(Map::empty()),
            record_type: PhantomData,
        }
    }

    /// Register `element` under primary key `key`. Records may share a derived key,
    /// so this always succeeds.
    pub fn insert(&mut self, key: u64, element: &T) -> (r: Result<(), IndexError>)
        requires
            old(self).wf(),
            old(self).records().contains_key(key) ==> old(self).key_of(old(self).records()[key])
                == old(self).key_of(*element),
        ensures
            final(self).wf(),
            final(self).deriver() == old(self).deriver(),
            r is Ok,
            final(self).records() == old(self).records().insert(key, *element),
    {
        proof {
            use_type_invariant(&*self);
        }
        let k = self.map.key(element);
        proof {
            self.lemma_key_of(element, k);
        }
        let mut data = BTreeMap::new();
        std::mem::swap(&mut data, &mut self.data);
        let mut set = match data.remove(&k) {
            Some(set) => set,
            None => BTreeSet::new(),
        };
        set.insert(key);
        data.insert(k, set);
        self.data = data;
        self.registered = Ghost(self.registered@.insert(key, *element));
        assert forall|k2: K| #[trigger] self.data@.contains_key(k2) implies self.data@[k2]@
            == self.keyed(k2) && !self.data@[k2]@.is_empty() by {
            if k2 == k {
                assert(self.data@[k2]@.contains(key));
                assert(self.data@[k2]@ =~= self.keyed(k2));
            } else {
                assert(self.data@[k2]@ =~= self.keyed(k2));
            }
        }
        Ok(())
    }

    /// Unregister the record `element` under primary key `key`, dropping the entry of
    /// its derived key once no record is left under it. Nothing changes unless `key`
    /// is registered with the same derived key as `element`.
    pub fn remove(&mut self, key: u64, element: &T) -> (r: Result<(), IndexError>)
        requires
            old(self).wf(),
        ensures
            final(self).wf(),
            final(self).deriver() == old(self).deriver(),
            r is Ok,
            final(self).records() == if old(self).records().contains_key(key) && old(self).key_of(
                old(self).records()[key],
            ) == old(self).key_of(*element) {
                old(self).records().remove(key)
            } else {
                old(self).records()
            },
    {
        proof {
            use_type_invariant(&*self);
        }
        let k = self.map.key(element);
        proof {
            self.lemma_key_of(element, k);
        }
        let mut data = BTreeMap::new();
        std::mem::swap(&mut data, &mut self.data);
        let removed = data.remove(&k);
        self.data = data;
        match removed {
            Some(mut set) => {
                let ghost before = set@;
                let was = set.remove(&key);
                if !set.is_empty() {
                    let mut data = BTreeMap::new();
                    std::mem::swap(&mut data, &mut self.data);
                    data.insert(k, set);
                    self.data = data;
                }
                if was {
                    self.registered = Ghost(self.registered@.remove(key));
                }
                assert forall|k2: K| #[trigger] self.data@.contains_key(k2) implies self.data@[k2]@
                    == self.keyed(k2) && !self.data@[k2]@.is_empty() by {
                    assert(self.data@[k2]@ =~= self.keyed(k2));
                }
                assert forall|pk: u64| #[trigger] self.registered@.contains_key(pk) implies {
                    let kk = self.key_of(self.registered@[pk]);
                    self.data@.contains_key(kk) && self.data@[kk]@.contains(pk)
                } by {
                    let kk = self.key_of(self.registered@[pk]);
                    if kk == k {
                        assert(before.contains(pk));
                        assert(set@.contains(pk));
                    }
                }
            },
            None => {
                assert(self.data@ =~= old(self).data@);
                assert forall|k2: K| #[trigger] self.data@.contains_key(k2) implies self.data@[k2]@
                    == self.keyed(k2) by {
                    assert(old(self).data@.contains_key(k2));
                    assert(self.keyed(k2) =~= old(self).keyed(k2));
                }
            },
        }
        Ok(())
    }

    /// Remove all elements from the index.
    pub fn clear(&mut self)
        ensures
            final(self).wf(),
            final(self).deriver() == old(self).deriver(),
            final(self).records() == Map::<u64, T>::empty(),
    {
        proof {
            use_type_invariant(&*self);
        }
        self.data = BTreeMap::new();
        self.registered = Ghost(Map::empty());
    }

    /// The primary keys registered under derived key `key`, in ascending order.
    pub fn lookup(&self, key: &K) -> (r: Vec<u64>)
        requires
            self.wf(),
        ensures
            r@.to_set() == self.keyed(*key),
            forall|i: int, j: int| 0 <= i < j < r.len() ==> r[i] < r[j],
    {
        proof {
            use_type_invariant(self);
        }
        let mut r: Vec<u64> = Vec::new();
        match self.data.get(key) {
            Some(set) => {
                let iter = set.iter();
                let ghost items = iter.remaining();
                for x in it: iter
                    invariant
                        it.seq() == items,
                        r.len() == it.index(),
                        forall|i: int| 0 <= i < it.index() ==> r@[i] == *it.seq()[i],
                {
                    r.push(*x);
                }
                assert(r@ =~= items.unref());
                proof {
                    assert(obeys_cmp::<&u64>());
                    assert(increasing_seq(items));
                    axiom_increasing_seq_meaning::<&u64>(items);
                    assert forall|i: int, j: int| 0 <= i < j < r.len() implies r[i] < r[j] by {
                        assert(<&u64 as OrdSpec>::cmp_spec(&items[i], &items[j]) is Less);
                        assert(r[i] == *items[i]);
                    }
                }
                assert(r@.to_set() =~= self.keyed(*key));
            },
            None => {
                assert(self.keyed(*key) =~= Set::empty()) by {
                    if !self.keyed(*key).is_empty() {
                        let pk = self.keyed(*key).choose();
                        assert(self.keyed(*key).contains(pk));
                        assert(self.registered@.contains_key(pk));
                    }
                }
                assert(r@.to_set() =~= Set::empty());
            },
        }
        r
    }
}

impl<T, K: Ord, F: KeyFn<T, K>> Index<T> for BTreeIndex<T, K, F> {
    closed spec fn wf(&self) -> bool {
        &&& forall|pk: u64| #[trigger]
            self.registered@.contains_key(pk) ==> {
                let k = self.key_of(self.registered@[pk]);
                self.data@.contains_key(k) && self.data@[k]@.contains(pk)
            }
        &&& forall|k: K| #[trigger]
            self.data@.contains_key(k) ==> self.data@[k]@ == self.keyed(k)
                && !self.data@[k]@.is_empty()
    }

    closed spec fn records(&self) -> Map<u64, T> {
        self.registered@
    }

    open spec fn same_key(&self, a: T, b: T) -> bool {
        self.key_of(a) == self.key_of(b)
    }

    open spec fn clashes(&self, held: T, value: T) -> bool {
        false
    }

    fn clear(&mut self) {
        BTreeIndex::clear(self)
    }

    fn check(&self, key: u64, value: &T) -> (r: Result<(), IndexError>) {
        Ok(())
    }

    fn insert(&mut self, key: u64, value: &T) -> (r: Result<(), IndexError>) {
        BTreeIndex::insert(self, key, value)
    }

    fn remove(&mut self, key: u64, value: &T) -> (r: Result<(), IndexError>) {
        BTreeIndex::remove(self, key, value)
    }

    fn lookup_like(&self, probe: &T) -> (r: Vec<u64>) {
        proof {
            use_type_invariant(self);
        }
        let k = self.map.key(probe);
        proof {
            self.lemma_key_of(probe, k);
        }
        let r = self.lookup(&k);
        assert(self.keyed(k) =~= self.records().dom().filter(
            |pk: u64| self.same_key(self.records()[pk], *probe),
        ));
        r
    }
}

} // verus!
