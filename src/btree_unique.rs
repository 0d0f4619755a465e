use crate::error::IndexError;
use crate::index::{Index, KeyFn};
use std::collections::BTreeMap;
use std::marker::PhantomData;
use vstd::laws_cmp::obeys_cmp;
use vstd::prelude::*;

verus! {

/// A secondary index that maps each derived key to exactly one primary key.
///
/// The key of a record is derived by the function given to [`UniqueBTreeIndex::new`].
#[verifier::reject_recursive_types(K)]
#[verifier::reject_recursive_types(T)]
pub struct UniqueBTreeIndex<T, K: Ord, F: KeyFn<T, K>> {
    map: F,
    data: BTreeMap<K, u64>,
    registered: Ghost<Map<u64, T>>,
    record_type: PhantomData<T>,
}

impl<T, K: Ord, F: KeyFn<T, K>> UniqueBTreeIndex<T, K, F> {
    /// The function that derives the key of a record.
    pub closed spec fn deriver(&self) -> F {
        self.map
    }

    /// The key that the derivation function gives for `r`.
    pub open spec fn key_of(&self, r: T) -> K {
        self.deriver().derive(r)
    }

    /// The primary keys of the registered records whose derived key is `k`.
    pub open spec fn keyed(&self, k: K) -> Set<u64> {
        self.records().dom().filter(|pk: u64| self.key_of(self.records()[pk]) == k)
    }

    #[verifier::type_invariant]
    spec fn shape(&self) -> bool {
        obeys_cmp::<K>()
    }

    proof fn lemma_key_of(&self, r: &T, k: K)
        requires
            self.map.derive(*r) == k,
        ensures
            self.key_of(*r) == k,
    {
    }

    /// Create an empty index whose keys `map` derives.
    pub fn new(map: F) -> (r: Self)
        requires
            obeys_cmp::<K>(),
        ensures
            r.wf(),
            r.deriver() == map,
            r.records() == Map::<u64, T>::empty(),
    {
        UniqueBTreeIndex { map, data: BTreeMap::new(), registered: Ghost(Map::empty()), record_type: PhantomData }
    }

    /// Register `element` under primary key `key`; fails when another record already
    /// holds the same derived key.
    pub fn insert(&mut self, key: u64, element: &T) -> (r: Result<(), IndexError>)
        requires
            old(self).wf(),
            old(self).records().contains_key(key) ==> old(self).key_of(old(self).records()[key])
                == old(self).key_of(*element),
        ensures
            final(self).wf(),
            final(self).deriver() == old(self).deriver(),
            r is Ok <==> old(self).keyed(old(self).key_of(*element)).is_empty(),
            r is Ok ==> final(self).records() == old(self).records().insert(key, *element),
            r matches Err(IndexError::Duplicate(pk)) ==> {
                &&& final(self).records() == old(self).records()
                &&& old(self).keyed(old(self).key_of(*element)) == set![pk]
            },
    {
        proof {
            use_type_invariant(&*self);
        }
        let k = self.map.key(element);
        proof {
            self.lemma_key_of(element, k);
        }
        match self.data.get(&k) {
            Some(existing) => {
                let pk: u64 = *existing;
                assert(self.keyed(k) =~= set![pk]);
                Err(IndexError::Duplicate(pk))
            },
            None => {
                assert(self.keyed(k) =~= Set::empty());
                let mut data = BTreeMap::new();
                std::mem::swap(&mut data, &mut self.data);
                data.insert(k, key);
                self.data = data;
                self.registered = Ghost(self.registered@.insert(key, *element));
                Ok(())
            },
        }
    }

    /// Unregister the record `element` under primary key `key`. Nothing changes unless
    /// `key` is registered with the same derived key as `element`.
    pub fn remove(&mut self, key: u64, element: &T) -> (r: Result<(), IndexError>)
        requires
            old(self).wf(),
        ensures
            final(self).wf(),
            final(self).deriver() == old(self).deriver(),
            r is Ok,
            final(self).records() == if old(self).records().contains_key(key) && old(self).key_of(
                old(self).records()[key],
            ) == old(self).key_of(*element) {
                old(self).records().remove(key)
            } else {
                old(self).records()
            },
    {
        proof {
            use_type_invariant(&*self);
        }
        let k = self.map.key(element);
        proof {
            self.lemma_key_of(element, k);
        }
        let found = match self.data.get(&k) {
            Some(existing) => *existing == key,
            None => false,
        };
        if found {
            let mut data = BTreeMap::new();
            std::mem::swap(&mut data, &mut self.data);
            data.remove(&k);
            self.data = data;
            self.registered = Ghost(self.registered@.remove(key));
        }
        Ok(())
    }

    /// Remove all elements from the index.
    pub fn clear(&mut self)
        ensures
            final(self).wf(),
            final(self).deriver() == old(self).deriver(),
            final(self).records() == Map::<u64, T>::empty(),
    {
        proof {
            use_type_invariant(&*self);
        }
        self.data = BTreeMap::new();
        self.registered = Ghost(Map::empty());
    }

    /// The primary key registered under derived key `key`, if any.
    pub fn lookup(&self, key: &K) -> (r: Vec<u64>)
        requires
            self.wf(),
        ensures
            r.len() <= 1,
            r@.to_set() == self.keyed(*key),
    {
        proof {
            use_type_invariant(self);
        }
        let mut r: Vec<u64> = Vec::new();
        match self.data.get(key) {
            Some(pk) => {
                r.push(*pk);
                assert(self.keyed(*key) =~= set![*pk]);
                assert(r@ =~= seq![*pk]);
                assert(r@[0] == *pk);
                assert(r@.to_set() =~= set![*pk]);
            },
            None => {
                assert(self.keyed(*key) =~= Set::empty());
                assert(r@.to_set() =~= Set::empty());
            },
        }
        r
    }
}

impl<T, K: Ord, F: KeyFn<T, K>> Index<T> for UniqueBTreeIndex<T, K, F> {
    closed spec fn wf(&self) -> bool {
        &&& forall|pk: u64| #[trigger]
            self.registered@.contains_key(pk) ==> {
                let k = self.key_of(self.registered@[pk]);
                self.data@.contains_key(k) && self.data@[k] == pk
            }
        &&& forall|k: K| #[trigger]
            self.data@.contains_key(k) ==> {
                &&& self.registered@.contains_key(self.data@[k])
                &&& self.key_of(self.registered@[self.data@[k]]) == k
            }
    }

    closed spec fn records(&self) -> Map<u64, T> {
        self.registered@
    }

    open spec fn same_key(&self, a: T, b: T) -> bool {
        self.key_of(a) == self.key_of(b)
    }

    open spec fn clashes(&self, held: T, value: T) -> bool {
        self.key_of(held) == self.key_of(value)
    }

    fn clear(&mut self) {
        UniqueBTreeIndex::clear(self)
    }

    fn check(&self, key: u64, value: &T) -> (r: Result<(), IndexError>) {
        proof {
            use_type_invariant(&*self);
        }
        let k = self.map.key(value);
        proof {
            self.lemma_key_of(value, k);
        }
        match self.data.get(&k) {
            Some(existing) => {
                assert(self.keyed(k).contains(*existing));
                Err(IndexError::Duplicate(*existing))
            },
            None => {
                assert(self.keyed(k) =~= Set::empty());
                Ok(())
            },
        }
    }

    fn insert(&mut self, key: u64, value: &T) -> (r: Result<(), IndexError>) {
        let r = UniqueBTreeIndex::insert(self, key, value);
        proof {
            if let Err(IndexError::Duplicate(pk)) = r {
                assert(old(self).keyed(old(self).key_of(*value)).contains(pk));
            } else {
                assert forall|pk: u64| #[trigger]
                    old(self).records().contains_key(pk) implies !old(self).clashes(
                    old(self).records()[pk],
                    *value,
                ) by {
                    if old(self).clashes(old(self).records()[pk], *value) {
                        assert(old(self).keyed(old(self).key_of(*value)).contains(pk));
                    }
                }
            }
        }
        r
    }

    fn remove(&mut self, key: u64, value: &T) -> (r: Result<(), IndexError>) {
        UniqueBTreeIndex::remove(self, key, value)
    }

    fn lookup_like(&self, probe: &T) -> (r: Vec<u64>) {
        proof {
            use_type_invariant(self);
        }
        let k = self.map.key(probe);
        proof {
            self.lemma_key_of(probe, k);
        }
        let r = self.lookup(&k);
        assert(self.keyed(k) =~= self.records().dom().filter(
            |pk: u64| self.same_key(self.records()[pk], *probe),
        ));
        r
    }
}

} // verus!
