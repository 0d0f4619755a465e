use crate::error::IndexError;
use vstd::prelude::*;

verus! {

/// How an index derives the key it files a record under.
pub trait KeyFn<T, K> {
    /// The key of `element`.
    spec fn derive(&self, element: T) -> K;

    /// Compute the key of `element`.
    fn key(&self, element: &T) -> (k: K)
        ensures
            k == self.derive(*element),
    ;
}

/// What a table asks of each of its secondary indices.
///
/// An index is modelled by the records registered in it, keyed by primary key,
/// together with two fixed relations between records: which records share a
/// derived key, and which may not be registered side by side. What an index
/// answers follows from these, and no method changes the relations.
pub trait Index<T> {
    /// The index's internal invariant.
    spec fn wf(&self) -> bool;

    /// The records registered in the index, by primary key.
    spec fn records(&self) -> Map<u64, T>;

    /// Whether records `a` and `b` are filed under the same derived key.
    spec fn same_key(&self, a: T, b: T) -> bool;

    /// Whether `value` may not be registered while `held` is.
    spec fn clashes(&self, held: T, value: T) -> bool;

    /// Remove all elements from the index, whatever state it was left in.
    fn clear(&mut self)
        ensures
            final(self).wf(),
            final(self).records() == Map::<u64, T>::empty(),
            forall|a: T, b: T| #[trigger] final(self).clashes(a, b) == old(self).clashes(a, b),
            forall|a: T, b: T| #[trigger] final(self).same_key(a, b) == old(self).same_key(a, b),
    ;

    /// Tell whether `value` could be registered, without changing the index; a
    /// refusal names a registered record that `value` clashes with.
    fn check(&self, key: u64, value: &T) -> (r: Result<(), IndexError>)
        requires
            self.wf(),
        ensures
            r is Ok <==> forall|pk: u64| #[trigger]
                self.records().contains_key(pk) ==> !self.clashes(self.records()[pk], *value),
            r matches Err(IndexError::Duplicate(pk)) ==> self.records().contains_key(pk)
                && self.clashes(self.records()[pk], *value),
    ;

    /// Register `value` under primary key `key`; a refusal names a registered
    /// record that `value` clashes with, and changes nothing. A key already
    /// registered may only be registered again under the same derived key.
    fn insert(&mut self, key: u64, value: &T) -> (r: Result<(), IndexError>)
        requires
            old(self).wf(),
            old(self).records().contains_key(key) ==> old(self).same_key(
                old(self).records()[key],
                *value,
            ),
        ensures
            final(self).wf(),
            forall|a: T, b: T| #[trigger] final(self).clashes(a, b) == old(self).clashes(a, b),
            forall|a: T, b: T| #[trigger] final(self).same_key(a, b) == old(self).same_key(a, b),
            r is Ok <==> forall|pk: u64| #[trigger]
                old(self).records().contains_key(pk) ==> !old(self).clashes(
                    old(self).records()[pk],
                    *value,
                ),
            r is Ok ==> final(self).records() == old(self).records().insert(key, *value),
            r is Err ==> final(self).records() == old(self).records(),
            r matches Err(IndexError::Duplicate(pk)) ==> old(self).records().contains_key(pk)
                && old(self).clashes(old(self).records()[pk], *value),
    ;

    /// Unregister the record `value` under primary key `key`. Nothing changes when
    /// `key` is not registered.
    fn remove(&mut self, key: u64, value: &T) -> (r: Result<(), IndexError>)
        requires
            old(self).wf(),
        ensures
            final(self).wf(),
            r is Ok,
            forall|a: T, b: T| #[trigger] final(self).clashes(a, b) == old(self).clashes(a, b),
            forall|a: T, b: T| #[trigger] final(self).same_key(a, b) == old(self).same_key(a, b),
            old(self).records().contains_key(key) && old(self).records()[key] == *value
                ==> final(self).records() == old(self).records().remove(key),
            !old(self).records().contains_key(key) ==> final(self).records() == old(
                self,
            ).records(),
    ;

    /// The primary keys of the registered records filed under the same derived key
    /// as `probe`, in ascending order.
    fn lookup_like(&self, probe: &T) -> (r: Vec<u64>)
        requires
            self.wf(),
        ensures
            r@.to_set() == self.records().dom().filter(
                |pk: u64| self.same_key(self.records()[pk], *probe),
            ),
            forall|i: int, j: int| 0 <= i < j < r.len() ==> r[i] < r[j],
    ;
}

} // verus!
