use crate::error::{IndexError, TableError};
use crate::btree::BTreeIndex;
use crate::index::{Index, KeyFn};
use std::collections::BTreeMap;
use vstd::prelude::*;
use vstd::std_specs::btree::{axiom_increasing_seq_meaning, increasing_seq};
use vstd::std_specs::cmp::OrdSpec;
use vstd::std_specs::iter::IteratorSpec;

verus! {

/// A record that can be stored in a [`Table`]: it names its own primary key.
pub trait Identity {
    /// The primary key of this record, as a value.
    spec fn key(&self) -> u64;

    /// The primary key of this record.
    fn primary_key(&self) -> (r: u64)
        ensures
            r == self.key(),
    ;
}

/// A named predicate that a record must satisfy before it is inserted.
pub trait Constraint<T> {
    /// Whether the constraint accepts `element`.
    spec fn accepts(&self, element: T) -> bool;

    /// `Ok` when `element` is acceptable, else a message saying why not.
    fn check(&self, element: &T) -> (r: Result<(), String>)
        ensures
            r is Ok <==> self.accepts(*element),
    ;
}

/// A named callback run on each candidate record before it is validated; it may
/// change the record, and may read the records already stored.
pub trait PreInsertHook<T> {
    fn apply(&self, table: &Records<T>, element: &mut T);
}

/// A named callback run after a record has been committed, with its primary key
/// and the records stored by then.
pub trait PostInsertHook<T> {
    fn apply(&self, table: &Records<T>, key: &u64);
}

/// The records of a table, by primary key: what hooks may read.
pub struct Records<T> {
    map: BTreeMap<u64, T>,
}

impl<T> View for Records<T> {
    type V = Map<u64, T>;

    closed spec fn view(&self) -> Map<u64, T> {
        self.map@
    }
}

impl<T> Records<T> {
    /// Get count of records
    pub fn len(&self) -> (r: usize)
        ensures
            r == self@.len(),
            self@.dom().finite(),
    {
        self.map.len()
    }

    /// Try looking up a record by its primary key
    pub fn lookup(&self, key: &u64) -> (r: Option<&T>)
        ensures
            match r {
                Some(v) => self@.contains_key(*key) && *v == self@[*key],
                None => !self@.contains_key(*key),
            },
    {
        self.map.get(key)
    }
}

/// A table of records keyed by primary key, with named secondary indices,
/// constraints and insert hooks.
#[verifier::reject_recursive_types(T)]
pub struct Table<T> {
    data: Records<T>,
    pre_insert_hook_names: Vec<String>,
    pre_insert_hooks: Vec<Box<dyn PreInsertHook<T>>>,
    post_insert_hook_names: Vec<String>,
    post_insert_hooks: Vec<Box<dyn PostInsertHook<T>>>,
    constraint_names: Vec<String>,
    constraints: Vec<Box<dyn Constraint<T>>>,
    index_names: Vec<String>,
    indices: Vec<Box<dyn Index<T>>>,
}

/// The views of a list of names.
pub open spec fn name_views(names: Seq<String>) -> Seq<Seq<char>> {
    names.map_values(|s: String| s@)
}

/// Where `name` stands in a registry's names once it has been added: its place
/// if it is there already, else the end.
pub open spec fn position_of(names: Seq<Seq<char>>, name: Seq<char>) -> int {
    if names.contains(name) {
        choose|i: int| 0 <= i < names.len() && names[i] == name
    } else {
        names.len() as int
    }
}

/// A registry's names after `name` is added: a name already there keeps its place.
pub open spec fn with_name(names: Seq<Seq<char>>, name: Seq<char>) -> Seq<Seq<char>> {
    if names.contains(name) {
        names
    } else {
        names.push(name)
    }
}

proof fn lemma_push_name(names: Seq<String>, s: String)
    requires
        name_views(names).no_duplicates(),
        !name_views(names).contains(s@),
    ensures
        name_views(names.push(s)) == name_views(names).push(s@),
        name_views(names.push(s)).no_duplicates(),
{
    assert(name_views(names.push(s)) =~= name_views(names).push(s@));
}

proof fn lemma_remove_name(names: Seq<String>, i: int)
    requires
        0 <= i < names.len(),
        name_views(names).no_duplicates(),
    ensures
        name_views(names.remove(i)) == name_views(names).remove(i),
        name_views(names.remove(i)).no_duplicates(),
{
    let v = name_views(names);
    assert(name_views(names.remove(i)) =~= v.remove(i));
    let w = v.remove(i);
    assert forall|a: int, b: int| 0 <= a < b < w.len() implies w[a] != w[b] by {
        let a2 = if a < i { a } else { a + 1 };
        let b2 = if b < i { b } else { b + 1 };
        assert(w[a] == v[a2]);
        assert(w[b] == v[b2]);
    }
}

// Sequences whose elements are trait objects do not get the usual sequence facts
// automatically; the lemmas below state those facts for any element type, so that
// they can be applied to the registries by hand.
proof fn lemma_seq_push<A>(s: Seq<A>, a: A)
    ensures
        s.push(a).len() == s.len() + 1,
        s.push(a)[s.len() as int] == a,
        forall|j: int| 0 <= j < s.len() ==> #[trigger] s.push(a)[j] == s[j],
{
}

proof fn lemma_seq_update_len<A>(s: Seq<A>, i: int)
    requires
        0 <= i < s.len(),
    ensures
        forall|a: A| #[trigger] s.update(i, a).len() == s.len(),
{
}

proof fn lemma_seq_prefix<A>(s: Seq<A>, n: int)
    requires
        0 <= n <= s.len(),
    ensures
        s.subrange(0, n).len() == n,
        forall|j: int| 0 <= j < n ==> #[trigger] s.subrange(0, n)[j] == s[j],
{
}

proof fn lemma_seq_swap_remove<A>(s: Seq<A>, i: int)
    requires
        0 <= i < s.len(),
    ensures
        s.update(i, s.last()).drop_last().len() == s.len() - 1,
        forall|j: int|
            0 <= j < s.len() - 1 ==> #[trigger] s.update(i, s.last()).drop_last()[j] == if j == i {
                s[s.len() - 1]
            } else {
                s[j]
            },
{
}

proof fn lemma_seq_remove<A>(s: Seq<A>, i: int)
    requires
        0 <= i < s.len(),
    ensures
        s.remove(i).len() == s.len() - 1,
        forall|j: int| 0 <= j < i ==> #[trigger] s.remove(i)[j] == s[j],
        forall|j: int| i <= j < s.len() - 1 ==> #[trigger] s.remove(i)[j] == s[j + 1],
{
}

/// A constraint that accepts every record; it only holds a place.
struct Unconstrained;

impl<T> Constraint<T> for Unconstrained {
    open spec fn accepts(&self, element: T) -> bool {
        true
    }

    fn check(&self, element: &T) -> (r: Result<(), String>) {
        Ok(())
    }
}

/// A key function that files every record together; it only holds a place.
struct Together;

impl<T> KeyFn<T, u64> for Together {
    open spec fn derive(&self, element: T) -> u64 {
        0
    }

    fn key(&self, element: &T) -> (k: u64) {
        0
    }
}

/// Where `name` stands in `names`, if anywhere.
fn position(names: &Vec<String>, name: &String) -> (r: Option<usize>)
    ensures
        match r {
            Some(i) => i < names.len() && names@[i as int]@ == name@,
            None => forall|i: int| 0 <= i < names.len() ==> names@[i]@ != name@,
        },
{
    let mut i: usize = 0;
    while i < names.len()
        invariant
            i <= names.len(),
            forall|j: int| 0 <= j < i ==> names@[j]@ != name@,
        decreases names.len() - i,
    {
        if names[i] == *name {
            return Some(i);
        }
        i = i + 1;
    }
    None
}

impl<T> View for Table<T> {
    type V = Map<u64, T>;

    /// The stored records, by primary key.
    closed spec fn view(&self) -> Map<u64, T> {
        self.data@
    }
}

impl<T: Identity> Table<T> {
    /// The names of the indices, in registration order.
    pub closed spec fn index_names(&self) -> Seq<Seq<char>> {
        name_views(self.index_names@)
    }

    /// The names of the constraints, in registration order.
    pub closed spec fn constraint_names(&self) -> Seq<Seq<char>> {
        name_views(self.constraint_names@)
    }

    /// The names of the pre-insert hooks, in registration order.
    pub closed spec fn pre_insert_hook_names(&self) -> Seq<Seq<char>> {
        name_views(self.pre_insert_hook_names@)
    }

    /// The names of the post-insert hooks, in registration order.
    pub closed spec fn post_insert_hook_names(&self) -> Seq<Seq<char>> {
        name_views(self.post_insert_hook_names@)
    }

    /// The records registered in the `i`-th index.
    pub closed spec fn index_records(&self, i: int) -> Map<u64, T> {
        self.indices@[i].records()
    }

    /// Whether the `i`-th index refuses `value` while it holds `held`.
    pub closed spec fn index_clashes(&self, i: int, held: T, value: T) -> bool {
        self.indices@[i].clashes(held, value)
    }

    /// Whether the `i`-th index files `a` and `b` under the same derived key.
    pub closed spec fn index_same_key(&self, i: int, a: T, b: T) -> bool {
        self.indices@[i].same_key(a, b)
    }

    /// Whether `self` has the indices of `o`, in the same places, with the same
    /// relations between records.
    pub open spec fn keeps_index_rules(&self, o: &Self) -> bool {
        &&& self.index_names() == o.index_names()
        &&& forall|i: int, a: T, b: T|
            0 <= i < o.index_names().len() ==> #[trigger] self.index_clashes(i, a, b)
                == o.index_clashes(i, a, b)
        &&& forall|i: int, a: T, b: T|
            0 <= i < o.index_names().len() ==> #[trigger] self.index_same_key(i, a, b)
                == o.index_same_key(i, a, b)
    }

    /// Whether the indices of `self` are those of `o` without the `i`-th, each
    /// with the same relations between records.
    pub open spec fn keeps_index_rules_without(&self, o: &Self, i: int) -> bool {
        &&& forall|j: int, a: T, b: T|
            0 <= j < i ==> #[trigger] self.index_clashes(j, a, b) == o.index_clashes(j, a, b)
        &&& forall|j: int, a: T, b: T|
            i <= j < o.index_names().len() - 1 ==> #[trigger] self.index_clashes(j, a, b)
                == o.index_clashes(j + 1, a, b)
        &&& forall|j: int, a: T, b: T|
            0 <= j < i ==> #[trigger] self.index_same_key(j, a, b) == o.index_same_key(j, a, b)
        &&& forall|j: int, a: T, b: T|
            i <= j < o.index_names().len() - 1 ==> #[trigger] self.index_same_key(j, a, b)
                == o.index_same_key(j + 1, a, b)
    }

    /// Whether the constraints of `self` are those of `o` without the `i`-th, each
    /// accepting the same records.
    pub open spec fn keeps_constraint_rules_without(&self, o: &Self, i: int) -> bool {
        &&& forall|j: int, v: T|
            0 <= j < i ==> #[trigger] self.constraint_accepts(j, v) == o.constraint_accepts(j, v)
        &&& forall|j: int, v: T|
            i <= j < o.constraint_names().len() - 1 ==> #[trigger] self.constraint_accepts(j, v)
                == o.constraint_accepts(j + 1, v)
    }

    /// Whether `self` has the constraints of `o`, in the same places, accepting
    /// the same records.
    pub open spec fn keeps_constraint_rules(&self, o: &Self) -> bool {
        &&& self.constraint_names() == o.constraint_names()
        &&& forall|i: int, v: T|
            0 <= i < o.constraint_names().len() ==> #[trigger] self.constraint_accepts(i, v)
                == o.constraint_accepts(i, v)
    }

    /// Whether the `i`-th index accepts `value` beside the stored records.
    pub open spec fn index_admits(&self, i: int, key: u64, value: T) -> bool {
        forall|pk: u64| #[trigger] self@.contains_key(pk) ==> !self.index_clashes(i, self@[pk], value)
    }

    /// Whether the `i`-th constraint accepts `value`.
    pub closed spec fn constraint_accepts(&self, i: int, value: T) -> bool {
        self.constraints@[i].accepts(value)
    }

    /// Whether every constraint accepts `value`.
    pub open spec fn accepted(&self, value: T) -> bool {
        forall|i: int|
            0 <= i < self.constraint_names().len() ==> #[trigger] self.constraint_accepts(i, value)
    }

    /// What inserting a record that the pre-insert hooks turned into `v` does to
    /// `self`, leaving `after` and returning `r`: constraints are asked first, in
    /// order, then the record is committed under `v.key()` (see [`Table::commit`]).
    pub open spec fn insert_outcome(&self, after: &Self, v: T, r: Result<u64, TableError>) -> bool {
        &&& (r is Ok <==> self.accepted(v) && self.commit_succeeds(v.key(), v))
        &&& (r is Ok ==> r == Ok::<u64, TableError>(v.key()) && after@ == self@.insert(v.key(), v))
        &&& (r is Err ==> after@ == self@)
        &&& (!self.accepted(v) ==> match r {
            Err(TableError::Constraint(name, _)) => exists|i: int|
                self.first_constraint_refusal(i, v) && name@ == self.constraint_names()[i],
            _ => false,
        })
        &&& (self.accepted(v) ==> (r == Err::<u64, TableError>(TableError::Exists(v.key()))
            <==> self.commit_collides(v.key(), v)))
        &&& (self.accepted(v) && !self.admitted(v.key(), v) ==> r matches Err(
            TableError::Duplicate(_, _),
        ))
        &&& (r matches Err(TableError::Duplicate(name, pk)) ==> exists|i: int|
            self.first_refusal(i, v.key(), v) && name@ == self.index_names()[i] && self@.contains_key(
                pk,
            ) && self.index_clashes(i, self@[pk], v))
        &&& !(r matches Err(TableError::Exists(k)) && k != v.key())
    }

    /// Whether the `i`-th constraint is the first that refuses `value`.
    pub open spec fn first_constraint_refusal(&self, i: int, value: T) -> bool {
        &&& 0 <= i < self.constraint_names().len()
        &&& forall|j: int| 0 <= j < i ==> #[trigger] self.constraint_accepts(j, value)
        &&& !self.constraint_accepts(i, value)
    }

    /// Whether each of the first `n` indices accepts `value` under primary key `key`.
    pub open spec fn admitted_by(&self, n: int, key: u64, value: T) -> bool {
        forall|i: int| 0 <= i < n ==> #[trigger] self.index_admits(i, key, value)
    }

    /// Whether every index accepts `value` under primary key `key`.
    pub open spec fn admitted(&self, key: u64, value: T) -> bool {
        self.admitted_by(self.index_names().len() as int, key, value)
    }

    /// Whether committing `value` under `key` succeeds: every index accepts it and
    /// the key is free.
    pub open spec fn commit_succeeds(&self, key: u64, value: T) -> bool {
        self.admitted(key, value) && !self@.contains_key(key)
    }

    /// Whether committing `value` under `key` fails only because the key is taken.
    pub open spec fn commit_collides(&self, key: u64, value: T) -> bool {
        self.admitted(key, value) && self@.contains_key(key)
    }

    /// Whether the `i`-th index is the first that refuses `value` under primary key `key`.
    pub open spec fn first_refusal(&self, i: int, key: u64, value: T) -> bool {
        &&& 0 <= i < self.index_names().len()
        &&& self.admitted_by(i, key, value)
        &&& !self.index_admits(i, key, value)
    }

    spec fn indices_wf(&self) -> bool {
        &&& self.index_names.len() == self.indices.len()
        &&& forall|i: int| 0 <= i < self.indices.len() ==> (#[trigger] self.indices@[i]).wf()
    }

    spec fn indices_hold(&self, m: Map<u64, T>, n: int) -> bool {
        forall|i: int| 0 <= i < n ==> (#[trigger] self.indices@[i]).records() == m
    }

    /// The table's invariant: every index holds exactly the stored records, and the
    /// names in each registry are distinct.
    pub closed spec fn wf(&self) -> bool {
        &&& self.indices_wf()
        &&& self.indices_hold(self.data@, self.indices.len() as int)
        &&& self.pre_insert_hook_names.len() == self.pre_insert_hooks.len()
        &&& self.post_insert_hook_names.len() == self.post_insert_hooks.len()
        &&& self.constraint_names.len() == self.constraints.len()
        &&& self.index_names().no_duplicates()
        &&& self.constraint_names().no_duplicates()
        &&& self.pre_insert_hook_names().no_duplicates()
        &&& self.post_insert_hook_names().no_duplicates()
        &&& forall|k: u64| #[trigger] self.data@.contains_key(k) ==> self.data@[k].key() == k
    }

    /// What a well-formed table guarantees: finitely many records, each stored under
    /// its own key, distinct names in each registry, and every index holding exactly
    /// the stored records.
    pub proof fn lemma_indices_match(&self)
        requires
            self.wf(),
        ensures
            self@.dom().finite(),
            forall|k: u64| #[trigger] self@.contains_key(k) ==> self@[k].key() == k,
            self.index_names().no_duplicates(),
            self.constraint_names().no_duplicates(),
            self.pre_insert_hook_names().no_duplicates(),
            self.post_insert_hook_names().no_duplicates(),
            forall|i: int|
                0 <= i < self.index_names().len() ==> #[trigger] self.index_records(i) == self@,
    {
        assert(self.data.map@.dom().finite());
    }

    /// A primary key is stored at most once: after a record has been committed under
    /// `key`, committing any record under `key` again fails, with the key reported
    /// as taken when every index accepts the record.
    pub proof fn lemma_primary_key_unique(before: &Self, after: &Self, key: u64, first: T, second: T)
        requires
            before.wf(),
            after.wf(),
            after@ == before@.insert(key, first),
        ensures
            !after.commit_succeeds(key, second),
            after.admitted(key, second) ==> after.commit_collides(key, second),
    {
    }

    /// A stored record shuts out every record that an index finds clashing with it:
    /// such a record is not admitted, so committing it fails with a refusal by an
    /// index (see [`Table::commit`]).
    pub proof fn lemma_clash_refused(&self, i: int, held: u64, value: T)
        requires
            self.wf(),
            0 <= i < self.index_names().len(),
            self@.contains_key(held),
            self.index_clashes(i, self@[held], value),
        ensures
            !self.index_admits(i, value.key(), value),
            !self.admitted(value.key(), value),
            !self.commit_succeeds(value.key(), value),
    {
        assert(!self.index_admits(i, value.key(), value));
    }

    /// Keys handed out as the number of stored records never collide: when the stored
    /// keys are exactly `0..n`, key `n` is free, and storing a record under it leaves
    /// exactly the keys `0..=n`, `n + 1` of them.
    pub proof fn lemma_next_key_free(&self, n: u64, value: T)
        requires
            self.wf(),
            forall|k: u64| #[trigger] self@.contains_key(k) <==> k < n,
        ensures
            !self@.contains_key(n),
            forall|k: u64| #[trigger] self@.insert(n, value).contains_key(k) <==> k <= n,
            self@.dom() == Set::new(|k: u64| k < n),
            self@.insert(n, value).dom() == Set::new(|k: u64| k <= n),
    {
        assert(self@.dom() =~= Set::new(|k: u64| k < n));
        assert(self@.insert(n, value).dom() =~= Set::new(|k: u64| k <= n));
    }

    /// Create new, empty table
    pub fn new() -> (r: Self)
        ensures
            r.wf(),
            r@ == Map::<u64, T>::empty(),
            r.index_names() == Seq::<Seq<char>>::empty(),
            r.constraint_names() == Seq::<Seq<char>>::empty(),
            r.pre_insert_hook_names() == Seq::<Seq<char>>::empty(),
            r.post_insert_hook_names() == Seq::<Seq<char>>::empty(),
    {
        let r = Table {
            data: Records { map: BTreeMap::new() },
            pre_insert_hook_names: Vec::new(),
            pre_insert_hooks: Vec::new(),
            post_insert_hook_names: Vec::new(),
            post_insert_hooks: Vec::new(),
            constraint_names: Vec::new(),
            constraints: Vec::new(),
            index_names: Vec::new(),
            indices: Vec::new(),
        };
        assert(r.index_names() =~= Seq::empty());
        assert(r.constraint_names() =~= Seq::empty());
        assert(r.pre_insert_hook_names() =~= Seq::empty());
        assert(r.post_insert_hook_names() =~= Seq::empty());
        r
    }

    /// Get count of elements in table
    pub fn len(&self) -> (r: usize)
        requires
            self.wf(),
        ensures
            r == self@.len(),
            self@.dom().finite(),
    {
        self.data.len()
    }

    /// The stored records, for reading.
    pub fn records(&self) -> (r: &Records<T>)
        ensures
            r@ == self@,
    {
        &self.data
    }

    /// Try looking up an element by its primary key
    pub fn lookup(&self, key: &u64) -> (r: Option<&T>)
        requires
            self.wf(),
        ensures
            match r {
                Some(v) => self@.contains_key(*key) && *v == self@[*key],
                None => !self@.contains_key(*key),
            },
    {
        self.data.lookup(key)
    }

    /// Clear all data in this table; indices are emptied too, and the registries stay.
    pub fn clear(&mut self)
        requires
            old(self).wf(),
        ensures
            final(self).wf(),
            final(self).keeps_constraint_rules(old(self)),
            final(self).keeps_index_rules(old(self)),
            final(self)@ == Map::<u64, T>::empty(),
            final(self).index_names() == old(self).index_names(),
            final(self).constraint_names() == old(self).constraint_names(),
            final(self).pre_insert_hook_names() == old(self).pre_insert_hook_names(),
            final(self).post_insert_hook_names() == old(self).post_insert_hook_names(),
    {
        self.data.map.clear();
        let n: usize = self.indices.len();
        let mut i: usize = 0;
        while i < n
            invariant
                n == self.indices.len(),
                i <= n,
                self.indices_wf(),
                self.indices_hold(Map::empty(), i as int),
                self.data@ == Map::<u64, T>::empty(),
                self.index_names == old(self).index_names,
                self.constraint_names == old(self).constraint_names,
                self.constraints == old(self).constraints,
                self.pre_insert_hook_names == old(self).pre_insert_hook_names,
                self.pre_insert_hooks == old(self).pre_insert_hooks,
                self.post_insert_hook_names == old(self).post_insert_hook_names,
                self.post_insert_hooks == old(self).post_insert_hooks,
                self.rules_of_indices_kept(old(self)),
            decreases n - i,
        {
            self.indices[i].clear();
            i = i + 1;
        }
    }
}


impl<T: Identity> Table<T> {
    /// Whether `self` and `o` agree on everything but the indices.
    spec fn same_but_indices(&self, o: &Self) -> bool {
        &&& self.data == o.data
        &&& self.index_names == o.index_names
        &&& self.constraint_names == o.constraint_names
        &&& self.constraints == o.constraints
        &&& self.pre_insert_hook_names == o.pre_insert_hook_names
        &&& self.pre_insert_hooks == o.pre_insert_hooks
        &&& self.post_insert_hook_names == o.post_insert_hook_names
        &&& self.post_insert_hooks == o.post_insert_hooks
    }

    /// Apply pre-insert hooks, in registration order.
    fn pre_insert_hooks_apply(&self, element: &mut T)
        requires
            self.wf(),
        ensures
            self.pre_insert_hook_names().len() == 0 ==> *final(element) == *old(element),
    {
        let mut i: usize = 0;
        while i < self.pre_insert_hooks.len()
            invariant
                self.wf(),
                self.pre_insert_hooks.len() == 0 ==> *element == *old(element),
            decreases self.pre_insert_hooks.len() - i,
        {
            self.pre_insert_hooks[i].apply(&self.data, element);
            i = i + 1;
        }
    }

    /// Apply post-insert hooks, in registration order.
    fn post_insert_hooks_apply(&self, key: &u64)
        requires
            self.wf(),
    {
        let mut i: usize = 0;
        while i < self.post_insert_hooks.len()
            decreases self.post_insert_hooks.len() - i,
        {
            self.post_insert_hooks[i].apply(&self.data, key);
            i = i + 1;
        }
    }

    /// Check constraints against this element, in registration order; the first
    /// that refuses it is reported.
    pub fn constraints_check(&self, element: &T) -> (r: Result<(), TableError>)
        requires
            self.wf(),
        ensures
            r is Ok <==> self.accepted(*element),
            match r {
                Ok(()) => true,
                Err(TableError::Constraint(name, _)) => exists|i: int|
                    self.first_constraint_refusal(i, *element) && name@ == self.constraint_names()[i],
                Err(_) => false,
            },
    {
        let mut i: usize = 0;
        while i < self.constraints.len()
            invariant
                self.wf(),
                i <= self.constraints.len(),
                forall|j: int| 0 <= j < i ==> #[trigger] self.constraint_accepts(j, *element),
            decreases self.constraints.len() - i,
        {
            match self.constraints[i].check(element) {
                Ok(()) => {},
                Err(e) => {
                    let name = self.constraint_names[i].clone();
                    assert(self.constraint_names()[i as int] == name@);
                    assert(self.first_constraint_refusal(i as int, *element));
                    return Err(TableError::Constraint(name, e));
                },
            }
            i = i + 1;
        }
        Ok(())
    }

    spec fn rules_of_indices_kept(&self, o: &Self) -> bool {
        &&& self.indices.len() == o.indices.len()
        &&& forall|j: int, a: T, b: T|
            0 <= j < o.indices.len() ==> #[trigger] self.indices@[j].clashes(a, b)
                == o.indices@[j].clashes(a, b)
        &&& forall|j: int, a: T, b: T|
            0 <= j < o.indices.len() ==> #[trigger] self.indices@[j].same_key(a, b)
                == o.indices@[j].same_key(a, b)
    }

    /// Unregister `element` under `key` from the first `count` indices, which hold
    /// `m` with it added; the others hold `m`.
    fn indices_remove(&mut self, count: usize, key: u64, element: &T, m: Ghost<Map<u64, T>>)
        requires
            old(self).indices_wf(),
            count <= old(self).indices.len(),
            !m@.contains_key(key),
            forall|j: int| 0 <= j < count ==> (#[trigger] old(self).indices@[j]).records() == m@.insert(key, *element),
            forall|j: int| count <= j < old(self).indices.len() ==> (#[trigger] old(self).indices@[j]).records() == m@,
        ensures
            final(self).indices_wf(),
            final(self).same_but_indices(old(self)),
            final(self).indices.len() == old(self).indices.len(),
            final(self).indices_hold(m@, final(self).indices.len() as int),
            final(self).rules_of_indices_kept(old(self)),
    {
        let mut i: usize = 0;
        while i < count
            invariant
                self.indices_wf(),
                self.same_but_indices(old(self)),
                self.indices.len() == old(self).indices.len(),
                count <= self.indices.len(),
                i <= count,
                !m@.contains_key(key),
                forall|j: int| 0 <= j < i ==> (#[trigger] self.indices@[j]).records() == m@,
                forall|j: int| i <= j < count ==> (#[trigger] self.indices@[j]).records() == m@.insert(key, *element),
                forall|j: int| count <= j < self.indices.len() ==> (#[trigger] self.indices@[j]).records() == m@,
                self.rules_of_indices_kept(old(self)),
            decreases count - i,
        {
            let _ = self.indices[i].remove(key, element);
            assert(m@.insert(key, *element).remove(key) =~= m@);
            i = i + 1;
        }
    }

    /// Insert an element into all indices, in registration order. On the first
    /// refusal the indices already filled are undone and the refusing one is named.
    fn indices_insert(&mut self, key: u64, element: &T) -> (r: Result<(), TableError>)
        requires
            old(self).indices_wf(),
            old(self).indices_hold(old(self).data@, old(self).indices.len() as int),
            !old(self).data@.contains_key(key),
        ensures
            final(self).indices_wf(),
            final(self).same_but_indices(old(self)),
            final(self).indices.len() == old(self).indices.len(),
            r is Ok <==> old(self).admitted(key, *element),
            r is Ok ==> final(self).indices_hold(old(self).data@.insert(key, *element), final(self).indices.len() as int),
            r is Err ==> final(self).indices_hold(old(self).data@, final(self).indices.len() as int),
            final(self).rules_of_indices_kept(old(self)),
            match r {
                Ok(()) => true,
                Err(TableError::Duplicate(name, pk)) => exists|i: int|
                    old(self).first_refusal(i, key, *element) && name@ == old(self).index_names()[i]
                        && old(self)@.contains_key(pk) && old(self).index_clashes(
                        i,
                        old(self)@[pk],
                        *element,
                    ),
                Err(_) => false,
            },
    {
        let n: usize = self.indices.len();
        let mut i: usize = 0;
        while i < n
            invariant
                n == self.indices.len(),
                n == old(self).indices.len(),
                n == self.index_names.len(),
                i <= n,
                self.indices_wf(),
                self.same_but_indices(old(self)),
                !self.data@.contains_key(key),
                old(self).admitted_by(i as int, key, *element),
                forall|j: int| 0 <= j < i ==> (#[trigger] self.indices@[j]).records() == self.data@.insert(key, *element),
                forall|j: int| i <= j < n ==> #[trigger] self.indices@[j] == old(self).indices@[j],
                old(self).indices_hold(old(self).data@, n as int),
                self.rules_of_indices_kept(old(self)),
            decreases n - i,
        {
            let ghost before = self.indices@[i as int];
            let inserted = self.indices[i].insert(key, element);
            proof {
                assert(before == old(self).indices@[i as int]);
                assert(before.records() == old(self).data@);
                if inserted is Ok {
                    assert(old(self).index_admits(i as int, key, *element));
                }
            }
            match inserted {
                Ok(()) => {},
                Err(IndexError::Duplicate(pk)) => {
                    assert(old(self)@.contains_key(pk));
                    assert(old(self).index_clashes(i as int, old(self)@[pk], *element));
                    assert(old(self).first_refusal(i as int, key, *element));
                    let name = self.index_names[i].clone();
                    self.indices_remove(i, key, element, Ghost(self.data@));
                    assert(name@ == old(self).index_names()[i as int]);
                    return Err(TableError::Duplicate(name, pk));
                },
            }
            i = i + 1;
        }
        Ok(())
    }

    /// Register `element` under primary key `key`, after hooks and constraints have
    /// run: every index first, in registration order, then the primary store. The
    /// first index that refuses the record is reported; a key already stored is
    /// reported only when every index accepts the record. On any error the table is
    /// left as it was: when the key is already stored the indices are only probed,
    /// and otherwise those already filled are undone.
    pub fn commit(&mut self, key: u64, element: T) -> (r: Result<u64, TableError>)
        requires
            old(self).wf(),
            element.key() == key,
        ensures
            final(self).wf(),
            final(self).keeps_constraint_rules(old(self)),
            final(self).index_names() == old(self).index_names(),
            final(self).constraint_names() == old(self).constraint_names(),
            final(self).pre_insert_hook_names() == old(self).pre_insert_hook_names(),
            final(self).post_insert_hook_names() == old(self).post_insert_hook_names(),
            r is Ok <==> old(self).commit_succeeds(key, element),
            r is Ok ==> r == Ok::<u64, TableError>(key) && final(self)@ == old(self)@.insert(key, element),
            r is Err ==> final(self)@ == old(self)@,
            r is Err ==> forall|i: int|
                0 <= i < old(self).index_names().len() ==> #[trigger] final(self).index_records(i)
                    == old(self).index_records(i),
            (r == Err::<u64, TableError>(TableError::Exists(key))) <==> old(self).commit_collides(
                key,
                element,
            ),
            !old(self).admitted(key, element) ==> r matches Err(TableError::Duplicate(_, _)),
            final(self).keeps_index_rules(old(self)),
            match r {
                Err(TableError::Duplicate(name, pk)) => exists|i: int|
                    old(self).first_refusal(i, key, element) && name@ == old(self).index_names()[i]
                        && old(self)@.contains_key(pk) && old(self).index_clashes(
                        i,
                        old(self)@[pk],
                        element,
                    ),
                Err(TableError::Exists(k)) => k == key,
                Err(TableError::Constraint(_, _)) => false,
                Ok(_) => true,
            },
    {
        if self.data.map.contains_key(&key) {
            let mut i: usize = 0;
            while i < self.indices.len()
                invariant
                    self.wf(),
                    self == old(self),
                    self.admitted_by(i as int, key, element),
                decreases self.indices.len() - i,
            {
                match self.indices[i].check(key, &element) {
                    Ok(()) => {},
                    Err(IndexError::Duplicate(pk)) => {
                        assert(self.indices@[i as int].records() == self@);
                        assert(self@.contains_key(pk));
                        assert(self.index_clashes(i as int, self@[pk], element));
                        assert(self.first_refusal(i as int, key, element));
                        let name = self.index_names[i].clone();
                        assert(name@ == self.index_names()[i as int]);
                        return Err(TableError::Duplicate(name, pk));
                    },
                }
                i = i + 1;
            }
            return Err(TableError::Exists(key));
        }
        match self.indices_insert(key, &element) {
            Ok(()) => {},
            Err(e) => {
                return Err(e);
            },
        }
        self.data.map.insert(key, element);
        Ok(key)
    }

    /// Try inserting an element: pre-insert hooks may change it, constraints may
    /// refuse it, then it is committed under its primary key (see [`Table::commit`])
    /// and the post-insert hooks run. On any error the table is left as it was.
    pub fn insert(&mut self, element: T) -> (r: Result<u64, TableError>)
        requires
            old(self).wf(),
        ensures
            final(self).wf(),
            final(self).keeps_constraint_rules(old(self)),
            final(self).keeps_index_rules(old(self)),
            final(self).constraint_names() == old(self).constraint_names(),
            final(self).pre_insert_hook_names() == old(self).pre_insert_hook_names(),
            final(self).post_insert_hook_names() == old(self).post_insert_hook_names(),
            r is Err ==> final(self)@ == old(self)@,
            r is Err ==> forall|i: int|
                0 <= i < old(self).index_names().len() ==> #[trigger] final(self).index_records(i)
                    == old(self).index_records(i),
            exists|v: T|
                #![trigger old(self).insert_outcome(final(self), v, r)]
                old(self).insert_outcome(final(self), v, r) && (old(
                    self,
                ).pre_insert_hook_names().len() == 0 ==> v == element),
    {
        let mut element = element;
        self.pre_insert_hooks_apply(&mut element);
        let ghost candidate = element;
        match self.constraints_check(&element) {
            Ok(()) => {},
            Err(e) => {
                let r = Err(e);
                proof {
                    let i = choose|i: int|
                        old(self).first_constraint_refusal(i, candidate) && e->Constraint_0@ == old(
                            self,
                        ).constraint_names()[i];
                    assert(old(self).first_constraint_refusal(i, candidate));
                    assert(old(self).insert_outcome(self, candidate, r));
                }
                return r;
            },
        }
        let key = element.primary_key();
        let r = self.commit(key, element);
        match r {
            Ok(k) => {
                assert(old(self)@.insert(k, candidate) == self@);
                self.post_insert_hooks_apply(&k);
            },
            _ => {},
        }
        assert(old(self).insert_outcome(self, candidate, r));
        r
    }
}

impl<T: Identity> Table<T> {
    proof fn lemma_absent(names: Seq<String>, s: Seq<char>)
        requires
            forall|i: int| 0 <= i < names.len() ==> names[i]@ != s,
        ensures
            !name_views(names).contains(s),
    {
        if name_views(names).contains(s) {
            let i = choose|i: int| 0 <= i < name_views(names).len() && name_views(names)[i] == s;
            assert(names[i]@ == s);
        }
    }

    proof fn lemma_present(names: Seq<String>, i: int)
        requires
            0 <= i < names.len(),
        ensures
            name_views(names).contains(names[i]@),
    {
        assert(name_views(names)[i] == names[i]@);
    }

    /// Add a constraint to this table. Every stored record is checked first, in
    /// primary-key order; if one is refused, the table is left unchanged and the
    /// error names the new constraint. A constraint of the same name is replaced.
    pub fn constraint_add(&mut self, name: &str, constraint: Box<dyn Constraint<T> + 'static>) -> (r:
        Result<(), TableError>)
        requires
            old(self).wf(),
        ensures
            final(self).wf(),
            final(self).keeps_index_rules(old(self)),
            final(self)@ == old(self)@,
            final(self).index_names() == old(self).index_names(),
            final(self).pre_insert_hook_names() == old(self).pre_insert_hook_names(),
            final(self).post_insert_hook_names() == old(self).post_insert_hook_names(),
            r is Ok <==> forall|k: u64| #[trigger]
                old(self)@.contains_key(k) ==> constraint.accepts(old(self)@[k]),
            r is Err ==> final(self).keeps_constraint_rules(old(self)),
            r is Ok ==> final(self).constraint_names()[position_of(
                old(self).constraint_names(),
                name@,
            )] == name@,
            r is Ok ==> forall|v: T| #[trigger]
                final(self).constraint_accepts(position_of(old(self).constraint_names(), name@), v)
                    == constraint.accepts(v),
            forall|i: int, v: T|
                0 <= i < old(self).constraint_names().len() && old(self).constraint_names()[i]
                    != name@ ==> #[trigger] final(self).constraint_accepts(i, v)
                    == old(self).constraint_accepts(i, v),
            match r {
                Ok(()) => final(self).constraint_names() == with_name(
                    old(self).constraint_names(),
                    name@,
                ),
                Err(TableError::Constraint(n, _)) => n@ == name@ && final(self).constraint_names()
                    == old(self).constraint_names(),
                Err(_) => false,
            },
    {
        let mut fresh = Vec::new();
        let ghost empty = fresh@;
        fresh.push(constraint);
        assert(fresh@[0] == constraint);
        proof {
            vstd::seq::axiom_seq_push_len(empty, constraint);
        }
        let iter = self.data.map.iter();
        let ghost items = iter.remaining();
        proof {
            assert(items.len() == self@.dom().len());
        }
        let ghost data = self@;
        proof {
            assert(forall|k: u64| #[trigger] data.contains_key(k) ==> items.contains((&k, &data[k])));
        }
        for kv in it: iter
            invariant
                it.seq() == items,
                items.len() == self@.dom().len(),
                self.wf(),
                data == self@,
                forall|j: int|
                    0 <= j < items.len() ==> data.contains_key(*items[j].0) && data[*items[j].0]
                        == *items[j].1,
                forall|j: int| 0 <= j < it.index() ==> constraint.accepts(#[trigger] *items[j].1),
                fresh@.len() == 1,
                fresh@[0] == constraint,
        {
            match fresh[0].check(kv.1) {
                Ok(()) => {},
                Err(e) => {
                    assert(data.contains_key(*kv.0) && !constraint.accepts(data[*kv.0]));
                    return Err(TableError::Constraint(name.to_owned(), e));
                },
            }
        }
        proof {
            assert forall|k: u64| #[trigger] data.contains_key(k) implies constraint.accepts(data[k]) by {
                let j = choose|j: int| 0 <= j < items.len() && items[j] == (&k, &data[k]);
                assert(*items[j].1 == data[k]);
            }
        }
        let owned = name.to_owned();
        match position(&self.constraint_names, &owned) {
            Some(i) => {
                proof {
                    Self::lemma_present(self.constraint_names@, i as int);
                }
                proof {
                    let v = old(self).constraint_names();
                    let j = position_of(v, name@);
                    assert(v[i as int] == name@);
                    assert(v[j] == name@);
                    assert(j == i);
                }
                std::mem::swap(&mut self.constraints[i], &mut fresh[0]);
                assert(self.constraints@[i as int] == constraint);
                assert(self.constraint_names()[i as int] == name@);
            },
            None => {
                let n: usize = self.constraints.len();
                let filler: Box<dyn Constraint<T>> = Box::new(Unconstrained);
                proof {
                    vstd::std_specs::vec::axiom_spec_len(&self.constraints);
                    Self::lemma_absent(self.constraint_names@, owned@);
                    lemma_push_name(self.constraint_names@, owned);
                    lemma_seq_push(self.constraints@, filler);
                }
                self.constraints.push(filler);
                std::mem::swap(&mut self.constraints[n], &mut fresh[0]);
                assert(self.constraints@[n as int] == constraint);
                self.constraint_names.push(owned);
                assert(self.constraint_names()[n as int] == name@);
            },
        }
        Ok(())
    }

    /// Remove a constraint from this table, if it is there.
    pub fn constraint_remove(&mut self, name: &str)
        requires
            old(self).wf(),
        ensures
            final(self).wf(),
            final(self).keeps_index_rules(old(self)),
            final(self)@ == old(self)@,
            final(self).index_names() == old(self).index_names(),
            final(self).pre_insert_hook_names() == old(self).pre_insert_hook_names(),
            final(self).post_insert_hook_names() == old(self).post_insert_hook_names(),
            !final(self).constraint_names().contains(name@),
            old(self).constraint_names().contains(name@) ==> exists|i: int|
                0 <= i < old(self).constraint_names().len() && old(self).constraint_names()[i]
                    == name@ && final(self).constraint_names() == old(self).constraint_names().remove(
                    i,
                ) && final(self).keeps_constraint_rules_without(old(self), i),
            !old(self).constraint_names().contains(name@) ==> final(self).keeps_constraint_rules(
                old(self),
            ),
    {
        let owned = name.to_owned();
        match position(&self.constraint_names, &owned) {
            Some(i) => {
                proof {
                    lemma_remove_name(self.constraint_names@, i as int);
                    assert(self.constraint_names()[i as int] == name@);
                }
                proof {
                    lemma_seq_remove(self.constraints@, i as int);
                }
                self.constraint_names.remove(i);
                self.constraints.remove(i);
                proof {
                    let v = old(self).constraint_names();
                    if self.constraint_names().contains(name@) {
                        let j = choose|j: int|
                            0 <= j < self.constraint_names().len() && self.constraint_names()[j]
                                == name@;
                        let j2 = if j < i { j } else { j + 1 };
                        assert(v[j2] == name@);
                    }
                }
            },
            None => {
                proof {
                    Self::lemma_absent(self.constraint_names@, owned@);
                }
            },
        }
    }

    /// Add a pre-insert hook to the table; a hook of the same name is replaced.
    pub fn pre_insert_hook_add<H: PreInsertHook<T> + 'static>(&mut self, name: &str, hook: H)
        requires
            old(self).wf(),
        ensures
            final(self).wf(),
            final(self).keeps_constraint_rules(old(self)),
            final(self).keeps_index_rules(old(self)),
            final(self)@ == old(self)@,
            final(self).index_names() == old(self).index_names(),
            final(self).constraint_names() == old(self).constraint_names(),
            final(self).post_insert_hook_names() == old(self).post_insert_hook_names(),
            final(self).pre_insert_hook_names() == with_name(old(self).pre_insert_hook_names(), name@),
    {
        let owned = name.to_owned();
        let boxed: Box<dyn PreInsertHook<T>> = Box::new(hook);
        match position(&self.pre_insert_hook_names, &owned) {
            Some(i) => {
                proof {
                    Self::lemma_present(self.pre_insert_hook_names@, i as int);
                }
                self.pre_insert_hooks[i] = boxed;
            },
            None => {
                proof {
                    Self::lemma_absent(self.pre_insert_hook_names@, owned@);
                    lemma_push_name(self.pre_insert_hook_names@, owned);
                }
                proof {
                    lemma_seq_push(self.pre_insert_hooks@, boxed);
                }
                self.pre_insert_hook_names.push(owned);
                self.pre_insert_hooks.push(boxed);
            },
        }
    }

    /// Add a post-insert hook to the table; a hook of the same name is replaced.
    pub fn post_insert_hook_add<H: PostInsertHook<T> + 'static>(&mut self, name: &str, hook: H)
        requires
            old(self).wf(),
        ensures
            final(self).wf(),
            final(self).keeps_constraint_rules(old(self)),
            final(self).keeps_index_rules(old(self)),
            final(self)@ == old(self)@,
            final(self).index_names() == old(self).index_names(),
            final(self).constraint_names() == old(self).constraint_names(),
            final(self).pre_insert_hook_names() == old(self).pre_insert_hook_names(),
            final(self).post_insert_hook_names() == with_name(old(self).post_insert_hook_names(), name@),
    {
        let owned = name.to_owned();
        let boxed: Box<dyn PostInsertHook<T>> = Box::new(hook);
        match position(&self.post_insert_hook_names, &owned) {
            Some(i) => {
                proof {
                    Self::lemma_present(self.post_insert_hook_names@, i as int);
                }
                self.post_insert_hooks[i] = boxed;
            },
            None => {
                proof {
                    Self::lemma_absent(self.post_insert_hook_names@, owned@);
                    lemma_push_name(self.post_insert_hook_names@, owned);
                }
                proof {
                    lemma_seq_push(self.post_insert_hooks@, boxed);
                }
                self.post_insert_hook_names.push(owned);
                self.post_insert_hooks.push(boxed);
            },
        }
    }
}


impl<T: Identity> Table<T> {
    /// Adds an index to the table. The index is emptied, then every stored record is
    /// registered in it, in primary-key order; this succeeds exactly when no stored
    /// record clashes, in the new index, with one of smaller primary key. If the
    /// index refuses one, the table is left unchanged and the error names the new
    /// index; no partly filled index is kept. An index of the same name is replaced.
    pub fn index_add(&mut self, name: &str, index: Box<dyn Index<T> + 'static>) -> (r: Result<
        (),
        TableError,
    >) where T: 'static
        requires
            old(self).wf(),
        ensures
            final(self).wf(),
            final(self)@ == old(self)@,
            final(self).constraint_names() == old(self).constraint_names(),
            final(self).keeps_constraint_rules(old(self)),
            final(self).pre_insert_hook_names() == old(self).pre_insert_hook_names(),
            final(self).post_insert_hook_names() == old(self).post_insert_hook_names(),
            r is Ok <==> forall|p: u64, q: u64|
                old(self)@.contains_key(p) && old(self)@.contains_key(q) && p < q
                    ==> !#[trigger] index.clashes(old(self)@[p], old(self)@[q]),
            r is Err ==> final(self).keeps_index_rules(old(self)),
            r is Ok ==> final(self).index_names()[position_of(old(self).index_names(), name@)]
                == name@,
            r is Ok ==> forall|a: T, b: T| #[trigger]
                final(self).index_clashes(position_of(old(self).index_names(), name@), a, b)
                    == index.clashes(a, b),
            r is Ok ==> forall|a: T, b: T| #[trigger]
                final(self).index_same_key(position_of(old(self).index_names(), name@), a, b)
                    == index.same_key(a, b),
            forall|i: int, a: T, b: T|
                0 <= i < old(self).index_names().len() && old(self).index_names()[i] != name@
                    ==> #[trigger] final(self).index_clashes(i, a, b) == old(self).index_clashes(
                    i,
                    a,
                    b,
                ),
            forall|i: int, a: T, b: T|
                0 <= i < old(self).index_names().len() && old(self).index_names()[i] != name@
                    ==> #[trigger] final(self).index_same_key(i, a, b) == old(
                    self,
                ).index_same_key(i, a, b),
            match r {
                Ok(()) => final(self).index_names() == with_name(old(self).index_names(), name@),
                Err(TableError::Duplicate(n, _)) => n@ == name@ && final(self).index_names()
                    == old(self).index_names(),
                Err(_) => false,
            },
    {
        // The new index is filled where it stands alone, and swapped into the
        // table only once every record has been registered in it.
        let mut fresh = Vec::new();
        let ghost empty = fresh@;
        fresh.push(index);
        assert(fresh@[0] == index);
        proof {
            vstd::seq::axiom_seq_push_len(empty, index);
        }
        fresh[0].clear();
        let iter = self.data.map.iter();
        let ghost items = iter.remaining();
        let ghost data = self.data@;
        let ghost ks = items.map_values(|kv: (&u64, &T)| *kv.0);
        proof {
            assert(increasing_seq(ks));
            assert(ks.len() == items.len());
            axiom_increasing_seq_meaning::<u64>(ks);
            assert forall|i: int, j: int| 0 <= i < j < ks.len() implies ks[i] < ks[j] by {
                assert(ks[i].cmp_spec(&ks[j]) is Less);
            }
            assert(items.len() == data.dom().len());
            assert(forall|k: u64| #[trigger] data.contains_key(k) ==> items.contains((&k, &data[k])));
        }
        for kv in it: iter
            invariant
                it.seq() == items,
                fresh@.len() == 1,
                fresh@[0].wf(),
                forall|a: T, b: T| #[trigger] fresh@[0].clashes(a, b) == index.clashes(a, b),
                forall|a: T, b: T| #[trigger] fresh@[0].same_key(a, b) == index.same_key(a, b),
                *self == *old(self),
                self.wf(),
                data == self.data@,
                items.no_duplicates(),
                forall|j: int|
                    0 <= j < items.len() ==> data.contains_key(*items[j].0) && data[*items[j].0]
                        == *items[j].1,
                forall|j: int| 0 <= j < items.len() ==> #[trigger] ks[j] == *items[j].0,
                ks.len() == items.len(),
                forall|i: int, j: int| 0 <= i < j < ks.len() ==> ks[i] < ks[j],
                forall|k: u64| #[trigger]
                    fresh@[0].records().contains_key(k) ==> exists|j: int|
                        0 <= j < it.index() && *items[j].0 == k,
                forall|j: int|
                    0 <= j < it.index() ==> fresh@[0].records().contains_key(#[trigger] *items[j].0),
                forall|k: u64| #[trigger]
                    fresh@[0].records().contains_key(k) ==> data.contains_key(k)
                        && fresh@[0].records()[k] == data[k],
                forall|j1: int, j2: int|
                    0 <= j1 < j2 < it.index() ==> !#[trigger] index.clashes(
                        *items[j1].1,
                        *items[j2].1,
                    ),
        {
            let ghost idx = it.index();
            let ghost k = *kv.0;
            proof {
                if fresh@[0].records().contains_key(k) {
                    let j = choose|j: int| 0 <= j < it.index() && *items[j].0 == k;
                    assert(items[j] == items[idx]);
                }
            }
            let ghost slot = fresh@[0];
            let inserted = fresh[0].insert(*kv.0, kv.1);
            match inserted {
                Ok(()) => {
                    proof {
                        assert forall|j1: int, j2: int|
                            0 <= j1 < j2 < idx + 1 implies !#[trigger] index.clashes(
                            *items[j1].1,
                            *items[j2].1,
                        ) by {
                            if j2 == idx {
                                assert(slot.records().contains_key(*items[j1].0));
                                assert(slot.records()[*items[j1].0] == *items[j1].1);
                                assert(!slot.clashes(*items[j1].1, *items[j2].1));
                            }
                        }
                    }
                },
                Err(IndexError::Duplicate(pk)) => {
                    proof {
                        assert(slot.records().contains_key(pk));
                        assert(slot.clashes(slot.records()[pk], *kv.1));
                        let j = choose|j: int| 0 <= j < idx && *items[j].0 == pk;
                        assert(ks.len() == items.len());
                        assert(idx < items.len());
                        assert(kv == items[idx]);
                        assert(ks[j] == pk);
                        assert(ks[idx] == k);
                        assert(ks[j] < ks[idx]);
                        assert(index.clashes(data[pk], data[k]));
                        assert(!(forall|p: u64, q: u64|
                            data.contains_key(p) && data.contains_key(q) && p < q
                                ==> !#[trigger] index.clashes(data[p], data[q])));
                    }
                    return Err(TableError::Duplicate(name.to_owned(), pk));
                },
            }
        }
        proof {
            assert forall|k: u64| #[trigger] data.contains_key(k) implies fresh@[0].records().contains_key(k) by {
                let j = choose|j: int| 0 <= j < items.len() && items[j] == (&k, &data[k]);
                assert(*items[j].0 == k);
            }
            assert(fresh@[0].records() =~= data);
            assert forall|p: u64, q: u64|
                data.contains_key(p) && data.contains_key(q) && p < q implies !#[trigger] index.clashes(
                data[p],
                data[q],
            ) by {
                let jp = choose|j: int| 0 <= j < items.len() && items[j] == (&p, &data[p]);
                let jq = choose|j: int| 0 <= j < items.len() && items[j] == (&q, &data[q]);
                assert(ks[jp] == p);
                assert(ks[jq] == q);
                if jq < jp {
                    assert(ks[jq] < ks[jp]);
                }
                assert(jp < jq);
            }
        }
        let ghost added = fresh@[0];
        let owned = name.to_owned();
        match position(&self.index_names, &owned) {
            Some(i) => {
                proof {
                    Self::lemma_present(self.index_names@, i as int);
                }
                proof {
                    let v = old(self).index_names();
                    let j = position_of(v, name@);
                    assert(v[i as int] == name@);
                    assert(v[j] == name@);
                    assert(j == i);
                }
                std::mem::swap(&mut self.indices[i], &mut fresh[0]);
                assert(self.indices@[i as int] == added);
                assert(self.index_names()[i as int] == name@);
            },
            None => {
                let n: usize = self.indices.len();
                let filler: Box<dyn Index<T>> = Box::new(BTreeIndex::new(Together));
                proof {
                    vstd::std_specs::vec::axiom_spec_len(&self.indices);
                    lemma_seq_push(self.indices@, filler);
                    Self::lemma_absent(self.index_names@, owned@);
                    lemma_push_name(self.index_names@, owned);
                }
                self.indices.push(filler);
                std::mem::swap(&mut self.indices[n], &mut fresh[0]);
                assert(self.indices@[n as int] == added);
                self.index_names.push(owned);
                assert(self.index_names()[n as int] == name@);
            },
        }
        Ok(())
    }

    /// Look up, through the index called `name`, the primary keys of the stored
    /// records filed under the same derived key as `probe`, in ascending order;
    /// `None` when no index has that name.
    pub fn index_lookup(&self, name: &str, probe: &T) -> (r: Option<Vec<u64>>)
        requires
            self.wf(),
        ensures
            r is Some <==> self.index_names().contains(name@),
            r matches Some(v) ==> exists|i: int|
                0 <= i < self.index_names().len() && self.index_names()[i] == name@ && v@.to_set()
                    == self@.dom().filter(|pk: u64| self.index_same_key(i, self@[pk], *probe)),
            r matches Some(v) ==> forall|a: int, b: int| 0 <= a < b < v.len() ==> v[a] < v[b],
    {
        let owned = name.to_owned();
        match position(&self.index_names, &owned) {
            Some(i) => {
                proof {
                    Self::lemma_present(self.index_names@, i as int);
                    assert(self.index_names()[i as int] == name@);
                }
                let v = self.indices[i].lookup_like(probe);
                Some(v)
            },
            None => {
                proof {
                    Self::lemma_absent(self.index_names@, owned@);
                }
                None
            },
        }
    }

    /// Removes an index from the table, if it exists, and hands it back.
    pub fn index_remove(&mut self, name: &str) -> (r: Option<Box<dyn Index<T>>>) where T: 'static
        requires
            old(self).wf(),
        ensures
            final(self).wf(),
            final(self).keeps_constraint_rules(old(self)),
            final(self)@ == old(self)@,
            final(self).constraint_names() == old(self).constraint_names(),
            final(self).pre_insert_hook_names() == old(self).pre_insert_hook_names(),
            final(self).post_insert_hook_names() == old(self).post_insert_hook_names(),
            r is Some <==> old(self).index_names().contains(name@),
            !final(self).index_names().contains(name@),
            old(self).index_names().contains(name@) ==> exists|i: int|
                0 <= i < old(self).index_names().len() && old(self).index_names()[i] == name@
                    && final(self).index_names() == old(self).index_names().remove(i)
                    && final(self).keeps_index_rules_without(old(self), i) && (r matches Some(x)
                    && x.wf() && x.records() == old(self)@ && (forall|a: T, b: T| #[trigger]
                    x.clashes(a, b) == old(self).index_clashes(i, a, b)) && (forall|a: T, b: T|
                    #[trigger] x.same_key(a, b) == old(self).index_same_key(i, a, b))),
            !old(self).index_names().contains(name@) ==> final(self).keeps_index_rules(old(self)),
    {
        let owned = name.to_owned();
        match position(&self.index_names, &owned) {
            Some(i) => {
                proof {
                    lemma_remove_name(self.index_names@, i as int);
                    lemma_seq_remove(self.indices@, i as int);
                    Self::lemma_present(self.index_names@, i as int);
                }
                let ghost removed = self.indices@[i as int];
                let mut out: Vec<Box<dyn Index<T> + 'static>> = Vec::new();
                let ghost empty = out@;
                let filler: Box<dyn Index<T> + 'static> = Box::new(BTreeIndex::new(Together));
                out.push(filler);
                proof {
                    lemma_seq_push(empty, filler);
                    assert(out@ == empty.push(filler));
                    assert(out@.len() == 1);
                    vstd::std_specs::vec::axiom_spec_len(&out);
                }
                let ghost one = out@;
                proof {
                    lemma_seq_update_len(self.indices@, i as int);
                }
                std::mem::swap(&mut self.indices[i], &mut out[0]);
                assert(out@[0] == removed);
                proof {
                    lemma_seq_update_len(one, 0);
                    vstd::std_specs::vec::axiom_spec_len(&out);
                }
                let ghost before = self.indices@;
                proof {
                    lemma_seq_remove(before, i as int);
                }
                self.index_names.remove(i);
                self.indices.remove(i);
                assert(forall|j: int| 0 <= j < i ==> #[trigger] self.indices@[j] == old(self).indices@[j]);
                assert(forall|j: int|
                    i <= j < self.indices@.len() ==> #[trigger] self.indices@[j] == old(self).indices@[j + 1]);
                let index = match out.pop() {
                    Some(x) => x,
                    None => {
                        proof {
                            assert(false);
                        }
                        return None;
                    },
                };
                assert(index == removed);
                assert(removed.wf());
                assert(removed.records() == old(self)@);
                assert(self.keeps_index_rules_without(old(self), i as int));
                proof {
                    let v = old(self).index_names();
                    if self.index_names().contains(name@) {
                        let j = choose|j: int|
                            0 <= j < self.index_names().len() && self.index_names()[j] == name@;
                        let j2 = if j < i { j } else { j + 1 };
                        assert(self.index_names()[j] == v.remove(i as int)[j]);
                        assert(v[j2] == name@);
                        assert(v[i as int] == name@);
                    }
                }
                assert(self.index_names() == old(self).index_names().remove(i as int));
                assert(forall|a: T, b: T| #[trigger] index.clashes(a, b) == old(self).index_clashes(i as int, a, b));
                assert(forall|a: T, b: T| #[trigger] index.same_key(a, b) == old(self).index_same_key(i as int, a, b));
                let r = Some(index);
                assert(r matches Some(x) && x.wf() && x.records() == old(self)@);
                r
            },
            None => {
                proof {
                    Self::lemma_absent(self.index_names@, owned@);
                }
                None
            },
        }
    }
}

impl<T: Identity> Default for Table<T> {
    fn default() -> (r: Self)
        ensures
            r.wf(),
            r@ == Map::<u64, T>::empty(),
            r.index_names() == Seq::<Seq<char>>::empty(),
            r.constraint_names() == Seq::<Seq<char>>::empty(),
            r.pre_insert_hook_names() == Seq::<Seq<char>>::empty(),
            r.post_insert_hook_names() == Seq::<Seq<char>>::empty(),
    {
        Table::new()
    }
}

} // verus!
