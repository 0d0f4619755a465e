use indexed_table::{
    BTreeIndex, Constraint, Identity, KeyFn, PostInsertHook, PreInsertHook, Records, Table,
    TableError, UniqueBTreeIndex,
};
use rand::distributions::{Alphanumeric, DistString};
use rand::{Rng, SeedableRng};
use std::cell::Cell;
use std::rc::Rc;

#[derive(Debug, Clone, PartialEq)]
struct Person {
    id: u64,
    name: String,
    age: u16,
}

impl Identity for Person {
    fn key(&self) -> u64 {
        self.id
    }

    fn primary_key(&self) -> u64 {
        self.id
    }
}

fn person(id: u64, name: &str, age: u16) -> Person {
    Person {
        id,
        name: name.into(),
        age,
    }
}

struct NameMustNotBeEmpty;

impl Constraint<Person> for NameMustNotBeEmpty {
    fn accepts(&self, item: Person) -> bool {
        item.name.len() != 0
    }

    fn check(&self, item: &Person) -> Result<(), String> {
        if item.name.len() == 0 {
            Err("Something failed".to_string())
        } else {
            Ok(())
        }
    }
}

struct AgeAtMostHundred;

impl Constraint<Person> for AgeAtMostHundred {
    fn accepts(&self, item: Person) -> bool {
        item.age <= 100
    }

    fn check(&self, item: &Person) -> Result<(), String> {
        if item.age > 100 {
            Err("Something failed".to_string())
        } else {
            Ok(())
        }
    }
}

struct AutoIncrement;

impl PreInsertHook<Person> for AutoIncrement {
    fn apply(&self, table: &Records<Person>, item: &mut Person) {
        item.id = table.len() as u64;
    }
}

struct CountCommits(Rc<Cell<u64>>);

impl PostInsertHook<Person> for CountCommits {
    fn apply(&self, table: &Records<Person>, key: &u64) {
        assert!(table.lookup(key).is_some());
        self.0.set(self.0.get() + 1);
    }
}

struct ByName;

impl KeyFn<Person, String> for ByName {
    fn derive(&self, item: Person) -> String {
        item.name
    }

    fn key(&self, item: &Person) -> String {
        item.name.clone()
    }
}

struct ByAge;

impl KeyFn<Person, u16> for ByAge {
    fn derive(&self, item: Person) -> u16 {
        item.age
    }

    fn key(&self, item: &Person) -> u16 {
        item.age
    }
}

fn name_index() -> Box<UniqueBTreeIndex<Person, String, ByName>> {
    Box::new(UniqueBTreeIndex::new(ByName))
}

fn age_index() -> Box<BTreeIndex<Person, u16, ByAge>> {
    Box::new(BTreeIndex::new(ByAge))
}

#[test]
fn can_count_entries() {
    let mut table = Table::new();
    assert_eq!(table.len(), 0);
    table.insert(person(0, "Mike", 32)).unwrap();
    assert_eq!(table.len(), 1);
    table.insert(person(1, "Mike", 32)).unwrap();
    assert_eq!(table.len(), 2);
}

#[test]
fn can_clear_entries() {
    let mut table = Table::new();
    table.insert(person(0, "Mike", 32)).unwrap();
    table.insert(person(1, "Mike", 32)).unwrap();
    assert_eq!(table.len(), 2);
    table.clear();
    assert_eq!(table.len(), 0);
    assert!(table.lookup(&0).is_none());
    assert!(table.lookup(&1).is_none());
}

#[test]
fn can_create_person_table() {
    let mut table = Table::new();
    let _ = table.insert(person(0, "Mike", 32));
}

#[test]
fn can_set_primary_key_in_pre_insert_hook() {
    let mut table = Table::new();
    table.pre_insert_hook_add("primary_key", AutoIncrement);
    for _ in 0..64 {
        let key = table.insert(person(0, "Mike", 32)).unwrap();
        assert_eq!(1 + key as usize, table.len());
    }
}

#[test]
fn cannot_insert_duplicate_primary_key() {
    let mut table = Table::new();
    let key = table.insert(person(0, "Mike", 32)).unwrap();
    assert_eq!(key, 0);

    // inserting same data should fail
    let result = table.insert(person(0, "Mike", 32));
    assert!(matches!(result, Err(TableError::Exists(0))));
}

#[test]
fn cannot_insert_failing_constraint() {
    let mut table = Table::new();
    table
        .constraint_add("name_must_not_be_empty", Box::new(NameMustNotBeEmpty))
        .unwrap();

    let key = table.insert(person(0, "Mike", 32)).unwrap();
    assert_eq!(key, 0);

    // inserting a record with an empty name should fail
    let result = table.insert(person(1, "", 32));
    assert!(result.is_err());
}

#[test]
fn cannot_insert_failing_constraint_after() {
    let mut table = Table::new();
    table.insert(person(0, "Mike", 32)).unwrap();
    table.insert(person(1, "", 32)).unwrap();

    let result = table.constraint_add("name_must_not_be_empty", Box::new(NameMustNotBeEmpty));
    assert!(result.is_err());
}

#[test]
fn cannot_insert_duplicate_unique_index() {
    let mut table = Table::new();
    table.index_add("name", name_index()).unwrap();
    let _key = table.insert(person(0, "Mike", 32)).unwrap();

    // inserting same data should fail
    let result = table.insert(person(1, "Mike", 32));
    assert!(result.is_err());
}

#[test]
fn can_insert_multiple_unique_index() {
    let mut table = Table::new();
    table.index_add("name", name_index()).unwrap();
    let _key = table.insert(person(0, "Mike", 32)).unwrap();
    let _result = table.insert(person(1, "John", 32)).unwrap();
}

#[test]
fn can_insert_duplicate_index() {
    let mut table = Table::new();
    table
        .index_add(
            "name",
            Box::new(BTreeIndex::new(ByName)),
        )
        .unwrap();
    let _key = table.insert(person(0, "Mike", 32)).unwrap();
    let _result = table.insert(person(1, "Mike", 32)).unwrap();
}

#[test]
fn can_insert_one_many_rows() {
    let mut rng = rand::rngs::StdRng::seed_from_u64(23420292352);
    let amount = 100_000;
    let mut table = Table::new();

    // auto-increment primary key
    table.pre_insert_hook_add("primary_key", AutoIncrement);

    // constraint to make sure age is valid
    table.constraint_add("age", Box::new(AgeAtMostHundred)).unwrap();

    // add unique name index
    table.index_add("name", name_index()).unwrap();

    // add age index
    table.index_add("age", age_index()).unwrap();

    for _ in 0..amount {
        table
            .insert(Person {
                id: 0,
                name: Alphanumeric.sample_string(&mut rng, 16),
                age: rng.gen_range(0..100),
            })
            .unwrap();
    }

    assert_eq!(table.len(), amount);
}

#[test]
fn insert_then_lookup_and_duplicate_key() {
    let mut table = Table::new();
    table.insert(person(0, "Mike", 32)).unwrap();
    assert_eq!(table.len(), 1);
    assert_eq!(table.lookup(&0), Some(&person(0, "Mike", 32)));
    let result = table.insert(person(0, "John", 40));
    assert_eq!(result, Err(TableError::Exists(0)));
    assert_eq!(table.len(), 1);
    assert_eq!(table.lookup(&0), Some(&person(0, "Mike", 32)));
}

#[test]
fn unique_index_names_the_index_and_the_holder() {
    let mut table = Table::new();
    table.index_add("name", name_index()).unwrap();
    table.insert(person(0, "Mike", 32)).unwrap();
    let result = table.insert(person(1, "Mike", 40));
    assert_eq!(result, Err(TableError::Duplicate("name".to_string(), 0)));
    assert_eq!(table.len(), 1);
    assert!(table.lookup(&1).is_none());
    assert_eq!(table.lookup(&0), Some(&person(0, "Mike", 32)));
}

#[test]
fn duplicate_reported_before_existing_key() {
    let mut table = Table::new();
    table.index_add("name", name_index()).unwrap();
    table.insert(person(0, "Mike", 32)).unwrap();
    let result = table.insert(person(0, "Mike", 32));
    assert_eq!(result, Err(TableError::Duplicate("name".to_string(), 0)));
    let result = table.insert(person(0, "John", 32));
    assert_eq!(result, Err(TableError::Exists(0)));
    assert_eq!(table.len(), 1);
}

#[test]
fn failed_insert_rolls_back_earlier_indices() {
    let mut table = Table::new();
    table.index_add("age", age_index()).unwrap();
    table.index_add("name", name_index()).unwrap();
    table.insert(person(0, "Mike", 32)).unwrap();
    // the age index accepts id 1 before the name index refuses it
    let result = table.insert(person(1, "Mike", 40));
    assert_eq!(result, Err(TableError::Duplicate("name".to_string(), 0)));
    assert_eq!(table.len(), 1);
    // id 1 is free again everywhere
    assert_eq!(table.insert(person(1, "John", 40)), Ok(1));
    assert_eq!(table.len(), 2);
}

#[test]
fn failing_constraint_keeps_len() {
    let mut table = Table::new();
    table
        .constraint_add("name_must_not_be_empty", Box::new(NameMustNotBeEmpty))
        .unwrap();
    table.insert(person(0, "Mike", 32)).unwrap();
    let result = table.insert(person(1, "", 32));
    assert_eq!(
        result,
        Err(TableError::Constraint(
            "name_must_not_be_empty".to_string(),
            "Something failed".to_string()
        ))
    );
    assert_eq!(table.len(), 1);
    assert!(table.lookup(&1).is_none());
}

#[test]
fn constraint_add_names_the_constraint_and_changes_nothing() {
    let mut table = Table::new();
    table.insert(person(0, "", 32)).unwrap();
    let result = table.constraint_add("name_must_not_be_empty", Box::new(NameMustNotBeEmpty));
    assert_eq!(
        result,
        Err(TableError::Constraint(
            "name_must_not_be_empty".to_string(),
            "Something failed".to_string()
        ))
    );
    // the constraint was not registered
    assert!(table.insert(person(1, "", 32)).is_ok());
    assert_eq!(table.len(), 2);
}

#[test]
fn constraint_remove_lifts_the_constraint() {
    let mut table = Table::new();
    table.constraint_add("name", Box::new(NameMustNotBeEmpty)).unwrap();
    assert!(table.insert(person(0, "", 32)).is_err());
    table.constraint_remove("name");
    assert_eq!(table.insert(person(0, "", 32)), Ok(0));
}

#[test]
fn index_add_refuses_existing_duplicates() {
    let mut table = Table::new();
    table.insert(person(0, "Mike", 32)).unwrap();
    table.insert(person(1, "Mike", 40)).unwrap();
    let result = table.index_add("name", name_index());
    assert_eq!(result, Err(TableError::Duplicate("name".to_string(), 0)));
    // no index named "name" was kept
    assert!(table.index_remove("name").is_none());
    assert_eq!(table.insert(person(2, "Mike", 50)), Ok(2));
}

#[test]
fn index_add_fills_from_existing_records() {
    let mut table = Table::new();
    table.insert(person(0, "Mike", 32)).unwrap();
    table.index_add("name", name_index()).unwrap();
    let result = table.insert(person(1, "Mike", 40));
    assert_eq!(result, Err(TableError::Duplicate("name".to_string(), 0)));
    assert!(table.index_remove("name").is_some());
    assert_eq!(table.insert(person(1, "Mike", 40)), Ok(1));
}

#[test]
fn clear_empties_indices_too() {
    let mut table = Table::new();
    table.index_add("name", name_index()).unwrap();
    table.insert(person(0, "Mike", 32)).unwrap();
    table.clear();
    assert_eq!(table.len(), 0);
    assert_eq!(table.insert(person(5, "Mike", 32)), Ok(5));
}

#[test]
fn auto_increment_keys_are_sequential() {
    let mut table = Table::default();
    table.pre_insert_hook_add("primary_key", AutoIncrement);
    for expected in 0..10u64 {
        assert_eq!(table.insert(person(77, "Mike", 32)), Ok(expected));
    }
    assert_eq!(table.len(), 10);
    assert_eq!(table.lookup(&9).map(|p| p.id), Some(9));
}

#[test]
fn post_insert_hooks_see_committed_records() {
    let count = Rc::new(Cell::new(0));
    let mut table = Table::new();
    table.post_insert_hook_add("count", CountCommits(count.clone()));
    table.insert(person(0, "Mike", 32)).unwrap();
    assert!(table.insert(person(0, "Mike", 32)).is_err());
    table.insert(person(1, "John", 32)).unwrap();
    assert_eq!(count.get(), 2);
}

#[test]
fn commit_takes_the_given_key() {
    let mut table = Table::new();
    assert_eq!(table.commit(7, person(7, "Mike", 32)), Ok(7));
    assert_eq!(table.lookup(&7), Some(&person(7, "Mike", 32)));
    assert_eq!(
        table.commit(7, person(7, "John", 32)),
        Err(TableError::Exists(7))
    );
}

#[test]
fn constraints_check_reports_first_refusal() {
    let mut table = Table::new();
    table.constraint_add("age", Box::new(AgeAtMostHundred)).unwrap();
    table.constraint_add("name", Box::new(NameMustNotBeEmpty)).unwrap();
    assert_eq!(table.constraints_check(&person(0, "Mike", 32)), Ok(()));
    assert_eq!(
        table.constraints_check(&person(0, "", 101)),
        Err(TableError::Constraint(
            "age".to_string(),
            "Something failed".to_string()
        ))
    );
}

#[test]
fn table_lookup_through_non_unique_index() {
    let mut table = Table::new();
    table.index_add("age", age_index()).unwrap();
    table.insert(person(4, "Mike", 32)).unwrap();
    table.insert(person(1, "John", 32)).unwrap();
    table.insert(person(2, "Anna", 40)).unwrap();
    assert_eq!(
        table.index_lookup("age", &person(99, "", 32)),
        Some(vec![1, 4])
    );
    assert_eq!(table.index_lookup("age", &person(99, "", 50)), Some(vec![]));
    assert_eq!(table.index_lookup("name", &person(99, "", 32)), None);
    table.clear();
    assert_eq!(table.index_lookup("age", &person(99, "", 32)), Some(vec![]));
}

#[test]
fn table_lookup_through_unique_index_after_rollback() {
    let mut table = Table::new();
    table.index_add("age", age_index()).unwrap();
    table.index_add("name", name_index()).unwrap();
    table.insert(person(0, "Mike", 32)).unwrap();
    assert!(table.insert(person(1, "Mike", 32)).is_err());
    assert_eq!(table.index_lookup("age", &person(9, "", 32)), Some(vec![0]));
    assert_eq!(
        table.index_lookup("name", &person(9, "Mike", 0)),
        Some(vec![0])
    );
}

#[test]
fn many_rows_are_reachable_through_indices() {
    let mut table = Table::new();
    table.pre_insert_hook_add("primary_key", AutoIncrement);
    table.index_add("name", name_index()).unwrap();
    table.index_add("age", age_index()).unwrap();
    for i in 0..1000u64 {
        let name = format!("n{}", i);
        assert_eq!(table.insert(person(0, &name, (i % 10) as u16)), Ok(i));
    }
    assert_eq!(
        table.index_lookup("name", &person(0, "n517", 0)),
        Some(vec![517])
    );
    let sevens = table.index_lookup("age", &person(0, "", 7)).unwrap();
    assert_eq!(sevens.len(), 100);
    assert!(sevens.iter().all(|k| k % 10 == 7));
    assert!(sevens.windows(2).all(|w| w[0] < w[1]));
}
