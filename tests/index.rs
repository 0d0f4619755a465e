use indexed_table::{BTreeIndex, IndexError, KeyFn, UniqueBTreeIndex};

#[derive(Debug, Clone)]
struct Person {
    name: String,
    age: u16,
}

struct ByName;

impl KeyFn<Person, String> for ByName {
    fn derive(&self, p: Person) -> String {
        p.name
    }

    fn key(&self, p: &Person) -> String {
        p.name.clone()
    }
}

struct ByAge;

impl KeyFn<Person, u16> for ByAge {
    fn derive(&self, p: Person) -> u16 {
        p.age
    }

    fn key(&self, p: &Person) -> u16 {
        p.age
    }
}

fn person(name: &str, age: u16) -> Person {
    Person {
        name: name.into(),
        age,
    }
}

#[test]
fn non_unique_lookup_yields_all_keys_ascending() {
    let mut index = BTreeIndex::new(ByAge);
    assert_eq!(index.insert(5, &person("Mike", 32)), Ok(()));
    assert_eq!(index.insert(2, &person("John", 32)), Ok(()));
    assert_eq!(index.insert(9, &person("Anna", 40)), Ok(()));
    assert_eq!(index.lookup(&32), vec![2, 5]);
    assert_eq!(index.lookup(&40), vec![9]);
    assert_eq!(index.lookup(&50), Vec::<u64>::new());
}

#[test]
fn non_unique_remove_drops_empty_entries() {
    let mut index = BTreeIndex::new(ByAge);
    index.insert(0, &person("Mike", 32)).unwrap();
    index.insert(1, &person("John", 32)).unwrap();
    index.remove(0, &person("Mike", 32)).unwrap();
    assert_eq!(index.lookup(&32), vec![1]);
    index.remove(1, &person("John", 32)).unwrap();
    assert_eq!(index.lookup(&32), Vec::<u64>::new());
    // removing what is not there changes nothing
    assert_eq!(index.remove(1, &person("John", 32)), Ok(()));
    assert_eq!(index.lookup(&32), Vec::<u64>::new());
}

#[test]
fn non_unique_clear_empties() {
    let mut index = BTreeIndex::new(ByAge);
    index.insert(0, &person("Mike", 32)).unwrap();
    index.clear();
    assert_eq!(index.lookup(&32), Vec::<u64>::new());
}

#[test]
fn unique_refuses_second_holder() {
    let mut index = UniqueBTreeIndex::new(ByName);
    assert_eq!(index.insert(0, &person("Mike", 32)), Ok(()));
    assert_eq!(
        index.insert(1, &person("Mike", 40)),
        Err(IndexError::Duplicate(0))
    );
    assert_eq!(index.lookup(&"Mike".to_string()), vec![0]);
    assert_eq!(index.insert(1, &person("John", 40)), Ok(()));
    assert_eq!(index.lookup(&"John".to_string()), vec![1]);
}

#[test]
fn unique_remove_only_matching_key() {
    let mut index = UniqueBTreeIndex::new(ByName);
    index.insert(0, &person("Mike", 32)).unwrap();
    // a record of another primary key under the same name is not removed
    assert_eq!(index.remove(3, &person("Mike", 32)), Ok(()));
    assert_eq!(index.lookup(&"Mike".to_string()), vec![0]);
    // a name that is absent is a no-op
    assert_eq!(index.remove(0, &person("Zed", 32)), Ok(()));
    assert_eq!(index.lookup(&"Mike".to_string()), vec![0]);
    assert_eq!(index.remove(0, &person("Mike", 32)), Ok(()));
    assert_eq!(index.lookup(&"Mike".to_string()), Vec::<u64>::new());
}

#[test]
fn unique_clear_empties() {
    let mut index = UniqueBTreeIndex::new(ByName);
    index.insert(0, &person("Mike", 32)).unwrap();
    index.clear();
    assert_eq!(index.lookup(&"Mike".to_string()), Vec::<u64>::new());
    assert_eq!(index.insert(1, &person("Mike", 32)), Ok(()));
}

#[test]
fn reinserting_a_registered_record() {
    let mut ages = BTreeIndex::new(ByAge);
    ages.insert(0, &person("Mike", 32)).unwrap();
    assert_eq!(ages.insert(0, &person("Mike", 32)), Ok(()));
    assert_eq!(ages.lookup(&32), vec![0]);

    let mut names = UniqueBTreeIndex::new(ByName);
    names.insert(0, &person("Mike", 32)).unwrap();
    assert_eq!(
        names.insert(0, &person("Mike", 32)),
        Err(IndexError::Duplicate(0))
    );
    assert_eq!(names.lookup(&"Mike".to_string()), vec![0]);
}
