use ironsea_index_hashmap::owned::IndexOwned;

#[derive(Clone, Debug, PartialEq)]
struct City {
    code: u64,
    name: String,
}

impl City {
    fn key(&self) -> u64 {
        self.code
    }

    fn fields(&self) -> String {
        self.name.clone()
    }

    fn build(code: &u64, name: &String) -> City {
        City { code: *code, name: name.clone() }
    }
}

fn city(code: u64, name: &str) -> City {
    City { code, name: name.to_string() }
}

fn sample() -> IndexOwned<u64, String> {
    let table = vec![city(1, "a"), city(3, "b"), city(3, "c"), city(5, "d")];
    IndexOwned::new(table.iter().map(|row| (row.key(), row.fields())).collect())
}

#[test]
fn owned_keys_are_sorted_and_distinct() {
    assert_eq!(sample().keys(), &vec![1, 3, 5]);
}

#[test]
fn owned_find_builds_the_record_of_the_last_write() {
    let index = sample();
    assert_eq!(index.find(&3, City::build), vec![city(3, "c")]);
    assert!(index.find(&4, City::build).is_empty());
}

#[test]
fn owned_find_range_builds_the_records_in_key_order() {
    let index = sample();
    assert_eq!(index.find_range(&2, &5, City::build), vec![city(3, "c"), city(5, "d")]);
    assert_eq!(
        index.find_range(&0, &10, City::build),
        vec![city(1, "a"), city(3, "c"), city(5, "d")]
    );
    assert_eq!(index.find_range(&6, &6, City::build), vec![city(5, "d")]);
}

#[test]
fn owned_find_range_with_reversed_bounds_is_empty() {
    assert!(sample().find_range(&5, &1, City::build).is_empty());
    assert!(sample().find_range(&9, &6, City::build).is_empty());
}

#[test]
fn owned_round_trip_gives_back_each_key() {
    let index = sample();
    for key in index.keys() {
        let found = index.find(key, City::build);
        assert_eq!(found.len(), 1);
        assert_eq!(found[0].key(), *key);
    }
    let all = index.find_range(&0, &10, City::build);
    let keys: Vec<u64> = all.iter().map(|row| row.key()).collect();
    assert_eq!(&keys, index.keys());
}

#[test]
fn owned_builder_may_be_a_closure() {
    let index = sample();
    let suffix = "!".to_string();
    let found = index.find_range(&1, &3, |code: &u64, name: &String| {
        format!("{}{}{}", code, name, suffix)
    });
    assert_eq!(found, vec!["1a!".to_string(), "3c!".to_string()]);
}

#[test]
fn owned_empty_source_gives_an_empty_index() {
    let index: IndexOwned<u64, String> = IndexOwned::new(Vec::new());
    assert!(index.keys().is_empty());
    assert!(index.find(&1, City::build).is_empty());
    assert!(index.find_range(&0, &10, City::build).is_empty());
}

#[test]
fn owned_clone_holds_the_same() {
    let index = sample();
    let copy = index.clone();
    assert_eq!(copy.keys(), index.keys());
    assert_eq!(copy.find_range(&0, &10, City::build), index.find_range(&0, &10, City::build));
}
