use ironsea_index_hashmap::borrowed::Index;

#[derive(Clone, Debug, PartialEq)]
struct City {
    code: u64,
    name: String,
}

fn city(code: u64, name: &str) -> City {
    City { code, name: name.to_string() }
}

fn table() -> Vec<City> {
    vec![city(1, "a"), city(3, "b"), city(3, "c"), city(5, "d")]
}

fn index_of(table: &[City]) -> Index<City, u64> {
    Index::new(table.iter().map(|row| (row.code, row)).collect())
}

#[test]
fn borrowed_keys_are_sorted_and_distinct() {
    let rows = table();
    assert_eq!(index_of(&rows).keys(), &vec![1, 3, 5]);
}

#[test]
fn borrowed_find_gives_a_clone_of_the_last_record() {
    let rows = table();
    let index = index_of(&rows);
    assert_eq!(index.find(&3), vec![&city(3, "c")]);
    assert!(index.find(&2).is_empty());
}

#[test]
fn borrowed_index_outlives_its_table() {
    let index = {
        let rows = table();
        index_of(&rows)
    };
    assert_eq!(index.find(&5), vec![&city(5, "d")]);
}

#[test]
fn borrowed_find_range_clamps_both_ends() {
    let rows = table();
    let index = index_of(&rows);
    assert_eq!(index.find_range(&2, &5), vec![&city(3, "c"), &city(5, "d")]);
    assert_eq!(index.find_range(&0, &10), vec![&city(1, "a"), &city(3, "c"), &city(5, "d")]);
    assert_eq!(index.find_range(&6, &6), vec![&city(5, "d")]);
}

#[test]
fn borrowed_find_range_includes_the_end_position() {
    let rows = table();
    let index = index_of(&rows);
    assert_eq!(index.find_range(&1, &3), vec![&city(1, "a"), &city(3, "c")]);
    assert_eq!(index.find_range(&5, &5), vec![&city(5, "d")]);
}

#[test]
fn borrowed_find_range_with_reversed_bounds_is_empty() {
    let rows = table();
    assert!(index_of(&rows).find_range(&5, &1).is_empty());
    assert!(index_of(&rows).find_range(&9, &6).is_empty());
}

#[test]
fn borrowed_empty_table_gives_an_empty_index() {
    let index: Index<City, u64> = Index::new(Vec::new());
    assert!(index.keys().is_empty());
    assert!(index.find(&1).is_empty());
    assert!(index.find_range(&0, &10).is_empty());
}

#[test]
fn borrowed_clone_holds_the_same() {
    let rows = table();
    let index = index_of(&rows);
    let copy = index.clone();
    assert_eq!(copy.keys(), index.keys());
    assert_eq!(copy.find_range(&0, &10), index.find_range(&0, &10));
}
