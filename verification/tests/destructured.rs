use ironsea_index_hashmap::destructured::Index;
use ironsea_index_hashmap::IndexDestructured;

fn sample() -> Index<&'static str, u64> {
    Index::new(vec![(1, "a"), (3, "b"), (3, "c"), (5, "d")])
}

#[test]
fn destructured_keys_are_sorted_and_distinct() {
    assert_eq!(sample().keys(), &vec![1, 3, 5]);
}

#[test]
fn destructured_find_gives_the_last_write() {
    assert_eq!(sample().find(&3), vec![&"c"]);
}

#[test]
fn destructured_find_of_an_absent_key_is_empty() {
    assert!(sample().find(&4).is_empty());
}

#[test]
fn destructured_find_range_pairs_keys_with_fields() {
    let index = sample();
    assert_eq!(index.find_range(&2, &5), vec![(3, &"c"), (5, &"d")]);
    assert_eq!(index.find_range(&0, &10), vec![(1, &"a"), (3, &"c"), (5, &"d")]);
    assert_eq!(index.find_range(&6, &6), vec![(5, &"d")]);
}

#[test]
fn destructured_find_range_with_reversed_bounds_is_empty() {
    assert!(sample().find_range(&5, &1).is_empty());
    assert!(sample().find_range(&9, &6).is_empty());
}

#[test]
fn destructured_index_resolves_and_clamps() {
    let index = sample();
    assert_eq!(index.index(&0), Some(0));
    assert_eq!(index.index(&3), Some(1));
    assert_eq!(index.index(&4), Some(2));
    assert_eq!(index.index(&9), Some(2));
}

#[test]
fn destructured_empty_source_gives_an_empty_index() {
    let index: Index<String, u32> = Index::new(Vec::new());
    assert!(index.keys().is_empty());
    assert!(index.find(&1).is_empty());
    assert!(index.find_range(&0, &10).is_empty());
    assert_eq!(index.index(&0), None);
}

#[test]
fn destructured_string_keys_are_cloned_into_the_matches() {
    let index = Index::new(vec![("b".to_string(), 2), ("a".to_string(), 1), ("c".to_string(), 3)]);
    let matches = index.find_range(&"a".to_string(), &"b".to_string());
    assert_eq!(matches, vec![("a".to_string(), &1), ("b".to_string(), &2)]);
}

#[test]
fn destructured_is_exported_under_its_long_name() {
    let index: IndexDestructured<char, u8> = IndexDestructured::new(vec![(2, 'x'), (1, 'y')]);
    assert_eq!(index.keys(), &vec![1, 2]);
    assert_eq!(index.find_range(&1, &2), vec![(1, &'y'), (2, &'x')]);
}

#[test]
fn destructured_clone_holds_the_same() {
    let index = sample();
    let copy = index.clone();
    assert_eq!(copy.keys(), index.keys());
    assert_eq!(copy.find_range(&0, &10), index.find_range(&0, &10));
}
