use ironsea_index_hashmap::full_record::Index;

fn sample() -> Index<&'static str, u64> {
    Index::new(vec![(1, "a"), (3, "b"), (3, "c"), (5, "d")])
}

#[test]
fn full_record_keys_are_sorted_and_distinct() {
    assert_eq!(sample().keys(), &vec![1, 3, 5]);
}

#[test]
fn full_record_keys_are_sorted_whatever_the_input_order() {
    let index = Index::new(vec![(9u64, 'i'), (2, 'b'), (7, 'g'), (2, 'c'), (4, 'd'), (9, 'j')]);
    assert_eq!(index.keys(), &vec![2, 4, 7, 9]);
}

#[test]
fn full_record_find_gives_the_last_write() {
    assert_eq!(sample().find(&3), vec![&"c"]);
}

#[test]
fn full_record_find_of_each_key() {
    let index = sample();
    assert_eq!(index.find(&1), vec![&"a"]);
    assert_eq!(index.find(&5), vec![&"d"]);
}

#[test]
fn full_record_find_of_an_absent_key_is_empty() {
    let index = sample();
    assert!(index.find(&0).is_empty());
    assert!(index.find(&2).is_empty());
    assert!(index.find(&6).is_empty());
}

#[test]
fn full_record_find_range_from_an_absent_start() {
    assert_eq!(sample().find_range(&2, &5), vec![&"c", &"d"]);
}

#[test]
fn full_record_find_range_clamps_both_ends() {
    assert_eq!(sample().find_range(&0, &10), vec![&"a", &"c", &"d"]);
}

#[test]
fn full_record_find_range_past_the_end_gives_the_last_key() {
    assert_eq!(sample().find_range(&6, &6), vec![&"d"]);
}

#[test]
fn full_record_find_range_between_present_keys_is_inclusive() {
    let index = sample();
    assert_eq!(index.find_range(&1, &3), vec![&"a", &"c"]);
    assert_eq!(index.find_range(&3, &5), vec![&"c", &"d"]);
    assert_eq!(index.find_range(&1, &5), vec![&"a", &"c", &"d"]);
    assert_eq!(index.find_range(&3, &3), vec![&"c"]);
}

#[test]
fn full_record_find_range_to_an_absent_end_reaches_the_insertion_point() {
    let index = sample();
    assert_eq!(index.find_range(&1, &2), vec![&"a", &"c"]);
    assert_eq!(index.find_range(&4, &4), vec![&"d"]);
}

#[test]
fn full_record_find_range_with_reversed_bounds_is_empty() {
    let index = sample();
    assert!(index.find_range(&5, &1).is_empty());
    assert!(index.find_range(&10, &0).is_empty());
    assert!(index.find_range(&4, &2).is_empty());
}

#[test]
fn full_record_find_range_with_reversed_bounds_past_the_end_is_empty() {
    let index = sample();
    assert!(index.find_range(&10, &6).is_empty());
    assert!(index.find_range(&7, &6).is_empty());
    assert_eq!(index.find_range(&6, &7), vec![&"d"]);
}

#[test]
fn full_record_find_range_with_reversed_bounds_between_two_keys_is_empty() {
    let index = Index::new(vec![(10u64, 'a'), (20, 'b')]);
    assert!(index.find_range(&15, &12).is_empty());
    assert_eq!(index.find_range(&12, &15), vec![&'b']);
}

#[test]
fn full_record_index_resolves_and_clamps() {
    let index = sample();
    assert_eq!(index.index(&0), Some(0));
    assert_eq!(index.index(&1), Some(0));
    assert_eq!(index.index(&2), Some(1));
    assert_eq!(index.index(&3), Some(1));
    assert_eq!(index.index(&4), Some(2));
    assert_eq!(index.index(&5), Some(2));
    assert_eq!(index.index(&6), Some(2));
    assert_eq!(index.index(&u64::MAX), Some(2));
}

#[test]
fn full_record_empty_source_gives_an_empty_index() {
    let index: Index<&str, u64> = Index::new(Vec::new());
    assert!(index.keys().is_empty());
    assert!(index.find(&1).is_empty());
    assert!(index.find_range(&0, &10).is_empty());
    assert!(index.find_range(&10, &0).is_empty());
    assert_eq!(index.index(&1), None);
}

#[test]
fn full_record_single_key() {
    let index = Index::new(vec![(7u64, "only")]);
    assert_eq!(index.keys(), &vec![7]);
    assert_eq!(index.find_range(&0, &3), vec![&"only"]);
    assert_eq!(index.find_range(&7, &7), vec![&"only"]);
    assert_eq!(index.find_range(&8, &9), vec![&"only"]);
}

#[test]
fn full_record_string_keys() {
    let index = Index::new(vec![
        ("pear".to_string(), 3),
        ("apple".to_string(), 1),
        ("fig".to_string(), 2),
        ("apple".to_string(), 4),
    ]);
    assert_eq!(index.keys(), &vec!["apple".to_string(), "fig".to_string(), "pear".to_string()]);
    assert_eq!(index.find(&"apple".to_string()), vec![&4]);
    assert_eq!(index.find_range(&"b".to_string(), &"g".to_string()), vec![&2, &3]);
    assert_eq!(index.find_range(&"fig".to_string(), &"pear".to_string()), vec![&2, &3]);
}

#[test]
fn full_record_signed_keys() {
    let index = Index::new(vec![(3i32, 'c'), (-4, 'a'), (0, 'b')]);
    assert_eq!(index.keys(), &vec![-4, 0, 3]);
    assert_eq!(index.find_range(&-4, &0), vec![&'a', &'b']);
}

#[test]
fn full_record_clone_holds_the_same() {
    let index = sample();
    let copy = index.clone();
    assert_eq!(copy.keys(), index.keys());
    assert_eq!(copy.find(&3), index.find(&3));
    assert_eq!(copy.find_range(&0, &10), index.find_range(&0, &10));
}

#[test]
fn full_record_every_key_is_found_with_its_last_value() {
    let entries: Vec<(u64, usize)> = (0..200).map(|i| ((i * 37 % 50) as u64, i)).collect();
    let index = Index::new(entries.clone());
    let keys = index.keys();
    assert_eq!(keys.len(), 50);
    assert!(keys.windows(2).all(|pair| pair[0] < pair[1]));
    for key in keys {
        let last = entries.iter().rev().find(|entry| entry.0 == *key).map(|entry| entry.1);
        assert_eq!(index.find(key), vec![&last.unwrap()]);
    }
}

#[test]
fn full_record_range_between_keys_matches_a_filter() {
    let entries: Vec<(u64, u64)> = (0..60).map(|i| ((i * 7 % 40) * 3, i)).collect();
    let index = Index::new(entries);
    let keys = index.keys().clone();
    for a in &keys {
        for b in &keys {
            let want: Vec<u64> = keys.iter().copied().filter(|k| a <= k && k <= b).collect();
            let got: Vec<u64> =
                index.find_range(a, b).into_iter().map(|v| (*v * 7 % 40) * 3).collect();
            assert_eq!(got, want);
        }
    }
}

#[test]
fn full_record_debug_names_the_index() {
    let text = format!("{:?}", sample());
    assert!(text.starts_with("Index"));
    assert!(text.contains("\"c\""));
    assert!(!text.contains("\"b\""));
}
