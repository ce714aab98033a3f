use ironsea_index_hashmap::directory::distinct;
use ironsea_index_hashmap::directory::search;
use ironsea_index_hashmap::key::rank;
use ironsea_index_hashmap::key::Rank;
use ironsea_index_hashmap::lookup::Lookup;

#[test]
fn rank_orders_two_keys() {
    assert!(matches!(rank(&1u64, &2u64), Rank::Before));
    assert!(matches!(rank(&2u64, &2u64), Rank::Same));
    assert!(matches!(rank(&3u64, &2u64), Rank::After));
    assert!(matches!(rank(&"a".to_string(), &"b".to_string()), Rank::Before));
}

#[test]
fn search_finds_each_key_at_its_position() {
    let keys: Vec<u64> = vec![10, 20, 30, 40, 50];
    for (position, key) in keys.iter().enumerate() {
        assert_eq!(search(&keys, key), Ok(position));
    }
}

#[test]
fn search_gives_the_insertion_point_of_an_absent_key() {
    let keys: Vec<u64> = vec![10, 20, 30, 40, 50];
    assert_eq!(search(&keys, &5), Err(0));
    assert_eq!(search(&keys, &15), Err(1));
    assert_eq!(search(&keys, &25), Err(2));
    assert_eq!(search(&keys, &45), Err(4));
    assert_eq!(search(&keys, &55), Err(5));
}

#[test]
fn search_in_no_keys() {
    let keys: Vec<u64> = Vec::new();
    assert_eq!(search(&keys, &1), Err(0));
}

#[test]
fn search_agrees_with_the_standard_binary_search() {
    let keys: Vec<u64> = (0..101).map(|i| i * 3).collect();
    for key in 0..310u64 {
        assert_eq!(search(&keys, &key), keys.binary_search(&key));
    }
}

#[test]
fn distinct_drops_repeated_keys() {
    assert_eq!(distinct(vec![1u64, 1, 2, 3, 3, 3, 7]), vec![1, 2, 3, 7]);
    assert_eq!(distinct(vec![4u64]), vec![4]);
    assert_eq!(distinct(Vec::<u64>::new()), Vec::<u64>::new());
    assert_eq!(distinct(vec![5u64, 5, 5]), vec![5]);
}

#[test]
fn lookup_build_sorts_the_keys() {
    let lookup = Lookup::build(vec![(5u64, 'e'), (1, 'a'), (4, 'd'), (1, 'b'), (2, 'c')]);
    assert_eq!(lookup.keys(), &vec![1, 2, 4, 5]);
}

#[test]
fn lookup_get_gives_the_last_write() {
    let lookup = Lookup::build(vec![(5u64, 'e'), (1, 'a'), (4, 'd'), (1, 'b'), (2, 'c')]);
    assert_eq!(lookup.get(&1), Some(&'b'));
    assert_eq!(lookup.get(&5), Some(&'e'));
    assert_eq!(lookup.get(&3), None);
}

#[test]
fn lookup_position_clamps_to_the_last_key() {
    let lookup = Lookup::build(vec![(10u64, ()), (20, ()), (30, ())]);
    assert_eq!(lookup.position(&0), Some(0));
    assert_eq!(lookup.position(&10), Some(0));
    assert_eq!(lookup.position(&11), Some(1));
    assert_eq!(lookup.position(&30), Some(2));
    assert_eq!(lookup.position(&31), Some(2));
}

#[test]
fn lookup_position_in_an_empty_directory_is_none() {
    let lookup: Lookup<u64, ()> = Lookup::build(Vec::new());
    assert_eq!(lookup.position(&0), None);
    assert_eq!(lookup.get(&0), None);
    assert!(lookup.keys().is_empty());
}

#[test]
fn lookup_span_gives_the_first_and_the_last_position() {
    let lookup = Lookup::build(vec![(10u64, ()), (20, ()), (30, ())]);
    assert_eq!(lookup.span(&10, &30), Some((0, 2)));
    assert_eq!(lookup.span(&11, &29), Some((1, 2)));
    assert_eq!(lookup.span(&0, &5), Some((0, 0)));
    assert_eq!(lookup.span(&35, &40), Some((2, 2)));
    assert_eq!(lookup.span(&20, &20), Some((1, 1)));
}

#[test]
fn lookup_span_of_reversed_keys_is_none() {
    let lookup = Lookup::build(vec![(10u64, ()), (20, ()), (30, ())]);
    assert_eq!(lookup.span(&30, &10), None);
    assert_eq!(lookup.span(&40, &35), None);
    assert_eq!(lookup.span(&12, &11), None);
}

#[test]
fn lookup_span_in_an_empty_directory_is_none() {
    let lookup: Lookup<u64, ()> = Lookup::build(Vec::new());
    assert_eq!(lookup.span(&0, &9), None);
}
