use protocoll::map::VecSortedMap;

fn letters() -> VecSortedMap<i32, &'static str> {
    let mut m = VecSortedMap::new();
    m.insert(3, "c");
    m.insert(1, "a");
    m.insert(2, "b");
    m
}

#[test]
fn inserting_out_of_order_iterates_in_order() {
    let m = letters();
    let got: Vec<(i32, &str)> = m.iter().cloned().collect();
    assert_eq!(got, vec![(1, "a"), (2, "b"), (3, "c")]);
    assert_eq!(m.view_content(), &[(1, "a"), (2, "b"), (3, "c")]);
}

#[test]
fn new_map_is_empty() {
    let m: VecSortedMap<u8, u8> = VecSortedMap::new();
    assert!(m.is_empty());
    assert_eq!(m.len(), 0);
    assert_eq!(m.get(&0), None);
    assert!(!m.contains_key(&0));
}

#[test]
fn with_capacity_is_empty_with_room() {
    let m: VecSortedMap<u8, u8> = VecSortedMap::with_capacity(16);
    assert!(m.is_empty());
    assert!(m.capacity() >= 16);
}

#[test]
fn capacity_is_never_below_length() {
    let mut m = letters();
    assert!(m.capacity() >= m.len());
    m.reserve(40);
    assert!(m.capacity() >= m.len() + 40);
    assert_eq!(m.len(), 3);
    m.reserve_exact(100);
    assert!(m.capacity() >= m.len() + 100);
    assert_eq!(m.view_content(), &[(1, "a"), (2, "b"), (3, "c")]);
    m.shrink_to_fit();
    assert!(m.capacity() >= m.len());
    assert_eq!(m.view_content(), &[(1, "a"), (2, "b"), (3, "c")]);
}

#[test]
fn insert_then_get_returns_the_value() {
    let mut m = letters();
    assert_eq!(m.insert(5, "e"), None);
    assert_eq!(m.get(&5), Some(&"e"));
    assert_eq!(m.len(), 4);
}

#[test]
fn insert_on_existing_key_returns_prior_and_keeps_length() {
    let mut m = letters();
    assert_eq!(m.insert(2, "B"), Some("b"));
    assert_eq!(m.len(), 3);
    assert_eq!(m.get(&2), Some(&"B"));
    assert_eq!(m.view_content(), &[(1, "a"), (2, "B"), (3, "c")]);
}

#[test]
fn insert_on_existing_last_key_replaces_in_place() {
    let mut m = letters();
    assert_eq!(m.insert(3, "C"), Some("c"));
    assert_eq!(m.view_content(), &[(1, "a"), (2, "b"), (3, "C")]);
}

#[test]
fn insert_at_front_middle_and_back() {
    let mut m: VecSortedMap<i32, i32> = VecSortedMap::new();
    m.insert(10, 1);
    m.insert(30, 3);
    m.insert(20, 2);
    m.insert(5, 0);
    m.insert(40, 4);
    assert_eq!(m.view_content(), &[(5, 0), (10, 1), (20, 2), (30, 3), (40, 4)]);
}

#[test]
fn remove_present_key_shrinks_by_one() {
    let mut m = letters();
    assert_eq!(m.remove(&2), Some("b"));
    assert_eq!(m.len(), 2);
    assert_eq!(m.get(&2), None);
    assert_eq!(m.view_content(), &[(1, "a"), (3, "c")]);
}

#[test]
fn remove_absent_key_changes_nothing() {
    let mut m = letters();
    assert_eq!(m.remove(&7), None);
    assert_eq!(m.len(), 3);
    assert_eq!(m, letters());
}

#[test]
fn contains_key_tells_presence() {
    let m = letters();
    assert!(m.contains_key(&1));
    assert!(m.contains_key(&3));
    assert!(!m.contains_key(&0));
    assert!(!m.contains_key(&4));
}

#[test]
fn get_mut_writes_the_value() {
    let mut m = letters();
    match m.get_mut(&2) {
        Some(v) => *v = "z",
        None => panic!("key 2 has an entry"),
    }
    assert_eq!(m.view_content(), &[(1, "a"), (2, "z"), (3, "c")]);
    assert!(m.get_mut(&9).is_none());
}

#[test]
fn index_gives_the_value() {
    let m = letters();
    assert_eq!(m[&1], "a");
    assert_eq!(m[&3], "c");
}

#[test]
fn clear_empties_the_map() {
    let mut m = letters();
    m.clear();
    assert!(m.is_empty());
}

#[test]
fn pop_takes_the_greatest_key() {
    let mut m = letters();
    assert_eq!(m.pop(), Some((3, "c")));
    assert_eq!(m.pop(), Some((2, "b")));
    assert_eq!(m.pop(), Some((1, "a")));
    assert_eq!(m.pop(), None);
}

#[test]
fn truncate_keeps_the_least_keys() {
    let mut m = letters();
    m.truncate(5);
    assert_eq!(m.len(), 3);
    m.truncate(1);
    assert_eq!(m.view_content(), &[(1, "a")]);
    m.truncate(0);
    assert!(m.is_empty());
}

#[test]
fn retain_keeps_what_the_predicate_accepts() {
    let mut m = letters();
    m.retain(|e| e.0 != 2);
    assert_eq!(m.view_content(), &[(1, "a"), (3, "c")]);
    m.retain(|_| false);
    assert!(m.is_empty());
}

#[test]
fn split_off_parts_the_map_at_an_index() {
    let mut m = letters();
    let tail = m.split_off(1);
    assert_eq!(m.view_content(), &[(1, "a")]);
    assert_eq!(tail.view_content(), &[(2, "b"), (3, "c")]);
    let mut n = letters();
    let none = n.split_off(3);
    assert!(none.is_empty());
    let all = n.split_off(0);
    assert!(n.is_empty());
    assert_eq!(all, letters());
}

#[test]
fn append_joins_the_arrays_and_empties_the_other() {
    let mut low = letters();
    let mut high: VecSortedMap<i32, &str> = VecSortedMap::new();
    high.insert(8, "h");
    high.insert(7, "g");
    low.append(&mut high);
    assert!(high.is_empty());
    assert_eq!(low.view_content(), &[(1, "a"), (2, "b"), (3, "c"), (7, "g"), (8, "h")]);
    assert_eq!(low.get(&7), Some(&"g"));
}

#[test]
fn append_does_not_sort() {
    let mut high: VecSortedMap<i32, &str> = VecSortedMap::new();
    high.insert(8, "h");
    let mut low = letters();
    high.append(&mut low);
    assert_eq!(high.view_content(), &[(8, "h"), (1, "a"), (2, "b"), (3, "c")]);
}

#[test]
fn round_trip_through_iteration_rebuilds_the_map() {
    let m = letters();
    let again = VecSortedMap::from_iter(m.clone().into_iter());
    assert_eq!(again, m);
}

#[test]
fn from_iter_keeps_the_later_of_two_entries_with_one_key() {
    let m = VecSortedMap::from_iter(vec![(2, "x"), (1, "y"), (2, "z")].into_iter());
    assert_eq!(m.view_content(), &[(1, "y"), (2, "z")]);
}

#[test]
fn extend_inserts_every_entry() {
    let mut m = letters();
    m.extend(vec![(0, "o"), (2, "B"), (9, "n")].into_iter());
    assert_eq!(m.view_content(), &[(0, "o"), (1, "a"), (2, "B"), (3, "c"), (9, "n")]);
}

#[test]
fn keys_stay_sorted_and_distinct_under_any_insertions() {
    let keys = [5u32, 3, 9, 3, 1, 5, 8, 0, 9, 2, 7, 7, 4, 6];
    let mut m: VecSortedMap<u32, usize> = VecSortedMap::new();
    for (i, k) in keys.iter().enumerate() {
        m.insert(*k, i);
    }
    let got: Vec<u32> = m.iter().map(|e| e.0).collect();
    assert_eq!(got, vec![0, 1, 2, 3, 4, 5, 6, 7, 8, 9]);
    assert_eq!(m[&3], 3);
    assert_eq!(m[&7], 11);
}

#[test]
fn string_keys_work() {
    let mut m: VecSortedMap<String, i32> = VecSortedMap::new();
    m.insert("pear".to_string(), 2);
    m.insert("apple".to_string(), 1);
    m.insert("quince".to_string(), 3);
    let got: Vec<&str> = m.iter().map(|e| e.0.as_str()).collect();
    assert_eq!(got, vec!["apple", "pear", "quince"]);
    assert_eq!(m.get(&"pear".to_string()), Some(&2));
}

#[test]
fn for_loops_walk_in_key_order() {
    let m = letters();
    let mut by_ref: Vec<i32> = Vec::new();
    for e in &m {
        by_ref.push(e.0);
    }
    assert_eq!(by_ref, vec![1, 2, 3]);
    let mut owned: Vec<(i32, &str)> = Vec::new();
    for e in m {
        owned.push(e);
    }
    assert_eq!(owned, vec![(1, "a"), (2, "b"), (3, "c")]);
}

#[test]
fn default_map_is_empty_and_maps_compare_by_entries() {
    let d: VecSortedMap<i32, &str> = VecSortedMap::default();
    assert_eq!(d, VecSortedMap::new());
    assert_ne!(d, letters());
    assert!(d < letters());
    assert_eq!(format!("{:?}", d), "VecSortedMap([])");
}
