use protocoll::set::VecSortedSet;

fn set_of(items: &[i32]) -> VecSortedSet<i32> {
    VecSortedSet::from_iter(items.to_vec().into_iter())
}

#[test]
fn new_set_is_empty() {
    let s: VecSortedSet<i32> = VecSortedSet::new();
    assert!(s.is_empty());
    assert_eq!(s.len(), 0);
    assert!(!s.contains(&1));
    let t: VecSortedSet<i32> = VecSortedSet::with_capacity(8);
    assert!(t.is_empty());
    assert!(t.capacity() >= 8);
}

#[test]
fn set_capacity_is_never_below_length() {
    let mut s = set_of(&[3, 1, 2]);
    assert!(s.capacity() >= s.len());
    s.reserve(20);
    assert!(s.capacity() >= 23);
    s.reserve_exact(50);
    assert!(s.capacity() >= 53);
    s.shrink_to_fit();
    assert!(s.capacity() >= 3);
    assert_eq!(s.view_content(), &[1, 2, 3]);
}

#[test]
fn elements_stay_sorted_and_distinct_under_any_insertions() {
    let s = set_of(&[5, 3, 9, 3, 1, 5, 8, 0, 9, 2, 7, 7, 4, 6]);
    assert_eq!(s.view_content(), &[0, 1, 2, 3, 4, 5, 6, 7, 8, 9]);
}

#[test]
fn set_insert_returns_the_replaced_element() {
    let mut s = set_of(&[1, 3]);
    assert_eq!(s.insert(2), None);
    assert_eq!(s.len(), 3);
    assert_eq!(s.insert(2), Some(2));
    assert_eq!(s.len(), 3);
    assert!(s.contains(&2));
    assert_eq!(s.view_content(), &[1, 2, 3]);
}

#[test]
fn set_remove_returns_the_element() {
    let mut s = set_of(&[1, 2, 3]);
    assert_eq!(s.remove(&2), Some(2));
    assert_eq!(s.len(), 2);
    assert!(!s.contains(&2));
    assert_eq!(s.remove(&2), None);
    assert_eq!(s.len(), 2);
    assert_eq!(s.view_content(), &[1, 3]);
}

#[test]
fn set_get_and_get_mut() {
    let mut s = set_of(&[10, 20, 30]);
    assert_eq!(s.get(&20), Some(&20));
    assert_eq!(s.get(&25), None);
    match s.get_mut(&20) {
        Some(e) => *e = 25,
        None => panic!("20 is an element"),
    }
    assert_eq!(s.view_content(), &[10, 25, 30]);
    assert!(s.get_mut(&20).is_none());
}

#[test]
fn set_index_gives_the_element() {
    let s = set_of(&[10, 20, 30]);
    assert_eq!(s[&20], 20);
}

#[test]
fn set_pop_truncate_clear() {
    let mut s = set_of(&[1, 2, 3, 4]);
    assert_eq!(s.pop(), Some(4));
    s.truncate(9);
    assert_eq!(s.len(), 3);
    s.truncate(2);
    assert_eq!(s.view_content(), &[1, 2]);
    s.clear();
    assert_eq!(s.pop(), None);
}

#[test]
fn set_retain_keeps_what_the_predicate_accepts() {
    let mut s = set_of(&[1, 2, 3, 4, 5, 6]);
    s.retain(|e| e % 2 == 0);
    assert_eq!(s.view_content(), &[2, 4, 6]);
}

#[test]
fn set_split_off_and_append() {
    let mut s = set_of(&[1, 2, 3, 4]);
    let mut tail = s.split_off(2);
    assert_eq!(s.view_content(), &[1, 2]);
    assert_eq!(tail.view_content(), &[3, 4]);
    s.append(&mut tail);
    assert!(tail.is_empty());
    assert_eq!(s.view_content(), &[1, 2, 3, 4]);
    assert!(s.contains(&4));
}

#[test]
fn set_round_trip_through_iteration_rebuilds_the_set() {
    let s = set_of(&[4, 1, 3]);
    let again = VecSortedSet::from_iter(s.clone().into_iter());
    assert_eq!(again, s);
    let borrowed = VecSortedSet::from_iter(s.iter().cloned());
    assert_eq!(borrowed, s);
}

#[test]
fn set_extend_inc_dec_zero_shrink_plus() {
    let mut s = set_of(&[2]);
    s.extend(vec![3, 1, 2].into_iter());
    assert_eq!(s.view_content(), &[1, 2, 3]);
    let s = s.inc(0).inc(2).dec(&1).dec(&7);
    assert_eq!(s.view_content(), &[0, 2, 3]);
    let s = s.plus(vec![9, 8].into_iter()).shrink();
    assert_eq!(s.view_content(), &[0, 2, 3, 8, 9]);
    assert!(s.zero().is_empty());
}

#[test]
fn subset_superset_disjoint() {
    let a = set_of(&[1, 2, 3]);
    let b = set_of(&[2, 3, 4]);
    let c = set_of(&[2, 3]);
    let d = set_of(&[7, 8]);
    let e = set_of(&[]);
    assert!(c.is_subset(&a));
    assert!(c.is_subset(&b));
    assert!(!a.is_subset(&b));
    assert!(!a.is_subset(&c));
    assert!(e.is_subset(&a));
    assert!(e.is_subset(&e));
    assert!(!a.is_subset(&e));
    assert!(a.is_subset(&a));
    assert!(a.is_superset(&c));
    assert!(!c.is_superset(&a));
    assert!(a.is_disjoint(&d));
    assert!(!a.is_disjoint(&b));
    assert!(a.is_disjoint(&e));
    assert!(!set_of(&[1, 5, 9]).is_subset(&set_of(&[1, 2, 9])));
    assert!(set_of(&[1, 5, 9]).is_subset(&set_of(&[0, 1, 2, 5, 7, 9, 11])));
}

#[test]
fn set_for_loops_walk_in_ascending_order() {
    let s = set_of(&[3, 1, 2]);
    let mut by_ref: Vec<i32> = Vec::new();
    for e in &s {
        by_ref.push(*e);
    }
    assert_eq!(by_ref, vec![1, 2, 3]);
    let mut owned: Vec<i32> = Vec::new();
    for e in s {
        owned.push(e);
    }
    assert_eq!(owned, vec![1, 2, 3]);
}

#[test]
fn default_set_is_empty() {
    let d: VecSortedSet<i32> = VecSortedSet::default();
    assert_eq!(d, VecSortedSet::new());
    assert_eq!(format!("{:?}", set_of(&[2, 1])), "VecSortedSet([1, 2])");
}
