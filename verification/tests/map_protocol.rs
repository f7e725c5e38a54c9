use protocoll::map::VecSortedMap;

fn counts() -> VecSortedMap<usize, usize> {
    let mut m = VecSortedMap::new();
    for k in [0, 0, 0, 1, 1, 0, 0, 0] {
        m = m.update(k, |n| 1 + n.unwrap_or(0));
    }
    m
}

#[test]
fn update_counts_occurrences() {
    let m = counts();
    assert_eq!(m[&0], 6);
    assert_eq!(m[&1], 2);
    assert_eq!(m.view_content(), &[(0, 6), (1, 2)]);
}

#[test]
fn update_on_absent_key_is_insert_of_f_of_none() {
    let m = counts().update(7, |n| {
        assert_eq!(n, None);
        70
    });
    let mut expected = counts();
    expected.insert(7, 70);
    assert_eq!(m, expected);
}

#[test]
fn update_on_present_key_is_insert_of_f_of_old() {
    let m = counts().update(0, |n| {
        assert_eq!(n, Some(6));
        n.unwrap() * 10
    });
    let mut expected = counts();
    expected.insert(0, 60);
    assert_eq!(m, expected);
}

#[test]
fn update_keeps_the_other_entries_in_place() {
    let mut m: VecSortedMap<i32, i32> = VecSortedMap::new();
    for k in 0..6 {
        m.insert(k, k);
    }
    let m = m.update(2, |v| v.unwrap() + 100);
    assert_eq!(m.view_content(), &[(0, 0), (1, 1), (2, 102), (3, 3), (4, 4), (5, 5)]);
    let m = m.update(5, |v| v.unwrap() + 100);
    assert_eq!(m.view_content(), &[(0, 0), (1, 1), (2, 102), (3, 3), (4, 4), (5, 105)]);
    let m = m.update(0, |v| v.unwrap() + 100);
    assert_eq!(m.view_content(), &[(0, 100), (1, 1), (2, 102), (3, 3), (4, 4), (5, 105)]);
}

#[test]
fn update_mut_agrees_with_update() {
    let mut m: VecSortedMap<usize, usize> = VecSortedMap::new();
    for k in [0, 0, 0, 1, 1, 0, 0, 0] {
        m.update_mut(k, 0, |n| *n += 1);
    }
    assert_eq!(m, counts());
}

#[test]
fn update_mut_puts_the_default_before_it_writes() {
    let mut m: VecSortedMap<i32, Vec<i32>> = VecSortedMap::new();
    m.update_mut(4, vec![1], |v| v.push(2));
    assert_eq!(m[&4], vec![1, 2]);
    m.update_mut(4, vec![9], |v| v.push(3));
    assert_eq!(m[&4], vec![1, 2, 3]);
}

#[test]
fn update_in_place_agrees_with_update() {
    let mut m: VecSortedMap<char, usize> = VecSortedMap::new();
    let mut n: VecSortedMap<char, usize> = VecSortedMap::new();
    for c in "a short treatise on fungi".chars() {
        m = m.update(c, |k| 1 + k.unwrap_or(0));
        n = n.update_in_place(c, 0, |k| *k += 1);
    }
    assert_eq!(m, n);
    assert_eq!(m[&' '], 4);
    assert_eq!(m[&'t'], 3);
}

#[test]
fn update_all_changes_every_value() {
    let m = counts().update_all(|_, v| v + 1);
    assert_eq!(m[&0], 7);
    assert_eq!(m[&1], 3);
    let with_keys = counts().update_all(|k, v| v * 10 + *k);
    assert_eq!(with_keys.view_content(), &[(0, 60), (1, 21)]);
}

#[test]
fn update_all_mut_changes_every_value() {
    let mut m = counts();
    m.update_all_mut(|_, v| *v += 1);
    assert_eq!(m[&0], 7);
    assert_eq!(m[&1], 3);
}

#[test]
fn update_all_mut_walks_in_ascending_key_order() {
    let mut m: VecSortedMap<u32, u32> = VecSortedMap::new();
    for n in 0..13u32 {
        m.insert(n * n, 0);
    }
    let mut seen: Vec<u32> = Vec::new();
    let mut a = 0u32;
    let mut b = 1u32;
    m.update_all_mut(|k, v| {
        seen.push(*k);
        *v = a;
        a = b;
        b += *v;
    });
    assert_eq!(m[&0], 0);
    assert_eq!(m[&1], 1);
    assert_eq!(m[&4], 1);
    assert_eq!(m[&9], 2);
    assert_eq!(m[&16], 3);
    assert_eq!(m[&25], 5);
    assert_eq!(m[&36], 8);
    assert_eq!(m[&144], 144);
    assert_eq!(seen, (0..13u32).map(|n| n * n).collect::<Vec<u32>>());
}

#[test]
fn merging_a_map_into_itself_with_addition_doubles_the_values() {
    let m = counts();
    let merged = m.clone().merge(m.into_iter(), |u, v| u + v);
    assert_eq!(merged[&0], 12);
    assert_eq!(merged[&1], 4);
    assert_eq!(merged.view_content(), &[(0, 12), (1, 4)]);
}

#[test]
fn merge_mut_of_a_map_into_itself_with_addition_doubles_the_values() {
    let m1 = counts();
    let mut m2 = m1.clone();
    m2.merge_mut(m1.into_iter(), |u, v| *u += v);
    assert_eq!(m2[&0], 12);
    assert_eq!(m2[&1], 4);
}

#[test]
fn merge_in_place_of_a_map_into_itself_with_addition_doubles_the_values() {
    let m = counts();
    let merged = m.clone().merge_in_place(m.into_iter(), |u, v| *u += v);
    assert_eq!(merged.view_content(), &[(0, 12), (1, 4)]);
}

#[test]
fn merge_passes_existing_first_and_incoming_second() {
    let mut m: VecSortedMap<i32, String> = VecSortedMap::new();
    m.insert(1, "old".to_string());
    let merged = m.merge(
        vec![(1, "new".to_string()), (2, "two".to_string()), (1, "newer".to_string())].into_iter(),
        |existing, incoming| format!("{}<{}", existing, incoming),
    );
    assert_eq!(merged[&1], "old<new<newer");
    assert_eq!(merged[&2], "two");
}

#[test]
fn merge_mut_passes_existing_first_and_incoming_second() {
    let mut m: VecSortedMap<i32, i32> = VecSortedMap::new();
    m.insert(1, 100);
    m.merge_mut(vec![(1, 1), (0, 5), (1, 2)].into_iter(), |existing, incoming| {
        *existing = *existing * 10 - incoming
    });
    assert_eq!(m.view_content(), &[(0, 5), (1, 9988)]);
}

#[test]
fn merge_is_a_fold_of_update() {
    let items = vec![(3, 30), (1, 10), (3, 1), (2, 20), (1, 5)];
    let mut start: VecSortedMap<i32, i32> = VecSortedMap::new();
    start.insert(1, 1000);
    let merged = start.clone().merge(items.clone().into_iter(), |u, v| u - v);
    let mut folded = start;
    for (k, v) in items {
        folded = folded.update(k, |existing| match existing {
            Some(u) => u - v,
            None => v,
        });
    }
    assert_eq!(merged, folded);
    assert_eq!(merged.view_content(), &[(1, 985), (2, 20), (3, 29)]);
}

#[test]
fn inc_dec_zero_shrink_plus() {
    let m: VecSortedMap<i32, i32> = VecSortedMap::new();
    let m = m.inc(2, 20).inc(1, 10).inc(2, 21);
    assert_eq!(m.view_content(), &[(1, 10), (2, 21)]);
    let m = m.dec(&1).dec(&5);
    assert_eq!(m.view_content(), &[(2, 21)]);
    let m = m.plus(vec![(9, 90), (0, 0)].into_iter()).shrink();
    assert_eq!(m.view_content(), &[(0, 0), (2, 21), (9, 90)]);
    assert!(m.zero().is_empty());
}
