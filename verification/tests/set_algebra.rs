use protocoll::order::compare;
use protocoll::order::Comparison;
use protocoll::set::Difference;
use protocoll::set::Intersection;
use protocoll::set::SymmetricDifference;
use protocoll::set::Union;
use protocoll::set::VecSortedSet;
use protocoll::set_iter::cmp_opt;
use protocoll::set_iter::split_head;
use std::cmp::Ordering;

fn set_of(items: &[i32]) -> VecSortedSet<i32> {
    VecSortedSet::from_iter(items.to_vec().into_iter())
}

#[test]
fn owned_operators_on_the_two_sample_sets() {
    assert_eq!((set_of(&[1, 2, 3]) | set_of(&[2, 3, 4])).view_content(), &[1, 2, 3, 4]);
    assert_eq!((set_of(&[1, 2, 3]) & set_of(&[2, 3, 4])).view_content(), &[2, 3]);
    assert_eq!((set_of(&[1, 2, 3]) - set_of(&[2, 3, 4])).view_content(), &[1]);
    assert_eq!((set_of(&[1, 2, 3]) ^ set_of(&[2, 3, 4])).view_content(), &[1, 4]);
}

#[test]
fn borrowed_operators_on_the_two_sample_sets() {
    let s1 = set_of(&[1, 2, 3]);
    let s2 = set_of(&[2, 3, 4]);
    assert_eq!((&s1 | &s2).view_content(), &[1, 2, 3, 4]);
    assert_eq!((&s1 & &s2).view_content(), &[2, 3]);
    assert_eq!((&s1 - &s2).view_content(), &[1]);
    assert_eq!((&s1 ^ &s2).view_content(), &[1, 4]);
    assert_eq!(s1.view_content(), &[1, 2, 3]);
    assert_eq!(s2.view_content(), &[2, 3, 4]);
}

#[test]
fn lazy_walks_on_the_two_sample_sets() {
    let s1 = set_of(&[1, 2, 3]);
    let s2 = set_of(&[2, 3, 4]);
    assert_eq!(s1.union(&s2).cloned().collect::<Vec<i32>>(), vec![1, 2, 3, 4]);
    assert_eq!(s1.intersection(&s2).cloned().collect::<Vec<i32>>(), vec![2, 3]);
    assert_eq!(s1.difference(&s2).cloned().collect::<Vec<i32>>(), vec![1]);
    assert_eq!(s1.symmetric_difference(&s2).cloned().collect::<Vec<i32>>(), vec![1, 4]);
    assert_eq!(s2.difference(&s1).cloned().collect::<Vec<i32>>(), vec![4]);
    assert_eq!(s1.union(&s2).cloned().collect::<Vec<i32>>(), vec![1, 2, 3, 4]);
}

#[test]
fn walks_end_and_stay_ended() {
    let s1 = set_of(&[1]);
    let s2 = set_of(&[1, 2]);
    let mut u = s1.union(&s2);
    assert_eq!(u.next(), Some(&1));
    assert_eq!(u.next(), Some(&2));
    assert_eq!(u.next(), None);
    assert_eq!(u.next(), None);
    let mut i = s1.intersection(&s2);
    assert_eq!(i.next(), Some(&1));
    assert_eq!(i.next(), None);
    assert_eq!(i.next(), None);
    let mut d = s1.difference(&s2);
    assert_eq!(d.next(), None);
    assert_eq!(d.next(), None);
    let mut x = s1.symmetric_difference(&s2);
    assert_eq!(x.next(), Some(&2));
    assert_eq!(x.next(), None);
    assert_eq!(x.next(), None);
}

#[test]
fn operations_with_an_empty_side() {
    let a = set_of(&[1, 2]);
    let e = set_of(&[]);
    assert_eq!((&a | &e), a);
    assert_eq!((&e | &a), a);
    assert_eq!((&a & &e), e);
    assert_eq!((&e & &a), e);
    assert_eq!((&a - &e), a);
    assert_eq!((&e - &a), e);
    assert_eq!((&a ^ &e), a);
    assert_eq!((&e ^ &a), a);
    assert_eq!((a.clone() | e.clone()), a);
    assert_eq!((e.clone() | a.clone()), a);
    assert_eq!((a.clone() & e.clone()), e);
    assert_eq!((a.clone() - e.clone()), a);
    assert_eq!((e.clone() - a.clone()), e);
    assert_eq!((a.clone() ^ e.clone()), a);
    assert_eq!((e.clone() ^ a.clone()), a);
    assert_eq!((e.clone() | e.clone()), e);
}

#[test]
fn interleaved_sets() {
    let a = set_of(&[1, 3, 5, 7, 9, 11]);
    let b = set_of(&[2, 3, 4, 9, 10, 12, 14]);
    assert_eq!((&a | &b).view_content(), &[1, 2, 3, 4, 5, 7, 9, 10, 11, 12, 14]);
    assert_eq!((&a & &b).view_content(), &[3, 9]);
    assert_eq!((&a - &b).view_content(), &[1, 5, 7, 11]);
    assert_eq!((&b - &a).view_content(), &[2, 4, 10, 12, 14]);
    assert_eq!((&a ^ &b).view_content(), &[1, 2, 4, 5, 7, 10, 11, 12, 14]);
    assert_eq!((a.clone() | b.clone()).view_content(), &[1, 2, 3, 4, 5, 7, 9, 10, 11, 12, 14]);
    assert_eq!((a.clone() & b.clone()).view_content(), &[3, 9]);
    assert_eq!((a.clone() - b.clone()).view_content(), &[1, 5, 7, 11]);
    assert_eq!((a.clone() ^ b.clone()).view_content(), &[1, 2, 4, 5, 7, 10, 11, 12, 14]);
}

#[test]
fn union_commutes() {
    let a = set_of(&[1, 4, 6, 8]);
    let b = set_of(&[0, 4, 5, 8, 9]);
    assert_eq!(&a | &b, &b | &a);
    assert_eq!(a.clone() | b.clone(), b.clone() | a.clone());
}

#[test]
fn intersection_is_no_larger_than_the_smaller_set() {
    let a = set_of(&[1, 4, 6, 8]);
    let b = set_of(&[0, 4, 5, 8, 9]);
    let i = &a & &b;
    assert_eq!(i.view_content(), &[4, 8]);
    assert!(i.len() <= a.len().min(b.len()));
}

#[test]
fn differences_and_intersection_part_the_union() {
    let a = set_of(&[1, 4, 6, 8]);
    let b = set_of(&[0, 4, 5, 8, 9]);
    let u = &a | &b;
    let d1 = &a - &b;
    let d2 = &b - &a;
    let i = &a & &b;
    assert!(d1.is_disjoint(&d2));
    assert!(d1.is_disjoint(&i));
    assert!(d2.is_disjoint(&i));
    assert_eq!(d1.len() + d2.len() + i.len(), u.len());
    assert_eq!(&(&d1 | &d2) | &i, u);
}

#[test]
fn symmetric_difference_is_the_union_of_the_differences() {
    let a = set_of(&[1, 4, 6, 8]);
    let b = set_of(&[0, 4, 5, 8, 9]);
    assert_eq!(&a ^ &b, &(&a - &b) | &(&b - &a));
    assert_eq!((&a ^ &b).view_content(), &[0, 1, 5, 6, 9]);
}

#[test]
fn size_hints_bound_what_is_left() {
    let a = set_of(&[1, 2, 3]);
    let b = set_of(&[2, 3, 4, 5, 6]);
    assert_eq!(a.union(&b).size_hint(), (5, Some(8)));
    assert_eq!(a.intersection(&b).size_hint(), (0, Some(3)));
    assert_eq!(a.difference(&b).size_hint(), (0, Some(3)));
    assert_eq!(b.difference(&a).size_hint(), (2, Some(5)));
    assert_eq!(a.symmetric_difference(&b).size_hint(), (0, Some(8)));
    let mut u = a.union(&b);
    u.next();
    assert_eq!(u.size_hint(), (5, Some(7)));
    u.next();
    assert_eq!(u.size_hint(), (4, Some(5)));
}

#[test]
fn walks_can_be_built_from_slices_and_cloned() {
    let a = [1, 5, 9];
    let b = [5, 6];
    let u = Union::new(&a, &b);
    let again = u.clone();
    assert_eq!(u.cloned().collect::<Vec<i32>>(), vec![1, 5, 6, 9]);
    assert_eq!(again.cloned().collect::<Vec<i32>>(), vec![1, 5, 6, 9]);
    assert_eq!(Intersection::new(&a, &b).cloned().collect::<Vec<i32>>(), vec![5]);
    assert_eq!(Difference::new(&a, &b).cloned().collect::<Vec<i32>>(), vec![1, 9]);
    assert_eq!(SymmetricDifference::new(&a, &b).cloned().collect::<Vec<i32>>(), vec![1, 6, 9]);
}

#[test]
fn compare_tells_the_three_cases() {
    assert_eq!(compare(&1, &2), Comparison::Less);
    assert_eq!(compare(&2, &2), Comparison::Equal);
    assert_eq!(compare(&3, &2), Comparison::Greater);
}

#[test]
fn cmp_opt_gives_short_and_long_for_missing_heads() {
    assert_eq!(cmp_opt::<i32>(None, Some(&1), Ordering::Greater, Ordering::Less), Ordering::Greater);
    assert_eq!(cmp_opt::<i32>(None, None, Ordering::Greater, Ordering::Less), Ordering::Greater);
    assert_eq!(cmp_opt(Some(&1), None, Ordering::Greater, Ordering::Less), Ordering::Less);
    assert_eq!(cmp_opt(Some(&1), Some(&2), Ordering::Greater, Ordering::Greater), Ordering::Less);
    assert_eq!(cmp_opt(Some(&2), Some(&2), Ordering::Greater, Ordering::Less), Ordering::Equal);
    assert_eq!(cmp_opt(Some(&3), Some(&2), Ordering::Less, Ordering::Less), Ordering::Greater);
}

#[test]
fn split_head_parts_a_slice() {
    let a = [7, 8, 9];
    let (h, rest) = split_head(&a);
    assert_eq!(h, Some(&7));
    assert_eq!(rest, &[8, 9]);
    let e: [i32; 0] = [];
    let (h, rest) = split_head(&e);
    assert_eq!(h, None);
    assert!(rest.is_empty());
}
