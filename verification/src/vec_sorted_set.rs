//! A set kept as a sorted array.
use crate::merge_join::difference_of;
use crate::merge_join::intersection_of;
use crate::merge_join::lemma_difference;
use crate::merge_join::lemma_intersection;
use crate::merge_join::lemma_symmetric_difference;
use crate::merge_join::lemma_union;
use crate::merge_join::symmetric_difference_of;
use crate::merge_join::union_of;
use crate::order::Comparison;
use crate::order::compare;
use crate::order::lemma_lt_transitive;
use crate::order::lemma_trichotomy;
use crate::order::lt;
use crate::order::total_order;
use crate::search::search;
use crate::set_iter::Difference;
use crate::set_iter::Intersection;
use crate::set_iter::SymmetricDifference;
use crate::set_iter::Union;
use crate::sorted::inserted;
use crate::sorted::inserted_all;
use crate::sorted::lemma_concat_sorted;
use crate::sorted::lemma_holds_is_contains;
use crate::sorted::lemma_inserted;
use crate::sorted::lemma_inserted_all;
use crate::sorted::lemma_inserted_all_ascending;
use crate::sorted::lemma_inserted_all_push;
use crate::sorted::lemma_kept_by_sorted;
use crate::sorted::lemma_removed;
use crate::sorted::lemma_subrange_sorted;
use crate::sorted::rank;
use crate::sorted::removed;
use crate::sorted::sorted;
use crate::storage::allocatable;
use crate::storage::vec_capacity;
use crate::storage::vec_reserve_exact;
use crate::storage::vec_shrink_to_fit;
use crate::walk::advance;
use crate::walk::both;
use crate::walk::kept_by;
use crate::walk::pending;
use crate::walk::push_rest;
use crate::walk::retain_in;
use std::vec::IntoIter;
use vstd::prelude::*;
use vstd::std_specs::iter::IteratorSpec;

verus! {

/// An array-set. Very efficient for small sets.
///
/// The elements stand in a `Vec`, strictly ascending. The view is that
/// sequence.
#[derive(Default, Clone, PartialEq, Eq, PartialOrd, Ord, Hash, Debug)]
pub struct VecSortedSet<T>(Vec<T>);

impl<T> View for VecSortedSet<T> {
    type V = Seq<T>;

    closed spec fn view(&self) -> Seq<T> {
        self.0@
    }
}

impl<T> VecSortedSet<T> {
    /// The array of elements.
    pub fn view_content<'a>(&'a self) -> (r: &'a Vec<T>)
        ensures
            r@ == self@,
    {
        &self.0
    }

    /// Walks the elements in ascending order.
    pub fn iter(&self) -> (r: std::slice::Iter<'_, T>)
        ensures
            r.remaining() == self@.as_ref(),
            r.obeys_prophetic_iter_laws(),
            r.decrease() is Some,
    {
        self.0.iter()
    }

    /// The number of elements.
    pub fn len(&self) -> (r: usize)
        ensures
            r == self@.len(),
    {
        self.0.len()
    }

    /// Whether the set has no element.
    pub fn is_empty(&self) -> (r: bool)
        ensures
            r == (self@.len() == 0),
    {
        self.0.is_empty()
    }
}

impl<T: Ord> VecSortedSet<T> {
    /// The elements are strictly ascending.
    pub open spec fn wf(&self) -> bool {
        sorted(self@)
    }

    /// An empty set.
    pub fn new() -> (r: Self)
        ensures
            r@ == Seq::<T>::empty(),
            r.wf(),
    {
        VecSortedSet(Vec::new())
    }

    /// An empty set with room for `n` elements.
    pub fn with_capacity(n: usize) -> (r: Self)
        requires
            allocatable::<T>(n as int),
        ensures
            r@ == Seq::<T>::empty(),
            r.wf(),
    {
        VecSortedSet(Vec::with_capacity(n))
    }

    /// The number of elements the set has room for.
    pub fn capacity(&self) -> (r: usize)
        ensures
            r >= self@.len(),
    {
        vec_capacity(&self.0)
    }

    /// Makes room for `n` more elements.
    pub fn reserve(&mut self, n: usize)
        requires
            allocatable::<T>(old(self)@.len() + n),
        ensures
            final(self)@ == old(self)@,
    {
        self.0.reserve(n)
    }

    /// Gives unused room back.
    pub fn shrink_to_fit(&mut self)
        ensures
            final(self)@ == old(self)@,
    {
        vec_shrink_to_fit(&mut self.0)
    }

    /// Takes every element out.
    pub fn clear(&mut self)
        ensures
            final(self)@ == Seq::<T>::empty(),
            final(self).wf(),
    {
        self.0.clear()
    }

    /// Whether `e` is an element. O(log(len)).
    pub fn contains(&self, e: &T) -> (r: bool)
        requires
            total_order::<T>(),
            self.wf(),
        ensures
            r == self@.contains(*e),
    {
        match self.get(e) {
            Some(_) => true,
            None => false,
        }
    }

    /// The element that is `e`, if there is one. O(log(len)).
    pub fn get(&self, e: &T) -> (r: Option<&T>)
        requires
            total_order::<T>(),
            self.wf(),
        ensures
            match r {
                Some(x) => self@.contains(*e) && *x == *e,
                None => !self@.contains(*e),
            },
    {
        proof {
            lemma_holds_is_contains(self@, *e);
        }
        match search(&self.0, e) {
            Ok(i) => Some(&self.0[i]),
            Err(_) => None,
        }
    }

    /// The element that is `e`, if there is one, for writing. O(log(len)).
    ///
    /// What is written takes the element's place in the array. The set is
    /// well formed afterwards only if the caller wrote a value that keeps the
    /// array sorted.
    pub fn get_mut(&mut self, e: &T) -> (r: Option<&mut T>)
        requires
            total_order::<T>(),
            old(self).wf(),
        ensures
            match r {
                Some(x) => old(self)@.contains(*e) && *x == *e && final(self)@ == old(
                    self,
                )@.update(rank(old(self)@, *e), *final(x)),
                None => !old(self)@.contains(*e) && final(self)@ == old(self)@,
            },
    {
        proof {
            lemma_holds_is_contains(self@, *e);
        }
        match search(&self.0, e) {
            Ok(i) => Some(&mut self.0[i]),
            Err(_) => None,
        }
    }

    /// Puts `e` into the set and returns the element it replaces, if any.
    ///
    /// O(log(len)) when `e` is there already. O(len) for a new element,
    /// because all elements after it are shifted; inserting in ascending
    /// order avoids that.
    pub fn insert(&mut self, e: T) -> (r: Option<T>)
        requires
            total_order::<T>(),
            old(self).wf(),
        ensures
            final(self).wf(),
            final(self)@ == inserted(old(self)@, e),
            r == if old(self)@.contains(e) {
                Some(e)
            } else {
                None
            },
            forall|x: T| final(self)@.contains(x) <==> x == e || old(self)@.contains(x),
            final(self)@.len() == old(self)@.len() + if r is Some {
                0int
            } else {
                1int
            },
    {
        proof {
            lemma_holds_is_contains(self@, e);
            lemma_inserted(self@, e);
        }
        match search(&self.0, &e) {
            Ok(i) => {
                let ghost before = self.0@;
                self.0.push(e);
                let prior = self.0.swap_remove(i);
                assert(self.0@ =~= before);
                Some(prior)
            },
            Err(i) => {
                self.0.insert(i, e);
                None
            },
        }
    }

    /// Takes `e` out of the set and returns it, if it was there.
    ///
    /// O(log(len)) when `e` is not there. O(len) for removing an element,
    /// because all elements after it are shifted.
    pub fn remove(&mut self, e: &T) -> (r: Option<T>)
        requires
            total_order::<T>(),
            old(self).wf(),
        ensures
            final(self).wf(),
            final(self)@ == removed(old(self)@, *e),
            r == if old(self)@.contains(*e) {
                Some(*e)
            } else {
                None
            },
            forall|x: T| final(self)@.contains(x) <==> x != *e && old(self)@.contains(x),
            final(self)@.len() == old(self)@.len() - if r is Some {
                1int
            } else {
                0int
            },
    {
        proof {
            lemma_holds_is_contains(self@, *e);
            lemma_removed(self@, *e);
        }
        match search(&self.0, e) {
            Ok(i) => Some(self.0.remove(i)),
            Err(_) => None,
        }
    }

    /// Moves all elements of `other` to the end of this set's array, and
    /// leaves `other` empty.
    ///
    /// The arrays are joined as they are, not merged. The outcome is well
    /// formed if both sets were and every element of this set is below every
    /// element of `other`.
    pub fn append(&mut self, other: &mut VecSortedSet<T>)
        ensures
            final(self)@ == old(self)@ + old(other)@,
            final(other)@ == Seq::<T>::empty(),
            final(other).wf(),
            total_order::<T>() && old(self).wf() && old(other).wf() && (old(self)@.len() > 0
                && old(other)@.len() > 0 ==> lt(old(self)@.last(), old(other)@.first()))
                ==> final(self).wf(),
    {
        proof {
            if total_order::<T>() && self.wf() && other.wf() && (self@.len() > 0 && other@.len()
                > 0 ==> lt(self@.last(), other@.first())) {
                lemma_concat_sorted(self@, other@);
            }
        }
        self.0.append(&mut other.0)
    }

    /// Makes room for exactly `n` more elements.
    pub fn reserve_exact(&mut self, n: usize)
        requires
            allocatable::<T>(old(self)@.len() + n),
        ensures
            final(self)@ == old(self)@,
    {
        vec_reserve_exact(&mut self.0, n)
    }

    /// Takes the greatest element out and returns it.
    pub fn pop(&mut self) -> (r: Option<T>)
        ensures
            old(self)@.len() == 0 ==> r is None && final(self)@ == old(self)@,
            old(self)@.len() > 0 ==> r == Some(old(self)@.last()) && final(self)@ == old(
                self,
            )@.drop_last(),
            old(self).wf() ==> final(self).wf(),
    {
        proof {
            if self.wf() && self@.len() > 0 {
                lemma_subrange_sorted(self@, 0, self@.len() - 1);
            }
        }
        self.0.pop()
    }

    /// Keeps the first `n` elements and drops the others.
    pub fn truncate(&mut self, n: usize)
        ensures
            n <= old(self)@.len() ==> final(self)@ == old(self)@.take(n as int),
            n > old(self)@.len() ==> final(self)@ == old(self)@,
            old(self).wf() ==> final(self).wf(),
    {
        proof {
            if self.wf() && n <= self@.len() {
                lemma_subrange_sorted(self@, 0, n as int);
            }
        }
        self.0.truncate(n)
    }

    /// Splits the set at index `at`: the elements from there on leave it and
    /// are returned as a set of their own.
    pub fn split_off(&mut self, at: usize) -> (r: VecSortedSet<T>)
        requires
            at <= old(self)@.len(),
        ensures
            final(self)@ == old(self)@.subrange(0, at as int),
            r@ == old(self)@.subrange(at as int, old(self)@.len() as int),
            old(self).wf() ==> final(self).wf() && r.wf(),
    {
        proof {
            if self.wf() {
                lemma_subrange_sorted(self@, 0, at as int);
                lemma_subrange_sorted(self@, at as int, self@.len() as int);
            }
        }
        VecSortedSet(self.0.split_off(at))
    }

    /// Keeps the elements for which `f` answers `true` and drops the others,
    /// in one pass from the least to the greatest.
    pub fn retain<F: FnMut(&T) -> bool>(&mut self, f: F)
        requires
            old(self).wf(),
            forall|x: &T| old(self)@.contains(*x) ==> #[trigger] f.requires((x,)),
        ensures
            final(self).wf(),
            kept_by(f, old(self)@, final(self)@),
            forall|x: T| final(self)@.contains(x) ==> old(self)@.contains(x),
    {
        let ghost all = self@;
        retain_in(&mut self.0, f);
        proof {
            let key = |x: T| x;
            assert(all.map_values(key) =~= all);
            lemma_kept_by_sorted(f, key, all, self@);
            assert(self@.map_values(key) =~= self@);
        }
    }

    /// Whether the two sets have no element in common.
    pub fn is_disjoint(&self, other: &VecSortedSet<T>) -> (r: bool)
        requires
            total_order::<T>(),
            self.wf(),
            other.wf(),
        ensures
            r == (forall|x: T| !(self@.contains(x) && other@.contains(x))),
    {
        let mut common = self.intersection(other);
        let first = advance(&mut common);
        proof {
            lemma_intersection(self@, other@);
            let both = intersection_of(self@, other@);
            assert(both.as_ref().len() == both.len());
            if both.len() > 0 {
                assert(both.contains(both[0]));
                assert(self@.contains(both[0]) && other@.contains(both[0]));
            } else {
                assert forall|x: T| !(self@.contains(x) && other@.contains(x)) by {
                    assert(!both.contains(x));
                }
            }
        }
        first.is_none()
    }

    /// Whether every element of this set is an element of `other`.
    pub fn is_subset(&self, other: &VecSortedSet<T>) -> (r: bool)
        requires
            total_order::<T>(),
            self.wf(),
            other.wf(),
        ensures
            r == (forall|x: T| self@.contains(x) ==> other@.contains(x)),
    {
        let ghost a = self@;
        let ghost b = other@;
        let mut i: usize = 0;
        let mut j: usize = 0;
        loop
            invariant
                total_order::<T>(),
                a == self@,
                b == other@,
                sorted(a),
                sorted(b),
                i <= a.len(),
                j <= b.len(),
                forall|p: int| 0 <= p < i ==> b.contains(#[trigger] a[p]),
                forall|q: int, p: int|
                    0 <= q < j && i <= p < a.len() ==> lt(#[trigger] b[q], #[trigger] a[p]),
            decreases a.len() - i + b.len() - j,
        {
            if i >= self.0.len() {
                proof {
                    assert forall|x: T| a.contains(x) implies b.contains(x) by {
                        let p = a.index_of(x);
                        assert(b.contains(a[p]));
                    }
                }
                return true;
            }
            if j >= other.0.len() {
                proof {
                    assert(a.contains(a[i as int]));
                    if b.contains(a[i as int]) {
                        let q = b.index_of(a[i as int]);
                        assert(lt(b[q], a[i as int]));
                        lemma_trichotomy(b[q], a[i as int]);
                    }
                }
                return false;
            }
            proof {
                lemma_trichotomy(a[i as int], b[j as int]);
            }
            match compare(&self.0[i], &other.0[j]) {
                Comparison::Less => {
                    proof {
                        assert(a.contains(a[i as int]));
                        if b.contains(a[i as int]) {
                            let q = b.index_of(a[i as int]);
                            lemma_trichotomy(b[q], a[i as int]);
                            if q < j {
                                assert(lt(b[q], a[i as int]));
                            } else if q > j {
                                assert(lt(b[j as int], b[q]));
                                lemma_lt_transitive(a[i as int], b[j as int], b[q]);
                            }
                        }
                    }
                    return false;
                },
                Comparison::Equal => {
                    proof {
                        assert(b.contains(b[j as int]));
                        assert forall|q: int, p: int|
                            0 <= q < j + 1 && i + 1 <= p < a.len() implies lt(
                            #[trigger] b[q],
                            #[trigger] a[p],
                        ) by {
                            assert(lt(a[i as int], a[p]));
                        }
                    }
                    i = i + 1;
                },
                Comparison::Greater => {
                    proof {
                        assert forall|q: int, p: int|
                            0 <= q < j + 1 && i <= p < a.len() implies lt(
                            #[trigger] b[q],
                            #[trigger] a[p],
                        ) by {
                            if q == j && p > i {
                                assert(lt(a[i as int], a[p]));
                                lemma_lt_transitive(b[j as int], a[i as int], a[p]);
                            }
                        }
                    }
                },
            }
            j = j + 1;
        }
    }

    /// Whether every element of `other` is an element of this set.
    pub fn is_superset(&self, other: &VecSortedSet<T>) -> (r: bool)
        requires
            total_order::<T>(),
            self.wf(),
            other.wf(),
        ensures
            r == (forall|x: T| other@.contains(x) ==> self@.contains(x)),
    {
        other.is_subset(self)
    }

    /// Walks the union of the two sets in ascending order.
    pub fn union<'a>(&'a self, other: &'a VecSortedSet<T>) -> (r: Union<'a, T>)
        ensures
            r.left() == self@,
            r.right() == other@,
            r.remaining() == union_of(self@, other@).as_ref(),
    {
        Union::new(self.0.as_slice(), other.0.as_slice())
    }

    /// Walks the intersection of the two sets in ascending order.
    pub fn intersection<'a>(&'a self, other: &'a VecSortedSet<T>) -> (r: Intersection<'a, T>)
        ensures
            r.left() == self@,
            r.right() == other@,
            r.remaining() == intersection_of(self@, other@).as_ref(),
    {
        Intersection::new(self.0.as_slice(), other.0.as_slice())
    }

    /// Walks, in ascending order, the elements of this set that are not in
    /// `other`.
    pub fn difference<'a>(&'a self, other: &'a VecSortedSet<T>) -> (r: Difference<'a, T>)
        ensures
            r.left() == self@,
            r.right() == other@,
            r.remaining() == difference_of(self@, other@).as_ref(),
    {
        Difference::new(self.0.as_slice(), other.0.as_slice())
    }

    /// Walks, in ascending order, the elements that are in exactly one of
    /// the two sets.
    pub fn symmetric_difference<'a>(&'a self, other: &'a VecSortedSet<T>) -> (r:
        SymmetricDifference<'a, T>)
        ensures
            r.left() == self@,
            r.right() == other@,
            r.remaining() == symmetric_difference_of(self@, other@).as_ref(),
    {
        SymmetricDifference::new(self.0.as_slice(), other.0.as_slice())
    }

    /// Inserts every item that `iter` gives, in its order.
    pub fn extend<I: Iterator<Item = T>>(&mut self, iter: I)
        requires
            total_order::<T>(),
            old(self).wf(),
            iter.obeys_prophetic_iter_laws(),
            iter.decrease() is Some,
        ensures
            final(self).wf(),
            final(self)@ == inserted_all(old(self)@, iter.remaining()),
            forall|x: T| #[trigger]
                final(self)@.contains(x) <==> old(self)@.contains(x) || iter.remaining().contains(
                    x,
                ),
    {
        let mut iter = iter;
        let ghost all = iter.remaining();
        let ghost start = self@;
        loop
            invariant
                total_order::<T>(),
                self.wf(),
                iter.obeys_prophetic_iter_laws(),
                iter.decrease() is Some,
                inserted_all(self@, iter.remaining()) == inserted_all(start, all),
            ensures
                self.wf(),
                self@ == inserted_all(start, all),
            decreases iter.decrease()->0,
        {
            match advance(&mut iter) {
                Some(e) => {
                    self.insert(e);
                },
                None => {
                    break ;
                },
            }
        }
        proof {
            lemma_inserted_all(start, all);
        }
    }

    /// The set of the items that `iter` gives.
    pub fn from_iter<I: Iterator<Item = T>>(iter: I) -> (r: Self)
        requires
            total_order::<T>(),
            iter.obeys_prophetic_iter_laws(),
            iter.decrease() is Some,
        ensures
            r.wf(),
            r@ == inserted_all(Seq::<T>::empty(), iter.remaining()),
            forall|x: T| #[trigger] r@.contains(x) <==> iter.remaining().contains(x),
    {
        VecSortedSet::new().plus(iter)
    }

    /// The set with `i` added.
    pub fn inc(self, i: T) -> (r: Self)
        requires
            total_order::<T>(),
            self.wf(),
        ensures
            r.wf(),
            r@ == inserted(self@, i),
    {
        let mut this = self;
        this.insert(i);
        this
    }

    /// The set with `i` removed.
    pub fn dec(self, i: &T) -> (r: Self)
        requires
            total_order::<T>(),
            self.wf(),
        ensures
            r.wf(),
            r@ == removed(self@, *i),
    {
        let mut this = self;
        this.remove(i);
        this
    }

    /// The set with every item of `coll` poured in.
    pub fn plus<I: Iterator<Item = T>>(self, coll: I) -> (r: Self)
        requires
            total_order::<T>(),
            self.wf(),
            coll.obeys_prophetic_iter_laws(),
            coll.decrease() is Some,
        ensures
            r.wf(),
            r@ == inserted_all(self@, coll.remaining()),
            forall|x: T| #[trigger]
                r@.contains(x) <==> self@.contains(x) || coll.remaining().contains(x),
    {
        let mut this = self;
        this.extend(coll);
        this
    }

    /// The set emptied.
    pub fn zero(self) -> (r: Self)
        ensures
            r@ == Seq::<T>::empty(),
            r.wf(),
    {
        let mut this = self;
        this.clear();
        this
    }

    /// The set as it is: a sorted array keeps no room to give back here.
    pub fn shrink(self) -> (r: Self)
        ensures
            r@ == self@,
    {
        self
    }
}

/// What `|` gives is stated over views, in the contract of `bitor`; no formula
/// gives the set itself, so `bitor_spec` is left open.
impl<T: Ord> vstd::std_specs::ops::BitOrSpecImpl<VecSortedSet<T>> for VecSortedSet<T> {
    open spec fn obeys_bitor_spec() -> bool {
        false
    }

    open spec fn bitor_req(self, rhs: VecSortedSet<T>) -> bool {
        total_order::<T>() && self.wf() && rhs.wf()
    }

    open spec fn bitor_spec(self, rhs: VecSortedSet<T>) -> VecSortedSet<T> {
        arbitrary()
    }
}

impl<T: Ord> std::ops::BitOr<VecSortedSet<T>> for VecSortedSet<T> {
    type Output = VecSortedSet<T>;

    /// Union.
    fn bitor(self, other: VecSortedSet<T>) -> (r: VecSortedSet<T>)
        ensures
            r.wf(),
            r@ == union_of(self@, other@),
            forall|x: T| r@.contains(x) <==> self@.contains(x) || other@.contains(x),
    {
        let ghost a = self@;
        let ghost b = other@;
        let mut vec = Vec::new();
        let mut s1 = self.0.into_iter();
        let mut s2 = other.0.into_iter();
        let mut opt_e1 = advance(&mut s1);
        let mut opt_e2 = advance(&mut s2);
        proof {
            assert(pending(opt_e1, s1.remaining()) =~= a);
            assert(pending(opt_e2, s2.remaining()) =~= b);
            assert(vec@ + union_of(a, b) =~= union_of(a, b));
        }
        loop
            invariant_except_break
                opt_e1 is None ==> s1.remaining().len() == 0,
                opt_e2 is None ==> s2.remaining().len() == 0,
                vec@ + union_of(pending(opt_e1, s1.remaining()), pending(opt_e2, s2.remaining()))
                    == union_of(a, b),
            invariant
                total_order::<T>(),
                s1.obeys_prophetic_iter_laws(),
                s2.obeys_prophetic_iter_laws(),
                s1.decrease() is Some,
                s2.decrease() is Some,
            ensures
                s1.remaining().len() == 0 || s2.remaining().len() == 0,
                vec@ + s1.remaining() + s2.remaining() == union_of(a, b),
            decreases
                both(opt_e1, opt_e2),
                s1.decrease()->0 + s2.decrease()->0,
        {
            let ghost p1 = pending(opt_e1, s1.remaining());
            let ghost p2 = pending(opt_e2, s2.remaining());
            let ghost out = vec@;
            match (opt_e1, opt_e2) {
                (None, None) => {
                    break ;
                },
                (Some(e1), None) => {
                    vec.push(e1);
                    assert(vec@ + s1.remaining() =~= out + p1);
                    break ;
                },
                (None, Some(e2)) => {
                    vec.push(e2);
                    assert(vec@ + s2.remaining() =~= out + p2);
                    break ;
                },
                (Some(e1), Some(e2)) => {
                    proof {
                        lemma_trichotomy(e1, e2);
                        assert(p1.drop_first() =~= s1.remaining());
                        assert(p2.drop_first() =~= s2.remaining());
                    }
                    match compare(&e1, &e2) {
                        Comparison::Less => {
                            opt_e1 = advance(&mut s1);
                            opt_e2 = Some(e2);
                            vec.push(e1);
                            assert(pending(opt_e1, s1.remaining()) =~= p1.drop_first());
                            assert(pending(opt_e2, s2.remaining()) =~= p2);
                        },
                        Comparison::Equal => {
                            opt_e1 = advance(&mut s1);
                            opt_e2 = advance(&mut s2);
                            vec.push(e1);
                            assert(pending(opt_e1, s1.remaining()) =~= p1.drop_first());
                            assert(pending(opt_e2, s2.remaining()) =~= p2.drop_first());
                        },
                        Comparison::Greater => {
                            opt_e1 = Some(e1);
                            opt_e2 = advance(&mut s2);
                            vec.push(e2);
                            assert(pending(opt_e1, s1.remaining()) =~= p1);
                            assert(pending(opt_e2, s2.remaining()) =~= p2.drop_first());
                        },
                    }
                    assert(vec@ + union_of(
                        pending(opt_e1, s1.remaining()),
                        pending(opt_e2, s2.remaining()),
                    ) =~= out + union_of(p1, p2));
                },
            }
        }
        push_rest(&mut vec, s1);
        push_rest(&mut vec, s2);
        proof {
            lemma_union(a, b);
        }
        VecSortedSet(vec)
    }
}

/// What `&` gives is stated over views, in the contract of `bitand`; no formula
/// gives the set itself, so `bitand_spec` is left open.
impl<T: Ord> vstd::std_specs::ops::BitAndSpecImpl<VecSortedSet<T>> for VecSortedSet<T> {
    open spec fn obeys_bitand_spec() -> bool {
        false
    }

    open spec fn bitand_req(self, rhs: VecSortedSet<T>) -> bool {
        total_order::<T>() && self.wf() && rhs.wf()
    }

    open spec fn bitand_spec(self, rhs: VecSortedSet<T>) -> VecSortedSet<T> {
        arbitrary()
    }
}

impl<T: Ord> std::ops::BitAnd<VecSortedSet<T>> for VecSortedSet<T> {
    type Output = VecSortedSet<T>;

    /// Intersection.
    fn bitand(self, other: VecSortedSet<T>) -> (r: VecSortedSet<T>)
        ensures
            r.wf(),
            r@ == intersection_of(self@, other@),
            forall|x: T| r@.contains(x) <==> self@.contains(x) && other@.contains(x),
    {
        let ghost a = self@;
        let ghost b = other@;
        let mut vec = Vec::new();
        let mut s1 = self.0.into_iter();
        let mut s2 = other.0.into_iter();
        let mut opt_e1 = advance(&mut s1);
        let mut opt_e2 = advance(&mut s2);
        proof {
            assert(pending(opt_e1, s1.remaining()) =~= a);
            assert(pending(opt_e2, s2.remaining()) =~= b);
            assert(vec@ + intersection_of(a, b) =~= intersection_of(a, b));
        }
        loop
            invariant_except_break
                opt_e1 is None ==> s1.remaining().len() == 0,
                opt_e2 is None ==> s2.remaining().len() == 0,
                vec@ + intersection_of(
                    pending(opt_e1, s1.remaining()),
                    pending(opt_e2, s2.remaining()),
                ) == intersection_of(a, b),
            invariant
                total_order::<T>(),
                s1.obeys_prophetic_iter_laws(),
                s2.obeys_prophetic_iter_laws(),
                s1.decrease() is Some,
                s2.decrease() is Some,
            ensures
                vec@ == intersection_of(a, b),
            decreases both(opt_e1, opt_e2), s1.decrease()->0 + s2.decrease()->0,
        {
            let ghost p1 = pending(opt_e1, s1.remaining());
            let ghost p2 = pending(opt_e2, s2.remaining());
            let ghost out = vec@;
            match (opt_e1, opt_e2) {
                (Some(e1), Some(e2)) => {
                    proof {
                        lemma_trichotomy(e1, e2);
                        assert(p1.drop_first() =~= s1.remaining());
                        assert(p2.drop_first() =~= s2.remaining());
                    }
                    match compare(&e1, &e2) {
                        Comparison::Less => {
                            opt_e1 = advance(&mut s1);
                            opt_e2 = Some(e2);
                            assert(pending(opt_e1, s1.remaining()) =~= p1.drop_first());
                            assert(pending(opt_e2, s2.remaining()) =~= p2);
                        },
                        Comparison::Equal => {
                            opt_e1 = advance(&mut s1);
                            opt_e2 = advance(&mut s2);
                            vec.push(e1);
                            assert(pending(opt_e1, s1.remaining()) =~= p1.drop_first());
                            assert(pending(opt_e2, s2.remaining()) =~= p2.drop_first());
                        },
                        Comparison::Greater => {
                            opt_e1 = Some(e1);
                            opt_e2 = advance(&mut s2);
                            assert(pending(opt_e1, s1.remaining()) =~= p1);
                            assert(pending(opt_e2, s2.remaining()) =~= p2.drop_first());
                        },
                    }
                    assert(vec@ + intersection_of(
                        pending(opt_e1, s1.remaining()),
                        pending(opt_e2, s2.remaining()),
                    ) =~= out + intersection_of(p1, p2));
                },
                _ => {
                    assert(p1.len() == 0 || p2.len() == 0);
                    assert(out + intersection_of(p1, p2) =~= out);
                    break ;
                },
            }
        }
        proof {
            lemma_intersection(a, b);
        }
        VecSortedSet(vec)
    }
}

/// What `-` gives is stated over views, in the contract of `sub`; no formula
/// gives the set itself, so `sub_spec` is left open.
impl<T: Ord> vstd::std_specs::ops::SubSpecImpl<VecSortedSet<T>> for VecSortedSet<T> {
    open spec fn obeys_sub_spec() -> bool {
        false
    }

    open spec fn sub_req(self, rhs: VecSortedSet<T>) -> bool {
        total_order::<T>() && self.wf() && rhs.wf()
    }

    open spec fn sub_spec(self, rhs: VecSortedSet<T>) -> VecSortedSet<T> {
        arbitrary()
    }
}

impl<T: Ord> std::ops::Sub<VecSortedSet<T>> for VecSortedSet<T> {
    type Output = VecSortedSet<T>;

    /// Difference.
    fn sub(self, other: VecSortedSet<T>) -> (r: VecSortedSet<T>)
        ensures
            r.wf(),
            r@ == difference_of(self@, other@),
            forall|x: T| r@.contains(x) <==> self@.contains(x) && !other@.contains(x),
    {
        let ghost a = self@;
        let ghost b = other@;
        let mut vec = Vec::new();
        let mut s1 = self.0.into_iter();
        let mut s2 = other.0.into_iter();
        let mut opt_e1 = advance(&mut s1);
        let mut opt_e2 = advance(&mut s2);
        proof {
            assert(pending(opt_e1, s1.remaining()) =~= a);
            assert(pending(opt_e2, s2.remaining()) =~= b);
            assert(vec@ + difference_of(a, b) =~= difference_of(a, b));
        }
        loop
            invariant_except_break
                opt_e1 is None ==> s1.remaining().len() == 0,
                opt_e2 is None ==> s2.remaining().len() == 0,
                vec@ + difference_of(
                    pending(opt_e1, s1.remaining()),
                    pending(opt_e2, s2.remaining()),
                ) == difference_of(a, b),
            invariant
                total_order::<T>(),
                s1.obeys_prophetic_iter_laws(),
                s2.obeys_prophetic_iter_laws(),
                s1.decrease() is Some,
                s2.decrease() is Some,
            ensures
                vec@ + s1.remaining() == difference_of(a, b),
            decreases both(opt_e1, opt_e2), s1.decrease()->0 + s2.decrease()->0,
        {
            let ghost p1 = pending(opt_e1, s1.remaining());
            let ghost p2 = pending(opt_e2, s2.remaining());
            let ghost out = vec@;
            match (opt_e1, opt_e2) {
                (None, _) => {
                    assert(out + s1.remaining() =~= out + difference_of(p1, p2));
                    break ;
                },
                (Some(e1), None) => {
                    vec.push(e1);
                    assert(vec@ + s1.remaining() =~= out + p1);
                    break ;
                },
                (Some(e1), Some(e2)) => {
                    proof {
                        lemma_trichotomy(e1, e2);
                        assert(p1.drop_first() =~= s1.remaining());
                        assert(p2.drop_first() =~= s2.remaining());
                    }
                    match compare(&e1, &e2) {
                        Comparison::Less => {
                            opt_e1 = advance(&mut s1);
                            opt_e2 = Some(e2);
                            vec.push(e1);
                            assert(pending(opt_e1, s1.remaining()) =~= p1.drop_first());
                            assert(pending(opt_e2, s2.remaining()) =~= p2);
                        },
                        Comparison::Equal => {
                            opt_e1 = advance(&mut s1);
                            opt_e2 = advance(&mut s2);
                            assert(pending(opt_e1, s1.remaining()) =~= p1.drop_first());
                            assert(pending(opt_e2, s2.remaining()) =~= p2.drop_first());
                        },
                        Comparison::Greater => {
                            opt_e1 = Some(e1);
                            opt_e2 = advance(&mut s2);
                            assert(pending(opt_e1, s1.remaining()) =~= p1);
                            assert(pending(opt_e2, s2.remaining()) =~= p2.drop_first());
                        },
                    }
                    assert(vec@ + difference_of(
                        pending(opt_e1, s1.remaining()),
                        pending(opt_e2, s2.remaining()),
                    ) =~= out + difference_of(p1, p2));
                },
            }
        }
        push_rest(&mut vec, s1);
        proof {
            lemma_difference(a, b);
        }
        VecSortedSet(vec)
    }
}

/// What `^` gives is stated over views, in the contract of `bitxor`; no formula
/// gives the set itself, so `bitxor_spec` is left open.
impl<T: Ord> vstd::std_specs::ops::BitXorSpecImpl<VecSortedSet<T>> for VecSortedSet<T> {
    open spec fn obeys_bitxor_spec() -> bool {
        false
    }

    open spec fn bitxor_req(self, rhs: VecSortedSet<T>) -> bool {
        total_order::<T>() && self.wf() && rhs.wf()
    }

    open spec fn bitxor_spec(self, rhs: VecSortedSet<T>) -> VecSortedSet<T> {
        arbitrary()
    }
}

impl<T: Ord> std::ops::BitXor<VecSortedSet<T>> for VecSortedSet<T> {
    type Output = VecSortedSet<T>;

    /// Symmetric difference.
    fn bitxor(self, other: VecSortedSet<T>) -> (r: VecSortedSet<T>)
        ensures
            r.wf(),
            r@ == symmetric_difference_of(self@, other@),
            forall|x: T|
                r@.contains(x) <==> (self@.contains(x) && !other@.contains(x)) || (
                other@.contains(x) && !self@.contains(x)),
    {
        let ghost a = self@;
        let ghost b = other@;
        let mut vec = Vec::new();
        let mut s1 = self.0.into_iter();
        let mut s2 = other.0.into_iter();
        let mut opt_e1 = advance(&mut s1);
        let mut opt_e2 = advance(&mut s2);
        proof {
            assert(pending(opt_e1, s1.remaining()) =~= a);
            assert(pending(opt_e2, s2.remaining()) =~= b);
            assert(vec@ + symmetric_difference_of(a, b) =~= symmetric_difference_of(a, b));
        }
        loop
            invariant_except_break
                opt_e1 is None ==> s1.remaining().len() == 0,
                opt_e2 is None ==> s2.remaining().len() == 0,
                vec@ + symmetric_difference_of(
                    pending(opt_e1, s1.remaining()),
                    pending(opt_e2, s2.remaining()),
                ) == symmetric_difference_of(a, b),
            invariant
                total_order::<T>(),
                s1.obeys_prophetic_iter_laws(),
                s2.obeys_prophetic_iter_laws(),
                s1.decrease() is Some,
                s2.decrease() is Some,
            ensures
                s1.remaining().len() == 0 || s2.remaining().len() == 0,
                vec@ + s1.remaining() + s2.remaining() == symmetric_difference_of(a, b),
            decreases both(opt_e1, opt_e2), s1.decrease()->0 + s2.decrease()->0,
        {
            let ghost p1 = pending(opt_e1, s1.remaining());
            let ghost p2 = pending(opt_e2, s2.remaining());
            let ghost out = vec@;
            match (opt_e1, opt_e2) {
                (None, None) => {
                    break ;
                },
                (Some(e1), None) => {
                    vec.push(e1);
                    assert(vec@ + s1.remaining() =~= out + p1);
                    break ;
                },
                (None, Some(e2)) => {
                    vec.push(e2);
                    assert(vec@ + s2.remaining() =~= out + p2);
                    break ;
                },
                (Some(e1), Some(e2)) => {
                    proof {
                        lemma_trichotomy(e1, e2);
                        assert(p1.drop_first() =~= s1.remaining());
                        assert(p2.drop_first() =~= s2.remaining());
                    }
                    match compare(&e1, &e2) {
                        Comparison::Less => {
                            opt_e1 = advance(&mut s1);
                            opt_e2 = Some(e2);
                            vec.push(e1);
                            assert(pending(opt_e1, s1.remaining()) =~= p1.drop_first());
                            assert(pending(opt_e2, s2.remaining()) =~= p2);
                        },
                        Comparison::Equal => {
                            opt_e1 = advance(&mut s1);
                            opt_e2 = advance(&mut s2);
                            assert(pending(opt_e1, s1.remaining()) =~= p1.drop_first());
                            assert(pending(opt_e2, s2.remaining()) =~= p2.drop_first());
                        },
                        Comparison::Greater => {
                            opt_e1 = Some(e1);
                            opt_e2 = advance(&mut s2);
                            vec.push(e2);
                            assert(pending(opt_e1, s1.remaining()) =~= p1);
                            assert(pending(opt_e2, s2.remaining()) =~= p2.drop_first());
                        },
                    }
                    assert(vec@ + symmetric_difference_of(
                        pending(opt_e1, s1.remaining()),
                        pending(opt_e2, s2.remaining()),
                    ) =~= out + symmetric_difference_of(p1, p2));
                },
            }
        }
        push_rest(&mut vec, s1);
        push_rest(&mut vec, s2);
        proof {
            lemma_symmetric_difference(a, b);
        }
        VecSortedSet(vec)
    }
}

/// `c` holds a clone of each element of `s`, in the same order.
pub open spec fn clones_of<T: Clone>(s: Seq<&T>, c: Seq<T>) -> bool {
    c.len() == s.len() && forall|i: int| 0 <= i < s.len() ==> cloned::<T>(*s[i], #[trigger] c[i])
}

/// A clone of a `T` is the value it was cloned from.
pub open spec fn faithful_clone<T: Clone>() -> bool {
    forall|a: T, b: T| #[trigger] cloned::<T>(a, b) ==> a == b
}

/// Clones of a sequence are that sequence, where clones are faithful.
pub proof fn lemma_faithful_clones<T: Clone>(s: Seq<&T>, c: Seq<T>)
    requires
        faithful_clone::<T>(),
        clones_of(s, c),
    ensures
        c == s.unref(),
{
    assert(c =~= s.unref());
}

/// The set of the clones of what `iter` gives.
pub fn collect_cloned<'a, T: Ord + Clone + 'a, I: Iterator<Item = &'a T>>(iter: I) -> (r:
    VecSortedSet<T>)
    requires
        total_order::<T>(),
        iter.obeys_prophetic_iter_laws(),
        iter.decrease() is Some,
    ensures
        r.wf(),
        exists|c: Seq<T>| #[trigger]
            clones_of(iter.remaining(), c) && r@ == inserted_all(Seq::<T>::empty(), c),
        faithful_clone::<T>() ==> r@ == inserted_all(Seq::<T>::empty(), iter.remaining().unref()),
{
    let mut iter = iter;
    let ghost all = iter.remaining();
    let ghost mut c: Seq<T> = Seq::empty();
    let ghost mut n: int = 0;
    let mut out: VecSortedSet<T> = VecSortedSet::new();
    loop
        invariant
            total_order::<T>(),
            out.wf(),
            iter.obeys_prophetic_iter_laws(),
            iter.decrease() is Some,
            0 <= n <= all.len(),
            iter.remaining() == all.skip(n),
            clones_of(all.take(n), c),
            out@ == inserted_all(Seq::<T>::empty(), c),
        ensures
            out.wf(),
            clones_of(all, c),
            out@ == inserted_all(Seq::<T>::empty(), c),
        decreases iter.decrease()->0,
    {
        match advance(&mut iter) {
            Some(e) => {
                let x = e.clone();
                proof {
                    assert(e == all[n]);
                    assert(all.skip(n).drop_first() =~= all.skip(n + 1));
                    lemma_inserted_all_push(Seq::<T>::empty(), c, x);
                    let c1 = c.push(x);
                    assert forall|i: int| 0 <= i < n + 1 implies cloned::<T>(
                        *all.take(n + 1)[i],
                        #[trigger] c1[i],
                    ) by {
                        if i < n {
                            assert(all.take(n)[i] == all.take(n + 1)[i]);
                            assert(c[i] == c1[i]);
                        }
                    }
                    c = c1;
                    n = n + 1;
                }
                out.insert(x);
            },
            None => {
                proof {
                    assert(all.take(n) =~= all);
                }
                break ;
            },
        }
    }
    proof {
        if faithful_clone::<T>() {
            lemma_faithful_clones(all, c);
        }
    }
    out
}

/// What `|` gives is stated over views, in the contract of `bitor`; no formula
/// gives the set itself, so `bitor_spec` is left open.
impl<'a, 'b, T: Ord + Clone> vstd::std_specs::ops::BitOrSpecImpl<&'b VecSortedSet<T>> for &'a VecSortedSet<T> {
    open spec fn obeys_bitor_spec() -> bool {
        false
    }

    open spec fn bitor_req(self, rhs: &'b VecSortedSet<T>) -> bool {
        total_order::<T>() && self.wf() && rhs.wf()
    }

    open spec fn bitor_spec(self, rhs: &'b VecSortedSet<T>) -> VecSortedSet<T> {
        arbitrary()
    }
}

impl<'a, 'b, T: Ord + Clone> std::ops::BitOr<&'b VecSortedSet<T>> for &'a VecSortedSet<T> {
    type Output = VecSortedSet<T>;

    /// Union with cloned members.
    fn bitor(self, other: &'b VecSortedSet<T>) -> (r: VecSortedSet<T>)
        ensures
            r.wf(),
            exists|c: Seq<T>| #[trigger]
                clones_of(union_of(self@, other@).as_ref(), c) && r@ == inserted_all(
                    Seq::<T>::empty(),
                    c,
                ),
            faithful_clone::<T>() ==> r@ == union_of(self@, other@),
    {
        proof {
            let u = union_of(self@, other@);
            lemma_union(self@, other@);
            assert(u.as_ref().unref() =~= u);
            assert(Seq::<T>::empty() + u =~= u);
            lemma_inserted_all_ascending(Seq::<T>::empty(), u);
        }
        collect_cloned(self.union(other))
    }
}

/// What `&` gives is stated over views, in the contract of `bitand`; no formula
/// gives the set itself, so `bitand_spec` is left open.
impl<'a, 'b, T: Ord + Clone> vstd::std_specs::ops::BitAndSpecImpl<&'b VecSortedSet<T>> for &'a VecSortedSet<T> {
    open spec fn obeys_bitand_spec() -> bool {
        false
    }

    open spec fn bitand_req(self, rhs: &'b VecSortedSet<T>) -> bool {
        total_order::<T>() && self.wf() && rhs.wf()
    }

    open spec fn bitand_spec(self, rhs: &'b VecSortedSet<T>) -> VecSortedSet<T> {
        arbitrary()
    }
}

impl<'a, 'b, T: Ord + Clone> std::ops::BitAnd<&'b VecSortedSet<T>> for &'a VecSortedSet<T> {
    type Output = VecSortedSet<T>;

    /// Intersection with cloned members.
    fn bitand(self, other: &'b VecSortedSet<T>) -> (r: VecSortedSet<T>)
        ensures
            r.wf(),
            exists|c: Seq<T>| #[trigger]
                clones_of(intersection_of(self@, other@).as_ref(), c) && r@ == inserted_all(
                    Seq::<T>::empty(),
                    c,
                ),
            faithful_clone::<T>() ==> r@ == intersection_of(self@, other@),
    {
        proof {
            let u = intersection_of(self@, other@);
            lemma_intersection(self@, other@);
            assert(u.as_ref().unref() =~= u);
            assert(Seq::<T>::empty() + u =~= u);
            lemma_inserted_all_ascending(Seq::<T>::empty(), u);
        }
        collect_cloned(self.intersection(other))
    }
}

/// What `-` gives is stated over views, in the contract of `sub`; no formula
/// gives the set itself, so `sub_spec` is left open.
impl<'a, 'b, T: Ord + Clone> vstd::std_specs::ops::SubSpecImpl<&'b VecSortedSet<T>> for &'a VecSortedSet<T> {
    open spec fn obeys_sub_spec() -> bool {
        false
    }

    open spec fn sub_req(self, rhs: &'b VecSortedSet<T>) -> bool {
        total_order::<T>() && self.wf() && rhs.wf()
    }

    open spec fn sub_spec(self, rhs: &'b VecSortedSet<T>) -> VecSortedSet<T> {
        arbitrary()
    }
}

impl<'a, 'b, T: Ord + Clone> std::ops::Sub<&'b VecSortedSet<T>> for &'a VecSortedSet<T> {
    type Output = VecSortedSet<T>;

    /// Difference with cloned members.
    fn sub(self, other: &'b VecSortedSet<T>) -> (r: VecSortedSet<T>)
        ensures
            r.wf(),
            exists|c: Seq<T>| #[trigger]
                clones_of(difference_of(self@, other@).as_ref(), c) && r@ == inserted_all(
                    Seq::<T>::empty(),
                    c,
                ),
            faithful_clone::<T>() ==> r@ == difference_of(self@, other@),
    {
        proof {
            let u = difference_of(self@, other@);
            lemma_difference(self@, other@);
            assert(u.as_ref().unref() =~= u);
            assert(Seq::<T>::empty() + u =~= u);
            lemma_inserted_all_ascending(Seq::<T>::empty(), u);
        }
        collect_cloned(self.difference(other))
    }
}

/// What `^` gives is stated over views, in the contract of `bitxor`; no formula
/// gives the set itself, so `bitxor_spec` is left open.
impl<'a, 'b, T: Ord + Clone> vstd::std_specs::ops::BitXorSpecImpl<&'b VecSortedSet<T>> for &'a VecSortedSet<T> {
    open spec fn obeys_bitxor_spec() -> bool {
        false
    }

    open spec fn bitxor_req(self, rhs: &'b VecSortedSet<T>) -> bool {
        total_order::<T>() && self.wf() && rhs.wf()
    }

    open spec fn bitxor_spec(self, rhs: &'b VecSortedSet<T>) -> VecSortedSet<T> {
        arbitrary()
    }
}

impl<'a, 'b, T: Ord + Clone> std::ops::BitXor<&'b VecSortedSet<T>> for &'a VecSortedSet<T> {
    type Output = VecSortedSet<T>;

    /// Symmetric difference with cloned members.
    fn bitxor(self, other: &'b VecSortedSet<T>) -> (r: VecSortedSet<T>)
        ensures
            r.wf(),
            exists|c: Seq<T>| #[trigger]
                clones_of(symmetric_difference_of(self@, other@).as_ref(), c) && r@ == inserted_all(
                    Seq::<T>::empty(),
                    c,
                ),
            faithful_clone::<T>() ==> r@ == symmetric_difference_of(self@, other@),
    {
        proof {
            let u = symmetric_difference_of(self@, other@);
            lemma_symmetric_difference(self@, other@);
            assert(u.as_ref().unref() =~= u);
            assert(Seq::<T>::empty() + u =~= u);
            lemma_inserted_all_ascending(Seq::<T>::empty(), u);
        }
        collect_cloned(self.symmetric_difference(other))
    }
}

/// Indexing asks that the element is there.
impl<'a, T: Ord> vstd::std_specs::core::IndexSpecImpl<&'a T> for VecSortedSet<T> {
    open spec fn index_req(&self, index: &&'a T) -> bool {
        total_order::<T>() && self.wf() && self@.contains(**index)
    }
}

impl<'a, T: Ord> std::ops::Index<&'a T> for VecSortedSet<T> {
    type Output = T;

    /// The element that is `k`, which must be in the set.
    fn index(&self, k: &'a T) -> (r: &T)
        ensures
            *r == *k,
    {
        self.get(k).expect("no entry found for key")
    }
}

impl<T> IntoIterator for VecSortedSet<T> {
    type Item = T;

    type IntoIter = IntoIter<T>;

    fn into_iter(self) -> (r: IntoIter<T>)
        ensures
            r.remaining() == self@,
            r.obeys_prophetic_iter_laws(),
            r.decrease() is Some,
    {
        self.0.into_iter()
    }
}

impl<'a, T: 'a> IntoIterator for &'a VecSortedSet<T> {
    type Item = &'a T;

    type IntoIter = std::slice::Iter<'a, T>;

    fn into_iter(self) -> (r: std::slice::Iter<'a, T>)
        ensures
            r.remaining() == self@.as_ref(),
            r.obeys_prophetic_iter_laws(),
            r.decrease() is Some,
    {
        self.0.iter()
    }
}

} // verus!
