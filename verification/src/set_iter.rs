//! Lazy set algebra: iterators that merge-join two sorted slices.
use crate::merge_join::difference_of;
use crate::merge_join::intersection_of;
use crate::merge_join::lemma_difference_len;
use crate::merge_join::lemma_intersection_len;
use crate::merge_join::lemma_symmetric_difference_len;
use crate::merge_join::lemma_union_len;
use crate::merge_join::symmetric_difference_of;
use crate::merge_join::union_of;
use crate::order::Comparison;
use crate::order::compare;
use crate::order::lemma_trichotomy;
use crate::order::total_order;
use std::cmp::Ordering;
use vstd::prelude::*;
use vstd::std_specs::cmp::OrdSpec;

verus! {

/// Parts a slice into its first element and the rest.
pub fn split_head<'a, T>(s: &'a [T]) -> (r: (Option<&'a T>, &'a [T]))
    ensures
        s@.len() == 0 ==> r.0 is None && r.1@ == s@,
        s@.len() > 0 ==> r.0 == Some(&s@[0]) && r.1@ == s@.drop_first(),
{
    if s.len() == 0 {
        (None, s)
    } else {
        let (head, tail) = s.split_at(1);
        assert(tail@ =~= s@.drop_first());
        (Some(&head[0]), tail)
    }
}

/// Compares two heads, of which either may be missing: `short` where the
/// first is missing, else `long` where the second is.
pub fn cmp_opt<T: Ord>(x: Option<&T>, y: Option<&T>, short: Ordering, long: Ordering) -> (r:
    Ordering)
    ensures
        x is None ==> r == short,
        x is Some && y is None ==> r == long,
        total_order::<T>() ==> r == match (x, y) {
            (None, _) => short,
            (_, None) => long,
            (Some(x1), Some(y1)) => x1.cmp_spec(y1),
        },
{
    proof {
        reveal(total_order);
    }
    match (x, y) {
        (None, _) => short,
        (_, None) => long,
        (Some(x1), Some(y1)) => x1.cmp(y1),
    }
}

/// The union of two sets, element by element.
#[derive(Clone)]
pub struct Union<'a, T: 'a> {
    this: &'a [T],
    that: &'a [T],
}

impl<'a, T> Union<'a, T> {
    /// What the walk has left of the first set.
    pub closed spec fn left(&self) -> Seq<T> {
        self.this@
    }

    /// What the walk has left of the second set.
    pub closed spec fn right(&self) -> Seq<T> {
        self.that@
    }

    /// A walk over the union of two sorted slices.
    pub fn new(this: &'a [T], that: &'a [T]) -> (r: Self)
        ensures
            r.left() == this@,
            r.right() == that@,
    {
        Union { this, that }
    }
}

impl<'a, T: Ord> Union<'a, T> {
    /// Bounds on the number of elements still to come: at least as many as
    /// the longer side has left, at most as many as both sides together. The
    /// upper bound is missing where that sum does not fit a `usize`.
    pub fn size_hint(&self) -> (r: (usize, Option<usize>))
        ensures
            r.0 == if self.left().len() >= self.right().len() {
                self.left().len()
            } else {
                self.right().len()
            },
            r.1 == if self.left().len() + self.right().len() <= usize::MAX {
                Some((self.left().len() + self.right().len()) as usize)
            } else {
                None
            },
            r.0 <= union_of(self.left(), self.right()).len(),
            r.1 matches Some(n) ==> union_of(self.left(), self.right()).len() <= n,
    {
        proof {
            lemma_union_len(self.left(), self.right());
        }
        let a = self.this.len();
        let b = self.that.len();
        (if a >= b { a } else { b }, a.checked_add(b))
    }
}

impl<'a, T: Ord> vstd::std_specs::iter::IteratorSpecImpl for Union<'a, T> {
    open spec fn obeys_prophetic_iter_laws(&self) -> bool {
        total_order::<T>()
    }

    open spec fn remaining(&self) -> Seq<&'a T> {
        union_of(self.left(), self.right()).as_ref()
    }

    open spec fn will_return_none(&self) -> bool {
        true
    }

    open spec fn decrease(&self) -> Option<nat> {
        Some(self.left().len() + self.right().len())
    }

    open spec fn initial_value_relation(&self, init: &Self) -> bool {
        init.left() == self.left() && init.right() == self.right()
    }

    open spec fn peek(&self, index: int) -> Option<&'a T> {
        None
    }
}

impl<'a, T: Ord> Iterator for Union<'a, T> {
    type Item = &'a T;

    fn next(&mut self) -> (r: Option<&'a T>) {
        let ghost a = self.left();
        let ghost b = self.right();
        let (h1, rest1) = split_head(self.this);
        let (h2, rest2) = split_head(self.that);
        proof {
            if total_order::<T>() && a.len() > 0 && b.len() > 0 {
                lemma_trichotomy(a[0], b[0]);
            }
        }
        match cmp_opt(h1, h2, Ordering::Greater, Ordering::Less) {
            Ordering::Less => {
                self.this = rest1;
                assert(total_order::<T>() ==> union_of(a, b).as_ref().drop_first() =~= union_of(
                    self.left(),
                    self.right(),
                ).as_ref());
                h1
            },
            Ordering::Equal => {
                self.this = rest1;
                self.that = rest2;
                assert(total_order::<T>() ==> union_of(a, b).as_ref().drop_first() =~= union_of(
                    self.left(),
                    self.right(),
                ).as_ref());
                h1
            },
            Ordering::Greater => {
                self.that = rest2;
                assert(total_order::<T>() ==> a.len() > 0 || b.len() > 0 ==> union_of(
                    a,
                    b,
                ).as_ref().drop_first() =~= union_of(self.left(), self.right()).as_ref());
                h2
            },
        }
    }
}

/// The intersection of two sets, element by element.
#[derive(Clone)]
pub struct Intersection<'a, T: 'a> {
    this: &'a [T],
    that: &'a [T],
}

impl<'a, T> Intersection<'a, T> {
    /// What the walk has left of the first set.
    pub closed spec fn left(&self) -> Seq<T> {
        self.this@
    }

    /// What the walk has left of the second set.
    pub closed spec fn right(&self) -> Seq<T> {
        self.that@
    }

    /// A walk over two sorted slices.
    pub fn new(this: &'a [T], that: &'a [T]) -> (r: Self)
        ensures
            r.left() == this@,
            r.right() == that@,
    {
        Intersection { this, that }
    }
}

impl<'a, T: Ord> vstd::std_specs::iter::IteratorSpecImpl for Intersection<'a, T> {
    open spec fn obeys_prophetic_iter_laws(&self) -> bool {
        total_order::<T>()
    }

    open spec fn remaining(&self) -> Seq<&'a T> {
        intersection_of(self.left(), self.right()).as_ref()
    }

    open spec fn will_return_none(&self) -> bool {
        true
    }

    open spec fn decrease(&self) -> Option<nat> {
        Some(self.left().len() + self.right().len())
    }

    open spec fn initial_value_relation(&self, init: &Self) -> bool {
        init.left() == self.left() && init.right() == self.right()
    }

    open spec fn peek(&self, index: int) -> Option<&'a T> {
        None
    }
}

impl<'a, T: Ord> Intersection<'a, T> {
    /// Bounds on the number of elements still to come: at most as many as
    /// the shorter side has left.
    pub fn size_hint(&self) -> (r: (usize, Option<usize>))
        ensures
            r.0 == 0,
            r.1 == Some(
                if self.left().len() <= self.right().len() {
                    self.left().len() as usize
                } else {
                    self.right().len() as usize
                },
            ),
            r.1 matches Some(n) && intersection_of(self.left(), self.right()).len() <= n,
    {
        proof {
            lemma_intersection_len(self.left(), self.right());
        }
        let a = self.this.len();
        let b = self.that.len();
        (0, Some(if a <= b { a } else { b }))
    }
}

impl<'a, T: Ord> Iterator for Intersection<'a, T> {
    type Item = &'a T;

    fn next(&mut self) -> (r: Option<&'a T>) {
        let ghost a = self.left();
        let ghost b = self.right();
        loop
            invariant
                a == old(self).left(),
                b == old(self).right(),
                total_order::<T>() ==> intersection_of(self.left(), self.right())
                    == intersection_of(a, b),
                self.left().len() + self.right().len() <= a.len() + b.len(),
            decreases self.left().len() + self.right().len(),
        {
            let ghost a1 = self.left();
            let ghost b1 = self.right();
            let (h1, rest1) = split_head(self.this);
            let (h2, rest2) = split_head(self.that);
            match (h1, h2) {
                (None, _) => {
                    assert(total_order::<T>() ==> intersection_of(a, b).as_ref() =~= Seq::<
                        &'a T,
                    >::empty());
                    return None;
                },
                (_, None) => {
                    assert(total_order::<T>() ==> intersection_of(a, b).as_ref() =~= Seq::<
                        &'a T,
                    >::empty());
                    return None;
                },
                (Some(e1), Some(e2)) => {
                    proof {
                        if total_order::<T>() {
                            lemma_trichotomy(*e1, *e2);
                        }
                    }
                    match compare(e1, e2) {
                        Comparison::Less => {
                            self.this = rest1;
                        },
                        Comparison::Equal => {
                            self.this = rest1;
                            self.that = rest2;
                            assert(total_order::<T>() ==> intersection_of(
                                a,
                                b,
                            ).as_ref().drop_first() =~= intersection_of(
                                self.left(),
                                self.right(),
                            ).as_ref());
                            return h1;
                        },
                        Comparison::Greater => {
                            self.that = rest2;
                        },
                    }
                },
            }
        }
    }
}

/// The elements of the first set that are not in the second, one by one.
#[derive(Clone)]
pub struct Difference<'a, T: 'a> {
    this: &'a [T],
    that: &'a [T],
}

impl<'a, T> Difference<'a, T> {
    /// What the walk has left of the first set.
    pub closed spec fn left(&self) -> Seq<T> {
        self.this@
    }

    /// What the walk has left of the second set.
    pub closed spec fn right(&self) -> Seq<T> {
        self.that@
    }

    /// A walk over two sorted slices.
    pub fn new(this: &'a [T], that: &'a [T]) -> (r: Self)
        ensures
            r.left() == this@,
            r.right() == that@,
    {
        Difference { this, that }
    }
}

impl<'a, T: Ord> vstd::std_specs::iter::IteratorSpecImpl for Difference<'a, T> {
    open spec fn obeys_prophetic_iter_laws(&self) -> bool {
        total_order::<T>()
    }

    open spec fn remaining(&self) -> Seq<&'a T> {
        difference_of(self.left(), self.right()).as_ref()
    }

    open spec fn will_return_none(&self) -> bool {
        true
    }

    open spec fn decrease(&self) -> Option<nat> {
        Some(self.left().len() + self.right().len())
    }

    open spec fn initial_value_relation(&self, init: &Self) -> bool {
        init.left() == self.left() && init.right() == self.right()
    }

    open spec fn peek(&self, index: int) -> Option<&'a T> {
        None
    }
}

impl<'a, T: Ord> Difference<'a, T> {
    /// Bounds on the number of elements still to come: at most as many as
    /// the first side has left, and at least as many as it has more than the
    /// second.
    pub fn size_hint(&self) -> (r: (usize, Option<usize>))
        ensures
            r.0 == if self.left().len() >= self.right().len() {
                (self.left().len() - self.right().len()) as usize
            } else {
                0usize
            },
            r.1 == Some(self.left().len() as usize),
            r.0 <= difference_of(self.left(), self.right()).len(),
            r.1 matches Some(n) && difference_of(self.left(), self.right()).len() <= n,
    {
        proof {
            lemma_difference_len(self.left(), self.right());
        }
        let a = self.this.len();
        let b = self.that.len();
        (a.saturating_sub(b), Some(a))
    }
}

impl<'a, T: Ord> Iterator for Difference<'a, T> {
    type Item = &'a T;

    fn next(&mut self) -> (r: Option<&'a T>) {
        let ghost a = self.left();
        let ghost b = self.right();
        loop
            invariant
                a == old(self).left(),
                b == old(self).right(),
                total_order::<T>() ==> difference_of(self.left(), self.right()) == difference_of(
                    a,
                    b,
                ),
                self.left().len() + self.right().len() <= a.len() + b.len(),
            decreases self.left().len() + self.right().len(),
        {
            let (h1, rest1) = split_head(self.this);
            let (h2, rest2) = split_head(self.that);
            proof {
                if total_order::<T>() && self.left().len() > 0 && self.right().len() > 0 {
                    lemma_trichotomy(self.left()[0], self.right()[0]);
                }
            }
            match cmp_opt(h1, h2, Ordering::Less, Ordering::Less) {
                Ordering::Less => {
                    self.this = rest1;
                    assert(total_order::<T>() ==> h1 is Some ==> difference_of(
                        a,
                        b,
                    ).as_ref().drop_first() =~= difference_of(self.left(), self.right()).as_ref());
                    assert(total_order::<T>() ==> h1 is None ==> difference_of(a, b).as_ref()
                        =~= Seq::<&'a T>::empty());
                    return h1;
                },
                Ordering::Equal => {
                    self.this = rest1;
                    self.that = rest2;
                },
                Ordering::Greater => {
                    self.that = rest2;
                },
            }
        }
    }
}

/// The elements that are in exactly one of two sets, one by one.
#[derive(Clone)]
pub struct SymmetricDifference<'a, T: 'a> {
    this: &'a [T],
    that: &'a [T],
}

impl<'a, T> SymmetricDifference<'a, T> {
    /// What the walk has left of the first set.
    pub closed spec fn left(&self) -> Seq<T> {
        self.this@
    }

    /// What the walk has left of the second set.
    pub closed spec fn right(&self) -> Seq<T> {
        self.that@
    }

    /// A walk over two sorted slices.
    pub fn new(this: &'a [T], that: &'a [T]) -> (r: Self)
        ensures
            r.left() == this@,
            r.right() == that@,
    {
        SymmetricDifference { this, that }
    }
}

impl<'a, T: Ord> vstd::std_specs::iter::IteratorSpecImpl for SymmetricDifference<'a, T> {
    open spec fn obeys_prophetic_iter_laws(&self) -> bool {
        total_order::<T>()
    }

    open spec fn remaining(&self) -> Seq<&'a T> {
        symmetric_difference_of(self.left(), self.right()).as_ref()
    }

    open spec fn will_return_none(&self) -> bool {
        true
    }

    open spec fn decrease(&self) -> Option<nat> {
        Some(self.left().len() + self.right().len())
    }

    open spec fn initial_value_relation(&self, init: &Self) -> bool {
        init.left() == self.left() && init.right() == self.right()
    }

    open spec fn peek(&self, index: int) -> Option<&'a T> {
        None
    }
}

impl<'a, T: Ord> SymmetricDifference<'a, T> {
    /// Bounds on the number of elements still to come: at most as many as
    /// both sides have left together. The upper bound is missing where that
    /// sum does not fit a `usize`.
    pub fn size_hint(&self) -> (r: (usize, Option<usize>))
        ensures
            r.0 == 0,
            r.1 == if self.left().len() + self.right().len() <= usize::MAX {
                Some((self.left().len() + self.right().len()) as usize)
            } else {
                None
            },
            r.1 matches Some(n) ==> symmetric_difference_of(self.left(), self.right()).len()
                <= n,
    {
        proof {
            lemma_symmetric_difference_len(self.left(), self.right());
        }
        let a = self.this.len();
        let b = self.that.len();
        (0, a.checked_add(b))
    }
}

impl<'a, T: Ord> Iterator for SymmetricDifference<'a, T> {
    type Item = &'a T;

    fn next(&mut self) -> (r: Option<&'a T>) {
        let ghost a = self.left();
        let ghost b = self.right();
        loop
            invariant
                a == old(self).left(),
                b == old(self).right(),
                total_order::<T>() ==> symmetric_difference_of(self.left(), self.right())
                    == symmetric_difference_of(a, b),
                self.left().len() + self.right().len() <= a.len() + b.len(),
            decreases self.left().len() + self.right().len(),
        {
            let (h1, rest1) = split_head(self.this);
            let (h2, rest2) = split_head(self.that);
            proof {
                if total_order::<T>() && self.left().len() > 0 && self.right().len() > 0 {
                    lemma_trichotomy(self.left()[0], self.right()[0]);
                }
            }
            match cmp_opt(h1, h2, Ordering::Greater, Ordering::Less) {
                Ordering::Less => {
                    self.this = rest1;
                    assert(total_order::<T>() ==> symmetric_difference_of(
                        a,
                        b,
                    ).as_ref().drop_first() =~= symmetric_difference_of(
                        self.left(),
                        self.right(),
                    ).as_ref());
                    return h1;
                },
                Ordering::Equal => {
                    self.this = rest1;
                    self.that = rest2;
                },
                Ordering::Greater => {
                    self.that = rest2;
                    assert(total_order::<T>() ==> h2 is Some ==> symmetric_difference_of(
                        a,
                        b,
                    ).as_ref().drop_first() =~= symmetric_difference_of(
                        self.left(),
                        self.right(),
                    ).as_ref());
                    assert(total_order::<T>() ==> h2 is None ==> symmetric_difference_of(
                        a,
                        b,
                    ).as_ref() =~= Seq::<&'a T>::empty());
                    return h2;
                },
            }
        }
    }
}

} // verus!
