//! Set algebra on two sorted sequences by merge-join.
//!
//! Each operation walks both sequences from the front, compares the two
//! heads, and emits or skips according to its rule. The functions here say
//! what comes out; the lemmas say what that is in terms of membership.
use crate::order::lemma_lt_transitive;
use crate::order::lemma_trichotomy;
use crate::order::lt;
use crate::order::total_order;
use crate::sorted::sorted;
use vstd::prelude::*;

verus! {

/// Every element of either sequence, once. With equal heads the first
/// sequence's element is the one emitted.
pub open spec fn union_of<T: Ord>(a: Seq<T>, b: Seq<T>) -> Seq<T>
    decreases a.len() + b.len(),
{
    if a.len() == 0 {
        b
    } else if b.len() == 0 {
        a
    } else if lt(a[0], b[0]) {
        seq![a[0]] + union_of(a.drop_first(), b)
    } else if lt(b[0], a[0]) {
        seq![b[0]] + union_of(a, b.drop_first())
    } else {
        seq![a[0]] + union_of(a.drop_first(), b.drop_first())
    }
}

/// The elements that both sequences hold, taken from the first.
pub open spec fn intersection_of<T: Ord>(a: Seq<T>, b: Seq<T>) -> Seq<T>
    decreases a.len() + b.len(),
{
    if a.len() == 0 || b.len() == 0 {
        Seq::empty()
    } else if lt(a[0], b[0]) {
        intersection_of(a.drop_first(), b)
    } else if lt(b[0], a[0]) {
        intersection_of(a, b.drop_first())
    } else {
        seq![a[0]] + intersection_of(a.drop_first(), b.drop_first())
    }
}

/// The elements of the first sequence that the second does not hold.
pub open spec fn difference_of<T: Ord>(a: Seq<T>, b: Seq<T>) -> Seq<T>
    decreases a.len() + b.len(),
{
    if a.len() == 0 {
        Seq::empty()
    } else if b.len() == 0 {
        a
    } else if lt(a[0], b[0]) {
        seq![a[0]] + difference_of(a.drop_first(), b)
    } else if lt(b[0], a[0]) {
        difference_of(a, b.drop_first())
    } else {
        difference_of(a.drop_first(), b.drop_first())
    }
}

/// The elements that exactly one of the two sequences holds.
pub open spec fn symmetric_difference_of<T: Ord>(a: Seq<T>, b: Seq<T>) -> Seq<T>
    decreases a.len() + b.len(),
{
    if a.len() == 0 {
        b
    } else if b.len() == 0 {
        a
    } else if lt(a[0], b[0]) {
        seq![a[0]] + symmetric_difference_of(a.drop_first(), b)
    } else if lt(b[0], a[0]) {
        seq![b[0]] + symmetric_difference_of(a, b.drop_first())
    } else {
        symmetric_difference_of(a.drop_first(), b.drop_first())
    }
}

/// In a sorted sequence nothing is below the head, and the head is not in the
/// tail.
pub proof fn lemma_head_is_least<T: Ord>(s: Seq<T>, x: T)
    requires
        total_order::<T>(),
        sorted(s),
        s.len() > 0,
    ensures
        sorted(s.drop_first()),
        s.contains(x) <==> x == s[0] || s.drop_first().contains(x),
        s.drop_first().contains(x) ==> lt(s[0], x),
        lt(x, s[0]) ==> !s.contains(x),
{
    let t = s.drop_first();
    assert forall|i: int, j: int| 0 <= i < j < t.len() implies lt(#[trigger] t[i], #[trigger] t[j]) by {
        assert(t[i] == s[i + 1] && t[j] == s[j + 1]);
    }
    if s.contains(x) {
        let i = s.index_of(x);
        if i > 0 {
            assert(t[i - 1] == x);
        }
    }
    if t.contains(x) {
        let i = t.index_of(x);
        assert(s[i + 1] == x);
        assert(lt(s[0], s[i + 1]));
    }
    if lt(x, s[0]) && s.contains(x) {
        lemma_trichotomy(x, s[0]);
        lemma_lt_transitive(x, s[0], x);
    }
    assert(s.contains(s[0]));
}

/// An element put in front of a sorted sequence whose elements are all above
/// it makes a sorted sequence.
pub proof fn lemma_cons_sorted<T: Ord>(x: T, s: Seq<T>)
    requires
        sorted(s),
        forall|y: T| s.contains(y) ==> lt(x, y),
    ensures
        sorted(seq![x] + s),
        forall|y: T| (seq![x] + s).contains(y) <==> y == x || s.contains(y),
{
    let t = seq![x] + s;
    assert forall|i: int, j: int| 0 <= i < j < t.len() implies lt(#[trigger] t[i], #[trigger] t[j]) by {
        assert(t[j] == s[j - 1]);
        assert(s.contains(s[j - 1]));
        if i > 0 {
            assert(t[i] == s[i - 1]);
        }
    }
    assert forall|y: T| t.contains(y) <==> y == x || s.contains(y) by {
        if t.contains(y) {
            let i = t.index_of(y);
            if i > 0 {
                assert(s[i - 1] == y);
            }
        }
        if y == x {
            assert(t[0] == y);
        }
        if s.contains(y) {
            let i = s.index_of(y);
            assert(t[i + 1] == y);
        }
    }
}

/// The union of two sorted sequences is sorted and holds what either holds.
pub proof fn lemma_union<T: Ord>(a: Seq<T>, b: Seq<T>)
    requires
        total_order::<T>(),
        sorted(a),
        sorted(b),
    ensures
        sorted(union_of(a, b)),
        forall|x: T|
            #![trigger union_of(a, b).contains(x)]
            #![trigger a.contains(x)]
            #![trigger b.contains(x)]
            union_of(a, b).contains(x) <==> a.contains(x) || b.contains(x),
    decreases a.len() + b.len(),
{
    if a.len() == 0 || b.len() == 0 {
    } else {
        lemma_trichotomy(a[0], b[0]);
        let (h, ra, rb) = if lt(a[0], b[0]) {
            (a[0], a.drop_first(), b)
        } else if lt(b[0], a[0]) {
            (b[0], a, b.drop_first())
        } else {
            (a[0], a.drop_first(), b.drop_first())
        };
        let rest = union_of(ra, rb);
        assert(union_of(a, b) == seq![h] + rest);
        lemma_head_is_least(a, a[0]);
        lemma_head_is_least(b, b[0]);
        lemma_union(ra, rb);
        assert forall|y: T| rest.contains(y) implies lt(h, y) by {
            lemma_head_is_least(a, y);
            lemma_head_is_least(b, y);
            if a.drop_first().contains(y) && lt(b[0], a[0]) {
                lemma_lt_transitive(b[0], a[0], y);
            }
            if b.drop_first().contains(y) && lt(a[0], b[0]) {
                lemma_lt_transitive(a[0], b[0], y);
            }
        }
        assert forall|x: T| union_of(a, b).contains(x) <==> a.contains(x) || b.contains(x) by {
            lemma_head_is_least(a, x);
            lemma_head_is_least(b, x);
            lemma_cons_sorted(h, rest);
        }
        lemma_cons_sorted(h, rest);
    }
}

/// The intersection of two sorted sequences is sorted and holds what both
/// hold.
pub proof fn lemma_intersection<T: Ord>(a: Seq<T>, b: Seq<T>)
    requires
        total_order::<T>(),
        sorted(a),
        sorted(b),
    ensures
        sorted(intersection_of(a, b)),
        forall|x: T|
            #![trigger intersection_of(a, b).contains(x)]
            #![trigger a.contains(x)]
            #![trigger b.contains(x)]
            intersection_of(a, b).contains(x) <==> a.contains(x) && b.contains(x),
    decreases a.len() + b.len(),
{
    if a.len() == 0 || b.len() == 0 {
        assert(forall|x: T| !Seq::<T>::empty().contains(x));
    } else {
        lemma_trichotomy(a[0], b[0]);
        lemma_head_is_least(a, a[0]);
        lemma_head_is_least(b, b[0]);
        if lt(a[0], b[0]) {
            lemma_intersection(a.drop_first(), b);
            assert forall|x: T|
                intersection_of(a, b).contains(x) <==> a.contains(x) && b.contains(x) by {
                lemma_head_is_least(a, x);
                lemma_head_is_least(b, x);
            }
        } else if lt(b[0], a[0]) {
            lemma_intersection(a, b.drop_first());
            assert forall|x: T|
                intersection_of(a, b).contains(x) <==> a.contains(x) && b.contains(x) by {
                lemma_head_is_least(a, x);
                lemma_head_is_least(b, x);
            }
        } else {
            let rest = intersection_of(a.drop_first(), b.drop_first());
            lemma_intersection(a.drop_first(), b.drop_first());
            assert forall|y: T| rest.contains(y) implies lt(a[0], y) by {
                lemma_head_is_least(a, y);
            }
            lemma_cons_sorted(a[0], rest);
            assert forall|x: T|
                intersection_of(a, b).contains(x) <==> a.contains(x) && b.contains(x) by {
                lemma_head_is_least(a, x);
                lemma_head_is_least(b, x);
                lemma_trichotomy(a[0], x);
            }
        }
    }
}

/// The difference of two sorted sequences is sorted and holds what the first
/// holds and the second does not.
pub proof fn lemma_difference<T: Ord>(a: Seq<T>, b: Seq<T>)
    requires
        total_order::<T>(),
        sorted(a),
        sorted(b),
    ensures
        sorted(difference_of(a, b)),
        forall|x: T|
            #![trigger difference_of(a, b).contains(x)]
            #![trigger a.contains(x)]
            #![trigger b.contains(x)]
            difference_of(a, b).contains(x) <==> a.contains(x) && !b.contains(x),
    decreases a.len() + b.len(),
{
    if a.len() == 0 {
        assert(forall|x: T| !Seq::<T>::empty().contains(x));
    } else if b.len() == 0 {
    } else {
        lemma_trichotomy(a[0], b[0]);
        lemma_head_is_least(a, a[0]);
        lemma_head_is_least(b, b[0]);
        if lt(a[0], b[0]) {
            let rest = difference_of(a.drop_first(), b);
            lemma_difference(a.drop_first(), b);
            assert forall|y: T| rest.contains(y) implies lt(a[0], y) by {
                lemma_head_is_least(a, y);
            }
            lemma_cons_sorted(a[0], rest);
            assert forall|x: T|
                difference_of(a, b).contains(x) <==> a.contains(x) && !b.contains(x) by {
                lemma_head_is_least(a, x);
                lemma_head_is_least(b, x);
                lemma_trichotomy(a[0], x);
            }
        } else if lt(b[0], a[0]) {
            lemma_difference(a, b.drop_first());
            assert forall|x: T|
                difference_of(a, b).contains(x) <==> a.contains(x) && !b.contains(x) by {
                lemma_head_is_least(a, x);
                lemma_head_is_least(b, x);
            }
        } else {
            lemma_difference(a.drop_first(), b.drop_first());
            assert forall|x: T|
                difference_of(a, b).contains(x) <==> a.contains(x) && !b.contains(x) by {
                lemma_head_is_least(a, x);
                lemma_head_is_least(b, x);
                lemma_trichotomy(a[0], x);
            }
        }
    }
}

/// The symmetric difference of two sorted sequences is sorted and holds what
/// exactly one of them holds.
pub proof fn lemma_symmetric_difference<T: Ord>(a: Seq<T>, b: Seq<T>)
    requires
        total_order::<T>(),
        sorted(a),
        sorted(b),
    ensures
        sorted(symmetric_difference_of(a, b)),
        forall|x: T|
            #![trigger symmetric_difference_of(a, b).contains(x)]
            #![trigger a.contains(x)]
            #![trigger b.contains(x)]
            symmetric_difference_of(a, b).contains(x) <==> (a.contains(x) && !b.contains(x)) || (
            b.contains(x) && !a.contains(x)),
    decreases a.len() + b.len(),
{
    if a.len() == 0 {
        assert(forall|x: T| !a.contains(x));
    } else if b.len() == 0 {
        assert(forall|x: T| !b.contains(x));
    } else {
        lemma_trichotomy(a[0], b[0]);
        lemma_head_is_least(a, a[0]);
        lemma_head_is_least(b, b[0]);
        if lt(a[0], b[0]) || lt(b[0], a[0]) {
            let (h, ra, rb) = if lt(a[0], b[0]) {
                (a[0], a.drop_first(), b)
            } else {
                (b[0], a, b.drop_first())
            };
            let rest = symmetric_difference_of(ra, rb);
            lemma_symmetric_difference(ra, rb);
            assert forall|y: T| rest.contains(y) implies lt(h, y) by {
                lemma_head_is_least(a, y);
                lemma_head_is_least(b, y);
                if a.drop_first().contains(y) && lt(b[0], a[0]) {
                    lemma_lt_transitive(b[0], a[0], y);
                }
                if b.drop_first().contains(y) && lt(a[0], b[0]) {
                    lemma_lt_transitive(a[0], b[0], y);
                }
            }
            lemma_cons_sorted(h, rest);
            assert forall|x: T|
                symmetric_difference_of(a, b).contains(x) <==> (a.contains(x) && !b.contains(x))
                    || (b.contains(x) && !a.contains(x)) by {
                lemma_head_is_least(a, x);
                lemma_head_is_least(b, x);
                lemma_trichotomy(h, x);
            }
        } else {
            lemma_symmetric_difference(a.drop_first(), b.drop_first());
            assert forall|x: T|
                symmetric_difference_of(a, b).contains(x) <==> (a.contains(x) && !b.contains(x))
                    || (b.contains(x) && !a.contains(x)) by {
                lemma_head_is_least(a, x);
                lemma_head_is_least(b, x);
                lemma_trichotomy(a[0], x);
            }
        }
    }
}

/// A union is no shorter than either sequence and no longer than both
/// together.
pub proof fn lemma_union_len<T: Ord>(a: Seq<T>, b: Seq<T>)
    ensures
        a.len() <= union_of(a, b).len(),
        b.len() <= union_of(a, b).len(),
        union_of(a, b).len() <= a.len() + b.len(),
    decreases a.len() + b.len(),
{
    if a.len() == 0 || b.len() == 0 {
    } else if lt(a[0], b[0]) {
        lemma_union_len(a.drop_first(), b);
    } else if lt(b[0], a[0]) {
        lemma_union_len(a, b.drop_first());
    } else {
        lemma_union_len(a.drop_first(), b.drop_first());
    }
}

/// An intersection is no longer than either sequence.
pub proof fn lemma_intersection_len<T: Ord>(a: Seq<T>, b: Seq<T>)
    ensures
        intersection_of(a, b).len() <= a.len(),
        intersection_of(a, b).len() <= b.len(),
    decreases a.len() + b.len(),
{
    if a.len() == 0 || b.len() == 0 {
    } else if lt(a[0], b[0]) {
        lemma_intersection_len(a.drop_first(), b);
    } else if lt(b[0], a[0]) {
        lemma_intersection_len(a, b.drop_first());
    } else {
        lemma_intersection_len(a.drop_first(), b.drop_first());
    }
}

/// A difference is no longer than the first sequence, and shorter than it by
/// no more than the length of the second.
pub proof fn lemma_difference_len<T: Ord>(a: Seq<T>, b: Seq<T>)
    ensures
        a.len() - b.len() <= difference_of(a, b).len(),
        difference_of(a, b).len() <= a.len(),
    decreases a.len() + b.len(),
{
    if a.len() == 0 || b.len() == 0 {
    } else if lt(a[0], b[0]) {
        lemma_difference_len(a.drop_first(), b);
    } else if lt(b[0], a[0]) {
        lemma_difference_len(a, b.drop_first());
    } else {
        lemma_difference_len(a.drop_first(), b.drop_first());
    }
}

/// A symmetric difference is no longer than both sequences together.
pub proof fn lemma_symmetric_difference_len<T: Ord>(a: Seq<T>, b: Seq<T>)
    ensures
        symmetric_difference_of(a, b).len() <= a.len() + b.len(),
    decreases a.len() + b.len(),
{
    if a.len() == 0 || b.len() == 0 {
    } else if lt(a[0], b[0]) {
        lemma_symmetric_difference_len(a.drop_first(), b);
    } else if lt(b[0], a[0]) {
        lemma_symmetric_difference_len(a, b.drop_first());
    } else {
        lemma_symmetric_difference_len(a.drop_first(), b.drop_first());
    }
}

} // verus!
