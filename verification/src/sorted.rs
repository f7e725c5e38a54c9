//! Strictly ascending sequences, the model of what the containers store.
use crate::order::lemma_lt_transitive;
use crate::order::lemma_trichotomy;
use crate::order::lt;
use crate::order::total_order;
use crate::walk::kept_by;
use vstd::prelude::*;

verus! {

/// Strictly ascending: every element is below each one that follows it. Such a
/// sequence holds no element twice.
pub open spec fn sorted<T: Ord>(s: Seq<T>) -> bool {
    forall|i: int, j: int| 0 <= i < j < s.len() ==> lt(#[trigger] s[i], #[trigger] s[j])
}

/// The number of elements of `s` that are below `k`. In a sorted sequence
/// this is the index at which `k` stands, or at which it would be inserted.
pub open spec fn rank<T: Ord>(s: Seq<T>, k: T) -> int
    decreases s.len(),
{
    if s.len() == 0 {
        0
    } else {
        rank(s.drop_last(), k) + if lt(s.last(), k) {
            1int
        } else {
            0int
        }
    }
}

/// `k` stands at its rank in `s`. In a sorted sequence that is the only place
/// where it can stand, so this says that `k` is an element.
pub open spec fn holds<T: Ord>(s: Seq<T>, k: T) -> bool {
    0 <= rank(s, k) < s.len() && s[rank(s, k)] == k
}

pub proof fn lemma_rank_bounds<T: Ord>(s: Seq<T>, k: T)
    ensures
        0 <= rank(s, k) <= s.len(),
    decreases s.len(),
{
    if s.len() > 0 {
        lemma_rank_bounds(s.drop_last(), k);
    }
}

/// An index that parts `s` into elements below `k` and elements not below
/// `k` is the rank of `k`.
pub proof fn lemma_rank_unique<T: Ord>(s: Seq<T>, k: T, i: int)
    requires
        0 <= i <= s.len(),
        forall|j: int| 0 <= j < i ==> lt(#[trigger] s[j], k),
        forall|j: int| i <= j < s.len() ==> !lt(#[trigger] s[j], k),
    ensures
        rank(s, k) == i,
    decreases s.len(),
{
    if s.len() > 0 {
        let t = s.drop_last();
        assert(forall|j: int| 0 <= j < t.len() ==> t[j] == s[j]);
        if i == s.len() {
            lemma_rank_unique(t, k, i - 1);
        } else {
            lemma_rank_unique(t, k, i);
        }
    }
}

/// In a sorted sequence the rank of `k` parts the elements below `k` from
/// the others.
pub proof fn lemma_rank_parts<T: Ord>(s: Seq<T>, k: T)
    requires
        total_order::<T>(),
        sorted(s),
    ensures
        0 <= rank(s, k) <= s.len(),
        forall|j: int| 0 <= j < rank(s, k) ==> lt(#[trigger] s[j], k),
        forall|j: int| rank(s, k) <= j < s.len() ==> !lt(#[trigger] s[j], k),
    decreases s.len(),
{
    if s.len() > 0 {
        let t = s.drop_last();
        assert(forall|j: int| 0 <= j < t.len() ==> t[j] == s[j]);
        lemma_rank_parts(t, k);
        if lt(s.last(), k) {
            assert forall|j: int| 0 <= j < t.len() implies lt(#[trigger] t[j], k) by {
                assert(lt(s[j], s[s.len() - 1]));
                lemma_lt_transitive(t[j], s.last(), k);
            }
            lemma_rank_unique(t, k, t.len() as int);
        }
    }
}

/// In a sorted sequence `k` is an element exactly if it stands at its rank.
pub proof fn lemma_holds_is_contains<T: Ord>(s: Seq<T>, k: T)
    requires
        total_order::<T>(),
        sorted(s),
    ensures
        holds(s, k) <==> s.contains(k),
        s.contains(k) ==> s.index_of(k) == rank(s, k),
{
    lemma_rank_parts(s, k);
    let r = rank(s, k);
    if s.contains(k) {
        let j = s.index_of(k);
        assert(s[j] == k);
        lemma_trichotomy(s[j], k);
        if j > r {
            assert(lt(s[r], s[j]));
        }
        assert(j == r);
    }
    if holds(s, k) {
        assert(s[r] == k);
    }
}

/// A sorted sequence holds no element twice.
pub proof fn lemma_sorted_no_duplicates<T: Ord>(s: Seq<T>)
    requires
        total_order::<T>(),
        sorted(s),
    ensures
        s.no_duplicates(),
{
    assert forall|i: int, j: int| 0 <= i < s.len() && 0 <= j < s.len() && i != j implies s[i]
        != s[j] by {
        lemma_trichotomy(s[i], s[j]);
        if i < j {
            assert(lt(s[i], s[j]));
        } else {
            assert(lt(s[j], s[i]));
        }
    }
}

/// Putting a new element in at its rank keeps the sequence sorted.
pub proof fn lemma_insert_sorted<T: Ord>(s: Seq<T>, k: T)
    requires
        total_order::<T>(),
        sorted(s),
        !holds(s, k),
    ensures
        sorted(s.insert(rank(s, k), k)),
{
    lemma_rank_parts(s, k);
    let r = rank(s, k);
    let t = s.insert(r, k);
    assert forall|i: int, j: int| 0 <= i < j < t.len() implies lt(#[trigger] t[i], #[trigger] t[j]) by {
        if j < r {
            assert(t[i] == s[i] && t[j] == s[j]);
        } else if j == r {
            assert(t[i] == s[i]);
        } else if i == r {
            assert(t[j] == s[j - 1]);
            lemma_trichotomy(s[j - 1], k);
            if s[j - 1] == k {
                if j - 1 > r {
                    assert(lt(s[r], s[j - 1]));
                }
                assert(false);
            }
        } else if i < r {
            assert(t[i] == s[i] && t[j] == s[j - 1]);
        } else {
            assert(t[i] == s[i - 1] && t[j] == s[j - 1]);
        }
    }
}

/// Taking an element out keeps the sequence sorted.
pub proof fn lemma_remove_sorted<T: Ord>(s: Seq<T>, i: int)
    requires
        sorted(s),
        0 <= i < s.len(),
    ensures
        sorted(s.remove(i)),
{
    let t = s.remove(i);
    assert forall|a: int, b: int| 0 <= a < b < t.len() implies lt(#[trigger] t[a], #[trigger] t[b]) by {
        let a0 = if a < i { a } else { a + 1 };
        let b0 = if b < i { b } else { b + 1 };
        assert(t[a] == s[a0] && t[b] == s[b0]);
    }
}

/// A stretch of a sorted sequence is sorted.
pub proof fn lemma_subrange_sorted<T: Ord>(s: Seq<T>, from: int, to: int)
    requires
        sorted(s),
        0 <= from <= to <= s.len(),
    ensures
        sorted(s.subrange(from, to)),
{
    let t = s.subrange(from, to);
    assert forall|a: int, b: int| 0 <= a < b < t.len() implies lt(#[trigger] t[a], #[trigger] t[b]) by {
        assert(t[a] == s[a + from] && t[b] == s[b + from]);
    }
}

/// Two sorted sequences, the last element of the first below the first of the
/// second: one after the other they are sorted.
pub proof fn lemma_concat_sorted<T: Ord>(a: Seq<T>, b: Seq<T>)
    requires
        total_order::<T>(),
        sorted(a),
        sorted(b),
        a.len() > 0 && b.len() > 0 ==> lt(a.last(), b.first()),
    ensures
        sorted(a + b),
{
    let t = a + b;
    assert forall|i: int, j: int| 0 <= i < j < t.len() implies lt(#[trigger] t[i], #[trigger] t[j]) by {
        if j < a.len() {
            assert(t[i] == a[i] && t[j] == a[j]);
        } else if i >= a.len() {
            assert(t[i] == b[i - a.len()] && t[j] == b[j - a.len()]);
        } else {
            assert(t[i] == a[i] && t[j] == b[j - a.len()]);
            if i < a.len() - 1 {
                assert(lt(a[i], a[a.len() - 1]));
                lemma_lt_transitive(a[i], a.last(), b.first());
            }
            if j > a.len() {
                assert(lt(b[0], b[j - a.len()]));
                lemma_lt_transitive(a[i], b.first(), b[j - a.len()]);
            }
        }
    }
}

/// Two sorted sequences with the same elements are the same sequence.
pub proof fn lemma_sorted_unique<T: Ord>(a: Seq<T>, b: Seq<T>)
    requires
        total_order::<T>(),
        sorted(a),
        sorted(b),
        forall|x: T| a.contains(x) <==> b.contains(x),
    ensures
        a == b,
    decreases a.len(),
{
    if a.len() == 0 {
        if b.len() > 0 {
            assert(b.contains(b[0]));
            assert(false);
        }
        assert(a =~= b);
    } else {
        assert(a.contains(a[0]));
        assert(b.contains(a[0]));
        assert(b.len() > 0);
        assert(b.contains(b[0]));
        assert(a.contains(b[0]));
        let i = a.index_of(b[0]);
        let j = b.index_of(a[0]);
        lemma_trichotomy(a[0], b[0]);
        if i > 0 {
            assert(lt(a[0], a[i]));
        }
        if j > 0 {
            assert(lt(b[0], b[j]));
        }
        assert(a[0] == b[0]);
        let a1 = a.subrange(1, a.len() as int);
        let b1 = b.subrange(1, b.len() as int);
        lemma_subrange_sorted(a, 1, a.len() as int);
        lemma_subrange_sorted(b, 1, b.len() as int);
        lemma_sorted_no_duplicates(a);
        lemma_sorted_no_duplicates(b);
        assert forall|x: T| a1.contains(x) <==> b1.contains(x) by {
            if a1.contains(x) {
                let p = a1.index_of(x);
                assert(a[p + 1] == x);
                assert(a.contains(x));
                let q = b.index_of(x);
                assert(q != 0);
                assert(b1[q - 1] == x);
            }
            if b1.contains(x) {
                let p = b1.index_of(x);
                assert(b[p + 1] == x);
                assert(b.contains(x));
                let q = a.index_of(x);
                assert(q != 0);
                assert(a1[q - 1] == x);
            }
        }
        lemma_sorted_unique(a1, b1);
        assert(a =~= seq![a[0]] + a1);
        assert(b =~= seq![b[0]] + b1);
    }
}

/// The sorted sequence with `k` among its elements: `s` itself where `k` is
/// there already, else `s` with `k` put in at its rank.
pub open spec fn inserted<T: Ord>(s: Seq<T>, k: T) -> Seq<T> {
    if holds(s, k) {
        s
    } else {
        s.insert(rank(s, k), k)
    }
}

/// The sorted sequence without `k`: `s` with the element at the rank of `k`
/// taken out where that is `k`, else `s` itself.
pub open spec fn removed<T: Ord>(s: Seq<T>, k: T) -> Seq<T> {
    if holds(s, k) {
        s.remove(rank(s, k))
    } else {
        s
    }
}

/// `items` inserted into `s` one after the other, first to last.
pub open spec fn inserted_all<T: Ord>(s: Seq<T>, items: Seq<T>) -> Seq<T>
    decreases items.len(),
{
    if items.len() == 0 {
        s
    } else {
        inserted_all(inserted(s, items[0]), items.drop_first())
    }
}

/// Inserting keeps a sequence sorted, adds the element to what it holds and
/// nothing else, and makes it longer by one exactly if the element is new.
pub proof fn lemma_inserted<T: Ord>(s: Seq<T>, k: T)
    requires
        total_order::<T>(),
        sorted(s),
    ensures
        sorted(inserted(s, k)),
        holds(inserted(s, k), k),
        forall|x: T| inserted(s, k).contains(x) <==> x == k || s.contains(x),
        inserted(s, k).len() == s.len() + if s.contains(k) {
            0int
        } else {
            1int
        },
{
    lemma_holds_is_contains(s, k);
    lemma_rank_bounds(s, k);
    let t = inserted(s, k);
    if !holds(s, k) {
        lemma_insert_sorted(s, k);
        let r = rank(s, k);
        assert(t[r] == k);
        assert forall|x: T| t.contains(x) <==> x == k || s.contains(x) by {
            if t.contains(x) {
                let i = t.index_of(x);
                if i < r {
                    assert(s[i] == x);
                } else if i > r {
                    assert(s[i - 1] == x);
                }
            }
            if s.contains(x) {
                let i = s.index_of(x);
                if i < r {
                    assert(t[i] == x);
                } else {
                    assert(t[i + 1] == x);
                }
            }
        }
    }
    lemma_holds_is_contains(t, k);
}

/// Removing keeps a sequence sorted, takes the element from what it holds and
/// nothing else, and makes it shorter by one exactly if the element was there.
pub proof fn lemma_removed<T: Ord>(s: Seq<T>, k: T)
    requires
        total_order::<T>(),
        sorted(s),
    ensures
        sorted(removed(s, k)),
        !holds(removed(s, k), k),
        forall|x: T| removed(s, k).contains(x) <==> x != k && s.contains(x),
        removed(s, k).len() == s.len() - if s.contains(k) {
            1int
        } else {
            0int
        },
{
    lemma_holds_is_contains(s, k);
    lemma_rank_bounds(s, k);
    lemma_sorted_no_duplicates(s);
    let t = removed(s, k);
    if holds(s, k) {
        let r = rank(s, k);
        lemma_remove_sorted(s, r);
        assert forall|x: T| t.contains(x) <==> x != k && s.contains(x) by {
            if t.contains(x) {
                let i = t.index_of(x);
                if i < r {
                    assert(s[i] == x);
                } else {
                    assert(s[i + 1] == x);
                }
            }
            if s.contains(x) && x != k {
                let i = s.index_of(x);
                if i < r {
                    assert(t[i] == x);
                } else {
                    assert(t[i - 1] == x);
                }
            }
        }
    }
    lemma_holds_is_contains(t, k);
}

/// Whatever is inserted into a sorted sequence, in whatever order: the
/// outcome is sorted, and it holds what was there and what was inserted.
pub proof fn lemma_inserted_all<T: Ord>(s: Seq<T>, items: Seq<T>)
    requires
        total_order::<T>(),
        sorted(s),
    ensures
        sorted(inserted_all(s, items)),
        forall|x: T| inserted_all(s, items).contains(x) <==> s.contains(x) || items.contains(x),
    decreases items.len(),
{
    if items.len() > 0 {
        lemma_inserted(s, items[0]);
        lemma_inserted_all(inserted(s, items[0]), items.drop_first());
        assert forall|x: T|
            inserted_all(s, items).contains(x) <==> s.contains(x) || items.contains(x) by {
            let t = items.drop_first();
            if items.contains(x) {
                let i = items.index_of(x);
                if i > 0 {
                    assert(t[i - 1] == x);
                }
            }
            if t.contains(x) {
                let i = t.index_of(x);
                assert(items[i + 1] == x);
            }
            assert(items.contains(items[0]));
        }
    } else {
        assert(forall|x: T| !items.contains(x));
    }
}

/// Inserting the elements of a sorted sequence, in their order, behind a
/// sorted sequence whose elements are all below them builds the two joined.
pub proof fn lemma_inserted_all_ascending<T: Ord>(p: Seq<T>, s: Seq<T>)
    requires
        total_order::<T>(),
        sorted(p + s),
    ensures
        inserted_all(p, s) == p + s,
    decreases s.len(),
{
    if s.len() == 0 {
        assert(p + s =~= p);
    } else {
        let k = s[0];
        let all = p + s;
        assert(all[p.len() as int] == k);
        assert forall|j: int| 0 <= j < p.len() implies lt(#[trigger] p[j], k) by {
            assert(all[j] == p[j]);
            assert(lt(all[j], all[p.len() as int]));
        }
        lemma_rank_unique(p, k, p.len() as int);
        assert(inserted(p, k) =~= p.push(k));
        assert(p.push(k) + s.drop_first() =~= all);
        lemma_inserted_all_ascending(p.push(k), s.drop_first());
    }
}

/// Inserting one element more, after all the others.
pub proof fn lemma_inserted_all_push<T: Ord>(s: Seq<T>, items: Seq<T>, k: T)
    ensures
        inserted_all(s, items.push(k)) == inserted(inserted_all(s, items), k),
    decreases items.len(),
{
    if items.len() == 0 {
        assert(items.push(k).drop_first() =~= items);
        assert(inserted_all(inserted(s, k), items) == inserted(s, k));
    } else {
        assert(items.push(k).drop_first() =~= items.drop_first().push(k));
        lemma_inserted_all_push(inserted(s, items[0]), items.drop_first(), k);
    }
}

/// What a pass keeps of a sequence whose keys are sorted has sorted keys,
/// and was in the sequence. `key` gives the key of an element: the element
/// itself in a set, the first part of an entry in a map.
pub proof fn lemma_kept_by_sorted<E, K: Ord, F: FnMut(&E) -> bool>(
    f: F,
    key: spec_fn(E) -> K,
    s: Seq<E>,
    t: Seq<E>,
)
    requires
        sorted(s.map_values(key)),
        kept_by(f, s, t),
    ensures
        sorted(t.map_values(key)),
        forall|x: E| t.contains(x) ==> s.contains(x),
    decreases s.len(),
{
    let ks = s.map_values(key);
    let kt = t.map_values(key);
    if s.len() > 0 {
        let s1 = s.drop_last();
        lemma_subrange_sorted(ks, 0, ks.len() - 1);
        assert(s1.map_values(key) =~= ks.subrange(0, ks.len() - 1));
        if f.ensures((&s.last(),), true) && t.len() > 0 && t.last() == s.last() && kept_by(
            f,
            s1,
            t.drop_last(),
        ) {
            let t1 = t.drop_last();
            lemma_kept_by_sorted(f, key, s1, t1);
            let kt1 = t1.map_values(key);
            assert forall|i: int, j: int| 0 <= i < j < kt.len() implies lt(
                #[trigger] kt[i],
                #[trigger] kt[j],
            ) by {
                assert(kt[i] == kt1[i]);
                if j < t1.len() {
                    assert(kt[j] == kt1[j]);
                } else {
                    assert(t1.contains(t1[i]));
                    let p = s1.index_of(t1[i]);
                    assert(ks[p] == kt[i]);
                    assert(lt(ks[p], ks[ks.len() - 1]));
                }
            }
            assert forall|x: E| t.contains(x) implies s.contains(x) by {
                let i = t.index_of(x);
                if i < t1.len() {
                    assert(t1.contains(t1[i]));
                    let p = s1.index_of(x);
                    assert(s[p] == x);
                } else {
                    assert(s[s.len() - 1] == x);
                }
            }
        } else {
            lemma_kept_by_sorted(f, key, s1, t);
            assert forall|x: E| t.contains(x) implies s.contains(x) by {
                let p = s1.index_of(x);
                assert(s[p] == x);
            }
        }
    }
}

/// In a sorted sequence, where the element at `mid` is below `k`, so is
/// every element up to `mid`.
pub proof fn lemma_below_up_to<T: Ord>(s: Seq<T>, k: T, mid: int)
    requires
        total_order::<T>(),
        sorted(s),
        0 <= mid < s.len(),
        lt(s[mid], k),
    ensures
        forall|j: int| 0 <= j <= mid ==> lt(#[trigger] s[j], k),
{
    assert forall|j: int| 0 <= j <= mid implies lt(#[trigger] s[j], k) by {
        if j < mid {
            assert(lt(s[j], s[mid]));
            lemma_lt_transitive(s[j], s[mid], k);
        }
    }
}

/// In a sorted sequence, where `k` is below the element at `mid`, it is
/// below every element from `mid` on.
pub proof fn lemma_above_from<T: Ord>(s: Seq<T>, k: T, mid: int)
    requires
        total_order::<T>(),
        sorted(s),
        0 <= mid < s.len(),
        lt(k, s[mid]),
    ensures
        forall|j: int| mid <= j < s.len() ==> lt(k, #[trigger] s[j]),
{
    assert forall|j: int| mid <= j < s.len() implies lt(k, #[trigger] s[j]) by {
        if j > mid {
            assert(lt(s[mid], s[j]));
            lemma_lt_transitive(k, s[mid], s[j]);
        }
    }
}

/// In a sorted sequence, the index at which `k` stands is its rank.
pub proof fn lemma_found_at<T: Ord>(s: Seq<T>, k: T, mid: int)
    requires
        total_order::<T>(),
        sorted(s),
        0 <= mid < s.len(),
        s[mid] == k,
    ensures
        rank(s, k) == mid,
        holds(s, k),
{
    assert forall|j: int| mid <= j < s.len() implies !lt(#[trigger] s[j], k) by {
        lemma_trichotomy(s[j], k);
        if j > mid {
            assert(lt(s[mid], s[j]));
        }
    }
    assert forall|j: int| 0 <= j < mid implies lt(#[trigger] s[j], k) by {
        assert(lt(s[j], s[mid]));
    }
    lemma_rank_unique(s, k, mid);
}

/// An index with everything before it below `k`, and `k` below everything
/// from it on, is the rank of `k`, and `k` is not in the sequence.
pub proof fn lemma_absent_at<T: Ord>(s: Seq<T>, k: T, at: int)
    requires
        total_order::<T>(),
        0 <= at <= s.len(),
        forall|j: int| 0 <= j < at ==> lt(#[trigger] s[j], k),
        forall|j: int| at <= j < s.len() ==> lt(k, #[trigger] s[j]),
    ensures
        rank(s, k) == at,
        !holds(s, k),
{
    assert forall|j: int| at <= j < s.len() implies !lt(#[trigger] s[j], k) by {
        lemma_trichotomy(s[j], k);
    }
    lemma_rank_unique(s, k, at);
    if at < s.len() {
        lemma_trichotomy(s[at], k);
    }
}

} // verus!
