//! What holds of the containers, whatever they hold.
//!
//! Each law is stated over the functions in which the contracts of the
//! containers' methods are written, so it speaks of every call of them.
use crate::entries::as_map;
use crate::entries::lemma_put;
use crate::entries::lemma_put_all;
use crate::entries::lemma_put_all_ascending;
use crate::entries::lemma_without;
use crate::entries::lookup;
use crate::entries::put;
use crate::entries::put_all;
use crate::entries::without;
use crate::merge_join::difference_of;
use crate::merge_join::intersection_of;
use crate::merge_join::lemma_difference;
use crate::merge_join::lemma_intersection;
use crate::merge_join::lemma_intersection_len;
use crate::merge_join::lemma_symmetric_difference;
use crate::merge_join::lemma_union;
use crate::merge_join::symmetric_difference_of;
use crate::merge_join::union_of;
use crate::order::lemma_trichotomy;
use crate::order::lt;
use crate::order::total_order;
use crate::search::entry_keys;
use crate::sorted::inserted;
use crate::sorted::inserted_all;
use crate::sorted::lemma_holds_is_contains;
use crate::sorted::lemma_inserted;
use crate::sorted::lemma_inserted_all;
use crate::sorted::lemma_inserted_all_ascending;
use crate::sorted::lemma_removed;
use crate::sorted::lemma_sorted_no_duplicates;
use crate::sorted::lemma_sorted_unique;
use crate::sorted::removed;
use crate::sorted::sorted;
use crate::vec_sorted_map::combined;
use crate::vec_sorted_map::merged;
use crate::walk::kept_by;
use vstd::prelude::*;

verus! {

/// Whatever is inserted into a set, in whatever order, the elements stand
/// strictly ascending afterwards, and none stands twice.
pub proof fn law_set_insertions_ascend<T: Ord>(s: Seq<T>, items: Seq<T>)
    requires
        total_order::<T>(),
        sorted(s),
    ensures
        sorted(inserted_all(s, items)),
        inserted_all(s, items).no_duplicates(),
        forall|i: int, j: int|
            0 <= i < j < inserted_all(s, items).len() ==> inserted_all(s, items)[i]
                != inserted_all(s, items)[j] && !lt(
                #[trigger] inserted_all(s, items)[j],
                #[trigger] inserted_all(s, items)[i],
            ),
{
    lemma_inserted_all(s, items);
    let t = inserted_all(s, items);
    lemma_sorted_no_duplicates(t);
    assert forall|i: int, j: int| 0 <= i < j < t.len() implies t[i] != t[j] && !lt(
        #[trigger] t[j],
        #[trigger] t[i],
    ) by {
        assert(lt(t[i], t[j]));
        lemma_trichotomy(t[i], t[j]);
    }
}

/// Whatever is inserted into a map, in whatever order, the keys stand
/// strictly ascending afterwards, and none stands twice.
pub proof fn law_map_insertions_ascend<K: Ord, V>(s: Seq<(K, V)>, items: Seq<(K, V)>)
    requires
        total_order::<K>(),
        sorted(entry_keys(s)),
    ensures
        sorted(entry_keys(put_all(s, items))),
        entry_keys(put_all(s, items)).no_duplicates(),
{
    lemma_put_all(s, items);
    lemma_sorted_no_duplicates(entry_keys(put_all(s, items)));
}

/// After `insert(k, v)`, `get(k)` gives `v`, and every other key has what it
/// had. On a key that had a value `insert` returns that value and the length
/// stays; on a new key it returns nothing and the length grows by one.
pub proof fn law_insert_then_get<K: Ord, V>(s: Seq<(K, V)>, k: K, v: V)
    requires
        total_order::<K>(),
        sorted(entry_keys(s)),
    ensures
        lookup(put(s, k, v), k) == Some(v),
        forall|j: K| j != k ==> #[trigger] lookup(put(s, k, v), j) == lookup(s, j),
        lookup(s, k) is Some ==> put(s, k, v).len() == s.len(),
        lookup(s, k) is None ==> put(s, k, v).len() == s.len() + 1,
{
    lemma_put(s, k, v);
}

/// After `insert(e)` the set holds `e`. Where it held `e` before, it is
/// unchanged; else it is longer by one.
pub proof fn law_set_insert_then_contains<T: Ord>(s: Seq<T>, e: T)
    requires
        total_order::<T>(),
        sorted(s),
    ensures
        inserted(s, e).contains(e),
        s.contains(e) ==> inserted(s, e) == s,
        !s.contains(e) ==> inserted(s, e).len() == s.len() + 1,
{
    lemma_inserted(s, e);
    lemma_holds_is_contains(s, e);
}

/// After `remove(k)`, `get(k)` gives nothing, and every other key has what
/// it had. On a key that had a value the length shrinks by one; on a key
/// that had none the map is unchanged.
pub proof fn law_remove_then_get<K: Ord, V>(s: Seq<(K, V)>, k: K)
    requires
        total_order::<K>(),
        sorted(entry_keys(s)),
    ensures
        lookup(without(s, k), k) is None,
        forall|j: K| j != k ==> #[trigger] lookup(without(s, k), j) == lookup(s, j),
        lookup(s, k) is Some ==> without(s, k).len() == s.len() - 1,
        lookup(s, k) is None ==> without(s, k) == s,
{
    lemma_without(s, k);
}

/// After `remove(e)` the set does not hold `e`. Where it held `e` before, it
/// is shorter by one; else it is unchanged.
pub proof fn law_set_remove_then_contains<T: Ord>(s: Seq<T>, e: T)
    requires
        total_order::<T>(),
        sorted(s),
    ensures
        !removed(s, e).contains(e),
        s.contains(e) ==> removed(s, e).len() == s.len() - 1,
        !s.contains(e) ==> removed(s, e) == s,
{
    lemma_removed(s, e);
    lemma_holds_is_contains(s, e);
}

/// The entries stand for a map from keys to values: `insert` on the
/// container is `insert` on that map, and `remove` is `remove`.
pub proof fn law_entries_are_a_map<K: Ord, V>(s: Seq<(K, V)>, k: K, v: V)
    requires
        total_order::<K>(),
        sorted(entry_keys(s)),
    ensures
        as_map(put(s, k, v)) == as_map(s).insert(k, v),
        as_map(without(s, k)) == as_map(s).remove(k),
{
    lemma_put(s, k, v);
    lemma_without(s, k);
    assert(as_map(put(s, k, v)) =~= as_map(s).insert(k, v));
    assert(as_map(without(s, k)) =~= as_map(s).remove(k));
}

/// Collecting what a set gives when walked, into a new set, rebuilds the
/// set.
pub proof fn law_set_round_trip<T: Ord>(s: Seq<T>)
    requires
        total_order::<T>(),
        sorted(s),
    ensures
        inserted_all(Seq::<T>::empty(), s) == s,
{
    assert(Seq::<T>::empty() + s =~= s);
    lemma_inserted_all_ascending(Seq::<T>::empty(), s);
}

/// Collecting what a map gives when walked, into a new map, rebuilds the
/// map.
pub proof fn law_map_round_trip<K: Ord, V>(s: Seq<(K, V)>)
    requires
        total_order::<K>(),
        sorted(entry_keys(s)),
    ensures
        put_all(Seq::<(K, V)>::empty(), s) == s,
{
    assert(Seq::<(K, V)>::empty() + s =~= s);
    lemma_put_all_ascending(Seq::<(K, V)>::empty(), s);
}

/// What merging gives where the rule leaves no choice: each item in turn is
/// put at its key, with `g` of the existing value and the incoming one where
/// the key has a value.
pub open spec fn merged_with<K: Ord, V>(
    g: spec_fn(V, V) -> V,
    s: Seq<(K, V)>,
    items: Seq<(K, V)>,
) -> Seq<(K, V)>
    decreases items.len(),
{
    if items.len() == 0 {
        s
    } else {
        let w = match lookup(s, items[0].0) {
            Some(u) => g(u, items[0].1),
            None => items[0].1,
        };
        merged_with(g, put(s, items[0].0, w), items.drop_first())
    }
}

/// Merging is folding the items through `update`: merging nothing changes
/// nothing, and merging a first item and then the rest is an `update` at the
/// first item's key, whose function returns the incoming value where it is
/// handed nothing and else combines, followed by the merge of the rest.
pub proof fn law_merge_is_fold_of_update<K: Ord, V>(
    rule: spec_fn(V, V, V) -> bool,
    s: Seq<(K, V)>,
    items: Seq<(K, V)>,
    t: Seq<(K, V)>,
)
    ensures
        items.len() == 0 ==> (merged(rule, s, items, t) <==> t == s),
        items.len() > 0 ==> (merged(rule, s, items, t) <==> exists|w: V| #[trigger]
            combined(rule, lookup(s, items[0].0), items[0].1, w) && merged(
                rule,
                put(s, items[0].0, w),
                items.drop_first(),
                t,
            )),
{
}

/// Where the combining function is a function in the mathematical sense,
/// `g`, merging has one outcome.
pub proof fn law_merge_with_function<K: Ord, V>(
    rule: spec_fn(V, V, V) -> bool,
    g: spec_fn(V, V) -> V,
    s: Seq<(K, V)>,
    items: Seq<(K, V)>,
    t: Seq<(K, V)>,
)
    requires
        forall|u: V, v: V, w: V| #[trigger] rule(u, v, w) ==> w == g(u, v),
        merged(rule, s, items, t),
    ensures
        t == merged_with(g, s, items),
    decreases items.len(),
{
    if items.len() > 0 {
        let w = choose|w: V| #[trigger]
            combined(rule, lookup(s, items[0].0), items[0].1, w) && merged(
                rule,
                put(s, items[0].0, w),
                items.drop_first(),
                t,
            );
        law_merge_with_function(rule, g, put(s, items[0].0, w), items.drop_first(), t);
    }
}

/// The union of two sets does not depend on their order.
pub proof fn law_union_commutes<T: Ord>(a: Seq<T>, b: Seq<T>)
    requires
        total_order::<T>(),
        sorted(a),
        sorted(b),
    ensures
        union_of(a, b) == union_of(b, a),
{
    lemma_union(a, b);
    lemma_union(b, a);
    assert forall|x: T| union_of(a, b).contains(x) <==> union_of(b, a).contains(x) by {}
    lemma_sorted_unique(union_of(a, b), union_of(b, a));
}

/// An intersection is no larger than the smaller of the two sets.
pub proof fn law_intersection_is_small<T: Ord>(a: Seq<T>, b: Seq<T>)
    ensures
        intersection_of(a, b).len() <= a.len(),
        intersection_of(a, b).len() <= b.len(),
{
    lemma_intersection_len(a, b);
}

/// The two differences and the intersection part the union: every element
/// of the union is in exactly one of the three, nothing else is in any of
/// them, and their sizes add up to the size of the union.
pub proof fn law_union_is_parted<T: Ord>(a: Seq<T>, b: Seq<T>)
    requires
        total_order::<T>(),
        sorted(a),
        sorted(b),
    ensures
        forall|x: T| #[trigger]
            union_of(a, b).contains(x) <==> difference_of(a, b).contains(x) || difference_of(
                b,
                a,
            ).contains(x) || intersection_of(a, b).contains(x),
        forall|x: T|
            !(#[trigger] difference_of(a, b).contains(x) && difference_of(b, a).contains(x)),
        forall|x: T|
            !(#[trigger] difference_of(a, b).contains(x) && intersection_of(a, b).contains(x)),
        forall|x: T|
            !(#[trigger] difference_of(b, a).contains(x) && intersection_of(a, b).contains(x)),
        union_of(a, b).len() == difference_of(a, b).len() + difference_of(b, a).len()
            + intersection_of(a, b).len(),
{
    lemma_union(a, b);
    lemma_difference(a, b);
    lemma_difference(b, a);
    lemma_intersection(a, b);
    lemma_parts_add_up(a, b);
    assert forall|x: T| #[trigger]
        union_of(a, b).contains(x) <==> difference_of(a, b).contains(x) || difference_of(
            b,
            a,
        ).contains(x) || intersection_of(a, b).contains(x) by {
        assert(difference_of(a, b).contains(x) <==> a.contains(x) && !b.contains(x));
        assert(difference_of(b, a).contains(x) <==> b.contains(x) && !a.contains(x));
        assert(intersection_of(a, b).contains(x) <==> a.contains(x) && b.contains(x));
    }
    assert forall|x: T|
        !(#[trigger] difference_of(a, b).contains(x) && difference_of(b, a).contains(x)) by {
        assert(difference_of(b, a).contains(x) <==> b.contains(x) && !a.contains(x));
    }
    assert forall|x: T|
        !(#[trigger] difference_of(a, b).contains(x) && intersection_of(a, b).contains(x)) by {
        assert(intersection_of(a, b).contains(x) <==> a.contains(x) && b.contains(x));
    }
    assert forall|x: T|
        !(#[trigger] difference_of(b, a).contains(x) && intersection_of(a, b).contains(x)) by {
        assert(intersection_of(a, b).contains(x) <==> a.contains(x) && b.contains(x));
    }
}

/// The sizes of the two differences and of the intersection add up to the
/// size of the union.
pub proof fn lemma_parts_add_up<T: Ord>(a: Seq<T>, b: Seq<T>)
    requires
        total_order::<T>(),
    ensures
        union_of(a, b).len() == difference_of(a, b).len() + difference_of(b, a).len()
            + intersection_of(a, b).len(),
    decreases a.len() + b.len(),
{
    if a.len() == 0 || b.len() == 0 {
    } else {
        lemma_trichotomy(a[0], b[0]);
        if lt(a[0], b[0]) {
            lemma_parts_add_up(a.drop_first(), b);
        } else if lt(b[0], a[0]) {
            lemma_parts_add_up(a, b.drop_first());
        } else {
            lemma_parts_add_up(a.drop_first(), b.drop_first());
        }
    }
}

/// The symmetric difference is the union of the two differences.
pub proof fn law_symmetric_difference_is_union_of_differences<T: Ord>(a: Seq<T>, b: Seq<T>)
    requires
        total_order::<T>(),
        sorted(a),
        sorted(b),
    ensures
        symmetric_difference_of(a, b) == union_of(difference_of(a, b), difference_of(b, a)),
{
    lemma_symmetric_difference(a, b);
    lemma_difference(a, b);
    lemma_difference(b, a);
    lemma_union(difference_of(a, b), difference_of(b, a));
    let d1 = difference_of(a, b);
    let d2 = difference_of(b, a);
    assert forall|x: T|
        symmetric_difference_of(a, b).contains(x) <==> union_of(d1, d2).contains(x) by {
        assert(d1.contains(x) <==> a.contains(x) && !b.contains(x));
        assert(d2.contains(x) <==> b.contains(x) && !a.contains(x));
    }
    lemma_sorted_unique(
        symmetric_difference_of(a, b),
        union_of(difference_of(a, b), difference_of(b, a)),
    );
}

/// Where the predicate handed to `retain` is a function in the mathematical
/// sense, `p`, what stays is the elements that `p` accepts, in their order.
pub proof fn law_retain_with_function<T, F: FnMut(&T) -> bool>(
    f: F,
    p: spec_fn(T) -> bool,
    s: Seq<T>,
    t: Seq<T>,
)
    requires
        forall|x: T, b: bool| #[trigger] f.ensures((&x,), b) ==> b == p(x),
        kept_by(f, s, t),
    ensures
        t == s.filter(p),
    decreases s.len(),
{
    reveal(Seq::filter);
    if s.len() > 0 {
        if f.ensures((&s.last(),), true) && t.len() > 0 && t.last() == s.last() && kept_by(
            f,
            s.drop_last(),
            t.drop_last(),
        ) {
            law_retain_with_function(f, p, s.drop_last(), t.drop_last());
            assert(t =~= t.drop_last().push(t.last()));
        } else {
            law_retain_with_function(f, p, s.drop_last(), t);
        }
    } else {
        assert(t =~= Seq::<T>::empty());
    }
}

} // verus!
