//! Sequences of entries sorted by key, the model of what the map stores.
use crate::order::lt;
use crate::order::total_order;
use crate::search::entry_keys;
use crate::sorted::holds;
use crate::sorted::inserted;
use crate::sorted::lemma_holds_is_contains;
use crate::sorted::lemma_inserted;
use crate::sorted::lemma_rank_bounds;
use crate::sorted::lemma_rank_unique;
use crate::sorted::lemma_removed;
use crate::sorted::lemma_sorted_no_duplicates;
use crate::sorted::rank;
use crate::sorted::removed;
use crate::sorted::sorted;
use vstd::prelude::*;

verus! {

/// The value that stands with the key `k`, if `k` is among the keys.
pub open spec fn lookup<K: Ord, V>(s: Seq<(K, V)>, k: K) -> Option<V> {
    if holds(entry_keys(s), k) {
        Some(s[rank(entry_keys(s), k)].1)
    } else {
        None
    }
}

/// The entries with `v` standing at `k`: in place of the entry that `k` had,
/// or as a new entry at the rank of `k`.
pub open spec fn put<K: Ord, V>(s: Seq<(K, V)>, k: K, v: V) -> Seq<(K, V)> {
    if holds(entry_keys(s), k) {
        s.update(rank(entry_keys(s), k), (k, v))
    } else {
        s.insert(rank(entry_keys(s), k), (k, v))
    }
}

/// The entries without the one that `k` has, if it has one.
pub open spec fn without<K: Ord, V>(s: Seq<(K, V)>, k: K) -> Seq<(K, V)> {
    if holds(entry_keys(s), k) {
        s.remove(rank(entry_keys(s), k))
    } else {
        s
    }
}

/// `items` put into `s` one after the other, first to last.
pub open spec fn put_all<K: Ord, V>(s: Seq<(K, V)>, items: Seq<(K, V)>) -> Seq<(K, V)>
    decreases items.len(),
{
    if items.len() == 0 {
        s
    } else {
        put_all(put(s, items[0].0, items[0].1), items.drop_first())
    }
}

/// The entries as a map from keys to values.
pub open spec fn as_map<K: Ord, V>(s: Seq<(K, V)>) -> Map<K, V> {
    Map::new(|k: K| lookup(s, k) is Some, |k: K| lookup(s, k)->0)
}

/// Where a key stands among sorted keys, there stands its entry.
pub proof fn lemma_lookup_at<K: Ord, V>(s: Seq<(K, V)>, i: int)
    requires
        total_order::<K>(),
        sorted(entry_keys(s)),
        0 <= i < s.len(),
    ensures
        rank(entry_keys(s), s[i].0) == i,
        lookup(s, s[i].0) == Some(s[i].1),
{
    let keys = entry_keys(s);
    assert(keys[i] == s[i].0);
    lemma_holds_is_contains(keys, s[i].0);
    lemma_sorted_no_duplicates(keys);
    assert(keys.contains(s[i].0));
}

/// What `put` does: the keys are those of before with `k` inserted, `k` has
/// the value `v`, and every other key has what it had.
pub proof fn lemma_put<K: Ord, V>(s: Seq<(K, V)>, k: K, v: V)
    requires
        total_order::<K>(),
        sorted(entry_keys(s)),
    ensures
        entry_keys(put(s, k, v)) == inserted(entry_keys(s), k),
        sorted(entry_keys(put(s, k, v))),
        lookup(put(s, k, v), k) == Some(v),
        forall|j: K| j != k ==> #[trigger] lookup(put(s, k, v), j) == lookup(s, j),
        put(s, k, v).len() == s.len() + if lookup(s, k) is Some {
            0int
        } else {
            1int
        },
{
    let keys = entry_keys(s);
    let t = put(s, k, v);
    let r = rank(keys, k);
    lemma_rank_bounds(keys, k);
    lemma_inserted(keys, k);
    lemma_holds_is_contains(keys, k);
    assert(entry_keys(t) =~= inserted(keys, k));
    lemma_lookup_at(t, r);
    assert forall|j: K| j != k implies #[trigger] lookup(t, j) == lookup(s, j) by {
        lemma_holds_is_contains(keys, j);
        lemma_holds_is_contains(entry_keys(t), j);
        if holds(keys, j) {
            let i = rank(keys, j);
            let i2 = if holds(keys, k) || i < r {
                i
            } else {
                i + 1
            };
            assert(t[i2] == s[i]);
            lemma_lookup_at(t, i2);
        }
    }
}

/// What `without` does: the keys are those of before with `k` removed, `k`
/// has no value, and every other key has what it had.
pub proof fn lemma_without<K: Ord, V>(s: Seq<(K, V)>, k: K)
    requires
        total_order::<K>(),
        sorted(entry_keys(s)),
    ensures
        entry_keys(without(s, k)) == removed(entry_keys(s), k),
        sorted(entry_keys(without(s, k))),
        lookup(without(s, k), k) is None,
        forall|j: K| j != k ==> #[trigger] lookup(without(s, k), j) == lookup(s, j),
        without(s, k).len() == s.len() - if lookup(s, k) is Some {
            1int
        } else {
            0int
        },
{
    let keys = entry_keys(s);
    let t = without(s, k);
    let r = rank(keys, k);
    lemma_rank_bounds(keys, k);
    lemma_removed(keys, k);
    lemma_holds_is_contains(keys, k);
    assert(entry_keys(t) =~= removed(keys, k));
    assert forall|j: K| j != k implies #[trigger] lookup(t, j) == lookup(s, j) by {
        lemma_holds_is_contains(keys, j);
        lemma_holds_is_contains(entry_keys(t), j);
        if holds(keys, j) {
            let i = rank(keys, j);
            let i2 = if !holds(keys, k) || i < r {
                i
            } else {
                i - 1
            };
            assert(t[i2] == s[i]);
            lemma_lookup_at(t, i2);
        }
    }
}

/// Whatever is put into sorted entries, in whatever order: the outcome is
/// sorted by key.
pub proof fn lemma_put_all<K: Ord, V>(s: Seq<(K, V)>, items: Seq<(K, V)>)
    requires
        total_order::<K>(),
        sorted(entry_keys(s)),
    ensures
        sorted(entry_keys(put_all(s, items))),
    decreases items.len(),
{
    if items.len() > 0 {
        lemma_put(s, items[0].0, items[0].1);
        lemma_put_all(put(s, items[0].0, items[0].1), items.drop_first());
    }
}

/// Putting the entries of a sequence sorted by key, in their order, behind
/// sorted entries whose keys are all below theirs builds the two joined.
pub proof fn lemma_put_all_ascending<K: Ord, V>(p: Seq<(K, V)>, s: Seq<(K, V)>)
    requires
        total_order::<K>(),
        sorted(entry_keys(p + s)),
    ensures
        put_all(p, s) == p + s,
    decreases s.len(),
{
    if s.len() == 0 {
        assert(p + s =~= p);
    } else {
        let k = s[0].0;
        let all = p + s;
        let keys = entry_keys(all);
        let pk = entry_keys(p);
        assert(keys[p.len() as int] == k);
        assert forall|j: int| 0 <= j < pk.len() implies lt(#[trigger] pk[j], k) by {
            assert(keys[j] == pk[j]);
            assert(lt(keys[j], keys[p.len() as int]));
        }
        lemma_rank_unique(pk, k, pk.len() as int);
        assert(put(p, k, s[0].1) =~= p.push(s[0]));
        assert(p.push(s[0]) + s.drop_first() =~= all);
        lemma_put_all_ascending(p.push(s[0]), s.drop_first());
    }
}

} // verus!
