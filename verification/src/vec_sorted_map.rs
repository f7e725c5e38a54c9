//! A map kept as an array of entries sorted by key.
use crate::entries::lemma_put;
use crate::entries::lemma_without;
use crate::entries::lookup;
use crate::entries::put;
use crate::entries::put_all;
use crate::entries::without;
use crate::order::lt;
use crate::order::total_order;
use crate::search::entry_keys;
use crate::search::search_entries;
use crate::sorted::lemma_concat_sorted;
use crate::sorted::lemma_holds_is_contains;
use crate::sorted::lemma_kept_by_sorted;
use crate::sorted::lemma_rank_bounds;
use crate::sorted::lemma_subrange_sorted;
use crate::sorted::sorted;
use crate::storage::allocatable;
use crate::storage::vec_capacity;
use crate::storage::vec_reserve_exact;
use crate::storage::vec_shrink_to_fit;
use crate::walk::advance;
use crate::walk::kept_by;
use crate::walk::retain_in;
use std::vec::IntoIter;
use vstd::prelude::*;
use vstd::std_specs::iter::IteratorSpec;

verus! {

/// An array-map sorted by key. Very efficient for small maps.
///
/// The entries stand in a `Vec`, their keys strictly ascending. The view is
/// that sequence of entries.
///
/// There is no `entry`; see [`VecSortedMap::update`] for the same
/// functionality. The in-place functions are **not** much more efficient
/// than the functional ones for this data structure.
#[derive(Default, Clone, PartialEq, Eq, PartialOrd, Ord, Hash, Debug)]
pub struct VecSortedMap<K, V>(Vec<(K, V)>);

impl<K, V> View for VecSortedMap<K, V> {
    type V = Seq<(K, V)>;

    closed spec fn view(&self) -> Seq<(K, V)> {
        self.0@
    }
}

/// The value that an update starts from: what stands at the key, or else
/// the default.
pub open spec fn start_value<V>(existing: Option<V>, default: V) -> V {
    match existing {
        Some(u) => u,
        None => default,
    }
}

/// `w` is what a merge leaves at a key: the incoming value where the key had
/// none, else a value that `rule` allows for the existing value and the
/// incoming one, in that order.
pub open spec fn combined<V>(
    rule: spec_fn(V, V, V) -> bool,
    existing: Option<V>,
    incoming: V,
    w: V,
) -> bool {
    match existing {
        Some(u) => rule(u, incoming, w),
        None => w == incoming,
    }
}

/// `t` is what merging `items` into `s` gives: each item in turn, first to
/// last, is put at its key with a value that `combined` allows. This is the
/// fold of `update` over the items.
pub open spec fn merged<K: Ord, V>(
    rule: spec_fn(V, V, V) -> bool,
    s: Seq<(K, V)>,
    items: Seq<(K, V)>,
    t: Seq<(K, V)>,
) -> bool
    decreases items.len(),
{
    if items.len() == 0 {
        t == s
    } else {
        exists|w: V| #[trigger]
            combined(rule, lookup(s, items[0].0), items[0].1, w) && merged(
                rule,
                put(s, items[0].0, w),
                items.drop_first(),
                t,
            )
    }
}

/// What a combining function may return, as a rule for `merged`.
pub open spec fn rule_of<V, F: FnMut(V, V) -> V>(f: F) -> spec_fn(V, V, V) -> bool {
    |u: V, v: V, w: V| f.ensures((u, v), w)
}

/// The merge of `items` into `s` hands the combining function only pairs
/// that it accepts, where the function accepts what `pre` accepts and keeps
/// `rule`: at each item whose key has a value, `pre` accepts that value and
/// the incoming one, and whatever `rule` allows to come of them, the same
/// holds of the rest. For a key that is new the function is not called.
pub open spec fn merge_admits_by<K: Ord, V>(
    pre: spec_fn(V, V) -> bool,
    rule: spec_fn(V, V, V) -> bool,
    s: Seq<(K, V)>,
    items: Seq<(K, V)>,
) -> bool
    decreases items.len(),
{
    items.len() == 0 || match lookup(s, items[0].0) {
        None => merge_admits_by(pre, rule, put(s, items[0].0, items[0].1), items.drop_first()),
        Some(u) => pre(u, items[0].1) && forall|w: V| #[trigger]
            rule(u, items[0].1, w) ==> merge_admits_by(
                pre,
                rule,
                put(s, items[0].0, w),
                items.drop_first(),
            ),
    }
}

/// Where `pre` accepts every pair, a merge can be made, whatever the rule,
/// the map and the items.
pub proof fn lemma_merge_admits_by_all<K: Ord, V>(
    pre: spec_fn(V, V) -> bool,
    rule: spec_fn(V, V, V) -> bool,
    s: Seq<(K, V)>,
    items: Seq<(K, V)>,
)
    requires
        forall|u: V, v: V| #[trigger] pre(u, v),
    ensures
        merge_admits_by(pre, rule, s, items),
    decreases items.len(),
{
    if items.len() > 0 {
        match lookup(s, items[0].0) {
            None => {
                lemma_merge_admits_by_all(
                    pre,
                    rule,
                    put(s, items[0].0, items[0].1),
                    items.drop_first(),
                );
            },
            Some(u) => {
                assert forall|w: V| #[trigger] rule(u, items[0].1, w) implies merge_admits_by(
                    pre,
                    rule,
                    put(s, items[0].0, w),
                    items.drop_first(),
                ) by {
                    lemma_merge_admits_by_all(pre, rule, put(s, items[0].0, w), items.drop_first());
                }
            },
        }
    }
}

/// The pairs that a combining function accepts, as a condition for
/// `merge_admits_by`.
pub open spec fn accepts_of<V, F: FnMut(V, V) -> V>(f: F) -> spec_fn(V, V) -> bool {
    |u: V, v: V| f.requires((u, v))
}

/// The merge of `items` into `s` hands `f` only pairs that it accepts.
pub open spec fn merge_admits<K: Ord, V, F: FnMut(V, V) -> V>(
    f: F,
    s: Seq<(K, V)>,
    items: Seq<(K, V)>,
) -> bool {
    merge_admits_by(accepts_of(f), rule_of(f), s, items)
}

/// A function that accepts every pair can be merged with, whatever the map
/// and the items.
pub proof fn lemma_merge_admits_all<K: Ord, V, F: FnMut(V, V) -> V>(
    f: F,
    s: Seq<(K, V)>,
    items: Seq<(K, V)>,
)
    requires
        forall|u: V, v: V| f.requires((u, v)),
    ensures
        merge_admits(f, s, items),
{
    lemma_merge_admits_by_all(accepts_of(f), rule_of(f), s, items);
}

/// The array after `swap_remove` at `i`: the last entry stands in the gap.
pub open spec fn gapped<T>(s: Seq<T>, i: int) -> Seq<T> {
    s.update(i, s.last()).drop_last()
}

/// The array after `restore_entry` at `i`: `e` stands at `i`, and the entry
/// that filled the gap is last again.
pub open spec fn restored<T>(s: Seq<T>, i: int, e: T) -> Seq<T> {
    if i == s.len() {
        s.push(e)
    } else {
        s.update(i, e).push(s[i])
    }
}

/// Taking an entry out and putting one back at the same index replaces the
/// entry and moves no other.
pub proof fn lemma_restored<T>(s: Seq<T>, i: int, e: T)
    requires
        0 <= i < s.len(),
    ensures
        restored(gapped(s, i), i, e) == s.update(i, e),
{
    assert(restored(gapped(s, i), i, e) =~= s.update(i, e));
}

/// Puts `e` at `i` after a `swap_remove` there, without shifting: the entry
/// that filled the gap goes back to the end.
fn restore_entry<T>(v: &mut Vec<T>, i: usize, e: T)
    requires
        i <= old(v)@.len(),
    ensures
        final(v)@ == restored(old(v)@, i as int, e),
{
    let ghost before = v@;
    v.push(e);
    if i < v.len() - 1 {
        let moved = v.swap_remove(i);
        v.push(moved);
        assert(v@ =~= restored(before, i as int, e));
    }
}

impl<K, V> VecSortedMap<K, V> {
    /// The array of entries.
    pub fn view_content<'a>(&'a self) -> (r: &'a [(K, V)])
        ensures
            r@ == self@,
    {
        self.0.as_slice()
    }

    /// Walks the entries in ascending order of keys. The items are
    /// `&(K, V)`, not `(&K, &V)`.
    pub fn iter(&self) -> (r: std::slice::Iter<'_, (K, V)>)
        ensures
            r.remaining() == self@.as_ref(),
            r.obeys_prophetic_iter_laws(),
            r.decrease() is Some,
    {
        self.0.iter()
    }

    /// The number of entries.
    pub fn len(&self) -> (r: usize)
        ensures
            r == self@.len(),
    {
        self.0.len()
    }

    /// Whether the map has no entry.
    pub fn is_empty(&self) -> (r: bool)
        ensures
            r == (self@.len() == 0),
    {
        self.0.is_empty()
    }
}

impl<K: Ord, V> VecSortedMap<K, V> {
    /// The keys, in the order of the entries.
    pub open spec fn keys(&self) -> Seq<K> {
        entry_keys(self@)
    }

    /// The keys are strictly ascending.
    pub open spec fn wf(&self) -> bool {
        sorted(self.keys())
    }

    /// An empty map.
    pub fn new() -> (r: Self)
        ensures
            r@ == Seq::<(K, V)>::empty(),
            r.wf(),
    {
        VecSortedMap(Vec::new())
    }

    /// An empty map with room for `n` entries.
    pub fn with_capacity(n: usize) -> (r: Self)
        requires
            allocatable::<(K, V)>(n as int),
        ensures
            r@ == Seq::<(K, V)>::empty(),
            r.wf(),
    {
        VecSortedMap(Vec::with_capacity(n))
    }

    /// The number of entries the map has room for.
    pub fn capacity(&self) -> (r: usize)
        ensures
            r >= self@.len(),
    {
        vec_capacity(&self.0)
    }

    /// Makes room for `n` more entries.
    pub fn reserve(&mut self, n: usize)
        requires
            allocatable::<(K, V)>(old(self)@.len() + n),
        ensures
            final(self)@ == old(self)@,
    {
        self.0.reserve(n)
    }

    /// Gives unused room back.
    pub fn shrink_to_fit(&mut self)
        ensures
            final(self)@ == old(self)@,
    {
        vec_shrink_to_fit(&mut self.0)
    }

    /// Takes every entry out.
    pub fn clear(&mut self)
        ensures
            final(self)@ == Seq::<(K, V)>::empty(),
            final(self).wf(),
    {
        self.0.clear()
    }

    /// Whether `k` has an entry. O(log(len)).
    pub fn contains_key(&self, k: &K) -> (r: bool)
        requires
            total_order::<K>(),
            self.wf(),
        ensures
            r == lookup(self@, *k) is Some,
            r == self.keys().contains(*k),
    {
        match self.get(k) {
            Some(_) => true,
            None => false,
        }
    }

    /// The value that stands at `k`, if `k` has an entry. O(log(len)).
    pub fn get(&self, k: &K) -> (r: Option<&V>)
        requires
            total_order::<K>(),
            self.wf(),
        ensures
            match r {
                Some(v) => lookup(self@, *k) == Some(*v),
                None => lookup(self@, *k) is None,
            },
            r is Some <==> self.keys().contains(*k),
    {
        proof {
            lemma_holds_is_contains(self.keys(), *k);
        }
        match search_entries(&self.0, k) {
            Ok(i) => Some(&self.0[i].1),
            Err(_) => None,
        }
    }

    /// The value that stands at `k`, if `k` has an entry, for writing.
    /// O(log(len)).
    ///
    /// The key cannot be reached through the result, so the map stays well
    /// formed whatever is written.
    pub fn get_mut(&mut self, k: &K) -> (r: Option<&mut V>)
        requires
            total_order::<K>(),
            old(self).wf(),
        ensures
            match r {
                Some(v) => lookup(old(self)@, *k) == Some(*v) && final(self)@ == put(
                    old(self)@,
                    *k,
                    *final(v),
                ),
                None => lookup(old(self)@, *k) is None && final(self)@ == old(self)@,
            },
            final(self).keys() == old(self).keys(),
            final(self).wf(),
    {
        proof {
            lemma_holds_is_contains(self.keys(), *k);
        }
        let ghost before = self@;
        match search_entries(&self.0, k) {
            Ok(i) => {
                let r = &mut self.0[i].1;
                proof {
                    let after = before.update(i as int, (*k, *final(r)));
                    assert(entry_keys(after) =~= entry_keys(before));
                }
                Some(r)
            },
            Err(_) => None,
        }
    }

    /// Puts `v` at `k` and returns the value that stood there, if any.
    ///
    /// O(log(len)) when `k` has an entry already. O(len) for a new entry,
    /// because all entries after it are shifted; inserting in ascending order
    /// of keys avoids that.
    pub fn insert(&mut self, k: K, v: V) -> (r: Option<V>)
        requires
            total_order::<K>(),
            old(self).wf(),
        ensures
            final(self).wf(),
            final(self)@ == put(old(self)@, k, v),
            r == lookup(old(self)@, k),
            lookup(final(self)@, k) == Some(v),
            forall|j: K| j != k ==> #[trigger] lookup(final(self)@, j) == lookup(old(self)@, j),
            final(self)@.len() == old(self)@.len() + if r is Some {
                0int
            } else {
                1int
            },
    {
        proof {
            lemma_put(self@, k, v);
        }
        match search_entries(&self.0, &k) {
            Ok(i) => {
                let ghost before = self.0@;
                self.0.push((k, v));
                let prior = self.0.swap_remove(i);
                assert(self.0@ =~= before.update(i as int, (k, v)));
                Some(prior.1)
            },
            Err(i) => {
                self.0.insert(i, (k, v));
                None
            },
        }
    }

    /// Takes the entry of `k` out and returns its value, if `k` had one.
    ///
    /// O(log(len)) when `k` has no entry. O(len) for removing an entry,
    /// because all entries after it are shifted.
    pub fn remove(&mut self, k: &K) -> (r: Option<V>)
        requires
            total_order::<K>(),
            old(self).wf(),
        ensures
            final(self).wf(),
            final(self)@ == without(old(self)@, *k),
            r == lookup(old(self)@, *k),
            lookup(final(self)@, *k) is None,
            forall|j: K| j != *k ==> #[trigger] lookup(final(self)@, j) == lookup(old(self)@, j),
            final(self)@.len() == old(self)@.len() - if r is Some {
                1int
            } else {
                0int
            },
    {
        proof {
            lemma_without(self@, *k);
        }
        match search_entries(&self.0, k) {
            Ok(i) => Some(self.0.remove(i).1),
            Err(_) => None,
        }
    }

    /// Moves all entries of `other` to the end of this map's array, and
    /// leaves `other` empty.
    ///
    /// The arrays are joined as they are, not merged. The outcome is well
    /// formed if both maps were and every key of this map is below every key
    /// of `other`.
    pub fn append(&mut self, other: &mut VecSortedMap<K, V>)
        ensures
            final(self)@ == old(self)@ + old(other)@,
            final(other)@ == Seq::<(K, V)>::empty(),
            final(other).wf(),
            total_order::<K>() && old(self).wf() && old(other).wf() && (old(self)@.len() > 0
                && old(other)@.len() > 0 ==> lt(old(self)@.last().0, old(other)@.first().0))
                ==> final(self).wf(),
    {
        proof {
            assert(entry_keys(self@ + other@) =~= self.keys() + other.keys());
            if total_order::<K>() && self.wf() && other.wf() && (self@.len() > 0 && other@.len()
                > 0 ==> lt(self@.last().0, other@.first().0)) {
                lemma_concat_sorted(self.keys(), other.keys());
            }
        }
        self.0.append(&mut other.0)
    }

    /// Makes room for exactly `additional` more entries.
    pub fn reserve_exact(&mut self, additional: usize)
        requires
            allocatable::<(K, V)>(old(self)@.len() + additional),
        ensures
            final(self)@ == old(self)@,
    {
        vec_reserve_exact(&mut self.0, additional)
    }

    /// Takes the entry with the greatest key out and returns it.
    pub fn pop(&mut self) -> (r: Option<(K, V)>)
        ensures
            old(self)@.len() == 0 ==> r is None && final(self)@ == old(self)@,
            old(self)@.len() > 0 ==> r == Some(old(self)@.last()) && final(self)@ == old(
                self,
            )@.drop_last(),
            old(self).wf() ==> final(self).wf(),
    {
        proof {
            if self.wf() && self@.len() > 0 {
                lemma_subrange_sorted(self.keys(), 0, self@.len() - 1);
                assert(entry_keys(self@.drop_last()) =~= self.keys().subrange(
                    0,
                    self@.len() - 1,
                ));
            }
        }
        self.0.pop()
    }

    /// Keeps the first `len` entries and drops the others.
    pub fn truncate(&mut self, len: usize)
        ensures
            len <= old(self)@.len() ==> final(self)@ == old(self)@.take(len as int),
            len > old(self)@.len() ==> final(self)@ == old(self)@,
            old(self).wf() ==> final(self).wf(),
    {
        proof {
            if self.wf() && len <= self@.len() {
                lemma_subrange_sorted(self.keys(), 0, len as int);
                assert(entry_keys(self@.take(len as int)) =~= self.keys().subrange(
                    0,
                    len as int,
                ));
            }
        }
        self.0.truncate(len)
    }

    /// Keeps the entries for which `f` answers `true` and drops the others,
    /// in one pass from the least key to the greatest.
    pub fn retain<F: FnMut(&(K, V)) -> bool>(&mut self, f: F)
        requires
            old(self).wf(),
            forall|e: &(K, V)| old(self)@.contains(*e) ==> #[trigger] f.requires((e,)),
        ensures
            final(self).wf(),
            kept_by(f, old(self)@, final(self)@),
            forall|e: (K, V)| final(self)@.contains(e) ==> old(self)@.contains(e),
    {
        let ghost all = self@;
        retain_in(&mut self.0, f);
        proof {
            let key = |e: (K, V)| e.0;
            assert(all.map_values(key) =~= entry_keys(all));
            lemma_kept_by_sorted(f, key, all, self@);
            assert(self@.map_values(key) =~= entry_keys(self@));
        }
    }

    /// Splits the map at index `at`: the entries from there on leave it and
    /// are returned as a map of their own.
    pub fn split_off(&mut self, at: usize) -> (r: VecSortedMap<K, V>)
        requires
            at <= old(self)@.len(),
        ensures
            final(self)@ == old(self)@.subrange(0, at as int),
            r@ == old(self)@.subrange(at as int, old(self)@.len() as int),
            old(self).wf() ==> final(self).wf() && r.wf(),
    {
        proof {
            if self.wf() {
                let n = self@.len() as int;
                lemma_subrange_sorted(self.keys(), 0, at as int);
                lemma_subrange_sorted(self.keys(), at as int, n);
                assert(entry_keys(self@.subrange(0, at as int)) =~= self.keys().subrange(
                    0,
                    at as int,
                ));
                assert(entry_keys(self@.subrange(at as int, n)) =~= self.keys().subrange(
                    at as int,
                    n,
                ));
            }
        }
        VecSortedMap(self.0.split_off(at))
    }

    /// Puts every entry that `iter` gives, in its order.
    pub fn extend<I: Iterator<Item = (K, V)>>(&mut self, iter: I)
        requires
            total_order::<K>(),
            old(self).wf(),
            iter.obeys_prophetic_iter_laws(),
            iter.decrease() is Some,
        ensures
            final(self).wf(),
            final(self)@ == put_all(old(self)@, iter.remaining()),
    {
        let mut iter = iter;
        let ghost all = iter.remaining();
        let ghost start = self@;
        loop
            invariant
                total_order::<K>(),
                self.wf(),
                iter.obeys_prophetic_iter_laws(),
                iter.decrease() is Some,
                put_all(self@, iter.remaining()) == put_all(start, all),
            ensures
                self.wf(),
                self@ == put_all(start, all),
            decreases iter.decrease()->0,
        {
            match advance(&mut iter) {
                Some(e) => {
                    self.insert(e.0, e.1);
                },
                None => {
                    break ;
                },
            }
        }
    }

    /// The map of the entries that `iter` gives. Of two entries with the
    /// same key the later one stays.
    pub fn from_iter<I: Iterator<Item = (K, V)>>(iter: I) -> (r: Self)
        requires
            total_order::<K>(),
            iter.obeys_prophetic_iter_laws(),
            iter.decrease() is Some,
        ensures
            r.wf(),
            r@ == put_all(Seq::<(K, V)>::empty(), iter.remaining()),
    {
        VecSortedMap::new().plus(iter)
    }

    /// The map with `v` at `k`.
    pub fn inc(self, k: K, v: V) -> (r: Self)
        requires
            total_order::<K>(),
            self.wf(),
        ensures
            r.wf(),
            r@ == put(self@, k, v),
    {
        let mut this = self;
        this.insert(k, v);
        this
    }

    /// The map without the entry of `k`.
    pub fn dec(self, k: &K) -> (r: Self)
        requires
            total_order::<K>(),
            self.wf(),
        ensures
            r.wf(),
            r@ == without(self@, *k),
    {
        let mut this = self;
        this.remove(k);
        this
    }

    /// The map with every entry of `coll` poured in.
    pub fn plus<I: Iterator<Item = (K, V)>>(self, coll: I) -> (r: Self)
        requires
            total_order::<K>(),
            self.wf(),
            coll.obeys_prophetic_iter_laws(),
            coll.decrease() is Some,
        ensures
            r.wf(),
            r@ == put_all(self@, coll.remaining()),
    {
        let mut this = self;
        this.extend(coll);
        this
    }

    /// The map emptied.
    pub fn zero(self) -> (r: Self)
        ensures
            r@ == Seq::<(K, V)>::empty(),
            r.wf(),
    {
        let mut this = self;
        this.clear();
        this
    }

    /// The map with unused room given back.
    pub fn shrink(self) -> (r: Self)
        ensures
            r@ == self@,
    {
        let mut this = self;
        this.shrink_to_fit();
        this
    }

    /// Puts at `k` what `f` makes of the value that stands there, or of
    /// `None` where `k` has no entry. This is `insert` of that value.
    ///
    /// The slot is found before `f` runs. Where `k` has no entry, the array
    /// is written only when `f` has given its result. Where it has one, the
    /// entry is taken out first, since `f` takes the value by value, and the
    /// new entry goes to the same slot when `f` has given its result; the map
    /// is owned by the call, so nobody sees the array in between.
    pub fn update<F: FnOnce(Option<V>) -> V>(self, k: K, f: F) -> (r: Self)
        requires
            total_order::<K>(),
            self.wf(),
            f.requires((lookup(self@, k),)),
        ensures
            r.wf(),
            lookup(r@, k) matches Some(w) && f.ensures((lookup(self@, k),), w) && r@ == put(
                self@,
                k,
                w,
            ),
    {
        let mut this = self;
        let ghost before = this@;
        match search_entries(&this.0, &k) {
            Err(i) => {
                let w = f(None);
                proof {
                    lemma_put(before, k, w);
                }
                this.0.insert(i, (k, w));
            },
            Ok(i) => {
                let (_, v) = this.0.swap_remove(i);
                let w = f(Some(v));
                proof {
                    lemma_put(before, k, w);
                    lemma_restored(before, i as int, (k, w));
                }
                restore_entry(&mut this.0, i, (k, w));
            },
        }
        this
    }

    /// Replaces every value by what `f` makes of its key and of it, in
    /// ascending order of keys. The keys stay.
    pub fn update_all<F: FnMut(&K, V) -> V>(self, mut f: F) -> (r: Self)
        requires
            forall|i: int|
                0 <= i < self@.len() ==> f.requires((&#[trigger] self@[i].0, self@[i].1)),
        ensures
            r.keys() == self.keys(),
            forall|i: int|
                0 <= i < self@.len() ==> f.ensures((&self@[i].0, self@[i].1), #[trigger] r@[i].1),
            self.wf() ==> r.wf(),
    {
        let ghost all = self@;
        let ghost f0 = f;
        let mut out: Vec<(K, V)> = Vec::new();
        let mut rest = self.0.into_iter();
        loop
            invariant
                f == f0,
                rest.obeys_prophetic_iter_laws(),
                rest.decrease() is Some,
                out@.len() <= all.len(),
                rest.remaining() == all.skip(out@.len() as int),
                forall|i: int|
                    0 <= i < all.len() ==> f.requires((&#[trigger] all[i].0, all[i].1)),
                forall|i: int| 0 <= i < out@.len() ==> (#[trigger] out@[i]).0 == all[i].0,
                forall|i: int|
                    0 <= i < out@.len() ==> f.ensures((&all[i].0, all[i].1), #[trigger] out@[i].1),
            ensures
                out@.len() == all.len(),
                forall|i: int| 0 <= i < out@.len() ==> (#[trigger] out@[i]).0 == all[i].0,
                forall|i: int|
                    0 <= i < out@.len() ==> f0.ensures(
                        (&all[i].0, all[i].1),
                        #[trigger] out@[i].1,
                    ),
            decreases rest.decrease()->0,
        {
            let ghost n = out@.len() as int;
            match advance(&mut rest) {
                Some(e) => {
                    proof {
                        assert(e == all[n]);
                        assert(all.skip(n).drop_first() =~= all.skip(n + 1));
                    }
                    let (k, v) = e;
                    let w = f(&k, v);
                    out.push((k, w));
                },
                None => {
                    break ;
                },
            }
        }
        proof {
            assert(entry_keys(out@) =~= entry_keys(all));
        }
        VecSortedMap(out)
    }

    /// Merges the entries that `coll` gives into the map, in its order: an
    /// entry whose key is new is put as it is; at a key that has a value,
    /// what `f` makes of the existing value and the incoming one is put.
    /// This is a fold of `update` over the entries.
    ///
    /// `f` has to accept only the pairs that the fold hands it, see
    /// [`merge_admits`]; it is never called for a key that is new.
    pub fn merge<I: Iterator<Item = (K, V)>, F: FnMut(V, V) -> V>(self, coll: I, mut f: F) -> (r:
        Self)
        requires
            total_order::<K>(),
            self.wf(),
            coll.obeys_prophetic_iter_laws(),
            coll.decrease() is Some,
            merge_admits(f, self@, coll.remaining()),
        ensures
            r.wf(),
            merged(rule_of(f), self@, coll.remaining(), r@),
    {
        let mut this = self;
        let mut coll = coll;
        let ghost start = this@;
        let ghost all = coll.remaining();
        let ghost f0 = f;
        loop
            invariant
                total_order::<K>(),
                this.wf(),
                f == f0,
                coll.obeys_prophetic_iter_laws(),
                coll.decrease() is Some,
                merge_admits(f0, this@, coll.remaining()),
                forall|t: Seq<(K, V)>|
                    merged(rule_of(f0), this@, coll.remaining(), t) ==> merged(
                        rule_of(f0),
                        start,
                        all,
                        t,
                    ),
            ensures
                this.wf(),
                merged(rule_of(f0), start, all, this@),
            decreases coll.decrease()->0,
        {
            let ghost before = this@;
            let ghost rest = coll.remaining();
            match advance(&mut coll) {
                None => {
                    break ;
                },
                Some(e) => {
                    let (k, v) = e;
                    let ghost w: V;
                    match search_entries(&this.0, &k) {
                        Ok(i) => {
                            let (_, u) = this.0.swap_remove(i);
                            let x = f(u, v);
                            proof {
                                w = x;
                                lemma_restored(before, i as int, (k, x));
                            }
                            restore_entry(&mut this.0, i, (k, x));
                        },
                        Err(i) => {
                            proof {
                                w = v;
                            }
                            this.0.insert(i, (k, v));
                        },
                    }
                    proof {
                        lemma_put(before, k, w);
                        assert(this@ == put(before, k, w));
                        assert(combined(rule_of(f0), lookup(before, k), v, w));
                        assert forall|t: Seq<(K, V)>|
                            merged(rule_of(f0), this@, coll.remaining(), t) implies merged(
                            rule_of(f0),
                            start,
                            all,
                            t,
                        ) by {
                            assert(merged(rule_of(f0), before, rest, t));
                        }
                    }
                },
            }
        }
        this
    }

    /// Hands the value at `k` to `f` for writing, having put `fnil` there
    /// first where `k` had no entry.
    ///
    /// For this data structure the cost is that of `update`.
    pub fn update_mut<F: FnOnce(&mut V)>(&mut self, k: K, fnil: V, f: F)
        requires
            total_order::<K>(),
            old(self).wf(),
            forall|x: &mut V|
                *x == start_value(lookup(old(self)@, k), fnil) ==> #[trigger] f.requires((x,)),
        ensures
            final(self).wf(),
            lookup(final(self)@, k) matches Some(w) && final(self)@ == put(old(self)@, k, w)
                && exists|x: &mut V|
                *x == start_value(lookup(old(self)@, k), fnil) && *final(x) == w
                    && #[trigger] f.ensures((x,), ()),
    {
        let ghost before = self@;
        let i = match search_entries(&self.0, &k) {
            Ok(i) => i,
            Err(i) => {
                self.0.insert(i, (k, fnil));
                i
            },
        };
        let ghost mid = self@;
        let ghost u = self@[i as int].1;
        f(&mut self.0[i].1);
        proof {
            let w = self@[i as int].1;
            assert(self@ =~= mid.update(i as int, (k, w)));
            assert(self@ =~= put(before, k, w));
            lemma_put(before, k, w);
        }
    }

    /// The map after `update_mut`.
    pub fn update_in_place<F: FnOnce(&mut V)>(self, k: K, fnil: V, f: F) -> (r: Self)
        requires
            total_order::<K>(),
            self.wf(),
            forall|x: &mut V|
                *x == start_value(lookup(self@, k), fnil) ==> #[trigger] f.requires((x,)),
        ensures
            r.wf(),
            lookup(r@, k) matches Some(w) && r@ == put(self@, k, w) && exists|x: &mut V|
                *x == start_value(lookup(self@, k), fnil) && *final(x) == w
                    && #[trigger] f.ensures((x,), ()),
    {
        let mut this = self;
        this.update_mut(k, fnil, f);
        this
    }

    /// Hands every value to `f` for writing, together with its key, in
    /// ascending order of keys. The keys stay. This stands in for an
    /// `iter_mut`, which the map does not have.
    pub fn update_all_mut<F: FnMut(&K, &mut V)>(&mut self, mut f: F)
        requires
            forall|i: int, x: &mut V|
                0 <= i < old(self)@.len() && *x == old(self)@[i].1 ==> #[trigger] f.requires(
                    (&old(self)@[i].0, x),
                ),
        ensures
            final(self).keys() == old(self).keys(),
            forall|i: int|
                0 <= i < old(self)@.len() ==> (#[trigger] final(self)@[i]).0 == old(self)@[i].0
                    && exists|x: &mut V|
                    *x == old(self)@[i].1 && *final(x) == final(self)@[i].1
                        && #[trigger] f.ensures((&old(self)@[i].0, x), ()),
            old(self).wf() ==> final(self).wf(),
    {
        let ghost all = self@;
        let ghost f0 = f;
        let mut n: usize = 0;
        while n < self.0.len()
            invariant
                f == f0,
                n <= all.len(),
                self@.len() == all.len(),
                forall|i: int, x: &mut V|
                    0 <= i < all.len() && *x == all[i].1 ==> #[trigger] f.requires(
                        (&all[i].0, x),
                    ),
                forall|i: int| 0 <= i < all.len() ==> (#[trigger] self@[i]).0 == all[i].0,
                forall|i: int| n <= i < all.len() ==> #[trigger] self@[i] == all[i],
                forall|i: int|
                    0 <= i < n ==> (#[trigger] self@[i]).0 == all[i].0 && exists|x: &mut V|
                        *x == all[i].1 && *final(x) == self@[i].1 && #[trigger] f0.ensures(
                            (&all[i].0, x),
                            (),
                        ),
            decreases all.len() - n,
        {
            let ghost before = self@;
            let entry = &mut self.0[n];
            f(&entry.0, &mut entry.1);
            proof {
                assert(self@[n as int].0 == all[n as int].0);
                assert(exists|x: &mut V|
                    *x == all[n as int].1 && *final(x) == self@[n as int].1 && #[trigger] f0.ensures(
                        (&all[n as int].0, x),
                        (),
                    ));
                assert forall|i: int| 0 <= i < n + 1 implies (#[trigger] self@[i]).0 == all[i].0
                    && exists|x: &mut V|
                    *x == all[i].1 && *final(x) == self@[i].1 && #[trigger] f0.ensures(
                        (&all[i].0, x),
                        (),
                    ) by {
                    if i < n {
                        assert(self@[i] == before[i]);
                    }
                }
            }
            n = n + 1;
        }
        proof {
            assert(entry_keys(self@) =~= entry_keys(all));
        }
    }

    /// Merges the entries that `coll` gives into the map, in its order: an
    /// entry whose key is new is put as it is; at a key that has a value,
    /// that value is handed to `f` for writing, together with the incoming
    /// one.
    ///
    /// The outcome is a merge by every rule that `f` keeps: a rule relates
    /// the existing value and the incoming one to what `f` leaves.
    ///
    /// `f` has to accept only the pairs that the merge hands it, see
    /// [`merge_admits_by`]: the caller names a condition under which `f`
    /// accepts a pair and a rule that `f` keeps, such that each pair of the
    /// merge meets the condition whatever the rule allowed before.
    pub fn merge_mut<I: Iterator<Item = (K, V)>, F: FnMut(&mut V, V)>(
        &mut self,
        coll: I,
        mut f: F,
    )
        requires
            total_order::<K>(),
            old(self).wf(),
            coll.obeys_prophetic_iter_laws(),
            coll.decrease() is Some,
            exists|pre: spec_fn(V, V) -> bool, rule: spec_fn(V, V, V) -> bool|
                (forall|x: &mut V, v: V| pre(*x, v) ==> #[trigger] f.requires((x, v)))
                    && (forall|x: &mut V, v: V| #[trigger]
                    f.ensures((x, v), ()) ==> rule(*x, v, *final(x))) && #[trigger] merge_admits_by(
                    pre,
                    rule,
                    old(self)@,
                    coll.remaining(),
                ),
        ensures
            final(self).wf(),
            forall|rule: spec_fn(V, V, V) -> bool|
                (forall|x: &mut V, v: V| #[trigger]
                    f.ensures((x, v), ()) ==> rule(*x, v, *final(x))) ==> #[trigger] merged(
                    rule,
                    old(self)@,
                    coll.remaining(),
                    final(self)@,
                ),
    {
        let mut coll = coll;
        let ghost start = self@;
        let ghost all = coll.remaining();
        let ghost f0 = f;
        let ghost (pre, kept) = choose|pre: spec_fn(V, V) -> bool, rule: spec_fn(V, V, V) -> bool|
            (forall|x: &mut V, v: V| pre(*x, v) ==> #[trigger] f.requires((x, v))) && (forall|
                x: &mut V,
                v: V,
            | #[trigger]
                f.ensures((x, v), ()) ==> rule(*x, v, *final(x))) && #[trigger] merge_admits_by(
                pre,
                rule,
                self@,
                coll.remaining(),
            );
        loop
            invariant
                total_order::<K>(),
                self.wf(),
                f == f0,
                coll.obeys_prophetic_iter_laws(),
                coll.decrease() is Some,
                forall|x: &mut V, v: V| pre(*x, v) ==> #[trigger] f0.requires((x, v)),
                forall|x: &mut V, v: V| #[trigger]
                    f0.ensures((x, v), ()) ==> kept(*x, v, *final(x)),
                merge_admits_by(pre, kept, self@, coll.remaining()),
                forall|rule: spec_fn(V, V, V) -> bool, t: Seq<(K, V)>|
                    (forall|x: &mut V, v: V| #[trigger]
                        f0.ensures((x, v), ()) ==> rule(*x, v, *final(x))) && #[trigger] merged(
                        rule,
                        self@,
                        coll.remaining(),
                        t,
                    ) ==> merged(rule, start, all, t),
            ensures
                self.wf(),
                forall|rule: spec_fn(V, V, V) -> bool|
                    (forall|x: &mut V, v: V| #[trigger]
                        f0.ensures((x, v), ()) ==> rule(*x, v, *final(x))) ==> #[trigger] merged(
                        rule,
                        start,
                        all,
                        self@,
                    ),
            decreases coll.decrease()->0,
        {
            let ghost before = self@;
            let ghost rest = coll.remaining();
            match advance(&mut coll) {
                None => {
                    proof {
                        assert forall|rule: spec_fn(V, V, V) -> bool|
                            (forall|x: &mut V, v: V| #[trigger]
                                f0.ensures((x, v), ()) ==> rule(
                                    *x,
                                    v,
                                    *final(x),
                                )) implies #[trigger] merged(rule, start, all, self@) by {
                            assert(merged(rule, self@, coll.remaining(), self@));
                        }
                    }
                    break ;
                },
                Some(e) => {
                    let (k, v) = e;
                    let ghost u = lookup(before, k);
                    let ghost w: V;
                    proof {
                        lemma_rank_bounds(entry_keys(before), k);
                    }
                    match search_entries(&self.0, &k) {
                        Ok(i) => {
                            f(&mut self.0[i].1, v);
                            proof {
                                w = self@[i as int].1;
                                assert(u == Some(before[i as int].1));
                                assert(exists|x: &mut V|
                                    *x == before[i as int].1 && *final(x) == w
                                        && #[trigger] f0.ensures((x, v), ()));
                                assert(self@ =~= before.update(i as int, (k, w)));
                            }
                        },
                        Err(i) => {
                            proof {
                                w = v;
                            }
                            self.0.insert(i, (k, v));
                        },
                    }
                    proof {
                        assert(self@ == put(before, k, w));
                        lemma_put(before, k, w);
                        assert forall|rule: spec_fn(V, V, V) -> bool, t: Seq<(K, V)>|
                            (forall|x: &mut V, v: V| #[trigger]
                                f0.ensures((x, v), ()) ==> rule(*x, v, *final(x)))
                                && #[trigger] merged(
                                rule,
                                self@,
                                coll.remaining(),
                                t,
                            ) implies merged(rule, start, all, t) by {
                            assert(combined(rule, u, v, w));
                            assert(merged(rule, before, rest, t));
                        }
                    }
                },
            }
        }
    }

    /// The map after `merge_mut`, under the same conditions.
    pub fn merge_in_place<I: Iterator<Item = (K, V)>, F: FnMut(&mut V, V)>(
        self,
        coll: I,
        f: F,
    ) -> (r: Self)
        requires
            total_order::<K>(),
            self.wf(),
            coll.obeys_prophetic_iter_laws(),
            coll.decrease() is Some,
            exists|pre: spec_fn(V, V) -> bool, rule: spec_fn(V, V, V) -> bool|
                (forall|x: &mut V, v: V| pre(*x, v) ==> #[trigger] f.requires((x, v)))
                    && (forall|x: &mut V, v: V| #[trigger]
                    f.ensures((x, v), ()) ==> rule(*x, v, *final(x))) && #[trigger] merge_admits_by(
                    pre,
                    rule,
                    self@,
                    coll.remaining(),
                ),
        ensures
            r.wf(),
            forall|rule: spec_fn(V, V, V) -> bool|
                (forall|x: &mut V, v: V| #[trigger]
                    f.ensures((x, v), ()) ==> rule(*x, v, *final(x))) ==> #[trigger] merged(
                    rule,
                    self@,
                    coll.remaining(),
                    r@,
                ),
    {
        let mut this = self;
        this.merge_mut(coll, f);
        this
    }
}

/// Indexing asks that the key has an entry.
impl<'a, K: Ord, V> vstd::std_specs::core::IndexSpecImpl<&'a K> for VecSortedMap<K, V> {
    open spec fn index_req(&self, index: &&'a K) -> bool {
        total_order::<K>() && self.wf() && lookup(self@, **index) is Some
    }
}

impl<'a, K: Ord, V> std::ops::Index<&'a K> for VecSortedMap<K, V> {
    type Output = V;

    /// The value that stands at `k`, which must have an entry.
    fn index(&self, k: &'a K) -> (r: &V)
        ensures
            lookup(self@, *k) == Some(*r),
    {
        self.get(k).expect("no entry found for key")
    }
}

impl<K, V> IntoIterator for VecSortedMap<K, V> {
    type Item = (K, V);

    type IntoIter = IntoIter<(K, V)>;

    fn into_iter(self) -> (r: IntoIter<(K, V)>)
        ensures
            r.remaining() == self@,
            r.obeys_prophetic_iter_laws(),
            r.decrease() is Some,
    {
        self.0.into_iter()
    }
}

impl<'a, K: 'a, V: 'a> IntoIterator for &'a VecSortedMap<K, V> {
    type Item = &'a (K, V);

    type IntoIter = std::slice::Iter<'a, (K, V)>;

    fn into_iter(self) -> (r: std::slice::Iter<'a, (K, V)>)
        ensures
            r.remaining() == self@.as_ref(),
            r.obeys_prophetic_iter_laws(),
            r.decrease() is Some,
    {
        self.0.iter()
    }
}

} // verus!
