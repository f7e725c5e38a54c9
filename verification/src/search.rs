//! Binary search in a sorted array.
use crate::order::Comparison;
use crate::order::compare;
use crate::order::lemma_trichotomy;
use crate::order::lt;
use crate::order::total_order;
use crate::sorted::holds;
use crate::sorted::lemma_above_from;
use crate::sorted::lemma_absent_at;
use crate::sorted::lemma_below_up_to;
use crate::sorted::lemma_found_at;
use crate::sorted::rank;
use crate::sorted::sorted;
use vstd::prelude::*;

verus! {

/// The keys of a sequence of entries, in their order.
pub open spec fn entry_keys<K, V>(s: Seq<(K, V)>) -> Seq<K> {
    s.map_values(|e: (K, V)| e.0)
}

/// Looks for `k` in a sorted array: `Ok` with the index at which it stands,
/// or `Err` with the index at which it would have to be inserted. Either
/// index is the rank of `k`.
pub fn search<T: Ord>(v: &Vec<T>, k: &T) -> (r: Result<usize, usize>)
    requires
        total_order::<T>(),
        sorted(v@),
    ensures
        match r {
            Ok(i) => holds(v@, *k) && i == rank(v@, *k) && i < v@.len() && v@[i as int] == *k,
            Err(i) => !holds(v@, *k) && i == rank(v@, *k) && i <= v@.len(),
        },
{
    let mut lo: usize = 0;
    let mut hi: usize = v.len();
    while lo < hi
        invariant
            total_order::<T>(),
            sorted(v@),
            lo <= hi <= v@.len(),
            forall|j: int| 0 <= j < lo ==> lt(#[trigger] v@[j], *k),
            forall|j: int| hi <= j < v@.len() ==> lt(*k, #[trigger] v@[j]),
        decreases hi - lo,
    {
        let mid = lo + (hi - lo) / 2;
        proof {
            lemma_trichotomy(v@[mid as int], *k);
        }
        match compare(&v[mid], k) {
            Comparison::Less => {
                proof {
                    lemma_below_up_to(v@, *k, mid as int);
                }
                lo = mid + 1;
            },
            Comparison::Equal => {
                proof {
                    lemma_found_at(v@, *k, mid as int);
                }
                return Ok(mid);
            },
            Comparison::Greater => {
                proof {
                    lemma_above_from(v@, *k, mid as int);
                }
                hi = mid;
            },
        }
    }
    proof {
        lemma_absent_at(v@, *k, lo as int);
    }
    Err(lo)
}

/// Looks for the key `k` in an array of entries sorted by key: `Ok` with the
/// index of its entry, or `Err` with the index at which an entry for it would
/// have to be inserted. Either index is the rank of `k` among the keys.
pub fn search_entries<K: Ord, V>(v: &Vec<(K, V)>, k: &K) -> (r: Result<usize, usize>)
    requires
        total_order::<K>(),
        sorted(entry_keys(v@)),
    ensures
        match r {
            Ok(i) => holds(entry_keys(v@), *k) && i == rank(entry_keys(v@), *k) && i < v@.len()
                && v@[i as int].0 == *k,
            Err(i) => !holds(entry_keys(v@), *k) && i == rank(entry_keys(v@), *k) && i
                <= v@.len(),
        },
{
    let ghost keys = entry_keys(v@);
    let mut lo: usize = 0;
    let mut hi: usize = v.len();
    while lo < hi
        invariant
            total_order::<K>(),
            keys == entry_keys(v@),
            sorted(keys),
            lo <= hi <= v@.len(),
            forall|j: int| 0 <= j < lo ==> lt(#[trigger] keys[j], *k),
            forall|j: int| hi <= j < keys.len() ==> lt(*k, #[trigger] keys[j]),
        decreases hi - lo,
    {
        let mid = lo + (hi - lo) / 2;
        proof {
            lemma_trichotomy(keys[mid as int], *k);
        }
        match compare(&v[mid].0, k) {
            Comparison::Less => {
                proof {
                    lemma_below_up_to(keys, *k, mid as int);
                }
                lo = mid + 1;
            },
            Comparison::Equal => {
                proof {
                    lemma_found_at(keys, *k, mid as int);
                }
                return Ok(mid);
            },
            Comparison::Greater => {
                proof {
                    lemma_above_from(keys, *k, mid as int);
                }
                hi = mid;
            },
        }
    }
    proof {
        lemma_absent_at(keys, *k, lo as int);
    }
    Err(lo)
}

} // verus!
