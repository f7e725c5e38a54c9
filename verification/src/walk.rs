//! Walking iterators and arrays: the steps that the containers share.
use std::vec::IntoIter;
use vstd::prelude::*;
use vstd::std_specs::iter::IteratorSpec;

verus! {

/// `t` is what a pass over `s` keeps, where `f` decides on each element in
/// turn: it holds the elements for which `f` answered `true`, in their order.
pub open spec fn kept_by<T, F: FnMut(&T) -> bool>(f: F, s: Seq<T>, t: Seq<T>) -> bool
    decreases s.len(),
{
    if s.len() == 0 {
        t.len() == 0
    } else {
        ||| f.ensures((&s.last(),), true) && t.len() > 0 && t.last() == s.last() && kept_by(
            f,
            s.drop_last(),
            t.drop_last(),
        )
        ||| f.ensures((&s.last(),), false) && kept_by(f, s.drop_last(), t)
    }
}

/// What an owned walk still has to give: the element already taken out of the
/// iterator, if there is one, and then what the iterator holds.
pub open spec fn pending<T>(head: Option<T>, rest: Seq<T>) -> Seq<T> {
    match head {
        Some(e) => seq![e] + rest,
        None => rest,
    }
}

/// 1 while both walks have an element in hand, else 0: a merge-join goes on
/// only in the first case.
pub open spec fn both<T>(x: Option<T>, y: Option<T>) -> int {
    if x is Some && y is Some {
        1
    } else {
        0
    }
}

/// Takes the next item out of an iterator that keeps the iterator laws.
pub fn advance<I: Iterator>(it: &mut I) -> (r: Option<I::Item>)
    requires
        <I as IteratorSpec>::obeys_prophetic_iter_laws(&*old(it)),
    ensures
        <I as IteratorSpec>::obeys_prophetic_iter_laws(&*final(it)),
        <I as IteratorSpec>::decrease(&*old(it)) is Some <==> <I as IteratorSpec>::decrease(
            &*final(it),
        ) is Some,
        <I as IteratorSpec>::remaining(&*old(it)).len() > 0 ==> r == Some(
            <I as IteratorSpec>::remaining(&*old(it))[0],
        ) && <I as IteratorSpec>::remaining(&*final(it)) == <I as IteratorSpec>::remaining(
            &*old(it),
        ).drop_first(),
        <I as IteratorSpec>::remaining(&*old(it)).len() == 0 ==> r is None
            && <I as IteratorSpec>::remaining(&*final(it)) == <I as IteratorSpec>::remaining(
            &*old(it),
        ),
        <I as IteratorSpec>::remaining(&*old(it)).len() > 0 && <I as IteratorSpec>::decrease(
            &*final(it),
        ) is Some ==> decreases_to!(<I as IteratorSpec>::decrease(&*old(it))->0 => <I as IteratorSpec>::decrease(&*final(it))->0),
{
    it.next()
}

/// Moves what is left in `rest` to the end of `out`.
pub fn push_rest<T>(out: &mut Vec<T>, rest: IntoIter<T>)
    requires
        rest.obeys_prophetic_iter_laws(),
        rest.decrease() is Some,
    ensures
        final(out)@ == old(out)@ + rest.remaining(),
{
    let mut rest = rest;
    let ghost all = rest.remaining();
    loop
        invariant
            rest.obeys_prophetic_iter_laws(),
            rest.decrease() is Some,
            out@ + rest.remaining() == old(out)@ + all,
        ensures
            out@ == old(out)@ + all,
        decreases rest.decrease()->0,
    {
        match advance(&mut rest) {
            Some(e) => {
                out.push(e);
            },
            None => {
                break ;
            },
        }
    }
}


/// Keeps the elements of `v` for which `f` answers `true` and drops the
/// others, in one pass from the first to the last.
pub fn retain_in<T, F: FnMut(&T) -> bool>(v: &mut Vec<T>, mut f: F)
    requires
        forall|x: &T| old(v)@.contains(*x) ==> #[trigger] f.requires((x,)),
    ensures
        kept_by(f, old(v)@, final(v)@),
{
    let ghost all = v@;
    let ghost f0 = f;
    let mut from: Vec<T> = Vec::new();
    std::mem::swap(&mut from, v);
    let mut kept: Vec<T> = Vec::new();
    let mut rest = from.into_iter();
    let ghost mut n: int = 0;
    loop
        invariant
            rest.obeys_prophetic_iter_laws(),
            rest.decrease() is Some,
            0 <= n <= all.len(),
            rest.remaining() == all.skip(n),
            f == f0,
            forall|x: &T| all.contains(*x) ==> #[trigger] f.requires((x,)),
            kept_by(f, all.take(n), kept@),
        ensures
            kept_by(f0, all, kept@),
        decreases rest.decrease()->0,
    {
        match advance(&mut rest) {
            Some(e) => {
                proof {
                    assert(e == all[n]);
                    assert(all.contains(e));
                    assert(all.take(n + 1).drop_last() =~= all.take(n));
                    assert(all.skip(n).drop_first() =~= all.skip(n + 1));
                }
                let ghost before = kept@;
                if f(&e) {
                    kept.push(e);
                    proof {
                        assert(kept@.drop_last() =~= before);
                    }
                }
                proof {
                    n = n + 1;
                }
            },
            None => {
                proof {
                    assert(all.take(n) =~= all);
                }
                break ;
            },
        }
    }
    *v = kept;
}

} // verus!
