//! Vectors turned round, and vectors thinned out.

use vstd::prelude::*;

verus! {

/// The items of a vector, the last one first.
pub fn reversed<T>(items: Vec<T>) -> (r: Vec<T>)
    ensures
        r@ == items@.reverse(),
{
    let ghost all = items@;
    let mut left = items;
    let mut turned: Vec<T> = Vec::new();
    while left.len() > 0
        invariant
            left@.len() + turned@.len() == all.len(),
            left@ == all.take(left@.len() as int),
            turned@ == all.reverse().take(turned@.len() as int),
        decreases left@.len(),
    {
        let ghost n = left@.len() as int;
        match left.pop() {
            Some(item) => {
                turned.push(item);
                assert(left@ =~= all.take(n - 1));
                assert(turned@ =~= all.reverse().take(all.len() - n + 1));
            },
            None => {},
        }
    }
    assert(turned@ =~= all.reverse());
    turned
}

/// Takes out the items of a vector that are not to be kept.
pub(crate) fn retain<T, F: Fn(&T) -> bool>(
    items: &mut Vec<T>,
    keep: F,
    Ghost(p): Ghost<spec_fn(T) -> bool>,
)
    requires
        forall|item: &T| #[trigger] call_requires(keep, (item,)),
        forall|item: &T, kept: bool| #[trigger]
            call_ensures(keep, (item,), kept) ==> kept == p(*item),
    ensures
        final(items)@ == old(items)@.filter(p),
{
    let ghost all = items@;
    let ghost mut seen: int = 0;
    let mut i: usize = 0;
    assert(all.take(0).filter(p) =~= Seq::empty()) by {
        reveal(Seq::filter);
    }
    while i < items.len()
        invariant
            0 <= seen <= all.len(),
            i <= items@.len(),
            items@.len() - i == all.len() - seen,
            items@.take(i as int) == all.take(seen).filter(p),
            items@.skip(i as int) == all.skip(seen),
            forall|item: &T| #[trigger] call_requires(keep, (item,)),
            forall|item: &T, kept: bool| #[trigger]
                call_ensures(keep, (item,), kept) ==> kept == p(*item),
        decreases all.len() - seen,
    {
        let ghost before = items@;
        assert(before[i as int] == before.skip(i as int)[0]);
        assert(all[seen] == all.skip(seen)[0]);
        assert(all.take(seen + 1).drop_last() =~= all.take(seen));
        assert(all.take(seen + 1).filter(p) == (if p(all[seen]) {
            all.take(seen).filter(p).push(all[seen])
        } else {
            all.take(seen).filter(p)
        })) by {
            reveal(Seq::filter);
        }
        assert(all.skip(seen + 1) =~= before.skip(i as int).skip(1));
        if keep(&items[i]) {
            i = i + 1;
            assert(before.take(i as int) =~= before.take(i - 1).push(all[seen]));
            assert(before.skip(i as int) =~= before.skip(i - 1).skip(1));
        } else {
            let _ = items.remove(i);
            assert(items@.take(i as int) =~= before.take(i as int));
            assert(items@.skip(i as int) =~= before.skip(i as int).skip(1));
        }
        proof {
            seen = seen + 1;
        }
    }
    assert(items@.take(i as int) =~= items@);
    assert(all.take(seen) =~= all);
}

/// A vector that is turned round has its items the other way round.
pub proof fn items_are_turned_round<T>(items: Vec<T>, r: Vec<T>, i: int)
    requires
        call_ensures(reversed::<T>, (items,), r),
        0 <= i < items@.len(),
    ensures
        r@.len() == items@.len(),
        r@[i] == items@[items@.len() - 1 - i],
{
}

} // verus!
