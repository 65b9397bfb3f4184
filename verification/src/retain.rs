//! Filtering a sequence by a test that may fail: the items that pass, in
//! order, or the first failure.

use vstd::prelude::*;

verus! {

/// The items of `items` whose entry in `keep` is `true`, in order.
pub open spec fn retained<T>(items: Seq<T>, keep: Seq<bool>) -> Seq<T>
    recommends
        keep.len() == items.len(),
    decreases items.len(),
{
    if items.len() == 0 {
        Seq::empty()
    } else {
        let before = retained(items.drop_last(), keep.drop_last());
        if keep.last() {
            before.push(items.last())
        } else {
            before
        }
    }
}

/// Whether `test` may have answered `keep[i]` for `items[i]`, for every entry
/// of `keep`.
pub open spec fn answers<T, E, F: Fn(&T) -> Result<bool, E>>(test: F, items: Seq<T>, keep: Seq<bool>) -> bool {
    &&& keep.len() <= items.len()
    &&& forall|i: int| 0 <= i < keep.len() ==> call_ensures(test, (&#[trigger] items[i],), Ok(keep[i]))
}

/// Keeps the items for which `test` answers `Ok(true)`, in their order, and
/// drops those for which it answers `Ok(false)`. The items are tested from the
/// first on; at the first `Err` the error is returned and no later item is
/// tested.
pub fn try_retain<T, E, F: Fn(&T) -> Result<bool, E>>(items: Vec<T>, test: F) -> (kept: Result<Vec<T>, E>)
    requires
        forall|i: int| 0 <= i < items.len() ==> call_requires(test, (&#[trigger] items[i],)),
    ensures
        match kept {
            Ok(kept) => exists|keep: Seq<bool>|
                #[trigger] answers(test, items@, keep) && keep.len() == items.len() && kept@
                    == retained(items@, keep),
            Err(error) => exists|keep: Seq<bool>|
                #[trigger] answers(test, items@, keep) && keep.len() < items.len() && call_ensures(
                    test,
                    (&items[keep.len() as int],),
                    Err(error),
                ),
        },
{
    let ghost all = items@;
    let ghost mut keep = Seq::<bool>::empty();
    let mut kept: Vec<T> = Vec::new();
    for item in it: items.into_iter()
        invariant
            it.seq() == all,
            forall|i: int| 0 <= i < all.len() ==> call_requires(test, (&#[trigger] all[i],)),
            keep.len() == it.index(),
            answers(test, all, keep),
            kept@ == retained(all.take(it.index() as int), keep),
    {
        let ghost index = it.index() as int;
        match test(&item) {
            Err(error) => {
                return Err(error);
            },
            Ok(verdict) => {
                proof {
                    let longer = keep.push(verdict);
                    assert(all.take(index + 1).drop_last() =~= all.take(index));
                    assert(longer.drop_last() =~= keep);
                    keep = longer;
                }
                if verdict {
                    kept.push(item);
                }
            },
        }
    }
    proof {
        assert(all.take(all.len() as int) =~= all);
    }
    Ok(kept)
}

} // verus!
