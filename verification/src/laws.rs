//! Laws that relate several operations of the library.

use crate::amount::Amount;
use crate::model::{lemma_put_all, same_shape, sum_tiers};
use crate::multi::{fails_with, mapped_by, pairs_of, TieredMulti};
use vstd::prelude::*;

verus! {

/// `f` never answers with an error.
pub open spec fn never_fails<T, N, E, F: Fn(Amount, T) -> Result<N, E>>(f: F) -> bool {
    forall|amt: Amount, x: T, r: Result<N, E>| #[trigger] call_ensures(f, (amt, x), r) ==> r is Ok
}

/// `f` answers every item with the item itself.
pub open spec fn hands_back<T, E, F: Fn(Amount, T) -> Result<T, E>>(f: F) -> bool {
    forall|amt: Amount, x: T, r: Result<T, E>|
        #[trigger] call_ensures(f, (amt, x), r) ==> r == Ok::<T, E>(x)
}

/// What `map` promises of its result `mapped` for the collection `before`
/// and the transformation `f`.
pub open spec fn map_promise<T, N, E, F: Fn(Amount, T) -> Result<N, E>>(
    f: F,
    before: &TieredMulti<T>,
    mapped: Result<TieredMulti<N>, E>,
) -> bool {
    match mapped {
        Ok(c) => mapped_by(f, before@, c@),
        Err(e) => fails_with(f, before.items(), e),
    }
}

/// Every collection is structurally equal to itself.
pub proof fn lemma_structural_eq_reflexive<T>(c: &TieredMulti<T>)
    ensures
        same_shape(c@, c@),
{
}

/// If one collection is structurally equal to another, the other is
/// structurally equal to the one.
pub proof fn lemma_structural_eq_symmetric<T, O>(a: &TieredMulti<T>, b: &TieredMulti<O>)
    ensures
        same_shape(a@, b@) == same_shape(b@, a@),
{
    if same_shape(a@, b@) {
        assert(same_shape(b@, a@));
    }
    if same_shape(b@, a@) {
        assert(same_shape(a@, b@));
    }
}

/// Structural equality does not look at the items: what `map` makes of a
/// collection with a transformation that never fails is structurally equal
/// to the collection.
pub proof fn lemma_map_keeps_shape<T, N, E, F: Fn(Amount, T) -> Result<N, E>>(
    f: F,
    before: &TieredMulti<T>,
    mapped: Result<TieredMulti<N>, E>,
)
    requires
        map_promise(f, before, mapped),
        never_fails(f),
    ensures
        mapped is Ok,
        same_shape(mapped->Ok_0@, before@),
{
    match mapped {
        Ok(c) => {
            assert(same_shape(before@, c@));
        },
        Err(e) => {
            let items = before.items();
            let j = choose|j: int|
                {
                    &&& 0 <= j < items.len()
                    &&& #[trigger] call_ensures(
                        f,
                        (Amount { msats: items[j].0 }, items[j].1),
                        Err::<N, E>(e),
                    )
                    &&& forall|i: int|
                        0 <= i < j ==> crate::multi::accepts(f, (#[trigger] items[i]).0, items[i].1)
                };
            assert(false);
        },
    }
}

/// Mapping with the transformation that hands every item back yields a
/// collection with the same tiers and the same items in the same order.
pub proof fn lemma_map_identity<T, E, F: Fn(Amount, T) -> Result<T, E>>(
    f: F,
    before: &TieredMulti<T>,
    mapped: Result<TieredMulti<T>, E>,
)
    requires
        map_promise(f, before, mapped),
        hands_back(f),
    ensures
        mapped is Ok,
        mapped->Ok_0@ == before@,
{
    match mapped {
        Ok(c) => {
            assert forall|k: u64| before@.contains_key(k) implies c@[k] == before@[k] by {
                assert forall|i: int| 0 <= i < before@[k].len() implies c@[k][i] == before@[k][i] by {
                    assert(call_ensures(
                        f,
                        (Amount { msats: k }, before@[k][i]),
                        Ok::<T, E>(c@[k][i]),
                    ));
                }
                assert(c@[k] =~= before@[k]);
            }
            assert(c@ =~= before@);
        },
        Err(e) => {
            let items = before.items();
            let j = choose|j: int|
                {
                    &&& 0 <= j < items.len()
                    &&& #[trigger] call_ensures(
                        f,
                        (Amount { msats: items[j].0 }, items[j].1),
                        Err::<T, E>(e),
                    )
                    &&& forall|i: int|
                        0 <= i < j ==> crate::multi::accepts(f, (#[trigger] items[i]).0, items[i].1)
                };
            assert(false);
        },
    }
}

/// Extending a collection raises its value by the tiers of the new items,
/// one tier for each item, and its number of items by their number.
pub proof fn lemma_extend_adds<T>(
    before: &TieredMulti<T>,
    pairs: Seq<(Amount, T)>,
    after: &TieredMulti<T>,
)
    requires
        after@ == crate::model::put_all(before@, pairs_of(pairs)),
    ensures
        after.value() == before.value() + sum_tiers(pairs_of(pairs)),
        after.count() == before.count() + pairs.len(),
{
    before.lemma_finite();
    lemma_put_all(before@, pairs_of(pairs));
}

} // verus!
