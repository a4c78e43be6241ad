//! Selecting items that cover a target value.
//!
//! The selection is one scan over the items in reverse canonical order: from
//! the highest tier to the lowest, and within a tier from the item added last
//! to the one added first. The scan keeps track of the value of the items it
//! has neither passed over nor still to see, and passes over an item exactly
//! when what is left without it still covers the target.

use crate::amount::Amount;
use crate::model::{
    gather, items_of, lemma_items_value, lemma_put_all, lemma_sum_tiers_concat, sum_tiers,
    value_of_items,
};
use crate::multi::{borrowed_pairs_of, pairs_of, TieredMulti};
use vstd::prelude::*;

verus! {

/// The items of `items` that the scan keeps when `available` is the value not
/// passed over so far, in the order in which the scan meets them: the last
/// item of `items` first.
pub open spec fn selected<T>(items: Seq<(u64, T)>, available: nat, target: nat) -> Seq<(u64, T)>
    decreases items.len(),
{
    if items.len() == 0 {
        Seq::empty()
    } else if target + items.last().0 <= available {
        selected(items.drop_last(), (available - items.last().0) as nat, target)
    } else {
        seq![items.last()] + selected(items.drop_last(), available, target)
    }
}

/// `copies` pairs each tier of `sources` with a clone of the item that
/// `sources` has at that place.
pub open spec fn clones_of<T: Clone>(copies: Seq<(u64, T)>, sources: Seq<(u64, T)>) -> bool {
    &&& copies.len() == sources.len()
    &&& forall|i: int|
        0 <= i < copies.len() ==> copies[i].0 == sources[i].0 && cloned(
            sources[i].1,
            copies[i].1,
        )
}

/// `c` is the collection made of clones of the pairs of `chosen`, added in
/// the order of `chosen`.
pub open spec fn holds_clones_of<T: Clone>(c: Map<u64, Seq<T>>, chosen: Seq<(u64, T)>) -> bool {
    exists|copies: Seq<(u64, T)>| clones_of(copies, chosen) && c == gather(copies)
}

/// What the scan keeps, together with what it had kept before, covers the
/// target, as long as the scan never lets the available value fall below it.
pub proof fn lemma_selected_covers<T>(items: Seq<(u64, T)>, available: nat, target: nat)
    requires
        sum_tiers(items) <= available,
        target <= available,
    ensures
        available - sum_tiers(items) + sum_tiers(selected(items, available, target)) >= target,
        sum_tiers(selected(items, available, target)) <= sum_tiers(items),
    decreases items.len(),
{
    if items.len() > 0 {
        let last = items.last();
        let front = items.drop_last();
        if target + last.0 <= available {
            lemma_selected_covers(front, (available - last.0) as nat, target);
        } else {
            lemma_selected_covers(front, available, target);
            lemma_sum_tiers_concat(seq![last], selected(front, available, target));
            assert(seq![last].drop_last() =~= Seq::<(u64, T)>::empty());
            assert(sum_tiers(seq![last]) == last.0) by {
                assert(sum_tiers(seq![last].drop_last()) == 0);
            }
        }
    }
}

/// Clones are worth what the items they were made of are worth.
pub proof fn lemma_clones_sum<T: Clone>(copies: Seq<(u64, T)>, sources: Seq<(u64, T)>)
    requires
        clones_of(copies, sources),
    ensures
        sum_tiers(copies) == sum_tiers(sources),
    decreases copies.len(),
{
    if copies.len() > 0 {
        lemma_clones_sum(copies.drop_last(), sources.drop_last());
    }
}

impl<C: Clone> TieredMulti<C> {
    /// Selects items worth at least `amount`, or `None` if the whole
    /// collection is worth less. The selection holds clones of the items
    /// that the scan keeps; it is worth exactly `amount` where the scan can
    /// hit it, and else the excess is made of the lowest tiers that the scan
    /// could not do without.
    ///
    /// It is for collections whose value fits an `Amount`.
    pub fn select_coins(&self, amount: Amount) -> (selection: Option<TieredMulti<C>>)
        requires
            self.value() <= u64::MAX,
        ensures
            amount.msats > self.value() ==> selection is None,
            amount.msats <= self.value() ==> selection is Some,
            selection matches Some(c) ==> {
                &&& holds_clones_of(
                    c@,
                    selected(self.items(), self.value(), amount.msats as nat),
                )
                &&& c.value() == sum_tiers(
                    selected(self.items(), self.value(), amount.msats as nat),
                )
                &&& amount.msats <= c.value() <= self.value()
            },
    {
        let total = self.total_amount();
        if amount.msats > total.msats {
            return None;
        }
        let items = self.iter_items();
        let ghost all = self.items();
        let ghost target = amount.msats as nat;
        let ghost mut chosen: Seq<(u64, C)> = Seq::empty();
        let mut remaining: u64 = total.msats;
        let mut picked: Vec<(Amount, C)> = Vec::new();
        proof {
            self.lemma_finite();
            lemma_items_value(self@);
            assert(all.take(all.len() as int) =~= all);
            assert(chosen + selected(all, remaining as nat, target) =~= selected(
                all,
                remaining as nat,
                target,
            ));
        }
        let mut i: usize = items.len();
        while i > 0
            invariant
                i <= items.len(),
                borrowed_pairs_of(items@) == all,
                target == amount.msats,
                target <= remaining,
                sum_tiers(all.take(i as int)) <= remaining,
                remaining - sum_tiers(all.take(i as int)) == sum_tiers(chosen),
                clones_of(pairs_of(picked@), chosen),
                selected(all, self.value(), target) == chosen + selected(
                    all.take(i as int),
                    remaining as nat,
                    target,
                ),
            decreases i,
        {
            let coin_amount = items[i - 1].0;
            let coin = items[i - 1].1;
            proof {
                assert(all[i - 1] == (coin_amount.msats, *coin));
                assert(all.take(i as int).drop_last() =~= all.take(i - 1));
                assert(all.take(i as int).last() == all[i - 1]);
            }
            if amount.msats <= remaining - coin_amount.msats {
                remaining = remaining - coin_amount.msats;
            } else {
                let ghost before = pairs_of(picked@);
                picked.push((coin_amount, coin.clone()));
                proof {
                    let rest = selected(all.take(i - 1), remaining as nat, target);
                    assert(pairs_of(picked@) =~= before.push(pairs_of(picked@).last()));
                    assert(chosen + (seq![all[i - 1]] + rest) =~= chosen.push(all[i - 1]) + rest);
                    assert(chosen.push(all[i - 1]).drop_last() =~= chosen);
                    chosen = chosen.push(all[i - 1]);
                }
            }
            i -= 1;
        }
        proof {
            assert(all.take(0) =~= Seq::<(u64, C)>::empty());
            assert(chosen + Seq::<(u64, C)>::empty() =~= chosen);
            lemma_clones_sum(pairs_of(picked@), chosen);
            lemma_put_all(Map::<u64, Seq<C>>::empty(), pairs_of(picked@));
            assert(value_of_items(Map::<u64, Seq<C>>::empty()) == 0) by {
                lemma_items_value(Map::<u64, Seq<C>>::empty());
                assert(items_of(Map::<u64, Seq<C>>::empty()).len() == 0);
            }
            lemma_selected_covers(all, self.value(), target);
        }
        let selection = TieredMulti::from_iter(picked);
        Some(selection)
    }
}

} // verus!
