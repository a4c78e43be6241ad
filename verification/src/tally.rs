//! Sums over a finite map from tier to a number of items.
//!
//! A collection is worth the sum, over its tiers, of the tier's value times the
//! number of items it holds there. The same sum, taken over a map from tier to
//! a bare count, says what a set of denominations represents.

use crate::order::{greatest, lemma_greatest};
use vstd::prelude::*;

verus! {

/// The sum over the tiers `k` of `counts` of `weight(k, counts[k])`.
pub open spec fn tally(counts: Map<u64, nat>, weight: spec_fn(u64, nat) -> nat) -> nat
    decreases counts.dom().len(),
    when counts.dom().finite()
{
    let g = greatest(counts.dom());
    if counts.dom().contains(g) {
        tally(counts.remove(g), weight) + weight(g, counts[g])
    } else {
        0
    }
}

/// The weight that turns `tally` into a value: the tier times the count.
pub open spec fn by_value() -> spec_fn(u64, nat) -> nat {
    |k: u64, n: nat| (k * n) as nat
}

/// The weight that turns `tally` into a number of items: the count alone.
pub open spec fn by_count() -> spec_fn(u64, nat) -> nat {
    |k: u64, n: nat| n
}

/// The value that `counts` items per tier add up to.
pub open spec fn value_of(counts: Map<u64, nat>) -> nat {
    tally(counts, by_value())
}

/// The number of items that `counts` items per tier add up to.
pub open spec fn number_of(counts: Map<u64, nat>) -> nat {
    tally(counts, by_count())
}

/// A map without tiers tallies to zero.
pub proof fn lemma_tally_empty(counts: Map<u64, nat>, weight: spec_fn(u64, nat) -> nat)
    requires
        counts.dom().finite(),
        counts.dom().len() == 0,
    ensures
        tally(counts, weight) == 0,
{
    assert(!counts.dom().contains(greatest(counts.dom())));
}

/// Any one tier can be split off a tally, not only the largest.
pub proof fn lemma_tally_remove(counts: Map<u64, nat>, weight: spec_fn(u64, nat) -> nat, k: u64)
    requires
        counts.dom().finite(),
        counts.contains_key(k),
    ensures
        tally(counts, weight) == tally(counts.remove(k), weight) + weight(k, counts[k]),
    decreases counts.dom().len(),
{
    lemma_greatest(counts.dom());
    let g = greatest(counts.dom());
    if k != g {
        let without_g = counts.remove(g);
        let without_k = counts.remove(k);
        lemma_tally_remove(without_g, weight, k);
        lemma_greatest(without_k.dom());
        assert(without_k.dom().contains(g));
        assert(greatest(without_k.dom()) == g);
        assert(without_g.remove(k) =~= without_k.remove(g));
    }
}

/// Setting the count of one tier changes a tally by that tier's weight alone.
pub proof fn lemma_tally_insert(
    counts: Map<u64, nat>,
    weight: spec_fn(u64, nat) -> nat,
    k: u64,
    n: nat,
)
    requires
        counts.dom().finite(),
    ensures
        tally(counts.insert(k, n), weight) + (if counts.contains_key(k) {
            weight(k, counts[k])
        } else {
            0
        }) == tally(counts, weight) + weight(k, n),
{
    let after = counts.insert(k, n);
    lemma_tally_remove(after, weight, k);
    if counts.contains_key(k) {
        lemma_tally_remove(counts, weight, k);
        assert(after.remove(k) =~= counts.remove(k));
    } else {
        assert(after.remove(k) =~= counts);
    }
}

} // verus!
