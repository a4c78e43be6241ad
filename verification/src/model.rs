//! The mathematical model of a denominated collection.
//!
//! A collection is modelled as a finite map from tier to the sequence of items
//! held at that tier, in the order in which they were added. Everything the
//! contracts of this library say about a collection is said about this map.

use crate::order::{ascending, greatest, is_greatest, lemma_ascending, lemma_greatest};
use crate::tally::{
    by_count, by_value, lemma_tally_empty, lemma_tally_insert, number_of, value_of,
};
use vstd::prelude::*;

verus! {

/// The number of items at each tier of `m`.
pub open spec fn counts_of<T>(m: Map<u64, Seq<T>>) -> Map<u64, nat> {
    Map::new(|k: u64| m.contains_key(k), |k: u64| m[k].len())
}

/// The total value of `m`: the sum, over its tiers, of tier times item count.
pub open spec fn value_of_items<T>(m: Map<u64, Seq<T>>) -> nat {
    value_of(counts_of(m))
}

/// The number of items in `m`, all tiers together.
pub open spec fn number_of_items<T>(m: Map<u64, Seq<T>>) -> nat {
    number_of(counts_of(m))
}

/// The items `s` of one tier, each paired with the tier `k`.
pub open spec fn tagged<T>(k: u64, s: Seq<T>) -> Seq<(u64, T)> {
    s.map_values(|x: T| (k, x))
}

/// The items that `m` holds at the tiers listed in `tiers`, tier after tier,
/// each with its tier.
pub open spec fn items_along<T>(m: Map<u64, Seq<T>>, tiers: Seq<u64>) -> Seq<(u64, T)>
    decreases tiers.len(),
{
    if tiers.len() == 0 {
        Seq::empty()
    } else {
        items_along(m, tiers.drop_last()) + tagged(tiers.last(), m[tiers.last()])
    }
}

/// All items of `m` in canonical order: from the lowest tier to the highest,
/// and within a tier in the order in which they were added.
pub open spec fn items_of<T>(m: Map<u64, Seq<T>>) -> Seq<(u64, T)> {
    items_along(m, ascending(m.dom()))
}

/// `m` after one more item `x` was added at tier `k`: appended to the tier's
/// sequence, which is created if `m` had none.
pub open spec fn put<T>(m: Map<u64, Seq<T>>, k: u64, x: T) -> Map<u64, Seq<T>> {
    if m.contains_key(k) {
        m.insert(k, m[k].push(x))
    } else {
        m.insert(k, seq![x])
    }
}

/// `m` after the pairs of `pairs` were added one by one, first to last.
pub open spec fn put_all<T>(m: Map<u64, Seq<T>>, pairs: Seq<(u64, T)>) -> Map<u64, Seq<T>>
    decreases pairs.len(),
{
    if pairs.len() == 0 {
        m
    } else {
        put(put_all(m, pairs.drop_last()), pairs.last().0, pairs.last().1)
    }
}

/// The collection that holds exactly the pairs of `pairs`.
pub open spec fn gather<T>(pairs: Seq<(u64, T)>) -> Map<u64, Seq<T>> {
    put_all(Map::empty(), pairs)
}

/// The sum of the tiers of `pairs`, one for each pair.
pub open spec fn sum_tiers<T>(pairs: Seq<(u64, T)>) -> nat
    decreases pairs.len(),
{
    if pairs.len() == 0 {
        0
    } else {
        sum_tiers(pairs.drop_last()) + pairs.last().0 as nat
    }
}

/// No tier of `m` holds more than `n` items, and one holds exactly `n`,
/// unless `n` is 0.
pub open spec fn is_longest_tier<T>(m: Map<u64, Seq<T>>, n: nat) -> bool {
    &&& forall|k: u64| m.contains_key(k) ==> m[k].len() <= n
    &&& n == 0 || exists|k: u64| m.contains_key(k) && m[k].len() == n
}

/// Two collections have the same tiers and as many items at each of them.
/// The items themselves, and even their types, may differ.
pub open spec fn same_shape<T, O>(a: Map<u64, Seq<T>>, b: Map<u64, Seq<O>>) -> bool {
    &&& a.dom() == b.dom()
    &&& forall|k: u64| a.contains_key(k) ==> a[k].len() == b[k].len()
}

/// The counts of a collection without one tier are the counts of the
/// collection without that tier.
pub proof fn lemma_counts_remove<T>(m: Map<u64, Seq<T>>, k: u64)
    ensures
        counts_of(m.remove(k)) == counts_of(m).remove(k),
        counts_of(m).dom() == m.dom(),
{
    assert(counts_of(m.remove(k)) =~= counts_of(m).remove(k));
    assert(counts_of(m).dom() =~= m.dom());
}

/// Which items lie along `tiers` depends on what the collection holds at
/// those tiers only.
pub proof fn lemma_items_along_agree<T>(a: Map<u64, Seq<T>>, b: Map<u64, Seq<T>>, tiers: Seq<u64>)
    requires
        forall|i: int| 0 <= i < tiers.len() ==> a[#[trigger] tiers[i]] == b[tiers[i]],
    ensures
        items_along(a, tiers) == items_along(b, tiers),
    decreases tiers.len(),
{
    if tiers.len() > 0 {
        let front = tiers.drop_last();
        assert forall|i: int| 0 <= i < front.len() implies a[#[trigger] front[i]] == b[front[i]] by {
            assert(front[i] == tiers[i]);
        }
        lemma_items_along_agree(a, b, front);
        assert(a[tiers[tiers.len() - 1]] == b[tiers[tiers.len() - 1]]);
    }
}

/// The items of a collection are the items below its highest tier followed
/// by the items of that tier.
pub proof fn lemma_items_unfold<T>(m: Map<u64, Seq<T>>)
    requires
        m.dom().finite(),
        m.dom().len() > 0,
    ensures
        is_greatest(m.dom(), greatest(m.dom())),
        items_of(m) == items_of(m.remove(greatest(m.dom()))) + tagged(
            greatest(m.dom()),
            m[greatest(m.dom())],
        ),
{
    let g = greatest(m.dom());
    let lower = m.remove(g);
    lemma_ascending(m.dom());
    lemma_ascending(lower.dom());
    let q = ascending(lower.dom());
    assert(lower.dom() =~= m.dom().remove(g));
    assert(q.push(g).drop_last() =~= q);
    assert forall|i: int| 0 <= i < q.len() implies m[#[trigger] q[i]] == lower[q[i]] by {
        assert(q.contains(q[i]));
    }
    lemma_items_along_agree(m, lower, q);
}

/// The items of the first `i` tiers of `tiers`, followed by the first `j`
/// items of the next tier, are the first items along `tiers`; and the item
/// that follows them is the next one of that tier.
pub proof fn lemma_items_along_prefix<T>(m: Map<u64, Seq<T>>, tiers: Seq<u64>, i: int, j: int)
    requires
        0 <= i < tiers.len(),
        0 <= j <= m[tiers[i]].len(),
    ensures
        ({
            let seen = items_along(m, tiers.take(i)) + tagged(tiers[i], m[tiers[i]].take(j));
            &&& seen.len() <= items_along(m, tiers).len()
            &&& items_along(m, tiers).take(seen.len() as int) == seen
            &&& j < m[tiers[i]].len() ==> seen.len() < items_along(m, tiers).len()
                && items_along(m, tiers)[seen.len() as int] == (tiers[i], m[tiers[i]][j])
        }),
    decreases tiers.len(),
{
    let k = tiers[i];
    let seen = items_along(m, tiers.take(i)) + tagged(k, m[k].take(j));
    let front = tiers.drop_last();
    let whole = items_along(m, tiers);
    if i == tiers.len() - 1 {
        assert(tiers.take(i) =~= front);
        assert(whole.take(seen.len() as int) =~= seen);
    } else {
        assert(front.take(i) =~= tiers.take(i));
        lemma_items_along_prefix(m, front, i, j);
        assert(whole.take(seen.len() as int) =~= items_along(m, front).take(seen.len() as int));
    }
}

/// The tiers of two sequences of pairs, one after the other, add up.
pub proof fn lemma_sum_tiers_concat<T>(a: Seq<(u64, T)>, b: Seq<(u64, T)>)
    ensures
        sum_tiers(a + b) == sum_tiers(a) + sum_tiers(b),
    decreases b.len(),
{
    if b.len() == 0 {
        assert(a + b =~= a);
    } else {
        lemma_sum_tiers_concat(a, b.drop_last());
        assert((a + b).drop_last() =~= a + b.drop_last());
        assert((a + b).last() == b.last());
    }
}

/// The items of one tier are worth the tier times their number.
pub proof fn lemma_sum_tiers_tagged<T>(k: u64, s: Seq<T>)
    ensures
        sum_tiers(tagged(k, s)) == k * s.len(),
    decreases s.len(),
{
    if s.len() > 0 {
        lemma_sum_tiers_tagged(k, s.drop_last());
        assert(tagged(k, s).drop_last() =~= tagged(k, s.drop_last()));
        assert(k * s.len() == k * (s.len() - 1) + k) by (nonlinear_arith)
            requires
                s.len() > 0,
        ;
    } else {
        assert(k * s.len() == 0) by (nonlinear_arith)
            requires
                s.len() == 0,
        ;
    }
}

/// The value of a collection is the sum of the tiers of its items, and its
/// number of items is their number.
pub proof fn lemma_items_value<T>(m: Map<u64, Seq<T>>)
    requires
        m.dom().finite(),
    ensures
        sum_tiers(items_of(m)) == value_of_items(m),
        items_of(m).len() == number_of_items(m),
    decreases m.dom().len(),
{
    lemma_counts_remove(m, greatest(m.dom()));
    if m.dom().len() == 0 {
        lemma_ascending(m.dom());
        lemma_tally_empty(counts_of(m), by_value());
        lemma_tally_empty(counts_of(m), by_count());
    } else {
        let g = greatest(m.dom());
        lemma_items_unfold(m);
        lemma_items_value(m.remove(g));
        lemma_sum_tiers_concat(items_of(m.remove(g)), tagged(g, m[g]));
        lemma_sum_tiers_tagged(g, m[g]);
    }
}

/// Adding an item keeps the tiers finite, raises the value by the item's
/// tier and the number of items by one.
pub proof fn lemma_put<T>(m: Map<u64, Seq<T>>, k: u64, x: T)
    requires
        m.dom().finite(),
    ensures
        put(m, k, x).dom().finite(),
        value_of_items(put(m, k, x)) == value_of_items(m) + k,
        number_of_items(put(m, k, x)) == number_of_items(m) + 1,
{
    let n: nat = if m.contains_key(k) {
        m[k].len()
    } else {
        0
    };
    assert(counts_of(m).dom() =~= m.dom());
    assert(counts_of(put(m, k, x)) =~= counts_of(m).insert(k, n + 1));
    lemma_tally_insert(counts_of(m), by_value(), k, n + 1);
    lemma_tally_insert(counts_of(m), by_count(), k, n + 1);
    assert(k * (n + 1) == k * n + k) by (nonlinear_arith);
}

/// Adding pairs keeps the tiers finite, raises the value by the sum of
/// their tiers and the number of items by their number.
pub proof fn lemma_put_all<T>(m: Map<u64, Seq<T>>, pairs: Seq<(u64, T)>)
    requires
        m.dom().finite(),
    ensures
        put_all(m, pairs).dom().finite(),
        value_of_items(put_all(m, pairs)) == value_of_items(m) + sum_tiers(pairs),
        number_of_items(put_all(m, pairs)) == number_of_items(m) + pairs.len(),
    decreases pairs.len(),
{
    if pairs.len() > 0 {
        lemma_put_all(m, pairs.drop_last());
        lemma_put(put_all(m, pairs.drop_last()), pairs.last().0, pairs.last().1);
    }
}

/// Collections of the same shape hold, along the same tiers, as many items
/// with the same tiers in the same places.
pub proof fn lemma_same_shape_along<T, O>(
    a: Map<u64, Seq<T>>,
    b: Map<u64, Seq<O>>,
    tiers: Seq<u64>,
)
    requires
        same_shape(a, b),
        forall|i: int| 0 <= i < tiers.len() ==> a.contains_key(#[trigger] tiers[i]),
    ensures
        items_along(a, tiers).len() == items_along(b, tiers).len(),
        forall|j: int|
            0 <= j < items_along(a, tiers).len() ==> (#[trigger] items_along(a, tiers)[j]).0
                == items_along(b, tiers)[j].0,
    decreases tiers.len(),
{
    if tiers.len() > 0 {
        let front = tiers.drop_last();
        let k = tiers.last();
        assert forall|i: int| 0 <= i < front.len() implies a.contains_key(#[trigger] front[i]) by {
            assert(front[i] == tiers[i]);
        }
        lemma_same_shape_along(a, b, front);
        assert(a.contains_key(tiers[tiers.len() - 1]));
        assert(a[k].len() == b[k].len());
    }
}

/// Structurally equal collections have as many items, and in canonical order
/// the items of one have the tiers of the items of the other, place by place.
pub proof fn lemma_same_shape_items<T, O>(a: Map<u64, Seq<T>>, b: Map<u64, Seq<O>>)
    requires
        same_shape(a, b),
        a.dom().finite(),
    ensures
        items_of(a).len() == items_of(b).len(),
        forall|j: int|
            0 <= j < items_of(a).len() ==> (#[trigger] items_of(a)[j]).0 == items_of(b)[j].0,
{
    lemma_ascending(a.dom());
    let tiers = ascending(a.dom());
    assert forall|i: int| 0 <= i < tiers.len() implies a.contains_key(#[trigger] tiers[i]) by {
        assert(tiers.contains(tiers[i]));
    }
    lemma_same_shape_along(a, b, tiers);
}

} // verus!
