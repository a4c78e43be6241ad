//! Choosing the denominations that represent an amount.
//!
//! The choice is made in two passes over the tiers of a catalog. The first
//! pass goes from the lowest tier to the highest and gives each tier the items
//! that the holder lacks to own a target number of them, as far as the amount
//! affords it. The second pass goes from the highest tier to the lowest and
//! spends what is left greedily.

use crate::amount::Amount;
use crate::model::counts_of;
use crate::multi::TieredMulti;
use crate::order::{lemma_ascending, lemma_take_next, strictly_ascending};
use crate::tally::{
    by_value, lemma_tally_empty, lemma_tally_insert, lemma_tally_remove, value_of,
};
use crate::tiered::Tiered;
use vstd::prelude::*;

verus! {

/// The number of items that the holder has at tier `k`.
pub open spec fn held_at(held: Map<u64, nat>, k: u64) -> nat {
    if held.contains_key(k) {
        held[k]
    } else {
        0
    }
}

/// The number of items that the holder lacks at tier `k` to have `sets` of
/// them.
pub open spec fn missing_at(held: Map<u64, nat>, k: u64, sets: nat) -> nat {
    if sets > held_at(held, k) {
        (sets - held_at(held, k)) as nat
    } else {
        0
    }
}

/// The number of items that the first pass issues at tier `k` when `left` is
/// still to be represented and the holder lacks `missing` items there: as
/// many as are missing, but no more than `left` affords.
pub open spec fn fill_count(left: nat, k: u64, missing: nat) -> nat {
    let affordable = left / (k as nat);
    if affordable <= missing {
        affordable
    } else {
        missing
    }
}

/// What is left of `amount` after the first pass went over `tiers`, lowest
/// first.
pub open spec fn left_after_fill(amount: nat, held: Map<u64, nat>, tiers: Seq<u64>, sets: nat) -> nat
    decreases tiers.len(),
{
    if tiers.len() == 0 {
        amount
    } else {
        let left = left_after_fill(amount, held, tiers.drop_last(), sets);
        let k = tiers.last();
        (left - k * fill_count(left, k, missing_at(held, k, sets))) as nat
    }
}

/// The number of items that the first pass issues at the `i`-th tier.
pub open spec fn fill_at(
    amount: nat,
    held: Map<u64, nat>,
    tiers: Seq<u64>,
    sets: nat,
    i: int,
) -> nat {
    fill_count(
        left_after_fill(amount, held, tiers.take(i), sets),
        tiers[i],
        missing_at(held, tiers[i], sets),
    )
}

/// What is left of `left` after the second pass went over `tiers`, highest
/// first: at each tier it issues as many items as fit.
pub open spec fn left_after_greedy(left: nat, tiers: Seq<u64>) -> nat
    decreases tiers.len(),
{
    if tiers.len() == 0 {
        left
    } else {
        left_after_greedy(left, tiers.drop_first()) % (tiers.first() as nat)
    }
}

/// The number of items that the second pass issues at the `i`-th tier when
/// it starts with `left`.
pub open spec fn greedy_at(left: nat, tiers: Seq<u64>, i: int) -> nat {
    left_after_greedy(left, tiers.skip(i + 1)) / (tiers[i] as nat)
}

/// What neither pass could represent. It is zero where the lowest tier
/// divides whatever amount reaches it.
pub open spec fn leftover(amount: nat, held: Map<u64, nat>, tiers: Seq<u64>, sets: nat) -> nat {
    left_after_greedy(left_after_fill(amount, held, tiers, sets), tiers)
}

/// The number of items that the two passes together issue at the `i`-th tier.
pub open spec fn count_at(
    amount: nat,
    held: Map<u64, nat>,
    tiers: Seq<u64>,
    sets: nat,
    i: int,
) -> nat {
    fill_at(amount, held, tiers, sets, i) + greedy_at(
        left_after_fill(amount, held, tiers, sets),
        tiers,
        i,
    )
}

/// The counts of a catalog of counts, as natural numbers.
pub open spec fn as_counts(d: Map<u64, usize>) -> Map<u64, nat> {
    Map::new(|k: u64| d.contains_key(k), |k: u64| d[k] as nat)
}

/// The value that the denominations `d` add up to: the sum over the tiers of
/// tier times count.
pub open spec fn represented_value(d: Map<u64, usize>) -> nat {
    value_of(as_counts(d))
}

/// `d` has exactly the tiers of `tiers` and holds at each the number of items
/// that the two passes issue there.
pub open spec fn is_representation(
    d: Map<u64, usize>,
    amount: nat,
    held: Map<u64, nat>,
    tiers: Seq<u64>,
    sets: nat,
) -> bool {
    &&& forall|k: u64| d.contains_key(k) <==> tiers.contains(k)
    &&& forall|i: int|
        0 <= i < tiers.len() ==> d[tiers[i]] == count_at(amount, held, tiers, sets, i)
}

/// Every tier of the catalog is worth something.
pub open spec fn tiers_positive<K>(catalog: Map<u64, K>) -> bool {
    forall|k: u64| catalog.contains_key(k) ==> k > 0
}

/// `n` items of tier `k` cost no more than `left` if no more than `left / k`
/// of them are taken.
proof fn lemma_affordable(left: nat, k: nat, n: nat)
    requires
        k > 0,
        n <= left / k,
    ensures
        k * n <= left,
        n <= left,
{
    assert(k * n <= left && n <= left) by (nonlinear_arith)
        requires
            k > 0,
            n <= left / k,
    ;
}

/// At a tier `k` that holds `before` items already, the second pass issues
/// `left / k` more and leaves `left % k`.
proof fn lemma_greedy_step(left: nat, k: nat, before: nat)
    requires
        k > 0,
    ensures
        left == k * (left / k) + left % k,
        left / k <= left,
        left % k < k,
        k * (before + left / k) == k * before + k * (left / k),
        before + left / k <= k * before + k * (left / k),
{
    assert(left == k * (left / k) + left % k && left / k <= left && left % k < k)
        by (nonlinear_arith)
        requires
            k > 0,
    ;
    let q = left / k;
    assert(k * (before + q) == k * before + k * q && before + q <= k * before + k * q)
        by (nonlinear_arith)
        requires
            k > 0,
    ;
}

/// The state of the first pass when it has gone over the first `i` tiers:
/// `d` holds what the pass issued at each of them, and `remaining` is what
/// is left of `total`.
spec fn fill_pass_at(
    d: Map<u64, usize>,
    total: nat,
    held: Map<u64, nat>,
    tiers: Seq<u64>,
    sets: nat,
    i: int,
    remaining: nat,
) -> bool {
    &&& 0 <= i <= tiers.len()
    &&& remaining == left_after_fill(total, held, tiers.take(i), sets)
    &&& as_counts(d).dom().finite()
    &&& forall|k: u64| d.contains_key(k) <==> tiers.take(i).contains(k)
    &&& forall|j: int|
        0 <= j < i ==> d.contains_key(#[trigger] tiers[j]) && d[tiers[j]] == fill_at(
            total,
            held,
            tiers,
            sets,
            j,
        )
    &&& represented_value(d) + remaining == total
}

/// The state of the second pass, which started with `start`, when the tiers
/// from the `i`-th on are behind it.
spec fn greedy_pass_at(
    d: Map<u64, usize>,
    total: nat,
    held: Map<u64, nat>,
    tiers: Seq<u64>,
    sets: nat,
    start: nat,
    i: int,
    remaining: nat,
) -> bool {
    &&& 0 <= i <= tiers.len()
    &&& remaining == left_after_greedy(start, tiers.skip(i))
    &&& as_counts(d).dom().finite()
    &&& forall|k: u64| d.contains_key(k) <==> tiers.contains(k)
    &&& forall|j: int|
        0 <= j < i ==> d.contains_key(#[trigger] tiers[j]) && d[tiers[j]] == fill_at(
            total,
            held,
            tiers,
            sets,
            j,
        )
    &&& forall|j: int|
        i <= j < tiers.len() ==> d.contains_key(#[trigger] tiers[j]) && d[tiers[j]] == fill_at(
            total,
            held,
            tiers,
            sets,
            j,
        ) + greedy_at(start, tiers, j)
    &&& represented_value(d) + remaining == total
}

/// Before the first pass nothing is issued and everything is left.
proof fn lemma_fill_pass_start(
    d: Map<u64, usize>,
    total: nat,
    held: Map<u64, nat>,
    tiers: Seq<u64>,
    sets: nat,
)
    requires
        d == Map::<u64, usize>::empty(),
    ensures
        fill_pass_at(d, total, held, tiers, sets, 0, total),
{
    assert(as_counts(d).dom() =~= Set::<u64>::empty());
    lemma_tally_empty(as_counts(d), by_value());
    assert(tiers.take(0) =~= Seq::<u64>::empty());
}

/// One step of the first pass: at the `i`-th tier it issues `add` items.
proof fn lemma_fill_pass_step(
    d: Map<u64, usize>,
    total: nat,
    held: Map<u64, nat>,
    tiers: Seq<u64>,
    sets: nat,
    i: int,
    remaining: nat,
    add: nat,
)
    requires
        strictly_ascending(tiers),
        fill_pass_at(d, total, held, tiers, sets, i, remaining),
        i < tiers.len(),
        tiers[i] > 0,
        total <= usize::MAX,
        add == fill_count(remaining, tiers[i], missing_at(held, tiers[i], sets)),
    ensures
        tiers[i] * add <= remaining,
        add <= total,
        fill_pass_at(
            d.insert(tiers[i], add as usize),
            total,
            held,
            tiers,
            sets,
            i + 1,
            (remaining - tiers[i] * add) as nat,
        ),
{
    let k = tiers[i];
    lemma_affordable(remaining, k as nat, add);
    lemma_take_next(tiers, i);
    lemma_tally_insert(as_counts(d), by_value(), k, add);
    assert(as_counts(d.insert(k, add as usize)) =~= as_counts(d).insert(k, add));
}

/// Between the passes: what the first pass left is what the second starts
/// with.
proof fn lemma_greedy_pass_start(
    d: Map<u64, usize>,
    total: nat,
    held: Map<u64, nat>,
    tiers: Seq<u64>,
    sets: nat,
    remaining: nat,
)
    requires
        fill_pass_at(d, total, held, tiers, sets, tiers.len() as int, remaining),
    ensures
        remaining == left_after_fill(total, held, tiers, sets),
        greedy_pass_at(d, total, held, tiers, sets, remaining, tiers.len() as int, remaining),
{
    assert(tiers.take(tiers.len() as int) =~= tiers);
    assert(tiers.skip(tiers.len() as int) =~= Seq::<u64>::empty());
}

/// One step of the second pass: at the tier before the `i`-th it issues as
/// many items as fit into what is left.
proof fn lemma_greedy_pass_step(
    d: Map<u64, usize>,
    total: nat,
    held: Map<u64, nat>,
    tiers: Seq<u64>,
    sets: nat,
    start: nat,
    i: int,
    remaining: nat,
)
    requires
        strictly_ascending(tiers),
        greedy_pass_at(d, total, held, tiers, sets, start, i, remaining),
        0 < i,
        tiers[i - 1] > 0,
        total <= usize::MAX,
    ensures
        d.contains_key(tiers[i - 1]),
        d[tiers[i - 1]] + remaining / (tiers[i - 1] as nat) <= total,
        greedy_pass_at(
            d.insert(
                tiers[i - 1],
                (d[tiers[i - 1]] + remaining / (tiers[i - 1] as nat)) as usize,
            ),
            total,
            held,
            tiers,
            sets,
            start,
            i - 1,
            remaining % (tiers[i - 1] as nat),
        ),
{
    let k = tiers[i - 1];
    let before = d[k] as nat;
    let more = remaining / (k as nat);
    assert(tiers.contains(tiers[i - 1]));
    assert(tiers.skip(i - 1).drop_first() =~= tiers.skip(i));
    assert(tiers.skip(i - 1).first() == k);
    lemma_tally_remove(as_counts(d), by_value(), k);
    lemma_tally_insert(as_counts(d), by_value(), k, before + more);
    lemma_greedy_step(remaining, k as nat, before);
    assert(as_counts(d.insert(k, (before + more) as usize)) =~= as_counts(d).insert(
        k,
        before + more,
    ));
    lemma_take_next(tiers, i - 1);
}

/// After the second pass every tier has its count.
proof fn lemma_greedy_pass_end(
    d: Map<u64, usize>,
    total: nat,
    held: Map<u64, nat>,
    tiers: Seq<u64>,
    sets: nat,
    start: nat,
    remaining: nat,
)
    requires
        start == left_after_fill(total, held, tiers, sets),
        greedy_pass_at(d, total, held, tiers, sets, start, 0, remaining),
    ensures
        is_representation(d, total, held, tiers, sets),
        remaining == leftover(total, held, tiers, sets),
        represented_value(d) + remaining == total,
{
    assert(tiers.skip(0) =~= tiers);
}

/// Runs the two passes and hands back the denominations together with what
/// they leave unrepresented.
fn represent_parts<K, V>(
    amount: Amount,
    current_denominations: &TieredMulti<V>,
    tiers: &Tiered<K>,
    denomination_sets: u16,
) -> (parts: (Tiered<usize>, u64))
    requires
        tiers_positive(tiers@),
        amount.msats <= usize::MAX,
    ensures
        is_representation(
            parts.0@,
            amount.msats as nat,
            counts_of(current_denominations@),
            tiers.tier_seq(),
            denomination_sets as nat,
        ),
        parts.1 == leftover(
            amount.msats as nat,
            counts_of(current_denominations@),
            tiers.tier_seq(),
            denomination_sets as nat,
        ),
        represented_value(parts.0@) + parts.1 == amount.msats,
{
    let tier_list = tiers.tiers();
    let ghost ts = tiers.tier_seq();
    let ghost total = amount.msats as nat;
    let ghost held = counts_of(current_denominations@);
    let ghost sets = denomination_sets as nat;
    let mut remaining: u64 = amount.msats;
    let mut denominations: Tiered<usize> = Tiered::default();
    proof {
        tiers.lemma_finite();
        lemma_ascending(tiers@.dom());
        assert forall|j: int| 0 <= j < ts.len() implies ts[j] > 0 by {
            assert(ts.contains(ts[j]));
            assert(tiers@.contains_key(ts[j]));
        }
        lemma_fill_pass_start(denominations@, total, held, ts, sets);
    }

    // First pass: towards the target number of items per tier.
    let mut i: usize = 0;
    while i < tier_list.len()
        invariant
            i <= tier_list.len(),
            tier_list@.len() == ts.len(),
            forall|j: int| 0 <= j < ts.len() ==> (#[trigger] tier_list@[j]).msats == ts[j],
            forall|j: int| 0 <= j < ts.len() ==> #[trigger] ts[j] > 0,
            strictly_ascending(ts),
            total == amount.msats,
            total <= usize::MAX,
            held == counts_of(current_denominations@),
            sets == denomination_sets,
            fill_pass_at(denominations@, total, held, ts, sets, i as int, remaining as nat),
        decreases tier_list.len() - i,
    {
        let tier = tier_list[i];
        assert(tier.msats == ts[i as int] && ts[i as int] > 0);
        let notes: usize = match current_denominations.get(tier) {
            Some(v) => v.len(),
            None => 0,
        };
        let missing_notes: u64 = (denomination_sets as u64).saturating_sub(notes as u64);
        let possible_notes: u64 = remaining / tier.msats;
        let add_notes: u64 = if possible_notes <= missing_notes {
            possible_notes
        } else {
            missing_notes
        };
        proof {
            assert(missing_notes == missing_at(held, tier.msats, sets));
            lemma_fill_pass_step(
                denominations@,
                total,
                held,
                ts,
                sets,
                i as int,
                remaining as nat,
                add_notes as nat,
            );
        }
        denominations.insert(tier, add_notes as usize);
        remaining = remaining - tier.msats * add_notes;
        i += 1;
    }

    let ghost start = remaining as nat;
    proof {
        lemma_greedy_pass_start(denominations@, total, held, ts, sets, start);
    }

    // Second pass: whatever is left, greedily from the highest tier down.
    let mut i: usize = tier_list.len();
    while i > 0
        invariant
            i <= tier_list.len(),
            tier_list@.len() == ts.len(),
            forall|j: int| 0 <= j < ts.len() ==> (#[trigger] tier_list@[j]).msats == ts[j],
            forall|j: int| 0 <= j < ts.len() ==> #[trigger] ts[j] > 0,
            strictly_ascending(ts),
            total == amount.msats,
            total <= usize::MAX,
            start == left_after_fill(total, held, ts, sets),
            greedy_pass_at(
                denominations@,
                total,
                held,
                ts,
                sets,
                start,
                i as int,
                remaining as nat,
            ),
        decreases i,
    {
        let tier = tier_list[i - 1];
        assert(tier.msats == ts[i - 1] && ts[i - 1] > 0);
        let res: u64 = remaining / tier.msats;
        let rest: u64 = remaining % tier.msats;
        let before: usize = match denominations.get(tier) {
            Some(c) => *c,
            None => 0,
        };
        proof {
            lemma_greedy_pass_step(
                denominations@,
                total,
                held,
                ts,
                sets,
                start,
                i as int,
                remaining as nat,
            );
        }
        denominations.insert(tier, before + res as usize);
        remaining = rest;
        i -= 1;
    }
    proof {
        lemma_greedy_pass_end(denominations@, total, held, ts, sets, start, remaining as nat);
    }
    (denominations, remaining)
}

impl TieredMulti<()> {
    /// The denominations that represent `amount`: for each tier of the
    /// catalog `tiers`, the number of new items to issue at it. The first
    /// pass steers the holder, who has `current_denominations`, towards
    /// `denomination_sets` items per tier, starting at the lowest tier; the
    /// second pass spends the rest from the highest tier down.
    ///
    /// It is for catalogs whose tiers are all worth something and represent
    /// `amount` without a rest. `checked_represent_amount` asks nothing.
    pub fn represent_amount<K, V>(
        amount: Amount,
        current_denominations: &TieredMulti<V>,
        tiers: &Tiered<K>,
        denomination_sets: u16,
    ) -> (denominations: Tiered<usize>)
        requires
            tiers_positive(tiers@),
            amount.msats <= usize::MAX,
            leftover(
                amount.msats as nat,
                counts_of(current_denominations@),
                tiers.tier_seq(),
                denomination_sets as nat,
            ) == 0,
        ensures
            is_representation(
                denominations@,
                amount.msats as nat,
                counts_of(current_denominations@),
                tiers.tier_seq(),
                denomination_sets as nat,
            ),
            represented_value(denominations@) == amount.msats,
    {
        let parts = represent_parts(amount, current_denominations, tiers, denomination_sets);
        parts.0
    }

    /// The denominations that represent `amount`, as `represent_amount`
    /// chooses them, or `None` where it cannot: where the catalog has a tier
    /// worth nothing, where the two passes leave a rest, or where `amount` is
    /// more than a count of items can hold.
    pub fn checked_represent_amount<K, V>(
        amount: Amount,
        current_denominations: &TieredMulti<V>,
        tiers: &Tiered<K>,
        denomination_sets: u16,
    ) -> (denominations: Option<Tiered<usize>>)
        ensures
            denominations is Some <==> tiers_positive(tiers@) && amount.msats <= usize::MAX
                && leftover(
                amount.msats as nat,
                counts_of(current_denominations@),
                tiers.tier_seq(),
                denomination_sets as nat,
            ) == 0,
            denominations matches Some(d) ==> is_representation(
                d@,
                amount.msats as nat,
                counts_of(current_denominations@),
                tiers.tier_seq(),
                denomination_sets as nat,
            ) && represented_value(d@) == amount.msats,
    {
        if amount.msats > usize::MAX as u64 {
            return None;
        }
        let tier_list = tiers.tiers();
        proof {
            tiers.lemma_finite();
            lemma_ascending(tiers@.dom());
        }
        let mut i: usize = 0;
        while i < tier_list.len()
            invariant
                i <= tier_list.len(),
                tier_list@.len() == tiers.tier_seq().len(),
                forall|j: int|
                    0 <= j < tier_list@.len() ==> (#[trigger] tier_list@[j]).msats
                        == tiers.tier_seq()[j],
                forall|x: u64| tiers.tier_seq().contains(x) <==> tiers@.dom().contains(x),
                forall|j: int| 0 <= j < i ==> tiers.tier_seq()[j] > 0,
            decreases tier_list.len() - i,
        {
            if tier_list[i].msats == 0 {
                proof {
                    assert(tiers.tier_seq().contains(tiers.tier_seq()[i as int]));
                    assert(tiers@.contains_key(0));
                }
                return None;
            }
            i += 1;
        }
        proof {
            assert forall|k: u64| tiers@.contains_key(k) implies k > 0 by {
                assert(tiers.tier_seq().contains(k));
                let j = choose|j: int| 0 <= j < tiers.tier_seq().len() && tiers.tier_seq()[j] == k;
                assert(tiers.tier_seq()[j] > 0);
            }
        }
        let parts = represent_parts(amount, current_denominations, tiers, denomination_sets);
        if parts.1 == 0 {
            Some(parts.0)
        } else {
            None
        }
    }
}

/// Taking a multiple of `k` off `a` leaves a multiple of `u`, if `u` divides
/// both `a` and `k`.
proof fn lemma_multiples_differ_by_multiple(a: nat, k: nat, c: nat, u: nat)
    requires
        u > 0,
        a % u == 0,
        k % u == 0,
        k * c <= a,
    ensures
        ((a - k * c) as nat) % u == 0,
{
    let a1 = a / u;
    let k1 = k / u;
    vstd::arithmetic::div_mod::lemma_fundamental_div_mod(a as int, u as int);
    vstd::arithmetic::div_mod::lemma_fundamental_div_mod(k as int, u as int);
    assert(a - k * c == (a1 - k1 * c) * u) by (nonlinear_arith)
        requires
            a == u * a1,
            k == u * k1,
    ;
    vstd::arithmetic::div_mod::lemma_mod_multiples_basic(a1 - k1 * c, u as int);
}

/// What the first pass leaves is a multiple of `u`, if `u` divides the amount
/// and every tier.
proof fn lemma_fill_keeps_multiples(
    amount: nat,
    held: Map<u64, nat>,
    tiers: Seq<u64>,
    sets: nat,
    u: nat,
)
    requires
        u > 0,
        amount % u == 0,
        forall|i: int| 0 <= i < tiers.len() ==> #[trigger] tiers[i] > 0 && (tiers[i] as nat) % u == 0,
    ensures
        left_after_fill(amount, held, tiers, sets) % u == 0,
    decreases tiers.len(),
{
    if tiers.len() > 0 {
        let front = tiers.drop_last();
        lemma_fill_keeps_multiples(amount, held, front, sets, u);
        let left = left_after_fill(amount, held, front, sets);
        let k = tiers.last();
        let n = fill_count(left, k, missing_at(held, k, sets));
        lemma_affordable(left, k as nat, n);
        lemma_multiples_differ_by_multiple(left, k as nat, n, u);
    }
}

/// What the second pass leaves is a multiple of `u`, if `u` divides what it
/// starts with and every tier.
proof fn lemma_greedy_keeps_multiples(left: nat, tiers: Seq<u64>, u: nat)
    requires
        u > 0,
        left % u == 0,
        forall|i: int| 0 <= i < tiers.len() ==> #[trigger] tiers[i] > 0 && (tiers[i] as nat) % u == 0,
    ensures
        left_after_greedy(left, tiers) % u == 0,
    decreases tiers.len(),
{
    if tiers.len() > 0 {
        let back = tiers.drop_first();
        assert forall|i: int| 0 <= i < back.len() implies back[i] > 0 && (back[i] as nat) % u
            == 0 by {
            assert(back[i] == tiers[i + 1]);
        }
        lemma_greedy_keeps_multiples(left, back, u);
        let x = left_after_greedy(left, back);
        let k = tiers.first() as nat;
        lemma_greedy_step(x, k, 0);
        lemma_multiples_differ_by_multiple(x, k, x / k, u);
    }
}

/// A catalog represents every amount that its lowest tier divides, provided
/// that the lowest tier divides the other tiers too. A catalog whose lowest
/// tier is 1 therefore represents every amount.
pub proof fn lemma_lowest_tier_divides(
    amount: nat,
    held: Map<u64, nat>,
    tiers: Seq<u64>,
    sets: nat,
)
    requires
        tiers.len() > 0,
        forall|i: int|
            0 <= i < tiers.len() ==> #[trigger] tiers[i] > 0 && (tiers[i] as nat) % (
            tiers[0] as nat) == 0,
        amount % (tiers[0] as nat) == 0,
    ensures
        leftover(amount, held, tiers, sets) == 0,
{
    let u = tiers[0] as nat;
    lemma_fill_keeps_multiples(amount, held, tiers, sets, u);
    let start = left_after_fill(amount, held, tiers, sets);
    let back = tiers.drop_first();
    assert forall|i: int| 0 <= i < back.len() implies back[i] > 0 && (back[i] as nat) % u == 0 by {
        assert(back[i] == tiers[i + 1]);
    }
    lemma_greedy_keeps_multiples(start, back, u);
    let x = left_after_greedy(start, back);
    lemma_greedy_step(x, u, 0);
    lemma_multiples_differ_by_multiple(x, u, x / u, u);
    assert(x % u < u);
}

} // verus!
