//! The denominated collection: items grouped by tier, tiers in ascending order.

use crate::amount::{msats_of, Amount};
use crate::model::{
    counts_of, gather, is_longest_tier, items_along, items_of, lemma_items_along_prefix,
    number_of_items, put, put_all, same_shape, tagged, value_of_items,
};
use crate::order::{
    ascending, ascending_keys, lemma_ascending, lemma_take_next, strictly_ascending,
};
use crate::tally::{by_count, by_value, lemma_tally_empty, lemma_tally_remove, tally};
use crate::tiered::{InvalidAmountTierError, Tiered};
use std::collections::BTreeMap;
use vstd::prelude::*;

verus! {

/// The sequences of items behind a map from tier to vector.
pub open spec fn seqs_of<T>(m: Map<u64, Vec<T>>) -> Map<u64, Seq<T>> {
    Map::new(|k: u64| m.contains_key(k), |k: u64| m[k]@)
}

/// The pairs of tier and item that a sequence of pairs of amount and item
/// stands for.
pub open spec fn pairs_of<T>(pairs: Seq<(Amount, T)>) -> Seq<(u64, T)> {
    pairs.map_values(|p: (Amount, T)| (p.0.msats, p.1))
}

/// The pairs of tier and item behind a sequence of pairs of amount and
/// borrowed item.
pub open spec fn borrowed_pairs_of<T>(pairs: Seq<(Amount, &T)>) -> Seq<(u64, T)> {
    pairs.map_values(|p: (Amount, &T)| (p.0.msats, *p.1))
}

/// The pairs of tier and item sequence behind a sequence of pairs of amount
/// and borrowed vector.
pub open spec fn groups_of<T>(groups: Seq<(Amount, &Vec<T>)>) -> Seq<(u64, Seq<T>)> {
    groups.map_values(|g: (Amount, &Vec<T>)| (g.0.msats, g.1@))
}

/// `f` is known to be callable on every item of `m` with its tier.
pub open spec fn callable_on<T, N, E, F: Fn(Amount, T) -> Result<N, E>>(
    f: F,
    m: Map<u64, Seq<T>>,
) -> bool {
    forall|k: u64, i: int|
        m.contains_key(k) && 0 <= i < m[k].len() ==> call_requires(
            f,
            (Amount { msats: k }, #[trigger] m[k][i]),
        )
}

/// `f` can answer the item `x` of tier `k` with a new item.
pub open spec fn accepts<T, N, E, F: Fn(Amount, T) -> Result<N, E>>(f: F, k: u64, x: T) -> bool {
    exists|n: N| call_ensures(f, (Amount { msats: k }, x), Ok::<N, E>(n))
}

/// `after` has the tiers of `before`, and at each tier, place by place, an
/// item with which `f` answers the item of `before`.
pub open spec fn mapped_by<T, N, E, F: Fn(Amount, T) -> Result<N, E>>(
    f: F,
    before: Map<u64, Seq<T>>,
    after: Map<u64, Seq<N>>,
) -> bool {
    &&& same_shape(before, after)
    &&& forall|k: u64, i: int|
        before.contains_key(k) && 0 <= i < before[k].len() ==> call_ensures(
            f,
            (Amount { msats: k }, #[trigger] before[k][i]),
            Ok::<N, E>(after[k][i]),
        )
}

/// `f` answers one item of `items` with the error `e`, and it accepts every
/// item before that one.
pub open spec fn fails_with<T, N, E, F: Fn(Amount, T) -> Result<N, E>>(
    f: F,
    items: Seq<(u64, T)>,
    e: E,
) -> bool {
    exists|j: int|
        {
            &&& 0 <= j < items.len()
            &&& #[trigger] call_ensures(
                f,
                (Amount { msats: items[j].0 }, items[j].1),
                Err::<N, E>(e),
            )
            &&& forall|i: int| 0 <= i < j ==> accepts(f, (#[trigger] items[i]).0, items[i].1)
        }
}

/// Items of different denominations: for each tier, keyed by its value in
/// millisatoshi, the items held at that tier in the order in which they were
/// added. A tier may be present with no items.
///
/// The total value is the sum over the tiers of tier times item count. Nothing
/// bounds it: `total_amount` is for collections whose value fits an `Amount`,
/// and `checked_total_amount` is for those of which that is not known.
#[derive(Debug, Clone, Eq, PartialEq, Hash)]
pub struct TieredMulti<T>(BTreeMap<u64, Vec<T>>);

impl<T> View for TieredMulti<T> {
    type V = Map<u64, Seq<T>>;

    closed spec fn view(&self) -> Map<u64, Seq<T>> {
        seqs_of(self.0@)
    }
}

/// `BTreeMap::get_mut` for an integer key: a mutable reference to the value
/// stored under `k`, if there is one. Whatever the caller writes through the
/// reference is the value under `k` afterwards; no other entry changes.
#[verifier::external_body]
fn entry_mut<'a, V>(m: &'a mut BTreeMap<u64, V>, k: u64) -> (r: Option<&'a mut V>)
    ensures
        match r {
            Some(v) => old(m)@.contains_key(k) && *v == old(m)@[k] && final(m)@ == old(m)@.insert(
                k,
                *final(v),
            ),
            None => !old(m)@.contains_key(k) && final(m)@ == old(m)@,
        },
{
    m.get_mut(&k)
}

impl<T> TieredMulti<T> {
    /// The tiers of the collection in ascending order.
    pub open spec fn tier_seq(&self) -> Seq<u64> {
        ascending(self@.dom())
    }

    /// All items with their tiers, lowest tier first, within a tier in the
    /// order in which they were added.
    pub open spec fn items(&self) -> Seq<(u64, T)> {
        items_of(self@)
    }

    /// The tiers in ascending order, each with the items it holds.
    pub open spec fn groups(&self) -> Seq<(u64, Seq<T>)> {
        self.tier_seq().map_values(|k: u64| (k, self@[k]))
    }

    /// The total value in millisatoshi.
    pub open spec fn value(&self) -> nat {
        value_of_items(self@)
    }

    /// The number of items, all tiers together.
    pub open spec fn count(&self) -> nat {
        number_of_items(self@)
    }

    /// A collection has finitely many tiers.
    pub proof fn lemma_finite(&self)
        ensures
            self@.dom().finite(),
    {
        assert(self@.dom() =~= self.0@.dom());
    }

    /// The numbers of tiers and of items at a tier are numbers that the
    /// machine can count.
    pub proof fn lemma_bounded(&self)
        ensures
            self@.dom().len() <= usize::MAX,
            forall|k: u64| self@.contains_key(k) ==> (#[trigger] self@[k]).len() <= usize::MAX,
    {
        assert(self@.dom() =~= self.0@.dom());
        assert(self.0.len() == self.0@.len());
        assert forall|k: u64| self@.contains_key(k) implies (#[trigger] self@[k]).len()
            <= usize::MAX by {
            assert(self.0@[k].len() == self.0@[k]@.len());
        }
    }

    /// The collection that holds, at each key of `map`, the items stored
    /// there.
    pub fn new(map: BTreeMap<u64, Vec<T>>) -> (c: Self)
        ensures
            c@ == seqs_of(map@),
    {
        TieredMulti(map)
    }

    /// The map behind the collection: at each tier the items held there.
    pub fn into_map(self) -> (map: BTreeMap<u64, Vec<T>>)
        ensures
            seqs_of(map@) == self@,
    {
        self.0
    }

    /// The number of tiers, those without items included.
    pub fn tier_count(&self) -> (n: usize)
        ensures
            n == self@.dom().len(),
    {
        proof {
            assert(self@.dom() =~= self.0@.dom());
        }
        self.0.len()
    }

    /// The tiers in ascending order, each once.
    pub fn tiers(&self) -> (tiers: Vec<Amount>)
        ensures
            msats_of(tiers@) == self.tier_seq(),
            strictly_ascending(msats_of(tiers@)),
            forall|k: u64| msats_of(tiers@).contains(k) <==> self@.contains_key(k),
    {
        let keys = ascending_keys(&self.0);
        let mut tiers: Vec<Amount> = Vec::new();
        let mut i: usize = 0;
        while i < keys.len()
            invariant
                i <= keys.len(),
                tiers@.len() == i,
                forall|j: int| 0 <= j < i ==> tiers@[j].msats == keys@[j],
            decreases keys.len() - i,
        {
            tiers.push(Amount { msats: keys[i] });
            i += 1;
        }
        proof {
            assert(self@.dom() =~= self.0@.dom());
            assert(msats_of(tiers@) =~= keys@);
            lemma_ascending(self@.dom());
        }
        tiers
    }

    /// The items at tier `amt`, if the collection has that tier.
    pub fn get(&self, amt: Amount) -> (found: Option<&Vec<T>>)
        ensures
            match found {
                Some(v) => self@.contains_key(amt.msats) && v@ == self@[amt.msats],
                None => !self@.contains_key(amt.msats),
            },
    {
        self.0.get(&amt.msats)
    }

    /// The items at tier `amt`, to be changed in place, if the collection has
    /// that tier. What the caller leaves in the vector is what the tier holds
    /// afterwards, an empty sequence included; the other tiers stay as they
    /// are.
    pub fn get_mut(&mut self, amt: Amount) -> (found: Option<&mut Vec<T>>)
        ensures
            match found {
                Some(v) => old(self)@.contains_key(amt.msats) && v@ == old(self)@[amt.msats]
                    && final(self)@ =~= old(self)@.insert(amt.msats, final(v)@),
                None => !old(self)@.contains_key(amt.msats) && final(self)@ == old(self)@,
            },
    {
        entry_mut(&mut self.0, amt.msats)
    }

    /// Adds `item` at tier `amt`: after the items the tier holds already, or
    /// as the first item of a tier that the collection did not have.
    pub fn push(&mut self, amt: Amount, item: T)
        ensures
            final(self)@ == put(old(self)@, amt.msats, item),
    {
        match entry_mut(&mut self.0, amt.msats) {
            Some(v) => {
                v.push(item);
            },
            None => {
                let mut v: Vec<T> = Vec::new();
                v.push(item);
                self.0.insert(amt.msats, v);
            },
        }
        proof {
            assert(self@ =~= put(old(self)@, amt.msats, item));
        }
    }
}

impl<T> TieredMulti<T> {
    /// Adds the pairs of `pairs` one by one, first to last: each item goes
    /// after the items that its tier holds by then, and a tier that the
    /// collection lacks is created.
    pub fn extend(&mut self, pairs: Vec<(Amount, T)>)
        ensures
            final(self)@ == put_all(old(self)@, pairs_of(pairs@)),
    {
        let ghost before = self@;
        let ghost all = pairs_of(pairs@);
        let ghost src = pairs@;
        for p in it: pairs
            invariant
                it.seq() == src,
                all == pairs_of(src),
                self@ == put_all(before, all.take(it.index())),
        {
            proof {
                let i = it.index();
                assert(all.take(i + 1).drop_last() =~= all.take(i));
                assert(all.take(i + 1).last() == (p.0.msats, p.1));
            }
            self.push(p.0, p.1);
        }
        proof {
            assert(all.take(all.len() as int) =~= all);
        }
    }

    /// The collection that holds exactly the pairs of `pairs`, added first to
    /// last.
    pub fn from_iter(pairs: Vec<(Amount, T)>) -> (c: Self)
        ensures
            c@ == gather(pairs_of(pairs@)),
    {
        let mut c = TieredMulti(BTreeMap::new());
        proof {
            assert(c@ =~= Map::<u64, Seq<T>>::empty());
        }
        c.extend(pairs);
        c
    }
}

impl<T> TieredMulti<T> {
    /// The tiers in ascending order, each with the items it holds.
    pub fn iter_tiers(&self) -> (groups: Vec<(Amount, &Vec<T>)>)
        ensures
            groups_of(groups@) == self.groups(),
    {
        let keys = ascending_keys(&self.0);
        proof {
            assert(self@.dom() =~= self.0@.dom());
            lemma_ascending(self@.dom());
        }
        let mut groups: Vec<(Amount, &Vec<T>)> = Vec::new();
        let mut i: usize = 0;
        while i < keys.len()
            invariant
                i <= keys.len(),
                keys@ == self.tier_seq(),
                forall|x: u64| keys@.contains(x) <==> self@.dom().contains(x),
                groups@.len() == i,
                forall|j: int|
                    0 <= j < i ==> groups@[j].0.msats == keys@[j] && groups@[j].1@ == self@[keys@[j]],
            decreases keys.len() - i,
        {
            let k = keys[i];
            assert(keys@.contains(k));
            match self.0.get(&k) {
                Some(v) => {
                    groups.push((Amount { msats: k }, v));
                },
                None => {},
            }
            i += 1;
        }
        proof {
            assert(groups_of(groups@) =~= self.groups());
        }
        groups
    }

    /// All items with their tiers, in canonical order: from the lowest tier
    /// to the highest, and within a tier in the order in which they were
    /// added.
    pub fn iter_items(&self) -> (pairs: Vec<(Amount, &T)>)
        ensures
            borrowed_pairs_of(pairs@) == self.items(),
    {
        let keys = ascending_keys(&self.0);
        proof {
            assert(self@.dom() =~= self.0@.dom());
            lemma_ascending(self@.dom());
        }
        let mut pairs: Vec<(Amount, &T)> = Vec::new();
        let mut i: usize = 0;
        while i < keys.len()
            invariant
                i <= keys.len(),
                keys@ == self.tier_seq(),
                forall|x: u64| keys@.contains(x) <==> self@.dom().contains(x),
                borrowed_pairs_of(pairs@) == items_along(self@, keys@.take(i as int)),
            decreases keys.len() - i,
        {
            let k = keys[i];
            assert(keys@.contains(k));
            let ghost done = borrowed_pairs_of(pairs@);
            match self.0.get(&k) {
                Some(v) => {
                    let mut j: usize = 0;
                    while j < v.len()
                        invariant
                            j <= v.len(),
                            self@.contains_key(k),
                            v@ == self@[k],
                            borrowed_pairs_of(pairs@) == done + tagged(k, v@.take(j as int)),
                        decreases v.len() - j,
                    {
                        let ghost prev = pairs@;
                        pairs.push((Amount { msats: k }, &v[j]));
                        proof {
                            assert(v@.take(j + 1) =~= v@.take(j as int).push(v@[j as int]));
                            assert(borrowed_pairs_of(pairs@) =~= borrowed_pairs_of(prev).push(
                                (k, v@[j as int]),
                            ));
                            assert(tagged(k, v@.take(j + 1)) =~= tagged(k, v@.take(j as int)).push(
                                (k, v@[j as int]),
                            ));
                        }
                        j += 1;
                    }
                    proof {
                        assert(v@.take(v.len() as int) =~= v@);
                    }
                },
                None => {},
            }
            proof {
                assert(keys@.take(i + 1).drop_last() =~= keys@.take(i as int));
            }
            i += 1;
        }
        proof {
            assert(keys@.take(keys.len() as int) =~= keys@);
        }
        pairs
    }

    /// All items with their tiers, moved out of the collection, in the
    /// canonical order of `iter_items`.
    pub fn into_iter_items(self) -> (pairs: Vec<(Amount, T)>)
        ensures
            pairs_of(pairs@) == self.items(),
    {
        let keys = ascending_keys(&self.0);
        proof {
            assert(self@.dom() =~= self.0@.dom());
            lemma_ascending(self@.dom());
        }
        let ghost whole = self@;
        let mut map = self.0;
        let mut pairs: Vec<(Amount, T)> = Vec::new();
        let mut i: usize = 0;
        while i < keys.len()
            invariant
                i <= keys.len(),
                whole.dom().finite(),
                keys@ == ascending(whole.dom()),
                strictly_ascending(keys@),
                forall|x: u64| keys@.contains(x) <==> whole.dom().contains(x),
                forall|j: int|
                    i <= j < keys.len() ==> map@.contains_key(keys@[j]) && whole.contains_key(
                        keys@[j],
                    ) && map@[keys@[j]]@ == whole[keys@[j]],
                pairs_of(pairs@) == items_along(whole, keys@.take(i as int)),
            decreases keys.len() - i,
        {
            let k = keys[i];
            let ghost done = pairs_of(pairs@);
            match map.remove(&k) {
                Some(v) => {
                    let ghost held = v@;
                    for x in it: v
                        invariant
                            it.seq() == held,
                            pairs_of(pairs@) == done + tagged(k, held.take(it.index())),
                    {
                        let ghost prev = pairs@;
                        pairs.push((Amount { msats: k }, x));
                        proof {
                            let j = it.index();
                            assert(held.take(j + 1) =~= held.take(j).push(held[j]));
                            assert(pairs_of(pairs@) =~= pairs_of(prev).push((k, x)));
                            assert(tagged(k, held.take(j + 1)) =~= tagged(k, held.take(j)).push(
                                (k, x),
                            ));
                        }
                    }
                    proof {
                        assert(held.take(held.len() as int) =~= held);
                    }
                },
                None => {},
            }
            proof {
                assert(keys@.take(i + 1).drop_last() =~= keys@.take(i as int));
            }
            i += 1;
        }
        proof {
            assert(keys@.take(keys.len() as int) =~= keys@);
        }
        pairs
    }
}

impl<T> TieredMulti<T> {
    /// The total value of the collection. It is for collections whose value
    /// fits an `Amount`; `checked_total_amount` asks nothing.
    pub fn total_amount(&self) -> (total: Amount)
        requires
            self.value() <= u64::MAX,
        ensures
            total.msats == self.value(),
    {
        let keys = ascending_keys(&self.0);
        proof {
            assert(self@.dom() =~= self.0@.dom());
            assert(counts_of(self@).dom() =~= self@.dom());
            lemma_ascending(self@.dom());
        }
        let ghost mut rest = counts_of(self@);
        let mut sum: u64 = 0;
        let mut i: usize = 0;
        while i < keys.len()
            invariant
                i <= keys.len(),
                strictly_ascending(keys@),
                self.value() <= u64::MAX,
                rest.dom().finite(),
                rest.dom().len() == keys.len() - i,
                forall|j: int|
                    i <= j < keys.len() ==> rest.contains_key(keys@[j]) && self.0@.contains_key(
                        keys@[j],
                    ) && rest[keys@[j]] == self.0@[keys@[j]]@.len(),
                sum + tally(rest, by_value()) == self.value(),
            decreases keys.len() - i,
        {
            let k = keys[i];
            match self.0.get(&k) {
                Some(v) => {
                    proof {
                        lemma_tally_remove(rest, by_value(), k);
                        rest = rest.remove(k);
                    }
                    sum = sum + k * (v.len() as u64);
                },
                None => {},
            }
            i += 1;
        }
        proof {
            lemma_tally_empty(rest, by_value());
        }
        Amount { msats: sum }
    }

    /// The total value of the collection, or `None` where it is more than an
    /// `Amount` can hold.
    pub fn checked_total_amount(&self) -> (total: Option<Amount>)
        ensures
            match total {
                Some(a) => a.msats == self.value(),
                None => self.value() > u64::MAX,
            },
    {
        let keys = ascending_keys(&self.0);
        proof {
            assert(self@.dom() =~= self.0@.dom());
            assert(counts_of(self@).dom() =~= self@.dom());
            lemma_ascending(self@.dom());
        }
        let ghost mut rest = counts_of(self@);
        let mut sum: u64 = 0;
        let mut i: usize = 0;
        while i < keys.len()
            invariant
                i <= keys.len(),
                strictly_ascending(keys@),
                rest.dom().finite(),
                rest.dom().len() == keys.len() - i,
                forall|j: int|
                    i <= j < keys.len() ==> rest.contains_key(keys@[j]) && self.0@.contains_key(
                        keys@[j],
                    ) && rest[keys@[j]] == self.0@[keys@[j]]@.len(),
                sum + tally(rest, by_value()) == self.value(),
            decreases keys.len() - i,
        {
            let k = keys[i];
            match self.0.get(&k) {
                Some(v) => {
                    proof {
                        lemma_tally_remove(rest, by_value(), k);
                        rest = rest.remove(k);
                    }
                    match k.checked_mul(v.len() as u64) {
                        Some(worth) => match sum.checked_add(worth) {
                            Some(more) => {
                                sum = more;
                            },
                            None => {
                                return None;
                            },
                        },
                        None => {
                            return None;
                        },
                    }
                },
                None => {},
            }
            i += 1;
        }
        proof {
            lemma_tally_empty(rest, by_value());
        }
        Some(Amount { msats: sum })
    }

    /// The number of items, all tiers together. It is for collections whose
    /// item count fits a `usize`.
    pub fn item_count(&self) -> (n: usize)
        requires
            self.count() <= usize::MAX,
        ensures
            n == self.count(),
    {
        let keys = ascending_keys(&self.0);
        proof {
            assert(self@.dom() =~= self.0@.dom());
            assert(counts_of(self@).dom() =~= self@.dom());
            lemma_ascending(self@.dom());
        }
        let ghost mut rest = counts_of(self@);
        let mut sum: usize = 0;
        let mut i: usize = 0;
        while i < keys.len()
            invariant
                i <= keys.len(),
                strictly_ascending(keys@),
                self.count() <= usize::MAX,
                rest.dom().finite(),
                rest.dom().len() == keys.len() - i,
                forall|j: int|
                    i <= j < keys.len() ==> rest.contains_key(keys@[j]) && self.0@.contains_key(
                        keys@[j],
                    ) && rest[keys@[j]] == self.0@[keys@[j]]@.len(),
                sum + tally(rest, by_count()) == self.count(),
            decreases keys.len() - i,
        {
            let k = keys[i];
            match self.0.get(&k) {
                Some(v) => {
                    proof {
                        lemma_tally_remove(rest, by_count(), k);
                        rest = rest.remove(k);
                    }
                    sum = sum + v.len();
                },
                None => {},
            }
            i += 1;
        }
        proof {
            lemma_tally_empty(rest, by_count());
        }
        sum
    }

    /// Whether the collection holds no item. Tiers without items do not
    /// count.
    pub fn is_empty(&self) -> (empty: bool)
        ensures
            empty == (self.count() == 0),
    {
        let keys = ascending_keys(&self.0);
        proof {
            assert(self@.dom() =~= self.0@.dom());
            assert(counts_of(self@).dom() =~= self@.dom());
            lemma_ascending(self@.dom());
        }
        let ghost mut rest = counts_of(self@);
        let mut i: usize = 0;
        while i < keys.len()
            invariant
                i <= keys.len(),
                strictly_ascending(keys@),
                rest.dom().finite(),
                rest.dom().len() == keys.len() - i,
                forall|j: int|
                    i <= j < keys.len() ==> rest.contains_key(keys@[j]) && self.0@.contains_key(
                        keys@[j],
                    ) && rest[keys@[j]] == self.0@[keys@[j]]@.len(),
                tally(rest, by_count()) == self.count(),
            decreases keys.len() - i,
        {
            let k = keys[i];
            match self.0.get(&k) {
                Some(v) => {
                    proof {
                        lemma_tally_remove(rest, by_count(), k);
                        rest = rest.remove(k);
                    }
                    if v.len() > 0 {
                        return false;
                    }
                },
                None => {},
            }
            i += 1;
        }
        proof {
            lemma_tally_empty(rest, by_count());
        }
        true
    }

    /// The largest number of items that any one tier holds, 0 for a
    /// collection without tiers.
    pub fn max_tier_len(&self) -> (longest: usize)
        ensures
            is_longest_tier(self@, longest as nat),
    {
        let keys = ascending_keys(&self.0);
        proof {
            assert(self@.dom() =~= self.0@.dom());
            lemma_ascending(self@.dom());
        }
        let mut longest: usize = 0;
        let mut i: usize = 0;
        while i < keys.len()
            invariant
                i <= keys.len(),
                forall|x: u64| keys@.contains(x) <==> self@.dom().contains(x),
                forall|j: int| 0 <= j < i ==> self@[keys@[j]].len() <= longest,
                longest == 0 || exists|j: int| 0 <= j < i && self@[keys@[j]].len() == longest,
            decreases keys.len() - i,
        {
            let k = keys[i];
            assert(keys@.contains(k));
            match self.0.get(&k) {
                Some(v) => {
                    if v.len() > longest {
                        longest = v.len();
                    }
                },
                None => {},
            }
            i += 1;
        }
        proof {
            assert forall|k: u64| self@.contains_key(k) implies self@[k].len() <= longest by {
                assert(keys@.contains(k));
                let j = choose|j: int| 0 <= j < keys@.len() && keys@[j] == k;
                assert(self@[keys@[j]].len() <= longest);
            }
            if longest != 0 {
                let j = choose|j: int| 0 <= j < i && self@[keys@[j]].len() == longest;
                assert(keys@.contains(keys@[j]));
            }
        }
        longest
    }

    /// Checks the tiers of the collection against the catalog `keys`: `Ok` if
    /// the catalog has every one of them, else the lowest tier that it lacks.
    pub fn check_tiers<K>(&self, keys: &Tiered<K>) -> (checked: Result<
        (),
        InvalidAmountTierError,
    >)
        ensures
            match checked {
                Ok(_) => forall|k: u64| self@.contains_key(k) ==> keys@.contains_key(k),
                Err(e) => {
                    &&& self@.contains_key(e.0.msats)
                    &&& !keys@.contains_key(e.0.msats)
                    &&& forall|k: u64|
                        self@.contains_key(k) && k < e.0.msats ==> keys@.contains_key(k)
                },
            },
    {
        let mine = ascending_keys(&self.0);
        proof {
            assert(self@.dom() =~= self.0@.dom());
            lemma_ascending(self@.dom());
        }
        let mut i: usize = 0;
        while i < mine.len()
            invariant
                i <= mine.len(),
                strictly_ascending(mine@),
                forall|x: u64| mine@.contains(x) <==> self@.dom().contains(x),
                forall|j: int| 0 <= j < i ==> keys@.contains_key(mine@[j]),
            decreases mine.len() - i,
        {
            let amt = Amount { msats: mine[i] };
            assert(mine@.contains(amt.msats));
            if keys.get(amt).is_none() {
                proof {
                    assert forall|k: u64|
                        self@.contains_key(k) && k < amt.msats implies keys@.contains_key(k) by {
                        assert(mine@.contains(k));
                        let j = choose|j: int| 0 <= j < mine@.len() && mine@[j] == k;
                        assert(j < i);
                    }
                }
                return Err(InvalidAmountTierError(amt));
            }
            i += 1;
        }
        proof {
            assert forall|k: u64| self@.contains_key(k) implies keys@.contains_key(k) by {
                assert(mine@.contains(k));
                let j = choose|j: int| 0 <= j < mine@.len() && mine@[j] == k;
                assert(keys@.contains_key(mine@[j]));
            }
        }
        Ok(())
    }

    /// Whether `other` has the same tiers as this collection and as many
    /// items at each of them. The items are not compared.
    pub fn structural_eq<O>(&self, other: &TieredMulti<O>) -> (same: bool)
        ensures
            same == same_shape(self@, other@),
    {
        let mine = ascending_keys(&self.0);
        let theirs = ascending_keys(&other.0);
        proof {
            assert(self@.dom() =~= self.0@.dom());
            assert(other@.dom() =~= other.0@.dom());
            lemma_ascending(self@.dom());
            lemma_ascending(other@.dom());
        }
        if mine.len() != theirs.len() {
            return false;
        }
        let mut i: usize = 0;
        while i < mine.len()
            invariant
                i <= mine.len(),
                mine.len() == theirs.len(),
                mine@ == ascending(self@.dom()),
                theirs@ == ascending(other@.dom()),
                forall|x: u64| mine@.contains(x) <==> self@.dom().contains(x),
                forall|x: u64| theirs@.contains(x) <==> other@.dom().contains(x),
                forall|j: int|
                    0 <= j < i ==> mine@[j] == theirs@[j] && self@[mine@[j]].len()
                        == other@[mine@[j]].len(),
            decreases mine.len() - i,
        {
            let k = mine[i];
            assert(mine@.contains(k));
            assert(theirs@.contains(theirs@[i as int]));
            if theirs[i] != k {
                return false;
            }
            match (self.0.get(&k), other.0.get(&k)) {
                (Some(a), Some(b)) => {
                    if a.len() != b.len() {
                        return false;
                    }
                },
                _ => {},
            }
            i += 1;
        }
        proof {
            assert(mine@ =~= theirs@);
            assert(self@.dom() =~= other@.dom());
            assert forall|k: u64| self@.contains_key(k) implies self@[k].len() == other@[k].len() by {
                assert(mine@.contains(k));
                let j = choose|j: int| 0 <= j < mine@.len() && mine@[j] == k;
                assert(self@[mine@[j]].len() == other@[mine@[j]].len());
            }
        }
        true
    }
}

impl<T> TieredMulti<T> {
    /// Applies `f` to every item, in canonical order, and keeps the tiers:
    /// the result holds at each tier, place by place, what `f` made of the
    /// items there. The first error that `f` returns ends the work and is
    /// handed back instead; nothing of the result is kept then.
    pub fn map<F, N, E>(self, f: F) -> (mapped: Result<TieredMulti<N>, E>) where
        F: Fn(Amount, T) -> Result<N, E>,

        requires
            callable_on(f, self@),
        ensures
            match mapped {
                Ok(c) => mapped_by(f, self@, c@),
                Err(e) => fails_with(f, self.items(), e),
            },
    {
        let keys = ascending_keys(&self.0);
        proof {
            assert(self@.dom() =~= self.0@.dom());
            lemma_ascending(self@.dom());
        }
        let ghost whole = self@;
        let mut map = self.0;
        let mut out: BTreeMap<u64, Vec<N>> = BTreeMap::new();
        let mut i: usize = 0;
        while i < keys.len()
            invariant
                i <= keys.len(),
                whole.dom().finite(),
                whole == self@,
                keys@ == ascending(whole.dom()),
                strictly_ascending(keys@),
                callable_on(f, whole),
                forall|x: u64| keys@.contains(x) <==> whole.dom().contains(x),
                forall|j: int|
                    i <= j < keys.len() ==> map@.contains_key(#[trigger] keys@[j])
                        && whole.contains_key(keys@[j]) && map@[keys@[j]]@ == whole[keys@[j]],
                forall|x: u64| out@.contains_key(x) <==> keys@.take(i as int).contains(x),
                forall|x: u64| out@.contains_key(x) ==> out@[x]@.len() == whole[x].len(),
                forall|x: u64, n: int|
                    out@.contains_key(x) && 0 <= n < whole[x].len() ==> call_ensures(
                        f,
                        (Amount { msats: x }, #[trigger] whole[x][n]),
                        Ok::<N, E>(out@[x]@[n]),
                    ),
                forall|n: int|
                    0 <= n < items_along(whole, keys@.take(i as int)).len() ==> accepts(
                        f,
                        (#[trigger] items_along(whole, keys@.take(i as int))[n]).0,
                        items_along(whole, keys@.take(i as int))[n].1,
                    ),
            decreases keys.len() - i,
        {
            let k = keys[i];
            let ghost done = items_along(whole, keys@.take(i as int));
            let mut made: Vec<N> = Vec::new();
            match map.remove(&k) {
                Some(v) => {
                    let ghost held = v@;
                    for x in it: v
                        invariant
                            it.seq() == held,
                            held == whole[k],
                            whole.contains_key(k),
                            k == keys@[i as int],
                            i < keys.len(),
                            keys@ == ascending(whole.dom()),
                            whole.dom().finite(),
                            whole == self@,
                            callable_on(f, whole),
                            done == items_along(whole, keys@.take(i as int)),
                            made@.len() == it.index(),
                            forall|n: int|
                                0 <= n < made@.len() ==> call_ensures(
                                    f,
                                    (Amount { msats: k }, #[trigger] held[n]),
                                    Ok::<N, E>(made@[n]),
                                ),
                            forall|n: int|
                                0 <= n < done.len() ==> accepts(
                                    f,
                                    (#[trigger] done[n]).0,
                                    done[n].1,
                                ),
                    {
                        let ghost j = it.index();
                        assert(x == whole[k][j]);
                        match f(Amount { msats: k }, x) {
                            Ok(n) => {
                                made.push(n);
                            },
                            Err(e) => {
                                proof {
                                    lemma_items_along_prefix(whole, keys@, i as int, j);
                                    let seen = done + tagged(k, held.take(j));
                                    let items = items_of(whole);
                                    let at = seen.len() as int;
                                    assert(items[at] == (k, x));
                                    assert forall|n: int| 0 <= n < at implies accepts(
                                        f,
                                        (#[trigger] items[n]).0,
                                        items[n].1,
                                    ) by {
                                        assert(items[n] == seen[n]);
                                        if n >= done.len() {
                                            assert(seen[n] == (k, held[n - done.len()]));
                                            assert(call_ensures(
                                                f,
                                                (Amount { msats: k }, held[n - done.len()]),
                                                Ok::<N, E>(made@[n - done.len()]),
                                            ));
                                        } else {
                                            assert(seen[n] == done[n]);
                                        }
                                    }
                                    assert(call_ensures(
                                        f,
                                        (Amount { msats: items[at].0 }, items[at].1),
                                        Err::<N, E>(e),
                                    ));
                                }
                                return Err(e);
                            },
                        }
                    }
                    proof {
                        assert(held.take(held.len() as int) =~= held);
                    }
                },
                None => {},
            }
            proof {
                lemma_take_next(keys@, i as int);
                let next = items_along(whole, keys@.take(i + 1));
                assert(next == done + tagged(k, whole[k]));
                assert forall|n: int| 0 <= n < next.len() implies accepts(
                    f,
                    (#[trigger] next[n]).0,
                    next[n].1,
                ) by {
                    if n >= done.len() {
                        assert(next[n] == (k, whole[k][n - done.len()]));
                        assert(call_ensures(
                            f,
                            (Amount { msats: k }, whole[k][n - done.len()]),
                            Ok::<N, E>(made@[n - done.len()]),
                        ));
                    } else {
                        assert(next[n] == done[n]);
                    }
                }
            }
            out.insert(k, made);
            i += 1;
        }
        let mapped = TieredMulti(out);
        proof {
            assert(keys@.take(keys.len() as int) =~= keys@);
            assert(mapped@.dom() =~= whole.dom());
        }
        Ok(mapped)
    }
}

impl<T> Default for TieredMulti<T> {
    /// The collection without tiers.
    fn default() -> (c: Self)
        ensures
            c@ == Map::<u64, Seq<T>>::empty(),
    {
        let c = TieredMulti(BTreeMap::new());
        proof {
            assert(c@ =~= Map::<u64, Seq<T>>::empty());
        }
        c
    }
}

} // verus!
