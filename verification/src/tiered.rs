//! The tier catalog: one value per tier, tiers in ascending order.

use crate::amount::{msats_of, Amount};
use crate::order::{ascending, ascending_keys, lemma_ascending, strictly_ascending};
use std::collections::BTreeMap;
use vstd::prelude::*;

verus! {

/// A tier that a catalog does not have.
#[derive(Clone, Copy, Debug, PartialEq, Eq, Structural)]
pub struct InvalidAmountTierError(pub Amount);

/// `m` after the pairs of `pairs` were stored one by one, first to last; a
/// later value replaces an earlier one of the same tier.
pub open spec fn store_all<T>(m: Map<u64, T>, pairs: Seq<(Amount, T)>) -> Map<u64, T>
    decreases pairs.len(),
{
    if pairs.len() == 0 {
        m
    } else {
        store_all(m, pairs.drop_last()).insert(pairs.last().0.msats, pairs.last().1)
    }
}

/// One value for each of a set of tiers, keyed by the tier's value in
/// millisatoshi. The tiers of a catalog are the valid denominations.
#[derive(Debug, Clone, Eq, PartialEq, Hash)]
pub struct Tiered<T>(BTreeMap<u64, T>);

impl<T> View for Tiered<T> {
    type V = Map<u64, T>;

    closed spec fn view(&self) -> Map<u64, T> {
        self.0@
    }
}

impl<T> Tiered<T> {
    /// The tiers in ascending order.
    pub open spec fn tier_seq(&self) -> Seq<u64> {
        ascending(self@.dom())
    }

    /// A catalog has finitely many tiers.
    pub proof fn lemma_finite(&self)
        ensures
            self@.dom().finite(),
    {
    }

    /// The catalog that holds the pairs of `pairs`, stored first to last.
    pub fn from_iter(pairs: Vec<(Amount, T)>) -> (t: Self)
        ensures
            t@ == store_all(Map::empty(), pairs@),
    {
        let mut map: BTreeMap<u64, T> = BTreeMap::new();
        let ghost src = pairs@;
        for p in it: pairs
            invariant
                it.seq() == src,
                map@ == store_all(Map::empty(), src.take(it.index())),
        {
            proof {
                let i = it.index();
                assert(src.take(i + 1).drop_last() =~= src.take(i));
            }
            map.insert(p.0.msats, p.1);
        }
        proof {
            assert(src.take(src.len() as int) =~= src);
        }
        Tiered(map)
    }

    /// Stores `value` at tier `amt` and hands back the value that the tier
    /// held before, if it had one.
    pub fn insert(&mut self, amt: Amount, value: T) -> (before: Option<T>)
        ensures
            final(self)@ == old(self)@.insert(amt.msats, value),
            match before {
                Some(v) => old(self)@.contains_key(amt.msats) && v == old(self)@[amt.msats],
                None => !old(self)@.contains_key(amt.msats),
            },
    {
        self.0.insert(amt.msats, value)
    }

    /// The value at tier `amt`, if the catalog has that tier.
    pub fn get(&self, amt: Amount) -> (found: Option<&T>)
        ensures
            match found {
                Some(v) => self@.contains_key(amt.msats) && *v == self@[amt.msats],
                None => !self@.contains_key(amt.msats),
            },
    {
        self.0.get(&amt.msats)
    }

    /// The number of tiers.
    pub fn tier_count(&self) -> (n: usize)
        ensures
            n == self@.dom().len(),
    {
        self.0.len()
    }

    /// The tiers in ascending order, each once.
    pub fn tiers(&self) -> (tiers: Vec<Amount>)
        ensures
            tiers@.len() == self.tier_seq().len(),
            forall|i: int| 0 <= i < tiers@.len() ==> tiers@[i].msats == self.tier_seq()[i],
            strictly_ascending(msats_of(tiers@)),
    {
        let keys = ascending_keys(&self.0);
        let mut tiers: Vec<Amount> = Vec::new();
        let mut i: usize = 0;
        while i < keys.len()
            invariant
                i <= keys.len(),
                tiers@.len() == i,
                forall|j: int| 0 <= j < i ==> tiers@[j].msats == keys@[j],
            decreases keys.len() - i,
        {
            tiers.push(Amount { msats: keys[i] });
            i += 1;
        }
        proof {
            lemma_ascending(self@.dom());
            assert(msats_of(tiers@) =~= keys@);
        }
        tiers
    }
}

impl<T> Default for Tiered<T> {
    /// The catalog without tiers.
    fn default() -> (t: Self)
        ensures
            t@ == Map::<u64, T>::empty(),
    {
        Tiered(BTreeMap::new())
    }
}

} // verus!
