//! Walking the item sequences of several peers in lockstep.
//!
//! Each peer contributes the items of one collection, in canonical order. The
//! collections are structurally equal, so the sequences have the same length
//! and name the same tier at every place. One step of the zip takes the next
//! item of every peer and hands them out together, in the order of the peers,
//! with the tier that they share.

use crate::amount::Amount;
use crate::model::{items_of, lemma_same_shape_items, same_shape};
use crate::multi::pairs_of;
use std::collections::VecDeque;
use vstd::prelude::*;

verus! {

/// The sequences have the same length and name the same tier at every place,
/// and there is at least one of them.
pub open spec fn aligned<C>(seqs: Seq<Seq<(Amount, C)>>) -> bool {
    &&& seqs.len() > 0
    &&& forall|i: int| 0 <= i < seqs.len() ==> (#[trigger] seqs[i]).len() == seqs[0].len()
    &&& forall|i: int, j: int|
        0 <= i < seqs.len() && 0 <= j < seqs[0].len() ==> (#[trigger] seqs[i][j]).0 == seqs[0][j].0
}

/// There is at least one sequence, and either all of them are empty or all
/// of them start with an item of the same tier.
pub open spec fn front_aligned<C>(seqs: Seq<Seq<(Amount, C)>>) -> bool {
    &&& seqs.len() > 0
    &&& forall|i: int| 0 <= i < seqs.len() ==> ((#[trigger] seqs[i]).len() == 0) == (seqs[0].len() == 0)
    &&& forall|i: int|
        0 <= i < seqs.len() && seqs[0].len() > 0 ==> (#[trigger] seqs[i])[0].0 == seqs[0][0].0
}

/// The `j`-th step of the zip of `seqs`: the tier of that place and the items
/// that the sequences have there, in the order of the sequences.
pub open spec fn step_of<C>(seqs: Seq<Seq<(Amount, C)>>, j: int) -> (Amount, Seq<C>) {
    (seqs[0][j].0, Seq::new(seqs.len(), |i: int| seqs[i][j].1))
}

/// The sequences without their first items.
pub open spec fn tails<C>(seqs: Seq<Seq<(Amount, C)>>) -> Seq<Seq<(Amount, C)>> {
    Seq::new(seqs.len(), |i: int| seqs[i].drop_first())
}

/// The zip of `seqs`: one step for each place of the first sequence.
pub open spec fn zipped<C>(seqs: Seq<Seq<(Amount, C)>>) -> Seq<(Amount, Seq<C>)> {
    Seq::new(seqs[0].len(), |j: int| step_of(seqs, j))
}

/// The sequences behind a vector of vectors.
pub open spec fn views_of<C>(inputs: Seq<Vec<(Amount, C)>>) -> Seq<Seq<(Amount, C)>> {
    Seq::new(inputs.len(), |i: int| inputs[i]@)
}

/// The sequences behind a vector of queues.
pub open spec fn queues_of<C>(queues: Seq<VecDeque<(Amount, C)>>) -> Seq<Seq<(Amount, C)>> {
    Seq::new(queues.len(), |i: int| queues[i]@)
}

/// The steps behind a vector of tiers with their groups of items.
pub open spec fn steps_of<C>(steps: Seq<(Amount, Vec<C>)>) -> Seq<(Amount, Seq<C>)> {
    Seq::new(steps.len(), |j: int| (steps[j].0, steps[j].1@))
}

/// A strict zip of the item sequences of several peers.
pub struct TieredMultiZip<C> {
    iters: Vec<VecDeque<(Amount, C)>>,
}

impl<C> TieredMultiZip<C> {
    /// What is left of each peer's sequence.
    pub closed spec fn pending(&self) -> Seq<Seq<(Amount, C)>> {
        queues_of(self.iters@)
    }

    /// The steps that the zip is still going to make, provided that what is
    /// left is aligned.
    pub open spec fn upcoming(&self) -> Seq<(Amount, Seq<C>)> {
        zipped(self.pending())
    }

    /// The zip of the sequences `iters`, one for each peer. There has to be
    /// at least one.
    pub fn new(iters: Vec<Vec<(Amount, C)>>) -> (zip: Self)
        requires
            iters@.len() > 0,
        ensures
            zip.pending() == views_of(iters@),
    {
        let ghost inputs = iters@;
        let mut queues: Vec<VecDeque<(Amount, C)>> = Vec::new();
        for v in it: iters
            invariant
                it.seq() == inputs,
                queues@.len() == it.index(),
                forall|i: int| 0 <= i < queues@.len() ==> (#[trigger] queues@[i])@ == inputs[i]@,
        {
            let ghost items = v@;
            let mut q: VecDeque<(Amount, C)> = VecDeque::new();
            for x in walk: v
                invariant
                    walk.seq() == items,
                    q@ == items.take(walk.index()),
            {
                q.push_back(x);
                proof {
                    let j = walk.index();
                    assert(items.take(j + 1) =~= items.take(j).push(items[j]));
                }
            }
            proof {
                assert(items.take(items.len() as int) =~= items);
            }
            queues.push(q);
        }
        let zip = TieredMultiZip { iters: queues };
        proof {
            assert(zip.pending() =~= views_of(inputs));
        }
        zip
    }

    /// Whether a step can be made: whether the peers either all have an
    /// item left, of one tier, or all have none.
    pub fn front_is_aligned(&self) -> (ok: bool)
        ensures
            ok == front_aligned(self.pending()),
    {
        let ghost seqs = self.pending();
        if self.iters.len() == 0 {
            return false;
        }
        let mut i: usize = 1;
        while i < self.iters.len()
            invariant
                1 <= i <= self.iters@.len(),
                seqs == self.pending(),
                forall|p: int|
                    0 <= p < i ==> ((#[trigger] seqs[p]).len() == 0) == (seqs[0].len() == 0),
                forall|p: int|
                    0 <= p < i && seqs[0].len() > 0 ==> (#[trigger] seqs[p])[0].0 == seqs[0][0].0,
            decreases self.iters@.len() - i,
        {
            assert(seqs[i as int] == self.iters@[i as int]@);
            assert(seqs[0] == self.iters@[0]@);
            if (self.iters[i].len() == 0) != (self.iters[0].len() == 0) {
                return false;
            }
            if self.iters[0].len() > 0 {
                if self.iters[i][0].0.msats != self.iters[0][0].0.msats {
                    assert(seqs[i as int][0].0 != seqs[0][0].0);
                    return false;
                }
            }
            i += 1;
        }
        true
    }

    /// Makes one step: takes the next item of every peer and hands them out
    /// together with their tier, or `None` when the peers have no items
    /// left.
    pub fn next(&mut self) -> (step: Option<(Amount, Vec<C>)>)
        requires
            front_aligned(old(self).pending()),
        ensures
            match step {
                Some((tier, items)) => {
                    &&& old(self).pending()[0].len() > 0
                    &&& (tier, items@) == step_of(old(self).pending(), 0)
                    &&& final(self).pending() == tails(old(self).pending())
                },
                None => {
                    &&& old(self).pending()[0].len() == 0
                    &&& final(self).pending() == old(self).pending()
                },
            },
    {
        let n = self.iters.len();
        let ghost before = self.pending();
        let mut coins: Vec<C> = Vec::with_capacity(n);
        let mut amount: Option<Amount> = None;
        let mut i: usize = 0;
        while i < n
            invariant
                i <= n,
                n == self.iters@.len(),
                n == before.len(),
                before == old(self).pending(),
                front_aligned(before),
                forall|j: int| i <= j < n ==> (#[trigger] self.iters@[j])@ == before[j],
                forall|j: int|
                    0 <= j < i ==> (#[trigger] self.iters@[j])@ == before[j].drop_first(),
                i > 0 ==> before[0].len() > 0 && amount == Some(before[0][0].0),
                i == 0 ==> amount is None,
                coins@.len() == i,
                forall|j: int| 0 <= j < i ==> coins@[j] == (#[trigger] before[j])[0].1,
            decreases n - i,
        {
            match self.iters[i].pop_front() {
                Some((amt, coin)) => {
                    if amount.is_none() {
                        amount = Some(amt);
                    }
                    coins.push(coin);
                },
                None => {
                    proof {
                        assert(before[i as int].len() == 0);
                        assert(self.pending() =~= before);
                    }
                    return None;
                },
            }
            i += 1;
        }
        proof {
            assert(self.pending() =~= tails(before));
            assert(coins@ =~= step_of(before, 0).1);
        }
        match amount {
            Some(tier) => Some((tier, coins)),
            None => None,
        }
    }
}

impl<C> TieredMultiZip<C> {
    /// Whether the sequences `iters` can be zipped to the end: whether there
    /// is at least one, all are equally long, and all name the same tier at
    /// every place.
    pub fn check_aligned(iters: &Vec<Vec<(Amount, C)>>) -> (ok: bool)
        ensures
            ok == aligned(views_of(iters@)),
    {
        let ghost seqs = views_of(iters@);
        if iters.len() == 0 {
            return false;
        }
        let len = iters[0].len();
        let mut i: usize = 1;
        while i < iters.len()
            invariant
                1 <= i <= iters.len(),
                seqs == views_of(iters@),
                len == seqs[0].len(),
                forall|p: int| 0 <= p < i ==> (#[trigger] seqs[p]).len() == len,
                forall|p: int, j: int|
                    0 <= p < i && 0 <= j < len ==> (#[trigger] seqs[p][j]).0 == seqs[0][j].0,
            decreases iters.len() - i,
        {
            assert(seqs[i as int] == iters@[i as int]@);
            if iters[i].len() != len {
                return false;
            }
            let mut j: usize = 0;
            while j < len
                invariant
                    j <= len,
                    1 <= i < iters.len(),
                    seqs == views_of(iters@),
                    len == seqs[0].len(),
                    len == seqs[i as int].len(),
                    forall|q: int| 0 <= q < j ==> (#[trigger] seqs[i as int][q]).0 == seqs[0][q].0,
                decreases len - j,
            {
                assert(seqs[i as int] == iters@[i as int]@);
                assert(seqs[0] == iters@[0]@);
                if iters[i][j].0.msats != iters[0][j].0.msats {
                    assert(seqs[i as int][j as int].0 != seqs[0][j as int].0);
                    return false;
                }
                j += 1;
            }
            i += 1;
        }
        true
    }

    /// Makes every step that is left and hands the steps out in order.
    pub fn into_vec(self) -> (steps: Vec<(Amount, Vec<C>)>)
        requires
            aligned(self.pending()),
        ensures
            steps_of(steps@) == self.upcoming(),
    {
        let ghost whole = self.pending();
        let mut zip = self;
        let mut steps: Vec<(Amount, Vec<C>)> = Vec::new();
        loop
            invariant
                aligned(zip.pending()),
                aligned(whole),
                whole == self.pending(),
                steps@.len() + zip.pending()[0].len() == whole[0].len(),
                steps_of(steps@) + zipped(zip.pending()) == zipped(whole),
            decreases zip.pending()[0].len(),
        {
            let ghost before = zip.pending();
            let ghost made = steps_of(steps@);
            proof {
                lemma_aligned_step(before);
            }
            match zip.next() {
                Some(step) => {
                    steps.push(step);
                    proof {
                        assert(steps_of(steps@) =~= made.push(zipped(before)[0]));
                        assert(made.push(zipped(before)[0]) + zipped(before).drop_first() =~= made
                            + zipped(before));
                    }
                },
                None => {
                    proof {
                        assert(zipped(before) =~= Seq::<(Amount, Seq<C>)>::empty());
                        assert(made + Seq::<(Amount, Seq<C>)>::empty() =~= made);
                    }
                    return steps;
                },
            }
        }
    }
}

/// Aligned sequences can be advanced by one step, and what is left of them
/// is aligned again: its zip is the zip of the whole without the first step.
pub proof fn lemma_aligned_step<C>(seqs: Seq<Seq<(Amount, C)>>)
    requires
        aligned(seqs),
    ensures
        front_aligned(seqs),
        seqs[0].len() > 0 ==> {
            &&& aligned(tails(seqs))
            &&& zipped(seqs)[0] == step_of(seqs, 0)
            &&& zipped(tails(seqs)) == zipped(seqs).drop_first()
        },
{
    if seqs[0].len() > 0 {
        let rest = tails(seqs);
        assert forall|i: int| 0 <= i < rest.len() implies (#[trigger] rest[i]).len()
            == rest[0].len() by {
            assert(seqs[i].len() == seqs[0].len());
        }
        assert forall|i: int, j: int| 0 <= i < rest.len() && 0 <= j < rest[0].len() implies (
        #[trigger] rest[i][j]).0 == rest[0][j].0 by {
            assert(seqs[i].len() == seqs[0].len());
            assert(seqs[i][j + 1].0 == seqs[0][j + 1].0);
        }
        assert forall|p: int| 0 <= p < zipped(rest).len() implies zipped(rest)[p] == zipped(
            seqs,
        ).drop_first()[p] by {
            assert(step_of(rest, p).1 =~= step_of(seqs, p + 1).1);
        }
        assert(zipped(rest) =~= zipped(seqs).drop_first());
    }
    assert forall|i: int| 0 <= i < seqs.len() implies ((#[trigger] seqs[i]).len() == 0) == (
    seqs[0].len() == 0) by {
        assert(seqs[i].len() == seqs[0].len());
    }
}

/// The zip of aligned sequences has one step for each place of the
/// sequences. Each step carries one item of every sequence, in the order of
/// the sequences, and the tier that every sequence names at that place.
pub proof fn lemma_zipped<C>(seqs: Seq<Seq<(Amount, C)>>)
    requires
        aligned(seqs),
    ensures
        forall|i: int| 0 <= i < seqs.len() ==> zipped(seqs).len() == (#[trigger] seqs[i]).len(),
        forall|j: int|
            0 <= j < zipped(seqs).len() ==> (#[trigger] zipped(seqs)[j]).1.len() == seqs.len(),
        forall|i: int, j: int|
            0 <= i < seqs.len() && 0 <= j < zipped(seqs).len() ==> zipped(seqs)[j].0 == (
            #[trigger] seqs[i][j]).0 && zipped(seqs)[j].1[i] == seqs[i][j].1,
{
}

/// The items of structurally equal collections, each taken in canonical
/// order, are aligned.
pub proof fn lemma_structurally_equal_align<C>(
    peers: Seq<Map<u64, Seq<C>>>,
    seqs: Seq<Seq<(Amount, C)>>,
)
    requires
        peers.len() > 0,
        seqs.len() == peers.len(),
        forall|i: int| 0 <= i < peers.len() ==> (#[trigger] peers[i]).dom().finite(),
        forall|i: int| 0 <= i < peers.len() ==> same_shape(peers[0], #[trigger] peers[i]),
        forall|i: int| 0 <= i < peers.len() ==> pairs_of(#[trigger] seqs[i]) == items_of(peers[i]),
    ensures
        aligned(seqs),
{
    assert forall|i: int| 0 <= i < seqs.len() implies (#[trigger] seqs[i]).len()
        == seqs[0].len() by {
        assert(same_shape(peers[0], peers[i]));
        lemma_same_shape_items(peers[0], peers[i]);
        assert(pairs_of(seqs[i]).len() == seqs[i].len());
        assert(pairs_of(seqs[0]).len() == seqs[0].len());
    }
    assert forall|i: int, j: int| 0 <= i < seqs.len() && 0 <= j < seqs[0].len() implies (
    #[trigger] seqs[i][j]).0 == seqs[0][j].0 by {
        assert(same_shape(peers[0], peers[i]));
        lemma_same_shape_items(peers[0], peers[i]);
        assert(seqs[i].len() == seqs[0].len());
        assert(pairs_of(seqs[i])[j].0 == seqs[i][j].0.msats);
        assert(pairs_of(seqs[0])[j].0 == seqs[0][j].0.msats);
        assert(items_of(peers[0])[j].0 == items_of(peers[i])[j].0);
    }
}

} // verus!
