//! Finite sets of tier values and the ascending order in which they are walked.
//!
//! Every algorithm of this library visits tiers from the lowest to the highest
//! (or exactly the other way round). The functions here say what that order is
//! for a set of keys, independently of the container that stores them.

use std::collections::BTreeMap;
use vstd::prelude::*;
use vstd::std_specs::btree::{increasing_seq, spec_btree_map_iter};
use vstd::std_specs::cmp::OrdSpec;
use vstd::std_specs::iter::IteratorSpec;

verus! {

/// Each element of `s` is smaller than every element after it.
pub open spec fn strictly_ascending(s: Seq<u64>) -> bool {
    forall|i: int, j: int| 0 <= i < j < s.len() ==> s[i] < s[j]
}

/// `g` belongs to `s` and no element of `s` is larger.
pub open spec fn is_greatest(s: Set<u64>, g: u64) -> bool {
    s.contains(g) && forall|x: u64| s.contains(x) ==> x <= g
}

/// The largest element of `s`; meaningful when `s` is finite and not empty.
pub open spec fn greatest(s: Set<u64>) -> u64 {
    choose|g: u64| is_greatest(s, g)
}

/// The elements of the finite set `s`, from the smallest to the largest.
pub open spec fn ascending(s: Set<u64>) -> Seq<u64>
    decreases s.len(),
    when s.finite()
{
    if s.contains(greatest(s)) {
        ascending(s.remove(greatest(s))).push(greatest(s))
    } else {
        Seq::empty()
    }
}

/// A finite set that is not empty has a largest element.
pub proof fn lemma_greatest(s: Set<u64>)
    requires
        s.finite(),
        s.len() > 0,
    ensures
        is_greatest(s, greatest(s)),
    decreases s.len(),
{
    let x = s.choose();
    let rest = s.remove(x);
    if rest.len() == 0 {
        assert forall|y: u64| s.contains(y) implies y <= x by {
            if y != x {
                assert(rest.contains(y));
            }
        }
        assert(is_greatest(s, x));
    } else {
        lemma_greatest(rest);
        let g = greatest(rest);
        let w = if x <= g { g } else { x };
        assert forall|y: u64| s.contains(y) implies y <= w by {
            if y != x {
                assert(rest.contains(y));
            }
        }
        assert(is_greatest(s, w));
    }
}

/// `ascending(s)` lists exactly the elements of `s`, each once, smallest first,
/// and ends with the largest.
pub proof fn lemma_ascending(s: Set<u64>)
    requires
        s.finite(),
    ensures
        strictly_ascending(ascending(s)),
        ascending(s).len() == s.len(),
        forall|x: u64| ascending(s).contains(x) <==> s.contains(x),
        s.len() > 0 ==> is_greatest(s, greatest(s)) && ascending(s) == ascending(
            s.remove(greatest(s)),
        ).push(greatest(s)),
    decreases s.len(),
{
    if s.len() == 0 {
        assert(!s.contains(greatest(s)));
        assert(ascending(s) =~= Seq::<u64>::empty());
    } else {
        lemma_greatest(s);
        let g = greatest(s);
        let rest = s.remove(g);
        lemma_ascending(rest);
        let q = ascending(rest);
        assert(ascending(s) == q.push(g));
        assert forall|i: int, j: int| 0 <= i < j < q.push(g).len() implies q.push(g)[i] < q.push(
            g,
        )[j] by {
            if j == q.len() {
                assert(q.contains(q[i]));
                assert(rest.contains(q[i]));
            }
        }
        assert forall|x: u64| q.push(g).contains(x) <==> s.contains(x) by {
            if q.push(g).contains(x) {
                let i = choose|i: int| 0 <= i < q.push(g).len() && q.push(g)[i] == x;
                if i < q.len() {
                    assert(q.contains(q[i]));
                }
            }
            if s.contains(x) {
                if x == g {
                    assert(q.push(g)[q.len() as int] == g);
                } else {
                    assert(rest.contains(x));
                    assert(q.contains(x));
                    let i = choose|i: int| 0 <= i < q.len() && q[i] == x;
                    assert(q.push(g)[i] == x);
                }
            }
        }
    }
}

/// Only one strictly ascending sequence lists the elements of a finite set.
pub proof fn lemma_ascending_unique(q: Seq<u64>, s: Set<u64>)
    requires
        s.finite(),
        strictly_ascending(q),
        forall|x: u64| q.contains(x) <==> s.contains(x),
    ensures
        q == ascending(s),
    decreases q.len(),
{
    lemma_ascending(s);
    if q.len() == 0 {
        if s.len() > 0 {
            assert(q.contains(greatest(s)));
        }
        assert(q =~= ascending(s));
    } else {
        let g = q.last();
        assert(q.contains(g));
        assert(s.len() > 0) by {
            if s.len() == 0 {
                assert(s =~= Set::<u64>::empty());
            }
        }
        assert(q.contains(greatest(s)));
        let i = choose|i: int| 0 <= i < q.len() && q[i] == greatest(s);
        assert(greatest(s) == g);
        let front = q.drop_last();
        let rest = s.remove(g);
        assert forall|x: u64| front.contains(x) <==> rest.contains(x) by {
            if front.contains(x) {
                let j = choose|j: int| 0 <= j < front.len() && front[j] == x;
                assert(q[j] == x);
                assert(q.contains(x));
            }
            if rest.contains(x) {
                assert(q.contains(x));
                let j = choose|j: int| 0 <= j < q.len() && q[j] == x;
                assert(front[j] == x);
            }
        }
        lemma_ascending_unique(front, rest);
        assert(q =~= front.push(g));
    }
}

/// The first `i + 1` elements of an ascending sequence are the first `i` and
/// one more that is none of them.
pub proof fn lemma_take_next(s: Seq<u64>, i: int)
    requires
        strictly_ascending(s),
        0 <= i < s.len(),
    ensures
        s.take(i + 1).drop_last() == s.take(i),
        s.take(i + 1).last() == s[i],
        !s.take(i).contains(s[i]),
        forall|x: u64| s.take(i + 1).contains(x) <==> s.take(i).contains(x) || x == s[i],
        forall|j: int| 0 <= j < s.len() && j != i ==> #[trigger] s[j] != s[i],
{
    let done = s.take(i);
    let next = s.take(i + 1);
    assert(next.drop_last() =~= done);
    if done.contains(s[i]) {
        let j = choose|j: int| 0 <= j < done.len() && done[j] == s[i];
        assert(s[j] < s[i]);
    }
    assert forall|x: u64| next.contains(x) <==> done.contains(x) || x == s[i] by {
        if next.contains(x) {
            let j = choose|j: int| 0 <= j < next.len() && next[j] == x;
            if j < i {
                assert(done[j] == x);
            }
        }
        if done.contains(x) {
            let j = choose|j: int| 0 <= j < done.len() && done[j] == x;
            assert(next[j] == x);
        }
        assert(next[i] == s[i]);
    }
    assert forall|j: int| 0 <= j < s.len() && j != i implies #[trigger] s[j] != s[i] by {
        if j < i {
            assert(s[j] < s[i]);
        } else {
            assert(s[i] < s[j]);
        }
    }
}

/// The keys of `m`, from the smallest to the largest.
pub fn ascending_keys<V>(m: &BTreeMap<u64, V>) -> (keys: Vec<u64>)
    ensures
        keys@ == ascending(m@.dom()),
{
    let mut keys: Vec<u64> = Vec::new();
    let ghost pairs = spec_btree_map_iter(m).remaining();
    let ghost walked = pairs.map_values(|kv: (&u64, &V)| *kv.0);
    for kv in it: m.iter()
        invariant
            keys@.len() == it.index(),
            it.seq() == pairs,
            increasing_seq(walked),
            walked == pairs.map_values(|kv: (&u64, &V)| *kv.0),
            forall|i: int| 0 <= i < keys@.len() ==> keys@[i] == *it.seq()[i].0,
    {
        keys.push(*kv.0);
    }
    proof {
        assert(keys@ =~= walked);
        assert forall|i: int, j: int| 0 <= i < j < walked.len() implies walked[i] < walked[j] by {
            assert(walked[i].cmp_spec(&walked[j]) is Less);
        }
        assert forall|k: u64| keys@.contains(k) <==> m@.dom().contains(k) by {
            if m@.dom().contains(k) {
                assert(pairs.contains((&k, &m@[k])));
                let i = choose|i: int| 0 <= i < pairs.len() && pairs[i] == (&k, &m@[k]);
                assert(keys@[i] == k);
            }
            if keys@.contains(k) {
                let i = choose|i: int| 0 <= i < keys@.len() && keys@[i] == k;
                assert(m@.contains_key(*pairs[i].0));
            }
        }
        lemma_ascending_unique(keys@, m@.dom());
    }
    keys
}

} // verus!
