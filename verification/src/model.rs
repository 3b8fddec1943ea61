//! The sketch as a mathematical value, and the laws that hold of it.

use vstd::prelude::*;
use crate::estimator::estimate_from_top;
use crate::retention::{
    is_lowest, is_top, lemma_lowest_unique, lemma_retain_bounded, lemma_retain_idempotent,
    lemma_retain_lowest, lemma_top_exists, lemma_top_is, retain, top_of,
};

verus! {

/// What a sketch stands for: the hashes it retains, its width, and how many
/// values it has been shown.
pub struct SketchModel {
    pub retained: Set<u64>,
    pub k: nat,
    pub total_adds: nat,
}

impl SketchModel {
    /// What holds of every sketch: a width of at least one, no more hashes
    /// than the width, and none at all exactly as long as nothing was added.
    pub open spec fn valid(self) -> bool {
        &&& self.k >= 1
        &&& self.retained.finite()
        &&& self.retained.len() <= self.k
        &&& (self.total_adds == 0 <==> self.retained.is_empty())
    }

    /// The sketch of width `k` that has been shown nothing.
    pub open spec fn empty(k: nat) -> SketchModel {
        SketchModel { retained: Set::empty(), k, total_adds: 0 }
    }

    /// The sketch after it has been shown the hash `h`.
    pub open spec fn observe(self, h: u64) -> SketchModel {
        SketchModel {
            retained: retain(self.retained, self.k, h),
            k: self.k,
            total_adds: self.total_adds + 1,
        }
    }

    /// The sketch after it has been shown the hashes `hs`, first to last.
    pub open spec fn observe_all(self, hs: Seq<u64>) -> SketchModel
        decreases hs.len(),
    {
        if hs.len() == 0 {
            self
        } else {
            self.observe_all(hs.drop_last()).observe(hs.last())
        }
    }

    /// The estimate of the number of distinct values shown: none while
    /// nothing is retained, else the one that the largest retained hash
    /// gives.
    pub open spec fn estimate(self) -> Option<u64> {
        if self.retained.is_empty() {
            None
        } else {
            Some(estimate_from_top(self.k, top_of(self.retained)))
        }
    }
}

/// A sketch has no estimate exactly as long as it counts no addition.
pub proof fn lemma_estimate_absent_iff_untouched(m: SketchModel)
    requires
        m.valid(),
    ensures
        m.estimate().is_none() <==> m.total_adds == 0,
{
}

/// A new sketch is valid, and after a run of hashes it has no estimate
/// exactly if the run was empty.
pub proof fn lemma_estimate_absent_iff_nothing_added(k: nat, hs: Seq<u64>)
    requires
        k >= 1,
    ensures
        SketchModel::empty(k).valid(),
        SketchModel::empty(k).observe_all(hs).estimate().is_none() <==> hs.len() == 0,
{
    lemma_observe_all_valid(SketchModel::empty(k), hs);
}

/// One more hash leaves the sketch valid: it never retains more than its
/// width, and from then on it has an estimate.
pub proof fn lemma_observe_valid(m: SketchModel, h: u64)
    requires
        m.valid(),
    ensures
        m.observe(h).valid(),
        m.observe(h).retained.len() <= m.k,
        m.observe(h).k == m.k,
        m.observe(h).estimate().is_some(),
{
    lemma_retain_bounded(m.retained, m.k, h);
}

/// Any run of hashes leaves the sketch valid, with no more retained than
/// its width, and counts each of them.
pub proof fn lemma_observe_all_valid(m: SketchModel, hs: Seq<u64>)
    requires
        m.valid(),
    ensures
        m.observe_all(hs).valid(),
        m.observe_all(hs).retained.len() <= m.k,
        m.observe_all(hs).k == m.k,
        m.observe_all(hs).total_adds == m.total_adds + hs.len(),
    decreases hs.len(),
{
    if hs.len() > 0 {
        lemma_observe_all_valid(m, hs.drop_last());
        lemma_observe_valid(m.observe_all(hs.drop_last()), hs.last());
    }
}

/// Showing the same hash again changes the count of additions and nothing
/// else: the retained hashes and the estimate stay as the first showing
/// left them. A value is shown by its hash, so this is what adding the same
/// value twice does.
pub proof fn lemma_observe_again(m: SketchModel, h: u64)
    requires
        m.valid(),
    ensures
        m.observe(h).observe(h).retained == m.observe(h).retained,
        m.observe(h).observe(h).estimate() == m.observe(h).estimate(),
        m.observe(h).observe(h).total_adds == m.observe(h).total_adds + 1,
{
    lemma_retain_idempotent(m.retained, m.k, h);
}

/// However often the same hash is shown, the retained hashes and the
/// estimate are those after the first showing; only the count of additions
/// goes on.
pub proof fn lemma_observe_repeated(m: SketchModel, h: u64, n: nat)
    requires
        m.valid(),
        n >= 1,
    ensures
        m.observe_all(Seq::new(n, |i: int| h)).retained == m.observe(h).retained,
        m.observe_all(Seq::new(n, |i: int| h)).estimate() == m.observe(h).estimate(),
        m.observe_all(Seq::new(n, |i: int| h)).total_adds == m.total_adds + n,
    decreases n,
{
    let hs = Seq::new(n, |i: int| h);
    assert(hs.last() == h);
    if n == 1 {
        assert(hs.drop_last().len() == 0);
        assert(m.observe_all(hs.drop_last()) == m);
    } else {
        let before = Seq::new((n - 1) as nat, |i: int| h);
        assert(hs.drop_last() =~= before);
        lemma_observe_repeated(m, h, (n - 1) as nat);
        lemma_observe_again(m, h);
        lemma_observe_all_valid(m, before);
        let prev = m.observe_all(before);
        assert(prev.observe(h).retained == m.observe(h).observe(h).retained);
    }
}

/// A sketch that retains the `k` smallest of the hashes `seen` retains,
/// after a run of further hashes, the `k` smallest of `seen` and those.
///
/// So whatever was shown and is no longer retained is larger than
/// everything that is: only the largest is ever evicted.
pub proof fn lemma_observe_all_lowest(m: SketchModel, seen: Set<u64>, hs: Seq<u64>)
    requires
        m.k >= 1,
        is_lowest(m.retained, seen, m.k),
    ensures
        is_lowest(m.observe_all(hs).retained, seen.union(hs.to_set()), m.k),
        m.observe_all(hs).k == m.k,
    decreases hs.len(),
{
    if hs.len() == 0 {
        assert(seen.union(hs.to_set()) =~= seen);
    } else {
        let front = hs.drop_last();
        lemma_observe_all_lowest(m, seen, front);
        let prev = m.observe_all(front);
        lemma_retain_lowest(prev.retained, seen.union(front.to_set()), m.k, hs.last());
        assert(seen.union(front.to_set()).insert(hs.last()) =~= seen.union(hs.to_set())) by {
            assert forall|x: u64| hs.to_set().contains(x) <==> front.to_set().contains(x) || x
                == hs.last() by {
                if hs.contains(x) {
                    let i = choose|i: int| 0 <= i < hs.len() && hs[i] == x;
                    if i < hs.len() - 1 {
                        assert(front[i] == x);
                    }
                }
                if front.contains(x) {
                    let i = choose|i: int| 0 <= i < front.len() && front[i] == x;
                    assert(hs[i] == x);
                }
                if x == hs.last() {
                    assert(hs[hs.len() - 1] == x);
                }
            }
        }
    }
}

/// The order in which hashes are shown does not matter: two runs that hold
/// the same hashes, in any order and however often each, leave the same
/// hashes retained and give the same estimate.
pub proof fn lemma_order_independent(m: SketchModel, a: Seq<u64>, b: Seq<u64>)
    requires
        m.valid(),
        a.to_set() == b.to_set(),
    ensures
        m.observe_all(a).retained == m.observe_all(b).retained,
        m.observe_all(a).estimate() == m.observe_all(b).estimate(),
{
    lemma_observe_all_lowest(m, m.retained, a);
    lemma_observe_all_lowest(m, m.retained, b);
    lemma_lowest_unique(
        m.observe_all(a).retained,
        m.observe_all(b).retained,
        m.retained.union(a.to_set()),
        m.k,
    );
}

/// Two runs of which one is the other in another order leave the same
/// hashes retained, give the same estimate and count the same additions.
pub proof fn lemma_reordering(m: SketchModel, a: Seq<u64>, b: Seq<u64>)
    requires
        m.valid(),
        a.to_multiset() == b.to_multiset(),
    ensures
        m.observe_all(a).retained == m.observe_all(b).retained,
        m.observe_all(a).estimate() == m.observe_all(b).estimate(),
        m.observe_all(a).total_adds == m.observe_all(b).total_adds,
{
    a.to_multiset_ensures();
    b.to_multiset_ensures();
    assert(a.to_set() =~= b.to_set()) by {
        assert forall|x: u64| a.to_set().contains(x) <==> b.to_set().contains(x) by {
            assert(a.contains(x) <==> a.to_multiset().count(x) > 0);
            assert(b.contains(x) <==> b.to_multiset().count(x) > 0);
        }
    }
    lemma_order_independent(m, a, b);
    lemma_observe_all_valid(m, a);
    lemma_observe_all_valid(m, b);
}

/// One step of a sketch of width one: it retains the smaller of the hash
/// it had and the hash it is shown.
pub proof fn lemma_width_one_step(m: SketchModel, h: u64)
    requires
        m.valid(),
        m.k == 1,
    ensures
        m.retained.is_empty() ==> m.observe(h).retained == set![h],
        !m.retained.is_empty() ==> m.observe(h).retained == set![
            if h < top_of(m.retained) {
                h
            } else {
                top_of(m.retained)
            },
        ],
        m.observe(h).estimate() == Some(0u64),
{
    lemma_observe_valid(m, h);
    let next = m.observe(h).retained;
    if m.retained.is_empty() {
        assert(m.retained.len() == 0);
        assert(next =~= set![h]);
    } else {
        lemma_top_exists(m.retained);
        let x = top_of(m.retained);
        assert(m.retained =~= set![x]) by {
            assert(m.retained.remove(x).len() == 0);
            assert forall|y: u64| m.retained.contains(y) implies y == x by {
                if y != x {
                    assert(m.retained.remove(x).contains(y));
                }
            }
        }
        if h != x {
            let grown = m.retained.insert(h);
            lemma_top_exists(grown);
            let big = if h < x {
                x
            } else {
                h
            };
            assert(is_top(grown, big));
            let small = if h < x {
                h
            } else {
                x
            };
            assert(next =~= set![small]);
        }
    }
}

/// The smallest of the hashes `hs`.
pub open spec fn least_of(hs: Seq<u64>) -> u64
    recommends
        hs.len() >= 1,
    decreases hs.len(),
{
    if hs.len() <= 1 {
        hs[0]
    } else {
        let m = least_of(hs.drop_last());
        if hs.last() < m {
            hs.last()
        } else {
            m
        }
    }
}

/// The smallest of a run of hashes is one of them, and none is smaller.
pub proof fn lemma_least_of(hs: Seq<u64>)
    requires
        hs.len() >= 1,
    ensures
        hs.contains(least_of(hs)),
        forall|i: int| 0 <= i < hs.len() ==> least_of(hs) <= hs[i],
    decreases hs.len(),
{
    if hs.len() <= 1 {
        assert(hs[0] == least_of(hs));
    } else {
        let front = hs.drop_last();
        lemma_least_of(front);
        let m = least_of(front);
        let j = choose|j: int| 0 <= j < front.len() && front[j] == m;
        assert(hs[j] == m);
        assert(hs[hs.len() - 1] == hs.last());
        assert forall|i: int| 0 <= i < hs.len() implies least_of(hs) <= hs[i] by {
            if i < hs.len() - 1 {
                assert(front[i] == hs[i]);
            }
        }
    }
}

/// A sketch of width one retains, of all the hashes it was shown, the
/// smallest and only that, and its estimate is zero.
pub proof fn lemma_width_one(hs: Seq<u64>)
    requires
        hs.len() >= 1,
    ensures
        SketchModel::empty(1).observe_all(hs).retained == set![least_of(hs)],
        SketchModel::empty(1).observe_all(hs).estimate() == Some(0u64),
    decreases hs.len(),
{
    let start = SketchModel::empty(1);
    let front = hs.drop_last();
    let prev = start.observe_all(front);
    lemma_observe_all_valid(start, front);
    lemma_width_one_step(prev, hs.last());
    if hs.len() == 1 {
        assert(prev == start);
    } else {
        lemma_width_one(front);
        assert(is_top(prev.retained, least_of(front)));
        lemma_top_is(prev.retained, least_of(front));
    }
}

} // verus!
