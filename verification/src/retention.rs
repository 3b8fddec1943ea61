//! Which hashes a sketch keeps: the rule that admits a hash and evicts the
//! largest, stated over finite sets, and what the rule maintains.

use vstd::prelude::*;
use vstd::set_lib::{lemma_len_subset, lemma_subset_equality};

verus! {

/// `m` is the largest element of `s`.
pub open spec fn is_top(s: Set<u64>, m: u64) -> bool {
    &&& s.contains(m)
    &&& forall|x: u64| s.contains(x) ==> x <= m
}

/// The largest element of a finite set that is not empty.
pub open spec fn top_of(s: Set<u64>) -> u64
    recommends
        s.finite(),
        !s.is_empty(),
{
    choose|m: u64| is_top(s, m)
}

/// A finite set that is not empty has a largest element.
pub proof fn lemma_top_exists(s: Set<u64>)
    requires
        s.finite(),
        !s.is_empty(),
    ensures
        is_top(s, top_of(s)),
    decreases s.len(),
{
    let e = s.choose();
    let rest = s.remove(e);
    if rest.is_empty() {
        assert forall|x: u64| s.contains(x) implies x <= e by {
            if x != e {
                assert(rest.contains(x));
            }
        }
        assert(is_top(s, e));
    } else {
        lemma_top_exists(rest);
        let m = top_of(rest);
        let best = if e > m {
            e
        } else {
            m
        };
        assert forall|x: u64| s.contains(x) implies x <= best by {
            if x != e {
                assert(rest.contains(x));
            }
        }
        assert(is_top(s, best));
    }
}

/// A set has at most one largest element.
pub proof fn lemma_top_unique(s: Set<u64>, a: u64, b: u64)
    requires
        is_top(s, a),
        is_top(s, b),
    ensures
        a == b,
{
}

/// The largest element of a finite set, from any element known to be it.
pub proof fn lemma_top_is(s: Set<u64>, m: u64)
    requires
        is_top(s, m),
    ensures
        top_of(s) == m,
{
    lemma_top_unique(s, m, top_of(s));
}

/// What a sketch of width `k` that retains `r` retains once it has been
/// shown the hash `h`.
///
/// A hash that is already retained changes nothing. Any other hash is
/// admitted, and if that leaves more than `k` hashes, the largest of them
/// is dropped again.
pub open spec fn retain(r: Set<u64>, k: nat, h: u64) -> Set<u64> {
    if r.contains(h) {
        r
    } else if r.len() < k {
        r.insert(h)
    } else {
        r.insert(h).remove(top_of(r.insert(h)))
    }
}

/// `r` holds the `k` smallest elements of `seen`, or all of `seen` where it
/// has no more than `k`.
///
/// Said without counting: `r` is a part of `seen` of that size, and whatever
/// of `seen` is left out is larger than everything kept.
pub open spec fn is_lowest(r: Set<u64>, seen: Set<u64>, k: nat) -> bool {
    &&& seen.finite()
    &&& r.subset_of(seen)
    &&& r.len() == if seen.len() <= k {
        seen.len()
    } else {
        k
    }
    &&& forall|x: u64, y: u64| r.contains(x) && seen.contains(y) && !r.contains(y) ==> x < y
}

/// Admitting a hash keeps the retained set finite, within the width, and
/// never leaves it empty.
pub proof fn lemma_retain_bounded(r: Set<u64>, k: nat, h: u64)
    requires
        r.finite(),
        r.len() <= k,
        k >= 1,
    ensures
        retain(r, k, h).finite(),
        retain(r, k, h).len() <= k,
        !retain(r, k, h).is_empty(),
        retain(r, k, h).subset_of(r.insert(h)),
{
    let next = retain(r, k, h);
    if r.contains(h) {
        assert(next.contains(h));
    } else if r.len() < k {
        assert(next.contains(h));
    } else {
        let grown = r.insert(h);
        assert(grown.contains(h));
        lemma_top_exists(grown);
        assert(grown.len() == k + 1);
        assert(next.len() == k);
        if next.is_empty() {
            assert(next.len() == 0);
        }
    }
}

/// Showing a sketch the hash it was shown last changes nothing.
pub proof fn lemma_retain_idempotent(r: Set<u64>, k: nat, h: u64)
    requires
        r.finite(),
        r.len() <= k,
        k >= 1,
    ensures
        retain(retain(r, k, h), k, h) == retain(r, k, h),
{
    let once = retain(r, k, h);
    if !r.contains(h) && r.len() >= k {
        let grown = r.insert(h);
        assert(grown.contains(h));
        lemma_top_exists(grown);
        if top_of(grown) == h {
            assert(once =~= r);
        } else {
            assert(once.contains(h));
        }
    } else {
        assert(once.contains(h));
    }
}

/// A sketch that holds the `k` smallest of what it has seen still does so
/// after one more hash.
pub proof fn lemma_retain_lowest(r: Set<u64>, seen: Set<u64>, k: nat, h: u64)
    requires
        k >= 1,
        is_lowest(r, seen, k),
    ensures
        is_lowest(retain(r, k, h), seen.insert(h), k),
{
    lemma_len_subset(r, seen);
    let next = retain(r, k, h);
    let all = seen.insert(h);
    if r.contains(h) {
        assert(all =~= seen);
    } else if r.len() < k {
        lemma_subset_equality(r, seen);
        assert(next =~= all);
    } else {
        let grown = r.insert(h);
        assert(grown.contains(h));
        lemma_top_exists(grown);
        let m = top_of(grown);
        if seen.contains(h) {
            assert(is_top(grown, h));
            assert(next =~= r);
            assert(all =~= seen);
        } else {
            assert(grown.len() == k + 1);
            assert(next.len() == k);
            assert(all.len() == seen.len() + 1);
            assert forall|x: u64, y: u64|
                next.contains(x) && all.contains(y) && !next.contains(y) implies x < y by {
                assert(grown.contains(x));
                if y != m {
                    assert(seen.contains(y) && !r.contains(y));
                    if m != h {
                        assert(r.contains(m));
                    }
                }
            }
        }
    }
}

/// There is one set of the `k` smallest elements, and no other.
pub proof fn lemma_lowest_unique(a: Set<u64>, b: Set<u64>, seen: Set<u64>, k: nat)
    requires
        is_lowest(a, seen, k),
        is_lowest(b, seen, k),
    ensures
        a == b,
{
    lemma_len_subset(a, seen);
    lemma_len_subset(b, seen);
    if exists|x: u64| a.contains(x) && !b.contains(x) {
        let x = choose|x: u64| a.contains(x) && !b.contains(x);
        assert forall|y: u64| b.contains(y) implies a.contains(y) by {
            if !a.contains(y) {
                assert(x < y);
                assert(y < x);
            }
        }
        assert(b.subset_of(a));
        lemma_subset_equality(b, a);
    } else {
        assert(a.subset_of(b));
        lemma_subset_equality(a, b);
    }
    assert(a =~= b);
}

} // verus!
