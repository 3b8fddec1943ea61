//! Strictly increasing sequences of hashes: how the retained set is laid
//! out in memory, with its largest element last.

use vstd::prelude::*;
use crate::retention::is_top;

verus! {

/// Each element is smaller than every later one.
pub open spec fn strictly_increasing(s: Seq<u64>) -> bool {
    forall|i: int, j: int| 0 <= i < j < s.len() ==> s[i] < s[j]
}

/// A strictly increasing sequence holds as many distinct values as it has
/// elements.
pub proof fn lemma_increasing_len(s: Seq<u64>)
    requires
        strictly_increasing(s),
    ensures
        s.to_set().finite(),
        s.to_set().len() == s.len(),
{
    assert(s.no_duplicates());
    s.unique_seq_to_set();
}

/// The last element of a strictly increasing sequence is its largest.
pub proof fn lemma_increasing_top(s: Seq<u64>)
    requires
        strictly_increasing(s),
        s.len() > 0,
    ensures
        is_top(s.to_set(), s.last()),
{
    assert(s.contains(s[s.len() - 1]));
    assert forall|x: u64| s.to_set().contains(x) implies x <= s.last() by {
        let i = choose|i: int| 0 <= i < s.len() && s[i] == x;
        assert(s[i] == x);
    }
}

/// Putting a new value at its place keeps the order and adds that value to
/// the set.
pub proof fn lemma_increasing_insert(s: Seq<u64>, at: int, h: u64)
    requires
        strictly_increasing(s),
        0 <= at <= s.len(),
        forall|j: int| 0 <= j < at ==> s[j] < h,
        forall|j: int| at <= j < s.len() ==> h < s[j],
    ensures
        strictly_increasing(s.insert(at, h)),
        s.insert(at, h).to_set() == s.to_set().insert(h),
        !s.to_set().contains(h),
{
    let t = s.insert(at, h);
    s.insert_ensures(at, h);
    assert forall|i: int, j: int| 0 <= i < j < t.len() implies t[i] < t[j] by {
        if i < at && j > at {
            assert(t[i] == s[i] && t[j] == s[j - 1]);
        }
    }
    assert(t.to_set() =~= s.to_set().insert(h)) by {
        assert forall|x: u64| t.to_set().contains(x) <==> s.to_set().insert(h).contains(x) by {
            if t.contains(x) {
                let i = choose|i: int| 0 <= i < t.len() && t[i] == x;
                if i < at {
                    assert(s[i] == x);
                } else if i > at {
                    assert(s[i - 1] == x);
                }
            }
            if s.contains(x) {
                let i = choose|i: int| 0 <= i < s.len() && s[i] == x;
                if i < at {
                    assert(t[i] == x);
                } else {
                    assert(t[i + 1] == x);
                }
            }
            if x == h {
                assert(t[at] == x);
            }
        }
    }
    if s.contains(h) {
        let i = choose|i: int| 0 <= i < s.len() && s[i] == h;
        assert(s[i] == h);
    }
}

/// Dropping the last element keeps the order and takes the largest value
/// out of the set.
pub proof fn lemma_increasing_drop_last(s: Seq<u64>)
    requires
        strictly_increasing(s),
        s.len() > 0,
    ensures
        strictly_increasing(s.drop_last()),
        s.drop_last().to_set() == s.to_set().remove(s.last()),
{
    let t = s.drop_last();
    assert(t.to_set() =~= s.to_set().remove(s.last())) by {
        assert forall|x: u64| t.to_set().contains(x) <==> s.to_set().remove(s.last()).contains(
            x,
        ) by {
            if t.contains(x) {
                let i = choose|i: int| 0 <= i < t.len() && t[i] == x;
                assert(s[i] == x);
            }
            if s.contains(x) && x != s.last() {
                let i = choose|i: int| 0 <= i < s.len() && s[i] == x;
                assert(t[i] == x);
            }
        }
    }
}

/// The place of `h` in `v`: the number of elements smaller than `h`, which
/// is where `h` stands if it is there and where it belongs if it is not.
pub fn lower_bound(v: &Vec<u64>, h: u64) -> (at: usize)
    requires
        strictly_increasing(v@),
    ensures
        at <= v.len(),
        forall|j: int| 0 <= j < at ==> v[j] < h,
        forall|j: int| at <= j < v.len() ==> h <= v[j],
        v@.to_set().contains(h) <==> (at < v.len() && v[at as int] == h),
{
    let mut lo: usize = 0;
    let mut hi: usize = v.len();
    while lo < hi
        invariant
            strictly_increasing(v@),
            lo <= hi <= v.len(),
            forall|j: int| 0 <= j < lo ==> v[j] < h,
            forall|j: int| hi <= j < v.len() ==> h <= v[j],
        decreases hi - lo,
    {
        let mid: usize = lo + (hi - lo) / 2;
        if v[mid] < h {
            lo = mid + 1;
        } else {
            hi = mid;
        }
    }
    proof {
        if v@.contains(h) {
            let i = choose|i: int| 0 <= i < v.len() && v[i] == h;
            assert(v[i] == h);
            assert(i >= lo);
            if i > lo {
                assert(v[lo as int] < v[i]);
            }
        }
        if lo < v.len() && v[lo as int] == h {
            assert(v@.contains(v@[lo as int]));
        }
    }
    lo
}

} // verus!
