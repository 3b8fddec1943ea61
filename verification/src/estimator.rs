//! The estimator: from the largest retained hash to a count of distinct
//! values, in exact integer arithmetic.

use vstd::prelude::*;
use vstd::arithmetic::div_mod::lemma_fundamental_div_mod_converse;
use vstd::arithmetic::mul::lemma_mul_inequality;

verus! {

/// The quotient `n / d`, rounded to the nearest integer; a quotient that
/// lies halfway between two integers goes to the larger.
pub open spec fn rounded_quotient(n: nat, d: nat) -> nat
    recommends
        d > 0,
{
    (2 * n + d) / (2 * d)
}

/// The estimate that a sketch of width `k` gives when `top` is the largest
/// hash it retains.
///
/// With `u = top / u64::MAX`, the share of the hash range that lies at or
/// below `top`, the estimate is `(k - 1) / u` rounded to the nearest
/// integer, and `u64::MAX` where that does not fit in 64 bits. A `top` of
/// zero leaves the quotient unbounded: the estimate is then `u64::MAX`,
/// except for width one, whose numerator is zero and whose estimate is zero
/// for every `top`.
pub open spec fn estimate_from_top(k: nat, top: u64) -> u64
    recommends
        k >= 1,
{
    if k <= 1 {
        0
    } else if top == 0 {
        u64::MAX
    } else {
        let q = rounded_quotient(((k - 1) * u64::MAX) as nat, top as nat);
        if q > u64::MAX {
            u64::MAX
        } else {
            q as u64
        }
    }
}

/// Splits the rounded quotient into the truncated quotient and the test on
/// the remainder that the executable code makes.
pub proof fn lemma_rounded_quotient(n: nat, d: nat)
    requires
        d > 0,
    ensures
        rounded_quotient(n, d) == if 2 * (n % d) >= d {
            n / d + 1
        } else {
            n / d
        },
{
    let q = (n / d) as int;
    let r = (n % d) as int;
    assert(n == q * d + r && 0 <= r < d) by {
        vstd::arithmetic::div_mod::lemma_fundamental_div_mod(n as int, d as int);
        vstd::arithmetic::div_mod::lemma_mod_bound(n as int, d as int);
        assert(d * q == q * d) by (nonlinear_arith);
    }
    assert(0 <= q) by {
        vstd::arithmetic::div_mod::lemma_div_pos_is_pos(n as int, d as int);
    }
    if 2 * r >= d {
        assert(2 * n + d == (q + 1) * (2 * d) + (2 * r - d)) by (nonlinear_arith)
            requires
                n == q * d + r,
        ;
        lemma_fundamental_div_mod_converse((2 * n + d) as int, (2 * d) as int, q + 1, 2 * r - d);
    } else {
        assert(2 * n + d == q * (2 * d) + (2 * r + d)) by (nonlinear_arith)
            requires
                n == q * d + r,
        ;
        lemma_fundamental_div_mod_converse((2 * n + d) as int, (2 * d) as int, q, 2 * r + d);
    }
}

/// Computes [`estimate_from_top`].
pub fn estimate_from_max(k: usize, top: u64) -> (r: u64)
    requires
        k >= 1,
    ensures
        r == estimate_from_top(k as nat, top),
{
    if k == 1 {
        return 0;
    }
    if top == 0 {
        return u64::MAX;
    }
    let span: u128 = u64::MAX as u128;
    let factor: u128 = (k - 1) as u128;
    assert(factor * span <= span * span) by {
        lemma_mul_inequality(factor as int, span as int, span as int);
    }
    assert(span * span < u128::MAX) by (nonlinear_arith)
        requires
            span == 0xFFFF_FFFF_FFFF_FFFF,
    ;
    let n: u128 = factor * span;
    let d: u128 = top as u128;
    let q: u128 = n / d;
    let rest: u128 = n % d;
    proof {
        lemma_rounded_quotient(n as nat, d as nat);
        assert(q <= n) by {
            vstd::arithmetic::div_mod::lemma_div_is_ordered_by_denominator(n as int, 1, d as int);
        }
    }
    let rounded: u128 = if 2 * rest >= d {
        q + 1
    } else {
        q
    };
    if rounded > span {
        u64::MAX
    } else {
        rounded as u64
    }
}

} // verus!
