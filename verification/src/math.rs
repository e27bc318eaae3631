//! Multiplication by a ratio, rounded down, and sums that stop at the largest
//! amount.

use vstd::prelude::*;
use vstd::arithmetic::div_mod::{
    lemma_div_is_ordered, lemma_div_multiples_vanish, lemma_fundamental_div_mod,
};
use vstd::arithmetic::mul::{lemma_mul_inequality, lemma_mul_is_commutative};
use crate::primitives::Balance;

verus! {

/// `a * b / c` rounded down: nothing where `c` is zero or the quotient does
/// not fit an amount.
pub open spec fn mul_div(a: nat, b: nat, c: nat) -> Option<Balance> {
    if c == 0 || a * b / c > Balance::MAX {
        None
    } else {
        Some((a * b / c) as Balance)
    }
}

/// `a * b / c` rounded down, held at the largest amount.
pub open spec fn mul_div_saturating(a: nat, b: nat, c: nat) -> Balance {
    match mul_div(a, b, c) {
        Some(v) => v,
        None => Balance::MAX,
    }
}

/// `a + b`, held at the largest amount.
pub open spec fn capped(sum: nat) -> Balance {
    if sum > Balance::MAX {
        Balance::MAX
    } else {
        sum as Balance
    }
}

/// A product divided by a larger divisor than one factor stays under the
/// other factor.
pub proof fn lemma_mul_div_bound(a: nat, b: nat, c: nat)
    requires
        c > 0,
        a <= c,
    ensures
        a * b / c <= b,
{
    assert(a * b <= c * b) by {
        lemma_mul_inequality(a as int, c as int, b as int);
    }
    assert((a * b) as int / (c as int) <= (c * b) as int / (c as int)) by {
        lemma_div_is_ordered((a * b) as int, (c * b) as int, c as int);
    }
    assert((c * b) as int / (c as int) == b) by {
        lemma_div_multiples_vanish(b as int, c as int);
    }
}

/// Dividing by `c` and multiplying back by it does not pass the dividend:
/// `(a * b / c) * c / b <= a`.
pub proof fn lemma_mul_div_back(a: nat, b: nat, c: nat)
    requires
        b > 0,
        c > 0,
    ensures
        (a * b / c) * c / b <= a,
{
    let q = a * b / c;
    assert(q * c <= a * b) by {
        lemma_fundamental_div_mod((a * b) as int, c as int);
        lemma_mul_is_commutative(c as int, q as int);
    }
    assert((q * c) as int / (b as int) <= (a * b) as int / (b as int)) by {
        lemma_div_is_ordered((q * c) as int, (a * b) as int, b as int);
    }
    assert((a * b) as int / (b as int) == a) by {
        lemma_mul_is_commutative(a as int, b as int);
        lemma_div_multiples_vanish(a as int, b as int);
    }
}

/// A share of twice the weight is twice the share, or one more.
pub proof fn lemma_double_share(pool: nat, weight: nat, total: nat)
    requires
        total > 0,
    ensures
        2 * (pool * weight / total) <= pool * (2 * weight) / total <= 2 * (pool * weight / total) + 1,
{
    let x = (pool * weight) as int;
    let t = total as int;
    assert(pool * (2 * weight) == 2 * x) by (nonlinear_arith)
        requires
            x == pool * weight,
    ;
    lemma_fundamental_div_mod(x, t);
    lemma_fundamental_div_mod(2 * x, t);
    let q = x / t;
    let r = x % t;
    let q2 = (2 * x) / t;
    let r2 = (2 * x) % t;
    assert(0 <= r < t && 0 <= r2 < t);
    assert(2 * x == t * (2 * q) + 2 * r) by (nonlinear_arith)
        requires
            x == t * q + r,
    ;
    assert(2 * q <= q2 <= 2 * q + 1) by (nonlinear_arith)
        requires
            t * q2 + r2 == t * (2 * q) + 2 * r,
            0 <= r < t,
            0 <= r2 < t,
    ;
}

/// A larger weight never earns a smaller share.
pub proof fn lemma_share_monotonic(pool: nat, small: nat, large: nat, total: nat)
    requires
        total > 0,
        small <= large,
    ensures
        pool * small / total <= pool * large / total,
{
    assert(pool * small <= pool * large) by (nonlinear_arith)
        requires
            small <= large,
    ;
    lemma_div_is_ordered((pool * small) as int, (pool * large) as int, total as int);
}

} // verus!
