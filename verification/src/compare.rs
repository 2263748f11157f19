//! Epsilon-tolerant equality: two scalars are considered equal when they
//! differ by less than a fixed tolerance. The tolerance is the single
//! canonical constant `1 / 10000` used everywhere values are compared for
//! structural equality.

use crate::rational::{rat_abs, rat_lt, rat_sub, Rat};
use crate::scalar::{Scalar, MAX_MAG};
use vstd::arithmetic::div_mod::{lemma_div_is_ordered, lemma_fundamental_div_mod};
use vstd::arithmetic::mul::{
    lemma_mul_inequality, lemma_mul_is_commutative, lemma_mul_strictly_positive,
};
use vstd::prelude::*;

verus! {

/// Denominator of the comparison tolerance: values closer than
/// `1 / EPSILON_DEN` apart are treated as equal.
pub const EPSILON_DEN: i128 = 10000;

/// The comparison tolerance as a rational.
pub open spec fn rat_epsilon() -> Rat {
    Rat { num: 1, den: EPSILON_DEN as int }
}

/// Epsilon-tolerant equality on the model: `|a - b| < 1/10000`.
pub open spec fn spec_eps_eq(a: Rat, b: Rat) -> bool {
    rat_lt(rat_abs(rat_sub(a, b)), rat_epsilon())
}

/// For `m >= 0`, `dd >= 1` and `e >= 1`: scaling by `e` compares the same
/// way as dividing the bound by `e`.
proof fn lemma_scaled_lt(m: int, dd: int, e: int)
    requires
        m >= 0,
        dd >= 1,
        e >= 1,
    ensures
        (m * e < dd) <==> (m <= (dd - 1) / e),
{
    let q = (dd - 1) / e;
    lemma_fundamental_div_mod(dd - 1, e);
    if m <= q {
        lemma_mul_inequality(m, q, e);
        lemma_mul_is_commutative(q, e);
    }
    if m * e < dd {
        lemma_div_is_ordered(m * e, dd - 1, e);
        lemma_mul_is_commutative(m, e);
        vstd::arithmetic::div_mod::lemma_div_multiples_vanish(m, e);
    }
}

/// Whether `a` and `b` are within the fixed comparison tolerance of each
/// other.
pub fn equal(a: &Scalar, b: &Scalar) -> (r: bool)
    requires
        a.wf(),
        b.wf(),
    ensures
        r == spec_eps_eq(a@, b@),
{
    let an: i128 = a.numer();
    let ad: i128 = a.denom();
    let bn: i128 = b.numer();
    let bd: i128 = b.denom();
    proof {
        crate::rational::lemma_prod_bound(a@.num, b@.den, MAX_MAG as int);
        crate::rational::lemma_prod_bound(b@.num, a@.den, MAX_MAG as int);
        crate::rational::lemma_prod_bound(a@.den, b@.den, MAX_MAG as int);
        lemma_mul_strictly_positive(a@.den, b@.den);
    }
    let cross: i128 = an * bd - bn * ad;
    let mag: u128 = if cross < 0 {
        (-cross) as u128
    } else {
        cross as u128
    };
    let dd: u128 = (ad * bd) as u128;
    let q: u128 = (dd - 1) / (EPSILON_DEN as u128);
    proof {
        lemma_scaled_lt(mag as int, dd as int, EPSILON_DEN as int);
    }
    mag <= q
}

} // verus!
