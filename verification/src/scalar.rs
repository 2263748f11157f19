//! The executable numeric type: an exact rational held as a reduced
//! fraction of bounded 128-bit integers. Arithmetic is exact; an operation
//! whose reduced result no longer fits the bound returns `None` rather than
//! a rounded value.

use crate::rational::{
    abs_int, gcd, lemma_gcd_divides, lemma_norm_properties, lemma_prod_bound, rat_add, rat_div,
    rat_eq, rat_mul, rat_neg, rat_norm, rat_of_int, rat_one, rat_sub, rat_wf, rat_zero, Rat,
};
use crate::rational::{rat_le, rat_lt};
use vstd::arithmetic::div_mod::{
    lemma_fundamental_div_mod, lemma_fundamental_div_mod_converse_div,
};
use vstd::arithmetic::mul::lemma_mul_strictly_positive;
use vstd::prelude::*;

verus! {

/// Largest magnitude a numerator or denominator may take: `2^62`.
pub const MAX_MAG: i128 = 0x4000_0000_0000_0000;

/// A fraction whose reduced components fit the bounded representation.
pub open spec fn rat_small(a: Rat) -> bool {
    &&& -(MAX_MAG as int) <= a.num <= MAX_MAG as int
    &&& 0 < a.den <= MAX_MAG as int
}

/// The reduced form of `p` when it fits the bounded representation, and
/// `None` when it does not. Every arithmetic operation on [`Scalar`]
/// returns exactly this of its mathematical result.
pub open spec fn rat_fit(p: Rat) -> Option<Rat> {
    if rat_small(rat_norm(p)) {
        Some(rat_norm(p))
    } else {
        None
    }
}

/// An exact rational number: `num / den` with `den > 0`, both bounded by
/// [`MAX_MAG`].
#[derive(Clone, Copy, Debug)]
pub struct Scalar {
    num: i128,
    den: i128,
}

impl View for Scalar {
    type V = Rat;

    closed spec fn view(&self) -> Rat {
        Rat { num: self.num as int, den: self.den as int }
    }
}

impl Scalar {
    /// The representation invariant: positive denominator, both components
    /// within [`MAX_MAG`].
    pub open spec fn wf(&self) -> bool {
        rat_wf(self@) && rat_small(self@)
    }

    /// The numerator of the held fraction.
    pub fn numer(&self) -> (r: i128)
        ensures
            r == self@.num,
    {
        self.num
    }

    /// The denominator of the held fraction.
    pub fn denom(&self) -> (r: i128)
        ensures
            r == self@.den,
    {
        self.den
    }

    /// The integer `i` as a scalar.
    pub fn from_int(i: i32) -> (r: Scalar)
        ensures
            r.wf(),
            r@ == rat_of_int(i as int),
    {
        Scalar { num: i as i128, den: 1 }
    }

    /// The fraction `num / den` as a scalar, reduced, with the sign moved
    /// to the numerator.
    pub fn from_ratio(num: i32, den: i32) -> (r: Scalar)
        requires
            den != 0,
        ensures
            r.wf(),
            r@ == rat_norm(
                if den > 0 {
                    Rat { num: num as int, den: den as int }
                } else {
                    Rat { num: -(num as int), den: -(den as int) }
                },
            ),
            rat_eq(r@, Rat { num: num as int, den: den as int }),
    {
        let n: i128 = if den > 0 {
            num as i128
        } else {
            -(num as i128)
        };
        let d: i128 = if den > 0 {
            den as i128
        } else {
            -(den as i128)
        };
        let ghost p = Rat { num: n as int, den: d as int };
        proof {
            lemma_norm_properties(p);
        }
        let r = Self::norm_make(n, d).unwrap();
        proof {
            assert(rat_eq(r@, p));
            if den > 0 {
            } else {
                assert(r@.num * (den as int) == (num as int) * r@.den) by (nonlinear_arith)
                    requires
                        r@.num * (-(den as int)) == (-(num as int)) * r@.den,
                ;
            }
        }
        r
    }

    /// The scalar zero.
    pub fn zero() -> (r: Scalar)
        ensures
            r.wf(),
            r@ == rat_zero(),
    {
        Scalar { num: 0, den: 1 }
    }

    /// The scalar one.
    pub fn one() -> (r: Scalar)
        ensures
            r.wf(),
            r@ == rat_one(),
    {
        Scalar { num: 1, den: 1 }
    }

    /// Whether this scalar is exactly zero.
    pub fn eq_zero(&self) -> (r: bool)
        requires
            self.wf(),
        ensures
            r == rat_eq(self@, rat_zero()),
    {
        self.num == 0
    }

    /// The negation; exact and always representable.
    pub fn neg(&self) -> (r: Scalar)
        requires
            self.wf(),
        ensures
            r.wf(),
            r@ == rat_neg(self@),
    {
        Scalar { num: -self.num, den: self.den }
    }

    /// The exact sum, reduced; `None` when the reduced sum does not fit.
    pub fn add(&self, other: &Scalar) -> (r: Option<Scalar>)
        requires
            self.wf(),
            other.wf(),
        ensures
            (r is Some) == (rat_fit(rat_add(self@, other@)) is Some),
            r matches Some(s) ==> s.wf() && Some(s@) == rat_fit(rat_add(self@, other@)) && rat_eq(
                s@,
                rat_add(self@, other@),
            ),
    {
        proof {
            lemma_prod_bound(self@.num, other@.den, MAX_MAG as int);
            lemma_prod_bound(other@.num, self@.den, MAX_MAG as int);
            lemma_mul_strictly_positive(self@.den, other@.den);
            lemma_prod_bound(self@.den, other@.den, MAX_MAG as int);
            lemma_norm_properties(rat_add(self@, other@));
        }
        let n: i128 = self.num * other.den + other.num * self.den;
        let d: i128 = self.den * other.den;
        Self::norm_make(n, d)
    }

    /// The exact difference, reduced; `None` when it does not fit.
    pub fn sub(&self, other: &Scalar) -> (r: Option<Scalar>)
        requires
            self.wf(),
            other.wf(),
        ensures
            (r is Some) == (rat_fit(rat_sub(self@, other@)) is Some),
            r matches Some(s) ==> s.wf() && Some(s@) == rat_fit(rat_sub(self@, other@)) && rat_eq(
                s@,
                rat_sub(self@, other@),
            ),
    {
        proof {
            lemma_prod_bound(self@.num, other@.den, MAX_MAG as int);
            lemma_prod_bound(other@.num, self@.den, MAX_MAG as int);
            lemma_mul_strictly_positive(self@.den, other@.den);
            lemma_prod_bound(self@.den, other@.den, MAX_MAG as int);
            lemma_norm_properties(rat_sub(self@, other@));
        }
        let n: i128 = self.num * other.den - other.num * self.den;
        let d: i128 = self.den * other.den;
        Self::norm_make(n, d)
    }

    /// The exact product, reduced; `None` when it does not fit.
    pub fn mul(&self, other: &Scalar) -> (r: Option<Scalar>)
        requires
            self.wf(),
            other.wf(),
        ensures
            (r is Some) == (rat_fit(rat_mul(self@, other@)) is Some),
            r matches Some(s) ==> s.wf() && Some(s@) == rat_fit(rat_mul(self@, other@)) && rat_eq(
                s@,
                rat_mul(self@, other@),
            ),
    {
        proof {
            lemma_prod_bound(self@.num, other@.num, MAX_MAG as int);
            lemma_mul_strictly_positive(self@.den, other@.den);
            lemma_prod_bound(self@.den, other@.den, MAX_MAG as int);
            lemma_norm_properties(rat_mul(self@, other@));
        }
        let n: i128 = self.num * other.num;
        let d: i128 = self.den * other.den;
        Self::norm_make(n, d)
    }

    /// The exact quotient, reduced; `None` when the divisor is zero or the
    /// reduced quotient does not fit.
    pub fn div(&self, other: &Scalar) -> (r: Option<Scalar>)
        requires
            self.wf(),
            other.wf(),
        ensures
            (r is Some) == (!rat_eq(other@, rat_zero()) && rat_fit(rat_div(self@, other@))
                is Some),
            r matches Some(s) ==> s.wf() && Some(s@) == rat_fit(rat_div(self@, other@)) && rat_eq(
                rat_mul(s@, other@),
                self@,
            ),
    {
        if other.num == 0 {
            proof {
                assert(other@.num == 0);
                assert(0 * other@.den == 0) by (nonlinear_arith);
                assert(rat_eq(other@, rat_zero()));
            }
            return None;
        }
        proof {
            lemma_prod_bound(self@.num, other@.den, MAX_MAG as int);
            lemma_prod_bound(self@.den, other@.num, MAX_MAG as int);
        }
        let (n, d): (i128, i128) = if other.num > 0 {
            (self.num * other.den, self.den * other.num)
        } else {
            (-(self.num * other.den), -(self.den * other.num))
        };
        proof {
            if other@.num > 0 {
                lemma_mul_strictly_positive(self@.den, other@.num);
            } else {
                lemma_mul_strictly_positive(self@.den, -other@.num);
                assert(self@.den * -other@.num == -(self@.den * other@.num)) by (nonlinear_arith);
            }
            lemma_norm_properties(rat_div(self@, other@));
        }
        let r = Self::norm_make(n, d);
        proof {
            if r is Some {
                let s = r->0;
                let q = rat_div(self@, other@);
                assert(rat_eq(s@, q));
                assert(rat_eq(rat_mul(s@, other@), self@)) by (nonlinear_arith)
                    requires
                        s@.num * q.den == q.num * s@.den,
                        q == rat_div(self@, other@),
                        other@.num != 0,
                        rat_wf(self@),
                        rat_wf(other@),
                        rat_wf(s@),
                ;
            }
        }
        r
    }

    /// The greatest integer not above the held value.
    pub fn floor(&self) -> (r: i128)
        requires
            self.wf(),
        ensures
            r == self@.num / self@.den,
    {
        if self.num >= 0 {
            let q: u128 = self.num as u128 / self.den as u128;
            q as i128
        } else {
            let mag: u128 = (-self.num) as u128;
            let d: u128 = self.den as u128;
            let q: u128 = (mag + d - 1) / d;
            proof {
                lemma_fundamental_div_mod((mag + d - 1) as int, d as int);
                vstd::arithmetic::div_mod::lemma_div_nonincreasing((mag + d - 1) as int, d as int);
                let qq = (mag + d - 1) as int / d as int;
                let r0 = (mag + d - 1) as int % d as int;
                assert(d as int * qq == mag + d - 1 - r0);
                assert((-qq) * (d as int) == -(d as int * qq)) by (nonlinear_arith);
                lemma_fundamental_div_mod_converse_div(
                    self@.num,
                    d as int,
                    -qq,
                    d as int - 1 - r0,
                );
            }
            -(q as i128)
        }
    }

    /// The square root, rounded down to the result's own granularity
    /// `1 / (den * scale)`. For every positive input the integer root is
    /// at least [`SQRT_DEN`], so the result has relative precision better
    /// than one part in `SQRT_DEN` rather than a fixed absolute step.
    pub fn sqrt_floor(&self) -> (r: Scalar)
        requires
            self.wf(),
            self@.num >= 0,
        ensures
            r.wf(),
            r@ == spec_sqrt_floor(self@),
            r@.num >= 0,
            rat_le(rat_mul(r@, r@), self@),
            rat_lt(
                self@,
                rat_mul(
                    Rat { num: r@.num + 1, den: r@.den },
                    Rat { num: r@.num + 1, den: r@.den },
                ),
            ),
            self@.num > 0 ==> r@.num >= SQRT_DEN as int,
    {
        if self.num == 0 {
            proof {
                assert(rat_le(
                    rat_mul(Rat { num: 0, den: 1 }, Rat { num: 0, den: 1 }),
                    self@,
                )) by (nonlinear_arith)
                    requires
                        self@.num == 0,
                        self@.den > 0,
                ;
                assert(rat_lt(
                    self@,
                    rat_mul(Rat { num: 1, den: 1 }, Rat { num: 1, den: 1 }),
                )) by (nonlinear_arith)
                    requires
                        self@.num == 0,
                        self@.den > 0,
                ;
            }
            return Scalar { num: 0, den: 1 };
        }
        let n: u128 = self.num as u128;
        let d: u128 = self.den as u128;
        proof {
            assert((n as int) * (d as int) <= (MAX_MAG as int) * (MAX_MAG as int))
                by (nonlinear_arith)
                requires
                    0 <= (n as int) <= MAX_MAG as int,
                    0 <= (d as int) <= MAX_MAG as int,
            ;
            assert((n as int) * (d as int) >= 1) by (nonlinear_arith)
                requires
                    (n as int) >= 1,
                    (d as int) >= 1,
            ;
        }
        let big: u128 = n * d;
        let m: u128 = if big < 10000000000 {
            SQRT_DEN as u128
        } else {
            1
        };
        proof {
            if big < 10000000000 {
                assert((big as int) * ((m as int) * (m as int)) <= 10000000000 * (10000000000))
                    by (nonlinear_arith)
                    requires
                        0 <= (big as int) <= 10000000000,
                        m as int == 100000,
                ;
                assert((big as int) * ((m as int) * (m as int)) >= 10000000000)
                    by (nonlinear_arith)
                    requires
                        (big as int) >= 1,
                        m as int == 100000,
                ;
            } else {
                assert((big as int) * ((m as int) * (m as int)) == big as int)
                    by (nonlinear_arith)
                    requires
                        m as int == 1,
                ;
            }
        }
        proof {
            assert((m as int) * (m as int) <= 10000000000) by (nonlinear_arith)
                requires
                    0 <= (m as int) <= 100000,
            ;
        }
        let scaled: u128 = big * (m * m);
        proof {
            assert((scaled as int) < 0x40000000000000000000000000000000) by (nonlinear_arith)
                requires
                    0 <= (scaled as int),
                    (scaled as int) <= 10000000000 * (10000000000) || (scaled as int) <= (
                    MAX_MAG as int) * (MAX_MAG as int),
            ;
        }
        let k: u128 = Self::isqrt_u128(scaled);
        proof {
            lemma_spec_isqrt_bounds(scaled as int);
            lemma_isqrt_unique(scaled as int, k as int, spec_isqrt(scaled as int));
            // the root fits the representation
            assert((k as int) <= MAX_MAG as int) by (nonlinear_arith)
                requires
                    0 <= (k as int),
                    (k as int) * (k as int) <= (scaled as int),
                    (scaled as int) <= (MAX_MAG as int) * (MAX_MAG as int),
            ;
            // the root has at least five significant digits
            assert((k as int) >= SQRT_DEN as int) by (nonlinear_arith)
                requires
                    0 <= (k as int),
                    (scaled as int) < ((k as int) + 1) * ((k as int) + 1),
                    (scaled as int) >= 10000000000,
            ;
            // the result's denominator fits the representation
            if big < 10000000000 {
                assert((d as int) <= (big as int)) by (nonlinear_arith)
                    requires
                        (n as int) >= 1,
                        (d as int) >= 1,
                        (big as int) == (n as int) * (d as int),
                ;
                assert((d as int) * (m as int) <= 10000000000 * 100000) by (nonlinear_arith)
                    requires
                        0 <= (d as int) <= 10000000000,
                        m as int == 100000,
                ;
            } else {
                assert((d as int) * (m as int) == d as int) by (nonlinear_arith)
                    requires
                        m as int == 1,
                ;
            }
            assert((d as int) * (m as int) >= 1) by (nonlinear_arith)
                requires
                    (d as int) >= 1,
                    (m as int) >= 1,
            ;
            // the computed values match the specification
            assert(scaled as int == self@.num * self@.den * ((m as int) * (m as int)));
            assert(m as int == spec_sqrt_scale(self@));
            // lower bound: (k/dm)^2 <= num/den
            assert(((k as int) * (k as int)) * (self@.den) <= self@.num * (((self@.den) * (
            m as int)) * ((self@.den) * (m as int)))) by (nonlinear_arith)
                requires
                    (k as int) * (k as int) <= self@.num * self@.den * ((m as int) * (m as int)),
                    self@.den > 0,
                    (m as int) > 0,
            ;
            // upper bound: num/den < ((k+1)/dm)^2
            assert(self@.num * (((self@.den) * (m as int)) * ((self@.den) * (m as int))) < (((
            k as int) + 1) * ((k as int) + 1)) * (self@.den)) by (nonlinear_arith)
                requires
                    self@.num * self@.den * ((m as int) * (m as int)) < ((k as int) + 1) * ((
                    k as int) + 1),
                    self@.den > 0,
                    (m as int) > 0,
            ;
        }
        Scalar { num: k as i128, den: self.den * (m as i128) }
    }

    /// The integer square root, rounded down, by bisection.
    fn isqrt_u128(x: u128) -> (r: u128)
        requires
            (x as int) < 0x40000000000000000000000000000000,
        ensures
            (r as int) * (r as int) <= x as int,
            (x as int) < (r as int + 1) * (r as int + 1),
            r <= 0x8000000000000000,
    {
        let mut lo: u128 = 0;
        let mut hi: u128 = 0x8000000000000000;
        proof {
            assert((0x8000000000000000 as int) * (0x8000000000000000 as int)
                == 0x40000000000000000000000000000000) by (nonlinear_arith);
        }
        while lo + 1 < hi
            invariant
                (lo as int) * (lo as int) <= x as int,
                (x as int) < (hi as int) * (hi as int),
                lo < hi,
                hi <= 0x8000000000000000,
            decreases hi - lo,
        {
            let mid: u128 = lo + (hi - lo) / 2;
            proof {
                assert((mid as int) * (mid as int) < 0x40000000000000000000000000000000)
                    by (nonlinear_arith)
                    requires
                        0 <= mid as int,
                        (mid as int) < 0x8000000000000000,
                ;
            }
            if mid * mid <= x {
                lo = mid;
            } else {
                hi = mid;
            }
        }
        lo
    }

    /// Reduces the fraction `n / d` and returns it when it fits the
    /// bounded representation.
    fn norm_make(n: i128, d: i128) -> (r: Option<Scalar>)
        requires
            d > 0,
            n > i128::MIN,
        ensures
            (r is Some) == (rat_fit(Rat { num: n as int, den: d as int }) is Some),
            r matches Some(s) ==> s.wf() && Some(s@) == rat_fit(Rat { num: n as int, den: d as int }),
    {
        let ghost p = Rat { num: n as int, den: d as int };
        let neg: bool = n < 0;
        let mag: u128 = if neg {
            (-n) as u128
        } else {
            n as u128
        };
        let dd: u128 = d as u128;
        proof {
            lemma_gcd_divides(mag as nat, dd as nat);
        }
        let g: u128 = Self::gcd_u128(mag, dd);
        let nn: u128 = mag / g;
        let d2: u128 = dd / g;
        proof {
            lemma_fundamental_div_mod(dd as int, g as int);
            assert(d2 >= 1) by (nonlinear_arith)
                requires
                    dd as int == g as int * (dd as int / g as int) + dd as int % g as int,
                    dd as int % g as int == 0,
                    d2 as int == dd as int / g as int,
                    dd > 0,
                    g > 0,
            ;
            assert(abs_int(p.num) == mag as int);
            assert(gcd(abs_int(p.num) as nat, p.den as nat) == g as nat);
            if neg {
                assert(rat_norm(p) == Rat { num: -(nn as int), den: d2 as int });
            } else {
                assert(rat_norm(p) == Rat { num: nn as int, den: d2 as int });
            }
        }
        if nn <= MAX_MAG as u128 && d2 <= MAX_MAG as u128 {
            let num: i128 = if neg {
                -(nn as i128)
            } else {
                nn as i128
            };
            Some(Scalar { num, den: d2 as i128 })
        } else {
            None
        }
    }

    /// Euclid's greatest common divisor on unsigned 128-bit integers.
    fn gcd_u128(a: u128, b: u128) -> (g: u128)
        ensures
            g as nat == gcd(a as nat, b as nat),
        decreases b,
    {
        if b == 0 {
            a
        } else {
            Self::gcd_u128(b, a % b)
        }
    }
}

/// Precision scale of square roots: the integer root of the (possibly
/// scaled) radicand never has fewer digits than `SQRT_DEN`, so a square
/// root of a positive value carries at least five significant digits.
pub const SQRT_DEN: i128 = 100000;

/// The scale applied to the radicand `num * den`: a small radicand is
/// scaled up by `SQRT_DEN` squared, a large one needs no scaling. Either
/// way the scaled radicand is at least `SQRT_DEN` squared, which is what
/// gives the root its relative precision.
pub open spec fn spec_sqrt_scale(p: Rat) -> int {
    if p.num * p.den < 10000000000 {
        SQRT_DEN as int
    } else {
        1
    }
}

/// The square root of `p`, rounded down to a multiple of
/// `1 / (p.den * scale)`: the integer root of `num * den * scale^2` over
/// `den * scale`, since `sqrt(num/den) = sqrt(num * den) / den`.
pub open spec fn spec_sqrt_floor(p: Rat) -> Rat {
    if p.num == 0 {
        Rat { num: 0, den: 1 }
    } else {
        let m = spec_sqrt_scale(p);
        Rat { num: spec_isqrt(p.num * p.den * (m * m)), den: p.den * m }
    }
}

/// The integer square root, rounded down.
pub open spec fn spec_isqrt(x: int) -> int
    decreases x,
{
    if x < 1 {
        0
    } else {
        let r = spec_isqrt(x - 1);
        if (r + 1) * (r + 1) <= x {
            r + 1
        } else {
            r
        }
    }
}

/// The integer square root brackets its argument.
pub proof fn lemma_spec_isqrt_bounds(x: int)
    requires
        x >= 0,
    ensures
        spec_isqrt(x) >= 0,
        spec_isqrt(x) * spec_isqrt(x) <= x,
        x < (spec_isqrt(x) + 1) * (spec_isqrt(x) + 1),
    decreases x,
{
    if x < 1 {
    } else {
        lemma_spec_isqrt_bounds(x - 1);
        let r = spec_isqrt(x - 1);
        if (r + 1) * (r + 1) <= x {
            assert(x < ((r + 1) + 1) * ((r + 1) + 1)) by (nonlinear_arith)
                requires
                    r >= 0,
                    x - 1 < (r + 1) * (r + 1),
            ;
        }
    }
}

/// Any two integers bracketing `x` the same way are equal.
pub proof fn lemma_isqrt_unique(x: int, a: int, b: int)
    by (nonlinear_arith)
    requires
        x >= 0,
        a >= 0,
        b >= 0,
        a * a <= x,
        x < (a + 1) * (a + 1),
        b * b <= x,
        x < (b + 1) * (b + 1),
    ensures
        a == b,
{
}

} // verus!
