//! 4-component tuples over exact rationals: points (`w = 1`), vectors
//! (`w = 0`) and colors reuse the same struct. Every operation is exact;
//! an operation whose result does not fit the bounded representation
//! returns `None`.

use crate::compare::{equal, spec_eps_eq};
use crate::linalg::{
    chk_dot, lemma_chk_dot_spec, lemma_dot_scale_sq, lemma_spec_dot_self_nonneg, spec_dot,
};
use crate::rational::{
    lemma_norm_properties, lemma_rat_le_cancel, lemma_rat_le_congruence, lemma_rat_ratio_upper,
    rat_add, rat_div, rat_eq, rat_le, rat_lt, rat_mul, rat_neg, rat_one, rat_sub, rat_wf,
    rat_zero, Rat,
};
use crate::scalar::{rat_fit, spec_sqrt_floor, Scalar, SQRT_DEN};
use vstd::arithmetic::mul::lemma_mul_strictly_positive;
use vstd::prelude::*;

verus! {

/// The model of a tuple: four rationals.
pub ghost struct RatTuple {
    pub x: Rat,
    pub y: Rat,
    pub z: Rat,
    pub w: Rat,
}

/// All four components are well-formed fractions.
pub open spec fn rat_tuple_wf(t: RatTuple) -> bool {
    rat_wf(t.x) && rat_wf(t.y) && rat_wf(t.z) && rat_wf(t.w)
}

/// The components as a sequence, for dot products.
pub open spec fn rt_seq(t: RatTuple) -> Seq<Rat> {
    seq![t.x, t.y, t.z, t.w]
}

/// Componentwise rational equality.
pub open spec fn rat_tuple_eq(a: RatTuple, b: RatTuple) -> bool {
    rat_eq(a.x, b.x) && rat_eq(a.y, b.y) && rat_eq(a.z, b.z) && rat_eq(a.w, b.w)
}

/// Componentwise equality within the comparison tolerance.
pub open spec fn rat_tuple_eps_eq(a: RatTuple, b: RatTuple) -> bool {
    spec_eps_eq(a.x, b.x) && spec_eps_eq(a.y, b.y) && spec_eps_eq(a.z, b.z) && spec_eps_eq(
        a.w,
        b.w,
    )
}

/// Componentwise sum.
pub open spec fn tup_add(a: RatTuple, b: RatTuple) -> RatTuple {
    RatTuple {
        x: rat_add(a.x, b.x),
        y: rat_add(a.y, b.y),
        z: rat_add(a.z, b.z),
        w: rat_add(a.w, b.w),
    }
}

/// Componentwise difference.
pub open spec fn tup_sub(a: RatTuple, b: RatTuple) -> RatTuple {
    RatTuple {
        x: rat_sub(a.x, b.x),
        y: rat_sub(a.y, b.y),
        z: rat_sub(a.z, b.z),
        w: rat_sub(a.w, b.w),
    }
}

/// Componentwise (Hadamard) product, used for colors.
pub open spec fn tup_mul(a: RatTuple, b: RatTuple) -> RatTuple {
    RatTuple {
        x: rat_mul(a.x, b.x),
        y: rat_mul(a.y, b.y),
        z: rat_mul(a.z, b.z),
        w: rat_mul(a.w, b.w),
    }
}

/// Every component scaled by `s`.
pub open spec fn tup_scale(a: RatTuple, s: Rat) -> RatTuple {
    RatTuple {
        x: rat_mul(a.x, s),
        y: rat_mul(a.y, s),
        z: rat_mul(a.z, s),
        w: rat_mul(a.w, s),
    }
}

/// Every component divided by `s`.
pub open spec fn tup_scale_div(a: RatTuple, s: Rat) -> RatTuple {
    RatTuple {
        x: rat_div(a.x, s),
        y: rat_div(a.y, s),
        z: rat_div(a.z, s),
        w: rat_div(a.w, s),
    }
}

/// Every component negated.
pub open spec fn tup_neg(a: RatTuple) -> RatTuple {
    RatTuple { x: rat_neg(a.x), y: rat_neg(a.y), z: rat_neg(a.z), w: rat_neg(a.w) }
}

/// The exact 3-dimensional cross product; the `w` components are ignored.
pub open spec fn tup_cross(a: RatTuple, b: RatTuple) -> RatTuple {
    RatTuple {
        x: rat_sub(rat_mul(a.y, b.z), rat_mul(a.z, b.y)),
        y: rat_sub(rat_mul(a.z, b.x), rat_mul(a.x, b.z)),
        z: rat_sub(rat_mul(a.x, b.y), rat_mul(a.y, b.x)),
        w: rat_zero(),
    }
}

/// The bounded reduction of every component, `None` when any component
/// does not fit.
pub open spec fn rat_tuple_fit(e: RatTuple) -> Option<RatTuple> {
    if rat_fit(e.x) is Some && rat_fit(e.y) is Some && rat_fit(e.z) is Some && rat_fit(e.w)
        is Some {
        Some(
            RatTuple {
                x: rat_fit(e.x)->0,
                y: rat_fit(e.y)->0,
                z: rat_fit(e.z)->0,
                w: rat_fit(e.w)->0,
            },
        )
    } else {
        None
    }
}

/// A 4-component value: a point when `w` is 1, a vector when `w` is 0; a
/// color stores red, green and blue in `x`, `y` and `z`.
#[derive(Clone, Copy, Debug)]
pub struct Tuple {
    pub x: Scalar,
    pub y: Scalar,
    pub z: Scalar,
    pub w: Scalar,
}

impl View for Tuple {
    type V = RatTuple;

    open spec fn view(&self) -> RatTuple {
        RatTuple { x: self.x@, y: self.y@, z: self.z@, w: self.w@ }
    }
}

impl Tuple {
    /// All four components are well-formed scalars.
    pub open spec fn wf(&self) -> bool {
        self.x.wf() && self.y.wf() && self.z.wf() && self.w.wf()
    }

    /// A vector: `w` is 0.
    pub fn new_vector(x: Scalar, y: Scalar, z: Scalar) -> (r: Tuple)
        requires
            x.wf(),
            y.wf(),
            z.wf(),
        ensures
            r.wf(),
            r@.x == x@ && r@.y == y@ && r@.z == z@ && r@.w == rat_zero(),
    {
        Tuple { x, y, z, w: Scalar::zero() }
    }

    /// A point: `w` is 1.
    pub fn new_point(x: Scalar, y: Scalar, z: Scalar) -> (r: Tuple)
        requires
            x.wf(),
            y.wf(),
            z.wf(),
        ensures
            r.wf(),
            r@.x == x@ && r@.y == y@ && r@.z == z@ && r@.w == rat_one(),
    {
        Tuple { x, y, z, w: Scalar::one() }
    }

    /// A raw tuple with all four components given.
    pub fn new_tuple(x: Scalar, y: Scalar, z: Scalar, w: Scalar) -> (r: Tuple)
        requires
            x.wf(),
            y.wf(),
            z.wf(),
            w.wf(),
        ensures
            r.wf(),
            r@.x == x@ && r@.y == y@ && r@.z == z@ && r@.w == w@,
    {
        Tuple { x, y, z, w }
    }

    /// Whether `w` is within tolerance of 0.
    pub fn is_vector(&self) -> (r: bool)
        requires
            self.wf(),
        ensures
            r == spec_eps_eq(self@.w, rat_zero()),
    {
        let zero = Scalar::zero();
        equal(&self.w, &zero)
    }

    /// Whether `w` is within tolerance of 1.
    pub fn is_point(&self) -> (r: bool)
        requires
            self.wf(),
        ensures
            r == spec_eps_eq(self@.w, rat_one()),
    {
        let one = Scalar::one();
        equal(&self.w, &one)
    }

    /// Componentwise equality within the comparison tolerance.
    pub fn equals(&self, other: &Tuple) -> (r: bool)
        requires
            self.wf(),
            other.wf(),
        ensures
            r == rat_tuple_eps_eq(self@, other@),
    {
        equal(&self.x, &other.x) && equal(&self.y, &other.y) && equal(&self.z, &other.z) && equal(
            &self.w,
            &other.w,
        )
    }

    /// The exact componentwise sum.
    pub fn add(&self, other: &Tuple) -> (r: Option<Tuple>)
        requires
            self.wf(),
            other.wf(),
        ensures
            (r is Some) == (rat_tuple_fit(tup_add(self@, other@)) is Some),
            r matches Some(t) ==> t.wf() && Some(t@) == rat_tuple_fit(tup_add(self@, other@))
                && rat_tuple_eq(t@, tup_add(self@, other@)),
    {
        let x = match self.x.add(&other.x) {
            Some(v) => v,
            None => {
                return None;
            },
        };
        let y = match self.y.add(&other.y) {
            Some(v) => v,
            None => {
                return None;
            },
        };
        let z = match self.z.add(&other.z) {
            Some(v) => v,
            None => {
                return None;
            },
        };
        let w = match self.w.add(&other.w) {
            Some(v) => v,
            None => {
                return None;
            },
        };
        Some(Tuple { x, y, z, w })
    }

    /// The exact componentwise difference.
    pub fn subtract(&self, other: &Tuple) -> (r: Option<Tuple>)
        requires
            self.wf(),
            other.wf(),
        ensures
            (r is Some) == (rat_tuple_fit(tup_sub(self@, other@)) is Some),
            r matches Some(t) ==> t.wf() && Some(t@) == rat_tuple_fit(tup_sub(self@, other@))
                && rat_tuple_eq(t@, tup_sub(self@, other@)),
    {
        let x = match self.x.sub(&other.x) {
            Some(v) => v,
            None => {
                return None;
            },
        };
        let y = match self.y.sub(&other.y) {
            Some(v) => v,
            None => {
                return None;
            },
        };
        let z = match self.z.sub(&other.z) {
            Some(v) => v,
            None => {
                return None;
            },
        };
        let w = match self.w.sub(&other.w) {
            Some(v) => v,
            None => {
                return None;
            },
        };
        Some(Tuple { x, y, z, w })
    }

    /// The exact componentwise product, used to blend colors.
    pub fn multiply(&self, other: &Tuple) -> (r: Option<Tuple>)
        requires
            self.wf(),
            other.wf(),
        ensures
            (r is Some) == (rat_tuple_fit(tup_mul(self@, other@)) is Some),
            r matches Some(t) ==> t.wf() && Some(t@) == rat_tuple_fit(tup_mul(self@, other@))
                && rat_tuple_eq(t@, tup_mul(self@, other@)),
    {
        let x = match self.x.mul(&other.x) {
            Some(v) => v,
            None => {
                return None;
            },
        };
        let y = match self.y.mul(&other.y) {
            Some(v) => v,
            None => {
                return None;
            },
        };
        let z = match self.z.mul(&other.z) {
            Some(v) => v,
            None => {
                return None;
            },
        };
        let w = match self.w.mul(&other.w) {
            Some(v) => v,
            None => {
                return None;
            },
        };
        Some(Tuple { x, y, z, w })
    }

    /// Every component scaled by `s`.
    pub fn multiply_scalar(&self, s: &Scalar) -> (r: Option<Tuple>)
        requires
            self.wf(),
            s.wf(),
        ensures
            (r is Some) == (rat_tuple_fit(tup_scale(self@, s@)) is Some),
            r matches Some(t) ==> t.wf() && Some(t@) == rat_tuple_fit(tup_scale(self@, s@))
                && rat_tuple_eq(t@, tup_scale(self@, s@)),
    {
        let x = match self.x.mul(s) {
            Some(v) => v,
            None => {
                return None;
            },
        };
        let y = match self.y.mul(s) {
            Some(v) => v,
            None => {
                return None;
            },
        };
        let z = match self.z.mul(s) {
            Some(v) => v,
            None => {
                return None;
            },
        };
        let w = match self.w.mul(s) {
            Some(v) => v,
            None => {
                return None;
            },
        };
        Some(Tuple { x, y, z, w })
    }

    /// Every component divided by `s`; `None` when `s` is zero or a
    /// quotient does not fit.
    pub fn divide_scalar(&self, s: &Scalar) -> (r: Option<Tuple>)
        requires
            self.wf(),
            s.wf(),
        ensures
            (r is Some) == (!rat_eq(s@, rat_zero()) && rat_tuple_fit(tup_scale_div(self@, s@))
                is Some),
            r matches Some(t) ==> t.wf() && Some(t@) == rat_tuple_fit(tup_scale_div(self@, s@))
                && rat_eq(rat_mul(t@.x, s@), self@.x) && rat_eq(rat_mul(t@.y, s@), self@.y)
                && rat_eq(rat_mul(t@.z, s@), self@.z) && rat_eq(rat_mul(t@.w, s@), self@.w),
    {
        let x = match self.x.div(s) {
            Some(v) => v,
            None => {
                return None;
            },
        };
        let y = match self.y.div(s) {
            Some(v) => v,
            None => {
                return None;
            },
        };
        let z = match self.z.div(s) {
            Some(v) => v,
            None => {
                return None;
            },
        };
        let w = match self.w.div(s) {
            Some(v) => v,
            None => {
                return None;
            },
        };
        Some(Tuple { x, y, z, w })
    }

    /// Every component negated; exact and always representable.
    pub fn negate(&self) -> (r: Tuple)
        requires
            self.wf(),
        ensures
            r.wf(),
            r@ == tup_neg(self@),
    {
        Tuple { x: self.x.neg(), y: self.y.neg(), z: self.z.neg(), w: self.w.neg() }
    }

    /// The exact dot product over all four components.
    pub fn dot(&self, other: &Tuple) -> (r: Option<Scalar>)
        requires
            self.wf(),
            other.wf(),
        ensures
            (r is Some) == (chk_dot(rt_seq(self@), rt_seq(other@), 4) is Some),
            r matches Some(s) ==> s.wf() && Some(s@) == chk_dot(rt_seq(self@), rt_seq(other@), 4)
                && rat_eq(s@, spec_dot(rt_seq(self@), rt_seq(other@), 4)),
    {
        let ghost u = rt_seq(self@);
        let ghost v = rt_seq(other@);
        proof {
            reveal_with_fuel(chk_dot, 5);
            lemma_chk_dot_spec(u, v, 4);
            assert(u[0] == self@.x && u[1] == self@.y && u[2] == self@.z && u[3] == self@.w);
            assert(v[0] == other@.x && v[1] == other@.y && v[2] == other@.z && v[3] == other@.w);
        }
        let acc0 = Scalar::zero();
        let p0 = match self.x.mul(&other.x) {
            Some(p) => p,
            None => {
                return None;
            },
        };
        let acc1 = match acc0.add(&p0) {
            Some(s) => s,
            None => {
                return None;
            },
        };
        proof {
            assert(chk_dot(u, v, 1) == Some(acc1@));
        }
        let p1 = match self.y.mul(&other.y) {
            Some(p) => p,
            None => {
                return None;
            },
        };
        let acc2 = match acc1.add(&p1) {
            Some(s) => s,
            None => {
                return None;
            },
        };
        proof {
            assert(chk_dot(u, v, 2) == Some(acc2@));
        }
        let p2 = match self.z.mul(&other.z) {
            Some(p) => p,
            None => {
                return None;
            },
        };
        let acc3 = match acc2.add(&p2) {
            Some(s) => s,
            None => {
                return None;
            },
        };
        proof {
            assert(chk_dot(u, v, 3) == Some(acc3@));
        }
        let p3 = match self.w.mul(&other.w) {
            Some(p) => p,
            None => {
                return None;
            },
        };
        let acc4 = match acc3.add(&p3) {
            Some(s) => s,
            None => {
                return None;
            },
        };
        proof {
            assert(chk_dot(u, v, 4) == Some(acc4@));
        }
        Some(acc4)
    }

    /// The exact 3-dimensional cross product; always a vector.
    pub fn cross(&self, other: &Tuple) -> (r: Option<Tuple>)
        requires
            self.wf(),
            other.wf(),
        ensures
            (r is Some) == ({
                let c = tup_cross(self@, other@);
                rat_fit(rat_mul(self@.y, other@.z)) is Some && rat_fit(
                    rat_mul(self@.z, other@.y),
                ) is Some && rat_fit(rat_mul(self@.z, other@.x)) is Some && rat_fit(
                    rat_mul(self@.x, other@.z),
                ) is Some && rat_fit(rat_mul(self@.x, other@.y)) is Some && rat_fit(
                    rat_mul(self@.y, other@.x),
                ) is Some && rat_fit(
                    rat_sub(rat_fit(rat_mul(self@.y, other@.z))->0, rat_fit(rat_mul(self@.z, other@.y))->0),
                ) is Some && rat_fit(
                    rat_sub(rat_fit(rat_mul(self@.z, other@.x))->0, rat_fit(rat_mul(self@.x, other@.z))->0),
                ) is Some && rat_fit(
                    rat_sub(rat_fit(rat_mul(self@.x, other@.y))->0, rat_fit(rat_mul(self@.y, other@.x))->0),
                ) is Some
            }),
            r matches Some(t) ==> t.wf() && rat_tuple_eq(t@, tup_cross(self@, other@)) && t@.w
                == rat_zero(),
    {
        proof {
            lemma_cross_wf(self@, other@);
        }
        let yz = match self.y.mul(&other.z) {
            Some(v) => v,
            None => {
                return None;
            },
        };
        let zy = match self.z.mul(&other.y) {
            Some(v) => v,
            None => {
                return None;
            },
        };
        let zx = match self.z.mul(&other.x) {
            Some(v) => v,
            None => {
                return None;
            },
        };
        let xz = match self.x.mul(&other.z) {
            Some(v) => v,
            None => {
                return None;
            },
        };
        let xy = match self.x.mul(&other.y) {
            Some(v) => v,
            None => {
                return None;
            },
        };
        let yx = match self.y.mul(&other.x) {
            Some(v) => v,
            None => {
                return None;
            },
        };
        let cx = match yz.sub(&zy) {
            Some(v) => v,
            None => {
                return None;
            },
        };
        let cy = match zx.sub(&xz) {
            Some(v) => v,
            None => {
                return None;
            },
        };
        let cz = match xy.sub(&yx) {
            Some(v) => v,
            None => {
                return None;
            },
        };
        proof {
            lemma_cross_components(self@, other@, cx@, cy@, cz@);
        }
        Some(Tuple { x: cx, y: cy, z: cz, w: Scalar::zero() })
    }

    /// The Euclidean norm over all four components: the square root of
    /// the squared norm, rounded down with relative precision better than
    /// one part in `SQRT_DEN`; `None` when the squared norm does not fit.
    pub fn magnitude(&self) -> (r: Option<Scalar>)
        requires
            self.wf(),
        ensures
            (r is Some) == (chk_dot(rt_seq(self@), rt_seq(self@), 4) is Some),
            r matches Some(s) ==> (
            {
                let m2 = spec_dot(rt_seq(self@), rt_seq(self@), 4);
                &&& s.wf()
                &&& s@ == spec_sqrt_floor(chk_dot(rt_seq(self@), rt_seq(self@), 4)->0)
                &&& s@.num >= 0
                &&& (s@.num > 0 ==> s@.num >= SQRT_DEN as int)
                &&& rat_le(rat_mul(s@, s@), m2)
                &&& rat_lt(
                    m2,
                    rat_mul(
                        Rat { num: s@.num + 1, den: s@.den },
                        Rat { num: s@.num + 1, den: s@.den },
                    ),
                )
            }),
    {
        let m2 = match self.dot(self) {
            Some(m) => m,
            None => {
                return None;
            },
        };
        let ghost u = rt_seq(self@);
        let ghost sd = spec_dot(u, u, 4);
        proof {
            lemma_spec_dot_self_nonneg(u, 4);
            assert(m2@.num >= 0) by (nonlinear_arith)
                requires
                    m2@.num * sd.den == sd.num * m2@.den,
                    sd.num >= 0,
                    sd.den > 0,
                    m2@.den > 0,
            ;
        }
        let root = m2.sqrt_floor();
        proof {
            let sq = rat_mul(root@, root@);
            lemma_mul_strictly_positive(root@.den, root@.den);
            lemma_rat_le_congruence(sq, m2@, sq, sd);
            let up = Rat { num: root@.num + 1, den: root@.den };
            let sq1 = rat_mul(up, up);
            lemma_mul_strictly_positive(up.den, up.den);
            lemma_rat_le_congruence(m2@, sq1, sd, sq1);
        }
        Some(root)
    }

    /// The tuple scaled to unit length: every component divided by the
    /// magnitude. `None` when the magnitude is zero or a component does
    /// not fit.
    pub fn normalize(&self) -> (r: Option<Tuple>)
        requires
            self.wf(),
        ensures
            (r is Some) == ({
                let c = chk_dot(rt_seq(self@), rt_seq(self@), 4);
                &&& c is Some
                &&& !rat_eq(spec_sqrt_floor(c->0), rat_zero())
                &&& rat_tuple_fit(tup_scale_div(self@, spec_sqrt_floor(c->0))) is Some
            }),
            r matches Some(t) ==> (
            {
                let m = spec_sqrt_floor(chk_dot(rt_seq(self@), rt_seq(self@), 4)->0);
                &&& t.wf()
                &&& Some(t@) == rat_tuple_fit(tup_scale_div(self@, m))
                &&& rat_eq(rat_mul(t@.x, m), self@.x)
                &&& rat_eq(rat_mul(t@.y, m), self@.y)
                &&& rat_eq(rat_mul(t@.z, m), self@.z)
                &&& rat_eq(rat_mul(t@.w, m), self@.w)
            }),
            r matches Some(t) ==> spec_eps_eq(
                spec_dot(rt_seq(t@), rt_seq(t@), 4),
                rat_one(),
            ),
    {
        let m = match self.magnitude() {
            Some(m) => m,
            None => {
                return None;
            },
        };
        let x = match self.x.div(&m) {
            Some(v) => v,
            None => {
                return None;
            },
        };
        let y = match self.y.div(&m) {
            Some(v) => v,
            None => {
                return None;
            },
        };
        let z = match self.z.div(&m) {
            Some(v) => v,
            None => {
                return None;
            },
        };
        let w = match self.w.div(&m) {
            Some(v) => v,
            None => {
                return None;
            },
        };
        let out = Tuple { x, y, z, w };
        proof {
            assert(!rat_eq(m@, rat_zero()));
            assert(0 * m@.den == 0) by (nonlinear_arith);
            assert(m@.num * 1 == m@.num);
            assert(m@.num != 0);
            lemma_normalized_unit_norm(self@, out@, m@);
        }
        Some(out)
    }
}

/// The pairwise products and differences in a cross product are over
/// well-formed fractions.
proof fn lemma_cross_wf(a: RatTuple, b: RatTuple)
    requires
        rat_tuple_wf(a),
        rat_tuple_wf(b),
    ensures
        rat_wf(rat_mul(a.y, b.z)),
        rat_wf(rat_mul(a.z, b.y)),
        rat_wf(rat_mul(a.z, b.x)),
        rat_wf(rat_mul(a.x, b.z)),
        rat_wf(rat_mul(a.x, b.y)),
        rat_wf(rat_mul(a.y, b.x)),
{
    lemma_mul_strictly_positive(a.y.den, b.z.den);
    lemma_mul_strictly_positive(a.z.den, b.y.den);
    lemma_mul_strictly_positive(a.z.den, b.x.den);
    lemma_mul_strictly_positive(a.x.den, b.z.den);
    lemma_mul_strictly_positive(a.x.den, b.y.den);
    lemma_mul_strictly_positive(a.y.den, b.x.den);
}

/// Ties the reduced cross-product components to the exact ones.
proof fn lemma_cross_components(a: RatTuple, b: RatTuple, cx: Rat, cy: Rat, cz: Rat)
    requires
        rat_tuple_wf(a),
        rat_tuple_wf(b),
        rat_fit(rat_mul(a.y, b.z)) is Some,
        rat_fit(rat_mul(a.z, b.y)) is Some,
        rat_fit(rat_mul(a.z, b.x)) is Some,
        rat_fit(rat_mul(a.x, b.z)) is Some,
        rat_fit(rat_mul(a.x, b.y)) is Some,
        rat_fit(rat_mul(a.y, b.x)) is Some,
        Some(cx) == rat_fit(
            rat_sub(rat_fit(rat_mul(a.y, b.z))->0, rat_fit(rat_mul(a.z, b.y))->0),
        ),
        Some(cy) == rat_fit(
            rat_sub(rat_fit(rat_mul(a.z, b.x))->0, rat_fit(rat_mul(a.x, b.z))->0),
        ),
        Some(cz) == rat_fit(
            rat_sub(rat_fit(rat_mul(a.x, b.y))->0, rat_fit(rat_mul(a.y, b.x))->0),
        ),
    ensures
        rat_eq(cx, tup_cross(a, b).x),
        rat_eq(cy, tup_cross(a, b).y),
        rat_eq(cz, tup_cross(a, b).z),
{
    lemma_cross_wf(a, b);
    lemma_cross_component(a.y, b.z, a.z, b.y, cx);
    lemma_cross_component(a.z, b.x, a.x, b.z, cy);
    lemma_cross_component(a.x, b.y, a.y, b.x, cz);
}

/// A tuple whose components, scaled by `m`, give back a tuple whose
/// squared norm `m` brackets with relative precision, has a squared norm
/// within the comparison tolerance of one. This is what makes a
/// normalized tuple a unit tuple.
proof fn lemma_normalized_unit_norm(v: RatTuple, t: RatTuple, m: Rat)
    requires
        rat_tuple_wf(v),
        rat_tuple_wf(t),
        rat_wf(m),
        m.num >= SQRT_DEN as int,
        rat_eq(rat_mul(t.x, m), v.x),
        rat_eq(rat_mul(t.y, m), v.y),
        rat_eq(rat_mul(t.z, m), v.z),
        rat_eq(rat_mul(t.w, m), v.w),
        rat_le(rat_mul(m, m), spec_dot(rt_seq(v), rt_seq(v), 4)),
        rat_lt(
            spec_dot(rt_seq(v), rt_seq(v), 4),
            rat_mul(Rat { num: m.num + 1, den: m.den }, Rat { num: m.num + 1, den: m.den }),
        ),
    ensures
        spec_eps_eq(spec_dot(rt_seq(t), rt_seq(t), 4), rat_one()),
{
    let u = rt_seq(t);
    let vv = rt_seq(v);
    assert(u[0] == t.x && u[1] == t.y && u[2] == t.z && u[3] == t.w);
    assert(vv[0] == v.x && vv[1] == v.y && vv[2] == v.z && vv[3] == v.w);
    assert(forall|i: int| 0 <= i < 4 ==> rat_wf(#[trigger] u[i]));
    assert(forall|i: int| 0 <= i < 4 ==> rat_wf(#[trigger] vv[i]));
    assert(forall|i: int| 0 <= i < 4 ==> rat_eq(rat_mul(#[trigger] u[i], m), vv[i]));
    lemma_dot_scale_sq(u, vv, m, 4);
    let sdt = spec_dot(u, u, 4);
    let sdv = spec_dot(vv, vv, 4);
    let msq = rat_mul(m, m);
    lemma_mul_strictly_positive(m.den, m.den);
    assert(msq.num > 0) by (nonlinear_arith)
        requires
            msq.num == m.num * m.num,
            m.num >= 100000,
    ;
    lemma_mul_strictly_positive(sdt.den, msq.den);
    // the lower bound carries over to the scaled form and cancels
    lemma_rat_le_congruence(msq, sdv, msq, rat_mul(sdt, msq));
    lemma_rat_le_cancel(sdt, msq);
    // the upper bound carries over the same way
    let up = Rat { num: m.num + 1, den: m.den };
    let up2 = rat_mul(up, up);
    lemma_mul_strictly_positive(up.den, up.den);
    lemma_rat_le_congruence(sdv, up2, rat_mul(sdt, msq), up2);
    lemma_rat_ratio_upper(sdt, m);
    // squeezed between one and 10001/10000: within the tolerance of one
    assert(1 * sdt.den <= sdt.num * 1);
    assert(sdt.num * 10000 < 10001 * sdt.den);
    let d = rat_sub(sdt, rat_one());
    assert(d.num == sdt.num * 1 - 1 * sdt.den && d.den == sdt.den * 1);
    assert(d.num >= 0 && d.num * 10000 < 1 * d.den);
}

/// One reduced difference of reduced products denotes the exact one.
proof fn lemma_cross_component(p: Rat, q: Rat, u: Rat, v: Rat, c: Rat)
    requires
        rat_wf(p),
        rat_wf(q),
        rat_wf(u),
        rat_wf(v),
        rat_fit(rat_mul(p, q)) is Some,
        rat_fit(rat_mul(u, v)) is Some,
        Some(c) == rat_fit(rat_sub(rat_fit(rat_mul(p, q))->0, rat_fit(rat_mul(u, v))->0)),
    ensures
        rat_eq(c, rat_sub(rat_mul(p, q), rat_mul(u, v))),
{
    let pq = rat_mul(p, q);
    let uv = rat_mul(u, v);
    lemma_mul_strictly_positive(p.den, q.den);
    lemma_mul_strictly_positive(u.den, v.den);
    lemma_norm_properties(pq);
    lemma_norm_properties(uv);
    let rp = rat_fit(pq)->0;
    let ru = rat_fit(uv)->0;
    let d = rat_sub(rp, ru);
    lemma_mul_strictly_positive(rp.den, ru.den);
    lemma_norm_properties(d);
    crate::rational::lemma_rat_sub_congruence(rp, ru, pq, uv);
    lemma_mul_strictly_positive(pq.den, uv.den);
    crate::rational::lemma_rat_eq_trans(c, d, rat_sub(pq, uv));
}

} // verus!
