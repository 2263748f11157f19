//! The mathematical model of the matrix engine: grids of rationals
//! (`Seq<Seq<Rat>>`, row major), exact dot products, matrix product,
//! transpose, submatrix extraction and the recursive cofactor expansion of
//! the determinant.
//!
//! Each recursive computation exists twice: an exact total version
//! (`spec_...`) giving the mathematical value, and a bounded mirror
//! (`chk_...`) that reduces after every step and reports `None` where the
//! executable arithmetic would; the lemmas here tie every `chk` result to
//! its exact value.

use crate::compare::spec_eps_eq;
use crate::rational::{
    lemma_norm_properties, lemma_rat_add_congruence, lemma_rat_eq_trans, lemma_rat_mul_congruence,
    lemma_rat_neg_congruence, lemma_rat_sub_congruence, rat_add, rat_div, rat_eq, rat_mul,
    rat_neg, rat_one, rat_sub, rat_wf, rat_zero, Rat,
};
use crate::scalar::{rat_fit, rat_small};
use vstd::arithmetic::mul::lemma_mul_strictly_positive;
use vstd::prelude::*;

verus! {

/// Every entry of the row is a well-formed fraction.
pub open spec fn row_wf(u: Seq<Rat>) -> bool {
    forall|i: int| 0 <= i < u.len() ==> rat_wf(#[trigger] u[i])
}

/// Every entry of the grid is a well-formed fraction.
pub open spec fn grid_wf(a: Seq<Seq<Rat>>) -> bool {
    forall|i: int| 0 <= i < a.len() ==> row_wf(#[trigger] a[i])
}

/// Every row of the grid has length `w`.
pub open spec fn grid_rect(a: Seq<Seq<Rat>>, w: nat) -> bool {
    forall|i: int| 0 <= i < a.len() ==> (#[trigger] a[i]).len() == w
}

/// Column `j` of the grid, one entry per row.
pub open spec fn grid_col(a: Seq<Seq<Rat>>, j: int) -> Seq<Rat> {
    Seq::new(a.len(), |k: int| a[k][j])
}

/// The exact dot product of the first `k` entries of `u` and `v`.
pub open spec fn spec_dot(u: Seq<Rat>, v: Seq<Rat>, k: nat) -> Rat
    decreases k,
{
    if k == 0 {
        rat_zero()
    } else {
        rat_add(spec_dot(u, v, (k - 1) as nat), rat_mul(u[k - 1], v[k - 1]))
    }
}

/// The bounded mirror of [`spec_dot`]: each product and each partial sum
/// is reduced and checked against the representation bound.
pub open spec fn chk_dot(u: Seq<Rat>, v: Seq<Rat>, k: nat) -> Option<Rat>
    decreases k,
{
    if k == 0 {
        Some(rat_zero())
    } else {
        match chk_dot(u, v, (k - 1) as nat) {
            None => None,
            Some(acc) => match rat_fit(rat_mul(u[k - 1], v[k - 1])) {
                None => None,
                Some(p) => rat_fit(rat_add(acc, p)),
            },
        }
    }
}

/// A bounded dot product, when it exists, denotes the exact dot product.
pub proof fn lemma_chk_dot_spec(u: Seq<Rat>, v: Seq<Rat>, k: nat)
    requires
        forall|i: int| 0 <= i < k ==> rat_wf(#[trigger] u[i]),
        forall|i: int| 0 <= i < k ==> rat_wf(#[trigger] v[i]),
    ensures
        rat_wf(spec_dot(u, v, k)),
        chk_dot(u, v, k) matches Some(s) ==> rat_wf(s) && rat_small(s) && rat_eq(
            s,
            spec_dot(u, v, k),
        ),
    decreases k,
{
    if k == 0 {
    } else {
        let km1 = (k - 1) as nat;
        lemma_chk_dot_spec(u, v, km1);
        let prev = spec_dot(u, v, km1);
        let p = rat_mul(u[k - 1], v[k - 1]);
        lemma_mul_strictly_positive(u[k - 1].den, v[k - 1].den);
        lemma_mul_strictly_positive(prev.den, p.den);
        if chk_dot(u, v, k) is Some {
            let acc = chk_dot(u, v, km1)->0;
            lemma_norm_properties(p);
            let pp = rat_fit(p)->0;
            let sum = rat_add(acc, pp);
            lemma_mul_strictly_positive(acc.den, pp.den);
            lemma_norm_properties(sum);
            lemma_rat_add_congruence(acc, pp, prev, p);
            let s = chk_dot(u, v, k)->0;
            lemma_rat_eq_trans(s, sum, rat_add(prev, p));
        }
    }
}

/// Once a bounded dot product has failed, every longer prefix fails too.
pub proof fn lemma_chk_dot_none_mono(u: Seq<Rat>, v: Seq<Rat>, k: nat, k2: nat)
    requires
        k <= k2,
        chk_dot(u, v, k) is None,
    ensures
        chk_dot(u, v, k2) is None,
    decreases k2,
{
    if k < k2 {
        lemma_chk_dot_none_mono(u, v, k, (k2 - 1) as nat);
    }
}

/// Once a bounded expansion has failed, every longer prefix fails too.
pub proof fn lemma_chk_expand_none_mono(a: Seq<Seq<Rat>>, j: int, j2: int)
    requires
        0 <= j <= j2,
        chk_expand(a, j) is None,
    ensures
        chk_expand(a, j2) is None,
    decreases j2,
{
    if j < j2 {
        lemma_chk_expand_none_mono(a, j, j2 - 1);
    }
}

/// A dot product of a row with itself is a sum of squares, hence
/// nonnegative.
pub proof fn lemma_spec_dot_self_nonneg(u: Seq<Rat>, k: nat)
    requires
        forall|i: int| 0 <= i < k ==> rat_wf(#[trigger] u[i]),
    ensures
        rat_wf(spec_dot(u, u, k)),
        spec_dot(u, u, k).num >= 0,
    decreases k,
{
    if k == 0 {
    } else {
        lemma_spec_dot_self_nonneg(u, (k - 1) as nat);
        let prev = spec_dot(u, u, (k - 1) as nat);
        let e = u[k - 1];
        let p = rat_mul(e, e);
        assert(p.num >= 0) by (nonlinear_arith)
            requires
                p.num == e.num * e.num,
        ;
        lemma_mul_strictly_positive(e.den, e.den);
        lemma_mul_strictly_positive(prev.den, p.den);
        assert(prev.num * p.den + p.num * prev.den >= 0) by (nonlinear_arith)
            requires
                prev.num >= 0,
                p.num >= 0,
                prev.den > 0,
                p.den > 0,
        ;
    }
}

/// Scaling every entry of a row divides its self-dot product by the
/// square of the scale: if `u[i] * s` denotes `v[i]` for every entry,
/// then `dot(u, u) * s^2` denotes `dot(v, v)`.
pub proof fn lemma_dot_scale_sq(u: Seq<Rat>, v: Seq<Rat>, s: Rat, k: nat)
    requires
        rat_wf(s),
        forall|i: int| 0 <= i < k ==> rat_wf(#[trigger] u[i]),
        forall|i: int| 0 <= i < k ==> rat_wf(#[trigger] v[i]),
        forall|i: int| 0 <= i < k ==> rat_eq(rat_mul(#[trigger] u[i], s), v[i]),
    ensures
        rat_wf(spec_dot(u, u, k)),
        rat_wf(spec_dot(v, v, k)),
        rat_eq(rat_mul(spec_dot(u, u, k), rat_mul(s, s)), spec_dot(v, v, k)),
    decreases k,
{
    let ss = rat_mul(s, s);
    lemma_mul_strictly_positive(s.den, s.den);
    if k == 0 {
        assert(rat_eq(rat_mul(rat_zero(), ss), rat_zero())) by (nonlinear_arith)
            requires
                ss.den > 0,
        ;
    } else {
        let km1 = (k - 1) as nat;
        lemma_dot_scale_sq(u, v, s, km1);
        let pu = spec_dot(u, u, km1);
        let pv = spec_dot(v, v, km1);
        let uk = u[k - 1];
        let vk = v[k - 1];
        let usq = rat_mul(uk, uk);
        let vsq = rat_mul(vk, vk);
        lemma_mul_strictly_positive(uk.den, uk.den);
        lemma_mul_strictly_positive(vk.den, vk.den);
        lemma_mul_strictly_positive(pu.den, usq.den);
        lemma_mul_strictly_positive(pv.den, vsq.den);
        lemma_mul_strictly_positive(pu.den, ss.den);
        lemma_mul_strictly_positive(usq.den, ss.den);
        lemma_mul_strictly_positive(uk.den, s.den);
        // the whole step, distributed over the final addition
        crate::rational::lemma_rat_mul_distributes(pu, usq, ss);
        // the last term squared and scaled is the scaled entry squared
        assert((uk.num * uk.num) * (s.num * s.num) == (uk.num * s.num) * (uk.num * s.num))
            by (nonlinear_arith);
        assert((uk.den * uk.den) * (s.den * s.den) == (uk.den * s.den) * (uk.den * s.den))
            by (nonlinear_arith);
        assert(rat_mul(usq, ss) == rat_mul(rat_mul(uk, s), rat_mul(uk, s)));
        lemma_rat_mul_congruence(rat_mul(uk, s), rat_mul(uk, s), vk, vk);
        lemma_rat_add_congruence(rat_mul(pu, ss), rat_mul(usq, ss), pv, vsq);
        lemma_mul_strictly_positive(rat_mul(pu, ss).den, rat_mul(usq, ss).den);
        lemma_mul_strictly_positive(rat_add(pu, usq).den, ss.den);
        lemma_rat_eq_trans(
            rat_mul(rat_add(pu, usq), ss),
            rat_add(rat_mul(pu, ss), rat_mul(usq, ss)),
            rat_add(pv, vsq),
        );
    }
}

/// The exact matrix product: row `i` holds the dot products of row `i` of
/// `a` with the columns of `b`, summed over the `b.len()` rows of `b`.
/// `w` is the width of `b`.
pub open spec fn spec_mat_mul(a: Seq<Seq<Rat>>, b: Seq<Seq<Rat>>, w: nat) -> Seq<Seq<Rat>> {
    Seq::new(b.len(), |i: int| Seq::new(w, |j: int| spec_dot(a[i], grid_col(b, j), b.len())))
}

/// The transpose of a grid of width `w`.
pub open spec fn spec_transpose(a: Seq<Seq<Rat>>, w: nat) -> Seq<Seq<Rat>> {
    Seq::new(w, |j: int| Seq::new(a.len(), |i: int| a[i][j]))
}

/// The grid with row `row` and column `col` removed.
pub open spec fn spec_submatrix(a: Seq<Seq<Rat>>, row: int, col: int) -> Seq<Seq<Rat>> {
    Seq::new(
        (a.len() - 1) as nat,
        |i: int|
            {
                let si = if i < row {
                    i
                } else {
                    i + 1
                };
                Seq::new(
                    (a[si].len() - 1) as nat,
                    |j: int|
                        {
                            let sj = if j < col {
                                j
                            } else {
                                j + 1
                            };
                            a[si][sj]
                        },
                )
            },
    )
}

/// The identity grid of size `n`.
pub open spec fn spec_identity(n: nat) -> Seq<Seq<Rat>> {
    Seq::new(
        n,
        |i: int|
            Seq::new(
                n,
                |j: int|
                    if i == j {
                        rat_one()
                    } else {
                        rat_zero()
                    },
            ),
    )
}

/// Two grids agree in shape and denote the same rationals entrywise.
pub open spec fn grid_rat_eq(a: Seq<Seq<Rat>>, b: Seq<Seq<Rat>>) -> bool {
    &&& a.len() == b.len()
    &&& forall|i: int| 0 <= i < a.len() ==> (#[trigger] a[i]).len() == b[i].len()
    &&& forall|i: int, j: int|
        0 <= i < a.len() && 0 <= j < a[i].len() ==> rat_eq(#[trigger] a[i][j], b[i][j])
}

/// Two grids agree in shape, and entrywise within the comparison
/// tolerance.
pub open spec fn grid_eps_eq(a: Seq<Seq<Rat>>, b: Seq<Seq<Rat>>) -> bool {
    &&& a.len() == b.len()
    &&& forall|i: int| 0 <= i < a.len() ==> (#[trigger] a[i]).len() == b[i].len()
    &&& forall|i: int, j: int|
        0 <= i < a.len() && 0 <= j < a[i].len() ==> spec_eps_eq(#[trigger] a[i][j], b[i][j])
}

/// Shape and entries of a submatrix.
pub proof fn lemma_submatrix_shape(a: Seq<Seq<Rat>>, w: nat, r: int, c: int)
    requires
        grid_rect(a, w),
        grid_wf(a),
        a.len() >= 1,
        w >= 1,
        0 <= r < a.len(),
        0 <= c < w,
    ensures
        spec_submatrix(a, r, c).len() == a.len() - 1,
        grid_rect(spec_submatrix(a, r, c), (w - 1) as nat),
        grid_wf(spec_submatrix(a, r, c)),
        forall|i: int, j: int|
            0 <= i < a.len() - 1 && 0 <= j < w - 1 ==> #[trigger] spec_submatrix(a, r, c)[i][j]
                == a[if i < r {
                i
            } else {
                i + 1
            }][if j < c {
                j
            } else {
                j + 1
            }],
{
    let s = spec_submatrix(a, r, c);
    assert forall|i: int| 0 <= i < s.len() implies (#[trigger] s[i]).len() == (w - 1) as nat by {
        let si = if i < r {
            i
        } else {
            i + 1
        };
        assert(a[si].len() == w);
    }
    assert forall|i: int| 0 <= i < s.len() implies row_wf(#[trigger] s[i]) by {
        let si = if i < r {
            i
        } else {
            i + 1
        };
        assert(row_wf(a[si]));
        assert forall|j: int| 0 <= j < s[i].len() implies rat_wf(#[trigger] s[i][j]) by {
            let sj = if j < c {
                j
            } else {
                j + 1
            };
            assert(rat_wf(a[si][sj]));
        }
    }
}

/// The closed-form determinant of a 2-by-2 grid.
pub open spec fn spec_det2(a: Seq<Seq<Rat>>) -> Rat {
    rat_sub(rat_mul(a[0][0], a[1][1]), rat_mul(a[0][1], a[1][0]))
}

/// The exact determinant of a square grid of size at least 2, by the
/// closed 2-by-2 form or by cofactor expansion along the first row.
pub open spec fn spec_det(a: Seq<Seq<Rat>>) -> Rat
    decreases a.len(), 3int, 0int,
{
    if a.len() <= 2 {
        spec_det2(a)
    } else {
        spec_expand(a, a.len() as int)
    }
}

/// The first `j` terms of the cofactor expansion of the determinant along
/// the first row, accumulated left to right from zero.
pub open spec fn spec_expand(a: Seq<Seq<Rat>>, j: int) -> Rat
    decreases a.len(), 2int, j,
{
    if j <= 0 {
        rat_zero()
    } else {
        rat_add(spec_expand(a, j - 1), rat_mul(a[0][j - 1], spec_cof(a, 0, j - 1)))
    }
}

/// The exact cofactor: the minor, negated on odd `r + c`.
pub open spec fn spec_cof(a: Seq<Seq<Rat>>, r: int, c: int) -> Rat
    decreases a.len(), 1int, 0int,
{
    if (r + c) % 2 == 0 {
        spec_minor(a, r, c)
    } else {
        rat_neg(spec_minor(a, r, c))
    }
}

/// The exact minor: the determinant of the submatrix at `(r, c)`.
pub open spec fn spec_minor(a: Seq<Seq<Rat>>, r: int, c: int) -> Rat
    decreases a.len(), 0int, 0int,
{
    if a.len() == 0 {
        rat_zero()
    } else {
        spec_det(spec_submatrix(a, r, c))
    }
}

/// The inverse by the adjugate: entry `(i, j)` is the cofactor at
/// `(j, i)` divided by the determinant.
pub open spec fn spec_inverse(a: Seq<Seq<Rat>>) -> Seq<Seq<Rat>> {
    Seq::new(
        a.len(),
        |i: int| Seq::new(a.len(), |j: int| rat_div(spec_cof(a, j, i), spec_det(a))),
    )
}

/// The determinant of a square grid with an all-zero column denotes zero.
pub proof fn lemma_det_zero_col(a: Seq<Seq<Rat>>, c: int)
    requires
        grid_wf(a),
        grid_rect(a, a.len() as nat),
        a.len() >= 2,
        0 <= c < a.len(),
        forall|i: int| 0 <= i < a.len() ==> (#[trigger] a[i][c]).num == 0,
    ensures
        spec_det(a).num == 0,
    decreases a.len(), 1int, 0int,
{
    if a.len() == 2 {
        let p = rat_mul(a[0][0], a[1][1]);
        let q = rat_mul(a[0][1], a[1][0]);
        if c == 0 {
            assert(a[0][0].num * a[1][1].num == 0) by (nonlinear_arith)
                requires
                    a[0][0].num == 0,
            ;
            assert(a[0][1].num * a[1][0].num == 0) by (nonlinear_arith)
                requires
                    a[1][0].num == 0,
            ;
        } else {
            assert(a[0][0].num * a[1][1].num == 0) by (nonlinear_arith)
                requires
                    a[1][1].num == 0,
            ;
            assert(a[0][1].num * a[1][0].num == 0) by (nonlinear_arith)
                requires
                    a[0][1].num == 0,
            ;
        }
        assert(p.num * q.den - q.num * p.den == 0) by (nonlinear_arith)
            requires
                p.num == 0,
                q.num == 0,
        ;
    } else {
        lemma_expand_zero_col(a, c, a.len() as int);
    }
}

/// Every partial expansion of such a determinant denotes zero.
proof fn lemma_expand_zero_col(a: Seq<Seq<Rat>>, c: int, j: int)
    requires
        grid_wf(a),
        grid_rect(a, a.len() as nat),
        a.len() >= 3,
        0 <= c < a.len(),
        forall|i: int| 0 <= i < a.len() ==> (#[trigger] a[i][c]).num == 0,
        j <= a.len(),
    ensures
        spec_expand(a, j).num == 0,
    decreases a.len(), 0int, j,
{
    if j <= 0 {
    } else {
        lemma_expand_zero_col(a, c, j - 1);
        let prev = spec_expand(a, j - 1);
        let e = a[0][j - 1];
        let cof = spec_cof(a, 0, j - 1);
        let term = rat_mul(e, cof);
        if j - 1 == c {
            assert(e.num * cof.num == 0) by (nonlinear_arith)
                requires
                    e.num == 0,
            ;
        } else {
            lemma_submatrix_shape(a, a.len() as nat, 0, j - 1);
            let sub = spec_submatrix(a, 0, j - 1);
            let c2: int = if c < j - 1 {
                c
            } else {
                c - 1
            };
            assert forall|i: int| 0 <= i < sub.len() implies (#[trigger] sub[i][c2]).num == 0 by {
                if c < j - 1 {
                    assert(sub[i][c2] == a[i + 1][c]);
                } else {
                    assert(sub[i][c2] == a[i + 1][c]);
                }
            }
            lemma_det_zero_col(sub, c2);
            assert(spec_minor(a, 0, j - 1).num == 0);
            assert(cof.num == 0);
            assert(e.num * cof.num == 0) by (nonlinear_arith)
                requires
                    cof.num == 0,
            ;
        }
        assert(prev.num * term.den + term.num * prev.den == 0) by (nonlinear_arith)
            requires
                prev.num == 0,
                term.num == 0,
        ;
    }
}

/// The bounded mirror of [`spec_det2`].
pub open spec fn chk_det2(a: Seq<Seq<Rat>>) -> Option<Rat> {
    match rat_fit(rat_mul(a[0][0], a[1][1])) {
        None => None,
        Some(p) => match rat_fit(rat_mul(a[0][1], a[1][0])) {
            None => None,
            Some(q) => rat_fit(rat_sub(p, q)),
        },
    }
}

/// The bounded mirror of [`spec_det`].
pub open spec fn chk_det(a: Seq<Seq<Rat>>) -> Option<Rat>
    decreases a.len(), 3int, 0int,
{
    if a.len() <= 2 {
        chk_det2(a)
    } else {
        chk_expand(a, a.len() as int)
    }
}

/// The bounded mirror of [`spec_expand`].
pub open spec fn chk_expand(a: Seq<Seq<Rat>>, j: int) -> Option<Rat>
    decreases a.len(), 2int, j,
{
    if j <= 0 {
        Some(rat_zero())
    } else {
        match chk_expand(a, j - 1) {
            None => None,
            Some(acc) => match chk_cof(a, 0, j - 1) {
                None => None,
                Some(c) => match rat_fit(rat_mul(a[0][j - 1], c)) {
                    None => None,
                    Some(p) => rat_fit(rat_add(acc, p)),
                },
            },
        }
    }
}

/// The bounded mirror of [`spec_cof`].
pub open spec fn chk_cof(a: Seq<Seq<Rat>>, r: int, c: int) -> Option<Rat>
    decreases a.len(), 1int, 0int,
{
    match chk_minor(a, r, c) {
        None => None,
        Some(m) => if (r + c) % 2 == 0 {
            Some(m)
        } else {
            Some(rat_neg(m))
        },
    }
}

/// The bounded mirror of [`spec_minor`].
pub open spec fn chk_minor(a: Seq<Seq<Rat>>, r: int, c: int) -> Option<Rat>
    decreases a.len(), 0int, 0int,
{
    if a.len() == 0 {
        None
    } else {
        chk_det(spec_submatrix(a, r, c))
    }
}

/// A bounded determinant, when it exists, denotes the exact determinant.
pub proof fn lemma_chk_det_spec(a: Seq<Seq<Rat>>)
    requires
        grid_wf(a),
        grid_rect(a, a.len() as nat),
        a.len() >= 2,
    ensures
        rat_wf(spec_det(a)),
        chk_det(a) matches Some(s) ==> rat_wf(s) && rat_small(s) && rat_eq(s, spec_det(a)),
    decreases a.len(), 3int, 0int,
{
    if a.len() <= 2 {
        let p = rat_mul(a[0][0], a[1][1]);
        let q = rat_mul(a[0][1], a[1][0]);
        assert(rat_wf(a[0][0]) && rat_wf(a[0][1]) && rat_wf(a[1][0]) && rat_wf(a[1][1])) by {
            assert(row_wf(a[0]));
            assert(row_wf(a[1]));
        }
        lemma_mul_strictly_positive(a[0][0].den, a[1][1].den);
        lemma_mul_strictly_positive(a[0][1].den, a[1][0].den);
        lemma_mul_strictly_positive(p.den, q.den);
        if chk_det(a) is Some {
            lemma_norm_properties(p);
            lemma_norm_properties(q);
            let pp = rat_fit(p)->0;
            let qq = rat_fit(q)->0;
            let diff = rat_sub(pp, qq);
            lemma_mul_strictly_positive(pp.den, qq.den);
            lemma_norm_properties(diff);
            lemma_rat_sub_congruence(pp, qq, p, q);
            let s = chk_det(a)->0;
            lemma_rat_eq_trans(s, diff, rat_sub(p, q));
        }
    } else {
        lemma_chk_expand_spec(a, a.len() as int);
    }
}

/// A bounded partial expansion, when it exists, denotes the exact one.
pub proof fn lemma_chk_expand_spec(a: Seq<Seq<Rat>>, j: int)
    requires
        grid_wf(a),
        grid_rect(a, a.len() as nat),
        a.len() >= 3,
        j <= a.len(),
    ensures
        rat_wf(spec_expand(a, j)),
        chk_expand(a, j) matches Some(s) ==> rat_wf(s) && rat_small(s) && rat_eq(
            s,
            spec_expand(a, j),
        ),
    decreases a.len(), 2int, j,
{
    if j <= 0 {
    } else {
        lemma_chk_expand_spec(a, j - 1);
        lemma_chk_cof_spec(a, 0, j - 1);
        let prev = spec_expand(a, j - 1);
        let e = a[0][j - 1];
        assert(rat_wf(e)) by {
            assert(row_wf(a[0]));
        }
        let cof = spec_cof(a, 0, j - 1);
        let p = rat_mul(e, cof);
        lemma_mul_strictly_positive(e.den, cof.den);
        lemma_mul_strictly_positive(prev.den, p.den);
        if chk_expand(a, j) is Some {
            let acc = chk_expand(a, j - 1)->0;
            let cv = chk_cof(a, 0, j - 1)->0;
            let pc = rat_mul(e, cv);
            lemma_mul_strictly_positive(e.den, cv.den);
            lemma_norm_properties(pc);
            let pp = rat_fit(pc)->0;
            lemma_rat_mul_congruence(e, cv, e, cof);
            lemma_rat_eq_trans(pp, pc, p);
            let sum = rat_add(acc, pp);
            lemma_mul_strictly_positive(acc.den, pp.den);
            lemma_norm_properties(sum);
            lemma_rat_add_congruence(acc, pp, prev, p);
            let s = chk_expand(a, j)->0;
            lemma_rat_eq_trans(s, sum, rat_add(prev, p));
        }
    }
}

/// A bounded cofactor, when it exists, denotes the exact cofactor.
pub proof fn lemma_chk_cof_spec(a: Seq<Seq<Rat>>, r: int, c: int)
    requires
        grid_wf(a),
        grid_rect(a, a.len() as nat),
        a.len() >= 3,
        0 <= r < a.len(),
        0 <= c < a.len(),
    ensures
        rat_wf(spec_cof(a, r, c)),
        chk_cof(a, r, c) matches Some(s) ==> rat_wf(s) && rat_small(s) && rat_eq(
            s,
            spec_cof(a, r, c),
        ),
    decreases a.len(), 1int, 0int,
{
    lemma_chk_minor_spec(a, r, c);
    if chk_cof(a, r, c) is Some && (r + c) % 2 != 0 {
        let m = chk_minor(a, r, c)->0;
        lemma_rat_neg_congruence(m, spec_minor(a, r, c));
    }
}

/// A bounded minor, when it exists, denotes the exact minor.
pub proof fn lemma_chk_minor_spec(a: Seq<Seq<Rat>>, r: int, c: int)
    requires
        grid_wf(a),
        grid_rect(a, a.len() as nat),
        a.len() >= 3,
        0 <= r < a.len(),
        0 <= c < a.len(),
    ensures
        rat_wf(spec_minor(a, r, c)),
        chk_minor(a, r, c) matches Some(s) ==> rat_wf(s) && rat_small(s) && rat_eq(
            s,
            spec_minor(a, r, c),
        ),
    decreases a.len(), 0int, 0int,
{
    lemma_submatrix_shape(a, a.len() as nat, r, c);
    lemma_chk_det_spec(spec_submatrix(a, r, c));
}

} // verus!
