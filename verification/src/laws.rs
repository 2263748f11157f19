//! The general laws of the kernel, proved once and for all over the
//! mathematical model: the comparison tolerance is reflexive and tolerant,
//! the identity matrix is neutral for multiplication, transposition is an
//! involution, the determinant of every identity matrix is one, and the
//! adjugate inverse of an invertible diagonal matrix (the shape of every
//! scale transform) undoes and is undone by the matrix itself.

use crate::compare::spec_eps_eq;
use crate::linalg::{
    grid_col, grid_rat_eq, grid_rect, grid_wf, lemma_chk_cof_spec, lemma_chk_det_spec,
    lemma_chk_dot_spec, lemma_chk_expand_spec, lemma_submatrix_shape, row_wf, spec_cof, spec_det,
    spec_dot, spec_expand, spec_identity, spec_inverse, spec_mat_mul, spec_minor, spec_submatrix,
    spec_transpose,
};
use crate::rational::{
    lemma_rat_add_zero, lemma_rat_eq_trans, lemma_rat_mul_assoc, lemma_rat_mul_comm,
    lemma_rat_mul_congruence, lemma_rat_mul_one, lemma_rat_mul_zero, rat_add, rat_div, rat_eq,
    rat_mul, rat_one, rat_wf, rat_zero, Rat,
};
use vstd::arithmetic::mul::lemma_mul_strictly_positive;
use vstd::prelude::*;

verus! {

/// The comparison tolerance is reflexive: every value is within tolerance
/// of itself.
pub proof fn lemma_eps_eq_reflexive(a: Rat)
    requires
        rat_wf(a),
    ensures
        spec_eps_eq(a, a),
{
    lemma_mul_strictly_positive(a.den, a.den);
}

/// The comparison tolerance absorbs tiny perturbations: adding one
/// ten-millionth leaves a value within tolerance of itself.
pub proof fn lemma_eps_eq_tolerant(a: Rat)
    requires
        rat_wf(a),
    ensures
        spec_eps_eq(a, rat_add(a, Rat { num: 1, den: 10000000 })),
{
    let t = Rat { num: 1, den: 10000000 };
    let s = rat_add(a, t);
    let d = crate::rational::rat_sub(a, s);
    assert(d.num == -(a.den * a.den) && d.den == a.den * (a.den * 10000000)) by (nonlinear_arith)
        requires
            s.num == a.num * 10000000 + 1 * a.den,
            s.den == a.den * 10000000,
            d.num == a.num * s.den - s.num * a.den,
            d.den == a.den * s.den,
    ;
    assert((a.den * a.den) * 10000 < 1 * (a.den * (a.den * 10000000))) by (nonlinear_arith)
        requires
            a.den > 0,
    ;
}

/// The comparison tolerance does not absorb a whole unit: a value and
/// that value plus one are never within tolerance.
pub proof fn lemma_eps_eq_separated(a: Rat)
    requires
        rat_wf(a),
    ensures
        !spec_eps_eq(a, rat_add(a, rat_one())),
{
    let s = rat_add(a, rat_one());
    let d = crate::rational::rat_sub(a, s);
    assert(d.num == -(a.den * a.den) && d.den == a.den * (a.den * 1)) by (nonlinear_arith)
        requires
            s.num == a.num * 1 + 1 * a.den,
            s.den == a.den * 1,
            d.num == a.num * s.den - s.num * a.den,
            d.den == a.den * s.den,
    ;
    assert(!((a.den * a.den) * 10000 < 1 * (a.den * (a.den * 1)))) by (nonlinear_arith)
        requires
            a.den > 0,
    ;
}

/// Exact equality of values lies within the comparison tolerance.
pub proof fn lemma_rat_eq_within_tolerance(a: Rat, b: Rat)
    requires
        rat_wf(a),
        rat_wf(b),
        rat_eq(a, b),
    ensures
        spec_eps_eq(a, b),
{
    lemma_mul_strictly_positive(a.den, b.den);
}

/// Grids that denote the same rationals entrywise compare equal within
/// the tolerance, so the structural comparison accepts them.
pub proof fn lemma_grid_rat_eq_within_tolerance(a: Seq<Seq<Rat>>, b: Seq<Seq<Rat>>)
    requires
        grid_wf(a),
        grid_wf(b),
        grid_rat_eq(a, b),
    ensures
        crate::linalg::grid_eps_eq(a, b),
{
    assert forall|i: int, j: int| 0 <= i < a.len() && 0 <= j < a[i].len() implies spec_eps_eq(
        #[trigger] a[i][j],
        b[i][j],
    ) by {
        assert(row_wf(a[i]) && row_wf(b[i]));
        lemma_rat_eq_within_tolerance(a[i][j], b[i][j]);
    }
}

/// The dot product of the `i`-th identity row with the first `k` entries
/// of `v` denotes `v[i]` when `i < k`, and zero otherwise.
proof fn lemma_dot_unit_row(n: nat, i: int, v: Seq<Rat>, k: nat)
    requires
        0 <= i < n,
        k <= n,
        k <= v.len(),
        forall|t: int| 0 <= t < k ==> rat_wf(#[trigger] v[t]),
    ensures
        rat_wf(spec_dot(spec_identity(n)[i], v, k)),
        i < k ==> rat_eq(spec_dot(spec_identity(n)[i], v, k), v[i]),
        i >= k ==> rat_eq(spec_dot(spec_identity(n)[i], v, k), rat_zero()),
    decreases k,
{
    let e = spec_identity(n)[i];
    if k == 0 {
    } else {
        let km1 = (k - 1) as nat;
        lemma_dot_unit_row(n, i, v, km1);
        let prev = spec_dot(e, v, km1);
        let term = rat_mul(e[k - 1], v[k - 1]);
        lemma_mul_strictly_positive(e[k - 1].den, v[k - 1].den);
        lemma_mul_strictly_positive(prev.den, term.den);
        if i == k - 1 {
            lemma_rat_mul_one(e[k - 1], v[k - 1]);
            lemma_rat_add_zero(term, prev);
            lemma_rat_eq_trans(rat_add(prev, term), term, v[i]);
        } else {
            lemma_rat_mul_zero(term, v[k - 1]);
            assert(rat_eq(term, rat_zero()));
            lemma_rat_add_zero(prev, term);
            if i < k - 1 {
                lemma_rat_eq_trans(rat_add(prev, term), prev, v[i]);
            } else {
                lemma_rat_eq_trans(rat_add(prev, term), prev, rat_zero());
            }
        }
    }
}

/// The dot product of the first `k` entries of `u` with the `j`-th
/// identity column denotes `u[j]` when `j < k`, and zero otherwise.
proof fn lemma_dot_unit_col(n: nat, j: int, u: Seq<Rat>, k: nat)
    requires
        0 <= j < n,
        k <= n,
        k <= u.len(),
        forall|t: int| 0 <= t < k ==> rat_wf(#[trigger] u[t]),
    ensures
        rat_wf(spec_dot(u, grid_col(spec_identity(n), j), k)),
        j < k ==> rat_eq(spec_dot(u, grid_col(spec_identity(n), j), k), u[j]),
        j >= k ==> rat_eq(spec_dot(u, grid_col(spec_identity(n), j), k), rat_zero()),
    decreases k,
{
    let e = grid_col(spec_identity(n), j);
    if k == 0 {
    } else {
        let km1 = (k - 1) as nat;
        lemma_dot_unit_col(n, j, u, km1);
        let prev = spec_dot(u, e, km1);
        let term = rat_mul(u[k - 1], e[k - 1]);
        lemma_mul_strictly_positive(u[k - 1].den, e[k - 1].den);
        lemma_mul_strictly_positive(prev.den, term.den);
        if j == k - 1 {
            lemma_rat_mul_one(e[k - 1], u[k - 1]);
            lemma_rat_add_zero(term, prev);
            lemma_rat_eq_trans(rat_add(prev, term), term, u[j]);
        } else {
            lemma_rat_mul_zero(e[k - 1], u[k - 1]);
            assert(rat_eq(term, rat_zero()));
            lemma_rat_add_zero(prev, term);
            if j < k - 1 {
                lemma_rat_eq_trans(rat_add(prev, term), prev, u[j]);
            } else {
                lemma_rat_eq_trans(rat_add(prev, term), prev, rat_zero());
            }
        }
    }
}

/// Multiplying by the identity on the left leaves a matrix unchanged:
/// `identity(n) * M` denotes `M` entrywise, for any grid `M` with `n`
/// rows.
pub proof fn lemma_identity_mul_left(b: Seq<Seq<Rat>>, n: nat, w: nat)
    requires
        grid_wf(b),
        grid_rect(b, w),
        b.len() == n,
    ensures
        grid_rat_eq(spec_mat_mul(spec_identity(n), b, w), b),
{
    let p = spec_mat_mul(spec_identity(n), b, w);
    assert forall|i: int, j: int| 0 <= i < p.len() && 0 <= j < p[i].len() implies rat_eq(
        #[trigger] p[i][j],
        b[i][j],
    ) by {
        let v = grid_col(b, j);
        assert forall|t: int| 0 <= t < n implies rat_wf(#[trigger] v[t]) by {
            assert(row_wf(b[t]));
        }
        lemma_dot_unit_row(n, i, v, n);
        assert(p[i][j] == spec_dot(spec_identity(n)[i], v, n));
        assert(v[i] == b[i][j]);
    }
}

/// Multiplying by the identity on the right leaves a square matrix
/// unchanged: `M * identity(n)` denotes `M` entrywise, for any grid `M`
/// of shape `n` by `n`.
pub proof fn lemma_identity_mul_right(a: Seq<Seq<Rat>>, n: nat)
    requires
        grid_wf(a),
        grid_rect(a, n),
        a.len() == n,
    ensures
        grid_rat_eq(spec_mat_mul(a, spec_identity(n), n), a),
{
    let p = spec_mat_mul(a, spec_identity(n), n);
    assert forall|i: int, j: int| 0 <= i < p.len() && 0 <= j < p[i].len() implies rat_eq(
        #[trigger] p[i][j],
        a[i][j],
    ) by {
        let u = a[i];
        assert(row_wf(u));
        lemma_dot_unit_col(n, j, u, n);
        assert(p[i][j] == spec_dot(u, grid_col(spec_identity(n), j), n));
    }
}

/// Transposition is an involution: transposing twice gives back the
/// original grid, for any rectangular grid.
pub proof fn lemma_transpose_involution(a: Seq<Seq<Rat>>, w: nat)
    requires
        grid_rect(a, w),
    ensures
        spec_transpose(spec_transpose(a, w), a.len() as nat) == a,
{
    let t = spec_transpose(a, w);
    let tt = spec_transpose(t, a.len() as nat);
    assert forall|i: int| 0 <= i < a.len() implies tt[i] =~= a[i] by {
        assert(a[i].len() == w);
        assert forall|j: int| 0 <= j < w implies tt[i][j] == a[i][j] by {
            assert(t[j][i] == a[i][j]);
        }
    }
    assert(tt =~= a);
}

/// The determinant of every identity matrix is one.
pub proof fn lemma_det_identity(n: nat)
    requires
        n >= 2,
    ensures
        rat_eq(spec_det(spec_identity(n)), rat_one()),
    decreases n,
{
    let a = spec_identity(n);
    lemma_identity_shape(n);
    if n == 2 {
        assert(a[0][0] == rat_one() && a[1][1] == rat_one() && a[0][1] == rat_zero() && a[1][0]
            == rat_zero());
        assert(spec_det(a) == crate::linalg::spec_det2(a));
        assert(crate::linalg::spec_det2(a).num == 1 && crate::linalg::spec_det2(a).den == 1)
            by (nonlinear_arith)
            requires
                a[0][0] == rat_one(),
                a[1][1] == rat_one(),
                a[0][1] == rat_zero(),
                a[1][0] == rat_zero(),
        ;
    } else {
        lemma_det_identity((n - 1) as nat);
        lemma_expand_identity(n, n as int);
        let c = spec_cof(a, 0, 0);
        assert(c == spec_minor(a, 0, 0));
        lemma_submatrix_shape(a, n, 0, 0);
        let sub = spec_submatrix(a, 0, 0);
        assert forall|i: int| 0 <= i < n - 1 implies sub[i] =~= spec_identity((n - 1) as nat)[i] by {
            assert forall|j: int| 0 <= j < n - 1 implies sub[i][j] == spec_identity(
                (n - 1) as nat,
            )[i][j] by {
                assert(sub[i][j] == a[i + 1][j + 1]);
            }
        }
        assert(sub =~= spec_identity((n - 1) as nat));
        assert(spec_det(a) == spec_expand(a, n as int));
        lemma_chk_expand_spec(a, n as int);
        lemma_chk_cof_spec(a, 0, 0);
        lemma_rat_eq_trans(spec_expand(a, n as int), c, rat_one());
    }
}

/// A fraction written over one with a numerator of magnitude at most one
/// is already reduced and always fits the bounded representation.
proof fn lemma_fit_unit(v: Rat)
    requires
        v.den == 1,
        -1 <= v.num <= 1,
    ensures
        crate::scalar::rat_fit(v) == Some(v),
{
    reveal_with_fuel(crate::rational::gcd, 4);
    assert(crate::rational::gcd(0, 1) == 1);
    assert(crate::rational::gcd(1, 1) == 1);
    assert(crate::rational::abs_int(v.num) == 0 || crate::rational::abs_int(v.num) == 1);
    assert(crate::rational::rat_norm(v) == v);
    assert(crate::scalar::rat_small(v));
}

/// Unit numerators multiply without growing: the product of a zero-or-one
/// numerator with any other numerator is zero or that numerator.
proof fn lemma_unit_mul(x: Rat, y: Rat)
    requires
        x == rat_zero() || x == rat_one(),
        y.den == 1,
    ensures
        rat_mul(x, y).den == 1,
        x == rat_zero() ==> rat_mul(x, y).num == 0,
        x == rat_one() ==> rat_mul(x, y).num == y.num,
{
    if x == rat_zero() {
        assert(x.num * y.num == 0 && x.den * y.den == 1) by (nonlinear_arith)
            requires
                x.num == 0,
                x.den == 1,
                y.den == 1,
        ;
    } else {
        assert(x.num * y.num == y.num && x.den * y.den == 1) by (nonlinear_arith)
            requires
                x.num == 1,
                x.den == 1,
                y.den == 1,
        ;
    }
}

/// A square grid of exact zeroes and ones with at most one one per row
/// and at most one one per column: the shape of an identity matrix and of
/// everything its submatrices recurse into.
pub open spec fn sel_grid(a: Seq<Seq<Rat>>) -> bool {
    &&& grid_rect(a, a.len() as nat)
    &&& (forall|i: int, j: int|
        0 <= i < a.len() && 0 <= j < a.len() ==> ((#[trigger] a[i][j]) == rat_zero() || a[i][j]
            == rat_one()))
    &&& (forall|i: int, j1: int, j2: int|
        0 <= i < a.len() && 0 <= j1 < a.len() && 0 <= j2 < a.len() && j1 != j2 ==> !((
        #[trigger] a[i][j1]) == rat_one() && (#[trigger] a[i][j2]) == rat_one()))
    &&& (forall|i1: int, i2: int, j: int|
        0 <= i1 < a.len() && 0 <= i2 < a.len() && 0 <= j < a.len() && i1 != i2 ==> !((
        #[trigger] a[i1][j]) == rat_one() && (#[trigger] a[i2][j]) == rat_one()))
}

/// Such a grid is well-formed.
proof fn lemma_sel_wf(a: Seq<Seq<Rat>>)
    requires
        sel_grid(a),
    ensures
        grid_wf(a),
{
    assert forall|i: int| 0 <= i < a.len() implies row_wf(#[trigger] a[i]) by {
        assert forall|j: int| 0 <= j < a[i].len() implies rat_wf(#[trigger] a[i][j]) by {
            assert(a[i][j] == rat_zero() || a[i][j] == rat_one());
        }
    }
}

/// Removing one row and one column from such a grid leaves such a grid.
proof fn lemma_sel_submatrix(a: Seq<Seq<Rat>>, r: int, c: int)
    requires
        sel_grid(a),
        a.len() >= 1,
        0 <= r < a.len(),
        0 <= c < a.len(),
    ensures
        sel_grid(spec_submatrix(a, r, c)),
        spec_submatrix(a, r, c).len() == a.len() - 1,
{
    lemma_sel_wf(a);
    lemma_submatrix_shape(a, a.len() as nat, r, c);
    let s = spec_submatrix(a, r, c);
    assert forall|i: int, j: int| 0 <= i < s.len() && 0 <= j < s.len() implies ((
    #[trigger] s[i][j]) == rat_zero() || s[i][j] == rat_one()) by {
        assert(s[i][j] == a[if i < r {
            i
        } else {
            i + 1
        }][if j < c {
            j
        } else {
            j + 1
        }]);
    }
    assert forall|i: int, j1: int, j2: int|
        0 <= i < s.len() && 0 <= j1 < s.len() && 0 <= j2 < s.len() && j1 != j2 implies !((
    #[trigger] s[i][j1]) == rat_one() && (#[trigger] s[i][j2]) == rat_one()) by {
        let si = if i < r {
            i
        } else {
            i + 1
        };
        let sj1 = if j1 < c {
            j1
        } else {
            j1 + 1
        };
        let sj2 = if j2 < c {
            j2
        } else {
            j2 + 1
        };
        assert(s[i][j1] == a[si][sj1] && s[i][j2] == a[si][sj2]);
        assert(sj1 != sj2);
    }
    assert forall|i1: int, i2: int, j: int|
        0 <= i1 < s.len() && 0 <= i2 < s.len() && 0 <= j < s.len() && i1 != i2 implies !((
    #[trigger] s[i1][j]) == rat_one() && (#[trigger] s[i2][j]) == rat_one()) by {
        let si1 = if i1 < r {
            i1
        } else {
            i1 + 1
        };
        let si2 = if i2 < r {
            i2
        } else {
            i2 + 1
        };
        let sj = if j < c {
            j
        } else {
            j + 1
        };
        assert(s[i1][j] == a[si1][sj] && s[i2][j] == a[si2][sj]);
        assert(si1 != si2);
    }
}

/// The bounded determinant of such a grid always succeeds, with a value
/// of minus one, zero or one written over one.
proof fn lemma_chk_det_sel(a: Seq<Seq<Rat>>)
    requires
        sel_grid(a),
        a.len() >= 2,
    ensures
        crate::linalg::chk_det(a) matches Some(s) && s.den == 1 && -1 <= s.num <= 1,
    decreases a.len(), 3int, 0int,
{
    if a.len() == 2 {
        let p = rat_mul(a[0][0], a[1][1]);
        let q = rat_mul(a[0][1], a[1][0]);
        assert(a[0][0] == rat_zero() || a[0][0] == rat_one());
        assert(a[0][1] == rat_zero() || a[0][1] == rat_one());
        assert(a[1][0] == rat_zero() || a[1][0] == rat_one());
        assert(a[1][1] == rat_zero() || a[1][1] == rat_one());
        lemma_unit_mul(a[0][0], a[1][1]);
        lemma_unit_mul(a[0][1], a[1][0]);
        assert(p.den == 1 && 0 <= p.num <= 1);
        assert(q.den == 1 && 0 <= q.num <= 1);
        lemma_fit_unit(p);
        lemma_fit_unit(q);
        let d = crate::rational::rat_sub(p, q);
        assert(d.den == 1 && -1 <= d.num <= 1);
        lemma_fit_unit(d);
    } else {
        lemma_chk_expand_sel(a, a.len() as int);
    }
}

/// Every bounded partial expansion of such a grid succeeds; the partial
/// value is minus one, zero or one over one, and it is nonzero only when
/// an already-expanded entry of the first row is a one.
proof fn lemma_chk_expand_sel(a: Seq<Seq<Rat>>, j: int)
    requires
        sel_grid(a),
        a.len() >= 3,
        0 <= j <= a.len(),
    ensures
        crate::linalg::chk_expand(a, j) matches Some(s) && s.den == 1 && -1 <= s.num <= 1 && (
        s.num != 0 ==> exists|t: int| 0 <= t < j && (#[trigger] a[0][t]) == rat_one()),
    decreases a.len(), 2int, j,
{
    if j <= 0 {
    } else {
        lemma_chk_expand_sel(a, j - 1);
        lemma_chk_cof_sel(a, 0, j - 1);
        let acc = crate::linalg::chk_expand(a, j - 1)->0;
        let cv = crate::linalg::chk_cof(a, 0, j - 1)->0;
        let e = a[0][j - 1];
        assert(e == rat_zero() || e == rat_one());
        let term = rat_mul(e, cv);
        lemma_unit_mul(e, cv);
        assert(term.den == 1 && -1 <= term.num <= 1);
        lemma_fit_unit(term);
        let sum = rat_add(acc, term);
        assert(sum.den == 1 && sum.num == acc.num + term.num);
        if acc.num != 0 && term.num != 0 {
            // two ones in the first row: impossible
            let t = choose|t: int| 0 <= t < j - 1 && (#[trigger] a[0][t]) == rat_one();
            assert(e == rat_one());
            assert(false);
        }
        assert(-1 <= sum.num <= 1);
        lemma_fit_unit(sum);
        if sum.num != 0 {
            if acc.num != 0 {
                let t = choose|t: int| 0 <= t < j - 1 && (#[trigger] a[0][t]) == rat_one();
                assert(0 <= t < j && a[0][t] == rat_one());
            } else {
                assert(e == rat_one());
                assert(0 <= j - 1 < j && a[0][j - 1] == rat_one());
            }
        }
    }
}

/// The bounded cofactors of such a grid succeed with unit values.
proof fn lemma_chk_cof_sel(a: Seq<Seq<Rat>>, r: int, c: int)
    requires
        sel_grid(a),
        a.len() >= 3,
        0 <= r < a.len(),
        0 <= c < a.len(),
    ensures
        crate::linalg::chk_cof(a, r, c) matches Some(s) && s.den == 1 && -1 <= s.num <= 1,
    decreases a.len(), 1int, 0int,
{
    lemma_chk_minor_sel(a, r, c);
}

/// The bounded minors of such a grid succeed with unit values.
proof fn lemma_chk_minor_sel(a: Seq<Seq<Rat>>, r: int, c: int)
    requires
        sel_grid(a),
        a.len() >= 3,
        0 <= r < a.len(),
        0 <= c < a.len(),
    ensures
        crate::linalg::chk_minor(a, r, c) matches Some(s) && s.den == 1 && -1 <= s.num <= 1,
    decreases a.len(), 0int, 0int,
{
    lemma_sel_submatrix(a, r, c);
    lemma_chk_det_sel(spec_submatrix(a, r, c));
}

/// The bounded determinant computation of an identity matrix always
/// succeeds — every intermediate value is minus one, zero or one — and
/// its value denotes one: the executable determinant is total on
/// identity matrices.
pub proof fn lemma_det_identity_computes(n: nat)
    requires
        n >= 2,
    ensures
        crate::linalg::chk_det(spec_identity(n)) matches Some(s) && rat_eq(s, rat_one()),
{
    let a = spec_identity(n);
    lemma_identity_shape(n);
    assert(sel_grid(a)) by {
        assert forall|i: int, j: int| 0 <= i < a.len() && 0 <= j < a.len() implies ((
        #[trigger] a[i][j]) == rat_zero() || a[i][j] == rat_one()) by {}
    }
    lemma_chk_det_sel(a);
    lemma_chk_det_spec(a);
    lemma_det_identity(n);
    let s = crate::linalg::chk_det(a)->0;
    lemma_rat_eq_trans(s, spec_det(a), rat_one());
}

/// A square grid is diagonal when every off-diagonal entry denotes zero.
pub open spec fn grid_diag(a: Seq<Seq<Rat>>, n: nat) -> bool {
    &&& a.len() == n
    &&& grid_rect(a, n)
    &&& grid_wf(a)
    &&& forall|i: int, j: int|
        0 <= i < n && 0 <= j < n && i != j ==> (#[trigger] a[i][j]).num == 0
}

/// The product of the first `k` diagonal entries, folded from one.
pub open spec fn diag_prod(a: Seq<Seq<Rat>>, k: int) -> Rat
    decreases k,
{
    if k <= 0 {
        rat_one()
    } else {
        rat_mul(diag_prod(a, k - 1), a[k - 1][k - 1])
    }
}

/// The diagonal product of a diagonal grid is well-formed.
proof fn lemma_diag_prod_wf(a: Seq<Seq<Rat>>, n: nat, k: int)
    requires
        grid_diag(a, n),
        0 <= k <= n,
    ensures
        rat_wf(diag_prod(a, k)),
    decreases k,
{
    if k > 0 {
        lemma_diag_prod_wf(a, n, k - 1);
        assert(row_wf(a[k - 1]));
        lemma_mul_strictly_positive(diag_prod(a, k - 1).den, a[k - 1][k - 1].den);
    }
}

/// Removing row `i` and column `i` from a diagonal grid leaves a diagonal
/// grid whose diagonal skips the `i`-th entry.
proof fn lemma_sub_diag(a: Seq<Seq<Rat>>, n: nat, i: int)
    requires
        grid_diag(a, n),
        n >= 1,
        0 <= i < n,
    ensures
        grid_diag(spec_submatrix(a, i, i), (n - 1) as nat),
        forall|t: int|
            0 <= t < n - 1 ==> #[trigger] spec_submatrix(a, i, i)[t][t] == a[if t < i {
                t
            } else {
                t + 1
            }][if t < i {
                t
            } else {
                t + 1
            }],
{
    lemma_submatrix_shape(a, n, i, i);
    let sub = spec_submatrix(a, i, i);
    assert forall|t: int, u: int| 0 <= t < n - 1 && 0 <= u < n - 1 && t != u implies (
    #[trigger] sub[t][u]).num == 0 by {
        let st = if t < i {
            t
        } else {
            t + 1
        };
        let su = if u < i {
            u
        } else {
            u + 1
        };
        assert(sub[t][u] == a[st][su]);
        assert(st != su);
    }
}

/// The first `j` expansion terms of a diagonal determinant denote the
/// top-left entry times the top-left cofactor.
proof fn lemma_expand_diag(a: Seq<Seq<Rat>>, n: nat, j: int)
    requires
        grid_diag(a, n),
        n >= 3,
        1 <= j <= n,
    ensures
        rat_wf(spec_expand(a, j)),
        rat_eq(spec_expand(a, j), rat_mul(a[0][0], spec_cof(a, 0, 0))),
    decreases j,
{
    lemma_chk_expand_spec(a, j);
    lemma_chk_expand_spec(a, j - 1);
    lemma_chk_cof_spec(a, 0, j - 1);
    lemma_chk_cof_spec(a, 0, 0);
    assert(row_wf(a[0]));
    let prev = spec_expand(a, j - 1);
    let c = spec_cof(a, 0, j - 1);
    let term = rat_mul(a[0][j - 1], c);
    let goal = rat_mul(a[0][0], spec_cof(a, 0, 0));
    lemma_mul_strictly_positive(a[0][j - 1].den, c.den);
    lemma_mul_strictly_positive(a[0][0].den, spec_cof(a, 0, 0).den);
    lemma_mul_strictly_positive(prev.den, term.den);
    if j == 1 {
        lemma_rat_add_zero(term, prev);
        lemma_rat_eq_trans(rat_add(prev, term), term, goal);
    } else {
        lemma_expand_diag(a, n, j - 1);
        assert(a[0][j - 1].num == 0);
        assert(term.num == 0) by (nonlinear_arith)
            requires
                term.num == a[0][j - 1].num * c.num,
                a[0][j - 1].num == 0,
        ;
        assert(0 * term.den == 0) by (nonlinear_arith);
        assert(rat_eq(term, rat_zero()));
        lemma_rat_add_zero(prev, term);
        lemma_rat_eq_trans(rat_add(prev, term), prev, goal);
    }
}

/// The determinant of a diagonal grid denotes the product of its
/// diagonal.
pub proof fn lemma_det_diag(a: Seq<Seq<Rat>>, n: nat)
    requires
        grid_diag(a, n),
        n >= 2,
    ensures
        rat_wf(spec_det(a)),
        rat_eq(spec_det(a), diag_prod(a, n as int)),
    decreases n,
{
    lemma_chk_det_spec(a);
    lemma_diag_prod_wf(a, n, n as int);
    assert(row_wf(a[0]) && row_wf(a[1]));
    if n == 2 {
        let p = rat_mul(a[0][0], a[1][1]);
        let q = rat_mul(a[0][1], a[1][0]);
        let d2 = crate::linalg::spec_det2(a);
        lemma_mul_strictly_positive(a[0][0].den, a[1][1].den);
        lemma_mul_strictly_positive(a[0][1].den, a[1][0].den);
        assert(q.num == 0) by (nonlinear_arith)
            requires
                q.num == a[0][1].num * a[1][0].num,
                a[0][1].num == 0,
        ;
        assert(rat_eq(d2, p)) by (nonlinear_arith)
            requires
                d2.num == p.num * q.den - q.num * p.den,
                d2.den == p.den * q.den,
                q.num == 0,
        ;
        let dp = diag_prod(a, 2);
        reveal_with_fuel(diag_prod, 3);
        lemma_rat_mul_one(rat_one(), a[0][0]);
        lemma_mul_strictly_positive(rat_one().den, a[0][0].den);
        lemma_rat_mul_congruence(rat_mul(rat_one(), a[0][0]), a[1][1], a[0][0], a[1][1]);
        lemma_mul_strictly_positive(rat_mul(rat_one(), a[0][0]).den, a[1][1].den);
        lemma_rat_eq_trans(d2, p, dp);
    } else {
        lemma_expand_diag(a, n, n as int);
        lemma_sub_diag(a, n, 0);
        let sub = spec_submatrix(a, 0, 0);
        lemma_det_diag(sub, (n - 1) as nat);
        lemma_chk_cof_spec(a, 0, 0);
        let c = spec_cof(a, 0, 0);
        assert(c == crate::linalg::spec_minor(a, 0, 0));
        assert(c == spec_det(sub));
        lemma_diag_prod_wf(sub, (n - 1) as nat, n - 1);
        lemma_rat_mul_congruence(a[0][0], c, a[0][0], diag_prod(sub, n - 1));
        lemma_diag_prod_insert(a, n, 0, n - 1);
        lemma_mul_strictly_positive(a[0][0].den, c.den);
        lemma_mul_strictly_positive(a[0][0].den, diag_prod(sub, n - 1).den);
        lemma_rat_mul_comm(a[0][0], diag_prod(sub, n - 1));
        lemma_mul_strictly_positive(diag_prod(sub, n - 1).den, a[0][0].den);
        lemma_rat_eq_trans(
            spec_expand(a, n as int),
            rat_mul(a[0][0], c),
            rat_mul(a[0][0], diag_prod(sub, n - 1)),
        );
        lemma_rat_eq_trans(
            spec_expand(a, n as int),
            rat_mul(a[0][0], diag_prod(sub, n - 1)),
            diag_prod(a, n as int),
        );
    }
}

/// Multiplying the partial diagonal product of the submatrix at `(i, i)`
/// by the skipped entry gives the partial diagonal product of the whole
/// grid.
proof fn lemma_diag_prod_insert(a: Seq<Seq<Rat>>, n: nat, i: int, k: int)
    requires
        grid_diag(a, n),
        n >= 1,
        0 <= i < n,
        0 <= k <= n - 1,
    ensures
        k <= i ==> diag_prod(spec_submatrix(a, i, i), k) == diag_prod(a, k),
        k >= i ==> rat_eq(
            rat_mul(diag_prod(spec_submatrix(a, i, i), k), a[i][i]),
            diag_prod(a, k + 1),
        ),
    decreases k,
{
    lemma_sub_diag(a, n, i);
    let sub = spec_submatrix(a, i, i);
    assert(row_wf(a[i]));
    lemma_diag_prod_wf(a, n, k);
    lemma_diag_prod_wf(sub, (n - 1) as nat, k);
    if k == 0 {
        if i == 0 {
            lemma_rat_mul_one(rat_one(), a[i][i]);
            lemma_mul_strictly_positive(rat_one().den, a[i][i].den);
        }
    } else {
        lemma_diag_prod_insert(a, n, i, k - 1);
        lemma_diag_prod_wf(a, n, k - 1);
        lemma_diag_prod_wf(sub, (n - 1) as nat, k - 1);
        if k <= i {
            assert(sub[k - 1][k - 1] == a[k - 1][k - 1]);
            if k == i {
                // the part just proved gives structural equality at k, so
                // appending the skipped entry is the definition itself
                assert(diag_prod(sub, k) == diag_prod(a, k));
                assert(rat_mul(diag_prod(a, k), a[i][i]) == diag_prod(a, k + 1));
                lemma_diag_prod_wf(a, n, k + 1);
            }
        } else {
            assert(sub[k - 1][k - 1] == a[k][k]);
            let x = diag_prod(sub, k - 1);
            let s = a[k][k];
            let y = a[i][i];
            assert(row_wf(a[k]));
            lemma_rat_mul_assoc(x, s, y);
            lemma_rat_mul_comm(s, y);
            lemma_rat_mul_assoc(x, y, s);
            assert(rat_mul(rat_mul(x, s), y) == rat_mul(rat_mul(x, y), s));
            lemma_mul_strictly_positive(x.den, y.den);
            lemma_rat_mul_congruence(rat_mul(x, y), s, diag_prod(a, k), s);
            lemma_mul_strictly_positive(rat_mul(x, y).den, s.den);
            lemma_mul_strictly_positive(diag_prod(a, k).den, s.den);
            lemma_rat_eq_trans(
                rat_mul(rat_mul(x, s), y),
                rat_mul(rat_mul(x, y), s),
                diag_prod(a, k + 1),
            );
        }
    }
}

/// The off-diagonal cofactors of a diagonal grid denote zero: their
/// submatrices keep an all-zero column.
proof fn lemma_cof_diag_offdiag(a: Seq<Seq<Rat>>, n: nat, r: int, c: int)
    requires
        grid_diag(a, n),
        n >= 3,
        0 <= r < n,
        0 <= c < n,
        r != c,
    ensures
        spec_cof(a, r, c).num == 0,
{
    lemma_submatrix_shape(a, n, r, c);
    let sub = spec_submatrix(a, r, c);
    let zc: int = if r < c {
        r
    } else {
        r - 1
    };
    assert forall|t: int| 0 <= t < sub.len() implies (#[trigger] sub[t][zc]).num == 0 by {
        let st = if t < r {
            t
        } else {
            t + 1
        };
        assert(sub[t][zc] == a[st][r]);
        assert(st != r);
    }
    crate::linalg::lemma_det_zero_col(sub, zc);
    assert(crate::linalg::spec_minor(a, r, c).num == 0);
}

/// A dot product against a row whose entries other than `i` denote zero
/// reduces to the single product at `i`.
proof fn lemma_dot_single_row(u: Seq<Rat>, v: Seq<Rat>, i: int, k: nat)
    requires
        forall|t: int| 0 <= t < k ==> rat_wf(#[trigger] u[t]),
        forall|t: int| 0 <= t < k ==> rat_wf(#[trigger] v[t]),
        0 <= i,
        forall|t: int| 0 <= t < k && t != i ==> (#[trigger] u[t]).num == 0,
    ensures
        rat_wf(spec_dot(u, v, k)),
        i < k ==> rat_eq(spec_dot(u, v, k), rat_mul(u[i], v[i])),
        i >= k ==> rat_eq(spec_dot(u, v, k), rat_zero()),
    decreases k,
{
    lemma_chk_dot_spec(u, v, k);
    if k == 0 {
    } else {
        let km1 = (k - 1) as nat;
        lemma_dot_single_row(u, v, i, km1);
        let prev = spec_dot(u, v, km1);
        let term = rat_mul(u[k - 1], v[k - 1]);
        lemma_mul_strictly_positive(u[k - 1].den, v[k - 1].den);
        lemma_mul_strictly_positive(prev.den, term.den);
        if i == k - 1 {
            lemma_rat_add_zero(term, prev);
            lemma_rat_eq_trans(rat_add(prev, term), term, rat_mul(u[i], v[i]));
        } else {
            assert(term.num == 0) by (nonlinear_arith)
                requires
                    term.num == u[k - 1].num * v[k - 1].num,
                    u[k - 1].num == 0,
            ;
            assert(0 * term.den == 0) by (nonlinear_arith);
            assert(rat_eq(term, rat_zero()));
            lemma_rat_add_zero(prev, term);
            if i < k - 1 {
                lemma_mul_strictly_positive(u[i].den, v[i].den);
                lemma_rat_eq_trans(rat_add(prev, term), prev, rat_mul(u[i], v[i]));
            } else {
                lemma_rat_eq_trans(rat_add(prev, term), prev, rat_zero());
            }
        }
    }
}

/// A dot product against a column whose entries other than `j` denote
/// zero reduces to the single product at `j`.
proof fn lemma_dot_single_col(u: Seq<Rat>, v: Seq<Rat>, j: int, k: nat)
    requires
        forall|t: int| 0 <= t < k ==> rat_wf(#[trigger] u[t]),
        forall|t: int| 0 <= t < k ==> rat_wf(#[trigger] v[t]),
        0 <= j,
        forall|t: int| 0 <= t < k && t != j ==> (#[trigger] v[t]).num == 0,
    ensures
        rat_wf(spec_dot(u, v, k)),
        j < k ==> rat_eq(spec_dot(u, v, k), rat_mul(u[j], v[j])),
        j >= k ==> rat_eq(spec_dot(u, v, k), rat_zero()),
    decreases k,
{
    lemma_chk_dot_spec(u, v, k);
    if k == 0 {
    } else {
        let km1 = (k - 1) as nat;
        lemma_dot_single_col(u, v, j, km1);
        let prev = spec_dot(u, v, km1);
        let term = rat_mul(u[k - 1], v[k - 1]);
        lemma_mul_strictly_positive(u[k - 1].den, v[k - 1].den);
        lemma_mul_strictly_positive(prev.den, term.den);
        if j == k - 1 {
            lemma_rat_add_zero(term, prev);
            lemma_rat_eq_trans(rat_add(prev, term), term, rat_mul(u[j], v[j]));
        } else {
            assert(term.num == 0) by (nonlinear_arith)
                requires
                    term.num == u[k - 1].num * v[k - 1].num,
                    v[k - 1].num == 0,
            ;
            assert(0 * term.den == 0) by (nonlinear_arith);
            assert(rat_eq(term, rat_zero()));
            lemma_rat_add_zero(prev, term);
            if j < k - 1 {
                lemma_mul_strictly_positive(u[j].den, v[j].den);
                lemma_rat_eq_trans(rat_add(prev, term), prev, rat_mul(u[j], v[j]));
            } else {
                lemma_rat_eq_trans(rat_add(prev, term), prev, rat_zero());
            }
        }
    }
}

/// The shape and the key values of the adjugate inverse of an invertible
/// diagonal grid: off-diagonal entries denote zero, each entry is
/// well-formed, and each diagonal entry times the matching grid entry
/// denotes one.
proof fn lemma_diag_inverse_entries(a: Seq<Seq<Rat>>, n: nat)
    requires
        grid_diag(a, n),
        n >= 3,
        !rat_eq(spec_det(a), rat_zero()),
    ensures
        forall|i: int, t: int|
            0 <= i < n && 0 <= t < n ==> rat_wf(#[trigger] spec_inverse(a)[i][t]),
        forall|i: int, t: int|
            0 <= i < n && 0 <= t < n && t != i ==> (#[trigger] spec_inverse(a)[i][t]).num == 0,
        forall|i: int|
            0 <= i < n ==> rat_eq(rat_mul(#[trigger] spec_inverse(a)[i][i], a[i][i]), rat_one()),
{
    let det = spec_det(a);
    lemma_chk_det_spec(a);
    assert(0 * det.den == 0) by (nonlinear_arith);
    assert(det.num != 0);
    let inv = spec_inverse(a);
    assert forall|i: int, t: int| 0 <= i < n && 0 <= t < n implies rat_wf(
        #[trigger] inv[i][t],
    ) by {
        lemma_chk_cof_spec(a, t, i);
        let c = spec_cof(a, t, i);
        assert(inv[i][t] == rat_div(c, det));
        if det.num >= 0 {
            lemma_mul_strictly_positive(c.den, det.num);
        } else {
            lemma_mul_strictly_positive(c.den, -det.num);
            assert(-(c.den * det.num) == c.den * -det.num) by (nonlinear_arith);
        }
    }
    assert forall|i: int, t: int| 0 <= i < n && 0 <= t < n && t != i implies (
    #[trigger] inv[i][t]).num == 0 by {
        lemma_cof_diag_offdiag(a, n, t, i);
        let c = spec_cof(a, t, i);
        assert(inv[i][t] == rat_div(c, det));
        assert(c.num * det.den == 0 && -(c.num * det.den) == 0) by (nonlinear_arith)
            requires
                c.num == 0,
        ;
    }
    assert forall|i: int| 0 <= i < n implies rat_eq(
        rat_mul(#[trigger] inv[i][i], a[i][i]),
        rat_one(),
    ) by {
        assert(row_wf(a[i]));
        lemma_chk_cof_spec(a, i, i);
        let c = spec_cof(a, i, i);
        assert(inv[i][i] == rat_div(c, det));
        lemma_sub_diag(a, n, i);
        let sub = spec_submatrix(a, i, i);
        lemma_det_diag(sub, (n - 1) as nat);
        assert(c == spec_det(sub));
        lemma_diag_prod_wf(sub, (n - 1) as nat, n - 1);
        lemma_diag_prod_insert(a, n, i, n - 1);
        lemma_det_diag(a, n);
        lemma_diag_prod_wf(a, n, n as int);
        // c * a[i][i] denotes diag_prod(a, n), which denotes det
        lemma_rat_mul_congruence(c, a[i][i], diag_prod(sub, n - 1), a[i][i]);
        lemma_mul_strictly_positive(c.den, a[i][i].den);
        lemma_mul_strictly_positive(diag_prod(sub, n - 1).den, a[i][i].den);
        lemma_rat_eq_trans(
            rat_mul(c, a[i][i]),
            rat_mul(diag_prod(sub, n - 1), a[i][i]),
            diag_prod(a, n as int),
        );
        lemma_rat_eq_trans(rat_mul(c, a[i][i]), diag_prod(a, n as int), det);
        // so dividing it by det gives one
        crate::rational::lemma_rat_mul_div(c, det, a[i][i]);
        crate::rational::lemma_rat_div_self_eq_one(rat_mul(c, a[i][i]), det);
        assert(rat_mul(inv[i][i], a[i][i]) == rat_div(rat_mul(c, a[i][i]), det));
    }
}

/// The inverse of an invertible diagonal matrix undoes it: applying the
/// matrix and then its adjugate inverse to any grid of compatible shape
/// gives back that grid, entry for entry.
pub proof fn lemma_diag_inverse_round_trip(a: Seq<Seq<Rat>>, n: nat, b: Seq<Seq<Rat>>, w: nat)
    requires
        grid_diag(a, n),
        n >= 3,
        !rat_eq(spec_det(a), rat_zero()),
        grid_wf(b),
        grid_rect(b, w),
        b.len() == n,
    ensures
        grid_rat_eq(spec_mat_mul(spec_inverse(a), spec_mat_mul(a, b, w), w), b),
{
    let inv = spec_inverse(a);
    let p1 = spec_mat_mul(a, b, w);
    let p2 = spec_mat_mul(inv, p1, w);
    lemma_diag_inverse_entries(a, n);
    assert forall|t: int, j: int| 0 <= t < n && 0 <= j < w implies rat_eq(
        #[trigger] p1[t][j],
        rat_mul(a[t][t], b[t][j]),
    ) && rat_wf(p1[t][j]) && rat_wf(rat_mul(a[t][t], b[t][j])) by {
        let u = a[t];
        let v = grid_col(b, j);
        assert(row_wf(u));
        assert forall|s: int| 0 <= s < n implies rat_wf(#[trigger] v[s]) by {
            assert(row_wf(b[s]));
        }
        lemma_dot_single_row(u, v, t, n);
        assert(p1[t][j] == spec_dot(u, v, n));
        assert(row_wf(b[t]));
        lemma_mul_strictly_positive(a[t][t].den, b[t][j].den);
    }
    assert forall|i: int, j: int| 0 <= i < p2.len() && 0 <= j < p2[i].len() implies rat_eq(
        #[trigger] p2[i][j],
        b[i][j],
    ) by {
        let v = grid_col(p1, j);
        assert forall|s: int| 0 <= s < n implies rat_wf(#[trigger] v[s]) by {
            assert(rat_wf(p1[s][j]));
        }
        assert(forall|t: int| 0 <= t < n ==> rat_wf(#[trigger] inv[i][t]));
        assert(forall|t: int| 0 <= t < n && t != i ==> (#[trigger] inv[i][t]).num == 0);
        lemma_dot_single_row(inv[i], v, i, n);
        assert(p2[i][j] == spec_dot(inv[i], v, n));
        // p2[i][j] ~ inv[i][i] * p1[i][j] ~ inv[i][i] * (a[i][i] * b[i][j])
        let e = inv[i][i];
        let d = a[i][i];
        assert(row_wf(a[i]) && row_wf(b[i]));
        let bij = b[i][j];
        lemma_mul_strictly_positive(e.den, v[i].den);
        lemma_mul_strictly_positive(d.den, bij.den);
        lemma_mul_strictly_positive(e.den, rat_mul(d, bij).den);
        lemma_rat_mul_congruence(e, v[i], e, rat_mul(d, bij));
        lemma_rat_eq_trans(p2[i][j], rat_mul(e, v[i]), rat_mul(e, rat_mul(d, bij)));
        lemma_rat_mul_assoc(e, d, bij);
        lemma_mul_strictly_positive(e.den, d.den);
        lemma_rat_mul_one(rat_mul(e, d), bij);
        lemma_mul_strictly_positive(rat_mul(e, d).den, bij.den);
        lemma_rat_eq_trans(p2[i][j], rat_mul(e, rat_mul(d, bij)), bij);
    }
}

/// Multiplying by an invertible diagonal matrix and then by its adjugate
/// inverse leaves any square grid unchanged, entry for entry.
pub proof fn lemma_diag_inverse_cancels(a: Seq<Seq<Rat>>, b: Seq<Seq<Rat>>, n: nat)
    requires
        grid_wf(a),
        grid_rect(a, n),
        a.len() == n,
        grid_diag(b, n),
        n >= 3,
        !rat_eq(spec_det(b), rat_zero()),
    ensures
        grid_rat_eq(spec_mat_mul(spec_mat_mul(a, b, n), spec_inverse(b), n), a),
{
    let inv = spec_inverse(b);
    let p1 = spec_mat_mul(a, b, n);
    let p2 = spec_mat_mul(p1, inv, n);
    lemma_diag_inverse_entries(b, n);
    assert forall|i: int, j: int| 0 <= i < n && 0 <= j < n implies rat_eq(
        #[trigger] p1[i][j],
        rat_mul(a[i][j], b[j][j]),
    ) && rat_wf(p1[i][j]) && rat_wf(rat_mul(a[i][j], b[j][j])) by {
        let u = a[i];
        let v = grid_col(b, j);
        assert(row_wf(u));
        assert forall|s: int| 0 <= s < n implies rat_wf(#[trigger] v[s]) by {
            assert(row_wf(b[s]));
        }
        assert forall|s: int| 0 <= s < n && s != j implies (#[trigger] v[s]).num == 0 by {
            assert(v[s] == b[s][j]);
        }
        lemma_dot_single_col(u, v, j, n);
        assert(p1[i][j] == spec_dot(u, v, n));
        assert(row_wf(b[j]));
        lemma_mul_strictly_positive(a[i][j].den, b[j][j].den);
    }
    assert forall|i: int, j: int| 0 <= i < p2.len() && 0 <= j < p2[i].len() implies rat_eq(
        #[trigger] p2[i][j],
        a[i][j],
    ) by {
        let u = p1[i];
        let v = grid_col(inv, j);
        assert forall|s: int| 0 <= s < n implies rat_wf(#[trigger] u[s]) by {
            assert(rat_wf(p1[i][s]));
        }
        assert forall|s: int| 0 <= s < n implies rat_wf(#[trigger] v[s]) by {
            assert(v[s] == inv[s][j]);
        }
        assert forall|s: int| 0 <= s < n && s != j implies (#[trigger] v[s]).num == 0 by {
            assert(v[s] == inv[s][j]);
        }
        lemma_dot_single_col(u, v, j, n);
        assert(p2[i][j] == spec_dot(u, v, n));
        // p2[i][j] ~ p1[i][j] * inv[j][j] ~ (a[i][j] * b[j][j]) * inv[j][j]
        let e = inv[j][j];
        let d = b[j][j];
        assert(row_wf(a[i]) && row_wf(b[j]));
        let aij = a[i][j];
        lemma_mul_strictly_positive(u[j].den, e.den);
        lemma_mul_strictly_positive(aij.den, d.den);
        lemma_mul_strictly_positive(rat_mul(aij, d).den, e.den);
        lemma_rat_mul_congruence(u[j], e, rat_mul(aij, d), e);
        lemma_rat_eq_trans(p2[i][j], rat_mul(u[j], e), rat_mul(rat_mul(aij, d), e));
        lemma_rat_mul_assoc(aij, d, e);
        lemma_rat_mul_comm(d, e);
        lemma_mul_strictly_positive(e.den, d.den);
        lemma_mul_strictly_positive(d.den, e.den);
        lemma_rat_mul_one(rat_mul(e, d), aij);
        lemma_mul_strictly_positive(aij.den, rat_mul(d, e).den);
        // a * (d * e) ~ a * (e * d) ~ a, since e * d denotes one
        assert(rat_mul(rat_mul(aij, d), e) == rat_mul(aij, rat_mul(d, e)));
        assert(rat_mul(aij, rat_mul(d, e)) == rat_mul(aij, rat_mul(e, d)));
        lemma_rat_eq_trans(p2[i][j], rat_mul(rat_mul(aij, d), e), rat_mul(aij, rat_mul(e, d)));
        lemma_mul_strictly_positive(rat_mul(e, d).den, aij.den);
        lemma_rat_eq_trans(p2[i][j], rat_mul(aij, rat_mul(e, d)), aij);
    }
}

/// The identity grid is well-formed and square.
proof fn lemma_identity_shape(n: nat)
    ensures
        grid_wf(spec_identity(n)),
        grid_rect(spec_identity(n), n),
        spec_identity(n).len() == n,
{
    let a = spec_identity(n);
    assert forall|i: int| 0 <= i < n implies row_wf(#[trigger] a[i]) by {
        assert forall|j: int| 0 <= j < n implies rat_wf(#[trigger] a[i][j]) by {}
    }
}

/// The first `j` expansion terms of the identity determinant denote the
/// top-left cofactor: the first term is `1` times it, every other term is
/// zero.
proof fn lemma_expand_identity(n: nat, j: int)
    requires
        n >= 3,
        1 <= j <= n,
    ensures
        rat_wf(spec_expand(spec_identity(n), j)),
        rat_eq(spec_expand(spec_identity(n), j), spec_cof(spec_identity(n), 0, 0)),
    decreases j,
{
    let a = spec_identity(n);
    lemma_identity_shape(n);
    lemma_chk_expand_spec(a, j);
    lemma_chk_expand_spec(a, j - 1);
    lemma_chk_cof_spec(a, 0, j - 1);
    lemma_chk_cof_spec(a, 0, 0);
    let prev = spec_expand(a, j - 1);
    let c = spec_cof(a, 0, j - 1);
    let term = rat_mul(a[0][j - 1], c);
    lemma_mul_strictly_positive(a[0][j - 1].den, c.den);
    lemma_mul_strictly_positive(prev.den, term.den);
    if j == 1 {
        assert(a[0][0] == rat_one());
        lemma_rat_mul_one(a[0][0], c);
        lemma_rat_add_zero(term, prev);
        lemma_rat_eq_trans(rat_add(prev, term), term, c);
    } else {
        lemma_expand_identity(n, j - 1);
        assert(a[0][j - 1] == rat_zero());
        lemma_rat_mul_zero(a[0][j - 1], c);
        lemma_rat_add_zero(prev, term);
        lemma_rat_eq_trans(rat_add(prev, term), prev, spec_cof(a, 0, 0));
    }
}

} // verus!
