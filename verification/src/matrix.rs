//! The matrix engine: dense row-major grids of exact rationals with
//! multiplication, transpose, submatrix extraction, cofactor expansion,
//! determinant and the adjugate inverse. Contracts are stated against the
//! grid model of [`crate::linalg`]; operations that accumulate arithmetic
//! return `None` exactly when a reduced intermediate value no longer fits
//! the bounded representation.

use crate::linalg::{
    chk_cof, chk_det, chk_dot, chk_expand, chk_minor, grid_col, grid_eps_eq, grid_rect, grid_wf,
    lemma_chk_cof_spec, lemma_chk_det_spec, lemma_chk_dot_spec, row_wf, spec_cof, spec_det,
    spec_dot, spec_identity, spec_submatrix, spec_transpose,
};
use crate::rational::{
    lemma_rat_eq_trans, lemma_rat_mul_congruence, rat_div, rat_eq, rat_mul, rat_one, rat_wf,
    rat_zero, Rat,
};
use crate::scalar::{rat_fit, Scalar};
use crate::tuple::{rt_seq, Tuple};
use vstd::arithmetic::div_mod::lemma_fundamental_div_mod_converse_div;
use vstd::arithmetic::div_mod::lemma_fundamental_div_mod_converse_mod;
use vstd::prelude::*;

verus! {

/// A row-major index is in range of the flat data exactly when its row
/// and column are in range of the grid.
pub proof fn lemma_index_bound(w: int, h: int, i: int, j: int)
    by (nonlinear_arith)
    requires
        0 <= j < w,
        0 <= i < h,
    ensures
        0 <= i * w + j < w * h,
{
}

/// A row-major index in range of the flat data yields a row and a column
/// in range of the grid.
pub proof fn lemma_flat_bounds(w: int, h: int, k: int)
    requires
        w > 0,
        0 <= k < w * h,
    ensures
        0 <= k / w < h,
        0 <= k % w < w,
        k == (k / w) * w + k % w,
{
    vstd::arithmetic::div_mod::lemma_fundamental_div_mod(k, w);
    vstd::arithmetic::div_mod::lemma_mod_division_less_than_divisor(k, w);
    vstd::arithmetic::div_mod::lemma_div_pos_is_pos(k, w);
    assert(k / w < h) by (nonlinear_arith)
        requires
            k == w * (k / w) + k % w,
            0 <= k % w,
            k < w * h,
            w > 0,
            k / w >= 0,
    ;
    assert((k / w) * w == w * (k / w)) by (nonlinear_arith);
}

/// Row and column are recovered from a row-major index by division and
/// remainder.
pub proof fn lemma_flat_index(w: int, i: int, j: int)
    requires
        w > 0,
        0 <= j < w,
        0 <= i,
    ensures
        (i * w + j) / w == i,
        (i * w + j) % w == j,
{
    lemma_fundamental_div_mod_converse_div(i * w + j, w, i, j);
    lemma_fundamental_div_mod_converse_mod(i * w + j, w, i, j);
}

/// A dense matrix: `height` rows of `width` exact rationals, row major.
#[derive(Clone, Debug)]
pub struct Matrix {
    pub width: usize,
    pub height: usize,
    pub data: Vec<Scalar>,
}

impl View for Matrix {
    type V = Seq<Seq<Rat>>;

    open spec fn view(&self) -> Seq<Seq<Rat>> {
        Seq::new(
            self.height as nat,
            |i: int|
                Seq::new(
                    self.width as nat,
                    |j: int| self.data@[i * (self.width as int) + j]@,
                ),
        )
    }
}

impl Matrix {
    /// The representation invariant: the flat data holds exactly
    /// `width * height` well-formed scalars.
    pub open spec fn wf(&self) -> bool {
        &&& self.data@.len() == (self.width as int) * (self.height as int)
        &&& forall|k: int| 0 <= k < self.data@.len() ==> (#[trigger] self.data@[k]).wf()
    }

    /// The grid view of a well-formed matrix has its shape, well-formed
    /// entries, and each entry comes from the flat data.
    pub proof fn lemma_view(&self)
        requires
            self.wf(),
        ensures
            self@.len() == self.height,
            grid_rect(self@, self.width as nat),
            grid_wf(self@),
            forall|i: int, j: int|
                0 <= i < self.height && 0 <= j < self.width ==> #[trigger] self@[i][j]
                    == self.data@[i * (self.width as int) + j]@,
    {
        let w = self.width as int;
        let h = self.height as int;
        assert forall|i: int| 0 <= i < h implies row_wf(#[trigger] self@[i]) by {
            assert forall|j: int| 0 <= j < w implies rat_wf(#[trigger] self@[i][j]) by {
                lemma_index_bound(w, h, i, j);
                assert(self.data@[i * w + j].wf());
            }
        }
    }

    /// A matrix from explicit dimensions and row-major data; the data
    /// must hold exactly `width * height` entries.
    pub fn create_matrix(width: usize, height: usize, data: Vec<Scalar>) -> (r: Matrix)
        requires
            data@.len() == (width as int) * (height as int),
            forall|k: int| 0 <= k < data@.len() ==> (#[trigger] data@[k]).wf(),
        ensures
            r.wf(),
            r.width == width,
            r.height == height,
            r.data@ == data@,
    {
        Matrix { width, height, data }
    }

    /// The size-by-size matrix with ones on the diagonal and zeroes
    /// elsewhere.
    pub fn create_identity(size: usize) -> (r: Matrix)
        requires
            (size as int) * (size as int) <= usize::MAX,
        ensures
            r.wf(),
            r.width == size,
            r.height == size,
            r@ == spec_identity(size as nat),
    {
        let ghost n: int = size as int;
        let mut data: Vec<Scalar> = Vec::new();
        let mut i: usize = 0;
        while i < size
            invariant
                i <= size,
                (size as int) * (size as int) <= usize::MAX,
                data@.len() == i * (size as int),
                forall|k: int|
                    0 <= k < data@.len() ==> (#[trigger] data@[k])@ == (
                    if k / (size as int) == k % (size as int) {
                        rat_one()
                    } else {
                        rat_zero()
                    }),
                forall|k: int| 0 <= k < data@.len() ==> (#[trigger] data@[k]).wf(),
            decreases size - i,
        {
            let mut j: usize = 0;
            while j < size
                invariant
                    i < size,
                    j <= size,
                    (size as int) * (size as int) <= usize::MAX,
                    data@.len() == i * (size as int) + j,
                    forall|k: int|
                        0 <= k < data@.len() ==> (#[trigger] data@[k])@ == (
                        if k / (size as int) == k % (size as int) {
                            rat_one()
                        } else {
                            rat_zero()
                        }),
                    forall|k: int| 0 <= k < data@.len() ==> (#[trigger] data@[k]).wf(),
                decreases size - j,
            {
                proof {
                    lemma_index_bound(size as int, size as int, i as int, j as int);
                    lemma_flat_index(size as int, i as int, j as int);
                }
                if i == j {
                    data.push(Scalar::one());
                } else {
                    data.push(Scalar::zero());
                }
                j = j + 1;
            }
            proof {
                assert((i as int + 1) * (size as int) == i as int * (size as int) + (
                size as int)) by (nonlinear_arith);
            }
            i = i + 1;
        }
        let r = Matrix { width: size, height: size, data };
        proof {
            assert(r.wf());
            r.lemma_view();
            assert forall|i2: int| 0 <= i2 < n implies r@[i2] =~= spec_identity(size as nat)[i2] by {
                assert forall|j2: int| 0 <= j2 < n implies r@[i2][j2] == spec_identity(
                    size as nat,
                )[i2][j2] by {
                    lemma_index_bound(n, n, i2, j2);
                    lemma_flat_index(n, i2, j2);
                }
            }
            assert(r@ =~= spec_identity(size as nat));
        }
        r
    }

    /// Bounds-checked element access: row `y`, column `x`.
    pub fn get(&self, y: usize, x: usize) -> (r: Scalar)
        requires
            self.wf(),
            x < self.width,
            y < self.height,
        ensures
            r.wf(),
            r@ == self@[y as int][x as int],
    {
        // reading the length tells the verifier the flat index fits a usize
        let len = self.data.len();
        proof {
            lemma_index_bound(self.width as int, self.height as int, y as int, x as int);
        }
        self.data[self.width * y + x]
    }

    /// Structural equality up to the comparison tolerance: same shape,
    /// every element pair within tolerance.
    pub fn equals(&self, other: &Matrix) -> (r: bool)
        requires
            self.wf(),
            other.wf(),
        ensures
            r == (self.width == other.width && self.height == other.height && grid_eps_eq(
                self@,
                other@,
            )),
    {
        if self.width != other.width || self.height != other.height {
            return false;
        }
        let w = self.width;
        let h = self.height;
        let mut y: usize = 0;
        while y < h
            invariant
                y <= h,
                w == self.width == other.width,
                h == self.height == other.height,
                self.wf(),
                other.wf(),
                forall|i: int, j: int|
                    0 <= i < y && 0 <= j < w ==> crate::compare::spec_eps_eq(
                        #[trigger] self@[i][j],
                        other@[i][j],
                    ),
            decreases h - y,
        {
            let mut x: usize = 0;
            while x < w
                invariant
                    y < h,
                    x <= w,
                    w == self.width == other.width,
                    h == self.height == other.height,
                    self.wf(),
                    other.wf(),
                    forall|i: int, j: int|
                        0 <= i < y && 0 <= j < w ==> crate::compare::spec_eps_eq(
                            #[trigger] self@[i][j],
                            other@[i][j],
                        ),
                    forall|j: int|
                        0 <= j < x ==> crate::compare::spec_eps_eq(
                            #[trigger] self@[y as int][j],
                            other@[y as int][j],
                        ),
                decreases w - x,
            {
                let a = self.get(y, x);
                let b = other.get(y, x);
                if !crate::compare::equal(&a, &b) {
                    proof {
                        self.lemma_view();
                        assert(!crate::compare::spec_eps_eq(self@[y as int][x as int], other@[y as int][x as int]));
                        assert(!grid_eps_eq(self@, other@));
                    }
                    return false;
                }
                x = x + 1;
            }
            y = y + 1;
        }
        proof {
            self.lemma_view();
            other.lemma_view();
        }
        true
    }

    /// The four entries of a 4-by-1 or 1-by-4 matrix as a tuple.
    pub fn to_tuple(&self) -> (r: Tuple)
        requires
            self.wf(),
            (self.width == 4 && self.height == 1) || (self.width == 1 && self.height == 4),
        ensures
            r.wf(),
            r@.x == self.data@[0]@,
            r@.y == self.data@[1]@,
            r@.z == self.data@[2]@,
            r@.w == self.data@[3]@,
    {
        Tuple {
            x: self.data[0],
            y: self.data[1],
            z: self.data[2],
            w: self.data[3],
        }
    }

    /// The transpose: rows become columns; the result is exact.
    pub fn transpose(&self) -> (r: Matrix)
        requires
            self.wf(),
        ensures
            r.wf(),
            r.width == self.height,
            r.height == self.width,
            r@ == spec_transpose(self@, self.width as nat),
    {
        let w = self.width;
        let h = self.height;
        let mut data: Vec<Scalar> = Vec::new();
        let mut x: usize = 0;
        proof {
            vstd::arithmetic::mul::lemma_mul_is_commutative(w as int, h as int);
        }
        while x < w
            invariant
                x <= w,
                w == self.width,
                h == self.height,
                self.wf(),
                data@.len() == x * (h as int),
                forall|k: int|
                    0 <= k < data@.len() ==> (#[trigger] data@[k])@ == self@[k % (h as int)][
                        k / (h as int)
                    ],
                forall|k: int| 0 <= k < data@.len() ==> (#[trigger] data@[k]).wf(),
            decreases w - x,
        {
            let mut y: usize = 0;
            while y < h
                invariant
                    x < w,
                    y <= h,
                    w == self.width,
                    h == self.height,
                    self.wf(),
                    data@.len() == x * (h as int) + y,
                    forall|k: int|
                        0 <= k < data@.len() ==> (#[trigger] data@[k])@ == self@[k % (h as int)][
                            k / (h as int)
                        ],
                    forall|k: int| 0 <= k < data@.len() ==> (#[trigger] data@[k]).wf(),
                decreases h - y,
            {
                proof {
                    lemma_index_bound(h as int, w as int, x as int, y as int);
                    lemma_flat_index(h as int, x as int, y as int);
                }
                let v = self.get(y, x);
                data.push(v);
                y = y + 1;
            }
            proof {
                assert((x as int + 1) * (h as int) == x as int * (h as int) + (h as int))
                    by (nonlinear_arith);
            }
            x = x + 1;
        }
        let r = Matrix { width: h, height: w, data };
        proof {
            assert(r.data@.len() == (r.width as int) * (r.height as int)) by (nonlinear_arith)
                requires
                    r.data@.len() == (w as int) * (h as int),
                    r.width == h,
                    r.height == w,
            ;
            r.lemma_view();
            let t = spec_transpose(self@, self.width as nat);
            assert forall|j: int| 0 <= j < w implies r@[j] =~= t[j] by {
                assert forall|i: int| 0 <= i < h implies r@[j][i] == t[j][i] by {
                    lemma_index_bound(h as int, w as int, j, i);
                    lemma_flat_index(h as int, j, i);
                }
            }
            assert(r@ =~= t);
        }
        r
    }

    /// The matrix with row `row` and column `col` removed; exact.
    pub fn submatrix(&self, row: usize, col: usize) -> (r: Matrix)
        requires
            self.wf(),
            row < self.height,
            col < self.width,
        ensures
            r.wf(),
            r.width == self.width - 1,
            r.height == self.height - 1,
            r@ == spec_submatrix(self@, row as int, col as int),
    {
        let w = self.width;
        let h = self.height;
        let ow: usize = w - 1;
        let oh: usize = h - 1;
        let mut data: Vec<Scalar> = Vec::new();
        let mut i: usize = 0;

        while i < oh
            invariant
                i <= oh,
                ow == w - 1,
                oh == h - 1,
                w == self.width,
                h == self.height,
                row < h,
                col < w,
                self.wf(),
                data@.len() == i * (ow as int),
                forall|k: int|
                    0 <= k < data@.len() ==> (#[trigger] data@[k])@ == self@[
                        if k / (ow as int) < row {
                            k / (ow as int)
                        } else {
                            k / (ow as int) + 1
                        }
                    ][
                        if k % (ow as int) < col {
                            k % (ow as int)
                        } else {
                            k % (ow as int) + 1
                        }
                    ],
                forall|k: int| 0 <= k < data@.len() ==> (#[trigger] data@[k]).wf(),
            decreases oh - i,
        {
            let mut j: usize = 0;
            while j < ow
                invariant
                    i < oh,
                    j <= ow,
                    ow == w - 1,
                    oh == h - 1,
                    w == self.width,
                    h == self.height,
                    row < h,
                    col < w,
                    self.wf(),
                    data@.len() == i * (ow as int) + j,
                    forall|k: int|
                        0 <= k < data@.len() ==> (#[trigger] data@[k])@ == self@[
                            if k / (ow as int) < row {
                                k / (ow as int)
                            } else {
                                k / (ow as int) + 1
                            }
                        ][
                            if k % (ow as int) < col {
                                k % (ow as int)
                            } else {
                                k % (ow as int) + 1
                            }
                        ],
                    forall|k: int| 0 <= k < data@.len() ==> (#[trigger] data@[k]).wf(),
                decreases ow - j,
            {
                proof {
                    lemma_index_bound(ow as int, oh as int, i as int, j as int);
                    lemma_flat_index(ow as int, i as int, j as int);
                }
                let si: usize = if i < row {
                    i
                } else {
                    i + 1
                };
                let sj: usize = if j < col {
                    j
                } else {
                    j + 1
                };
                let v = self.get(si, sj);
                data.push(v);
                j = j + 1;
            }
            proof {
                assert((i as int + 1) * (ow as int) == i as int * (ow as int) + (ow as int))
                    by (nonlinear_arith);
            }
            i = i + 1;
        }
        let r = Matrix { width: ow, height: oh, data };
        proof {
            assert((oh as int) * (ow as int) == (ow as int) * (oh as int)) by (nonlinear_arith);
            assert(r.wf());
            r.lemma_view();
            self.lemma_view();
            let t = spec_submatrix(self@, row as int, col as int);
            assert forall|i2: int| 0 <= i2 < oh implies r@[i2] =~= t[i2] by {
                assert forall|j2: int| 0 <= j2 < ow implies r@[i2][j2] == t[i2][j2] by {
                    lemma_index_bound(ow as int, oh as int, i2, j2);
                    lemma_flat_index(ow as int, i2, j2);
                }
            }
            assert(r@ =~= t);
        }
        r
    }

    /// The matrix product. The left width must equal the right height, and
    /// (as the row-major engine stores it) the result takes the right
    /// matrix's shape, so the left height must cover it. `None` exactly
    /// when some entry's accumulation leaves the bounded representation.
    pub fn multiply_matrix(&self, rhs: &Matrix) -> (r: Option<Matrix>)
        requires
            self.wf(),
            rhs.wf(),
            self.width == rhs.height,
            self.width <= self.height,
        ensures
            (r is Some) == (forall|i: int, j: int|
                0 <= i < rhs.height && 0 <= j < rhs.width ==> (#[trigger] chk_dot(
                    self@[i],
                    grid_col(rhs@, j),
                    rhs.height as nat,
                )) is Some),
            r matches Some(p) ==> p.wf() && p.width == rhs.width && p.height == rhs.height && (
            forall|i: int, j: int|
                0 <= i < rhs.height && 0 <= j < rhs.width ==> Some(#[trigger] p@[i][j]) == chk_dot(
                    self@[i],
                    grid_col(rhs@, j),
                    rhs.height as nat,
                )) && (forall|i: int, j: int|
                0 <= i < rhs.height && 0 <= j < rhs.width ==> rat_eq(
                    #[trigger] p@[i][j],
                    spec_dot(self@[i], grid_col(rhs@, j), rhs.height as nat),
                )),
    {
        let oh = rhs.height;
        let ow = rhs.width;
        let mut data: Vec<Scalar> = Vec::new();
        let mut i: usize = 0;
        while i < oh
            invariant
                i <= oh,
                oh == rhs.height,
                ow == rhs.width,
                self.wf(),
                rhs.wf(),
                self.width == rhs.height,
                self.width <= self.height,
                data@.len() == i * (ow as int),
                forall|k: int|
                    0 <= k < data@.len() ==> Some((#[trigger] data@[k])@) == chk_dot(
                        self@[k / (ow as int)],
                        grid_col(rhs@, k % (ow as int)),
                        oh as nat,
                    ),
                forall|k: int| 0 <= k < data@.len() ==> (#[trigger] data@[k]).wf(),
            decreases oh - i,
        {
            let mut j: usize = 0;
            while j < ow
                invariant
                    i < oh,
                    j <= ow,
                    oh == rhs.height,
                    ow == rhs.width,
                    self.wf(),
                    rhs.wf(),
                    self.width == rhs.height,
                    self.width <= self.height,
                    data@.len() == i * (ow as int) + j,
                    forall|k: int|
                        0 <= k < data@.len() ==> Some((#[trigger] data@[k])@) == chk_dot(
                            self@[k / (ow as int)],
                            grid_col(rhs@, k % (ow as int)),
                            oh as nat,
                        ),
                    forall|k: int| 0 <= k < data@.len() ==> (#[trigger] data@[k]).wf(),
                decreases ow - j,
            {
                let ghost u = self@[i as int];
                let ghost v = grid_col(rhs@, j as int);
                let mut acc = Scalar::zero();
                let mut k: usize = 0;
                while k < oh
                    invariant
                        k <= oh,
                        i < oh,
                        j < ow,
                        oh == rhs.height,
                        ow == rhs.width,
                        self.wf(),
                        rhs.wf(),
                        self.width == rhs.height,
                        self.width <= self.height,
                        u == self@[i as int],
                        v == grid_col(rhs@, j as int),
                        acc.wf(),
                        Some(acc@) == chk_dot(u, v, k as nat),
                    decreases oh - k,
                {
                    let a = self.get(i, k);
                    let b = rhs.get(k, j);
                    proof {
                        assert(u[k as int] == a@);
                        assert(v[k as int] == b@);
                    }
                    let p = match a.mul(&b) {
                        Some(p) => p,
                        None => {
                            proof {
                                assert(chk_dot(u, v, (k + 1) as nat) is None);
                                crate::linalg::lemma_chk_dot_none_mono(
                                    u,
                                    v,
                                    (k + 1) as nat,
                                    oh as nat,
                                );
                                assert(chk_dot(
                                    self@[i as int],
                                    grid_col(rhs@, j as int),
                                    rhs.height as nat,
                                ) is None);
                            }
                            return None;
                        },
                    };
                    let acc2 = match acc.add(&p) {
                        Some(s) => s,
                        None => {
                            proof {
                                assert(chk_dot(u, v, (k + 1) as nat) is None);
                                crate::linalg::lemma_chk_dot_none_mono(
                                    u,
                                    v,
                                    (k + 1) as nat,
                                    oh as nat,
                                );
                                assert(chk_dot(
                                    self@[i as int],
                                    grid_col(rhs@, j as int),
                                    rhs.height as nat,
                                ) is None);
                            }
                            return None;
                        },
                    };
                    acc = acc2;
                    k = k + 1;
                }
                proof {
                    lemma_index_bound(ow as int, oh as int, i as int, j as int);
                    lemma_flat_index(ow as int, i as int, j as int);
                }
                data.push(acc);
                j = j + 1;
            }
            proof {
                assert((i as int + 1) * (ow as int) == i as int * (ow as int) + (ow as int))
                    by (nonlinear_arith);
            }
            i = i + 1;
        }
        let m = Matrix { width: ow, height: oh, data };
        proof {
            assert((oh as int) * (ow as int) == (ow as int) * (oh as int)) by (nonlinear_arith);
            assert(m.wf());
            m.lemma_view();
            self.lemma_view();
            rhs.lemma_view();
            assert forall|i2: int, j2: int| 0 <= i2 < oh && 0 <= j2 < ow implies Some(
                #[trigger] m@[i2][j2],
            ) == chk_dot(self@[i2], grid_col(rhs@, j2), oh as nat) by {
                lemma_index_bound(ow as int, oh as int, i2, j2);
                lemma_flat_index(ow as int, i2, j2);
            }
            assert forall|i2: int, j2: int| 0 <= i2 < oh && 0 <= j2 < ow implies (
            #[trigger] chk_dot(self@[i2], grid_col(rhs@, j2), rhs.height as nat)) is Some by {
                lemma_index_bound(ow as int, oh as int, i2, j2);
                assert(Some(m@[i2][j2]) == chk_dot(self@[i2], grid_col(rhs@, j2), oh as nat));
            }
            assert forall|i2: int, j2: int| 0 <= i2 < oh && 0 <= j2 < ow implies rat_eq(
                #[trigger] m@[i2][j2],
                spec_dot(self@[i2], grid_col(rhs@, j2), oh as nat),
            ) by {
                let u2 = self@[i2];
                let v2 = grid_col(rhs@, j2);
                assert(row_wf(u2));
                assert forall|t: int| 0 <= t < oh implies rat_wf(#[trigger] v2[t]) by {
                    assert(row_wf(rhs@[t]));
                }
                lemma_chk_dot_spec(u2, v2, oh as nat);
            }
        }
        Some(m)
    }

    /// Every entry scaled by `s`; `None` exactly when some scaled entry
    /// does not fit.
    pub fn multiply_scalar(&self, s: &Scalar) -> (r: Option<Matrix>)
        requires
            self.wf(),
            s.wf(),
        ensures
            (r is Some) == (forall|i: int, j: int|
                0 <= i < self.height && 0 <= j < self.width ==> rat_fit(
                    rat_mul(#[trigger] self@[i][j], s@),
                ) is Some),
            r matches Some(p) ==> p.wf() && p.width == self.width && p.height == self.height && (
            forall|i: int, j: int|
                0 <= i < self.height && 0 <= j < self.width ==> Some(#[trigger] p@[i][j])
                    == rat_fit(rat_mul(self@[i][j], s@))) && (forall|i: int, j: int|
                0 <= i < self.height && 0 <= j < self.width ==> rat_eq(
                    #[trigger] p@[i][j],
                    rat_mul(self@[i][j], s@),
                )),
    {
        let w = self.width;
        let h = self.height;
        let len = self.data.len();
        let mut data: Vec<Scalar> = Vec::new();
        let mut k: usize = 0;
        proof {
            self.lemma_view();
        }
        while k < len
            invariant
                k <= len,
                w == self.width,
                h == self.height,
                len == self.data@.len(),
                self.wf(),
                s.wf(),
                data@.len() == k,
                forall|t: int|
                    0 <= t < k ==> Some((#[trigger] data@[t])@) == rat_fit(
                        rat_mul(self.data@[t]@, s@),
                    ),
                forall|t: int| 0 <= t < k ==> (#[trigger] data@[t]).wf(),
            decreases len - k,
        {
            let v = match self.data[k].mul(s) {
                Some(v) => v,
                None => {
                    proof {
                        assert(w as int > 0) by (nonlinear_arith)
                            requires
                                0 <= (k as int) < (w as int) * (h as int),
                                w as int >= 0,
                        ;
                        lemma_flat_bounds(w as int, h as int, k as int);
                        self.lemma_view();
                        assert(self@[k as int / (w as int)][k as int % (w as int)]
                            == self.data@[k as int]@);
                        assert(rat_fit(
                            rat_mul(self@[k as int / (w as int)][k as int % (w as int)], s@),
                        ) is None);
                    }
                    return None;
                },
            };
            data.push(v);
            k = k + 1;
        }
        let m = Matrix { width: w, height: h, data };
        proof {
            assert(m.wf());
            m.lemma_view();
            self.lemma_view();
            assert forall|i2: int, j2: int| 0 <= i2 < h && 0 <= j2 < w implies Some(
                #[trigger] m@[i2][j2],
            ) == rat_fit(rat_mul(self@[i2][j2], s@)) by {
                lemma_index_bound(w as int, h as int, i2, j2);
            }
            assert forall|i2: int, j2: int| 0 <= i2 < h && 0 <= j2 < w implies rat_fit(
                rat_mul(#[trigger] self@[i2][j2], s@),
            ) is Some by {
                lemma_index_bound(w as int, h as int, i2, j2);
                assert(Some(m@[i2][j2]) == rat_fit(rat_mul(self@[i2][j2], s@)));
            }
            assert forall|i2: int, j2: int| 0 <= i2 < h && 0 <= j2 < w implies rat_eq(
                #[trigger] m@[i2][j2],
                rat_mul(self@[i2][j2], s@),
            ) by {
                lemma_index_bound(w as int, h as int, i2, j2);
                assert(row_wf(self@[i2]));
                let e = rat_mul(self@[i2][j2], s@);
                vstd::arithmetic::mul::lemma_mul_strictly_positive(self@[i2][j2].den, s@.den);
                crate::rational::lemma_norm_properties(e);
            }
        }
        Some(m)
    }

    /// This 4-by-4 matrix applied to a tuple, treated as a 4-entry column.
    pub fn multiply_tuple(&self, t: &Tuple) -> (r: Option<Tuple>)
        requires
            self.wf(),
            t.wf(),
            self.width == 4,
            self.height == 4,
        ensures
            (r is Some) == (forall|i: int|
                0 <= i < 4 ==> (#[trigger] chk_dot(self@[i], rt_seq(t@), 4)) is Some),
            r matches Some(out) ==> out.wf() && Some(out@.x) == chk_dot(self@[0], rt_seq(t@), 4)
                && Some(out@.y) == chk_dot(self@[1], rt_seq(t@), 4) && Some(out@.z) == chk_dot(
                self@[2],
                rt_seq(t@),
                4,
            ) && Some(out@.w) == chk_dot(self@[3], rt_seq(t@), 4) && rat_eq(
                out@.x,
                spec_dot(self@[0], rt_seq(t@), 4),
            ) && rat_eq(out@.y, spec_dot(self@[1], rt_seq(t@), 4)) && rat_eq(
                out@.z,
                spec_dot(self@[2], rt_seq(t@), 4),
            ) && rat_eq(out@.w, spec_dot(self@[3], rt_seq(t@), 4)),
    {
        let col = Matrix { width: 1, height: 4, data: vec![t.x, t.y, t.z, t.w] };
        proof {
            assert(col.data@[0] == t.x && col.data@[1] == t.y && col.data@[2] == t.z
                && col.data@[3] == t.w);
            assert(col.wf());
            col.lemma_view();
            assert(grid_col(col@, 0) =~= rt_seq(t@));
        }
        let p = match self.multiply_matrix(&col) {
            Some(p) => p,
            None => {
                return None;
            },
        };
        proof {
            p.lemma_view();
            assert(p@[0][0] == p.data@[0]@ && p@[1][0] == p.data@[1]@ && p@[2][0] == p.data@[2]@
                && p@[3][0] == p.data@[3]@);
        }
        Some(p.to_tuple())
    }

    /// The closed-form determinant of a 2-by-2 matrix.
    pub fn determinate_2x2(&self) -> (r: Option<Scalar>)
        requires
            self.wf(),
            self.width == 2,
            self.height == 2,
        ensures
            (r is Some) == (chk_det(self@) is Some),
            r matches Some(s) ==> s.wf() && Some(s@) == chk_det(self@) && rat_eq(
                s@,
                spec_det(self@),
            ),
    {
        proof {
            self.lemma_view();
            lemma_chk_det_spec(self@);
        }
        let a = self.get(0, 0);
        let d = self.get(1, 1);
        let p = match a.mul(&d) {
            Some(v) => v,
            None => {
                return None;
            },
        };
        let b = self.get(0, 1);
        let c = self.get(1, 0);
        let q = match b.mul(&c) {
            Some(v) => v,
            None => {
                return None;
            },
        };
        let s = match p.sub(&q) {
            Some(v) => v,
            None => {
                return None;
            },
        };
        Some(s)
    }

    /// The determinant of a square matrix: the closed form for 2-by-2,
    /// cofactor expansion along the first row for larger sizes.
    pub fn determinant(&self) -> (r: Option<Scalar>)
        requires
            self.wf(),
            self.width == self.height,
            self.width >= 2,
        ensures
            (r is Some) == (chk_det(self@) is Some),
            r matches Some(s) ==> s.wf() && Some(s@) == chk_det(self@) && rat_eq(
                s@,
                spec_det(self@),
            ),
        decreases self.width, 2int,
    {
        if self.width == 2 {
            return self.determinate_2x2();
        }
        proof {
            self.lemma_view();
            lemma_chk_det_spec(self@);
        }
        let w = self.width;
        let mut acc = Scalar::zero();
        let mut j: usize = 0;
        while j < w
            invariant
                j <= w,
                w == self.width,
                self.wf(),
                self.width == self.height,
                self.width >= 3,
                acc.wf(),
                Some(acc@) == chk_expand(self@, j as int),
            decreases w - j,
        {
            let c = match self.cofactor(0, j) {
                Some(c) => c,
                None => {
                    proof {
                        assert(chk_expand(self@, j as int + 1) is None);
                        crate::linalg::lemma_chk_expand_none_mono(
                            self@,
                            j as int + 1,
                            w as int,
                        );
                        self.lemma_view();
                    }
                    return None;
                },
            };
            let e = self.get(0, j);
            let p = match e.mul(&c) {
                Some(p) => p,
                None => {
                    proof {
                        assert(chk_expand(self@, j as int + 1) is None);
                        crate::linalg::lemma_chk_expand_none_mono(
                            self@,
                            j as int + 1,
                            w as int,
                        );
                        self.lemma_view();
                    }
                    return None;
                },
            };
            let acc2 = match acc.add(&p) {
                Some(s) => s,
                None => {
                    proof {
                        assert(chk_expand(self@, j as int + 1) is None);
                        crate::linalg::lemma_chk_expand_none_mono(
                            self@,
                            j as int + 1,
                            w as int,
                        );
                        self.lemma_view();
                    }
                    return None;
                },
            };
            acc = acc2;
            j = j + 1;
        }
        proof {
            self.lemma_view();
            assert(chk_det(self@) == chk_expand(self@, w as int));
        }
        Some(acc)
    }

    /// The minor: the determinant of the submatrix at `(row, col)`.
    pub fn minor(&self, row: usize, col: usize) -> (r: Option<Scalar>)
        requires
            self.wf(),
            self.width == self.height,
            self.width >= 3,
            row < self.height,
            col < self.width,
        ensures
            (r is Some) == (chk_minor(self@, row as int, col as int) is Some),
            r matches Some(s) ==> s.wf() && Some(s@) == chk_minor(self@, row as int, col as int)
                && rat_eq(s@, crate::linalg::spec_minor(self@, row as int, col as int)),
        decreases self.width, 0int,
    {
        proof {
            self.lemma_view();
            crate::linalg::lemma_chk_minor_spec(self@, row as int, col as int);
        }
        let sub = self.submatrix(row, col);
        sub.determinant()
    }

    /// The cofactor: the minor, negated when `row + col` is odd.
    pub fn cofactor(&self, row: usize, col: usize) -> (r: Option<Scalar>)
        requires
            self.wf(),
            self.width == self.height,
            self.width >= 3,
            row < self.height,
            col < self.width,
        ensures
            (r is Some) == (chk_cof(self@, row as int, col as int) is Some),
            r matches Some(s) ==> s.wf() && Some(s@) == chk_cof(self@, row as int, col as int)
                && rat_eq(s@, spec_cof(self@, row as int, col as int)),
        decreases self.width, 1int,
    {
        proof {
            self.lemma_view();
            lemma_chk_cof_spec(self@, row as int, col as int);
        }
        let m = match self.minor(row, col) {
            Some(m) => m,
            None => {
                return None;
            },
        };
        // reading the length tells the verifier that the squared width,
        // and so the sum of two indices, fits a usize
        let len = self.data.len();
        proof {
            assert((self.width as int) * (self.width as int) <= usize::MAX as int);
            assert((row as int) + (col as int) <= usize::MAX as int) by (nonlinear_arith)
                requires
                    (self.width as int) * (self.width as int) <= usize::MAX as int,
                    (row as int) < self.width as int,
                    (col as int) < self.width as int,
                    (self.width as int) >= 3,
            ;
        }
        if (row + col) % 2 == 0 {
            Some(m)
        } else {
            Some(m.neg())
        }
    }

    /// Whether the determinant is exactly nonzero; `None` when the
    /// determinant itself cannot be computed within the representation.
    pub fn is_invertable(&self) -> (r: Option<bool>)
        requires
            self.wf(),
            self.width == self.height,
            self.width >= 2,
        ensures
            (r is Some) == (chk_det(self@) is Some),
            r matches Some(b) ==> b == !rat_eq(spec_det(self@), rat_zero()),
    {
        let d = match self.determinant() {
            Some(d) => d,
            None => {
                return None;
            },
        };
        proof {
            self.lemma_view();
            lemma_chk_det_spec(self@);
            if rat_eq(d@, rat_zero()) {
                lemma_rat_eq_trans(spec_det(self@), d@, rat_zero());
            }
            if rat_eq(spec_det(self@), rat_zero()) {
                lemma_rat_eq_trans(d@, spec_det(self@), rat_zero());
            }
        }
        Some(!d.eq_zero())
    }

    /// The inverse by the adjugate method: the transposed cofactor matrix
    /// with every entry divided by the determinant. `None` when the
    /// matrix is singular or an intermediate value leaves the bounded
    /// representation.
    pub fn inverse(&self) -> (r: Option<Matrix>)
        requires
            self.wf(),
            self.width == self.height,
            self.width >= 3,
        ensures
            (r is Some) == (chk_det(self@) is Some && !rat_eq(spec_det(self@), rat_zero()) && (
            forall|i: int, j: int|
                0 <= i < self.height && 0 <= j < self.width ==> (#[trigger] chk_cof(self@, i, j))
                    is Some && rat_fit(rat_div(chk_cof(self@, i, j)->0, chk_det(self@)->0))
                    is Some)),
            r matches Some(m) ==> m.wf() && m.width == self.width && m.height == self.height && (
            forall|i: int, j: int|
                0 <= i < self.height && 0 <= j < self.width ==> Some(#[trigger] m@[i][j])
                    == rat_fit(rat_div(chk_cof(self@, j, i)->0, chk_det(self@)->0))) && (forall|
                i: int,
                j: int,
            |
                0 <= i < self.height && 0 <= j < self.width ==> rat_eq(
                    rat_mul(#[trigger] m@[i][j], spec_det(self@)),
                    spec_cof(self@, j, i),
                )) && (forall|i: int, j: int|
                0 <= i < self.height && 0 <= j < self.width ==> rat_eq(
                    #[trigger] m@[i][j],
                    crate::linalg::spec_inverse(self@)[i][j],
                )),
    {
        let n = self.width;
        proof {
            self.lemma_view();
            lemma_chk_det_spec(self@);
        }
        let det = match self.determinant() {
            Some(d) => d,
            None => {
                return None;
            },
        };
        if det.eq_zero() {
            proof {
                lemma_rat_eq_trans(spec_det(self@), det@, rat_zero());
            }
            return None;
        }
        proof {
            if rat_eq(spec_det(self@), rat_zero()) {
                lemma_rat_eq_trans(det@, spec_det(self@), rat_zero());
                assert(false);
            }
        }
        let mut data: Vec<Scalar> = Vec::new();
        let mut y: usize = 0;
        while y < n
            invariant
                y <= n,
                n == self.width,
                self.wf(),
                self.width == self.height,
                self.width >= 3,
                data@.len() == y * (n as int),
                forall|k: int|
                    0 <= k < data@.len() ==> Some((#[trigger] data@[k])@) == chk_cof(
                        self@,
                        k / (n as int),
                        k % (n as int),
                    ),
                forall|k: int| 0 <= k < data@.len() ==> (#[trigger] data@[k]).wf(),
            decreases n - y,
        {
            let mut x: usize = 0;
            while x < n
                invariant
                    y < n,
                    x <= n,
                    n == self.width,
                    self.wf(),
                    self.width == self.height,
                    self.width >= 3,
                    data@.len() == y * (n as int) + x,
                    forall|k: int|
                        0 <= k < data@.len() ==> Some((#[trigger] data@[k])@) == chk_cof(
                            self@,
                            k / (n as int),
                            k % (n as int),
                        ),
                    forall|k: int| 0 <= k < data@.len() ==> (#[trigger] data@[k]).wf(),
                decreases n - x,
            {
                let c = match self.cofactor(y, x) {
                    Some(c) => c,
                    None => {
                        return None;
                    },
                };
                proof {
                    lemma_index_bound(n as int, n as int, y as int, x as int);
                    lemma_flat_index(n as int, y as int, x as int);
                }
                data.push(c);
                x = x + 1;
            }
            proof {
                assert((y as int + 1) * (n as int) == y as int * (n as int) + (n as int))
                    by (nonlinear_arith);
            }
            y = y + 1;
        }
        let cofm = Matrix { width: n, height: n, data };
        proof {
            assert(cofm.wf());
            cofm.lemma_view();
            assert forall|i2: int, j2: int| 0 <= i2 < n && 0 <= j2 < n implies Some(
                #[trigger] cofm@[i2][j2],
            ) == chk_cof(self@, i2, j2) by {
                lemma_index_bound(n as int, n as int, i2, j2);
                lemma_flat_index(n as int, i2, j2);
            }
        }
        let tr = cofm.transpose();
        proof {
            tr.lemma_view();
            assert forall|i2: int, j2: int| 0 <= i2 < n && 0 <= j2 < n implies Some(
                #[trigger] tr@[i2][j2],
            ) == chk_cof(self@, j2, i2) by {
                assert(tr@[i2][j2] == cofm@[j2][i2]);
            }
        }
        let len = tr.data.len();
        let mut data2: Vec<Scalar> = Vec::new();
        let mut k: usize = 0;
        while k < len
            invariant
                k <= len,
                n == self.width,
                self.wf(),
                self.width == self.height,
                self.width >= 3,
                tr.wf(),
                tr.width == n,
                tr.height == n,
                len == tr.data@.len(),
                det.wf(),
                Some(det@) == chk_det(self@),
                !rat_eq(det@, rat_zero()),
                forall|i2: int, j2: int|
                    0 <= i2 < n && 0 <= j2 < n ==> Some(#[trigger] tr@[i2][j2]) == chk_cof(
                        self@,
                        j2,
                        i2,
                    ),
                data2@.len() == k,
                forall|t: int|
                    0 <= t < k ==> Some((#[trigger] data2@[t])@) == rat_fit(
                        rat_div(tr.data@[t]@, det@),
                    ),
                forall|t: int|
                    0 <= t < k ==> rat_eq(rat_mul((#[trigger] data2@[t])@, det@), tr.data@[t]@),
                forall|t: int| 0 <= t < k ==> (#[trigger] data2@[t]).wf(),
            decreases len - k,
        {
            let q = match tr.data[k].div(&det) {
                Some(q) => q,
                None => {
                    proof {
                        lemma_flat_bounds(n as int, n as int, k as int);
                        tr.lemma_view();
                        let i2 = k as int / (n as int);
                        let j2 = k as int % (n as int);
                        assert(tr@[i2][j2] == tr.data@[k as int]@);
                        assert(Some(tr.data@[k as int]@) == chk_cof(self@, j2, i2));
                        assert(rat_fit(rat_div(chk_cof(self@, j2, i2)->0, chk_det(self@)->0))
                            is None);
                    }
                    return None;
                },
            };
            data2.push(q);
            k = k + 1;
        }
        let m = Matrix { width: n, height: n, data: data2 };
        proof {
            assert(m.wf());
            m.lemma_view();
            tr.lemma_view();
            assert forall|i2: int, j2: int| 0 <= i2 < n && 0 <= j2 < n implies Some(
                #[trigger] m@[i2][j2],
            ) == rat_fit(rat_div(chk_cof(self@, j2, i2)->0, chk_det(self@)->0)) by {
                lemma_index_bound(n as int, n as int, i2, j2);
                assert(m@[i2][j2] == m.data@[i2 * (n as int) + j2]@);
                assert(tr@[i2][j2] == tr.data@[i2 * (n as int) + j2]@);
            }
            assert forall|i2: int, j2: int| 0 <= i2 < n && 0 <= j2 < n implies rat_eq(
                rat_mul(#[trigger] m@[i2][j2], spec_det(self@)),
                spec_cof(self@, j2, i2),
            ) by {
                lemma_index_bound(n as int, n as int, i2, j2);
                lemma_chk_cof_spec(self@, j2, i2);
                let cv = chk_cof(self@, j2, i2)->0;
                let e = m@[i2][j2];
                assert(e == m.data@[i2 * (n as int) + j2]@);
                assert(tr@[i2][j2] == tr.data@[i2 * (n as int) + j2]@);
                assert(tr.data@[i2 * (n as int) + j2]@ == cv);
                // the division loop carried: entry * det denotes the cofactor
                assert(rat_eq(rat_mul(e, det@), cv));
                lemma_rat_mul_congruence(e, det@, e, spec_det(self@));
                vstd::arithmetic::mul::lemma_mul_strictly_positive(e.den, det@.den);
                vstd::arithmetic::mul::lemma_mul_strictly_positive(e.den, spec_det(self@).den);
                lemma_rat_eq_trans(rat_mul(e, spec_det(self@)), rat_mul(e, det@), cv);
                lemma_rat_eq_trans(rat_mul(e, spec_det(self@)), cv, spec_cof(self@, j2, i2));
            }
            assert forall|i2: int, j2: int| 0 <= i2 < n && 0 <= j2 < n implies rat_eq(
                #[trigger] m@[i2][j2],
                crate::linalg::spec_inverse(self@)[i2][j2],
            ) by {
                lemma_index_bound(n as int, n as int, i2, j2);
                lemma_chk_cof_spec(self@, j2, i2);
                let e = m@[i2][j2];
                let dets = spec_det(self@);
                let cof = spec_cof(self@, j2, i2);
                assert(rat_eq(rat_mul(e, dets), cof));
                assert(0 * dets.den == 0) by (nonlinear_arith);
                assert(dets.num != 0);
                assert(rat_wf(e)) by {
                    assert(crate::linalg::row_wf(m@[i2]));
                }
                vstd::arithmetic::mul::lemma_mul_strictly_positive(e.den, dets.den);
                crate::rational::lemma_rat_div_congruence(cof, rat_mul(e, dets), dets);
                crate::rational::lemma_rat_div_mul_cancel(e, dets);
                let inv_entry = rat_div(cof, dets);
                assert(rat_wf(inv_entry)) by {
                    if dets.num >= 0 {
                        vstd::arithmetic::mul::lemma_mul_strictly_positive(cof.den, dets.num);
                    } else {
                        vstd::arithmetic::mul::lemma_mul_strictly_positive(cof.den, -dets.num);
                        assert(-(cof.den * dets.num) == cof.den * -dets.num) by (nonlinear_arith);
                    }
                }
                lemma_rat_eq_trans(inv_entry, rat_div(rat_mul(e, dets), dets), e);
                assert(crate::linalg::spec_inverse(self@)[i2][j2] == inv_entry);
            }
            assert forall|i2: int, j2: int| 0 <= i2 < n && 0 <= j2 < n implies (
            #[trigger] chk_cof(self@, i2, j2)) is Some && rat_fit(
                rat_div(chk_cof(self@, i2, j2)->0, chk_det(self@)->0),
            ) is Some by {
                lemma_index_bound(n as int, n as int, i2, j2);
                lemma_index_bound(n as int, n as int, j2, i2);
                assert(Some(cofm@[i2][j2]) == chk_cof(self@, i2, j2));
                assert(Some(m@[j2][i2]) == rat_fit(
                    rat_div(chk_cof(self@, i2, j2)->0, chk_det(self@)->0),
                ));
            }
        }
        Some(m)
    }
}

} // verus!
