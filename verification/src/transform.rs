//! Builders for the standard 4-by-4 affine transform matrices:
//! translation, scale, shear and rotation about each axis. Each builder
//! states its full matrix exactly.
//!
//! The rotation builders take the cosine and the sine of the rotation
//! angle as scalars, since only those two values enter the matrix; callers
//! that start from an angle in radians evaluate the two trigonometric
//! functions first and pass the results in.

use crate::matrix::Matrix;
use crate::rational::{rat_neg, rat_one, rat_zero, Rat};
use crate::scalar::Scalar;
use vstd::prelude::*;

verus! {

/// Proves that a freshly built 4-by-4 matrix shows the sixteen entries of
/// its data, as a grid.
proof fn lemma_grid4(m: Matrix, target: Seq<Seq<Rat>>)
    requires
        m.wf(),
        m.width == 4,
        m.height == 4,
        target.len() == 4,
        forall|i: int| 0 <= i < 4 ==> (#[trigger] target[i]).len() == 4,
        forall|i: int, j: int| 0 <= i < 4 && 0 <= j < 4 ==> #[trigger] target[i][j] == m.data@[
            i * 4 + j
        ]@,
    ensures
        m@ == target,
{
    m.lemma_view();
    assert forall|i: int| 0 <= i < 4 implies m@[i] =~= target[i] by {
        assert forall|j: int| 0 <= j < 4 implies m@[i][j] == target[i][j] by {
            crate::matrix::lemma_index_bound(4, 4, i, j);
        }
    }
    assert(m@ =~= target);
}

/// The shear matrix: each parameter couples one axis to another, `xpy`
/// adds that multiple of `y` to `x`, and so on.
pub fn new_sheer(
    xpy: Scalar,
    xpz: Scalar,
    ypx: Scalar,
    ypz: Scalar,
    zpx: Scalar,
    zpy: Scalar,
) -> (r: Matrix)
    requires
        xpy.wf(),
        xpz.wf(),
        ypx.wf(),
        ypz.wf(),
        zpx.wf(),
        zpy.wf(),
    ensures
        r.wf(),
        r.width == 4,
        r.height == 4,
        r@ == seq![
            seq![rat_one(), xpy@, xpz@, rat_zero()],
            seq![ypx@, rat_one(), ypz@, rat_zero()],
            seq![zpx@, zpy@, rat_one(), rat_zero()],
            seq![rat_zero(), rat_zero(), rat_zero(), rat_one()],
        ],
{
    let one = Scalar::one();
    let zero = Scalar::zero();
    let data = vec![
        one, xpy, xpz, zero,
        ypx, one, ypz, zero,
        zpx, zpy, one, zero,
        zero, zero, zero, one,
    ];
    let m = Matrix::create_matrix(4, 4, data);
    proof {
        lemma_grid4(
            m,
            seq![
                seq![rat_one(), xpy@, xpz@, rat_zero()],
                seq![ypx@, rat_one(), ypz@, rat_zero()],
                seq![zpx@, zpy@, rat_one(), rat_zero()],
                seq![rat_zero(), rat_zero(), rat_zero(), rat_one()],
            ],
        );
    }
    m
}

/// The translation matrix: moves points by `(x, y, z)` and leaves vectors
/// unchanged.
pub fn new_translation(x: Scalar, y: Scalar, z: Scalar) -> (r: Matrix)
    requires
        x.wf(),
        y.wf(),
        z.wf(),
    ensures
        r.wf(),
        r.width == 4,
        r.height == 4,
        r@ == seq![
            seq![rat_one(), rat_zero(), rat_zero(), x@],
            seq![rat_zero(), rat_one(), rat_zero(), y@],
            seq![rat_zero(), rat_zero(), rat_one(), z@],
            seq![rat_zero(), rat_zero(), rat_zero(), rat_one()],
        ],
{
    let one = Scalar::one();
    let zero = Scalar::zero();
    let data = vec![
        one, zero, zero, x,
        zero, one, zero, y,
        zero, zero, one, z,
        zero, zero, zero, one,
    ];
    let m = Matrix::create_matrix(4, 4, data);
    proof {
        lemma_grid4(
            m,
            seq![
                seq![rat_one(), rat_zero(), rat_zero(), x@],
                seq![rat_zero(), rat_one(), rat_zero(), y@],
                seq![rat_zero(), rat_zero(), rat_one(), z@],
                seq![rat_zero(), rat_zero(), rat_zero(), rat_one()],
            ],
        );
    }
    m
}

/// The scale matrix: multiplies the three coordinates by `(x, y, z)`.
pub fn new_scale(x: Scalar, y: Scalar, z: Scalar) -> (r: Matrix)
    requires
        x.wf(),
        y.wf(),
        z.wf(),
    ensures
        r.wf(),
        r.width == 4,
        r.height == 4,
        r@ == seq![
            seq![x@, rat_zero(), rat_zero(), rat_zero()],
            seq![rat_zero(), y@, rat_zero(), rat_zero()],
            seq![rat_zero(), rat_zero(), z@, rat_zero()],
            seq![rat_zero(), rat_zero(), rat_zero(), rat_one()],
        ],
{
    let one = Scalar::one();
    let zero = Scalar::zero();
    let data = vec![
        x, zero, zero, zero,
        zero, y, zero, zero,
        zero, zero, z, zero,
        zero, zero, zero, one,
    ];
    let m = Matrix::create_matrix(4, 4, data);
    proof {
        lemma_grid4(
            m,
            seq![
                seq![x@, rat_zero(), rat_zero(), rat_zero()],
                seq![rat_zero(), y@, rat_zero(), rat_zero()],
                seq![rat_zero(), rat_zero(), z@, rat_zero()],
                seq![rat_zero(), rat_zero(), rat_zero(), rat_one()],
            ],
        );
    }
    m
}

/// The rotation about the x axis, right-handed, given the cosine and the
/// sine of the angle.
pub fn new_rotation_x(cos: Scalar, sin: Scalar) -> (r: Matrix)
    requires
        cos.wf(),
        sin.wf(),
    ensures
        r.wf(),
        r.width == 4,
        r.height == 4,
        r@ == seq![
            seq![rat_one(), rat_zero(), rat_zero(), rat_zero()],
            seq![rat_zero(), cos@, rat_neg(sin@), rat_zero()],
            seq![rat_zero(), sin@, cos@, rat_zero()],
            seq![rat_zero(), rat_zero(), rat_zero(), rat_one()],
        ],
{
    let one = Scalar::one();
    let zero = Scalar::zero();
    let nsin = sin.neg();
    let data = vec![
        one, zero, zero, zero,
        zero, cos, nsin, zero,
        zero, sin, cos, zero,
        zero, zero, zero, one,
    ];
    let m = Matrix::create_matrix(4, 4, data);
    proof {
        lemma_grid4(
            m,
            seq![
                seq![rat_one(), rat_zero(), rat_zero(), rat_zero()],
                seq![rat_zero(), cos@, rat_neg(sin@), rat_zero()],
                seq![rat_zero(), sin@, cos@, rat_zero()],
                seq![rat_zero(), rat_zero(), rat_zero(), rat_one()],
            ],
        );
    }
    m
}

/// The rotation about the y axis, right-handed, given the cosine and the
/// sine of the angle.
pub fn new_rotation_y(cos: Scalar, sin: Scalar) -> (r: Matrix)
    requires
        cos.wf(),
        sin.wf(),
    ensures
        r.wf(),
        r.width == 4,
        r.height == 4,
        r@ == seq![
            seq![cos@, rat_zero(), sin@, rat_zero()],
            seq![rat_zero(), rat_one(), rat_zero(), rat_zero()],
            seq![rat_neg(sin@), rat_zero(), cos@, rat_zero()],
            seq![rat_zero(), rat_zero(), rat_zero(), rat_one()],
        ],
{
    let one = Scalar::one();
    let zero = Scalar::zero();
    let nsin = sin.neg();
    let data = vec![
        cos, zero, sin, zero,
        zero, one, zero, zero,
        nsin, zero, cos, zero,
        zero, zero, zero, one,
    ];
    let m = Matrix::create_matrix(4, 4, data);
    proof {
        lemma_grid4(
            m,
            seq![
                seq![cos@, rat_zero(), sin@, rat_zero()],
                seq![rat_zero(), rat_one(), rat_zero(), rat_zero()],
                seq![rat_neg(sin@), rat_zero(), cos@, rat_zero()],
                seq![rat_zero(), rat_zero(), rat_zero(), rat_one()],
            ],
        );
    }
    m
}

/// The rotation about the z axis, right-handed, given the cosine and the
/// sine of the angle.
pub fn new_rotation_z(cos: Scalar, sin: Scalar) -> (r: Matrix)
    requires
        cos.wf(),
        sin.wf(),
    ensures
        r.wf(),
        r.width == 4,
        r.height == 4,
        r@ == seq![
            seq![cos@, rat_neg(sin@), rat_zero(), rat_zero()],
            seq![sin@, cos@, rat_zero(), rat_zero()],
            seq![rat_zero(), rat_zero(), rat_one(), rat_zero()],
            seq![rat_zero(), rat_zero(), rat_zero(), rat_one()],
        ],
{
    let one = Scalar::one();
    let zero = Scalar::zero();
    let nsin = sin.neg();
    let data = vec![
        cos, nsin, zero, zero,
        sin, cos, zero, zero,
        zero, zero, one, zero,
        zero, zero, zero, one,
    ];
    let m = Matrix::create_matrix(4, 4, data);
    proof {
        lemma_grid4(
            m,
            seq![
                seq![cos@, rat_neg(sin@), rat_zero(), rat_zero()],
                seq![sin@, cos@, rat_zero(), rat_zero()],
                seq![rat_zero(), rat_zero(), rat_one(), rat_zero()],
                seq![rat_zero(), rat_zero(), rat_zero(), rat_one()],
            ],
        );
    }
    m
}

} // verus!
