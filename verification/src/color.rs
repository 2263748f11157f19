//! Colors are tuples: the red, green and blue channels live in the `x`,
//! `y` and `z` components, and `w` is conventionally zero.

use crate::rational::rat_zero;
use crate::scalar::Scalar;
use crate::tuple::Tuple;
use vstd::prelude::*;

verus! {

/// A color: a [`Tuple`] whose `x`, `y` and `z` hold red, green and blue.
pub type Color = Tuple;

impl Tuple {
    /// A color from its three channels; `w` is 0.
    pub fn new_color(red: Scalar, green: Scalar, blue: Scalar) -> (r: Color)
        requires
            red.wf(),
            green.wf(),
            blue.wf(),
        ensures
            r.wf(),
            r@.x == red@,
            r@.y == green@,
            r@.z == blue@,
            r@.w == rat_zero(),
    {
        Tuple { x: red, y: green, z: blue, w: Scalar::zero() }
    }

    /// The red channel.
    pub fn red(&self) -> (r: Scalar)
        ensures
            r == self.x,
    {
        self.x
    }

    /// The green channel.
    pub fn green(&self) -> (r: Scalar)
        ensures
            r == self.y,
    {
        self.y
    }

    /// The blue channel.
    pub fn blue(&self) -> (r: Scalar)
        ensures
            r == self.z,
    {
        self.z
    }
}

} // verus!
