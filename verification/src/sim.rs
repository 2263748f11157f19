//! A small explicit simulation state for ballistic motion: a position and
//! a velocity, advanced by a pure step function instead of mutating
//! accumulators in place.

use crate::tuple::{rat_tuple_fit, rat_tuple_eq, tup_add, Tuple};
use vstd::prelude::*;

verus! {

/// A projectile: where it is and how fast it moves.
#[derive(Clone, Copy, Debug)]
pub struct Projectile {
    pub position: Tuple,
    pub velocity: Tuple,
}

impl Projectile {
    /// Both tuples are well-formed.
    pub open spec fn wf(&self) -> bool {
        self.position.wf() && self.velocity.wf()
    }

    /// A projectile from its position and velocity.
    pub fn new_projectile(position: Tuple, velocity: Tuple) -> (r: Projectile)
        requires
            position.wf(),
            velocity.wf(),
        ensures
            r.wf(),
            r.position == position,
            r.velocity == velocity,
    {
        Projectile { position, velocity }
    }

    /// One tick: the position moves by the velocity, and the velocity
    /// gains the acceleration `gravity`.
    pub fn step(&self, gravity: &Tuple) -> (r: Option<Projectile>)
        requires
            self.wf(),
            gravity.wf(),
        ensures
            (r is Some) == (rat_tuple_fit(tup_add(self.position@, self.velocity@)) is Some
                && rat_tuple_fit(tup_add(self.velocity@, gravity@)) is Some),
            r matches Some(p) ==> p.wf() && rat_tuple_eq(
                p.position@,
                tup_add(self.position@, self.velocity@),
            ) && rat_tuple_eq(p.velocity@, tup_add(self.velocity@, gravity@)),
    {
        let position = match self.position.add(&self.velocity) {
            Some(p) => p,
            None => {
                return None;
            },
        };
        let velocity = match self.velocity.add(gravity) {
            Some(v) => v,
            None => {
                return None;
            },
        };
        Some(Projectile { position, velocity })
    }
}

} // verus!
