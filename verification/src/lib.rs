//! A small exact linear-algebra kernel for building and transforming
//! geometric data: 4-component tuples (points, vectors, colors), dense
//! matrices with determinant and inverse by cofactor expansion, affine
//! transform builders, and a pixel canvas that serializes to a plain-text
//! image format.
//!
//! Every numeric value is an exact rational ([`scalar::Scalar`]), so the
//! contracts of the matrix engine can state results exactly against a
//! mathematical model ([`rational::Rat`]). Operations whose exact result
//! does not fit the bounded representation report `None` instead of
//! returning a rounded value.

pub mod canvas;
pub mod color;
pub mod compare;
pub mod laws;
pub mod linalg;
pub mod matrix;
pub mod rational;
pub mod scalar;
pub mod sim;
pub mod transform;
pub mod tuple;
