//! Dense matrices over an abstract ring, zero-copy views of them, and the
//! linear-algebra kernels built on top: products, transposition, Cholesky
//! factorisation and inversion, each in a plain form, in a form that works
//! tile by tile, and in a form cut into pieces that do not depend on each
//! other.
//!
//! Every kernel is stated against the mathematical model of its operands:
//! a matrix is a function from in-range coordinates to elements, and the
//! arithmetic of the element type is named by the spec functions of
//! [`matrix::Ring`], [`matrix::Sqrt`] and [`matrix::Scalar`]. What a kernel
//! returns is pinned down to the last operation, so the tiled and the cut
//! forms are proved to return what the plain form returns.
//!
//! The library starts no threads. The pieces of the cut forms read shared
//! operands and return values of their own; a program may run them on
//! workers and hand the results to the assembly functions.
pub mod matrix;
