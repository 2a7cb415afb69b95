//! Products of integer-coefficient polynomials: the plain product, the
//! product modulo `x^n - 1` (cyclic convolution) and the product modulo
//! `x^n + 1` (negacyclic convolution), together with a textual rendering.
//!
//! Coefficients are stored as `i32`. All coefficient arithmetic wraps in
//! two's complement, so every operation is total: a result coefficient is the
//! exact mathematical value whenever that value is representable, and its
//! representative modulo 2^32 otherwise.
//!
//! A polynomial without coefficients is the zero polynomial: its product
//! with any polynomial has no coefficients either, and its convolutions with
//! a polynomial of `n` coefficients are `n` zeros.

pub mod convolution;
pub mod polynomial;
pub mod rendering;
pub mod wrapping;

pub use polynomial::{FoldStep, Polynomial};
