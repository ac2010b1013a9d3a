//! A numerical-analysis toolkit built on saturating fixed-point arithmetic:
//! quadrature rules (trapezoid, Simpson, Gauss-Legendre, Chebyshev-Horinouchi,
//! double-exponential) in one and two dimensions, scalar root finding, and
//! polynomial approximation, each with a verified contract.

pub mod fx;
pub mod elementary;
pub mod equation;
pub mod polynomial;
pub mod integral;
pub mod double;
pub mod interpolation;
