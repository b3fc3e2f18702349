//! Exact numerical methods over rational arithmetic.
//!
//! The library implements classical iterative numerical algorithms —
//! root finding, iterative linear-system solving, polynomial and spline
//! interpolation, and ODE integration — over exact rational numbers, so
//! that every step of every method is pinned down by a verified contract.

pub mod error;
pub mod interp;
pub mod linear;
pub mod ode;
pub mod points;
pub mod poly;
pub mod rat;
pub mod roots;
pub mod spline;
