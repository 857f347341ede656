//! Exact evaluation of cardinal B-splines and their derivatives, and
//! fast-doubling Fibonacci numbers.
//!
//! The spline evaluators work on exact rational numbers, so the structural
//! identities of the cardinal B-spline family (evenness, compact support,
//! the derivative recurrences, partition of unity) are stated and proved
//! as theorems over a mathematical model rather than tested approximately.

pub mod capacity;
pub mod fibonacci;
pub mod partition;
pub mod rational;
pub mod spline_deriv;
pub mod spline_eval;
pub mod spline_model;
