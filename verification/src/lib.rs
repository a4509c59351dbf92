//! Evaluation core of an arithmetic expression engine.
//!
//! An expression tree over exact rational numbers is reduced, bottom-up and
//! left to right, to a single exact rational value, or to an error that says
//! why the reduction could not finish: an unknown identifier, a division by
//! zero, or an exponent outside the supported domain. The rational
//! arithmetic is exact and unbounded; addition, subtraction, multiplication
//! and negation never fail.

pub mod ast;
pub mod digits;
pub mod error;
pub mod rational;
pub mod semantics;

pub use error::EvalError;
pub use rational::Rational;
pub use ast::{Expr, evaluate, resolve_identifier};
