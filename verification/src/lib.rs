//! Exact analysis of direct-current circuits built from nested series and
//! parallel groups of resistors and ideal meters.
//!
//! A circuit is a battery across a tree of elements. Solving it annotates
//! every element with the voltage, current and resistance at its place, and
//! the result can be shown as text with metric prefixes.
//!
//! Every electrical quantity is an exact rational number, extended by the two
//! infinities and an indeterminate value, so the laws of the circuit hold
//! without rounding. A computation whose exact result does not fit the
//! machine representation reports that instead of approximating.
//!
//! - `scalar`: the numbers and their arithmetic
//! - `divisors`: greatest common divisors, for fractions in lowest terms
//! - `schema`: the tree of elements and its resistance
//! - `solver`: the quantities at every element
//! - `renderer`: a number as text with a unit and a metric prefix
//! - `presentation`: a solved circuit as text
//! - `laws`: what holds of every circuit

pub mod divisors;
pub mod scalar;
pub mod schema;
pub mod solver;
pub mod renderer;
pub mod presentation;
pub mod laws;
