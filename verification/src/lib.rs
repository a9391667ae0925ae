//! A structured discrete-logarithm recovery engine.
//!
//! Given pairing-target-group elements that are known powers of a hidden
//! trapdoor exponent, the engine recovers that exponent with two
//! baby-step/giant-step searches: one over a bounded window `[A, B]` and one
//! over a smooth cofactor `D` of the group order, followed by a mixed-radix
//! recombination of the two partial logarithms.

pub mod scalar;
pub mod group;
pub mod solver;
pub mod driver;
