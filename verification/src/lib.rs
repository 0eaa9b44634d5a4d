//! A constraint-building library for rank-1 constraint systems (R1CS).
//!
//! Circuit authors write arithmetic expressions over wire values of a prime
//! field; the library computes the concrete witness values and records the
//! algebraic constraints, then lowers them into R1CS triples with a stable
//! public-input prefix.

pub mod cs;
pub mod expr;
pub mod field;
pub mod poseidon;
pub mod r1cs;
pub mod term;
pub mod utils;
