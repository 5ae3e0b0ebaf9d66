//! Sign analysis of a small imperative language by abstract interpretation.
//!
//! The language has assignment, input, sequencing, conditionals and loops.
//! `concrete` holds its syntax and an interpreter over a memory of integers;
//! `domain` holds the sign lattice and environments of signs;
//! `abstract_int` runs a program over such an environment;
//! `soundness` relates the two executions.

pub mod concrete;
pub mod domain;
pub mod abstract_int;
pub mod soundness;
