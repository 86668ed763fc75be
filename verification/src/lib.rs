//! Core of a binary-analysis engine over a lifted intermediate language (IL).
//!
//! The crate provides two engines over a control-flow graph of IL
//! instructions: a fixed-point dataflow solver instantiated with a
//! value-set lattice domain (abstract interpretation), and a symbolic
//! execution driver with a byte-granular symbolic memory that forks at
//! conditional branches.

pub mod assignments;
pub mod driver;
pub mod engine;
pub mod error;
pub mod fixed_point;
pub mod il;
pub mod lattice;
pub mod location;
pub mod memory;
pub mod value_set;

use vstd::prelude::*;

verus! {

} // verus!
