//! Modular rank and linear-complexity tests for pseudorandom number generators
//! over prime fields.
pub mod fp;
pub mod lfsr;
pub mod rank;
pub mod prng;
pub mod cli;
pub mod sample;
pub mod fermat;
pub mod rank_bound;
