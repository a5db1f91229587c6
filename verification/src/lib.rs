//! A module-lattice key-encapsulation mechanism over the prime field F_q,
//! q = 3329: field arithmetic with Montgomery and Barrett reductions,
//! polynomials in R_q = F_q[X]/(X^256 + 1) with a number-theoretic transform,
//! an IND-CPA public-key encryption over a module of rank 2, 3 or 4, and the
//! Fujisaki-Okamoto transform that turns it into an IND-CCA KEM with implicit
//! rejection.

pub mod coefficient;
pub mod block;
pub mod poly;
pub mod hashes;
pub mod ct;
pub mod generator;
pub mod config;
pub mod indcpa;
pub mod kem;
pub mod laws;
