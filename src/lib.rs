//! The proving side of a STARK over the prime field `15 * 2^27 + 1`: field arithmetic,
//! dense matrices, systematic codes, transforms over two-adic subgroups and low-degree
//! extension, FRI folding, commit and query phases, the quotient construction, and the
//! drivers that sequence them against a commitment scheme and a Fiat-Shamir transcript.

pub mod field;
pub mod util;
pub mod matrix;
pub mod wrapped_matrix;
pub mod code;
pub mod dft;
pub mod fri;
pub mod commit_phase;
pub mod fri_prover;
pub mod quotient;
pub mod stark;
pub mod opening;
pub mod fibonacci;
pub mod challenger;
pub mod merkle;
