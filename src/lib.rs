//! Prover side of VOLE-in-the-head.
//!
//! - `poly`: polynomials over GF(2) and their carry-less arithmetic, as a model.
//! - `gf2p128`: the field GF(2^128), proved against that model, with its laws.
//! - `hash`: BLAKE3 as hash and extendable-output function.
//! - `vc`: an all-but-one vector commitment to pseudorandom seeds.
//! - `sender`: the sender state machine that builds the VOLE correlation.
//! - `keccak`: Bristol-format boolean circuits and the permutation they are
//!   checked against.
//! - `prove`: the field choice of the proof driver.
pub mod gf2p128;
pub mod hash;
pub mod keccak;
pub mod poly;
pub mod prove;
pub mod sender;
pub mod vc;
