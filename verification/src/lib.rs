//! A small zero-knowledge-style proving pipeline over a prime field:
//! an arithmetic expression is compiled into a layered circuit, a witness
//! is solved for a concrete input assignment, the circuit is evaluated to
//! check its public-equality obligations, and a sumcheck-based protocol
//! with a Fiat-Shamir transcript produces a proof that a verifier can
//! replay and check without re-executing the circuit.

pub mod circuit;
pub mod codec;
pub mod eval;
pub mod expr;
pub mod field;
pub mod laws;
pub mod parser;
pub mod protocol;
pub mod solver;
pub mod sumcheck;
pub mod transcript;
pub mod world;
