//! Compiler core for Clifford+T quantum circuits.
//!
//! Circuits over {X, CNOT, Phase, CZ, CCZ, CS, SWAP, H} are
//! partitioned into alternating CNOT+Phase and Clifford blocks, interior
//! Hadamards are turned into ancilla gadgets, blocks are canonicalized to
//! CNOT+Phase form, and their diagonal non-Clifford content is extracted
//! into a boolean gate-synthesis matrix.  Matrices can be re-synthesized
//! into circuits, with CCZ/CS pattern recognition, and compared through
//! their phase polynomials and mod-2 signature tensors.

pub mod circuit;
pub mod equiv;
pub mod matrix;
pub mod extract;
pub mod decompose;
pub mod hadamard;
