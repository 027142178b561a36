//! A state-vector quantum circuit simulator whose qubit indexing, gate
//! validation, gate fusion and circuit execution are verified with Verus.
//!
//! Amplitudes are an opaque type parameter `A`: the library moves them, and
//! the caller supplies the arithmetic on them as closures.
pub mod circuit;
pub mod error;
pub mod exact;
pub mod fuse;
pub mod gate;
pub mod index;
pub mod matrix;
pub mod state;

