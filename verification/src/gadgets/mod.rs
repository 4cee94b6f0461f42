//! The arithmetic of the gadgets: what their advice computes and what their
//! gates evaluate.

pub mod lc;
pub mod lookup;
pub mod poseidon;
pub mod bits;
pub mod bit_chunks;
pub mod ecmul;
pub mod nonzero_check;
pub mod range;
pub mod lagrange;
pub mod input;
pub mod arith;
pub mod running_prod;
pub mod cyclefold;
