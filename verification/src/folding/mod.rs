//! Folding: the hash, the challenges and the shape of folded instances.

pub mod poseidon;
pub mod shape;
pub mod oracle;
