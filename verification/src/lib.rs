//! Protostar folding over generic arithmetization: constraint systems,
//! witnesses, cross-term computation and the gadget arithmetic they rest on.

pub mod field;
pub mod external_interface;
pub mod annwfn;
pub mod exec_graph;
pub mod executor;
pub mod field_utils;
pub mod cross_terms;
pub mod gate;
pub mod gatelib;
pub mod constraint_system;
pub mod witness;
pub mod combine;
pub mod prover;
pub mod gadgets;
pub mod folding;
pub mod arith_helper;
pub mod run;
pub mod weighted;
pub mod commitment;
pub mod advice;
pub mod circuit;
