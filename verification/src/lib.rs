//! Circuits of named wires carrying 16-bit signals.
//!
//! A wire takes its signal from a constant, from another wire, or from a
//! gate combining the signals of other wires. A circuit stores wires by
//! identifier and resolves their signals on request: a wire gets its value
//! once all that it reads have theirs, a wire that depends on a missing
//! wire is marked uncomputable, and a pass fails where unresolved wires
//! depend on each other in a loop.
//!
//! [`circuit::Circuit`] is the entry point. What its passes do is stated
//! step by step in [`pass`], what their results mean in [`semantics`], and
//! what follows for every circuit in [`laws`].

pub mod circuit;
pub mod circuit_builder;
pub mod error;
pub mod gate;
pub mod laws;
pub mod pass;
mod pass_proof;
pub mod round_trip;
pub mod semantics;
pub mod signal;
pub mod store;
pub mod text;
pub mod wire;
pub mod wire_id;
