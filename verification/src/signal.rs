//! The three states of a wire.

use vstd::prelude::*;

verus! {

/// The signal carried by a wire.
#[derive(Clone, Copy, Debug, PartialEq, Eq, Structural, Hash)]
pub enum Signal {
    /// Not resolved yet.
    Uncomputed,
    /// Depends, directly or through other wires, on a wire that the circuit lacks.
    Uncomputable,
    /// The resolved 16-bit value.
    Value(u16),
}

impl Default for Signal {
    fn default() -> (s: Signal)
        ensures
            s == Signal::Uncomputed,
    {
        Signal::Uncomputed
    }
}

} // verus!
