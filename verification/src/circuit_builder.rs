//! A builder that collects wires and makes a circuit of them.

use vstd::prelude::*;
use crate::circuit::Circuit;
use crate::circuit::reset_of;
use crate::error::Error;
use crate::error::ErrorView;
use crate::gate::GateView;
use crate::gate::checked_inputs;
use crate::gate::checked_shift;
use crate::store::WireStore;
use crate::wire::InputView;
use crate::wire::Wire;
use crate::wire::WireView;
use crate::wire::gate_wire;
use crate::wire::named_wire;
use crate::wire::passing_wire;
use crate::wire::wire_of_text;
use crate::wire::wire_result_view;

verus! {

/// Collects wires, then makes a [`Circuit`] of them.
pub struct CircuitBuilder {
    wires: WireStore,
}

/// A [`CircuitBuilder`] as plain values.
pub struct BuilderView {
    /// The wires collected, by name.
    pub wires: Map<Seq<char>, WireView>,
    /// The names of the wires in the order in which they were collected.
    pub order: Seq<Seq<char>>,
}

impl View for CircuitBuilder {
    type V = BuilderView;

    closed spec fn view(&self) -> BuilderView {
        BuilderView { wires: self.wires@, order: self.wires.order() }
    }
}

/// A builder that has collected nothing.
pub open spec fn nothing_collected() -> BuilderView {
    BuilderView { wires: Map::empty(), order: Seq::empty() }
}

/// What collecting a wire that was built first leaves of the wires
/// collected so far: a failure to build the wire is passed on, a name
/// already collected is refused, and else the wire is added.
pub open spec fn collect_outcome(before: BuilderView, wire: Result<WireView, ErrorView>) -> Result<
    BuilderView,
    ErrorView,
> {
    match wire {
        Err(e) => Err(e),
        Ok(wire) => if before.wires.contains_key(wire.id) {
            Err(ErrorView::WireIdAlreadyExists(wire.id))
        } else {
            Ok(
                BuilderView {
                    wires: before.wires.insert(wire.id, wire),
                    order: before.order.push(wire.id),
                },
            )
        },
    }
}

impl Clone for CircuitBuilder {
    /// A builder that has collected copies of the same wires.
    fn clone(&self) -> (copy: CircuitBuilder)
        ensures
            copy.wf(),
            self.wf() ==> copy@ == self@,
    {
        CircuitBuilder { wires: self.wires.clone() }
    }
}

impl Default for CircuitBuilder {
    fn default() -> (builder: CircuitBuilder)
        ensures
            builder.wf(),
            builder@ == nothing_collected(),
    {
        CircuitBuilder::new()
    }
}

impl CircuitBuilder {
    /// The wires collected are in order.
    pub closed spec fn wf(&self) -> bool {
        self.wires.wf()
    }

    /// What a call that collects a wire hands back and leaves. On success
    /// it hands back the builder itself, then holding what `outcome` says:
    /// `handed` is that builder as handed back and as the caller leaves it,
    /// which is how `after`, the builder after the call, will be. On
    /// failure it hands back the error, the builder being as it was.
    pub open spec fn collected(
        before: CircuitBuilder,
        after: CircuitBuilder,
        handed: Result<(CircuitBuilder, CircuitBuilder), ErrorView>,
        outcome: Result<BuilderView, ErrorView>,
    ) -> bool {
        match outcome {
            Ok(held) => handed is Ok && handed->Ok_0.0@ == held && handed->Ok_0.0.wf() && after
                == handed->Ok_0.1,
            Err(e) => handed == Err::<(CircuitBuilder, CircuitBuilder), ErrorView>(e) && after
                == before,
        }
    }

    /// Creates an empty builder.
    pub fn new() -> (builder: CircuitBuilder)
        ensures
            builder.wf(),
            builder@ == nothing_collected(),
    {
        CircuitBuilder { wires: WireStore::new() }
    }

    /// Makes a circuit of the wires collected, all unresolved and waiting,
    /// and leaves the builder empty.
    pub fn build(&mut self) -> (circuit: Circuit)
        requires
            old(self).wf(),
        ensures
            final(self).wf(),
            final(self)@ == nothing_collected(),
            circuit.wf(),
            reset_of(old(self)@.wires, old(self)@.order, circuit@),
    {
        let mut wires = WireStore::new();
        std::mem::swap(&mut self.wires, &mut wires);
        Circuit::from_store(wires)
    }

    /// Collects `wire`, unless its name is taken.
    pub fn add(&mut self, wire: Wire) -> (r: Result<&mut CircuitBuilder, Error>)
        requires
            old(self).wf(),
        ensures
            CircuitBuilder::collected(
                *old(self),
                *final(self),
                match r {
                    Ok(builder) => Ok((*builder, *final(builder))),
                    Err(e) => Err(e@),
                },
                collect_outcome(old(self)@, Ok(wire@)),
            ),
    {
        if self.wires.contains(wire.id()) {
            Err(Error::WireIdAlreadyExists(wire.id().to_string()))
        } else {
            self.wires.insert(wire);
            Ok(self)
        }
    }

    /// Collects the wire that `built` holds, or passes on the failure to
    /// build it.
    pub fn add_built(&mut self, built: Result<Wire, Error>) -> (r: Result<
        &mut CircuitBuilder,
        Error,
    >)
        requires
            old(self).wf(),
        ensures
            CircuitBuilder::collected(
                *old(self),
                *final(self),
                match r {
                    Ok(builder) => Ok((*builder, *final(builder))),
                    Err(e) => Err(e@),
                },
                collect_outcome(old(self)@, wire_result_view(built)),
            ),
    {
        match built {
            Ok(wire) => self.add(wire),
            Err(e) => Err(e),
        }
    }

    /// Collects a wire `id` carrying the constant `value`.
    pub fn add_wire_with_value(&mut self, id: &str, value: u16) -> (r: Result<
        &mut CircuitBuilder,
        Error,
    >)
        requires
            old(self).wf(),
        ensures
            CircuitBuilder::collected(
                *old(self),
                *final(self),
                match r {
                    Ok(builder) => Ok((*builder, *final(builder))),
                    Err(e) => Err(e@),
                },
                collect_outcome(old(self)@, named_wire(id@, InputView::Value(value))),
            ),
    {
        self.add_built(Wire::with_value(id, value))
    }

    /// Collects a wire `id` passing on the signal of the wire `input_id`.
    pub fn add_wire_from_wire(&mut self, id: &str, input_id: &str) -> (r: Result<&mut CircuitBuilder, Error>)
        requires
            old(self).wf(),
        ensures
            CircuitBuilder::collected(
                *old(self),
                *final(self),
                match r {
                    Ok(builder) => Ok((*builder, *final(builder))),
                    Err(e) => Err(e@),
                },
                collect_outcome(old(self)@, passing_wire(id@, input_id@)),
            ),
    {
        self.add_built(Wire::from_wire(id, input_id))
    }

    /// Collects a wire `output` fed by `input1 AND input2`.
    pub fn add_gate_and(&mut self, output: &str, input1: &str, input2: &str) -> (r: Result<&mut CircuitBuilder, Error>)
        requires
            old(self).wf(),
        ensures
            CircuitBuilder::collected(
                *old(self),
                *final(self),
                match r {
                    Ok(builder) => Ok((*builder, *final(builder))),
                    Err(e) => Err(e@),
                },
                collect_outcome(old(self)@, gate_wire(
                    output@,
                    checked_inputs(
                        input1@,
                        Some(input2@),
                        GateView::And { input1: input1@, input2: input2@ },
                    ),
                )),
            ),
    {
        self.add_built(Wire::from_gate_and(output, input1, input2))
    }

    /// Collects a wire `output` fed by `input AND value`.
    pub fn add_gate_and_value(&mut self, output: &str, input: &str, value: u16) -> (r: Result<&mut CircuitBuilder, Error>)
        requires
            old(self).wf(),
        ensures
            CircuitBuilder::collected(
                *old(self),
                *final(self),
                match r {
                    Ok(builder) => Ok((*builder, *final(builder))),
                    Err(e) => Err(e@),
                },
                collect_outcome(old(self)@, gate_wire(
                    output@,
                    checked_inputs(input@, None, GateView::AndValue { input: input@, value }),
                )),
            ),
    {
        self.add_built(Wire::from_gate_and_value(output, input, value))
    }

    /// Collects a wire `output` fed by `input1 OR input2`.
    pub fn add_gate_or(&mut self, output: &str, input1: &str, input2: &str) -> (r: Result<&mut CircuitBuilder, Error>)
        requires
            old(self).wf(),
        ensures
            CircuitBuilder::collected(
                *old(self),
                *final(self),
                match r {
                    Ok(builder) => Ok((*builder, *final(builder))),
                    Err(e) => Err(e@),
                },
                collect_outcome(old(self)@, gate_wire(
                    output@,
                    checked_inputs(
                        input1@,
                        Some(input2@),
                        GateView::Or { input1: input1@, input2: input2@ },
                    ),
                )),
            ),
    {
        self.add_built(Wire::from_gate_or(output, input1, input2))
    }

    /// Collects a wire `output` fed by `input OR value`.
    pub fn add_gate_or_value(&mut self, output: &str, input: &str, value: u16) -> (r: Result<&mut CircuitBuilder, Error>)
        requires
            old(self).wf(),
        ensures
            CircuitBuilder::collected(
                *old(self),
                *final(self),
                match r {
                    Ok(builder) => Ok((*builder, *final(builder))),
                    Err(e) => Err(e@),
                },
                collect_outcome(old(self)@, gate_wire(
                    output@,
                    checked_inputs(input@, None, GateView::OrValue { input: input@, value }),
                )),
            ),
    {
        self.add_built(Wire::from_gate_or_value(output, input, value))
    }

    /// Collects a wire `output` fed by `input LSHIFT shift`.
    pub fn add_gate_lshift(&mut self, output: &str, input: &str, shift: u8) -> (r: Result<&mut CircuitBuilder, Error>)
        requires
            old(self).wf(),
        ensures
            CircuitBuilder::collected(
                *old(self),
                *final(self),
                match r {
                    Ok(builder) => Ok((*builder, *final(builder))),
                    Err(e) => Err(e@),
                },
                collect_outcome(old(self)@, gate_wire(
                    output@,
                    checked_shift(input@, shift, GateView::LShift { input: input@, shift }),
                )),
            ),
    {
        self.add_built(Wire::from_gate_lshift(output, input, shift))
    }

    /// Collects a wire `output` fed by `input RSHIFT shift`.
    pub fn add_gate_rshift(&mut self, output: &str, input: &str, shift: u8) -> (r: Result<&mut CircuitBuilder, Error>)
        requires
            old(self).wf(),
        ensures
            CircuitBuilder::collected(
                *old(self),
                *final(self),
                match r {
                    Ok(builder) => Ok((*builder, *final(builder))),
                    Err(e) => Err(e@),
                },
                collect_outcome(old(self)@, gate_wire(
                    output@,
                    checked_shift(input@, shift, GateView::RShift { input: input@, shift }),
                )),
            ),
    {
        self.add_built(Wire::from_gate_rshift(output, input, shift))
    }

    /// Collects a wire `output` fed by `NOT input`.
    pub fn add_gate_not(&mut self, output: &str, input: &str) -> (r: Result<&mut CircuitBuilder, Error>)
        requires
            old(self).wf(),
        ensures
            CircuitBuilder::collected(
                *old(self),
                *final(self),
                match r {
                    Ok(builder) => Ok((*builder, *final(builder))),
                    Err(e) => Err(e@),
                },
                collect_outcome(old(self)@, gate_wire(
                    output@,
                    checked_inputs(input@, None, GateView::Not { input: input@ }),
                )),
            ),
    {
        self.add_built(Wire::from_gate_not(output, input))
    }

    /// Collects the wire that `text` describes.
    pub fn add_wire(&mut self, text: &str) -> (r: Result<&mut CircuitBuilder, Error>)
        requires
            old(self).wf(),
        ensures
            CircuitBuilder::collected(
                *old(self),
                *final(self),
                match r {
                    Ok(builder) => Ok((*builder, *final(builder))),
                    Err(e) => Err(e@),
                },
                collect_outcome(old(self)@, wire_of_text(text@)),
            ),
    {
        self.add_built(Wire::try_from(text))
    }
}

} // verus!
