//! Wires: a name, an input, a signal.

use vstd::prelude::*;
use vstd::string::StrSliceExecFns;
use vstd::string::StringExecFns;
use crate::error::Error;
use crate::error::ErrorView;
use crate::gate::Gate;
use crate::gate::GateView;
use crate::gate::checked_inputs;
use crate::gate::checked_shift;
use crate::gate::gate_of_text;
use crate::gate::gate_text;
use crate::signal::Signal;
use crate::text::decimal_text;
use crate::text::find;
use crate::text::first_occurrence;
use crate::text::number_of;
use crate::text::parse_number;
use crate::text::push_decimal;
use crate::text::split;
use crate::text::split_at;
use crate::text::texts;
use crate::wire_id::WireId;
use crate::wire_id::valid_id;

verus! {

/// Where a wire takes its signal from.
#[derive(Debug, PartialEq, Eq, Hash)]
pub enum WireInput {
    /// A constant.
    Value(u16),
    /// Another wire, whose signal is passed on.
    Wire(WireId),
    /// A gate over other wires.
    Gate(Gate),
}

/// A [`WireInput`] with the ids it names as sequences of characters.
pub enum InputView {
    Value(u16),
    Wire(Seq<char>),
    Gate(GateView),
}

impl InputView {
    /// The first wire that this input reads, if it reads any.
    pub open spec fn first(self) -> Option<Seq<char>> {
        match self {
            InputView::Value(_) => None,
            InputView::Wire(id) => Some(id),
            InputView::Gate(gate) => Some(gate.first()),
        }
    }

    /// The second wire that this input reads, if it reads two.
    pub open spec fn second(self) -> Option<Seq<char>> {
        match self {
            InputView::Gate(gate) => gate.second(),
            _ => None,
        }
    }

    /// The wires that this input reads are named by wire ids.
    pub open spec fn ids_valid(self) -> bool {
        &&& self.first() is Some ==> valid_id(self.first()->0)
        &&& self.second() is Some ==> valid_id(self.second()->0)
    }

    /// Whether this input reads the wire `id`.
    pub open spec fn has_input(self, id: Seq<char>) -> bool {
        self.first() == Some(id) || self.second() == Some(id)
    }

    /// By how many places a shift gate shifts; 0 for any other input.
    pub open spec fn shift_amount(self) -> u8 {
        match self {
            InputView::Gate(gate) => gate.shift_amount(),
            _ => 0,
        }
    }

    /// A shift gate shifts by 15 places at most.
    pub open spec fn shift_in_range(self) -> bool {
        self.shift_amount() < 16
    }

    /// The value that a wire with this input carries when the first wire it
    /// reads carries `a` and the second carries `b`.
    pub open spec fn output(self, a: u16, b: u16) -> u16 {
        match self {
            InputView::Value(value) => value,
            InputView::Wire(_) => a,
            InputView::Gate(gate) => gate.apply(a, b),
        }
    }
}

impl View for WireInput {
    type V = InputView;

    open spec fn view(&self) -> InputView {
        match self {
            WireInput::Value(value) => InputView::Value(*value),
            WireInput::Wire(id) => InputView::Wire(id@),
            WireInput::Gate(gate) => InputView::Gate(gate@),
        }
    }
}

impl Clone for WireInput {
    fn clone(&self) -> (r: Self)
        ensures
            r@ == self@,
    {
        match self {
            WireInput::Value(value) => WireInput::Value(*value),
            WireInput::Wire(id) => WireInput::Wire(id.clone()),
            WireInput::Gate(gate) => WireInput::Gate(gate.clone()),
        }
    }
}

/// A named wire: its input never changes, its signal does.
#[derive(Debug, PartialEq, Eq, Hash)]
pub struct Wire {
    id: WireId,
    input: WireInput,
    signal: Signal,
}

/// A [`Wire`] as plain values.
pub struct WireView {
    pub id: Seq<char>,
    pub input: InputView,
    pub signal: Signal,
}

impl WireView {
    /// The names are wire ids, the wire does not read itself, and no gate
    /// shifts by more than 15 places.
    pub open spec fn well_formed(self) -> bool {
        &&& valid_id(self.id)
        &&& self.input.ids_valid()
        &&& !self.input.has_input(self.id)
        &&& self.input.shift_in_range()
    }
}

impl View for Wire {
    type V = WireView;

    closed spec fn view(&self) -> WireView {
        WireView { id: self.id@, input: self.input@, signal: self.signal }
    }
}

impl Clone for Wire {
    fn clone(&self) -> (r: Self)
        ensures
            r@ == self@,
    {
        proof {
            use_type_invariant(self);
        }
        Wire { id: self.id.clone(), input: self.input.clone(), signal: self.signal }
    }
}

/// A result of building a wire, seen through the views of both outcomes.
pub open spec fn wire_result_view(r: Result<Wire, Error>) -> Result<WireView, ErrorView> {
    match r {
        Ok(wire) => Ok(wire@),
        Err(e) => Err(e@),
    }
}

/// The wire `id` with the given input, not yet resolved, unless the input
/// reads `id` itself or shifts too far.
pub open spec fn checked_wire(id: Seq<char>, input: InputView) -> Result<WireView, ErrorView> {
    if input.has_input(id) {
        Err(ErrorView::InputMatchesOutput(id))
    } else if !input.shift_in_range() {
        Err(ErrorView::TooLargeShift(input.shift_amount()))
    } else {
        Ok(WireView { id, input, signal: Signal::Uncomputed })
    }
}

/// The wire named by the text `id` with the given input: `id` must be a wire
/// id, and then [`checked_wire`] decides.
pub open spec fn named_wire(id: Seq<char>, input: InputView) -> Result<WireView, ErrorView> {
    if !valid_id(id) {
        Err(ErrorView::InvalidWireId(id))
    } else {
        checked_wire(id, input)
    }
}

/// The wire named by the text `id` that passes on the signal of the wire
/// named by the text `input`: both must be wire ids, `id` first.
pub open spec fn passing_wire(id: Seq<char>, input: Seq<char>) -> Result<WireView, ErrorView> {
    if !valid_id(id) {
        Err(ErrorView::InvalidWireId(id))
    } else if !valid_id(input) {
        Err(ErrorView::InvalidWireId(input))
    } else {
        checked_wire(id, InputView::Wire(input))
    }
}

/// The wire named by the text `id` and fed by a gate that was built first:
/// a failure to build that gate comes before any fault of `id`.
pub open spec fn gate_wire(id: Seq<char>, gate: Result<GateView, ErrorView>) -> Result<
    WireView,
    ErrorView,
> {
    match gate {
        Ok(gate) => named_wire(id, InputView::Gate(gate)),
        Err(e) => Err(e),
    }
}

impl Wire {
    /// Every wire is well formed.
    #[verifier::type_invariant]
    pub closed spec fn type_inv(&self) -> bool {
        self@.well_formed()
    }

    /// The name of the wire.
    pub fn id(&self) -> (id: &WireId)
        ensures
            id@ == self@.id,
            self@.well_formed(),
    {
        proof {
            use_type_invariant(self);
        }
        &self.id
    }

    /// What feeds the wire.
    pub fn input(&self) -> (input: &WireInput)
        ensures
            input@ == self@.input,
            self@.well_formed(),
    {
        proof {
            use_type_invariant(self);
        }
        &self.input
    }

    /// The signal that the wire carries now.
    pub fn signal(&self) -> (signal: &Signal)
        ensures
            *signal == self@.signal,
    {
        &self.signal
    }

    /// Replaces the signal and nothing else.
    pub fn set_signal(&mut self, signal: Signal)
        ensures
            final(self)@ == (WireView { signal, ..old(self)@ }),
    {
        proof {
            use_type_invariant(&*self);
        }
        self.signal = signal;
    }

    /// A wire `id` fed by `input`, not yet resolved.
    pub fn new(id: WireId, input: WireInput) -> (r: Result<Wire, Error>)
        ensures
            wire_result_view(r) == checked_wire(id@, input@),
    {
        proof {
            use_type_invariant(&id);
        }
        match &input {
            WireInput::Value(_) => {},
            WireInput::Wire(input_id) => {
                proof {
                    use_type_invariant(input_id);
                }
                if id.same_as(input_id) {
                    return Err(Error::InputMatchesOutput(id.to_string()));
                }
            },
            WireInput::Gate(gate) => {
                gate.inputs_are_ids();
                if gate.has_input(&id) {
                    return Err(Error::InputMatchesOutput(id.to_string()));
                }
                match gate {
                    Gate::LShift { shift, .. } => {
                        if *shift >= 16 {
                            return Err(Error::TooLargeShift(*shift));
                        }
                    },
                    Gate::RShift { shift, .. } => {
                        if *shift >= 16 {
                            return Err(Error::TooLargeShift(*shift));
                        }
                    },
                    _ => {},
                }
            },
        }
        Ok(Wire { id, input, signal: Signal::Uncomputed })
    }

    /// A wire `id` carrying the constant `value`.
    pub fn with_value(id: &str, value: u16) -> (r: Result<Wire, Error>)
        ensures
            wire_result_view(r) == named_wire(id@, InputView::Value(value)),
    {
        match WireId::new(id) {
            Ok(id) => Wire::new(id, WireInput::Value(value)),
            Err(e) => Err(e),
        }
    }

    /// A wire `id` passing on the signal of the wire `input_id`.
    pub fn from_wire(id: &str, input_id: &str) -> (r: Result<Wire, Error>)
        ensures
            wire_result_view(r) == passing_wire(id@, input_id@),
    {
        let id = match WireId::new(id) {
            Ok(id) => id,
            Err(e) => { return Err(e); },
        };
        let input_id = match WireId::new(input_id) {
            Ok(id) => id,
            Err(e) => { return Err(e); },
        };
        Wire::new(id, WireInput::Wire(input_id))
    }

    /// A wire `id` fed by `gate`.
    pub fn from_gate(id: &str, gate: Gate) -> (r: Result<Wire, Error>)
        ensures
            wire_result_view(r) == named_wire(id@, InputView::Gate(gate@)),
    {
        match WireId::new(id) {
            Ok(id) => Wire::new(id, WireInput::Gate(gate)),
            Err(e) => Err(e),
        }
    }

    /// A wire `id` fed by `input1 AND input2`.
    pub fn from_gate_and(id: &str, input1: &str, input2: &str) -> (r: Result<Wire, Error>)
        ensures
            wire_result_view(r) == gate_wire(
                id@,
                checked_inputs(
                    input1@,
                    Some(input2@),
                    GateView::And { input1: input1@, input2: input2@ },
                ),
            ),
    {
        match Gate::and(input1, input2) {
            Ok(gate) => Wire::from_gate(id, gate),
            Err(e) => Err(e),
        }
    }

    /// A wire `id` fed by `input AND value`.
    pub fn from_gate_and_value(id: &str, input: &str, value: u16) -> (r: Result<Wire, Error>)
        ensures
            wire_result_view(r) == gate_wire(
                id@,
                checked_inputs(input@, None, GateView::AndValue { input: input@, value }),
            ),
    {
        match Gate::and_value(input, value) {
            Ok(gate) => Wire::from_gate(id, gate),
            Err(e) => Err(e),
        }
    }

    /// A wire `id` fed by `input1 OR input2`.
    pub fn from_gate_or(id: &str, input1: &str, input2: &str) -> (r: Result<Wire, Error>)
        ensures
            wire_result_view(r) == gate_wire(
                id@,
                checked_inputs(
                    input1@,
                    Some(input2@),
                    GateView::Or { input1: input1@, input2: input2@ },
                ),
            ),
    {
        match Gate::or(input1, input2) {
            Ok(gate) => Wire::from_gate(id, gate),
            Err(e) => Err(e),
        }
    }

    /// A wire `id` fed by `input OR value`.
    pub fn from_gate_or_value(id: &str, input: &str, value: u16) -> (r: Result<Wire, Error>)
        ensures
            wire_result_view(r) == gate_wire(
                id@,
                checked_inputs(input@, None, GateView::OrValue { input: input@, value }),
            ),
    {
        match Gate::or_value(input, value) {
            Ok(gate) => Wire::from_gate(id, gate),
            Err(e) => Err(e),
        }
    }

    /// A wire `id` fed by `input LSHIFT shift`.
    pub fn from_gate_lshift(id: &str, input: &str, shift: u8) -> (r: Result<Wire, Error>)
        ensures
            wire_result_view(r) == gate_wire(
                id@,
                checked_shift(input@, shift, GateView::LShift { input: input@, shift }),
            ),
    {
        match Gate::lshift(input, shift) {
            Ok(gate) => Wire::from_gate(id, gate),
            Err(e) => Err(e),
        }
    }

    /// A wire `id` fed by `input RSHIFT shift`.
    pub fn from_gate_rshift(id: &str, input: &str, shift: u8) -> (r: Result<Wire, Error>)
        ensures
            wire_result_view(r) == gate_wire(
                id@,
                checked_shift(input@, shift, GateView::RShift { input: input@, shift }),
            ),
    {
        match Gate::rshift(input, shift) {
            Ok(gate) => Wire::from_gate(id, gate),
            Err(e) => Err(e),
        }
    }

    /// A wire `id` fed by `NOT input`.
    pub fn from_gate_not(id: &str, input: &str) -> (r: Result<Wire, Error>)
        ensures
            wire_result_view(r) == gate_wire(
                id@,
                checked_inputs(input@, None, GateView::Not { input: input@ }),
            ),
    {
        match Gate::not(input) {
            Ok(gate) => Wire::from_gate(id, gate),
            Err(e) => Err(e),
        }
    }
}

/// The wire that `text` describes: what feeds it, the arrow `" -> "`, and
/// its name. What stands before the first arrow is a number, the name of a
/// wire, or, where it holds a space, a gate.
pub open spec fn wire_of_text(text: Seq<char>) -> Result<WireView, ErrorView> {
    match first_occurrence(text, " -> "@) {
        None => Err(ErrorView::ParseArrow(text)),
        Some(at) => {
            let input = text.subrange(0, at);
            let output = text.subrange(at + 4, text.len() as int);
            let parts = split_at(input, ' ');
            if parts.len() == 1 {
                match number_of(parts[0]) {
                    Some(n) => if n <= 0xffff {
                        named_wire(output, InputView::Value(n as u16))
                    } else if n <= u64::MAX {
                        Err(ErrorView::TooLargeValue(n as u64))
                    } else {
                        passing_wire(output, parts[0])
                    },
                    None => passing_wire(output, parts[0]),
                }
            } else {
                gate_wire(output, gate_of_text(input))
            }
        },
    }
}

/// How the input of a wire is written.
pub open spec fn input_text(input: InputView) -> Seq<char> {
    match input {
        InputView::Value(value) => decimal_text(value as nat),
        InputView::Wire(id) => id,
        InputView::Gate(gate) => gate_text(gate),
    }
}

/// How a wire is written: its input, the arrow, its name.
pub open spec fn wire_text(wire: WireView) -> Seq<char> {
    input_text(wire.input) + " -> "@ + wire.id
}

impl Wire {
    /// Reads a wire from its text.
    pub fn try_from(text: &str) -> (r: Result<Wire, Error>)
        ensures
            wire_result_view(r) == wire_of_text(text@),
    {
        proof {
            reveal_strlit(" -> ");
        }
        let at = match find(text, " -> ") {
            Some(at) => at,
            None => { return Err(Error::ParseArrow(text.to_owned())); },
        };
        let n = text.unicode_len();
        let input = text.substring_char(0, at);
        let output = text.substring_char(at + 4, n);
        let parts = split(input, ' ');
        assert(texts(parts@)[0] == parts@[0]@);
        if parts.len() == 1 {
            match parse_number(parts[0], 0xffff) {
                Some(value) => Wire::with_value(output, value as u16),
                None => match parse_number(parts[0], u64::MAX) {
                    Some(value) => Err(Error::TooLargeValue(value)),
                    None => Wire::from_wire(output, parts[0]),
                },
            }
        } else {
            match Gate::try_from(input) {
                Ok(gate) => Wire::from_gate(output, gate),
                Err(e) => Err(e),
            }
        }
    }

    /// Writes the wire as text.
    pub fn to_string(&self) -> (text: String)
        ensures
            text@ == wire_text(self@),
    {
        let mut text = match &self.input {
            WireInput::Value(value) => {
                let mut text = String::new();
                push_decimal(&mut text, *value as u64);
                text
            },
            WireInput::Wire(id) => id.to_string(),
            WireInput::Gate(gate) => gate.to_string(),
        };
        text.append(" -> ");
        text.append(self.id.as_str());
        assert(text@ =~= wire_text(self@));
        text
    }
}

} // verus!
