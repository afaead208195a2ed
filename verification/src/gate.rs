//! Logic gates: what they read, what they emit, and how they are written.

use vstd::prelude::*;
use vstd::string::StringExecFns;
use crate::error::Error;
use crate::error::ErrorView;
use crate::signal::Signal;
use crate::text::decimal_text;
use crate::text::number_upto;
use crate::text::parse_number;
use crate::text::push_decimal;
use crate::text::same_text;
use crate::text::split;
use crate::text::split_at;
use crate::text::texts;
use crate::wire_id::WireId;
use crate::wire_id::valid_id;

verus! {

/// A logic gate: which wires feed it and what it does to their signals.
#[derive(Debug, PartialEq, Eq, Hash)]
pub enum Gate {
    And { input1: WireId, input2: WireId },
    AndValue { input: WireId, value: u16 },
    Or { input1: WireId, input2: WireId },
    OrValue { input: WireId, value: u16 },
    LShift { input: WireId, shift: u8 },
    RShift { input: WireId, shift: u8 },
    Not { input: WireId },
}

/// A [`Gate`] with its input ids as sequences of characters.
pub enum GateView {
    And { input1: Seq<char>, input2: Seq<char> },
    AndValue { input: Seq<char>, value: u16 },
    Or { input1: Seq<char>, input2: Seq<char> },
    OrValue { input: Seq<char>, value: u16 },
    LShift { input: Seq<char>, shift: u8 },
    RShift { input: Seq<char>, shift: u8 },
    Not { input: Seq<char> },
}

impl GateView {
    /// By how many places a shift gate shifts; 0 for the other gates.
    pub open spec fn shift_amount(self) -> u8 {
        match self {
            GateView::LShift { shift, .. } => shift,
            GateView::RShift { shift, .. } => shift,
            _ => 0,
        }
    }

    /// A shift gate shifts by 15 places at most.
    pub open spec fn shift_in_range(self) -> bool {
        self.shift_amount() < 16
    }

    /// The first, or only, input wire.
    pub open spec fn first(self) -> Seq<char> {
        match self {
            GateView::And { input1, .. } => input1,
            GateView::AndValue { input, .. } => input,
            GateView::Or { input1, .. } => input1,
            GateView::OrValue { input, .. } => input,
            GateView::LShift { input, .. } => input,
            GateView::RShift { input, .. } => input,
            GateView::Not { input } => input,
        }
    }

    /// The second input wire, for the gates that have two.
    pub open spec fn second(self) -> Option<Seq<char>> {
        match self {
            GateView::And { input2, .. } => Some(input2),
            GateView::Or { input2, .. } => Some(input2),
            _ => None,
        }
    }

    /// The inputs are named by wire ids.
    pub open spec fn ids_valid(self) -> bool {
        valid_id(self.first()) && (self.second() is Some ==> valid_id(self.second()->0))
    }

    /// Whether the wire `id` feeds this gate.
    pub open spec fn has_input(self, id: Seq<char>) -> bool {
        self.first() == id || self.second() == Some(id)
    }

    /// What this gate emits when its first input carries `a` and its second,
    /// if it has one, carries `b`.
    pub open spec fn apply(self, a: u16, b: u16) -> u16 {
        match self {
            GateView::And { .. } => a & b,
            GateView::AndValue { value, .. } => a & value,
            GateView::Or { .. } => a | b,
            GateView::OrValue { value, .. } => a | value,
            GateView::LShift { shift, .. } => a << shift,
            GateView::RShift { shift, .. } => a >> shift,
            GateView::Not { .. } => !a,
        }
    }
}

impl View for Gate {
    type V = GateView;

    open spec fn view(&self) -> GateView {
        match self {
            Gate::And { input1, input2 } => GateView::And { input1: input1@, input2: input2@ },
            Gate::AndValue { input, value } => GateView::AndValue { input: input@, value: *value },
            Gate::Or { input1, input2 } => GateView::Or { input1: input1@, input2: input2@ },
            Gate::OrValue { input, value } => GateView::OrValue { input: input@, value: *value },
            Gate::LShift { input, shift } => GateView::LShift { input: input@, shift: *shift },
            Gate::RShift { input, shift } => GateView::RShift { input: input@, shift: *shift },
            Gate::Not { input } => GateView::Not { input: input@ },
        }
    }
}

impl Clone for Gate {
    fn clone(&self) -> (r: Self)
        ensures
            r@ == self@,
    {
        match self {
            Gate::And { input1, input2 } => Gate::And {
                input1: input1.clone(),
                input2: input2.clone(),
            },
            Gate::AndValue { input, value } => Gate::AndValue { input: input.clone(), value: *value },
            Gate::Or { input1, input2 } => Gate::Or {
                input1: input1.clone(),
                input2: input2.clone(),
            },
            Gate::OrValue { input, value } => Gate::OrValue { input: input.clone(), value: *value },
            Gate::LShift { input, shift } => Gate::LShift { input: input.clone(), shift: *shift },
            Gate::RShift { input, shift } => Gate::RShift { input: input.clone(), shift: *shift },
            Gate::Not { input } => Gate::Not { input: input.clone() },
        }
    }
}

/// What building a gate from the texts `first` and `second` gives: `made`
/// where both are wire ids, else the fault of the first of them that is
/// none.
pub open spec fn checked_inputs(
    first: Seq<char>,
    second: Option<Seq<char>>,
    made: GateView,
) -> Result<GateView, ErrorView> {
    if !valid_id(first) {
        Err(ErrorView::InvalidWireId(first))
    } else if second is Some && !valid_id(second->0) {
        Err(ErrorView::InvalidWireId(second->0))
    } else {
        Ok(made)
    }
}

/// What building a shift gate gives: the input must be a wire id, then the
/// shift at most 15.
pub open spec fn checked_shift(input: Seq<char>, shift: u8, made: GateView) -> Result<
    GateView,
    ErrorView,
> {
    if !valid_id(input) {
        Err(ErrorView::InvalidWireId(input))
    } else if shift >= 16 {
        Err(ErrorView::TooLargeShift(shift))
    } else {
        Ok(made)
    }
}

/// A result of building a gate, seen through the views of both outcomes.
pub open spec fn gate_result_view(r: Result<Gate, Error>) -> Result<GateView, ErrorView> {
    match r {
        Ok(g) => Ok(g@),
        Err(e) => Err(e@),
    }
}

impl Gate {
    /// A gate `input1 AND input2`.
    pub fn and(input1: &str, input2: &str) -> (r: Result<Gate, Error>)
        ensures
            gate_result_view(r) == checked_inputs(
                input1@,
                Some(input2@),
                GateView::And { input1: input1@, input2: input2@ },
            ),
    {
        let input1 = match WireId::new(input1) {
            Ok(id) => id,
            Err(e) => { return Err(e); },
        };
        let input2 = match WireId::new(input2) {
            Ok(id) => id,
            Err(e) => { return Err(e); },
        };
        Ok(Gate::And { input1, input2 })
    }

    /// A gate `input AND value`.
    pub fn and_value(input: &str, value: u16) -> (r: Result<Gate, Error>)
        ensures
            gate_result_view(r) == checked_inputs(
                input@,
                None,
                GateView::AndValue { input: input@, value },
            ),
    {
        match WireId::new(input) {
            Ok(input) => Ok(Gate::AndValue { input, value }),
            Err(e) => Err(e),
        }
    }

    /// A gate `input1 OR input2`.
    pub fn or(input1: &str, input2: &str) -> (r: Result<Gate, Error>)
        ensures
            gate_result_view(r) == checked_inputs(
                input1@,
                Some(input2@),
                GateView::Or { input1: input1@, input2: input2@ },
            ),
    {
        let input1 = match WireId::new(input1) {
            Ok(id) => id,
            Err(e) => { return Err(e); },
        };
        let input2 = match WireId::new(input2) {
            Ok(id) => id,
            Err(e) => { return Err(e); },
        };
        Ok(Gate::Or { input1, input2 })
    }

    /// A gate `input OR value`.
    pub fn or_value(input: &str, value: u16) -> (r: Result<Gate, Error>)
        ensures
            gate_result_view(r) == checked_inputs(
                input@,
                None,
                GateView::OrValue { input: input@, value },
            ),
    {
        match WireId::new(input) {
            Ok(input) => Ok(Gate::OrValue { input, value }),
            Err(e) => Err(e),
        }
    }

    /// A gate `input LSHIFT shift`.
    pub fn lshift(input: &str, shift: u8) -> (r: Result<Gate, Error>)
        ensures
            gate_result_view(r) == checked_shift(
                input@,
                shift,
                GateView::LShift { input: input@, shift },
            ),
    {
        let input = match WireId::new(input) {
            Ok(id) => id,
            Err(e) => { return Err(e); },
        };
        if shift < 16 {
            Ok(Gate::LShift { input, shift })
        } else {
            Err(Error::TooLargeShift(shift))
        }
    }

    /// A gate `input RSHIFT shift`.
    pub fn rshift(input: &str, shift: u8) -> (r: Result<Gate, Error>)
        ensures
            gate_result_view(r) == checked_shift(
                input@,
                shift,
                GateView::RShift { input: input@, shift },
            ),
    {
        let input = match WireId::new(input) {
            Ok(id) => id,
            Err(e) => { return Err(e); },
        };
        if shift < 16 {
            Ok(Gate::RShift { input, shift })
        } else {
            Err(Error::TooLargeShift(shift))
        }
    }

    /// A gate `NOT input`.
    pub fn not(input: &str) -> (r: Result<Gate, Error>)
        ensures
            gate_result_view(r) == checked_inputs(input@, None, GateView::Not { input: input@ }),
    {
        match WireId::new(input) {
            Ok(input) => Ok(Gate::Not { input }),
            Err(e) => Err(e),
        }
    }

    /// Does nothing, and tells the caller that the inputs of a gate are
    /// named by wire ids.
    pub fn inputs_are_ids(&self)
        ensures
            self@.ids_valid(),
    {
        match self {
            Gate::And { input1, input2 } => {
                proof {
                    use_type_invariant(input1);
                    use_type_invariant(input2);
                }
            },
            Gate::Or { input1, input2 } => {
                proof {
                    use_type_invariant(input1);
                    use_type_invariant(input2);
                }
            },
            Gate::AndValue { input, .. } => {
                proof {
                    use_type_invariant(input);
                }
            },
            Gate::OrValue { input, .. } => {
                proof {
                    use_type_invariant(input);
                }
            },
            Gate::LShift { input, .. } => {
                proof {
                    use_type_invariant(input);
                }
            },
            Gate::RShift { input, .. } => {
                proof {
                    use_type_invariant(input);
                }
            },
            Gate::Not { input } => {
                proof {
                    use_type_invariant(input);
                }
            },
        }
    }

    /// Whether the wire `id` feeds this gate.
    pub fn has_input(&self, id: &WireId) -> (b: bool)
        ensures
            b == self@.has_input(id@),
    {
        match self {
            Gate::And { input1, input2 } => id.same_as(input1) || id.same_as(input2),
            Gate::Or { input1, input2 } => id.same_as(input1) || id.same_as(input2),
            Gate::AndValue { input, .. } => id.same_as(input),
            Gate::OrValue { input, .. } => id.same_as(input),
            Gate::LShift { input, .. } => id.same_as(input),
            Gate::RShift { input, .. } => id.same_as(input),
            Gate::Not { input } => id.same_as(input),
        }
    }

    /// Whether a shift gate shifts by 15 places at most; true of the other gates.
    pub fn shift_in_range(&self) -> (b: bool)
        ensures
            b == self@.shift_in_range(),
    {
        match self {
            Gate::LShift { shift, .. } => *shift < 16,
            Gate::RShift { shift, .. } => *shift < 16,
            _ => true,
        }
    }

    /// The signal that this gate emits when its first input carries `input1`
    /// and its second, where it has one, carries `input2`.
    pub fn signal(&self, input1: u16, input2: Option<u16>) -> (s: Signal)
        requires
            self@.shift_in_range(),
            self@.second() is Some ==> input2 is Some,
        ensures
            s == Signal::Value(
                self@.apply(
                    input1,
                    match input2 {
                        Some(b) => b,
                        None => 0,
                    },
                ),
            ),
    {
        match self {
            Gate::And { .. } => Signal::Value(input1 & input2.unwrap()),
            Gate::Or { .. } => Signal::Value(input1 | input2.unwrap()),
            Gate::AndValue { value, .. } => Signal::Value(input1 & *value),
            Gate::OrValue { value, .. } => Signal::Value(input1 | *value),
            Gate::LShift { shift, .. } => Signal::Value(input1 << *shift),
            Gate::RShift { shift, .. } => Signal::Value(input1 >> *shift),
            Gate::Not { .. } => Signal::Value(!input1),
        }
    }
}

/// The 16-bit value that `text` stands for, if it stands for one.
pub open spec fn value_of_text(text: Seq<char>) -> Option<u16> {
    match number_upto(text, 0xffff) {
        Some(n) => Some(n as u16),
        None => None,
    }
}

/// A gate written as `left AND right` or `left OR right`, `and` telling
/// which: where one side is a 16-bit value, the left side first, this gate
/// combines the other side with that value; else it combines two wires.
pub open spec fn pair_of_texts(left: Seq<char>, right: Seq<char>, and: bool) -> Result<
    GateView,
    ErrorView,
> {
    match value_of_text(left) {
        Some(value) => checked_inputs(
            right,
            None,
            if and {
                GateView::AndValue { input: right, value }
            } else {
                GateView::OrValue { input: right, value }
            },
        ),
        None => match value_of_text(right) {
            Some(value) => checked_inputs(
                left,
                None,
                if and {
                    GateView::AndValue { input: left, value }
                } else {
                    GateView::OrValue { input: left, value }
                },
            ),
            None => checked_inputs(
                left,
                Some(right),
                if and {
                    GateView::And { input1: left, input2: right }
                } else {
                    GateView::Or { input1: left, input2: right }
                },
            ),
        },
    }
}

/// A gate written as `input LSHIFT amount` or `input RSHIFT amount`,
/// `left` telling which: the amount must be a number below 256 before
/// anything else is looked at.
pub open spec fn shift_of_texts(input: Seq<char>, amount: Seq<char>, left: bool) -> Result<
    GateView,
    ErrorView,
> {
    match number_upto(amount, 0xff) {
        None => Err(ErrorView::ParseShift(amount)),
        Some(n) => checked_shift(
            input,
            n as u8,
            if left {
                GateView::LShift { input, shift: n as u8 }
            } else {
                GateView::RShift { input, shift: n as u8 }
            },
        ),
    }
}

/// What gate `text` describes: `NOT a`, `a AND b`, `a OR b`,
/// `a LSHIFT n` or `a RSHIFT n`, the words one space apart.
pub open spec fn gate_of_text(text: Seq<char>) -> Result<GateView, ErrorView> {
    let parts = split_at(text, ' ');
    if parts.len() == 2 {
        if parts[0] == "NOT"@ {
            checked_inputs(parts[1], None, GateView::Not { input: parts[1] })
        } else {
            Err(ErrorView::ParseGate(text))
        }
    } else if parts.len() == 3 {
        if parts[1] == "AND"@ {
            pair_of_texts(parts[0], parts[2], true)
        } else if parts[1] == "OR"@ {
            pair_of_texts(parts[0], parts[2], false)
        } else if parts[1] == "LSHIFT"@ {
            shift_of_texts(parts[0], parts[2], true)
        } else if parts[1] == "RSHIFT"@ {
            shift_of_texts(parts[0], parts[2], false)
        } else {
            Err(ErrorView::ParseGate(text))
        }
    } else {
        Err(ErrorView::ParseGate(text))
    }
}

/// How a gate is written.
pub open spec fn gate_text(gate: GateView) -> Seq<char> {
    match gate {
        GateView::And { input1, input2 } => input1 + " AND "@ + input2,
        GateView::AndValue { input, value } => input + " AND "@ + decimal_text(value as nat),
        GateView::Or { input1, input2 } => input1 + " OR "@ + input2,
        GateView::OrValue { input, value } => input + " OR "@ + decimal_text(value as nat),
        GateView::LShift { input, shift } => input + " LSHIFT "@ + decimal_text(shift as nat),
        GateView::RShift { input, shift } => input + " RSHIFT "@ + decimal_text(shift as nat),
        GateView::Not { input } => "NOT "@ + input,
    }
}

impl Gate {
    /// Reads `left AND right` or `left OR right`.
    fn pair_from(left: &str, right: &str, and: bool) -> (r: Result<Gate, Error>)
        ensures
            gate_result_view(r) == pair_of_texts(left@, right@, and),
    {
        match parse_number(left, 0xffff) {
            Some(value) => if and {
                Gate::and_value(right, value as u16)
            } else {
                Gate::or_value(right, value as u16)
            },
            None => match parse_number(right, 0xffff) {
                Some(value) => if and {
                    Gate::and_value(left, value as u16)
                } else {
                    Gate::or_value(left, value as u16)
                },
                None => if and {
                    Gate::and(left, right)
                } else {
                    Gate::or(left, right)
                },
            },
        }
    }

    /// Reads `input LSHIFT amount` or `input RSHIFT amount`.
    fn shift_from(input: &str, amount: &str, left: bool) -> (r: Result<Gate, Error>)
        ensures
            gate_result_view(r) == shift_of_texts(input@, amount@, left),
    {
        match parse_number(amount, 0xff) {
            None => Err(Error::ParseShift(amount.to_owned())),
            Some(n) => if left {
                Gate::lshift(input, n as u8)
            } else {
                Gate::rshift(input, n as u8)
            },
        }
    }

    /// Reads a gate from its text.
    pub fn try_from(text: &str) -> (r: Result<Gate, Error>)
        ensures
            gate_result_view(r) == gate_of_text(text@),
    {
        let parts = split(text, ' ');
        assert(forall|i: int| 0 <= i < parts@.len() ==> texts(parts@)[i] == parts@[i]@);
        if parts.len() == 2 {
            if same_text(parts[0], "NOT") {
                Gate::not(parts[1])
            } else {
                Err(Error::ParseGate(text.to_owned()))
            }
        } else if parts.len() == 3 {
            if same_text(parts[1], "AND") {
                Gate::pair_from(parts[0], parts[2], true)
            } else if same_text(parts[1], "OR") {
                Gate::pair_from(parts[0], parts[2], false)
            } else if same_text(parts[1], "LSHIFT") {
                Gate::shift_from(parts[0], parts[2], true)
            } else if same_text(parts[1], "RSHIFT") {
                Gate::shift_from(parts[0], parts[2], false)
            } else {
                Err(Error::ParseGate(text.to_owned()))
            }
        } else {
            Err(Error::ParseGate(text.to_owned()))
        }
    }

    /// Writes this gate as text.
    pub fn to_string(&self) -> (text: String)
        ensures
            text@ == gate_text(self@),
    {
        let mut text = String::new();
        match self {
            Gate::And { input1, input2 } => {
                text.append(input1.as_str());
                text.append(" AND ");
                text.append(input2.as_str());
            },
            Gate::AndValue { input, value } => {
                text.append(input.as_str());
                text.append(" AND ");
                push_decimal(&mut text, *value as u64);
            },
            Gate::Or { input1, input2 } => {
                text.append(input1.as_str());
                text.append(" OR ");
                text.append(input2.as_str());
            },
            Gate::OrValue { input, value } => {
                text.append(input.as_str());
                text.append(" OR ");
                push_decimal(&mut text, *value as u64);
            },
            Gate::LShift { input, shift } => {
                text.append(input.as_str());
                text.append(" LSHIFT ");
                push_decimal(&mut text, *shift as u64);
            },
            Gate::RShift { input, shift } => {
                text.append(input.as_str());
                text.append(" RSHIFT ");
                push_decimal(&mut text, *shift as u64);
            },
            Gate::Not { input } => {
                text.append("NOT ");
                text.append(input.as_str());
            },
        }
        assert(text@ =~= gate_text(self@));
        text
    }
}

} // verus!
