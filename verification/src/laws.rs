//! What holds of passes whatever the circuit: stated over the views that
//! the contracts of the circuit use, and proved from what those state.

use vstd::prelude::*;
use crate::circuit::CircuitView;
use crate::circuit::all_settled;
use crate::circuit::computed;
use crate::circuit::passed_over_all;
use crate::gate::GateView;
use crate::pass::advance;
use crate::pass::poisoned;
use crate::pass::run;
use crate::pass::step_of;
use crate::pass::unresolved;
use crate::pass::PassView;
use crate::pass::StepView;
use crate::pass::ends;
use crate::pass::first_pass;
use crate::pass::lemma_run_unique;
use crate::pass::lemma_unresolved_loop_is_loop;
use crate::pass::passed;
use crate::pass::unmarked;
use crate::semantics::dangling;
use crate::semantics::has_loop;
use crate::semantics::has_value;
use crate::semantics::lemma_dangling_step;
use crate::semantics::lemma_same_inputs;
use crate::semantics::lemma_settled_unique;
use crate::semantics::lemma_value_step;
use crate::semantics::settled;
use crate::signal::Signal;
use crate::wire::InputView;
use crate::wire_id::lemma_strictly_sorted_unique;
use crate::wire_id::strictly_sorted;

verus! {

/// Two passes in a row that both succeed leave the same circuit: the second
/// changes no signal and no list.
pub proof fn lemma_second_pass_changes_nothing(
    start: CircuitView,
    once: CircuitView,
    twice: CircuitView,
)
    requires
        computed(start, once, true),
        computed(once, twice, true),
    ensures
        twice == once,
{
    lemma_same_inputs(twice.wires, once.wires);
    assert forall|k: Seq<char>| twice.wires.contains_key(k) implies #[trigger] twice.wires[k]
        == once.wires[k] by {
        assert(once.wires.contains_key(k));
        lemma_settled_unique(once.inputs(), k, once.wires[k].signal, twice.wires[k].signal);
    }
    assert(twice.wires =~= once.wires);
    assert forall|k: Seq<char>| once.uncomputable.contains(k) <==> twice.uncomputable.contains(
        k,
    ) by {
        if once.uncomputable.contains(k) {
            let i = choose|i: int| 0 <= i < once.uncomputable.len() && once.uncomputable[i] == k;
            assert(once.wires.contains_key(once.uncomputable[i]));
            assert(twice.wires.contains_key(k));
        }
        if twice.uncomputable.contains(k) {
            let i = choose|i: int|
                0 <= i < twice.uncomputable.len() && twice.uncomputable[i] == k;
            assert(twice.wires.contains_key(twice.uncomputable[i]));
            assert(once.wires.contains_key(k));
        }
    }
    lemma_strictly_sorted_unique(once.uncomputable, twice.uncomputable);
}

/// A pass over a circuit whose wires form no loop succeeds, and so does the
/// pass after it.
pub proof fn lemma_pass_succeeds_without_loop(
    start: CircuitView,
    once: CircuitView,
    ok: bool,
)
    requires
        !has_loop(start.inputs()),
        computed(start, once, ok),
    ensures
        ok,
        !has_loop(once.inputs()),
{
    lemma_same_inputs(once.wires, start.wires);
    if !ok {
        lemma_unresolved_loop_is_loop(once.wires);
    }
}

/// On a circuit whose wires form no loop, two passes in a row both succeed
/// and the second changes no signal and no list.
pub proof fn lemma_passes_repeat_without_loop(
    start: CircuitView,
    once: CircuitView,
    first_ok: bool,
    twice: CircuitView,
    second_ok: bool,
)
    requires
        !has_loop(start.inputs()),
        computed(start, once, first_ok),
        computed(once, twice, second_ok),
    ensures
        first_ok,
        second_ok,
        twice == once,
{
    lemma_pass_succeeds_without_loop(start, once, first_ok);
    lemma_pass_succeeds_without_loop(once, twice, second_ok);
    lemma_second_pass_changes_nothing(start, once, twice);
}

/// A pass over a circuit fails where some wire neither has a value that
/// derives from the constants of the circuit nor depends on a missing
/// wire: such a wire depends on a loop.
pub proof fn lemma_pass_fails_on_stuck_wire(
    start: CircuitView,
    once: CircuitView,
    ok: bool,
    id: Seq<char>,
)
    requires
        computed(start, once, ok),
        start.wires.contains_key(id),
        forall|v: u16| !has_value(start.inputs(), id, v),
        !dangling(start.inputs(), id),
    ensures
        !ok,
{
    lemma_same_inputs(once.wires, start.wires);
    if ok {
        assert(once.wires.contains_key(id));
        assert(settled(once.inputs(), id, once.wires[id].signal));
    }
}

/// After a pass that succeeded, a wire that carried a value before the pass
/// carries the same value, and this value is its right signal.
pub proof fn lemma_values_stay(start: CircuitView, once: CircuitView, ok: bool, id: Seq<char>)
    requires
        computed(start, once, ok),
        start.wires.contains_key(id),
        start.wires[id].signal is Value,
    ensures
        once.wires.contains_key(id),
        once.wires[id].signal == start.wires[id].signal,
        settled(once.inputs(), id, once.wires[id].signal),
{
    assert(once.wires.contains_key(id));
}

/// After a pass that succeeded, a wire that reads a missing wire, or a wire
/// marked uncomputable, is marked uncomputable itself.
pub proof fn lemma_uncomputable_spreads(circuit: CircuitView, id: Seq<char>, read: Seq<char>)
    requires
        all_settled(circuit),
        circuit.wires.contains_key(id),
        circuit.wires[id].input.has_input(read),
        !circuit.wires.contains_key(read) || circuit.wires[read].signal == Signal::Uncomputable,
    ensures
        circuit.wires[id].signal == Signal::Uncomputable,
{
    let inputs = circuit.inputs();
    if circuit.wires.contains_key(read) {
        assert(settled(inputs, read, circuit.wires[read].signal));
    }
    lemma_dangling_step(inputs, id, read);
    lemma_settled_unique(inputs, id, circuit.wires[id].signal, Signal::Uncomputable);
}

/// After a pass that succeeded, a wire whose inputs all carry values
/// carries the value that its input makes of them.
pub proof fn lemma_defined_wires_resolve(circuit: CircuitView, id: Seq<char>, a: u16, b: u16)
    requires
        all_settled(circuit),
        circuit.wires.contains_key(id),
        circuit.wires[id].input.first() is Some ==> circuit.wires.contains_key(
            circuit.wires[id].input.first()->0,
        ) && circuit.wires[circuit.wires[id].input.first()->0].signal == Signal::Value(a),
        circuit.wires[id].input.second() is Some ==> circuit.wires.contains_key(
            circuit.wires[id].input.second()->0,
        ) && circuit.wires[circuit.wires[id].input.second()->0].signal == Signal::Value(b),
    ensures
        circuit.wires[id].signal == Signal::Value(circuit.wires[id].input.output(a, b)),
{
    let inputs = circuit.inputs();
    let input = circuit.wires[id].input;
    if input.first() is Some {
        assert(settled(inputs, input.first()->0, circuit.wires[input.first()->0].signal));
    }
    if input.second() is Some {
        assert(settled(inputs, input.second()->0, circuit.wires[input.second()->0].signal));
    }
    lemma_value_step(inputs, id, a, b);
    lemma_settled_unique(
        inputs,
        id,
        circuit.wires[id].signal,
        Signal::Value(input.output(a, b)),
    );
}

/// A gate that combines a signal with itself by AND or by OR emits that
/// signal.
pub proof fn lemma_identical_operands(x: u16, input: Seq<char>)
    ensures
        (GateView::And { input1: input, input2: input }).apply(x, x) == x,
        (GateView::Or { input1: input, input2: input }).apply(x, x) == x,
{
    assert(x & x == x) by (bit_vector);
    assert(x | x == x) by (bit_vector);
}

/// After a pass that succeeded, a wire fed by `x AND x` or by `x OR x`
/// carries the signal of the wire `x`.
pub proof fn lemma_identical_inputs_pass_on(circuit: CircuitView, id: Seq<char>, x: Seq<char>)
    requires
        all_settled(circuit),
        circuit.wires.contains_key(id),
        circuit.wires[id].input == InputView::Gate(GateView::And { input1: x, input2: x })
            || circuit.wires[id].input == InputView::Gate(GateView::Or { input1: x, input2: x }),
    ensures
        circuit.wires.contains_key(x) ==> circuit.wires[id].signal == circuit.wires[x].signal,
        !circuit.wires.contains_key(x) ==> circuit.wires[id].signal == Signal::Uncomputable,
{
    if circuit.wires.contains_key(x) {
        assert(settled(circuit.inputs(), x, circuit.wires[x].signal));
        match circuit.wires[x].signal {
            Signal::Value(v) => {
                lemma_identical_operands(v, x);
                lemma_defined_wires_resolve(circuit, id, v, v);
            },
            Signal::Uncomputable => {
                lemma_uncomputable_spreads(circuit, id, x);
            },
            Signal::Uncomputed => {},
        }
    } else {
        lemma_uncomputable_spreads(circuit, id, x);
    }
}

/// A pass over given names has one outcome: the circuit as it was and the
/// names decide how the pass ends and what it leaves.
pub proof fn lemma_pass_has_one_outcome(
    before: CircuitView,
    seeds: Seq<Seq<char>>,
    after: CircuitView,
    ok: bool,
    other: CircuitView,
    other_ok: bool,
)
    requires
        passed(before, seeds, after, ok),
        passed(before, seeds, other, other_ok),
    ensures
        after == other,
        ok == other_ok,
{
    let first = first_pass(before.wires, before.uncomputable, seeds);
    let (steps, end) = choose|steps: nat, end: PassView|
        {
            &&& #[trigger] ends(first, steps, end, ok)
            &&& after.wires == end.wires
            &&& after.order == before.order
            &&& after.uncomputable == end.uncomputable
            &&& after.uncomputed == before.uncomputed + end.stack
        };
    let (others, last) = choose|others: nat, last: PassView|
        {
            &&& #[trigger] ends(first, others, last, other_ok)
            &&& other.wires == last.wires
            &&& other.order == before.order
            &&& other.uncomputable == last.uncomputable
            &&& other.uncomputed == before.uncomputed + last.stack
        };
    lemma_run_unique(first, steps, others, (end, ok), (last, other_ok));
}

/// A pass over all wires has one outcome.
pub proof fn lemma_whole_pass_has_one_outcome(
    before: CircuitView,
    after: CircuitView,
    ok: bool,
    other: CircuitView,
    other_ok: bool,
)
    requires
        passed_over_all(before, after, ok),
        passed_over_all(before, other, other_ok),
    ensures
        after == other,
        ok == other_ok,
{
    let first = first_pass(
        unmarked(before.wires, before.uncomputable),
        Seq::empty(),
        before.uncomputable + before.uncomputed,
    );
    let (steps, end) = choose|steps: nat, end: PassView|
        {
            &&& #[trigger] ends(first, steps, end, ok)
            &&& after.wires == end.wires
            &&& after.order == before.order
            &&& if ok {
                &&& after.uncomputed == Seq::<Seq<char>>::empty()
                &&& strictly_sorted(after.uncomputable)
                &&& forall|k: Seq<char>|
                    after.uncomputable.contains(k) <==> end.uncomputable.contains(k)
            } else {
                &&& after.uncomputed == end.stack
                &&& after.uncomputable == end.uncomputable
            }
        };
    let (others, last) = choose|others: nat, last: PassView|
        {
            &&& #[trigger] ends(first, others, last, other_ok)
            &&& other.wires == last.wires
            &&& other.order == before.order
            &&& if other_ok {
                &&& other.uncomputed == Seq::<Seq<char>>::empty()
                &&& strictly_sorted(other.uncomputable)
                &&& forall|k: Seq<char>|
                    other.uncomputable.contains(k) <==> last.uncomputable.contains(k)
            } else {
                &&& other.uncomputed == last.stack
                &&& other.uncomputable == last.uncomputable
            }
        };
    lemma_run_unique(first, steps, others, (end, ok), (last, other_ok));
    if ok {
        lemma_strictly_sorted_unique(after.uncomputable, other.uncomputable);
    }
}

/// A pass over names none of which names an unresolved wire ends well and
/// changes no signal.
proof fn lemma_settled_pass(pass: PassView, steps: nat, end: PassView, ok: bool)
    requires
        forall|j: int| 0 <= j < pass.stack.len() ==> !unresolved(pass.wires, #[trigger] pass.stack[j]),
        pass.root >= pass.stack.len() - 1,
        run(pass, steps) == Some((end, ok)),
    ensures
        ok,
        end.wires == pass.wires,
    decreases steps,
{
    if pass.stack.len() > 0 {
        let top = pass.stack.last();
        let len = pass.stack.len() as int;
        assert(!unresolved(pass.wires, pass.stack[len - 1]));
        let next = advance(pass)->0;
        match step_of(pass.wires, top) {
            StepView::Done => {},
            StepView::Poison => {
                let chain = pass.stack.subrange(len - 1, len);
                assert forall|k: Seq<char>| chain.contains(k) implies k == top by {
                    let i = choose|i: int| 0 <= i < chain.len() && chain[i] == k;
                    assert(chain[i] == pass.stack[len - 1 + i]);
                }
                assert(poisoned(pass.wires, chain) =~= pass.wires);
            },
            _ => {},
        }
        assert(next.wires == pass.wires);
        assert forall|j: int| 0 <= j < next.stack.len() implies !unresolved(
            next.wires,
            #[trigger] next.stack[j],
        ) by {
            assert(next.stack[j] == pass.stack[j]);
        }
        lemma_settled_pass(next, (steps - 1) as nat, end, ok);
    }
}

/// A pass over the names that a pass has just resolved ends well and
/// changes no signal.
pub proof fn lemma_resolving_again_changes_no_signal(
    once: CircuitView,
    seeds: Seq<Seq<char>>,
    twice: CircuitView,
    ok: bool,
)
    requires
        forall|i: int| 0 <= i < seeds.len() ==> !unresolved(once.wires, #[trigger] seeds[i]),
        passed(once, seeds, twice, ok),
    ensures
        ok,
        twice.wires == once.wires,
{
    let first = first_pass(once.wires, once.uncomputable, seeds);
    let (steps, end) = choose|steps: nat, end: PassView|
        {
            &&& #[trigger] ends(first, steps, end, ok)
            &&& twice.wires == end.wires
            &&& twice.order == once.order
            &&& twice.uncomputable == end.uncomputable
            &&& twice.uncomputed == once.uncomputed + end.stack
        };
    lemma_settled_pass(first, steps, end, ok);
}

} // verus!
