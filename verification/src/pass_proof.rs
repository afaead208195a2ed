//! What holds during a pass, and why its steps keep it.

use vstd::prelude::*;
use crate::circuit::CircuitView;
use crate::pass::PassView;
use crate::pass::StepView;
use crate::pass::advance;
use crate::pass::has_unresolved_loop;
use crate::pass::is_unresolved_loop;
use crate::pass::keeps_resolved;
use crate::pass::needed;
use crate::pass::plan;
use crate::pass::run;
use crate::pass::status;
use crate::pass::step_of;
use crate::pass::touches_needed_only;
use crate::pass::unresolved;
use crate::pass::waiting_in;
use crate::semantics::dangling;
use crate::semantics::depends_on;
use crate::semantics::depends_within;
use crate::semantics::has_value;
use crate::semantics::inputs_of;
use crate::semantics::is_loop;
use crate::semantics::lemma_dangling_step;
use crate::semantics::lemma_depends_step;
use crate::semantics::lemma_same_inputs;
use crate::semantics::lemma_value_step;
use crate::signal::Signal;
use crate::wire::InputView;
use crate::wire::WireView;

verus! {

/// The pass `now` is where the pass `start` stands after `steps` steps.
#[verifier::opaque]
pub(crate) open spec fn reaches(start: PassView, steps: nat, now: PassView) -> bool {
    forall|more: nat| run(start, steps + more) == #[trigger] run(now, more)
}

/// A pass stands where it starts before its first step.
pub(crate) proof fn lemma_reaches_start(start: PassView)
    ensures
        reaches(start, 0, start),
{
    reveal(reaches);
}

/// One more step.
pub(crate) proof fn lemma_reaches_step(start: PassView, steps: nat, now: PassView, next: PassView)
    requires
        reaches(start, steps, now),
        now.stack.len() > 0,
        advance(now) == Some(next),
    ensures
        reaches(start, steps + 1, next),
{
    reveal(reaches);
    assert forall|more: nat| run(start, steps + 1 + more) == #[trigger] run(next, more) by {
        assert(run(start, steps + (more + 1)) == run(now, more + 1));
        assert(steps + 1 + more == steps + (more + 1));
    }
}

/// The end of a pass.
pub(crate) proof fn lemma_reaches_end(start: PassView, steps: nat, now: PassView, ok: bool)
    requires
        reaches(start, steps, now),
        if ok {
            now.stack.len() == 0
        } else {
            now.stack.len() > 0 && advance(now) is None
        },
    ensures
        run(start, steps) == Some((now, ok)),
{
    reveal(reaches);
    assert(run(start, steps + 0) == run(now, 0));
}

/// A name stands in a stack at or above a place where it stands in what
/// the stack holds from that place on.
pub(crate) proof fn lemma_subrange_contains(stack: Seq<Seq<char>>, from: int, name: Seq<char>)
    requires
        0 <= from <= stack.len(),
    ensures
        stack.subrange(from, stack.len() as int).contains(name) <==> exists|j: int|
            from <= j < stack.len() && stack[j] == name,
{
    let part = stack.subrange(from, stack.len() as int);
    if part.contains(name) {
        let i = choose|i: int| 0 <= i < part.len() && part[i] == name;
        assert(stack[from + i] == name);
    }
    if exists|j: int| from <= j < stack.len() && stack[j] == name {
        let j = choose|j: int| from <= j < stack.len() && stack[j] == name;
        assert(part[j - from] == name);
    }
}

/// Every name on the stack is needed.
pub(crate) open spec fn stack_needed(
    inputs: Map<Seq<char>, InputView>,
    seeds: Seq<Seq<char>>,
    stack: Seq<Seq<char>>,
) -> bool {
    forall|j: int| 0 <= j < stack.len() ==> needed(inputs, seeds, #[trigger] stack[j])
}

/// A step that changes the signals of wires on the stack only changes
/// nothing but wires that are needed.
pub(crate) proof fn lemma_touch(
    start: Map<Seq<char>, WireView>,
    before: Map<Seq<char>, WireView>,
    after: Map<Seq<char>, WireView>,
    seeds: Seq<Seq<char>>,
    stack: Seq<Seq<char>>,
)
    requires
        touches_needed_only(start, before, seeds),
        stack_needed(inputs_of(start), seeds, stack),
        after.dom() == before.dom(),
        forall|k: Seq<char>| #[trigger]
            after.contains_key(k) && after[k].signal != before[k].signal ==> stack.contains(k),
    ensures
        touches_needed_only(start, after, seeds),
{
    assert forall|k: Seq<char>| #[trigger]
        after.contains_key(k) && after[k].signal != start[k].signal implies needed(
        inputs_of(start),
        seeds,
        k,
    ) by {
        assert(before.contains_key(k));
        if after[k].signal != before[k].signal {
            let j = choose|j: int| 0 <= j < stack.len() && stack[j] == k;
            assert(needed(inputs_of(start), seeds, stack[j]));
        }
    }
}

/// From `root` upwards the stack is a chain: each wire reads the next, no
/// wire stands twice, and all are unresolved where they are more than one.
pub(crate) open spec fn chained(
    wires: Map<Seq<char>, WireView>,
    stack: Seq<Seq<char>>,
    root: int,
) -> bool {
    &&& root + 1 < stack.len() ==> forall|j: int|
        root <= j < stack.len() ==> unresolved(wires, #[trigger] stack[j])
    &&& forall|i: int, j: int|
        root <= i && j == i + 1 && j < stack.len() ==> (#[trigger] wires[stack[i]]).input.has_input(
            #[trigger] stack[j],
        )
    &&& forall|i: int, j: int|
        root <= i < j < stack.len() ==> #[trigger] stack[i] != #[trigger] stack[j]
}

/// The wire `id` stands on the stack above `root`.
pub(crate) open spec fn above_root(stack: Seq<Seq<char>>, root: int, id: Seq<char>) -> bool {
    exists|j: int| root < j < stack.len() && stack[j] == id
}

/// The wires named in `chain` were marked uncomputable and nothing else
/// changed.
pub(crate) open spec fn poisoned_from(
    before: Map<Seq<char>, WireView>,
    after: Map<Seq<char>, WireView>,
    chain: Seq<Seq<char>>,
) -> bool {
    &&& after.dom() == before.dom()
    &&& forall|k: Seq<char>| #[trigger]
        after.contains_key(k) ==> after[k] == if chain.contains(k) {
            WireView { signal: Signal::Uncomputable, ..before[k] }
        } else {
            before[k]
        }
}

/// The list `now` holds what `was` held, and the names of `chain` that have
/// a wire.
pub(crate) open spec fn listed_from(
    was: Seq<Seq<char>>,
    now: Seq<Seq<char>>,
    chain: Seq<Seq<char>>,
    wires: Map<Seq<char>, WireView>,
) -> bool {
    &&& was.is_prefix_of(now)
    &&& forall|k: Seq<char>| #[trigger]
        now.contains(k) <==> was.contains(k) || (chain.contains(k) && wires.contains_key(k))
}

/// Every unresolved wire that does not stand on the stack above `root` is
/// in `unvisited`.
pub(crate) open spec fn covers(
    wires: Map<Seq<char>, WireView>,
    stack: Seq<Seq<char>>,
    root: int,
    unvisited: Set<Seq<char>>,
) -> bool {
    forall|k: Seq<char>| #[trigger]
        unresolved(wires, k) && !above_root(stack, root, k) ==> unvisited.contains(k)
}

/// A wire that a pass wants to visit is read by the wire in hand and is
/// unresolved.
pub(crate) proof fn lemma_plan_visit(wires: Map<Seq<char>, WireView>, input: InputView)
    requires
        plan(wires, input) is Visit,
    ensures
        input.has_input(plan(wires, input)->Visit_0),
        unresolved(wires, plan(wires, input)->Visit_0),
{
}

/// A pass gives up on a wire only where it reads a missing or uncomputable
/// wire.
pub(crate) proof fn lemma_plan_poison(wires: Map<Seq<char>, WireView>, input: InputView) -> (read: Seq<char>)
    requires
        plan(wires, input) is Poison,
    ensures
        input.has_input(read),
        status(wires, read) == Signal::Uncomputable,
{
    if status(wires, input.first()->0) == Signal::Uncomputable {
        input.first()->0
    } else {
        input.second()->0
    }
}

/// The value that a pass gives a wire is what its input makes of the values
/// of the wires that it reads.
pub(crate) proof fn lemma_plan_emit(wires: Map<Seq<char>, WireView>, input: InputView) -> (ab: (u16, u16))
    requires
        plan(wires, input) is Emit,
    ensures
        plan(wires, input)->Emit_0 == input.output(ab.0, ab.1),
        input.first() is Some ==> status(wires, input.first()->0) == Signal::Value(ab.0),
        input.second() is Some ==> status(wires, input.second()->0) == Signal::Value(ab.1),
{
    let a = match input.first() {
        Some(first) => match status(wires, first) {
            Signal::Value(a) => a,
            _ => 0,
        },
        None => 0,
    };
    let b = match input.second() {
        Some(second) => match status(wires, second) {
            Signal::Value(b) => b,
            _ => 0,
        },
        None => 0,
    };
    (a, b)
}

/// Where the top of a chain depends on a missing wire, so does every wire
/// of the chain.
pub(crate) proof fn lemma_chain_dangling(
    wires: Map<Seq<char>, WireView>,
    stack: Seq<Seq<char>>,
    root: int,
    j: int,
)
    requires
        chained(wires, stack, root),
        0 <= root <= j < stack.len(),
        wires.contains_key(stack.last()) ==> dangling(inputs_of(wires), stack.last()),
    ensures
        wires.contains_key(stack[j]) ==> dangling(inputs_of(wires), stack[j]),
    decreases stack.len() - j,
{
    if j < stack.len() - 1 {
        lemma_chain_dangling(wires, stack, root, j + 1);
        assert(unresolved(wires, stack[j + 1]));
        assert(unresolved(wires, stack[j]));
        assert(wires[stack[j]].input.has_input(stack[j + 1]));
        lemma_dangling_step(inputs_of(wires), stack[j], stack[j + 1]);
    }
}

/// The circuit `after` is `before` with what a step changed: the signals
/// `wires`, and nothing else.
pub(crate) open spec fn stepped(before: CircuitView, after: CircuitView) -> bool {
    &&& after.order == before.order
    &&& after.wires.dom() == before.wires.dom()
    &&& forall|k: Seq<char>| #[trigger]
        after.wires.contains_key(k) ==> after.wires[k] == (WireView {
            signal: after.wires[k].signal,
            ..before.wires[k]
        })
}

/// A step that changes signals only leaves the wiring as it was.
pub(crate) proof fn lemma_stepped(start: CircuitView, before: CircuitView, after: CircuitView)
    requires
        before.same_wiring(start),
        stepped(before, after),
    ensures
        after.same_wiring(start),
        after.inputs() == before.inputs(),
{
    assert forall|k: Seq<char>| #[trigger] after.wires.contains_key(k) implies after.wires[k] == (
    WireView { signal: after.wires[k].signal, ..start.wires[k] }) by {
        assert(before.wires.contains_key(k));
    }
    lemma_same_inputs(after.wires, before.wires);
}

/// A chain without its top is a chain, also after a step that left the
/// wires below the top as they were.
pub(crate) proof fn lemma_chained_drop_last(
    before: Map<Seq<char>, WireView>,
    after: Map<Seq<char>, WireView>,
    stack: Seq<Seq<char>>,
    root: int,
)
    requires
        stack.len() > 0,
        0 <= root < stack.len(),
        chained(before, stack, root),
        forall|k: Seq<char>|
            #[trigger] unresolved(before, k) && k != stack.last() ==> unresolved(after, k)
                && after[k].input == before[k].input,
    ensures
        chained(after, stack.drop_last(), root),
{
    let rest = stack.drop_last();
    if root + 1 < rest.len() {
        assert forall|j: int| root <= j < rest.len() implies unresolved(
            after,
            #[trigger] rest[j],
        ) by {
            assert(unresolved(before, stack[j]));
            assert(stack[j] != stack[stack.len() - 1]);
        }
    }
    assert forall|i: int, j: int| root <= i && j == i + 1 && j < rest.len() implies (
    #[trigger] after[rest[i]]).input.has_input(#[trigger] rest[j]) by {
        assert(before[stack[i]].input.has_input(stack[j]));
        assert(unresolved(before, stack[i]));
        assert(stack[i] != stack[stack.len() - 1]);
    }
    assert forall|i: int, j: int| root <= i < j < rest.len() implies #[trigger] rest[i]
        != #[trigger] rest[j] by {
        assert(stack[i] != stack[j]);
    }
}

/// Taking a resolved wire off the stack keeps the stack in order.
pub(crate) proof fn lemma_pop(
    wires: Map<Seq<char>, WireView>,
    stack: Seq<Seq<char>>,
    root: int,
    unvisited: Set<Seq<char>>,
    seeds: Seq<Seq<char>>,
)
    requires
        stack.len() > 0,
        0 <= root < stack.len(),
        !unresolved(wires, stack.last()),
        chained(wires, stack, root),
        covers(wires, stack, root, unvisited),
        waiting_in(wires, seeds, stack),
    ensures
        chained(wires, stack.drop_last(), root),
        covers(wires, stack.drop_last(), root, unvisited),
        waiting_in(wires, seeds, stack.drop_last()),
{
    let rest = stack.drop_last();
    lemma_chained_drop_last(wires, wires, stack, root);
    assert forall|k: Seq<char>| #[trigger]
        unresolved(wires, k) && !above_root(rest, root, k) implies unvisited.contains(k) by {
        if above_root(stack, root, k) {
            let j = choose|j: int| root < j < stack.len() && stack[j] == k;
            assert(j < rest.len());
            assert(rest[j] == k);
        }
    }
    assert forall|i: int|
        0 <= i < seeds.len() && unresolved(wires, #[trigger] seeds[i]) implies rest.contains(
        seeds[i],
    ) by {
        let j = choose|j: int| 0 <= j < stack.len() && stack[j] == seeds[i];
        assert(rest[j] == seeds[i]);
    }
}

/// Giving an unresolved wire the value that the plan for it yields keeps the
/// circuit sound.
pub(crate) proof fn lemma_emit(
    start: Map<Seq<char>, WireView>,
    before: CircuitView,
    after: CircuitView,
    top: Seq<char>,
    v: u16,
)
    requires
        before.sound(),
        before.poisoned_listed(),
        keeps_resolved(start, before.wires),
        unresolved(before.wires, top),
        plan(before.wires, before.wires[top].input) == StepView::Emit(v),
        after.wires == before.wires.insert(
            top,
            WireView { signal: Signal::Value(v), ..before.wires[top] },
        ),
        after.order == before.order,
        after.uncomputed == before.uncomputed,
        after.uncomputable == before.uncomputable,
    ensures
        stepped(before, after),
        after.sound(),
        after.poisoned_listed(),
        keeps_resolved(start, after.wires),
        before.justified() ==> after.justified(),
{
    assert(after.wires.dom() =~= before.wires.dom());
    lemma_same_inputs(after.wires, before.wires);
    let inputs = before.inputs();
    let input = before.wires[top].input;
    let ab = lemma_plan_emit(before.wires, input);
    if input.first() is Some {
        assert(before.wires.contains_key(input.first()->0));
    }
    if input.second() is Some {
        assert(before.wires.contains_key(input.second()->0));
    }
    lemma_value_step(inputs, top, ab.0, ab.1);
    assert forall|k: Seq<char>| #[trigger] after.wires.contains_key(k) implies match after.wires[k].signal {
        Signal::Value(w) => has_value(after.inputs(), k, w),
        _ => true,
    } by {
        assert(before.wires.contains_key(k));
    }
    assert forall|k: Seq<char>| #[trigger]
        after.wires.contains_key(k) && after.wires[k].signal
            == Signal::Uncomputable implies after.uncomputable.contains(k) by {
        assert(before.wires.contains_key(k));
    }
    assert forall|i: int| 0 <= i < after.uncomputable.len() implies after.wires.contains_key(
        #[trigger] after.uncomputable[i],
    ) && after.wires[after.uncomputable[i]].signal == Signal::Uncomputable by {
        assert(before.wires.contains_key(before.uncomputable[i]));
    }
    assert forall|k: Seq<char>| #[trigger]
        start.contains_key(k) && start[k].signal != Signal::Uncomputed implies after.wires.contains_key(
        k,
    ) && after.wires[k].signal == start[k].signal by {
        assert(before.wires.contains_key(k));
    }
    if before.justified() {
        assert forall|k: Seq<char>| #[trigger]
            after.wires.contains_key(k) && after.wires[k].signal
                == Signal::Uncomputable implies dangling(after.inputs(), k) by {
            assert(before.wires.contains_key(k));
        }
    }
}

/// Taking off the stack a wire that just got its value keeps the stack in
/// order.
pub(crate) proof fn lemma_emit_pop(
    before: Map<Seq<char>, WireView>,
    after: Map<Seq<char>, WireView>,
    stack: Seq<Seq<char>>,
    root: int,
    unvisited: Set<Seq<char>>,
    seeds: Seq<Seq<char>>,
)
    requires
        stack.len() > 0,
        0 <= root < stack.len(),
        !unresolved(after, stack.last()),
        forall|k: Seq<char>| #[trigger] unresolved(after, k) ==> unresolved(before, k),
        forall|k: Seq<char>|
            #[trigger] unresolved(before, k) && k != stack.last() ==> unresolved(after, k)
                && after[k].input == before[k].input,
        chained(before, stack, root),
        covers(before, stack, root, unvisited),
        waiting_in(before, seeds, stack),
    ensures
        chained(after, stack.drop_last(), root),
        covers(after, stack.drop_last(), root, unvisited),
        waiting_in(after, seeds, stack.drop_last()),
{
    let rest = stack.drop_last();
    let top = stack.last();
    lemma_chained_drop_last(before, after, stack, root);
    assert forall|k: Seq<char>| #[trigger]
        unresolved(after, k) && !above_root(rest, root, k) implies unvisited.contains(k) by {
        assert(unresolved(before, k));
        if above_root(stack, root, k) {
            let j = choose|j: int| root < j < stack.len() && stack[j] == k;
            assert(j < rest.len());
            assert(rest[j] == k);
        }
    }
    assert forall|i: int|
        0 <= i < seeds.len() && unresolved(after, #[trigger] seeds[i]) implies rest.contains(
        seeds[i],
    ) by {
        let k = seeds[i];
        assert(unresolved(before, k));
        let j = choose|j: int| 0 <= j < stack.len() && stack[j] == k;
        assert(rest[j] == k);
    }
}

/// Marking the chain above the root as uncomputable keeps the circuit sound,
/// and justified where the wire on top had reason to be given up.
pub(crate) proof fn lemma_poison(
    start: Map<Seq<char>, WireView>,
    before: CircuitView,
    after: CircuitView,
    stack: Seq<Seq<char>>,
    root: int,
)
    requires
        stack.len() > 0,
        0 <= root < stack.len(),
        before.sound(),
        before.poisoned_listed(),
        keeps_resolved(start, before.wires),
        chained(before.wires, stack, root),
        step_of(before.wires, stack.last()) == StepView::Poison,
        poisoned_from(before.wires, after.wires, stack.subrange(root, stack.len() as int)),
        listed_from(
            before.uncomputable,
            after.uncomputable,
            stack.subrange(root, stack.len() as int),
            before.wires,
        ),
        after.order == before.order,
    ensures
        stepped(before, after),
        after.sound(),
        after.poisoned_listed(),
        keeps_resolved(start, after.wires),
        before.justified() ==> after.justified(),
        forall|k: Seq<char>| unresolved(after.wires, k) ==> unresolved(before.wires, k),
        forall|k: Seq<char>|
            unresolved(before.wires, k) && !stack.subrange(root, stack.len() as int).contains(k)
                ==> unresolved(after.wires, k),
        forall|j: int| root <= j < stack.len() ==> !unresolved(after.wires, #[trigger] stack[j]),
{
    let chain = stack.subrange(root, stack.len() as int);
    let top = stack.last();
    // No wire of the chain carries a value.
    assert forall|j: int|
        root <= j < stack.len() && before.wires.contains_key(
            #[trigger] stack[j],
        ) implies !(before.wires[stack[j]].signal is Value) by {
        if root + 1 < stack.len() {
            assert(unresolved(before.wires, stack[j]));
        }
    }
    assert forall|k: Seq<char>| chain.contains(k) && before.wires.contains_key(k) implies !(
    before.wires[k].signal is Value) by {
        let i = choose|i: int| 0 <= i < chain.len() && chain[i] == k;
        assert(stack[root + i] == k);
    }
    assert forall|j: int| root <= j < stack.len() implies chain.contains(#[trigger] stack[j]) by {
        assert(chain[j - root] == stack[j]);
    }
    lemma_same_inputs(after.wires, before.wires);
    assert forall|k: Seq<char>| #[trigger] after.wires.contains_key(k) implies match after.wires[k].signal {
        Signal::Value(w) => has_value(after.inputs(), k, w),
        _ => true,
    } by {
        assert(before.wires.contains_key(k));
    }
    assert forall|k: Seq<char>| #[trigger]
        after.wires.contains_key(k) && after.wires[k].signal
            == Signal::Uncomputable implies after.uncomputable.contains(k) by {
        assert(before.wires.contains_key(k));
        if !chain.contains(k) {
            assert(before.uncomputable.contains(k));
        }
    }
    assert forall|i: int| 0 <= i < after.uncomputable.len() implies after.wires.contains_key(
        #[trigger] after.uncomputable[i],
    ) && after.wires[after.uncomputable[i]].signal == Signal::Uncomputable by {
        let k = after.uncomputable[i];
        assert(after.uncomputable.contains(k));
        if before.uncomputable.contains(k) {
            let j = choose|j: int| 0 <= j < before.uncomputable.len() && before.uncomputable[j] == k;
            assert(before.wires.contains_key(before.uncomputable[j]));
        }
        assert(after.wires.contains_key(k));
    }
    assert forall|k: Seq<char>| #[trigger]
        start.contains_key(k) && start[k].signal != Signal::Uncomputed implies after.wires.contains_key(
        k,
    ) && after.wires[k].signal == start[k].signal by {
        assert(before.wires.contains_key(k));
        assert(after.wires.contains_key(k));
    }
    if before.justified() {
        let inputs = before.inputs();
        if before.wires.contains_key(top) {
            if before.wires[top].signal == Signal::Uncomputed {
                let read = lemma_plan_poison(before.wires, before.wires[top].input);
                if before.wires.contains_key(read) {
                    assert(dangling(inputs, read));
                }
                lemma_dangling_step(inputs, top, read);
            }
            assert(dangling(inputs, top));
        }
        assert forall|k: Seq<char>| #[trigger]
            after.wires.contains_key(k) && after.wires[k].signal
                == Signal::Uncomputable implies dangling(after.inputs(), k) by {
            assert(before.wires.contains_key(k));
            if chain.contains(k) {
                let i = choose|i: int| 0 <= i < chain.len() && chain[i] == k;
                lemma_chain_dangling(before.wires, stack, root, root + i);
            }
        }
    }
    assert forall|k: Seq<char>| unresolved(after.wires, k) implies unresolved(before.wires, k) by {
        assert(after.wires.contains_key(k));
    }
    assert forall|k: Seq<char>|
        unresolved(before.wires, k) && !chain.contains(k) implies unresolved(after.wires, k) by {
        assert(after.wires.contains_key(k));
    }
    assert forall|j: int| root <= j < stack.len() implies !unresolved(
        after.wires,
        #[trigger] stack[j],
    ) by {
        if after.wires.contains_key(stack[j]) {
            assert(chain.contains(stack[j]));
        }
    }
}

/// Cutting the stack back to the root after its chain was given up keeps the
/// stack in order.
pub(crate) proof fn lemma_poison_cut(
    before: Map<Seq<char>, WireView>,
    after: Map<Seq<char>, WireView>,
    stack: Seq<Seq<char>>,
    root: int,
    unvisited: Set<Seq<char>>,
    seeds: Seq<Seq<char>>,
)
    requires
        0 <= root < stack.len(),
        forall|k: Seq<char>| unresolved(after, k) ==> unresolved(before, k),
        forall|j: int| root <= j < stack.len() ==> !unresolved(after, #[trigger] stack[j]),
        covers(before, stack, root, unvisited),
        waiting_in(before, seeds, stack),
    ensures
        chained(after, stack.subrange(0, root), root),
        covers(after, stack.subrange(0, root), root, unvisited),
        waiting_in(after, seeds, stack.subrange(0, root)),
{
    let rest = stack.subrange(0, root);
    assert forall|k: Seq<char>| #[trigger]
        unresolved(after, k) && !above_root(rest, root, k) implies unvisited.contains(k) by {
        assert(unresolved(before, k));
        if above_root(stack, root, k) {
            let j = choose|j: int| root < j < stack.len() && stack[j] == k;
            assert(!unresolved(after, stack[j]));
        }
    }
    assert forall|i: int|
        0 <= i < seeds.len() && unresolved(after, #[trigger] seeds[i]) implies rest.contains(
        seeds[i],
    ) by {
        assert(unresolved(before, seeds[i]));
        let j = choose|j: int| 0 <= j < stack.len() && stack[j] == seeds[i];
        if j >= root {
            assert(!unresolved(after, stack[j]));
        }
        assert(rest[j] == seeds[i]);
    }
}

/// Putting on the stack an unresolved wire that the top reads and that the
/// chain does not hold keeps the stack in order, and leaves one wire less
/// to visit.
pub(crate) proof fn lemma_visit(
    wires: Map<Seq<char>, WireView>,
    stack: Seq<Seq<char>>,
    root: int,
    unvisited: Set<Seq<char>>,
    seeds: Seq<Seq<char>>,
    read: Seq<char>,
)
    requires
        stack.len() > 0,
        0 <= root < stack.len(),
        unresolved(wires, stack.last()),
        wires[stack.last()].input.has_input(read),
        unresolved(wires, read),
        forall|j: int| root <= j < stack.len() ==> stack[j] != read,
        chained(wires, stack, root),
        covers(wires, stack, root, unvisited),
        waiting_in(wires, seeds, stack),
    ensures
        unvisited.contains(read),
        chained(wires, stack.push(read), root),
        covers(wires, stack.push(read), root, unvisited.remove(read)),
        waiting_in(wires, seeds, stack.push(read)),
{
    let more = stack.push(read);
    assert(!above_root(stack, root, read));
    assert forall|j: int| root <= j < more.len() implies unresolved(wires, #[trigger] more[j]) by {
        if j < stack.len() - 1 {
            assert(unresolved(wires, stack[j]));
        }
    }
    assert forall|i: int, j: int| root <= i && j == i + 1 && j < more.len() implies (
    #[trigger] wires[more[i]]).input.has_input(#[trigger] more[j]) by {
        if j < stack.len() {
            assert(wires[stack[i]].input.has_input(stack[j]));
        }
    }
    assert forall|i: int, j: int| root <= i < j < more.len() implies #[trigger] more[i]
        != #[trigger] more[j] by {
        if j < stack.len() {
            assert(stack[i] != stack[j]);
        }
    }
    assert forall|k: Seq<char>| #[trigger]
        unresolved(wires, k) && !above_root(more, root, k) implies unvisited.remove(read).contains(
        k,
    ) by {
        if k == read {
            assert(more[stack.len() as int] == read);
            assert(above_root(more, root, k));
        }
        if above_root(stack, root, k) {
            let j = choose|j: int| root < j < stack.len() && stack[j] == k;
            assert(more[j] == k);
        }
    }
    assert forall|i: int|
        0 <= i < seeds.len() && unresolved(wires, #[trigger] seeds[i]) implies more.contains(
        seeds[i],
    ) by {
        let j = choose|j: int| 0 <= j < stack.len() && stack[j] == seeds[i];
        assert(more[j] == seeds[i]);
    }
}

/// A wire on top of a chain that reads a wire of the chain closes a loop.
pub(crate) proof fn lemma_loop(
    wires: Map<Seq<char>, WireView>,
    stack: Seq<Seq<char>>,
    root: int,
    at: int,
)
    requires
        0 <= root <= at < stack.len(),
        unresolved(wires, stack.last()),
        wires[stack.last()].input.has_input(stack[at]),
        chained(wires, stack, root),
    ensures
        has_unresolved_loop(wires),
{
    let inputs = inputs_of(wires);
    let path = stack.subrange(at, stack.len() as int);
    assert forall|i: int| 0 <= i < path.len() implies inputs.contains_key(#[trigger] path[i]) by {
        let j = at + i;
        if j < stack.len() - 1 {
            assert(unresolved(wires, stack[j]));
        }
    }
    assert forall|i: int| 0 <= i < path.len() - 1 implies (#[trigger] inputs[path[i]]).has_input(
        path[i + 1],
    ) by {
        let j = at + i;
        assert(unresolved(wires, stack[j]));
        assert(wires[stack[j]].input.has_input(stack[j + 1]));
    }
    assert(path.last() == stack.last());
    assert(path[0] == stack[at]);
    assert(is_loop(inputs, path));
    assert forall|i: int| 0 <= i < path.len() implies unresolved(wires, #[trigger] path[i]) by {
        let j = at + i;
        if j < stack.len() - 1 {
            assert(unresolved(wires, stack[j]));
        }
    }
    assert(is_unresolved_loop(wires, path));
}

/// Every name of a list stands in the list that follows another.
pub(crate) proof fn lemma_waiting_added(
    wires: Map<Seq<char>, WireView>,
    seeds: Seq<Seq<char>>,
    list: Seq<Seq<char>>,
    stack: Seq<Seq<char>>,
)
    requires
        waiting_in(wires, seeds, stack),
    ensures
        waiting_in(wires, seeds, list + stack),
{
    assert forall|i: int|
        0 <= i < seeds.len() && unresolved(wires, #[trigger] seeds[i]) implies (list
        + stack).contains(seeds[i]) by {
        let j = choose|j: int| 0 <= j < stack.len() && stack[j] == seeds[i];
        assert((list + stack)[list.len() + j] == seeds[i]);
    }
}

/// What holds during a pass, between two steps: `start` is the circuit at
/// the start of the pass, `now` the circuit as it is, `stack` the names that
/// wait, `root` the place of the root of the chain in hand, `unvisited` the
/// wires that may still be put on the stack, `seeds` the names that the pass
/// was asked to resolve.
#[verifier::opaque]
pub(crate) open spec fn pass_inv(
    start: CircuitView,
    now: CircuitView,
    stack: Seq<Seq<char>>,
    root: int,
    unvisited: Set<Seq<char>>,
    seeds: Seq<Seq<char>>,
) -> bool {
    &&& now.same_wiring(start)
    &&& now.sound()
    &&& now.poisoned_listed()
    &&& keeps_resolved(start.wires, now.wires)
    &&& start.justified() ==> now.justified()
    &&& start.uncomputable.is_prefix_of(now.uncomputable)
    &&& now.uncomputed == start.uncomputed
    &&& 0 <= root <= stack.len()
    &&& chained(now.wires, stack, root)
    &&& unvisited.finite()
    &&& covers(now.wires, stack, root, unvisited)
    &&& waiting_in(now.wires, seeds, stack)
    &&& stack_needed(inputs_of(start.wires), seeds, stack)
    &&& touches_needed_only(start.wires, now.wires, seeds)
}

/// A pass starts in order.
pub(crate) proof fn lemma_pass_start(start: CircuitView, seeds: Seq<Seq<char>>, root: int)
    requires
        start.sound(),
        start.poisoned_listed(),
        start.wires.dom().finite(),
        root == if seeds.len() == 0 {
            0
        } else {
            seeds.len() - 1
        },
    ensures
        pass_inv(start, start, seeds, root, start.wires.dom(), seeds),
{
    reveal(pass_inv);
    assert forall|i: int|
        0 <= i < seeds.len() && unresolved(start.wires, #[trigger] seeds[i]) implies seeds.contains(
        seeds[i],
    ) by {}
    assert forall|j: int| 0 <= j < seeds.len() implies needed(
        inputs_of(start.wires),
        seeds,
        #[trigger] seeds[j],
    ) by {
        assert(depends_within(inputs_of(start.wires), seeds[j], seeds[j], 0));
    }
}

/// Where the stack has shrunk below the root, its top is the new root.
pub(crate) proof fn lemma_pass_root(
    start: CircuitView,
    now: CircuitView,
    stack: Seq<Seq<char>>,
    root: int,
    unvisited: Set<Seq<char>>,
    seeds: Seq<Seq<char>>,
)
    requires
        pass_inv(start, now, stack, root, unvisited, seeds),
        stack.len() > 0,
        root > stack.len() - 1,
    ensures
        pass_inv(start, now, stack, stack.len() - 1, unvisited, seeds),
{
    reveal(pass_inv);
    assert forall|k: Seq<char>| !#[trigger] above_root(stack, stack.len() - 1, k) by {}
}

/// A wire that has its value leaves the stack.
pub(crate) proof fn lemma_pass_done(
    start: CircuitView,
    now: CircuitView,
    stack: Seq<Seq<char>>,
    root: int,
    unvisited: Set<Seq<char>>,
    seeds: Seq<Seq<char>>,
)
    requires
        pass_inv(start, now, stack, root, unvisited, seeds),
        0 <= root < stack.len(),
        step_of(now.wires, stack.last()) == StepView::Done,
    ensures
        pass_inv(start, now, stack.drop_last(), root, unvisited, seeds),
{
    reveal(pass_inv);
    lemma_pop(now.wires, stack, root, unvisited, seeds);
    assert forall|j: int| 0 <= j < stack.drop_last().len() implies needed(
        inputs_of(start.wires),
        seeds,
        #[trigger] stack.drop_last()[j],
    ) by {
        assert(stack.drop_last()[j] == stack[j]);
    }
}

/// A wire that gets its value leaves the stack.
pub(crate) proof fn lemma_pass_emit(
    start: CircuitView,
    before: CircuitView,
    after: CircuitView,
    stack: Seq<Seq<char>>,
    root: int,
    unvisited: Set<Seq<char>>,
    seeds: Seq<Seq<char>>,
    v: u16,
)
    requires
        pass_inv(start, before, stack, root, unvisited, seeds),
        0 <= root < stack.len(),
        step_of(before.wires, stack.last()) == StepView::Emit(v),
        before.wires.contains_key(stack.last()),
        after.wires == before.wires.insert(
            stack.last(),
            WireView { signal: Signal::Value(v), ..before.wires[stack.last()] },
        ),
        after.order == before.order,
        after.uncomputed == before.uncomputed,
        after.uncomputable == before.uncomputable,
    ensures
        pass_inv(start, after, stack.drop_last(), root, unvisited, seeds),
{
    reveal(pass_inv);
    let top = stack.last();
    lemma_emit(start.wires, before, after, top, v);
    lemma_stepped(start, before, after);
    assert forall|k: Seq<char>| #[trigger] unresolved(after.wires, k) implies unresolved(
        before.wires,
        k,
    ) by {
        assert(before.wires.contains_key(k));
    }
    assert forall|k: Seq<char>| #[trigger] unresolved(before.wires, k) && k != top implies unresolved(
        after.wires,
        k,
    ) && after.wires[k].input == before.wires[k].input by {
        assert(after.wires.contains_key(k));
    }
    lemma_emit_pop(before.wires, after.wires, stack, root, unvisited, seeds);
    assert forall|k: Seq<char>| #[trigger]
        after.wires.contains_key(k) && after.wires[k].signal
            != before.wires[k].signal implies stack.contains(k) by {
        assert(k == top);
        assert(stack[stack.len() - 1] == top);
    }
    lemma_touch(start.wires, before.wires, after.wires, seeds, stack);
    assert forall|j: int| 0 <= j < stack.drop_last().len() implies needed(
        inputs_of(start.wires),
        seeds,
        #[trigger] stack.drop_last()[j],
    ) by {
        assert(stack.drop_last()[j] == stack[j]);
    }
}

/// A chain that is given up leaves the stack.
pub(crate) proof fn lemma_pass_poison(
    start: CircuitView,
    before: CircuitView,
    after: CircuitView,
    stack: Seq<Seq<char>>,
    root: int,
    unvisited: Set<Seq<char>>,
    seeds: Seq<Seq<char>>,
)
    requires
        pass_inv(start, before, stack, root, unvisited, seeds),
        0 <= root < stack.len(),
        step_of(before.wires, stack.last()) == StepView::Poison,
        poisoned_from(before.wires, after.wires, stack.subrange(root, stack.len() as int)),
        listed_from(
            before.uncomputable,
            after.uncomputable,
            stack.subrange(root, stack.len() as int),
            before.wires,
        ),
        after.order == before.order,
        after.uncomputed == before.uncomputed,
    ensures
        pass_inv(start, after, stack.subrange(0, root), root, unvisited, seeds),
{
    reveal(pass_inv);
    lemma_poison(start.wires, before, after, stack, root);
    lemma_stepped(start, before, after);
    lemma_poison_cut(before.wires, after.wires, stack, root, unvisited, seeds);
    let chain = stack.subrange(root, stack.len() as int);
    assert forall|k: Seq<char>| #[trigger]
        after.wires.contains_key(k) && after.wires[k].signal
            != before.wires[k].signal implies stack.contains(k) by {
        assert(chain.contains(k));
        let i = choose|i: int| 0 <= i < chain.len() && chain[i] == k;
        assert(stack[root + i] == k);
    }
    lemma_touch(start.wires, before.wires, after.wires, seeds, stack);
    assert forall|j: int| 0 <= j < stack.subrange(0, root).len() implies needed(
        inputs_of(start.wires),
        seeds,
        #[trigger] stack.subrange(0, root)[j],
    ) by {
        assert(stack.subrange(0, root)[j] == stack[j]);
    }
}

/// A wire that the top of the stack has to wait for either closes a loop or
/// goes on the stack, one wire less being left to visit.
pub(crate) proof fn lemma_pass_visit(
    start: CircuitView,
    now: CircuitView,
    stack: Seq<Seq<char>>,
    root: int,
    unvisited: Set<Seq<char>>,
    seeds: Seq<Seq<char>>,
    read: Seq<char>,
)
    requires
        pass_inv(start, now, stack, root, unvisited, seeds),
        0 <= root < stack.len(),
        step_of(now.wires, stack.last()) == StepView::Visit(read),
    ensures
        (exists|j: int| root <= j < stack.len() && stack[j] == read) ==> has_unresolved_loop(
            now.wires,
        )
            && waiting_in(now.wires, seeds, now.uncomputed + stack),
        !(exists|j: int| root <= j < stack.len() && stack[j] == read) ==> unvisited.contains(read)
            && unvisited.remove(read).len() < unvisited.len() && pass_inv(
            start,
            now,
            stack.push(read),
            root,
            unvisited.remove(read),
            seeds,
        ),
{
    reveal(pass_inv);
    let top = stack.last();
    lemma_plan_visit(now.wires, now.wires[top].input);
    if exists|j: int| root <= j < stack.len() && stack[j] == read {
        let at = choose|j: int| root <= j < stack.len() && stack[j] == read;
        lemma_loop(now.wires, stack, root, at);
        lemma_waiting_added(now.wires, seeds, now.uncomputed, stack);
    } else {
        assert forall|j: int| root <= j < stack.len() implies stack[j] != read by {}
        lemma_visit(now.wires, stack, root, unvisited, seeds, read);
        let inputs = inputs_of(start.wires);
        lemma_same_inputs(now.wires, start.wires);
        assert(needed(inputs, seeds, stack[stack.len() - 1]));
        let i = choose|i: int| 0 <= i < seeds.len() && depends_on(inputs, #[trigger] seeds[i], top);
        lemma_depends_step(inputs, seeds[i], top, read);
        assert forall|j: int| 0 <= j < stack.push(read).len() implies needed(
            inputs,
            seeds,
            #[trigger] stack.push(read)[j],
        ) by {
            if j < stack.len() {
                assert(stack.push(read)[j] == stack[j]);
            }
        }
    }
}

/// What a pass has brought about when it ends, with an empty stack or
/// before.
pub(crate) proof fn lemma_pass_end(
    start: CircuitView,
    now: CircuitView,
    stack: Seq<Seq<char>>,
    root: int,
    unvisited: Set<Seq<char>>,
    seeds: Seq<Seq<char>>,
)
    requires
        pass_inv(start, now, stack, root, unvisited, seeds),
    ensures
        now.same_wiring(start),
        now.inputs() == start.inputs(),
        now.sound(),
        now.poisoned_listed(),
        keeps_resolved(start.wires, now.wires),
        start.justified() ==> now.justified(),
        start.uncomputable.is_prefix_of(now.uncomputable),
        now.uncomputed == start.uncomputed,
        waiting_in(now.wires, seeds, stack),
        touches_needed_only(start.wires, now.wires, seeds),
{
    reveal(pass_inv);
    lemma_same_inputs(now.wires, start.wires);
}

/// The wires named in `list` were made unresolved again and nothing else
/// changed.
pub(crate) open spec fn remarked(
    before: Map<Seq<char>, WireView>,
    after: Map<Seq<char>, WireView>,
    list: Seq<Seq<char>>,
) -> bool {
    &&& after.dom() == before.dom()
    &&& forall|k: Seq<char>| #[trigger]
        after.contains_key(k) ==> after[k] == if list.contains(k) {
            WireView { signal: Signal::Uncomputed, ..before[k] }
        } else {
            before[k]
        }
}

/// One more wire made unresolved again.
pub(crate) proof fn lemma_remark_step(
    start: Map<Seq<char>, WireView>,
    before: Map<Seq<char>, WireView>,
    after: Map<Seq<char>, WireView>,
    list: Seq<Seq<char>>,
    i: int,
)
    requires
        0 <= i < list.len(),
        remarked(start, before, list.subrange(0, i)),
        if before.contains_key(list[i]) {
            after == before.insert(
                list[i],
                WireView { signal: Signal::Uncomputed, ..before[list[i]] },
            )
        } else {
            after == before
        },
    ensures
        remarked(start, after, list.subrange(0, i + 1)),
{
    let done = list.subrange(0, i);
    let next = list.subrange(0, i + 1);
    let name = list[i];
    assert(next =~= done.push(name));
    assert(after.dom() =~= start.dom());
    assert forall|k: Seq<char>| #[trigger] after.contains_key(k) implies after[k] == if next.contains(
        k,
    ) {
        WireView { signal: Signal::Uncomputed, ..start[k] }
    } else {
        start[k]
    } by {
        assert(before.contains_key(k));
        if next.contains(k) {
            let j = choose|j: int| 0 <= j < next.len() && next[j] == k;
            if j < done.len() {
                assert(done[j] == k);
            }
        }
        if done.contains(k) {
            let j = choose|j: int| 0 <= j < done.len() && done[j] == k;
            assert(next[j] == k);
        }
        if k == name {
            assert(next[done.len() as int] == k);
        }
    }
}

/// A circuit whose uncomputable wires were all made unresolved again is
/// ready for a pass over them and over the wires that waited.
pub(crate) proof fn lemma_remarked(before: CircuitView, after: CircuitView)
    requires
        before.consistent(),
        remarked(before.wires, after.wires, before.uncomputable),
        after.order == before.order,
        after.uncomputable == Seq::<Seq<char>>::empty(),
        after.uncomputed == Seq::<Seq<char>>::empty(),
    ensures
        after.same_wiring(before),
        after.inputs() == before.inputs(),
        after.sound(),
        after.poisoned_listed(),
        after.justified(),
        forall|k: Seq<char>| #[trigger]
            unresolved(after.wires, k) ==> (before.uncomputable + before.uncomputed).contains(k),
        forall|k: Seq<char>| #[trigger]
            before.wires.contains_key(k) && before.wires[k].signal is Value
                ==> after.wires[k].signal == before.wires[k].signal,
{
    let list = before.uncomputable;
    let seeds = before.uncomputable + before.uncomputed;
    lemma_same_inputs(after.wires, before.wires);
    assert forall|k: Seq<char>| list.contains(k) implies before.wires.contains_key(k)
        && before.wires[k].signal == Signal::Uncomputable by {
        let i = choose|i: int| 0 <= i < list.len() && list[i] == k;
        assert(before.wires.contains_key(list[i]));
    }
    assert forall|k: Seq<char>| #[trigger] after.wires.contains_key(k) implies match after.wires[k].signal {
        Signal::Value(v) => has_value(after.inputs(), k, v),
        _ => true,
    } by {
        assert(before.wires.contains_key(k));
    }
    assert forall|k: Seq<char>| #[trigger] after.wires.contains_key(k) implies after.wires[k].signal
        != Signal::Uncomputable by {
        assert(before.wires.contains_key(k));
        if before.wires[k].signal == Signal::Uncomputable {
            assert(list.contains(k));
        }
    }
    assert forall|k: Seq<char>| #[trigger] unresolved(after.wires, k) implies seeds.contains(k) by {
        assert(before.wires.contains_key(k));
        if list.contains(k) {
            let i = choose|i: int| 0 <= i < list.len() && list[i] == k;
            assert(seeds[i] == k);
        } else {
            assert(before.uncomputed.contains(k));
            let i = choose|i: int| 0 <= i < before.uncomputed.len() && before.uncomputed[i] == k;
            assert(seeds[list.len() + i] == k);
        }
    }
    assert forall|k: Seq<char>| #[trigger]
        before.wires.contains_key(k) && before.wires[k].signal is Value implies after.wires[k].signal
        == before.wires[k].signal by {
        assert(after.wires.contains_key(k));
    }
}

/// After a pass over every wire that waited, no wire is left unresolved,
/// unless the pass met a loop; what it left unresolved then waits.
pub(crate) proof fn lemma_all_seeded(
    mid: CircuitView,
    after: CircuitView,
    seeds: Seq<Seq<char>>,
    list: Seq<Seq<char>>,
)
    requires
        after.same_wiring(mid),
        keeps_resolved(mid.wires, after.wires),
        forall|k: Seq<char>| #[trigger] unresolved(mid.wires, k) ==> seeds.contains(k),
        waiting_in(after.wires, seeds, list),
    ensures
        forall|k: Seq<char>| #[trigger] unresolved(after.wires, k) ==> list.contains(k),
{
    assert forall|k: Seq<char>| #[trigger] unresolved(after.wires, k) implies list.contains(k) by {
        assert(after.wires.contains_key(k));
        assert(mid.wires.contains_key(k));
        if mid.wires[k].signal != Signal::Uncomputed {
            assert(after.wires[k].signal == mid.wires[k].signal);
        }
        assert(unresolved(mid.wires, k));
        assert(seeds.contains(k));
        let i = choose|i: int| 0 <= i < seeds.len() && seeds[i] == k;
        assert(unresolved(after.wires, seeds[i]));
    }
}

} // verus!
