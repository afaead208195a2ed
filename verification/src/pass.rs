//! What a pass over a circuit does, step by step.

use vstd::prelude::*;
use crate::circuit::CircuitView;
use crate::semantics::depends_on;
use crate::semantics::has_loop;
use crate::semantics::inputs_of;
use crate::semantics::is_loop;
use crate::signal::Signal;
use crate::wire::InputView;
use crate::wire::WireView;

verus! {

/// A [`Step`] as plain values.
pub enum StepView {
    Done,
    Emit(u16),
    Poison,
    Visit(Seq<char>),
}

/// The signal of the wire `id` as another wire sees it: a missing wire counts
/// as uncomputable.
pub open spec fn status(wires: Map<Seq<char>, WireView>, id: Seq<char>) -> Signal {
    if wires.contains_key(id) {
        wires[id].signal
    } else {
        Signal::Uncomputable
    }
}

/// What a pass does next with an unresolved wire fed by `input`. The wires
/// that it reads are looked at from left to right; an uncomputable one
/// decides before an unresolved one.
pub open spec fn plan(wires: Map<Seq<char>, WireView>, input: InputView) -> StepView {
    match input.first() {
        None => StepView::Emit(input.output(0, 0)),
        Some(first) => match input.second() {
            None => match status(wires, first) {
                Signal::Value(a) => StepView::Emit(input.output(a, 0)),
                Signal::Uncomputable => StepView::Poison,
                Signal::Uncomputed => StepView::Visit(first),
            },
            Some(second) => match (status(wires, first), status(wires, second)) {
                (Signal::Value(a), Signal::Value(b)) => StepView::Emit(input.output(a, b)),
                (Signal::Uncomputable, _) => StepView::Poison,
                (_, Signal::Uncomputable) => StepView::Poison,
                (Signal::Uncomputed, _) => StepView::Visit(first),
                (_, Signal::Uncomputed) => StepView::Visit(second),
            },
        },
    }
}

/// What a pass does next with the wire `id`.
pub open spec fn step_of(wires: Map<Seq<char>, WireView>, id: Seq<char>) -> StepView {
    if !wires.contains_key(id) {
        StepView::Poison
    } else {
        match wires[id].signal {
            Signal::Value(_) => StepView::Done,
            Signal::Uncomputable => StepView::Poison,
            Signal::Uncomputed => plan(wires, wires[id].input),
        }
    }
}

/// The wire `id` is in the circuit and not resolved.
pub open spec fn unresolved(wires: Map<Seq<char>, WireView>, id: Seq<char>) -> bool {
    wires.contains_key(id) && wires[id].signal == Signal::Uncomputed
}

/// `path` is a loop of unresolved wires: each reads the next, and the last
/// reads the first.
pub open spec fn is_unresolved_loop(wires: Map<Seq<char>, WireView>, path: Seq<Seq<char>>) -> bool {
    &&& is_loop(inputs_of(wires), path)
    &&& forall|i: int| 0 <= i < path.len() ==> unresolved(wires, #[trigger] path[i])
}

/// Some unresolved wires form a loop: none of them can be resolved before
/// the others.
pub open spec fn has_unresolved_loop(wires: Map<Seq<char>, WireView>) -> bool {
    exists|path: Seq<Seq<char>>| is_unresolved_loop(wires, path)
}

/// A loop of unresolved wires is a loop.
pub proof fn lemma_unresolved_loop_is_loop(wires: Map<Seq<char>, WireView>)
    requires
        has_unresolved_loop(wires),
    ensures
        has_loop(inputs_of(wires)),
{
    let path = choose|path: Seq<Seq<char>>| is_unresolved_loop(wires, path);
    assert(is_loop(inputs_of(wires), path));
}

/// A pass between two of its steps: the wires with their signals, the list
/// of wires found uncomputable, the stack of names that wait, its last name
/// on top, and the place of the root of the chain in hand.
pub struct PassView {
    pub wires: Map<Seq<char>, WireView>,
    pub uncomputable: Seq<Seq<char>>,
    pub stack: Seq<Seq<char>>,
    pub root: int,
}

/// The wires `wires` with those named in `chain` marked uncomputable.
pub open spec fn poisoned(wires: Map<Seq<char>, WireView>, chain: Seq<Seq<char>>) -> Map<
    Seq<char>,
    WireView,
> {
    Map::new(
        |k: Seq<char>| wires.contains_key(k),
        |k: Seq<char>|
            if chain.contains(k) {
                WireView { signal: Signal::Uncomputable, ..wires[k] }
            } else {
                wires[k]
            },
    )
}

/// The wires `wires` with those named in `list` made unresolved.
pub open spec fn unmarked(wires: Map<Seq<char>, WireView>, list: Seq<Seq<char>>) -> Map<
    Seq<char>,
    WireView,
> {
    Map::new(
        |k: Seq<char>| wires.contains_key(k),
        |k: Seq<char>|
            if list.contains(k) {
                WireView { signal: Signal::Uncomputed, ..wires[k] }
            } else {
                wires[k]
            },
    )
}

/// The names of `chain` that name a wire, in the same order.
pub open spec fn present(wires: Map<Seq<char>, WireView>, chain: Seq<Seq<char>>) -> Seq<Seq<char>>
    decreases chain.len(),
{
    if chain.len() == 0 {
        Seq::<Seq<char>>::empty()
    } else {
        let before = present(wires, chain.drop_last());
        if wires.contains_key(chain.last()) {
            before.push(chain.last())
        } else {
            before
        }
    }
}

/// One step of a pass whose stack is not empty, or `None` where the step
/// meets a loop.
///
/// The root moves down to the top of the stack where the stack has shrunk
/// below it. Then the wire on top decides: a wire that has its value leaves
/// the stack; a wire that gets its value leaves the stack with it; a wire
/// that is given up takes with it the whole chain from the root upwards,
/// which is marked uncomputable and listed as such; a wire that has to
/// wait for another puts that wire on the stack, unless it stands in the
/// chain already, which is a loop.
pub open spec fn advance(pass: PassView) -> Option<PassView> {
    let root = if pass.root > pass.stack.len() - 1 {
        pass.stack.len() - 1
    } else {
        pass.root
    };
    let top = pass.stack.last();
    match step_of(pass.wires, top) {
        StepView::Done => Some(PassView { stack: pass.stack.drop_last(), root, ..pass }),
        StepView::Emit(v) => Some(
            PassView {
                wires: pass.wires.insert(
                    top,
                    WireView { signal: Signal::Value(v), ..pass.wires[top] },
                ),
                stack: pass.stack.drop_last(),
                root,
                ..pass
            },
        ),
        StepView::Poison => {
            let chain = pass.stack.subrange(root, pass.stack.len() as int);
            Some(
                PassView {
                    wires: poisoned(pass.wires, chain),
                    uncomputable: pass.uncomputable + present(pass.wires, chain),
                    stack: pass.stack.subrange(0, root),
                    root,
                },
            )
        },
        StepView::Visit(read) => if pass.stack.subrange(root, pass.stack.len() as int).contains(
            read,
        ) {
            None
        } else {
            Some(PassView { stack: pass.stack.push(read), root, ..pass })
        },
    }
}

/// Where a pass stands when it ends, and whether it ended well, if it ends
/// within `steps` steps: it ends well when its stack is empty, and badly
/// when it meets a loop.
pub open spec fn run(pass: PassView, steps: nat) -> Option<(PassView, bool)>
    decreases steps,
{
    if pass.stack.len() == 0 {
        Some((pass, true))
    } else {
        match advance(pass) {
            None => Some((pass, false)),
            Some(next) => if steps == 0 {
                None
            } else {
                run(next, (steps - 1) as nat)
            },
        }
    }
}

/// A pass that ends within some number of steps ends in the same way within
/// any greater number.
pub proof fn lemma_run_monotone(pass: PassView, steps: nat, more: nat)
    requires
        run(pass, steps) is Some,
        steps <= more,
    ensures
        run(pass, more) == run(pass, steps),
    decreases steps,
{
    if pass.stack.len() > 0 {
        if let Some(next) = advance(pass) {
            lemma_run_monotone(next, (steps - 1) as nat, (more - 1) as nat);
        }
    }
}

/// A pass ends in one way only.
pub proof fn lemma_run_unique(
    pass: PassView,
    steps: nat,
    others: nat,
    end: (PassView, bool),
    other: (PassView, bool),
)
    requires
        run(pass, steps) == Some(end),
        run(pass, others) == Some(other),
    ensures
        end == other,
{
    if steps <= others {
        lemma_run_monotone(pass, steps, others);
    } else {
        lemma_run_monotone(pass, others, steps);
    }
}

/// The pass that starts on the circuit `wires`, `uncomputable` with the
/// names `seeds` to resolve, the last of them first.
pub open spec fn first_pass(
    wires: Map<Seq<char>, WireView>,
    uncomputable: Seq<Seq<char>>,
    seeds: Seq<Seq<char>>,
) -> PassView {
    PassView {
        wires,
        uncomputable,
        stack: seeds,
        root: if seeds.len() == 0 {
            0
        } else {
            seeds.len() - 1
        },
    }
}

/// The pass `start` ends within `steps` steps where `end` says, well or
/// badly as `ok` says.
pub open spec fn ends(start: PassView, steps: nat, end: PassView, ok: bool) -> bool {
    run(start, steps) == Some((end, ok))
}

/// The circuit `after` is what a pass over the names `seeds` makes of the
/// circuit `before`, the pass ending well or badly as `ok` says: the wires
/// and the list of uncomputable wires are as the pass leaves them, and the
/// names that the pass left on its stack are added to those that wait.
pub open spec fn passed(
    before: CircuitView,
    seeds: Seq<Seq<char>>,
    after: CircuitView,
    ok: bool,
) -> bool {
    exists|steps: nat, end: PassView|
        {
            &&& #[trigger] ends(
                first_pass(before.wires, before.uncomputable, seeds),
                steps,
                end,
                ok,
            )
            &&& after.wires == end.wires
            &&& after.order == before.order
            &&& after.uncomputable == end.uncomputable
            &&& after.uncomputed == before.uncomputed + end.stack
        }
}

/// One of the wires named in `seeds` depends on the wire `id`.
pub open spec fn needed(inputs: Map<Seq<char>, InputView>, seeds: Seq<Seq<char>>, id: Seq<char>) -> bool {
    exists|i: int| 0 <= i < seeds.len() && depends_on(inputs, #[trigger] seeds[i], id)
}

/// No signal changed but of wires that the wires named in `seeds` depend
/// on.
pub open spec fn touches_needed_only(
    before: Map<Seq<char>, WireView>,
    after: Map<Seq<char>, WireView>,
    seeds: Seq<Seq<char>>,
) -> bool {
    forall|k: Seq<char>| #[trigger]
        after.contains_key(k) && after[k].signal != before[k].signal ==> needed(
            inputs_of(before),
            seeds,
            k,
        )
}

/// No wire that had its signal lost or changed it.
pub open spec fn keeps_resolved(
    before: Map<Seq<char>, WireView>,
    after: Map<Seq<char>, WireView>,
) -> bool {
    forall|k: Seq<char>| #[trigger]
        before.contains_key(k) && before[k].signal != Signal::Uncomputed ==> after.contains_key(k)
            && after[k].signal == before[k].signal
}

/// Every one of `seeds` that names an unresolved wire is listed in `list`.
pub open spec fn waiting_in(
    wires: Map<Seq<char>, WireView>,
    seeds: Seq<Seq<char>>,
    list: Seq<Seq<char>>,
) -> bool {
    forall|i: int|
        0 <= i < seeds.len() && unresolved(wires, #[trigger] seeds[i]) ==> list.contains(seeds[i])
}

} // verus!
