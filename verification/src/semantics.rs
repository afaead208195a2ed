//! What the signals of a circuit mean: the value of a wire, and what it is
//! for a wire to depend on a missing wire or on a loop.

use vstd::prelude::*;
use crate::signal::Signal;
use crate::wire::InputView;
use crate::wire::WireView;

verus! {

/// What each wire of a circuit is fed by, whatever signal it carries now.
pub open spec fn inputs_of(wires: Map<Seq<char>, WireView>) -> Map<Seq<char>, InputView> {
    Map::new(|k: Seq<char>| wires.contains_key(k), |k: Seq<char>| wires[k].input)
}

/// The value of the wire `id` as far as it can be derived in `depth` steps
/// from the constants of the circuit: a wire has a value once every wire
/// that it reads has one.
pub open spec fn value_within(inputs: Map<Seq<char>, InputView>, id: Seq<char>, depth: nat) -> Option<
    u16,
>
    decreases depth,
{
    if depth == 0 || !inputs.contains_key(id) {
        None
    } else {
        let input = inputs[id];
        let a = match input.first() {
            Some(first) => value_within(inputs, first, (depth - 1) as nat),
            None => Some(0u16),
        };
        let b = match input.second() {
            Some(second) => value_within(inputs, second, (depth - 1) as nat),
            None => Some(0u16),
        };
        match (a, b) {
            (Some(a), Some(b)) => Some(input.output(a, b)),
            _ => None,
        }
    }
}

/// The wire `id` carries the value `v`: its value can be derived from the
/// constants of the circuit.
pub open spec fn has_value(inputs: Map<Seq<char>, InputView>, id: Seq<char>, v: u16) -> bool {
    exists|depth: nat| value_within(inputs, id, depth) == Some(v)
}

/// The wire `id` reads, directly or through at most `depth - 1` other wires,
/// a wire that the circuit lacks.
pub open spec fn dangling_within(inputs: Map<Seq<char>, InputView>, id: Seq<char>, depth: nat) -> bool
    decreases depth,
{
    depth > 0 && inputs.contains_key(id) && {
        let input = inputs[id];
        ||| match input.first() {
            Some(first) => !inputs.contains_key(first) || dangling_within(
                inputs,
                first,
                (depth - 1) as nat,
            ),
            None => false,
        }
        ||| match input.second() {
            Some(second) => !inputs.contains_key(second) || dangling_within(
                inputs,
                second,
                (depth - 1) as nat,
            ),
            None => false,
        }
    }
}

/// The wire `id` depends on a wire that the circuit lacks.
pub open spec fn dangling(inputs: Map<Seq<char>, InputView>, id: Seq<char>) -> bool {
    exists|depth: nat| dangling_within(inputs, id, depth)
}

/// `path` is a loop: each of its wires reads the next, and the last reads
/// the first.
pub open spec fn is_loop(inputs: Map<Seq<char>, InputView>, path: Seq<Seq<char>>) -> bool {
    &&& path.len() > 0
    &&& forall|i: int| 0 <= i < path.len() ==> inputs.contains_key(#[trigger] path[i])
    &&& forall|i: int|
        0 <= i < path.len() - 1 ==> (#[trigger] inputs[path[i]]).has_input(path[i + 1])
    &&& inputs[path.last()].has_input(path[0])
}

/// Some wires of the circuit form a loop.
pub open spec fn has_loop(inputs: Map<Seq<char>, InputView>) -> bool {
    exists|path: Seq<Seq<char>>| is_loop(inputs, path)
}

/// The signal `signal` is the right one for the wire `id`: a value that
/// derives from the constants of the circuit, or the mark of a wire that
/// depends on a missing one.
pub open spec fn settled(inputs: Map<Seq<char>, InputView>, id: Seq<char>, signal: Signal) -> bool {
    match signal {
        Signal::Value(v) => has_value(inputs, id, v),
        Signal::Uncomputable => dangling(inputs, id),
        Signal::Uncomputed => false,
    }
}

/// A value derived in some number of steps is derived in any greater number.
pub proof fn lemma_value_monotone(
    inputs: Map<Seq<char>, InputView>,
    id: Seq<char>,
    depth: nat,
    more: nat,
)
    requires
        value_within(inputs, id, depth) is Some,
        depth <= more,
    ensures
        value_within(inputs, id, more) == value_within(inputs, id, depth),
    decreases depth,
{
    let input = inputs[id];
    if let Some(first) = input.first() {
        lemma_value_monotone(inputs, first, (depth - 1) as nat, (more - 1) as nat);
    }
    if let Some(second) = input.second() {
        lemma_value_monotone(inputs, second, (depth - 1) as nat, (more - 1) as nat);
    }
}

/// A value that derives in a circuit derives in any circuit that holds the
/// same wires and more.
pub proof fn lemma_value_extends(
    inputs: Map<Seq<char>, InputView>,
    more: Map<Seq<char>, InputView>,
    id: Seq<char>,
    depth: nat,
)
    requires
        forall|k: Seq<char>| #[trigger]
            inputs.contains_key(k) ==> more.contains_key(k) && more[k] == inputs[k],
        value_within(inputs, id, depth) is Some,
    ensures
        value_within(more, id, depth) == value_within(inputs, id, depth),
    decreases depth,
{
    assert(inputs.contains_key(id));
    let input = inputs[id];
    if let Some(first) = input.first() {
        lemma_value_extends(inputs, more, first, (depth - 1) as nat);
    }
    if let Some(second) = input.second() {
        lemma_value_extends(inputs, more, second, (depth - 1) as nat);
    }
}

/// A wire has one value at most.
pub proof fn lemma_value_unique(inputs: Map<Seq<char>, InputView>, id: Seq<char>, v: u16, w: u16)
    requires
        has_value(inputs, id, v),
        has_value(inputs, id, w),
    ensures
        v == w,
{
    let d1 = choose|depth: nat| value_within(inputs, id, depth) == Some(v);
    let d2 = choose|depth: nat| value_within(inputs, id, depth) == Some(w);
    if d1 <= d2 {
        lemma_value_monotone(inputs, id, d1, d2);
    } else {
        lemma_value_monotone(inputs, id, d2, d1);
    }
}

/// A wire that has a value within some depth does not depend on a missing
/// wire.
pub proof fn lemma_value_excludes_dangling(
    inputs: Map<Seq<char>, InputView>,
    id: Seq<char>,
    depth: nat,
    other: nat,
)
    requires
        value_within(inputs, id, depth) is Some,
    ensures
        !dangling_within(inputs, id, other),
    decreases depth,
{
    if other > 0 {
        let input = inputs[id];
        if let Some(first) = input.first() {
            lemma_value_excludes_dangling(
                inputs,
                first,
                (depth - 1) as nat,
                (other - 1) as nat,
            );
        }
        if let Some(second) = input.second() {
            lemma_value_excludes_dangling(
                inputs,
                second,
                (depth - 1) as nat,
                (other - 1) as nat,
            );
        }
    }
}

/// A wire has one right signal at most.
pub proof fn lemma_settled_unique(
    inputs: Map<Seq<char>, InputView>,
    id: Seq<char>,
    s: Signal,
    t: Signal,
)
    requires
        settled(inputs, id, s),
        settled(inputs, id, t),
    ensures
        s == t,
{
    match (s, t) {
        (Signal::Value(v), Signal::Value(w)) => {
            lemma_value_unique(inputs, id, v, w);
        },
        (Signal::Value(v), Signal::Uncomputable) => {
            let d = choose|depth: nat| value_within(inputs, id, depth) == Some(v);
            let o = choose|depth: nat| dangling_within(inputs, id, depth);
            lemma_value_excludes_dangling(inputs, id, d, o);
        },
        (Signal::Uncomputable, Signal::Value(v)) => {
            let d = choose|depth: nat| value_within(inputs, id, depth) == Some(v);
            let o = choose|depth: nat| dangling_within(inputs, id, depth);
            lemma_value_excludes_dangling(inputs, id, d, o);
        },
        _ => {},
    }
}

/// A wire whose inputs carry the values `a` and `b` carries what its input
/// makes of them.
pub proof fn lemma_value_step(inputs: Map<Seq<char>, InputView>, id: Seq<char>, a: u16, b: u16)
    requires
        inputs.contains_key(id),
        inputs[id].first() is Some ==> has_value(inputs, inputs[id].first()->0, a),
        inputs[id].second() is Some ==> has_value(inputs, inputs[id].second()->0, b),
    ensures
        has_value(inputs, id, inputs[id].output(a, b)),
{
    let input = inputs[id];
    let d1: nat = if input.first() is Some {
        choose|depth: nat| value_within(inputs, input.first()->0, depth) == Some(a)
    } else {
        0
    };
    let d2: nat = if input.second() is Some {
        choose|depth: nat| value_within(inputs, input.second()->0, depth) == Some(b)
    } else {
        0
    };
    let d: nat = if d1 <= d2 {
        d2
    } else {
        d1
    };
    if input.first() is Some {
        lemma_value_monotone(inputs, input.first()->0, d1, d);
    }
    if input.second() is Some {
        lemma_value_monotone(inputs, input.second()->0, d2, d);
    }
    lemma_output_ignores_unread(input, a, b);
    assert(value_within(inputs, id, d + 1) == Some(input.output(a, b)));
}

/// The output of an input does not depend on a value for a wire that it
/// does not read.
pub proof fn lemma_output_ignores_unread(input: InputView, a: u16, b: u16)
    ensures
        input.first() is None ==> input.output(a, b) == input.output(0, 0),
        input.second() is None ==> input.output(a, b) == input.output(a, 0),
{
}

/// A wire that reads a missing wire, or a wire that depends on a missing
/// one, depends on a missing wire itself.
pub proof fn lemma_dangling_step(inputs: Map<Seq<char>, InputView>, id: Seq<char>, read: Seq<char>)
    requires
        inputs.contains_key(id),
        inputs[id].has_input(read),
        !inputs.contains_key(read) || dangling(inputs, read),
    ensures
        dangling(inputs, id),
{
    if !inputs.contains_key(read) {
        assert(dangling_within(inputs, id, 1));
    } else {
        let d = choose|depth: nat| dangling_within(inputs, read, depth);
        assert(dangling_within(inputs, id, d + 1));
    }
}

/// Wires that differ in their signals only are fed alike.
pub proof fn lemma_same_inputs(a: Map<Seq<char>, WireView>, b: Map<Seq<char>, WireView>)
    requires
        a.dom() == b.dom(),
        forall|k: Seq<char>| #[trigger] a.contains_key(k) ==> a[k].input == b[k].input,
    ensures
        inputs_of(a) == inputs_of(b),
{
    assert(inputs_of(a) =~= inputs_of(b));
}

/// The wire `from` is `to`, or reads it, directly or through at most
/// `depth - 1` other wires.
pub open spec fn depends_within(
    inputs: Map<Seq<char>, InputView>,
    from: Seq<char>,
    to: Seq<char>,
    depth: nat,
) -> bool
    decreases depth,
{
    from == to || (depth > 0 && inputs.contains_key(from) && {
        ||| match inputs[from].first() {
            Some(first) => depends_within(inputs, first, to, (depth - 1) as nat),
            None => false,
        }
        ||| match inputs[from].second() {
            Some(second) => depends_within(inputs, second, to, (depth - 1) as nat),
            None => false,
        }
    })
}

/// The signal of the wire `from` depends on the wire `to`: it is that wire,
/// or reads it, directly or through other wires.
pub open spec fn depends_on(inputs: Map<Seq<char>, InputView>, from: Seq<char>, to: Seq<char>) -> bool {
    exists|depth: nat| depends_within(inputs, from, to, depth)
}

/// What depends on a wire depends on the wires that it reads.
pub proof fn lemma_depends_within_step(
    inputs: Map<Seq<char>, InputView>,
    from: Seq<char>,
    through: Seq<char>,
    to: Seq<char>,
    depth: nat,
)
    requires
        depends_within(inputs, from, through, depth),
        inputs.contains_key(through),
        inputs[through].has_input(to),
    ensures
        depends_within(inputs, from, to, depth + 1),
    decreases depth,
{
    if from == through {
        assert(depends_within(inputs, to, to, depth));
        assert(inputs[from].first() == Some(to) || inputs[from].second() == Some(to));
    } else {
        let input = inputs[from];
        let by_first = match input.first() {
            Some(first) => depends_within(inputs, first, through, (depth - 1) as nat),
            None => false,
        };
        if by_first {
            lemma_depends_within_step(
                inputs,
                input.first()->0,
                through,
                to,
                (depth - 1) as nat,
            );
        } else {
            lemma_depends_within_step(
                inputs,
                input.second()->0,
                through,
                to,
                (depth - 1) as nat,
            );
        }
    }
}

/// What depends on a wire depends on the wires that it reads.
pub proof fn lemma_depends_step(
    inputs: Map<Seq<char>, InputView>,
    from: Seq<char>,
    through: Seq<char>,
    to: Seq<char>,
)
    requires
        depends_on(inputs, from, through),
        inputs.contains_key(through),
        inputs[through].has_input(to),
    ensures
        depends_on(inputs, from, to),
{
    let depth = choose|depth: nat| depends_within(inputs, from, through, depth);
    lemma_depends_within_step(inputs, from, through, to, depth);
}

} // verus!
