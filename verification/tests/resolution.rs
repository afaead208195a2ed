use circuitry::circuit::Circuit;
use circuitry::circuit::Step;
use circuitry::error::Error;
use circuitry::gate::Gate;
use circuitry::signal::Signal;
use circuitry::wire::Wire;
use circuitry::wire_id::WireId;

fn id(name: &str) -> WireId {
    WireId::new(name).unwrap()
}

fn names(ids: &Vec<WireId>) -> Vec<String> {
    ids.iter().map(|id| id.to_string()).collect()
}

fn signals(c: &Circuit) -> Vec<(String, Signal)> {
    let mut all: Vec<(String, Signal)> = c
        .get_wires()
        .iter()
        .map(|w| (w.id().to_string(), *w.signal()))
        .collect();
    all.sort_by(|a, b| a.0.cmp(&b.0));
    all
}

#[test]
fn second_pass_changes_nothing() {
    let mut c = Circuit::new();
    c.add_wire_with_value("x", 0x00ff).unwrap();
    c.add_gate_not("n", "x").unwrap();
    c.add_gate_and("d", "x", "missing").unwrap();
    c.add_wire_from_wire("e", "d").unwrap();
    assert!(c.compute_signals().is_ok());
    let once = signals(&c);
    let listed = names(c.uncomputable());
    assert!(c.compute_signals().is_ok());
    assert_eq!(signals(&c), once);
    assert_eq!(names(c.uncomputable()), listed);
    assert_eq!(listed, vec!["d".to_string(), "e".to_string()]);
    assert!(c.uncomputed().is_empty());
    assert_eq!(c.signal("n"), Signal::Value(0xff00));
}

#[test]
fn second_pass_can_meet_a_loop_among_uncomputable_wires() {
    // `m` and `k` read each other, and `m` also reads `a`, which reads a
    // missing wire. The first pass settles `a` before it looks at `m`.
    let mut c = Circuit::new();
    c.add_gate_and("m", "k", "a").unwrap();
    c.add_wire_from_wire("k", "m").unwrap();
    c.add_wire_from_wire("a", "z").unwrap();
    assert!(c.compute_signals().is_ok());
    assert_eq!(c.signal("a"), Signal::Uncomputable);
    assert_eq!(c.signal("k"), Signal::Uncomputable);
    assert_eq!(c.signal("m"), Signal::Uncomputable);
    assert_eq!(names(c.uncomputable()), vec!["a", "k", "m"]);
    // The second pass tries all three again, `m` first.
    assert!(matches!(c.compute_signals(), Err(Error::CircuitLoop)));
    assert_eq!(c.signal("m"), Signal::Uncomputed);
    assert_eq!(c.signal("k"), Signal::Uncomputed);
}

#[test]
fn values_stay_when_wires_are_added() {
    let mut c = Circuit::new();
    c.add_wire_with_value("x", 7).unwrap();
    c.add_gate_lshift("y", "x", 3).unwrap();
    assert!(c.compute_signals().is_ok());
    assert_eq!(c.signal("y"), Signal::Value(56));
    c.add_gate_or("z", "x", "y").unwrap();
    assert_eq!(c.signal("x"), Signal::Value(7));
    assert_eq!(c.signal("y"), Signal::Value(56));
    assert_eq!(c.signal("z"), Signal::Uncomputed);
    assert!(c.compute_signals().is_ok());
    assert_eq!(c.signal("x"), Signal::Value(7));
    assert_eq!(c.signal("y"), Signal::Value(56));
    assert_eq!(c.signal("z"), Signal::Value(63));
}

#[test]
fn loop_of_two_leaves_wires_unresolved() {
    let mut c = Circuit::new();
    c.add_wire_with_value("v", 5).unwrap();
    c.add_wire_from_wire("a", "b").unwrap();
    c.add_wire_from_wire("b", "a").unwrap();
    assert!(matches!(c.compute_signals(), Err(Error::CircuitLoop)));
    assert_eq!(c.signal("a"), Signal::Uncomputed);
    assert_eq!(c.signal("b"), Signal::Uncomputed);
    // The wires that the pass left unresolved still wait: the next pass
    // meets the loop again.
    assert!(matches!(c.compute_signals(), Err(Error::CircuitLoop)));
    assert_eq!(c.signal("a"), Signal::Uncomputed);
    assert_eq!(c.signal("b"), Signal::Uncomputed);
    // Once the loop is broken the pass settles every wire.
    c.remove_wire_then_reset_signals("b").unwrap();
    c.add_wire_with_value("b", 9).unwrap();
    assert!(c.compute_signals().is_ok());
    assert_eq!(c.signal("a"), Signal::Value(9));
    assert_eq!(c.signal("v"), Signal::Value(5));
}

#[test]
fn loop_of_three_leaves_no_wrong_signal() {
    let mut c = Circuit::new();
    c.add_wire_from_wire("a", "b").unwrap();
    c.add_gate_and("b", "c", "d").unwrap();
    c.add_gate_or("c", "e", "f").unwrap();
    c.add_gate_not("f", "b").unwrap();
    c.add_wire_with_value("d", 19).unwrap();
    c.add_wire_with_value("e", 7).unwrap();
    assert!(matches!(c.compute_signals(), Err(Error::CircuitLoop)));
    for name in ["a", "b", "c", "f"] {
        assert_eq!(c.signal(name), Signal::Uncomputed);
    }
    assert!(matches!(c.signal("d"), Signal::Uncomputed | Signal::Value(19)));
    assert!(matches!(c.signal("e"), Signal::Uncomputed | Signal::Value(7)));
}

#[test]
fn a_wire_that_reads_itself_through_a_gate_built_by_hand_is_refused() {
    let gate = Gate::Not { input: id("w") };
    assert!(matches!(
        Wire::from_gate("w", gate),
        Err(Error::InputMatchesOutput(_))
    ));
}

#[test]
fn uncomputable_spreads_to_all_that_depend() {
    let mut c = Circuit::new();
    c.add_gate_and_value("a", "missing", 1).unwrap();
    c.add_wire_from_wire("b", "a").unwrap();
    c.add_gate_not("c", "b").unwrap();
    c.add_gate_or("d", "c", "k").unwrap();
    c.add_wire_with_value("k", 1).unwrap();
    c.add_gate_rshift("s", "k", 0).unwrap();
    assert!(c.compute_signals().is_ok());
    for name in ["a", "b", "c", "d"] {
        assert_eq!(c.signal(name), Signal::Uncomputable);
    }
    assert_eq!(c.signal("k"), Signal::Value(1));
    assert_eq!(c.signal("s"), Signal::Value(1));
    assert_eq!(names(c.uncomputable()), vec!["a", "b", "c", "d"]);
}

#[test]
fn incremental_repair() {
    let mut c = Circuit::new();
    c.add_wire_with_value("b", 0x0f).unwrap();
    c.add_gate_or("d", "a", "b").unwrap();
    assert!(c.compute_signals().is_ok());
    assert_eq!(c.signal("d"), Signal::Uncomputable);
    assert_eq!(c.signal("b"), Signal::Value(0x0f));
    c.add_wire_with_value("a", 0xf0).unwrap();
    // Nothing is resolved before the next pass.
    assert_eq!(c.signal("d"), Signal::Uncomputable);
    assert_eq!(c.signal("a"), Signal::Uncomputed);
    assert!(c.compute_signals().is_ok());
    assert_eq!(c.signal("d"), Signal::Value(0xff));
    assert_eq!(c.signal("a"), Signal::Value(0xf0));
    assert!(c.uncomputable().is_empty());
}

#[test]
fn golden_vectors() {
    let x = 123;
    let y = 456;
    assert_eq!(Gate::and("x", "y").unwrap().signal(x, Some(y)), Signal::Value(72));
    assert_eq!(Gate::or("x", "y").unwrap().signal(x, Some(y)), Signal::Value(507));
    assert_eq!(Gate::lshift("x", 2).unwrap().signal(x, None), Signal::Value(492));
    assert_eq!(Gate::rshift("y", 2).unwrap().signal(y, None), Signal::Value(114));
    assert_eq!(Gate::not("x").unwrap().signal(x, None), Signal::Value(65412));
    assert_eq!(Gate::not("y").unwrap().signal(y, None), Signal::Value(65079));
    assert_eq!(Gate::and_value("x", 456).unwrap().signal(x, None), Signal::Value(72));
    assert_eq!(Gate::or_value("x", 456).unwrap().signal(x, None), Signal::Value(507));
}

#[test]
fn shifts_are_logical_and_drop_what_leaves_sixteen_bits() {
    assert_eq!(
        Gate::lshift("x", 4).unwrap().signal(0xffff, None),
        Signal::Value(0xfff0)
    );
    assert_eq!(
        Gate::lshift("x", 15).unwrap().signal(0x0003, None),
        Signal::Value(0x8000)
    );
    assert_eq!(
        Gate::rshift("x", 15).unwrap().signal(0x8000, None),
        Signal::Value(1)
    );
    assert_eq!(
        Gate::rshift("x", 4).unwrap().signal(0xf00f, None),
        Signal::Value(0x0f00)
    );
    assert_eq!(Gate::lshift("x", 0).unwrap().signal(0xabcd, None), Signal::Value(0xabcd));
    assert_eq!(Gate::rshift("x", 0).unwrap().signal(0xabcd, None), Signal::Value(0xabcd));
}

#[test]
fn identical_operands() {
    for x in [0u16, 1, 0x00ff, 0xa35c, 0x8000, 0xffff] {
        assert_eq!(Gate::and("x", "x").unwrap().signal(x, Some(x)), Signal::Value(x));
        assert_eq!(Gate::or("x", "x").unwrap().signal(x, Some(x)), Signal::Value(x));
    }
    let mut c = Circuit::new();
    c.add_gate_and("a", "gone", "gone").unwrap();
    c.add_gate_or("o", "gone", "gone").unwrap();
    assert!(c.compute_signals().is_ok());
    assert_eq!(c.signal("a"), Signal::Uncomputable);
    assert_eq!(c.signal("o"), Signal::Uncomputable);
}

#[test]
fn remove_resets_every_signal() {
    let mut c = Circuit::new();
    c.add_wire_with_value("x", 1).unwrap();
    c.add_gate_not("y", "x").unwrap();
    c.add_gate_not("z", "nowhere").unwrap();
    assert!(c.compute_signals().is_ok());
    assert_eq!(names(c.uncomputable()), vec!["z"]);

    assert!(matches!(
        c.remove_wire_then_reset_signals("q"),
        Err(Error::UnknownWireId(_))
    ));
    assert!(matches!(
        c.remove_wire_then_reset_signals("Q"),
        Err(Error::InvalidWireId(_))
    ));
    // Nothing was reset by the calls that failed.
    assert_eq!(c.signal("y"), Signal::Value(0xfffe));
    assert_eq!(names(c.uncomputable()), vec!["z"]);

    let removed = c.remove(&id("x")).unwrap();
    assert_eq!(removed.id().to_string(), "x");
    assert!(matches!(c.get_signal("x"), Err(Error::UnknownWireId(_))));
    assert_eq!(c.signal("y"), Signal::Uncomputed);
    assert_eq!(c.signal("z"), Signal::Uncomputed);
    assert!(c.uncomputable().is_empty());
    let mut waiting = names(c.uncomputed());
    waiting.sort();
    assert_eq!(waiting, vec!["y", "z"]);

    assert!(c.compute_signals().is_ok());
    assert_eq!(c.signal("y"), Signal::Uncomputable);
    assert_eq!(c.signal("z"), Signal::Uncomputable);
}

#[test]
fn set_wire_replaces_and_resets() {
    let mut c = Circuit::new();
    c.add_wire_with_value("x", 1).unwrap();
    c.add_gate_not("y", "x").unwrap();
    assert!(c.compute_signals().is_ok());
    assert!(matches!(
        c.set_wire_then_reset_signals(Wire::with_value("q", 2).unwrap()),
        Err(Error::UnknownWireId(_))
    ));
    assert_eq!(c.signal("y"), Signal::Value(0xfffe));
    c.set_wire_then_reset_signals(Wire::with_value("x", 2).unwrap())
        .unwrap();
    assert_eq!(c.signal("x"), Signal::Uncomputed);
    assert_eq!(c.signal("y"), Signal::Uncomputed);
    assert!(c.compute_signals().is_ok());
    assert_eq!(c.signal("y"), Signal::Value(0xfffd));
}

#[test]
fn compute_signal_resolves_what_one_wire_needs() {
    let mut c = Circuit::new();
    c.add_wire_with_value("x", 0x0f0f).unwrap();
    c.add_gate_not("y", "x").unwrap();
    c.add_gate_and("z", "x", "y").unwrap();
    c.add_wire_with_value("other", 3).unwrap();
    assert_eq!(c.compute_signal("y").unwrap(), Signal::Value(0xf0f0));
    assert_eq!(c.signal("x"), Signal::Value(0x0f0f));
    assert_eq!(c.signal("z"), Signal::Uncomputed);
    assert_eq!(c.signal("other"), Signal::Uncomputed);
    assert!(matches!(c.compute_signal("nope"), Err(Error::UnknownWireId(_))));
    assert!(matches!(c.compute_signal("No"), Err(Error::InvalidWireId(_))));
    assert_eq!(c.compute_signal("z").unwrap(), Signal::Value(0));
    assert!(c.compute_signals().is_ok());
    assert_eq!(c.signal("other"), Signal::Value(3));
}

#[test]
fn compute_signal_reports_a_loop() {
    let mut c = Circuit::new();
    c.add_wire_from_wire("a", "b").unwrap();
    c.add_gate_not("b", "a").unwrap();
    c.add_wire_with_value("k", 1).unwrap();
    assert!(matches!(c.compute_signal("a"), Err(Error::CircuitLoop)));
    assert_eq!(c.compute_signal("k").unwrap(), Signal::Value(1));
}

#[test]
fn compute_signals_of_takes_missing_names() {
    let mut c = Circuit::new();
    c.add_wire_with_value("x", 4).unwrap();
    c.add_wire_from_wire("y", "x").unwrap();
    assert!(c
        .compute_signals_of(vec![id("ghost"), id("y"), id("ghost")])
        .is_ok());
    assert_eq!(c.signal("y"), Signal::Value(4));
    assert_eq!(c.signal("x"), Signal::Value(4));
    assert!(c.uncomputable().is_empty());
    assert!(c.compute_signals_of(Vec::new()).is_ok());
}

#[test]
fn chains_are_given_up_from_their_root() {
    // `top` waits for `mid`, which waits for `low`, which reads a missing
    // wire: all three are given up together, and `side` is untouched.
    let mut c = Circuit::new();
    c.add_wire_with_value("side", 1).unwrap();
    c.add_gate_not("low", "absent").unwrap();
    c.add_gate_lshift("mid", "low", 1).unwrap();
    c.add_gate_or_value("top", "mid", 1).unwrap();
    assert!(c.compute_signals_of(vec![id("side"), id("top")]).is_ok());
    assert_eq!(names(c.uncomputable()), vec!["top", "mid", "low"]);
    assert_eq!(c.signal("side"), Signal::Value(1));
    assert!(c.compute_signals().is_ok());
    assert_eq!(names(c.uncomputable()), vec!["low", "mid", "top"]);
}

#[test]
fn next_step_tells_what_a_pass_would_do() {
    let mut c = Circuit::new();
    c.add_wire_with_value("k", 6).unwrap();
    c.add_gate_and("g", "k", "u").unwrap();
    c.add_gate_and("h", "u", "nowhere").unwrap();
    c.add_wire_from_wire("u", "k").unwrap();
    assert_eq!(c.next_step(&id("k")), Step::Emit(6));
    assert_eq!(c.next_step(&id("g")), Step::Visit(id("k")));
    assert_eq!(c.next_step(&id("h")), Step::Poison);
    assert_eq!(c.next_step(&id("nowhere")), Step::Poison);
    assert_eq!(c.compute_signal("k").unwrap(), Signal::Value(6));
    assert_eq!(c.next_step(&id("k")), Step::Done);
    assert_eq!(c.next_step(&id("g")), Step::Visit(id("u")));
    assert_eq!(c.next_step(&id("u")), Step::Emit(6));
    assert!(c.compute_signals().is_ok());
    assert_eq!(c.next_step(&id("h")), Step::Poison);
    assert_eq!(c.next_step(&id("g")), Step::Done);
    assert_eq!(c.signal("g"), Signal::Value(6));
}

#[test]
fn duplicate_names_leave_the_circuit_as_it_was() {
    let mut c = Circuit::new();
    c.add_wire_with_value("w", 0).unwrap();
    assert!(matches!(
        c.add_gate_not("w", "x"),
        Err(Error::WireIdAlreadyExists(_))
    ));
    assert_eq!(c.get_wires().len(), 1);
    assert_eq!(names(c.uncomputed()), vec!["w"]);
    assert!(c.compute_signals().is_ok());
    assert_eq!(c.signal("w"), Signal::Value(0));
}

fn kept(c: &Circuit) -> Vec<String> {
    c.get_wires().iter().map(|w| w.id().to_string()).collect()
}

#[test]
fn wires_are_kept_in_the_order_in_which_they_came() {
    let mut c = Circuit::new();
    for name in ["d", "a", "c", "b", "e"] {
        c.add_wire_with_value(name, 1).unwrap();
    }
    assert_eq!(kept(&c), vec!["d", "a", "c", "b", "e"]);
    assert_eq!(names(c.uncomputed()), vec!["d", "a", "c", "b", "e"]);
    assert!(c.compute_signals().is_ok());
    assert_eq!(kept(&c), vec!["d", "a", "c", "b", "e"]);
    // The last wire takes the place of the wire that leaves.
    c.remove_wire_then_reset_signals("a").unwrap();
    assert_eq!(kept(&c), vec!["d", "e", "c", "b"]);
    assert_eq!(names(c.uncomputed()), vec!["d", "e", "c", "b"]);
    c.remove_wire_then_reset_signals("b").unwrap();
    assert_eq!(kept(&c), vec!["d", "e", "c"]);
    c.set_wire_then_reset_signals(Wire::with_value("d", 2).unwrap())
        .unwrap();
    assert_eq!(kept(&c), vec!["c", "e", "d"]);
    assert_eq!(names(c.uncomputed()), vec!["c", "e", "d"]);
    assert_eq!(c.to_string(), "1 -> c\n1 -> e\n2 -> d\n");
}

#[test]
fn a_loop_leaves_the_stack_waiting() {
    let mut c = Circuit::new();
    c.add_wire_with_value("k", 3).unwrap();
    c.add_wire_from_wire("a", "b").unwrap();
    c.add_wire_from_wire("b", "a").unwrap();
    c.add_gate_not("n", "gone").unwrap();
    // The pass takes `n` first, then `b`, which waits for `a`, which waits
    // for `b`.
    assert!(matches!(c.compute_signals(), Err(Error::CircuitLoop)));
    assert_eq!(names(c.uncomputable()), vec!["n"]);
    assert_eq!(names(c.uncomputed()), vec!["k", "a", "b", "a"]);
    assert_eq!(c.signal("n"), Signal::Uncomputable);
    assert_eq!(c.signal("k"), Signal::Uncomputed);
}

#[test]
fn resolving_the_same_names_again_changes_no_signal() {
    let mut c = Circuit::new();
    c.add_wire_with_value("x", 12).unwrap();
    c.add_gate_not("n", "x").unwrap();
    c.add_gate_or("o", "n", "lost").unwrap();
    c.add_wire_with_value("idle", 1).unwrap();
    let asked = || vec![id("o"), id("n"), id("nowhere")];
    assert!(c.compute_signals_of(asked()).is_ok());
    let once = signals(&c);
    assert_eq!(c.signal("o"), Signal::Uncomputable);
    assert_eq!(c.signal("n"), Signal::Value(!12));
    assert_eq!(c.signal("idle"), Signal::Uncomputed);
    assert!(c.compute_signals_of(asked()).is_ok());
    assert_eq!(signals(&c), once);
}

#[test]
fn a_copy_is_a_circuit_of_its_own() {
    let mut c = Circuit::new();
    c.add_wire_with_value("x", 5).unwrap();
    c.add_gate_not("y", "x").unwrap();
    c.add_gate_not("z", "w").unwrap();
    assert!(c.compute_signals().is_ok());
    let mut copy = c.clone();
    assert_eq!(signals(&copy), signals(&c));
    assert_eq!(kept(&copy), kept(&c));
    assert_eq!(names(copy.uncomputable()), names(c.uncomputable()));
    copy.add_wire_with_value("w", 0).unwrap();
    assert!(copy.compute_signals().is_ok());
    assert_eq!(copy.signal("z"), Signal::Value(0xffff));
    assert_eq!(c.signal("z"), Signal::Uncomputable);
    assert!(matches!(c.get_signal("w"), Err(Error::UnknownWireId(_))));
    let empty = Circuit::default();
    assert!(empty.get_wires().is_empty());
}
