use circuitry::circuit::Circuit;
use circuitry::error::Error;
use circuitry::gate::Gate;
use circuitry::signal::Signal;
use circuitry::wire::Wire;

#[test]
fn empty_circuit() {
    let mut circuit = Circuit::new();
    assert!(circuit.compute_signals().is_ok());
}

#[test]
fn conflicting_wires() {
    let mut circuit = Circuit::new();
    assert!(circuit.add_wire_with_value("w", 0).is_ok());
    assert!(matches!(
        circuit.add_wire_with_value("w", 1),
        Err(Error::WireIdAlreadyExists(_))
    ));
}

#[test]
fn simple_circuit() {
    let mut circuit = Circuit::new();
    let w1 = Wire::with_value("a", 1).unwrap();
    let w2 = Wire::from_wire("b", "a").unwrap();
    assert!(circuit.add(w1).is_ok());
    assert!(circuit.add(w2).is_ok());
    assert!(matches!(
        circuit.get_signal("z"),
        Err(Error::UnknownWireId(_))
    ));
    assert_eq!(circuit.signal("a"), Signal::Uncomputed);
    assert_eq!(circuit.signal("b"), Signal::Uncomputed);

    assert!(circuit.compute_signals().is_ok());
    assert_eq!(circuit.signal("a"), Signal::Value(1));
    assert_eq!(circuit.signal("b"), Signal::Value(1));
}

#[test]
fn nanocorp_example_1() -> Result<(), Error> {
    let x = Wire::with_value("x", 123)?;
    let y = Wire::with_value("y", 456)?;
    let gd = Gate::and("x", "y")?;
    let ge = Gate::or("x", "y")?;
    let gf = Gate::lshift("x", 2)?;
    let gg = Gate::rshift("y", 2)?;
    let gh = Gate::not("x")?;
    let gi = Gate::not("y")?;
    let d = Wire::from_gate("d", gd)?;
    let e = Wire::from_gate("e", ge)?;
    let f = Wire::from_gate("f", gf)?;
    let g = Wire::from_gate("g", gg)?;
    let h = Wire::from_gate("h", gh)?;
    let i = Wire::from_gate("i", gi)?;

    let mut circuit = Circuit::new();
    circuit.add(x)?;
    circuit.add(y)?;
    circuit.add(d)?;
    circuit.add(e)?;
    circuit.add(f)?;
    circuit.add(g)?;
    circuit.add(h)?;
    circuit.add(i)?;

    assert!(circuit.compute_signals().is_ok());

    assert_eq!(circuit.signal("d"), Signal::Value(72));
    assert_eq!(circuit.signal("e"), Signal::Value(507));
    assert_eq!(circuit.signal("f"), Signal::Value(492));
    assert_eq!(circuit.signal("g"), Signal::Value(114));
    assert_eq!(circuit.signal("h"), Signal::Value(65412));
    assert_eq!(circuit.signal("i"), Signal::Value(65079));
    assert_eq!(circuit.signal("x"), Signal::Value(123));
    assert_eq!(circuit.signal("y"), Signal::Value(456));
    Ok(())
}

#[test]
fn nanocorp_example_1_bis() -> Result<(), Error> {
    let mut circuit = Circuit::new();
    circuit.add_wire_with_value("x", 123)?;
    circuit.add_wire_with_value("y", 456)?;
    circuit.add_gate_and("d", "x", "y")?;
    circuit.add_gate_or("e", "x", "y")?;
    circuit.add_gate_lshift("f", "x", 2)?;
    circuit.add_gate_rshift("g", "y", 2)?;
    circuit.add_gate_not("h", "x")?;
    circuit.add_gate_not("i", "y")?;
    assert!(circuit.compute_signals().is_ok());

    assert_eq!(circuit.signal("d"), Signal::Value(72));
    assert_eq!(circuit.signal("e"), Signal::Value(507));
    assert_eq!(circuit.signal("f"), Signal::Value(492));
    assert_eq!(circuit.signal("g"), Signal::Value(114));
    assert_eq!(circuit.signal("h"), Signal::Value(65412));
    assert_eq!(circuit.signal("i"), Signal::Value(65079));
    assert_eq!(circuit.signal("x"), Signal::Value(123));
    assert_eq!(circuit.signal("y"), Signal::Value(456));
    Ok(())
}

#[test]
fn try_from_nanocorp_example_1() -> Result<(), Error> {
    let s = "x AND y -> d\n\
             NOT x -> h\n\
             NOT y -> i\n\
             x OR y -> e\n\
             y RSHIFT 2 -> g\n\
             x LSHIFT 2 -> f\n\
             123 -> x\n\
             456 -> y";
    let c1 = Circuit::try_from(s).unwrap();

    let mut c2 = Circuit::new();
    c2.add_wire_with_value("x", 123)?;
    c2.add_wire_with_value("y", 456)?;
    c2.add_gate_and("d", "x", "y")?;
    c2.add_gate_or("e", "x", "y")?;
    c2.add_gate_lshift("f", "x", 2)?;
    c2.add_gate_rshift("g", "y", 2)?;
    c2.add_gate_not("h", "x")?;
    c2.add_gate_not("i", "y")?;

    assert_eq!(c1.get_wires().len(), 8);
    for wire1 in c1.get_wires() {
        let wire2 = c2.get_wire_of(wire1.id())?;
        assert_eq!(wire1.id(), wire2.id());
        assert_eq!(wire1.input(), wire2.input());
        assert_eq!(wire1.signal(), wire2.signal());
    }
    Ok(())
}

#[test]
fn non_connected_wires() {
    let mut c = Circuit::new();
    c.add_wire_with_value("x", 0xfff0).unwrap();
    c.add_wire_with_value("y", 0x0fff).unwrap();
    c.add_gate_or("xoy", "x", "y").unwrap();
    c.add_gate_and("xoyau", "xoy", "unknown").unwrap();
    c.add_gate_lshift("u", "unknown", 2).unwrap();
    c.add_gate_rshift("v", "unknown", 2).unwrap();
    c.add_gate_not("nxoy", "xoy").unwrap();
    c.add_gate_not("w", "unknown").unwrap();

    assert!(c.compute_signals().is_ok());

    assert_eq!(c.signal("x"), Signal::Value(0xfff0));
    assert_eq!(c.signal("y"), Signal::Value(0x0fff));
    assert_eq!(c.signal("xoy"), Signal::Value(0xffff));
    assert_eq!(c.signal("nxoy"), Signal::Value(0x0));
    assert_eq!(c.signal("u"), Signal::Uncomputable);
    assert_eq!(c.signal("v"), Signal::Uncomputable);
    assert_eq!(c.signal("w"), Signal::Uncomputable);
    assert_eq!(c.signal("xoyau"), Signal::Uncomputable);
    assert!(matches!(
        c.get_signal("unknown"),
        Err(Error::UnknownWireId(_))
    ));
}

#[test]
fn identical_gate_inputs() {
    let x = 0xa35c;
    let mut c = Circuit::new();
    c.add_wire_with_value("x", x).unwrap();
    c.add_gate_or("xox", "x", "x").unwrap();
    c.add_gate_and("xax", "x", "x").unwrap();

    assert!(c.compute_signals().is_ok());

    assert_eq!(c.signal("x"), Signal::Value(x));
    assert_eq!(c.signal("xox"), Signal::Value(x));
    assert_eq!(c.signal("xax"), Signal::Value(x));
}

#[test]
fn loop_2_wires() {
    let mut c = Circuit::new();
    c.add_wire_from_wire("a", "b").unwrap();
    c.add_wire_from_wire("b", "a").unwrap();
    assert!(c.compute_signals().is_err());
}

#[test]
fn loop_3_wires() {
    let mut c = Circuit::new();
    c.add_wire_from_wire("a", "b").unwrap();
    c.add_gate_and("b", "c", "d").unwrap();
    c.add_gate_or("c", "e", "f").unwrap();
    c.add_gate_not("f", "b").unwrap();
    c.add_wire_with_value("d", 19).unwrap();
    c.add_wire_with_value("e", 7).unwrap();
    assert!(c.compute_signals().is_err());
}

#[test]
fn compute_signals_then_add_wire() {
    let mut c = Circuit::new();
    c.add_wire_with_value("b", 0x10).unwrap();
    c.add_wire_with_value("c", 0x100).unwrap();
    c.add_gate_or("aob", "a", "b").unwrap();
    c.add_gate_or("boc", "b", "c").unwrap();
    c.add_gate_or("cod", "c", "d").unwrap();
    c.add_gate_and("x", "aob", "boc").unwrap();
    c.add_gate_and("y", "boc", "cod").unwrap();
    c.add_gate_or("z", "x", "y").unwrap();
    c.add_gate_not("nz", "z").unwrap();
    assert!(c.compute_signals().is_ok());

    assert!(matches!(c.get_signal("a"), Err(Error::UnknownWireId(_))));
    assert!(matches!(c.get_signal("d"), Err(Error::UnknownWireId(_))));

    assert_eq!(c.signal("b"), Signal::Value(0x10));
    assert_eq!(c.signal("c"), Signal::Value(0x100));
    assert_eq!(c.signal("boc"), Signal::Value(0x110));

    assert_eq!(c.signal("aob"), Signal::Uncomputable);
    assert_eq!(c.signal("cod"), Signal::Uncomputable);
    assert_eq!(c.signal("x"), Signal::Uncomputable);
    assert_eq!(c.signal("y"), Signal::Uncomputable);
    assert_eq!(c.signal("z"), Signal::Uncomputable);
    assert_eq!(c.signal("nz"), Signal::Uncomputable);
    assert_eq!(c.uncomputable().len(), 6);

    c.add_wire_with_value("a", 0x1).unwrap();
    c.add_wire_with_value("d", 0x1000).unwrap();
    assert!(c.compute_signals().is_ok());

    assert_eq!(c.signal("a"), Signal::Value(0x1));
    assert_eq!(c.signal("b"), Signal::Value(0x10));
    assert_eq!(c.signal("c"), Signal::Value(0x100));
    assert_eq!(c.signal("d"), Signal::Value(0x1000));
    assert_eq!(c.signal("aob"), Signal::Value(0x11));
    assert_eq!(c.signal("boc"), Signal::Value(0x110));
    assert_eq!(c.signal("cod"), Signal::Value(0x1100));
    assert_eq!(c.signal("x"), Signal::Value(0x10));
    assert_eq!(c.signal("y"), Signal::Value(0x100));
    assert_eq!(c.signal("z"), Signal::Value(0x110));
    assert_eq!(c.signal("nz"), Signal::Value(0xfeef));
}
