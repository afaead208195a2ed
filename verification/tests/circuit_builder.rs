use circuitry::circuit::Circuit;
use circuitry::circuit_builder::CircuitBuilder;
use circuitry::error::Error;
use circuitry::signal::Signal;

fn same_wires(c1: &Circuit, c2: &Circuit) -> bool {
    c1.get_wires().len() == c2.get_wires().len()
        && c1.get_wires().iter().all(|w1| match c2.get_wire_of(w1.id()) {
            Ok(w2) => w1 == w2,
            Err(_) => false,
        })
}

#[test]
fn circuit_builder_one_liner() -> Result<(), Error> {
    let mut circuit = CircuitBuilder::new()
        .add_wire_with_value("x", 123)?
        .add_wire_with_value("y", 456)?
        .add_gate_and("d", "x", "y")?
        .add_gate_or("e", "x", "y")?
        .add_gate_lshift("f", "x", 2)?
        .add_gate_rshift("g", "y", 2)?
        .add_gate_not("h", "x")?
        .add_gate_not("i", "y")?
        .build();

    let mut c2 = Circuit::new();
    c2.add_wire_with_value("x", 123)?;
    c2.add_wire_with_value("y", 456)?;
    c2.add_gate_and("d", "x", "y")?;
    c2.add_gate_or("e", "x", "y")?;
    c2.add_gate_lshift("f", "x", 2)?;
    c2.add_gate_rshift("g", "y", 2)?;
    c2.add_gate_not("h", "x")?;
    c2.add_gate_not("i", "y")?;

    assert!(same_wires(&circuit, &c2));

    assert!(circuit.compute_signals().is_ok());

    assert_eq!(circuit.signal("d"), Signal::Value(72));
    assert_eq!(circuit.signal("e"), Signal::Value(507));
    assert_eq!(circuit.signal("f"), Signal::Value(492));
    assert_eq!(circuit.signal("g"), Signal::Value(114));
    assert_eq!(circuit.signal("h"), Signal::Value(65412));
    assert_eq!(circuit.signal("i"), Signal::Value(65079));
    assert_eq!(circuit.signal("x"), Signal::Value(123));
    assert_eq!(circuit.signal("y"), Signal::Value(456));
    Ok(())
}

#[test]
fn circuit_builder_complex_configuration() -> Result<(), Error> {
    let mut builder = CircuitBuilder::new();
    builder.add_wire_with_value("x", 123)?;
    builder.add_wire_with_value("y", 456)?;
    builder.add_gate_and("d", "x", "y")?;
    builder.add_gate_or("e", "x", "y")?;
    builder.add_gate_lshift("f", "x", 2)?;
    builder.add_gate_rshift("g", "y", 2)?;
    builder.add_gate_not("h", "x")?;
    builder.add_gate_not("i", "y")?;
    let mut circuit = builder.build();

    let mut c2 = Circuit::new();
    c2.add_wire_with_value("x", 123)?;
    c2.add_wire_with_value("y", 456)?;
    c2.add_gate_and("d", "x", "y")?;
    c2.add_gate_or("e", "x", "y")?;
    c2.add_gate_lshift("f", "x", 2)?;
    c2.add_gate_rshift("g", "y", 2)?;
    c2.add_gate_not("h", "x")?;
    c2.add_gate_not("i", "y")?;

    assert!(same_wires(&circuit, &c2));

    assert!(circuit.compute_signals().is_ok());

    assert_eq!(circuit.signal("d"), Signal::Value(72));
    assert_eq!(circuit.signal("e"), Signal::Value(507));
    assert_eq!(circuit.signal("f"), Signal::Value(492));
    assert_eq!(circuit.signal("g"), Signal::Value(114));
    assert_eq!(circuit.signal("h"), Signal::Value(65412));
    assert_eq!(circuit.signal("i"), Signal::Value(65079));
    assert_eq!(circuit.signal("x"), Signal::Value(123));
    assert_eq!(circuit.signal("y"), Signal::Value(456));
    Ok(())
}

#[test]
fn xor() -> Result<(), Error> {
    let mut circuit = CircuitBuilder::new()
        .add_wire("2536 -> x")?
        .add_wire("9711 -> y")?
        .add_wire("x OR y -> o")?
        .add_wire("x AND y -> a")?
        .add_wire("NOT a -> na")?
        .add_wire("o AND na -> xor")?
        .build();

    assert!(circuit.compute_signals().is_ok());
    assert_eq!(circuit.signal("xor"), Signal::Value(2536 ^ 9711));
    Ok(())
}

#[test]
fn a_builder_refuses_a_name_twice_and_is_empty_after_build() {
    let mut builder = CircuitBuilder::default();
    builder.add_wire_with_value("a", 1).unwrap();
    assert!(matches!(
        builder.add_wire_from_wire("a", "b"),
        Err(Error::WireIdAlreadyExists(_))
    ));
    assert!(matches!(
        builder.add_wire("a -> a"),
        Err(Error::InputMatchesOutput(_))
    ));
    builder.add_gate_or_value("b", "a", 6).unwrap();
    let mut copy = builder.clone();
    let mut circuit = builder.build();
    assert_eq!(circuit.get_wires().len(), 2);
    assert_eq!(circuit.uncomputed().len(), 2);
    assert!(circuit.compute_signals().is_ok());
    assert_eq!(circuit.signal("b"), Signal::Value(7));
    assert!(builder.build().get_wires().is_empty());
    copy.add_gate_and_value("c", "b", 3).unwrap();
    let mut other = copy.build();
    assert!(other.compute_signals().is_ok());
    assert_eq!(other.signal("c"), Signal::Value(3));
}
