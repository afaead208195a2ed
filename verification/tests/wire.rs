use circuitry::error::Error;
use circuitry::wire::Wire;

#[test]
fn wire_wire_id() {
    assert!(matches!(
        Wire::from_wire("", "w"),
        Err(Error::InvalidWireId(_))
    ));
    assert!(matches!(
        Wire::from_wire("w", ""),
        Err(Error::InvalidWireId(_))
    ));
    assert!(matches!(
        Wire::with_value("A", 3),
        Err(Error::InvalidWireId(_))
    ));
    assert!(matches!(
        Wire::from_wire("a", "2"),
        Err(Error::InvalidWireId(_))
    ));
    assert!(matches!(
        Wire::with_value("2", 2),
        Err(Error::InvalidWireId(_))
    ));
    assert!(matches!(
        Wire::with_value("nano corp", 9),
        Err(Error::InvalidWireId(_))
    ));
    assert!(matches!(
        Wire::with_value("wire!", 2),
        Err(Error::InvalidWireId(_))
    ));
    assert!(matches!(
        Wire::with_value("z\n", 0),
        Err(Error::InvalidWireId(_))
    ));
    assert!(matches!(
        Wire::try_from("1 ->  -> b"),
        Err(Error::InvalidWireId(_))
    ));
    assert!(matches!(
        Wire::try_from("a -> b -> c"),
        Err(Error::InvalidWireId(_))
    ));
    assert!(matches!(
        Wire::try_from(" -> w"),
        Err(Error::InvalidWireId(_))
    ));
    assert!(matches!(
        Wire::try_from("NOT -> w"),
        Err(Error::InvalidWireId(_))
    ));

    assert!(Wire::with_value("nanocorp", 9).is_ok());
    assert!(Wire::from_wire("nano", "corp").is_ok());
}

#[test]
fn signal_value() {
    assert!(Wire::try_from("65535 -> w").is_ok());
    assert!(matches!(
        Wire::try_from("65536 -> w"),
        Err(Error::TooLargeValue(65536))
    ));
}

#[test]
fn wire_shift_amount() {
    assert!(Wire::from_gate_lshift("lshift", "w", 0).is_ok());
    assert!(Wire::from_gate_rshift("rshift", "w", 15).is_ok());
    assert!(Wire::try_from("a LSHIFT 0 -> w").is_ok());
    assert!(Wire::try_from("a RSHIFT 15 -> w").is_ok());
    assert!(matches!(
        Wire::from_gate_rshift("rshift", "w", 16),
        Err(Error::TooLargeShift(16))
    ));
    assert!(matches!(
        Wire::try_from("a LSHIFT 16 -> w"),
        Err(Error::TooLargeShift(16))
    ));
}

#[test]
fn wire_parse_gate() {
    assert!(matches!(
        Wire::try_from("a AND NOT b -> w"),
        Err(Error::ParseGate(_))
    ));
    assert!(matches!(
        Wire::try_from("a OR -> w"),
        Err(Error::ParseGate(_))
    ));
    assert!(matches!(
        Wire::try_from("a NOT b -> w"),
        Err(Error::ParseGate(_))
    ));
}

#[test]
fn wire_parse_shift() {
    assert!(matches!(
        Wire::try_from("a RSHIFT b -> w"),
        Err(Error::ParseShift(_))
    ));
    assert!(matches!(
        Wire::try_from("a RSHIFT -2 -> w"),
        Err(Error::ParseShift(_))
    ));
}

#[test]
fn wire_parse_arrow() {
    assert!(matches!(Wire::try_from(""), Err(Error::ParseArrow(_))));
    assert!(matches!(Wire::try_from("x w"), Err(Error::ParseArrow(_))));
    assert!(matches!(Wire::try_from("x-> w"), Err(Error::ParseArrow(_))));
    assert!(matches!(Wire::try_from("x ->w"), Err(Error::ParseArrow(_))));
}

#[test]
fn wire_input_matches_output() {
    assert!(matches!(
        Wire::from_wire("w", "w"),
        Err(Error::InputMatchesOutput(_))
    ));
    assert!(matches!(
        Wire::try_from("w -> w"),
        Err(Error::InputMatchesOutput(_))
    ));
    assert!(matches!(
        Wire::from_gate_and("w", "w", "x"),
        Err(Error::InputMatchesOutput(_))
    ));
    assert!(matches!(
        Wire::from_gate_and("w", "x", "w"),
        Err(Error::InputMatchesOutput(_))
    ));
    assert!(matches!(
        Wire::from_gate_or("w", "w", "x"),
        Err(Error::InputMatchesOutput(_))
    ));
    assert!(matches!(
        Wire::from_gate_or("w", "x", "w"),
        Err(Error::InputMatchesOutput(_))
    ));
    assert!(matches!(
        Wire::from_gate_and_value("w", "w", 1),
        Err(Error::InputMatchesOutput(_))
    ));
    assert!(matches!(
        Wire::try_from("w AND 1 -> w"),
        Err(Error::InputMatchesOutput(_))
    ));
    assert!(matches!(
        Wire::from_gate_or_value("w", "w", 1),
        Err(Error::InputMatchesOutput(_))
    ));
    assert!(matches!(
        Wire::try_from("1 OR w -> w"),
        Err(Error::InputMatchesOutput(_))
    ));
    assert!(matches!(
        Wire::from_gate_lshift("w", "w", 1),
        Err(Error::InputMatchesOutput(_))
    ));
    assert!(matches!(
        Wire::from_gate_rshift("w", "w", 1),
        Err(Error::InputMatchesOutput(_))
    ));
    assert!(matches!(
        Wire::from_gate_not("w", "w"),
        Err(Error::InputMatchesOutput(_))
    ));
}

fn assert_same(w1: &Wire, w2: &Wire) {
    assert_eq!(w1, w2);
    assert_eq!(w1.id(), w2.id());
    assert_eq!(w1.input(), w2.input());
    assert_eq!(w1.signal(), w2.signal());
}

#[test]
fn wire_try_from() -> Result<(), Error> {
    let w1 = Wire::try_from("456 -> y")?;
    let w2 = Wire::with_value("y", 456)?;
    assert_same(&w1, &w2);

    let w1 = Wire::try_from("x LSHIFT 2 -> f")?;
    let w2 = Wire::from_gate_lshift("f", "x", 2)?;
    assert_same(&w1, &w2);

    let w1 = Wire::try_from("NOT x -> h")?;
    let w2 = Wire::from_gate_not("h", "x")?;
    assert_same(&w1, &w2);

    let w1 = Wire::try_from("x OR y -> e")?;
    let w2 = Wire::from_gate_or("e", "x", "y")?;
    assert_same(&w1, &w2);

    let w1 = Wire::try_from("y RSHIFT 2 -> g")?;
    let w2 = Wire::from_gate_rshift("g", "y", 2)?;
    assert_same(&w1, &w2);

    let w1 = Wire::try_from("NOT y -> i")?;
    let w2 = Wire::from_gate_not("i", "y")?;
    assert_same(&w1, &w2);

    let w1 = Wire::try_from("123 -> x")?;
    let w2 = Wire::with_value("x", 123)?;
    assert_same(&w1, &w2);

    let w1 = Wire::try_from("x AND y -> d")?;
    let w2 = Wire::from_gate_and("d", "x", "y")?;
    assert_same(&w1, &w2);
    Ok(())
}
