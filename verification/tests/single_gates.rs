use circuitry::circuit::Circuit;
use circuitry::gate::Gate;
use circuitry::signal::Signal;

#[test]
fn gate_and_gate_and() {
    let mut c = Circuit::new();
    c.add_wire_with_value("a", 0x7).unwrap();
    c.add_wire_with_value("b", 0xe).unwrap();
    c.add_gate_and("g", "a", "b").unwrap();
    assert_eq!(c.compute_signal("g").unwrap(), Signal::Value(0x6));
    assert_eq!(
        Gate::and("a", "b").unwrap().signal(0x7, Some(0xe)),
        Signal::Value(0x6)
    );
}

#[test]
fn gate_or_gate_or() {
    let mut c = Circuit::new();
    c.add_wire_with_value("a", 0x7).unwrap();
    c.add_wire_with_value("b", 0xe).unwrap();
    c.add_gate_or("g", "a", "b").unwrap();
    assert_eq!(c.compute_signal("g").unwrap(), Signal::Value(0xf));
    assert_eq!(
        Gate::or("a", "b").unwrap().signal(0x7, Some(0xe)),
        Signal::Value(0xf)
    );
}

#[test]
fn gate_not_gate_or() {
    let mut c = Circuit::new();
    c.add_wire_with_value("a", 0x3).unwrap();
    c.add_gate_not("g", "a").unwrap();
    assert_eq!(c.compute_signal("g").unwrap(), Signal::Value(0xfffc));
    assert_eq!(
        Gate::not("a").unwrap().signal(0x3, None),
        Signal::Value(0xfffc)
    );
}

#[test]
fn gate_lshift_gate_and() {
    let mut c = Circuit::new();
    c.add_wire_with_value("a", 0x7).unwrap();
    c.add_gate_lshift("g", "a", 5).unwrap();
    assert_eq!(c.compute_signal("g").unwrap(), Signal::Value(0xe0));
    assert_eq!(
        Gate::lshift("a", 5).unwrap().signal(0x7, None),
        Signal::Value(0xe0)
    );
    assert!(Gate::lshift("a", 16).is_err());
}

#[test]
fn gate_rshift_gate_and() {
    let mut c = Circuit::new();
    c.add_wire_with_value("a", 0x70).unwrap();
    c.add_gate_rshift("g", "a", 5).unwrap();
    assert_eq!(c.compute_signal("g").unwrap(), Signal::Value(0x3));
    assert_eq!(
        Gate::rshift("a", 5).unwrap().signal(0x70, None),
        Signal::Value(0x3)
    );
    assert!(Gate::rshift("a", 16).is_err());
}
