use circuitry::wire_id::WireId;

#[test]
fn check_ids() {
    assert!(WireId::new("").is_err());
    assert!(WireId::new("w1r31d").is_err());
    assert!(WireId::new("Nanocorp").is_err());
    assert!(WireId::new("nanocorp!").is_err());
    assert!(WireId::new("nanocorp\n").is_err());
    assert!(WireId::new("nano corp").is_err());

    assert!(WireId::new("w").is_ok());
    assert!(WireId::new("nanocorp").is_ok());
}

#[test]
fn wire_id_try_from() {
    assert!(WireId::try_from("").is_err());
    assert!(WireId::try_from("w1r31d").is_err());
    assert!(WireId::try_from("Nanocorp").is_err());
    assert!(WireId::try_from("nanocorp!").is_err());
    assert!(WireId::try_from("nanocorp\n").is_err());
    assert!(WireId::try_from("nano corp").is_err());

    assert!(WireId::try_from("w").is_ok());
    assert!(WireId::try_from("nanocorp").is_ok());
}
