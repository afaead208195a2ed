use circuitry::circuit::Circuit;
use circuitry::error::Error;
use circuitry::gate::Gate;
use circuitry::store::sort_dedup;
use circuitry::text::chars_of;
use circuitry::text::find;
use circuitry::text::parse_number;
use circuitry::text::push_decimal;
use circuitry::text::same_text;
use circuitry::text::split;
use circuitry::text::trim_end;
use circuitry::text::white_space;
use circuitry::wire::Wire;
use circuitry::wire_id::WireId;

#[test]
fn numbers_are_read_as_the_standard_library_reads_them() {
    let samples = [
        "", "+", "-", "0", "+0", "-0", "7", "007", "+42", "42+", "4 2", " 42", "42 ", "4a",
        "255", "256", "65535", "65536", "+65535", "00065535", "99999", "4294967296",
        "18446744073709551615", "18446744073709551616", "184467440737095516150",
        "99999999999999999999999", "١٢", "1_000", "0x10", "++1",
    ];
    for text in samples {
        assert_eq!(parse_number(text, 0xff), text.parse::<u8>().ok().map(u64::from), "{}", text);
        assert_eq!(
            parse_number(text, 0xffff),
            text.parse::<u16>().ok().map(u64::from),
            "{}",
            text
        );
        assert_eq!(parse_number(text, u64::MAX), text.parse::<u64>().ok(), "{}", text);
    }
    assert_eq!(parse_number("5", 4), None);
    assert_eq!(parse_number("4", 4), Some(4));
    assert_eq!(parse_number("10", 9), None);
    assert_eq!(parse_number("0", 0), Some(0));
}

#[test]
fn numbers_are_written_in_base_ten() {
    for n in [0u64, 1, 9, 10, 11, 99, 100, 255, 65535, 65536, u64::MAX] {
        let mut out = String::from("n=");
        push_decimal(&mut out, n);
        assert_eq!(out, format!("n={}", n));
    }
}

#[test]
fn texts_are_split_as_the_standard_library_splits_them() {
    for text in ["", " ", "a", "a b", "a  b", " a", "a ", "a b c", "  ", "x AND y", "é ü"] {
        let expected: Vec<&str> = text.split(' ').collect();
        assert_eq!(split(text, ' '), expected, "{:?}", text);
    }
    assert_eq!(split("a\nb\n\nc", '\n'), vec!["a", "b", "", "c"]);
}

#[test]
fn patterns_are_found_where_they_first_stand() {
    assert_eq!(find("x -> y", " -> "), Some(1));
    assert_eq!(find("a -> b -> c", " -> "), Some(1));
    assert_eq!(find(" -> w", " -> "), Some(0));
    assert_eq!(find("x->y", " -> "), None);
    assert_eq!(find("", " -> "), None);
    assert_eq!(find("ab", ""), Some(0));
    assert_eq!(find("", ""), Some(0));
    assert_eq!(find("é -> y", " -> "), Some(1));
    assert_eq!(find("aab", "ab"), Some(1));
}

#[test]
fn white_space_is_what_the_standard_library_calls_so() {
    for code in 0..0x4000u32 {
        if let Some(c) = char::from_u32(code) {
            assert_eq!(white_space(c), c.is_whitespace(), "{:x}", code);
        }
    }
    for text in ["", "a", "a ", "a \n\t", " a b \u{a0}\u{2003}", "\n\n", "x\u{3000}", "x\u{200b}"] {
        assert_eq!(trim_end(text), text.trim_end(), "{:?}", text);
    }
}

#[test]
fn texts_compare_by_their_characters() {
    assert!(same_text("NOT", "NOT"));
    assert!(!same_text("NOT", "NOTE"));
    assert!(!same_text("not", "NOT"));
    assert!(same_text("", ""));
    assert_eq!(chars_of("aé→"), vec!['a', 'é', '→']);
}

#[test]
fn ids_are_ordered_as_texts_are() {
    let names = ["a", "b", "aa", "ab", "ba", "z", "az", "abc", "abd", "ab"];
    for x in names {
        for y in names {
            let a = WireId::new(x).unwrap();
            let b = WireId::new(y).unwrap();
            assert_eq!(a.precedes(&b), x < y, "{} {}", x, y);
            assert_eq!(a.same_as(&b), x == y);
        }
    }
    let ids: Vec<WireId> = names.iter().map(|n| WireId::new(n).unwrap()).collect();
    let sorted: Vec<String> = sort_dedup(ids).iter().map(|id| id.to_string()).collect();
    let mut expected: Vec<String> = names.iter().map(|n| n.to_string()).collect();
    expected.sort();
    expected.dedup();
    assert_eq!(sorted, expected);
    assert!(sort_dedup(Vec::new()).is_empty());
}

#[test]
fn gates_are_written_as_they_are_read() {
    for text in [
        "x AND y",
        "x AND 12",
        "x OR y",
        "x OR 0",
        "x LSHIFT 0",
        "x RSHIFT 15",
        "NOT x",
    ] {
        let gate = Gate::try_from(text).unwrap();
        assert_eq!(gate.to_string(), text);
        assert_eq!(Gate::try_from(&gate.to_string()).unwrap(), gate);
    }
    assert_eq!(Gate::try_from("7 AND x").unwrap(), Gate::and_value("x", 7).unwrap());
    assert_eq!(Gate::try_from("7 OR x").unwrap(), Gate::or_value("x", 7).unwrap());
    assert_eq!(Gate::try_from("+7 OR x").unwrap().to_string(), "x OR 7");
    assert!(matches!(Gate::try_from("1 AND 2"), Err(Error::InvalidWireId(_))));
    assert!(matches!(Gate::try_from("x AND 65536"), Err(Error::InvalidWireId(_))));
    assert!(matches!(Gate::try_from("x XOR y"), Err(Error::ParseGate(_))));
    assert!(matches!(Gate::try_from("not x"), Err(Error::ParseGate(_))));
    assert!(matches!(Gate::try_from("x  AND y"), Err(Error::ParseGate(_))));
    assert!(matches!(Gate::try_from("x LSHIFT 256"), Err(Error::ParseShift(_))));
    assert!(matches!(Gate::try_from("X LSHIFT y"), Err(Error::ParseShift(_))));
    assert!(matches!(Gate::try_from("X LSHIFT 1"), Err(Error::InvalidWireId(_))));
    assert!(matches!(Gate::try_from("x RSHIFT 16"), Err(Error::TooLargeShift(16))));
    assert!(matches!(Gate::try_from("x RSHIFT 255"), Err(Error::TooLargeShift(255))));
}

#[test]
fn wires_are_written_as_they_are_read() {
    for text in [
        "0 -> zero",
        "65535 -> w",
        "a -> b",
        "NOT a -> b",
        "a AND b -> c",
        "a OR 6 -> c",
        "a LSHIFT 3 -> c",
        "a RSHIFT 3 -> c",
    ] {
        let wire = Wire::try_from(text).unwrap();
        assert_eq!(wire.to_string(), text);
        assert_eq!(Wire::try_from(&wire.to_string()).unwrap(), wire);
    }
    assert_eq!(Wire::try_from("+5 -> w").unwrap().to_string(), "5 -> w");
    assert!(matches!(
        Wire::try_from("18446744073709551615 -> w"),
        Err(Error::TooLargeValue(18446744073709551615))
    ));
    assert!(matches!(
        Wire::try_from("18446744073709551616 -> w"),
        Err(Error::InvalidWireId(_))
    ));
    assert!(matches!(Wire::try_from("x AND y -> W"), Err(Error::InvalidWireId(_))));
    assert!(matches!(Wire::try_from("x AND y z -> w"), Err(Error::ParseGate(_))));
    assert!(matches!(Wire::try_from("x -> "), Err(Error::InvalidWireId(_))));
}

#[test]
fn circuits_are_written_as_they_are_read() {
    let text = "123 -> x\n456 -> y\nx AND y -> d\nNOT d -> n\n";
    let mut c = Circuit::try_from(text).unwrap();
    assert_eq!(c.to_string(), text);
    assert!(c.compute_signals().is_ok());
    assert_eq!(c.to_string(), text);
    assert_eq!(c.get_signal("n").unwrap(), circuitry::signal::Signal::Value(!72));

    let spaced = Circuit::try_from("1 -> a\na -> b \n\n\t").unwrap();
    assert_eq!(spaced.to_string(), "1 -> a\na -> b\n");

    assert!(matches!(Circuit::try_from(""), Err(Error::ParseArrow(_))));
    assert!(matches!(Circuit::try_from("1 -> a\n\n2 -> b"), Err(Error::ParseArrow(_))));
    assert!(matches!(
        Circuit::try_from("1 -> a\n2 -> a"),
        Err(Error::WireIdAlreadyExists(_))
    ));
    assert!(matches!(Circuit::try_from("a -> a"), Err(Error::InputMatchesOutput(_))));
    assert_eq!(Circuit::new().to_string(), "");
}

#[test]
fn add_wire_reads_a_line() {
    let mut c = Circuit::new();
    c.add_wire("3 -> a").unwrap();
    c.add_wire("a LSHIFT 2 -> b").unwrap();
    assert!(matches!(c.add_wire("4 -> a"), Err(Error::WireIdAlreadyExists(_))));
    assert!(matches!(c.add_wire("a LSHIFT 2"), Err(Error::ParseArrow(_))));
    assert!(c.compute_signals().is_ok());
    assert_eq!(c.get_signal("b").unwrap(), circuitry::signal::Signal::Value(12));
}
