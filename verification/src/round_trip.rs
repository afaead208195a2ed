//! Gates and wires that are written are read as themselves.

use vstd::prelude::*;
use crate::error::ErrorView;
use crate::gate::GateView;
use crate::gate::gate_of_text;
use crate::gate::gate_text;
use crate::gate::pair_of_texts;
use crate::gate::shift_of_texts;
use crate::gate::value_of_text;
use crate::signal::Signal;
use crate::text::all_digits;
use crate::text::decimal_text;
use crate::text::digit_char;
use crate::text::digit_value;
use crate::text::digits_value;
use crate::text::find_from;
use crate::text::is_digit;
use crate::text::number_of;
use crate::text::number_upto;
use crate::text::split_at;
use crate::text::unsigned_part;
use crate::wire::InputView;
use crate::wire::WireView;
use crate::wire::input_text;
use crate::wire::wire_of_text;
use crate::wire::wire_text;
use crate::wire_id::valid_id;

verus! {

/// The character `c` stands nowhere in `text`.
pub open spec fn free_of(text: Seq<char>, c: char) -> bool {
    forall|i: int| 0 <= i < text.len() ==> #[trigger] text[i] != c
}

/// A text made of two texts free of a character is free of it.
pub proof fn lemma_free_of_add(a: Seq<char>, b: Seq<char>, c: char)
    requires
        free_of(a, c),
        free_of(b, c),
    ensures
        free_of(a + b, c),
{
    assert forall|i: int| 0 <= i < (a + b).len() implies #[trigger] (a + b)[i] != c by {
        if i < a.len() {
            assert((a + b)[i] == a[i]);
        } else {
            assert((a + b)[i] == b[i - a.len()]);
        }
    }
}

/// A wire id holds letters only.
pub proof fn lemma_id_free_of(id: Seq<char>, c: char)
    requires
        valid_id(id),
        !('a' <= c <= 'z'),
    ensures
        free_of(id, c),
{
    assert forall|i: int| 0 <= i < id.len() implies #[trigger] id[i] != c by {
        assert('a' <= id[i] <= 'z');
    }
}

/// The characters of the ten digits are digits, and stand for them.
proof fn lemma_digit_char(d: nat)
    requires
        d < 10,
    ensures
        is_digit(digit_char(d)),
        digit_value(digit_char(d)) == d,
{
}

/// A number is written with digits only, one at least, and they stand for
/// the number.
pub proof fn lemma_decimal_text(n: nat)
    ensures
        decimal_text(n).len() >= 1,
        all_digits(decimal_text(n)),
        digits_value(decimal_text(n)) == n,
    decreases n,
{
    if n < 10 {
        lemma_digit_char(n);
        let text = decimal_text(n);
        assert(text.drop_last() =~= Seq::<char>::empty());
        assert(digits_value(text.drop_last()) == 0);
        assert(text.last() == digit_char(n));
    } else {
        lemma_decimal_text(n / 10);
        lemma_digit_char(n % 10);
        let before = decimal_text(n / 10);
        let text = decimal_text(n);
        assert(text.drop_last() =~= before);
        assert(text.last() == digit_char(n % 10));
        assert forall|i: int| 0 <= i < text.len() implies is_digit(#[trigger] text[i]) by {
            if i < before.len() {
                assert(text[i] == before[i]);
            }
        }
    }
}

/// A number that is written is read as itself.
pub proof fn lemma_number_of_decimal(n: nat)
    ensures
        number_of(decimal_text(n)) == Some(n),
{
    lemma_decimal_text(n);
    let text = decimal_text(n);
    assert(is_digit(text[0]));
    assert(unsigned_part(text) == text);
}

/// A number is written without any character that is no digit.
pub proof fn lemma_decimal_free_of(n: nat, c: char)
    requires
        !is_digit(c),
    ensures
        free_of(decimal_text(n), c),
{
    lemma_decimal_text(n);
    let text = decimal_text(n);
    assert forall|i: int| 0 <= i < text.len() implies #[trigger] text[i] != c by {
        assert(is_digit(text[i]));
    }
}

/// A wire id is no number.
pub proof fn lemma_id_is_no_number(id: Seq<char>)
    requires
        valid_id(id),
    ensures
        number_of(id) is None,
{
    assert('a' <= id[0] <= 'z');
    assert(unsigned_part(id) == id);
    assert(!is_digit(id[0]));
}

/// A text without separators is one piece.
pub proof fn lemma_split_free(text: Seq<char>, sep: char)
    requires
        free_of(text, sep),
    ensures
        split_at(text, sep) == seq![text],
    decreases text.len(),
{
    if text.len() == 0 {
        assert(text =~= Seq::<char>::empty());
    } else {
        let before = text.drop_last();
        assert forall|i: int| 0 <= i < before.len() implies #[trigger] before[i] != sep by {
            assert(before[i] == text[i]);
        }
        lemma_split_free(before, sep);
        assert(text.last() == text[text.len() - 1]);
        assert(before.push(text.last()) =~= text);
        assert(seq![before].drop_last().push(seq![before].last().push(text.last())) =~= seq![text]);
    }
}

/// A text without separators, put after another text, lengthens its last
/// piece.
pub proof fn lemma_split_add(head: Seq<char>, tail: Seq<char>, sep: char)
    requires
        free_of(tail, sep),
    ensures
        split_at(head + tail, sep).len() == split_at(head, sep).len(),
        split_at(head, sep).len() >= 1,
        split_at(head + tail, sep) == split_at(head, sep).drop_last().push(
            split_at(head, sep).last() + tail,
        ),
    decreases tail.len(),
{
    lemma_split_len(head, sep);
    let pieces = split_at(head, sep);
    if tail.len() == 0 {
        assert(head + tail =~= head);
        assert(pieces.last() + tail =~= pieces.last());
        assert(pieces.drop_last().push(pieces.last()) =~= pieces);
    } else {
        let shorter = tail.drop_last();
        assert forall|i: int| 0 <= i < shorter.len() implies #[trigger] shorter[i] != sep by {
            assert(shorter[i] == tail[i]);
        }
        lemma_split_add(head, shorter, sep);
        let whole = head + tail;
        assert(whole.drop_last() =~= head + shorter);
        assert(whole.last() == tail[tail.len() - 1]);
        let before = split_at(head + shorter, sep);
        assert(before.last() == pieces.last() + shorter);
        assert((pieces.last() + shorter).push(tail.last()) =~= pieces.last() + tail);
        assert(before.drop_last() =~= pieces.drop_last());
    }
}

/// A text is cut into one piece at least.
pub proof fn lemma_split_len(text: Seq<char>, sep: char)
    ensures
        split_at(text, sep).len() >= 1,
    decreases text.len(),
{
    if text.len() > 0 {
        lemma_split_len(text.drop_last(), sep);
    }
}

/// Two texts without separators, one separator between them, are cut into
/// the two.
pub proof fn lemma_split_two(a: Seq<char>, b: Seq<char>, sep: char)
    requires
        free_of(a, sep),
        free_of(b, sep),
    ensures
        split_at(a + seq![sep] + b, sep) == seq![a, b],
{
    lemma_split_free(a, sep);
    let head = a + seq![sep];
    assert(head.drop_last() =~= a);
    assert(head.last() == sep);
    assert(split_at(head, sep) =~= seq![a, Seq::<char>::empty()]);
    lemma_split_add(head, b, sep);
    assert(Seq::<char>::empty() + b =~= b);
    assert(seq![a, Seq::<char>::empty()].drop_last().push(b) =~= seq![a, b]);
}

/// Three texts without separators, one separator between each two, are cut
/// into the three.
pub proof fn lemma_split_three(a: Seq<char>, b: Seq<char>, c: Seq<char>, sep: char)
    requires
        free_of(a, sep),
        free_of(b, sep),
        free_of(c, sep),
    ensures
        split_at(a + seq![sep] + b + seq![sep] + c, sep) == seq![a, b, c],
{
    lemma_split_two(a, b, sep);
    let head = a + seq![sep] + b + seq![sep];
    assert(head.drop_last() =~= a + seq![sep] + b);
    assert(head.last() == sep);
    assert(split_at(head, sep) =~= seq![a, b, Seq::<char>::empty()]);
    lemma_split_add(head, c, sep);
    assert(Seq::<char>::empty() + c =~= c);
    assert(seq![a, b, Seq::<char>::empty()].drop_last().push(c) =~= seq![a, b, c]);
}

/// Whether `pattern` stands in `text` at the place `at`.
pub open spec fn stands_at(text: Seq<char>, pattern: Seq<char>, at: int) -> bool {
    0 <= at && at + pattern.len() <= text.len() && text.subrange(at, at + pattern.len())
        == pattern
}

/// A pattern that stands after a text, and nowhere before the end of that
/// text, is first found at the end of that text.
pub proof fn lemma_found_after(
    before: Seq<char>,
    pattern: Seq<char>,
    after: Seq<char>,
    from: int,
)
    requires
        0 <= from <= before.len(),
        forall|i: int|
            from <= i < before.len() ==> !#[trigger] stands_at(before + pattern + after, pattern, i),
    ensures
        find_from(before + pattern + after, pattern, from) == Some(before.len() as int),
    decreases before.len() - from,
{
    let text = before + pattern + after;
    if from < before.len() {
        assert(!stands_at(text, pattern, from));
        lemma_found_after(before, pattern, after, from + 1);
    } else {
        assert(text.subrange(from, from + pattern.len()) =~= pattern);
    }
}

/// A wire id stands for no value.
proof fn lemma_id_is_no_value(id: Seq<char>)
    requires
        valid_id(id),
    ensures
        value_of_text(id) is None,
        free_of(id, ' '),
        free_of(id, '-'),
{
    lemma_id_is_no_number(id);
    lemma_id_free_of(id, ' ');
    lemma_id_free_of(id, '-');
}

/// A value that is written is read as itself.
proof fn lemma_value_of_decimal(value: u16)
    ensures
        value_of_text(decimal_text(value as nat)) == Some(value),
        number_upto(decimal_text(value as nat), 0xffff) == Some(value as u64),
        free_of(decimal_text(value as nat), ' '),
        free_of(decimal_text(value as nat), '-'),
{
    lemma_number_of_decimal(value as nat);
    lemma_decimal_free_of(value as nat, ' ');
    lemma_decimal_free_of(value as nat, '-');
}

/// The words that gates are written with.
proof fn lemma_words()
    ensures
        " AND "@ == seq![' '] + "AND"@ + seq![' '],
        " OR "@ == seq![' '] + "OR"@ + seq![' '],
        " LSHIFT "@ == seq![' '] + "LSHIFT"@ + seq![' '],
        " RSHIFT "@ == seq![' '] + "RSHIFT"@ + seq![' '],
        "NOT "@ == "NOT"@ + seq![' '],
        free_of("AND"@, ' ') && free_of("AND"@, '-'),
        free_of("OR"@, ' ') && free_of("OR"@, '-'),
        free_of("LSHIFT"@, ' ') && free_of("LSHIFT"@, '-'),
        free_of("RSHIFT"@, ' ') && free_of("RSHIFT"@, '-'),
        free_of("NOT"@, ' ') && free_of("NOT"@, '-'),
        "AND"@ != "OR"@,
        "AND"@ != "LSHIFT"@,
        "AND"@ != "RSHIFT"@,
        "OR"@ != "LSHIFT"@,
        "OR"@ != "RSHIFT"@,
        "LSHIFT"@ != "RSHIFT"@,
{
    reveal_strlit(" AND ");
    reveal_strlit(" OR ");
    reveal_strlit(" LSHIFT ");
    reveal_strlit(" RSHIFT ");
    reveal_strlit("NOT ");
    reveal_strlit("AND");
    reveal_strlit("OR");
    reveal_strlit("LSHIFT");
    reveal_strlit("RSHIFT");
    reveal_strlit("NOT");
    assert(" AND "@ =~= seq![' '] + "AND"@ + seq![' ']);
    assert(" OR "@ =~= seq![' '] + "OR"@ + seq![' ']);
    assert(" LSHIFT "@ =~= seq![' '] + "LSHIFT"@ + seq![' ']);
    assert(" RSHIFT "@ =~= seq![' '] + "RSHIFT"@ + seq![' ']);
    assert("NOT "@ =~= "NOT"@ + seq![' ']);
    assert("AND"@.len() != "OR"@.len());
    assert("AND"@.len() != "LSHIFT"@.len());
    assert("AND"@.len() != "RSHIFT"@.len());
    assert("OR"@.len() != "LSHIFT"@.len());
    assert("OR"@.len() != "RSHIFT"@.len());
    assert("LSHIFT"@[0] != "RSHIFT"@[0]);
}

/// A gate written as `left`, a word and `right` is cut into the three.
proof fn lemma_gate_parts(left: Seq<char>, spaced: Seq<char>, word: Seq<char>, right: Seq<char>)
    requires
        spaced == seq![' '] + word + seq![' '],
        free_of(left, ' '),
        free_of(word, ' '),
        free_of(right, ' '),
    ensures
        split_at(left + spaced + right, ' ') == seq![left, word, right],
{
    assert(left + spaced + right =~= left + seq![' '] + word + seq![' '] + right);
    lemma_split_three(left, word, right, ' ');
}

/// No gate is written with a dash.
proof fn lemma_gate_text_free_of_dash(gate: GateView)
    requires
        gate.ids_valid(),
    ensures
        free_of(gate_text(gate), '-'),
{
    lemma_words();
    reveal_strlit(" AND ");
    reveal_strlit(" OR ");
    reveal_strlit(" LSHIFT ");
    reveal_strlit(" RSHIFT ");
    reveal_strlit("NOT ");
    let first = gate.first();
    lemma_id_free_of(first, '-');
    match gate {
        GateView::And { input1, input2 } => {
            lemma_id_free_of(input2, '-');
            lemma_free_of_add(input1, " AND "@, '-');
            lemma_free_of_add(input1 + " AND "@, input2, '-');
        },
        GateView::AndValue { input, value } => {
            lemma_decimal_free_of(value as nat, '-');
            lemma_free_of_add(input, " AND "@, '-');
            lemma_free_of_add(input + " AND "@, decimal_text(value as nat), '-');
        },
        GateView::Or { input1, input2 } => {
            lemma_id_free_of(input2, '-');
            lemma_free_of_add(input1, " OR "@, '-');
            lemma_free_of_add(input1 + " OR "@, input2, '-');
        },
        GateView::OrValue { input, value } => {
            lemma_decimal_free_of(value as nat, '-');
            lemma_free_of_add(input, " OR "@, '-');
            lemma_free_of_add(input + " OR "@, decimal_text(value as nat), '-');
        },
        GateView::LShift { input, shift } => {
            lemma_decimal_free_of(shift as nat, '-');
            lemma_free_of_add(input, " LSHIFT "@, '-');
            lemma_free_of_add(input + " LSHIFT "@, decimal_text(shift as nat), '-');
        },
        GateView::RShift { input, shift } => {
            lemma_decimal_free_of(shift as nat, '-');
            lemma_free_of_add(input, " RSHIFT "@, '-');
            lemma_free_of_add(input + " RSHIFT "@, decimal_text(shift as nat), '-');
        },
        GateView::Not { input } => {
            lemma_free_of_add("NOT "@, input, '-');
        },
    }
}

/// A gate that is written is read as itself.
pub proof fn lemma_gate_round_trip(gate: GateView)
    requires
        gate.ids_valid(),
        gate.shift_in_range(),
    ensures
        gate_of_text(gate_text(gate)) == Ok::<GateView, ErrorView>(gate),
        split_at(gate_text(gate), ' ').len() > 1,
        free_of(gate_text(gate), '-'),
{
    lemma_words();
    lemma_gate_text_free_of_dash(gate);
    let text = gate_text(gate);
    match gate {
        GateView::And { input1, input2 } => {
            lemma_id_is_no_value(input1);
            lemma_id_is_no_value(input2);
            lemma_gate_parts(input1, " AND "@, "AND"@, input2);
            assert(pair_of_texts(input1, input2, true) == Ok::<GateView, ErrorView>(gate));
        },
        GateView::AndValue { input, value } => {
            lemma_id_is_no_value(input);
            lemma_value_of_decimal(value);
            lemma_gate_parts(input, " AND "@, "AND"@, decimal_text(value as nat));
            assert(pair_of_texts(input, decimal_text(value as nat), true) == Ok::<
                GateView,
                ErrorView,
            >(gate));
        },
        GateView::Or { input1, input2 } => {
            lemma_id_is_no_value(input1);
            lemma_id_is_no_value(input2);
            lemma_gate_parts(input1, " OR "@, "OR"@, input2);
            assert(pair_of_texts(input1, input2, false) == Ok::<GateView, ErrorView>(gate));
        },
        GateView::OrValue { input, value } => {
            lemma_id_is_no_value(input);
            lemma_value_of_decimal(value);
            lemma_gate_parts(input, " OR "@, "OR"@, decimal_text(value as nat));
            assert(pair_of_texts(input, decimal_text(value as nat), false) == Ok::<
                GateView,
                ErrorView,
            >(gate));
        },
        GateView::LShift { input, shift } => {
            lemma_id_is_no_value(input);
            lemma_number_of_decimal(shift as nat);
            lemma_decimal_free_of(shift as nat, ' ');
            lemma_gate_parts(input, " LSHIFT "@, "LSHIFT"@, decimal_text(shift as nat));
            assert(shift_of_texts(input, decimal_text(shift as nat), true) == Ok::<
                GateView,
                ErrorView,
            >(gate));
        },
        GateView::RShift { input, shift } => {
            lemma_id_is_no_value(input);
            lemma_number_of_decimal(shift as nat);
            lemma_decimal_free_of(shift as nat, ' ');
            lemma_gate_parts(input, " RSHIFT "@, "RSHIFT"@, decimal_text(shift as nat));
            assert(shift_of_texts(input, decimal_text(shift as nat), false) == Ok::<
                GateView,
                ErrorView,
            >(gate));
        },
        GateView::Not { input } => {
            lemma_id_is_no_value(input);
            assert(text =~= "NOT"@ + seq![' '] + input);
            lemma_split_two("NOT"@, input, ' ');
        },
    }
}

/// A wire that is written is read as itself, unresolved.
pub proof fn lemma_wire_round_trip(wire: WireView)
    requires
        wire.well_formed(),
    ensures
        wire_of_text(wire_text(wire)) == Ok::<WireView, ErrorView>(
            WireView { signal: Signal::Uncomputed, ..wire },
        ),
{
    reveal_strlit(" -> ");
    let arrow = " -> "@;
    let fed = input_text(wire.input);
    let text = wire_text(wire);
    // What feeds the wire is written without a dash.
    match wire.input {
        InputView::Value(value) => {
            lemma_value_of_decimal(value);
        },
        InputView::Wire(id) => {
            lemma_id_is_no_value(id);
        },
        InputView::Gate(gate) => {
            lemma_gate_round_trip(gate);
        },
    }
    assert(free_of(fed, '-'));
    // So the first arrow is the one before the name.
    assert forall|i: int| 0 <= i < fed.len() implies !#[trigger] stands_at(text, arrow, i) by {
        if stands_at(text, arrow, i) {
            assert(text.subrange(i, i + 4)[1] == arrow[1]);
            assert(text[i + 1] == '-');
            if i + 1 < fed.len() {
                assert(text[i + 1] == fed[i + 1]);
            } else {
                assert(text[i + 1] == arrow[0]);
            }
        }
    }
    lemma_found_after(fed, arrow, wire.id, 0);
    let at = fed.len() as int;
    assert(text.subrange(0, at) =~= fed);
    assert(text.subrange(at + 4, text.len() as int) =~= wire.id);
    match wire.input {
        InputView::Value(value) => {
            lemma_split_free(fed, ' ');
            lemma_number_of_decimal(value as nat);
        },
        InputView::Wire(id) => {
            lemma_split_free(fed, ' ');
            lemma_id_is_no_number(id);
        },
        InputView::Gate(gate) => {},
    }
}

} // verus!
