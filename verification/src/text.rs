//! Reading and writing numbers, and cutting texts into pieces.

use vstd::prelude::*;
use vstd::string::StrSliceExecFns;
use vstd::string::StringExecFns;

verus! {

/// Whether `c` is one of the ten digits.
pub open spec fn is_digit(c: char) -> bool {
    '0' <= c <= '9'
}

/// The number that the digit `c` stands for.
pub open spec fn digit_value(c: char) -> nat {
    (c as u32 - '0' as u32) as nat
}

/// Whether `text` holds digits only.
pub open spec fn all_digits(text: Seq<char>) -> bool {
    forall|i: int| 0 <= i < text.len() ==> is_digit(#[trigger] text[i])
}

/// The number that a row of digits stands for, read in base ten.
pub open spec fn digits_value(digits: Seq<char>) -> nat
    decreases digits.len(),
{
    if digits.len() == 0 {
        0
    } else {
        10 * digits_value(digits.drop_last()) + digit_value(digits.last())
    }
}

/// A text without the `+` that may stand at its head.
pub open spec fn unsigned_part(text: Seq<char>) -> Seq<char> {
    if text.len() > 0 && text[0] == '+' {
        text.drop_first()
    } else {
        text
    }
}

/// The number that `text` stands for: one digit at least, digits only, and
/// a `+` before them at most.
pub open spec fn number_of(text: Seq<char>) -> Option<nat> {
    let digits = unsigned_part(text);
    if digits.len() > 0 && all_digits(digits) {
        Some(digits_value(digits))
    } else {
        None
    }
}

/// The number that `text` stands for, where it is `max` at most.
pub open spec fn number_upto(text: Seq<char>, max: u64) -> Option<u64> {
    match number_of(text) {
        Some(n) => if n <= max {
            Some(n as u64)
        } else {
            None
        },
        None => None,
    }
}

/// Reads the number that `text` stands for, where it is `max` at most.
pub fn parse_number(text: &str, max: u64) -> (r: Option<u64>)
    ensures
        r == number_upto(text@, max),
{
    let mut value: u64 = 0;
    let mut first = true;
    let mut signed = false;
    let mut seen = false;
    let mut too_big = false;
    let ghost whole = unsigned_part(text@);
    for c in it: text.chars()
        invariant
            it.seq() == text@,
            whole == unsigned_part(text@),
            first == (it.index() == 0),
            signed == (it.index() > 0 && text@[0] == '+'),
            ({
                let n = it.index() - if signed {
                    1int
                } else {
                    0int
                };
                &&& 0 <= n <= whole.len()
                &&& seen == (n > 0)
                &&& all_digits(whole.take(n))
                &&& if too_big {
                    digits_value(whole.take(n)) > max
                } else {
                    value == digits_value(whole.take(n)) && value <= max
                }
            }),
    {
        let ghost i = it.index() as int;
        let ghost n = i - if signed {
            1int
        } else {
            0int
        };
        if first && c == '+' {
            signed = true;
            proof {
                assert(whole.take(0) =~= Seq::<char>::empty());
            }
        } else {
            assert(c == whole[n]);
            if !('0' <= c && c <= '9') {
                proof {
                    assert(!is_digit(whole[n]));
                }
                return None;
            }
            let d: u64 = (c as u32 - '0' as u32) as u64;
            proof {
                assert(whole.take(n + 1).drop_last() =~= whole.take(n));
                assert(whole.take(n + 1).last() == c);
                assert(digits_value(whole.take(n + 1)) == 10 * digits_value(whole.take(n)) + d);
                assert forall|k: int| 0 <= k < n + 1 implies is_digit(
                    #[trigger] whole.take(n + 1)[k],
                ) by {
                    if k < n {
                        assert(whole.take(n)[k] == whole[k]);
                    }
                }
            }
            if !too_big {
                if d > max || value > (max - d) / 10 {
                    too_big = true;
                } else {
                    value = value * 10 + d;
                }
            }
            seen = true;
        }
        first = false;
    }
    proof {
        assert(whole.take(whole.len() as int) =~= whole);
    }
    if seen && !too_big {
        Some(value)
    } else {
        None
    }
}

/// The character for the digit `d`.
pub open spec fn digit_char(d: nat) -> char {
    if d == 0 {
        '0'
    } else if d == 1 {
        '1'
    } else if d == 2 {
        '2'
    } else if d == 3 {
        '3'
    } else if d == 4 {
        '4'
    } else if d == 5 {
        '5'
    } else if d == 6 {
        '6'
    } else if d == 7 {
        '7'
    } else if d == 8 {
        '8'
    } else {
        '9'
    }
}

/// The number `n` written in base ten, without a sign and without zeros
/// before it.
pub open spec fn decimal_text(n: nat) -> Seq<char>
    decreases n,
{
    if n < 10 {
        seq![digit_char(n)]
    } else {
        decimal_text(n / 10).push(digit_char(n % 10))
    }
}

/// The text of the digit `d`.
fn digit_text(d: u64) -> (text: &'static str)
    requires
        d < 10,
    ensures
        text@ == seq![digit_char(d as nat)],
{
    proof {
        reveal_strlit("0");
        reveal_strlit("1");
        reveal_strlit("2");
        reveal_strlit("3");
        reveal_strlit("4");
        reveal_strlit("5");
        reveal_strlit("6");
        reveal_strlit("7");
        reveal_strlit("8");
        reveal_strlit("9");
    }
    let text = if d == 0 {
        "0"
    } else if d == 1 {
        "1"
    } else if d == 2 {
        "2"
    } else if d == 3 {
        "3"
    } else if d == 4 {
        "4"
    } else if d == 5 {
        "5"
    } else if d == 6 {
        "6"
    } else if d == 7 {
        "7"
    } else if d == 8 {
        "8"
    } else {
        "9"
    };
    assert(text@ =~= seq![digit_char(d as nat)]);
    text
}

/// Writes `n` in base ten at the end of `out`.
pub fn push_decimal(out: &mut String, n: u64)
    ensures
        final(out)@ == old(out)@ + decimal_text(n as nat),
    decreases n,
{
    if n >= 10 {
        push_decimal(out, n / 10);
    }
    let ghost before = out@;
    out.append(digit_text(n % 10));
    proof {
        if n >= 10 {
            assert(out@ =~= old(out)@ + decimal_text((n / 10) as nat).push(
                digit_char((n % 10) as nat),
            ));
        } else {
            assert(out@ =~= old(out)@ + seq![digit_char(n as nat)]);
        }
    }
}

/// The characters of `text`.
pub fn chars_of(text: &str) -> (chars: Vec<char>)
    ensures
        chars@ == text@,
{
    let mut chars: Vec<char> = Vec::new();
    for c in it: text.chars()
        invariant
            it.seq() == text@,
            chars@ == text@.take(it.index() as int),
    {
        chars.push(c);
        proof {
            assert(text@.take(it.index() + 1) =~= text@.take(it.index() as int).push(c));
        }
    }
    proof {
        assert(text@.take(text@.len() as int) =~= text@);
    }
    chars
}

/// Whether the two texts are the same.
pub fn same_text(a: &str, b: &str) -> (same: bool)
    ensures
        same == (a@ == b@),
{
    a.to_owned() == b.to_owned()
}

/// The texts that a list of pieces holds.
pub open spec fn texts(pieces: Seq<&str>) -> Seq<Seq<char>> {
    pieces.map_values(|piece: &str| piece@)
}

/// The pieces into which the separators `sep` cut `text`: one more than
/// there are separators, empty where two separators meet or one stands at
/// an end.
pub open spec fn split_at(text: Seq<char>, sep: char) -> Seq<Seq<char>>
    decreases text.len(),
{
    if text.len() == 0 {
        seq![Seq::<char>::empty()]
    } else {
        let before = split_at(text.drop_last(), sep);
        if text.last() == sep {
            before.push(Seq::<char>::empty())
        } else {
            before.drop_last().push(before.last().push(text.last()))
        }
    }
}

/// Cuts `text` at every separator `sep`.
pub fn split<'a>(text: &'a str, sep: char) -> (pieces: Vec<&'a str>)
    ensures
        texts(pieces@) == split_at(text@, sep),
        pieces@.len() >= 1,
{
    let n = text.unicode_len();
    let mut pieces: Vec<&'a str> = Vec::new();
    let mut start: usize = 0;
    let mut i: usize = 0;
    proof {
        assert(text@.take(0) =~= Seq::<char>::empty());
        assert(text@.subrange(0, 0) =~= Seq::<char>::empty());
        assert(texts(pieces@).push(text@.subrange(0, 0)) =~= seq![Seq::<char>::empty()]);
    }
    for c in it: text.chars()
        invariant
            it.seq() == text@,
            i == it.index(),
            n == text@.len(),
            start <= i <= n,
            split_at(text@.take(i as int), sep) == texts(pieces@).push(
                text@.subrange(start as int, i as int),
            ),
    {
        let ghost before = split_at(text@.take(i as int), sep);
        let ghost held = texts(pieces@);
        proof {
            assert(text@.take(i + 1).drop_last() =~= text@.take(i as int));
            assert(text@.take(i + 1).last() == c);
        }
        if c == sep {
            let piece = text.substring_char(start, i);
            pieces.push(piece);
            start = i + 1;
            proof {
                assert(texts(pieces@) =~= held.push(piece@));
                assert(text@.subrange(i + 1, i + 1) =~= Seq::<char>::empty());
            }
        } else {
            proof {
                assert(before.drop_last() =~= held);
                assert(text@.subrange(start as int, i + 1) =~= text@.subrange(
                    start as int,
                    i as int,
                ).push(c));
            }
        }
        i = i + 1;
    }
    let ghost held = texts(pieces@);
    let piece = text.substring_char(start, n);
    pieces.push(piece);
    proof {
        assert(text@.take(n as int) =~= text@);
        assert(texts(pieces@) =~= held.push(piece@));
    }
    pieces
}

/// Where `pattern` first stands in `text` at or after the place `from`.
pub open spec fn find_from(text: Seq<char>, pattern: Seq<char>, from: int) -> Option<int>
    decreases text.len() + 1 - from,
{
    if from < 0 || from + pattern.len() > text.len() {
        None
    } else if text.subrange(from, from + pattern.len()) == pattern {
        Some(from)
    } else {
        find_from(text, pattern, from + 1)
    }
}

/// Where `pattern` first stands in `text`.
pub open spec fn first_occurrence(text: Seq<char>, pattern: Seq<char>) -> Option<int> {
    find_from(text, pattern, 0)
}

/// Finds the place where `pattern` first stands in `text`, counted in
/// characters.
pub fn find(text: &str, pattern: &str) -> (r: Option<usize>)
    ensures
        match r {
            Some(at) => first_occurrence(text@, pattern@) == Some(at as int) && at
                + pattern@.len() <= text@.len(),
            None => first_occurrence(text@, pattern@) is None,
        },
{
    let chars = chars_of(text);
    let wanted = chars_of(pattern);
    let n = chars.len();
    let m = wanted.len();
    if m > n {
        return None;
    }
    let mut at: usize = 0;
    while at <= n - m
        invariant
            chars@ == text@,
            wanted@ == pattern@,
            n == chars@.len(),
            m == wanted@.len(),
            m <= n,
            at <= n - m + 1,
            find_from(text@, pattern@, 0) == find_from(text@, pattern@, at as int),
        decreases n - m + 1 - at,
    {
        let mut k: usize = 0;
        while k < m && chars[at + k] == wanted[k]
            invariant
                chars@ == text@,
                wanted@ == pattern@,
                n == chars@.len(),
                m == wanted@.len(),
                at + m <= n,
                k <= m,
                forall|j: int| 0 <= j < k ==> text@[at + j] == pattern@[j],
            decreases m - k,
        {
            k = k + 1;
        }
        if k == m {
            proof {
                assert(text@.subrange(at as int, at + m) =~= pattern@);
            }
            return Some(at);
        }
        proof {
            assert(text@.subrange(at as int, at + m)[k as int] == text@[at + k]);
        }
        at = at + 1;
    }
    None
}

/// Whether `c` is white space, as Unicode defines it.
pub open spec fn is_white_space(c: char) -> bool {
    ||| '\u{9}' <= c <= '\u{d}'
    ||| c == ' '
    ||| c == '\u{85}'
    ||| c == '\u{a0}'
    ||| c == '\u{1680}'
    ||| '\u{2000}' <= c <= '\u{200a}'
    ||| c == '\u{2028}'
    ||| c == '\u{2029}'
    ||| c == '\u{202f}'
    ||| c == '\u{205f}'
    ||| c == '\u{3000}'
}

/// A text without the white space at its end.
pub open spec fn trimmed_end(text: Seq<char>) -> Seq<char>
    decreases text.len(),
{
    if text.len() > 0 && is_white_space(text.last()) {
        trimmed_end(text.drop_last())
    } else {
        text
    }
}

/// Whether `c` is white space.
pub fn white_space(c: char) -> (b: bool)
    ensures
        b == is_white_space(c),
{
    ('\u{9}' <= c && c <= '\u{d}') || c == ' ' || c == '\u{85}' || c == '\u{a0}' || c
        == '\u{1680}' || ('\u{2000}' <= c && c <= '\u{200a}') || c == '\u{2028}' || c
        == '\u{2029}' || c == '\u{202f}' || c == '\u{205f}' || c == '\u{3000}'
}

/// Cuts the white space off the end of `text`.
pub fn trim_end<'a>(text: &'a str) -> (trimmed: &'a str)
    ensures
        trimmed@ == trimmed_end(text@),
{
    let chars = chars_of(text);
    let mut end = chars.len();
    proof {
        assert(text@.take(end as int) =~= text@);
    }
    while end > 0 && white_space(chars[end - 1])
        invariant
            chars@ == text@,
            end <= chars@.len(),
            trimmed_end(text@) == trimmed_end(text@.take(end as int)),
        decreases end,
    {
        proof {
            assert(text@.take(end as int).drop_last() =~= text@.take(end - 1));
        }
        end = end - 1;
    }
    text.substring_char(0, end)
}

} // verus!
