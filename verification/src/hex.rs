//! Numbers in base 16: reading the target out of an operand, and writing an
//! address.

use vstd::prelude::*;
use vstd::std_specs::iter::IteratorSpec;
use vstd::string::*;

verus! {

/// The value of a hexadecimal digit of either case.
pub open spec fn hex_digit(c: char) -> Option<nat> {
    if '0' <= c <= '9' {
        Some((c as u32 - '0' as u32) as nat)
    } else if 'a' <= c <= 'f' {
        Some((c as u32 - 'a' as u32 + 10) as nat)
    } else if 'A' <= c <= 'F' {
        Some((c as u32 - 'A' as u32 + 10) as nat)
    } else {
        None
    }
}

/// The number that hexadecimal digits write, most significant first; `None`
/// where one of them is no digit.
pub open spec fn hex_number(digits: Seq<char>) -> Option<nat>
    decreases digits.len(),
{
    if digits.len() == 0 {
        Some(0)
    } else {
        match (hex_number(digits.drop_last()), hex_digit(digits.last())) {
            (Some(high), Some(low)) => Some(16 * high + low),
            _ => None,
        }
    }
}

/// The 64-bit number that `text` writes in base 16: an optional `+`, then
/// one digit or more and nothing else.  `None` for any other text and for a
/// number that does not fit.
pub open spec fn hex_value(text: Seq<char>) -> Option<u64> {
    let digits = if text.len() > 0 && text[0] == '+' {
        text.skip(1)
    } else {
        text
    };
    if digits.len() == 0 {
        None
    } else {
        match hex_number(digits) {
            Some(n) => if n <= u64::MAX {
                Some(n as u64)
            } else {
                None
            },
            None => None,
        }
    }
}

fn digit_value(c: char) -> (value: Option<u64>)
    ensures
        match value {
            Some(v) => hex_digit(c) == Some(v as nat) && v < 16,
            None => hex_digit(c) is None,
        },
{
    if '0' <= c && c <= '9' {
        Some((c as u32 - '0' as u32) as u64)
    } else if 'a' <= c && c <= 'f' {
        Some((c as u32 - 'a' as u32 + 10) as u64)
    } else if 'A' <= c && c <= 'F' {
        Some((c as u32 - 'A' as u32 + 10) as u64)
    } else {
        None
    }
}

/// Digits that write a number write, with fewer of them, no greater one.
proof fn lemma_hex_prefix(digits: Seq<char>, upto: int)
    requires
        0 <= upto <= digits.len(),
        hex_number(digits) is Some,
    ensures
        hex_number(digits.take(upto)) is Some,
        hex_number(digits.take(upto)).unwrap() <= hex_number(digits).unwrap(),
    decreases digits.len(),
{
    if upto == digits.len() {
        assert(digits.take(upto) =~= digits);
    } else {
        lemma_hex_prefix(digits.drop_last(), upto);
        assert(digits.drop_last().take(upto) =~= digits.take(upto));
    }
}

/// Digits of which some first ones are no number are no number.
proof fn lemma_hex_prefix_fails(digits: Seq<char>, upto: int)
    requires
        0 <= upto <= digits.len(),
        hex_number(digits.take(upto)) is None,
    ensures
        hex_number(digits) is None,
{
    if hex_number(digits) is Some {
        lemma_hex_prefix(digits, upto);
    }
}

/// The digits of `text`: what follows its `+`, if it begins with one.
pub open spec fn hex_digits(text: Seq<char>) -> Seq<char> {
    if text.len() > 0 && text[0] == '+' {
        text.skip(1)
    } else {
        text
    }
}

/// Reads `text` as a 64-bit number in base 16.
pub fn parse_hex(text: &str) -> (value: Option<u64>)
    ensures
        value == hex_value(text@),
{
    let ghost digits = hex_digits(text@);
    let ghost sign = text@.len() - digits.len();
    let mut value: u64 = 0;
    let mut first = true;
    let mut any = false;
    for c in it: text.chars()
        invariant
            it.seq() == text@,
            digits == hex_digits(text@),
            sign == text@.len() - digits.len(),
            first <==> it.index() == 0,
            first ==> value == 0,
            any <==> it.index() > sign,
            it.index() >= sign ==> hex_number(digits.take(it.index() - sign)) == Some(
                value as nat,
            ),
    {
        let ghost done = it.index() - sign;
        if first && c == '+' {
            assert(text@[0] == c);
            assert(digits.take(0) =~= Seq::<char>::empty());
        } else {
            assert(digits[done] == c);
            assert(digits.take(done + 1).drop_last() =~= digits.take(done));
            assert(digits.take(done + 1).last() == c);
            match digit_value(c) {
                None => {
                    proof {
                        lemma_hex_prefix_fails(digits, done + 1);
                    }
                    return None;
                },
                Some(low) => {
                    if value > (u64::MAX - low) / 16 {
                        proof {
                            if hex_number(digits) is Some {
                                lemma_hex_prefix(digits, done + 1);
                            }
                        }
                        return None;
                    }
                    value = 16 * value + low;
                    any = true;
                },
            }
        }
        first = false;
    }
    assert(digits.take(digits.len() as int) =~= digits);
    if any {
        Some(value)
    } else {
        None
    }
}

/// The lower-case hexadecimal digit for a value below sixteen.
pub open spec fn hex_char(value: nat) -> char {
    if value == 0 {
        '0'
    } else if value == 1 {
        '1'
    } else if value == 2 {
        '2'
    } else if value == 3 {
        '3'
    } else if value == 4 {
        '4'
    } else if value == 5 {
        '5'
    } else if value == 6 {
        '6'
    } else if value == 7 {
        '7'
    } else if value == 8 {
        '8'
    } else if value == 9 {
        '9'
    } else if value == 10 {
        'a'
    } else if value == 11 {
        'b'
    } else if value == 12 {
        'c'
    } else if value == 13 {
        'd'
    } else if value == 14 {
        'e'
    } else {
        'f'
    }
}

/// `n` written in base 16 with lower-case digits and no leading zero.
pub open spec fn hex_text(n: nat) -> Seq<char>
    decreases n,
{
    if n < 16 {
        seq![hex_char(n)]
    } else {
        hex_text(n / 16).push(hex_char(n % 16))
    }
}

fn digit_text(value: u64) -> (text: &'static str)
    requires
        value < 16,
    ensures
        text@ == seq![hex_char(value as nat)],
{
    proof {
        reveal_strlit("0");
        reveal_strlit("1");
        reveal_strlit("2");
        reveal_strlit("3");
        reveal_strlit("4");
        reveal_strlit("5");
        reveal_strlit("6");
        reveal_strlit("7");
        reveal_strlit("8");
        reveal_strlit("9");
        reveal_strlit("a");
        reveal_strlit("b");
        reveal_strlit("c");
        reveal_strlit("d");
        reveal_strlit("e");
        reveal_strlit("f");
    }
    let text = if value == 0 {
        "0"
    } else if value == 1 {
        "1"
    } else if value == 2 {
        "2"
    } else if value == 3 {
        "3"
    } else if value == 4 {
        "4"
    } else if value == 5 {
        "5"
    } else if value == 6 {
        "6"
    } else if value == 7 {
        "7"
    } else if value == 8 {
        "8"
    } else if value == 9 {
        "9"
    } else if value == 10 {
        "a"
    } else if value == 11 {
        "b"
    } else if value == 12 {
        "c"
    } else if value == 13 {
        "d"
    } else if value == 14 {
        "e"
    } else {
        "f"
    };
    assert(text@ =~= seq![hex_char(value as nat)]);
    text
}

/// Appends `n`, written in base 16, to `text`.
pub fn push_hex(text: &mut String, n: u64)
    ensures
        final(text)@ == old(text)@ + hex_text(n as nat),
    decreases n,
{
    if n >= 16 {
        push_hex(text, n / 16);
    }
    text.append(digit_text(n % 16));
    assert(text@ =~= old(text)@ + hex_text(n as nat));
}

} // verus!
