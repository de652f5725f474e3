//! The decisions round a local generation model that do not depend on the
//! model: which part of a prompt fits its window, and how a token of its
//! vocabulary reads as text.

use crate::text::{from_chars, to_chars};
use vstd::prelude::*;

verus! {

/// The tokens that are kept free at the end of the model's window.
pub const WINDOW_MARGIN: usize = 10;

/// The number of tokens by which a prompt of `len` tokens, `to_sample`
/// tokens to generate and the margin together exceed a window of
/// `window` tokens.
pub open spec fn excess(len: int, to_sample: int, window: int) -> int {
    len + to_sample + WINDOW_MARGIN - window
}

/// The index from which a prompt of `len` tokens is kept: the whole prompt
/// where it fits the window with what is to be generated and the margin;
/// otherwise as many of its last tokens as it has tokens too many.
pub open spec fn window_start(len: int, to_sample: int, window: int) -> int {
    if len + to_sample > window - WINDOW_MARGIN {
        if excess(len, to_sample, window) >= len {
            0
        } else {
            len - excess(len, to_sample, window)
        }
    } else {
        0
    }
}

/// The index from which a prompt of `len` tokens is handed to a model with
/// a window of `window` tokens, when `to_sample` tokens are to be
/// generated.
pub fn prompt_window_start(len: usize, to_sample: usize, window: usize) -> (start: usize)
    requires
        WINDOW_MARGIN <= window,
    ensures
        start == window_start(len as int, to_sample as int, window as int),
        start <= len,
{
    let room = window - WINDOW_MARGIN;
    if to_sample > room || len > room - to_sample {
        // The excess is len + to_sample - room, which is positive.
        if to_sample >= room {
            // The excess is at least len.
            0
        } else {
            let spare = room - to_sample;
            let over = len - spare;
            if over >= len {
                0
            } else {
                len - over
            }
        }
    } else {
        0
    }
}

/// The mark that a vocabulary uses for a space.
pub open spec fn space_mark() -> char {
    '\u{2581}'
}

/// `raw` with each space mark turned into a space.
pub open spec fn spaced(raw: Seq<char>) -> Seq<char> {
    Seq::new(
        raw.len(),
        |i: int|
            if raw[i] == space_mark() {
                ' '
            } else {
                raw[i]
            },
    )
}

/// The value of a hexadecimal digit.
pub open spec fn hex_value(c: char) -> Option<nat> {
    let u = c as u32;
    if 0x30 <= u <= 0x39 {
        Some((u - 0x30) as nat)
    } else if 0x61 <= u <= 0x66 {
        Some((u - 0x61 + 10) as nat)
    } else if 0x41 <= u <= 0x46 {
        Some((u - 0x41 + 10) as nat)
    } else {
        None
    }
}

/// The number that hexadecimal digits write, where all of them are
/// hexadecimal digits. No digits write zero.
pub open spec fn hex_number(digits: Seq<char>) -> Option<nat>
    decreases digits.len(),
{
    if digits.len() == 0 {
        Some(0)
    } else {
        match (hex_number(digits.drop_last()), hex_value(digits.last())) {
            (Some(front), Some(last)) => Some(front * 16 + last),
            _ => None,
        }
    }
}

/// The byte that `s` writes in base sixteen: a plus sign may come first,
/// then at least one digit, and the number is at most 255.
pub open spec fn parsed_byte(s: Seq<char>) -> Option<u8> {
    let digits = if s.len() > 0 && s[0] == '+' {
        s.subrange(1, s.len() as int)
    } else {
        s
    };
    if digits.len() == 0 {
        None
    } else {
        match hex_number(digits) {
            Some(value) => if value <= 255 {
                Some(value as u8)
            } else {
                None
            },
            None => None,
        }
    }
}

/// The byte of a token of the form `<0x..>`, where what stands between is
/// a byte in base sixteen.
pub open spec fn byte_token(t: Seq<char>) -> Option<u8> {
    if t.len() >= 4 && t[0] == '<' && t[1] == '0' && t[2] == 'x' && t.last() == '>' {
        parsed_byte(t.subrange(3, t.len() - 1))
    } else {
        None
    }
}

/// How a token of the vocabulary reads: a byte token as its ASCII
/// character, or as nothing where the byte is not ASCII; any other token
/// as itself with spaces for the space marks.
pub open spec fn token_text_of(raw: Seq<char>) -> Option<Seq<char>> {
    let t = spaced(raw);
    match byte_token(t) {
        None => Some(t),
        Some(byte) => if byte < 128 {
            Some(seq![byte as char])
        } else {
            None
        },
    }
}

/// The value of a hexadecimal digit.
pub fn hex_digit(c: char) -> (value: Option<u8>)
    ensures
        match value {
            Some(v) => hex_value(c) == Some(v as nat),
            None => hex_value(c) is None,
        },
{
    let u: u32 = c as u32;
    if 0x30 <= u && u <= 0x39 {
        Some((u - 0x30) as u8)
    } else if 0x61 <= u && u <= 0x66 {
        Some((u - 0x61 + 10) as u8)
    } else if 0x41 <= u && u <= 0x46 {
        Some((u - 0x41 + 10) as u8)
    } else {
        None
    }
}

/// A number in base sixteen does not shrink when digits are added.
proof fn lemma_hex_number_grows(digits: Seq<char>, n: int)
    requires
        0 <= n <= digits.len(),
        hex_number(digits) is Some,
    ensures
        hex_number(digits.take(n)) is Some,
        hex_number(digits.take(n))->0 <= hex_number(digits)->0,
    decreases digits.len(),
{
    if n == digits.len() {
        assert(digits.take(n) =~= digits);
    } else {
        assert(digits.drop_last().take(n) =~= digits.take(n));
        lemma_hex_number_grows(digits.drop_last(), n);
    }
}

/// Where a prefix is no number in base sixteen, the whole is none.
proof fn lemma_hex_number_fails(digits: Seq<char>, n: int)
    requires
        0 <= n <= digits.len(),
        hex_number(digits.take(n)) is None,
    ensures
        hex_number(digits) is None,
    decreases digits.len(),
{
    if n == digits.len() {
        assert(digits.take(n) =~= digits);
    } else {
        assert(digits.drop_last().take(n) =~= digits.take(n));
        lemma_hex_number_fails(digits.drop_last(), n);
    }
}

/// The byte that `chars[from..upto]` writes in base sixteen.
pub fn parse_byte(chars: &Vec<char>, from: usize, upto: usize) -> (byte: Option<u8>)
    requires
        from <= upto <= chars.len(),
    ensures
        byte == parsed_byte(chars@.subrange(from as int, upto as int)),
{
    let ghost s = chars@.subrange(from as int, upto as int);
    let start = if from < upto && chars[from] == '+' {
        from + 1
    } else {
        from
    };
    let ghost digits = chars@.subrange(start as int, upto as int);
    proof {
        if from < upto && chars@[from as int] == '+' {
            assert(s[0] == '+');
            assert(s.subrange(1, s.len() as int) =~= digits);
        } else {
            assert(s =~= digits);
        }
    }
    if start == upto {
        return None;
    }
    let mut value: u32 = 0;
    let mut i: usize = start;
    assert(digits.take(0) =~= Seq::<char>::empty());
    while i < upto
        invariant
            from <= start <= i <= upto <= chars.len(),
            start < upto,
            digits == chars@.subrange(start as int, upto as int),
            parsed_byte(chars@.subrange(from as int, upto as int)) == (match hex_number(digits) {
                Some(number) => if number <= 255 {
                    Some(number as u8)
                } else {
                    None
                },
                None => None,
            }),
            hex_number(digits.take(i - start)) == Some(value as nat),
            value <= 255,
        decreases upto - i,
    {
        proof {
            assert(digits.take(i - start + 1).drop_last() =~= digits.take(i - start));
            assert(digits.take(i - start + 1).last() == chars@[i as int]);
        }
        match hex_digit(chars[i]) {
            Some(d) => {
                let next = value * 16 + d as u32;
                if next > 255 {
                    proof {
                        if hex_number(digits) is Some {
                            lemma_hex_number_grows(digits, i - start + 1);
                        }
                    }
                    return None;
                }
                value = next;
            },
            None => {
                proof {
                    lemma_hex_number_fails(digits, i - start + 1);
                }
                return None;
            },
        }
        i += 1;
    }
    assert(digits.take(upto - start) =~= digits);
    Some(value as u8)
}

/// How a token of the vocabulary reads as text.
pub fn token_text(raw: &str) -> (text: Option<String>)
    ensures
        match text {
            Some(found) => token_text_of(raw@) == Some(found@),
            None => token_text_of(raw@) is None,
        },
{
    let given = to_chars(raw);
    let mut chars: Vec<char> = Vec::new();
    let mut i: usize = 0;
    while i < given.len()
        invariant
            i <= given.len(),
            given@ == raw@,
            chars.len() == i,
            forall|k: int| 0 <= k < i ==> chars[k] == spaced(raw@)[k],
        decreases given.len() - i,
    {
        let c = given[i];
        if c == '\u{2581}' {
            chars.push(' ');
        } else {
            chars.push(c);
        }
        i += 1;
    }
    assert(chars@ =~= spaced(raw@));
    let n = chars.len();
    let byte = if n >= 4 && chars[0] == '<' && chars[1] == '0' && chars[2] == 'x' && chars[n - 1]
        == '>' {
        parse_byte(&chars, 3, n - 1)
    } else {
        None
    };
    match byte {
        None => {
            let text = from_chars(&chars, 0, n);
            assert(text@ =~= chars@);
            Some(text)
        },
        Some(b) => {
            if b < 128 {
                let mut text = String::new();
                text.push(b as char);
                assert(text@ =~= seq![b as char]);
                Some(text)
            } else {
                None
            }
        },
    }
}

} // verus!
