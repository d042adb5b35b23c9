//! Character classes of the language, and decoding of text into characters.

use vstd::prelude::*;
use vstd::std_specs::iter::IteratorSpec;

verus! {

broadcast use vstd::string::group_string_axioms;

/// The three classes of characters that form runs in the source text.
#[derive(Clone, Copy, Debug, PartialEq, Eq, Structural)]
pub enum CharClass {
    /// ASCII letters and the underscore.
    Letter,
    /// ASCII decimal digits.
    Digit,
    /// Characters with the Unicode `White_Space` property.
    Whitespace,
}

/// `c` may appear in an identifier or keyword: an ASCII letter or `_`.
pub open spec fn is_letter(c: char) -> bool {
    ('a' <= c && c <= 'z') || ('A' <= c && c <= 'Z') || c == '_'
}

/// `c` is one of the ASCII digits `0` to `9`.
pub open spec fn is_digit(c: char) -> bool {
    '0' <= c && c <= '9'
}

/// `c` has the Unicode `White_Space` property.
pub open spec fn is_whitespace(c: char) -> bool {
    let n = c as u32;
    ||| (0x09 <= n && n <= 0x0d)
    ||| n == 0x20
    ||| n == 0x85
    ||| n == 0xa0
    ||| n == 0x1680
    ||| (0x2000 <= n && n <= 0x200a)
    ||| n == 0x2028
    ||| n == 0x2029
    ||| n == 0x202f
    ||| n == 0x205f
    ||| n == 0x3000
}

impl CharClass {
    /// Membership of a character in the class.
    pub open spec fn contains(self, c: char) -> bool {
        match self {
            CharClass::Letter => is_letter(c),
            CharClass::Digit => is_digit(c),
            CharClass::Whitespace => is_whitespace(c),
        }
    }
}

/// The numeric value of a decimal digit character.
pub open spec fn digit_value(c: char) -> nat {
    (c as u32 - 0x30) as nat
}

/// Whether `c` may appear in an identifier or keyword.
pub fn is_monkey_letter(c: &char) -> (r: bool)
    ensures
        r == is_letter(*c),
{
    let c: char = *c;
    ('a' <= c && c <= 'z') || ('A' <= c && c <= 'Z') || c == '_'
}

/// Whether `c` may appear in an integer literal.
pub fn is_monkey_digit(c: &char) -> (r: bool)
    ensures
        r == is_digit(*c),
{
    let c: char = *c;
    '0' <= c && c <= '9'
}

/// Whether `c` separates tokens without being one.
pub fn is_monkey_whitespace(c: &char) -> (r: bool)
    ensures
        r == is_whitespace(*c),
{
    let n: u32 = *c as u32;
    (0x09 <= n && n <= 0x0d) || n == 0x20 || n == 0x85 || n == 0xa0 || n == 0x1680 || (0x2000 <= n
        && n <= 0x200a) || n == 0x2028 || n == 0x2029 || n == 0x202f || n == 0x205f || n == 0x3000
}

/// Decodes a string slice into the vector of its characters.
pub fn decode(text: &str) -> (out: Vec<char>)
    ensures
        out@ == text@,
{
    let mut out: Vec<char> = Vec::new();
    let mut rest = text.chars();
    loop
        invariant
            out@ + rest.remaining() == text@,
            rest.decrease() is Some,
        ensures
            out@ =~= text@,
        decreases rest.decrease()->0,
    {
        match rest.next() {
            Some(c) => {
                out.push(c);
            },
            None => {
                break ;
            },
        }
    }
    out
}

} // verus!
