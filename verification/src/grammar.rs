//! The mathematical model of scanning: what the tokens of a text are.

use crate::chars::{digit_value, is_digit, is_letter, CharClass};
use crate::token::TokenModel;
use vstd::prelude::*;

verus! {

/// The end of the longest run of characters of `class` that starts at `from`:
/// the first position at or after `from` that holds a character outside the
/// class, or the length of `s` if there is none.
pub open spec fn run_end(s: Seq<char>, from: int, class: CharClass) -> int
    decreases s.len() - from,
{
    if 0 <= from < s.len() && class.contains(s[from]) {
        run_end(s, from + 1, class)
    } else {
        from
    }
}

/// The value of a sequence of decimal digits, most significant digit first.
pub open spec fn decimal_value(digits: Seq<char>) -> nat
    decreases digits.len(),
{
    if digits.len() == 0 {
        0
    } else {
        10 * decimal_value(digits.drop_last()) + digit_value(digits.last())
    }
}

/// The keyword spelled by `word`, if it is one.
pub open spec fn keyword(word: Seq<char>) -> Option<TokenModel> {
    if word == "let"@ {
        Some(TokenModel::Let)
    } else if word == "fn"@ {
        Some(TokenModel::Function)
    } else if word == "true"@ {
        Some(TokenModel::True)
    } else if word == "false"@ {
        Some(TokenModel::False)
    } else if word == "if"@ {
        Some(TokenModel::If)
    } else if word == "else"@ {
        Some(TokenModel::Else)
    } else if word == "return"@ {
        Some(TokenModel::Return)
    } else {
        None
    }
}

/// The token for a run of letters: its keyword, or else an identifier.
pub open spec fn word_token(word: Seq<char>) -> TokenModel {
    match keyword(word) {
        Some(token) => token,
        None => TokenModel::Ident(word),
    }
}

/// The token of a character that is a token by itself wherever it stands.
pub open spec fn symbol(c: char) -> Option<TokenModel> {
    if c == ';' {
        Some(TokenModel::Semicolon)
    } else if c == '(' {
        Some(TokenModel::LParen)
    } else if c == ')' {
        Some(TokenModel::RParen)
    } else if c == ',' {
        Some(TokenModel::Comma)
    } else if c == '+' {
        Some(TokenModel::Plus)
    } else if c == '-' {
        Some(TokenModel::Minus)
    } else if c == '*' {
        Some(TokenModel::Asterisk)
    } else if c == '/' {
        Some(TokenModel::Slash)
    } else if c == '>' {
        Some(TokenModel::GT)
    } else if c == '<' {
        Some(TokenModel::LT)
    } else if c == '{' {
        Some(TokenModel::LBrace)
    } else if c == '}' {
        Some(TokenModel::RBrace)
    } else {
        None
    }
}

/// A token together with the position just behind its last character.
pub struct Scan {
    pub token: TokenModel,
    pub end: int,
}

/// `s` holds the character `=` at position `at`.
pub open spec fn equals_sign_at(s: Seq<char>, at: int) -> bool {
    0 <= at < s.len() && s[at] == '='
}

/// The token whose first character stands at `start`, for `0 <= start < s.len()`.
pub open spec fn scan_at(s: Seq<char>, start: int) -> Scan {
    let c = s[start];
    if symbol(c) is Some {
        Scan { token: symbol(c)->0, end: start + 1 }
    } else if c == '=' {
        if equals_sign_at(s, start + 1) {
            Scan { token: TokenModel::Eq, end: start + 2 }
        } else {
            Scan { token: TokenModel::Assign, end: start + 1 }
        }
    } else if c == '!' {
        if equals_sign_at(s, start + 1) {
            Scan { token: TokenModel::NotEq, end: start + 2 }
        } else {
            Scan { token: TokenModel::Illegal, end: start + 1 }
        }
    } else if is_letter(c) {
        let end = run_end(s, start + 1, CharClass::Letter);
        Scan { token: word_token(s.subrange(start, end)), end }
    } else if is_digit(c) {
        let end = run_end(s, start + 1, CharClass::Digit);
        Scan { token: TokenModel::Int(decimal_value(s.subrange(start, end))), end }
    } else {
        Scan { token: TokenModel::Illegal, end: start + 1 }
    }
}

/// Where the next token starts when the cursor stands at `pos`: behind the
/// whitespace that begins there.
pub open spec fn token_start(s: Seq<char>, pos: int) -> int {
    run_end(s, pos, CharClass::Whitespace)
}

/// The next token for a cursor at `pos`, or `None` if only whitespace is left.
pub open spec fn next_token(s: Seq<char>, pos: int) -> Option<Scan> {
    let start = token_start(s, pos);
    if 0 <= start < s.len() {
        Some(scan_at(s, start))
    } else {
        None
    }
}

/// The next token is no integer literal, or its value fits in 32 bits.
pub open spec fn literal_fits(s: Seq<char>, pos: int) -> bool {
    match next_token(s, pos) {
        Some(scan) => scan.token matches TokenModel::Int(value) ==> value <= u32::MAX,
        None => true,
    }
}

/// All tokens from a cursor at `pos` to the end of the text, in order.
pub open spec fn token_stream(s: Seq<char>, pos: int) -> Seq<TokenModel>
    decreases s.len() - pos,
    via token_stream_decreases
{
    match next_token(s, pos) {
        Some(scan) => seq![scan.token] + token_stream(s, scan.end),
        None => Seq::empty(),
    }
}

#[via_fn]
proof fn token_stream_decreases(s: Seq<char>, pos: int) {
    lemma_run_end_bounds(s, pos, CharClass::Whitespace);
    let start = token_start(s, pos);
    if 0 <= start < s.len() {
        lemma_scan_at_bounds(s, start);
    }
}

/// A run ends at or after its start and, for a start inside the text, inside
/// the text or at its end.
pub proof fn lemma_run_end_bounds(s: Seq<char>, from: int, class: CharClass)
    ensures
        from <= run_end(s, from, class),
        0 <= from <= s.len() ==> run_end(s, from, class) <= s.len(),
    decreases s.len() - from,
{
    if 0 <= from < s.len() && class.contains(s[from]) {
        lemma_run_end_bounds(s, from + 1, class);
    }
}

/// A run holds only characters of its class, and the character behind it, if
/// there is one, is outside the class.
pub proof fn lemma_run_end_contents(s: Seq<char>, from: int, class: CharClass)
    requires
        0 <= from <= s.len(),
    ensures
        forall|i: int| from <= i < run_end(s, from, class) ==> class.contains(#[trigger] s[i]),
        run_end(s, from, class) < s.len() ==> !class.contains(s[run_end(s, from, class)]),
    decreases s.len() - from,
{
    if from < s.len() && class.contains(s[from]) {
        lemma_run_end_contents(s, from + 1, class);
    }
}

/// A position is the end of the run from `from` if everything before it
/// belongs to the class and what stands at it does not.
pub proof fn lemma_run_end_is(s: Seq<char>, from: int, class: CharClass, end: int)
    requires
        0 <= from <= end <= s.len(),
        forall|i: int| from <= i < end ==> class.contains(#[trigger] s[i]),
        end < s.len() ==> !class.contains(s[end]),
    ensures
        run_end(s, from, class) == end,
    decreases end - from,
{
    if from < end {
        lemma_run_end_is(s, from + 1, class, end);
    }
}

/// The value of the first digits of a number is at most the value of all of
/// them.
pub proof fn lemma_decimal_value_prefix(digits: Seq<char>, n: int)
    requires
        0 <= n <= digits.len(),
    ensures
        decimal_value(digits.take(n)) <= decimal_value(digits),
    decreases digits.len() - n,
{
    if n < digits.len() {
        lemma_decimal_value_prefix(digits, n + 1);
        assert(digits.take(n + 1).drop_last() =~= digits.take(n));
    } else {
        assert(digits.take(n) =~= digits);
    }
}

/// A token is at least one character long and ends inside the text.
pub proof fn lemma_scan_at_bounds(s: Seq<char>, start: int)
    requires
        0 <= start < s.len(),
    ensures
        start < scan_at(s, start).end <= s.len(),
{
    lemma_run_end_bounds(s, start + 1, CharClass::Letter);
    lemma_run_end_bounds(s, start + 1, CharClass::Digit);
}

} // verus!
