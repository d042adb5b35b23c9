//! Reading words and numbers out of accumulated text.

use crate::chars::{decode, is_digit};
use crate::grammar::{decimal_value, keyword, lemma_decimal_value_prefix};
use crate::token::Token;
use vstd::prelude::*;
use vstd::string::StrSliceExecFns;

verus! {

/// `String::push` of the standard library: the character is appended at the
/// end of the string and nothing else changes.
pub assume_specification[ String::push ](s: &mut String, ch: char)
    ensures
        final(s)@ == old(s)@.push(ch),
;

/// Whether two pieces of text hold the same characters.
fn same_text(a: &str, b: &str) -> (same: bool)
    ensures
        same == (a@ == b@),
{
    let n: usize = a.unicode_len();
    if n != b.unicode_len() {
        return false;
    }
    let mut i: usize = 0;
    while i < n
        invariant
            i <= n,
            n == a@.len(),
            n == b@.len(),
            forall|j: int| 0 <= j < i ==> a@[j] == b@[j],
        decreases n - i,
    {
        if a.get_char(i) != b.get_char(i) {
            return false;
        }
        i += 1;
    }
    assert(a@ =~= b@);
    true
}

/// Looks `s` up in the table of keywords.
pub fn parse_keyword(s: &str) -> (found: Option<Token>)
    ensures
        match keyword(s@) {
            Some(token) => found is Some && found->0@ == token,
            None => found is None,
        },
{
    if same_text(s, "let") {
        Some(Token::Let)
    } else if same_text(s, "fn") {
        Some(Token::Function)
    } else if same_text(s, "true") {
        Some(Token::True)
    } else if same_text(s, "false") {
        Some(Token::False)
    } else if same_text(s, "if") {
        Some(Token::If)
    } else if same_text(s, "else") {
        Some(Token::Else)
    } else if same_text(s, "return") {
        Some(Token::Return)
    } else {
        None
    }
}

/// Reads a run of decimal digits as a number.
pub fn parse_number(digits: &str) -> (value: u32)
    requires
        forall|i: int| 0 <= i < digits@.len() ==> is_digit(#[trigger] digits@[i]),
        decimal_value(digits@) <= u32::MAX,
    ensures
        value == decimal_value(digits@),
{
    let chars: Vec<char> = decode(digits);
    let mut value: u32 = 0;
    let mut i: usize = 0;
    assert(chars@.take(0) =~= Seq::<char>::empty());
    while i < chars.len()
        invariant
            i <= chars.len(),
            chars@ == digits@,
            forall|j: int| 0 <= j < chars@.len() ==> is_digit(#[trigger] chars@[j]),
            decimal_value(chars@) <= u32::MAX,
            value == decimal_value(chars@.take(i as int)),
        decreases chars.len() - i,
    {
        let c: char = chars[i];
        proof {
            lemma_decimal_value_prefix(chars@, i + 1);
            assert(chars@.take(i + 1).drop_last() =~= chars@.take(i as int));
            assert(is_digit(chars@[i as int]));
        }
        value = value * 10 + (c as u32 - 0x30);
        i += 1;
    }
    assert(chars@.take(i as int) =~= chars@);
    value
}

} // verus!
