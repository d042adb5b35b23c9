//! The scanner: a cursor over a source text that hands out one token per call.

use crate::chars::{decode, is_monkey_digit, is_monkey_letter, is_monkey_whitespace, CharClass};
use crate::grammar::{
    decimal_value, lemma_decimal_value_prefix, lemma_run_end_bounds, lemma_run_end_contents,
    lemma_run_end_is, lemma_scan_at_bounds, literal_fits, next_token, run_end, token_start,
};
use crate::text::{parse_keyword, parse_number};
use crate::token::Token;
use vstd::prelude::*;

verus! {

/// A scanner over a borrowed source text.
pub struct Lexer<'a> {
    source: &'a str,
    chars: Vec<char>,
    pos: usize,
}

impl<'a> Lexer<'a> {
    /// The characters of the text that is scanned.
    pub closed spec fn input(&self) -> Seq<char> {
        self.source@
    }

    /// The number of characters consumed so far.
    pub closed spec fn cursor(&self) -> int {
        self.pos as int
    }

    /// The cursor stands inside the text or at its end.
    pub closed spec fn wf(&self) -> bool {
        &&& self.chars@ == self.source@
        &&& self.pos <= self.chars.len()
    }

    /// A scanner at the start of `input`.
    pub fn new(input: &'a str) -> (lexer: Self)
        ensures
            lexer.wf(),
            lexer.input() == input@,
            lexer.cursor() == 0,
    {
        Lexer { source: input, chars: decode(input), pos: 0 }
    }

    /// The character under the cursor, which stays where it is.
    fn peek(&self) -> (c: Option<char>)
        requires
            self.wf(),
        ensures
            c == if self.cursor() < self.input().len() {
                Some(self.input()[self.cursor()])
            } else {
                None
            },
    {
        if self.pos < self.chars.len() {
            Some(self.chars[self.pos])
        } else {
            None
        }
    }

    /// Collects `start_with` and the characters from the cursor on for as
    /// long as `test` accepts them, and moves the cursor behind them.
    fn accumulate_while<F: Fn(&char) -> bool>(&mut self, test: F, start_with: char) -> (acc: String)
        requires
            old(self).wf(),
            forall|c: char| call_requires(test, (&c,)),
        ensures
            final(self).wf(),
            final(self).input() == old(self).input(),
            old(self).cursor() <= final(self).cursor() <= old(self).input().len(),
            acc@ == seq![start_with] + old(self).input().subrange(
                old(self).cursor(),
                final(self).cursor(),
            ),
            forall|i: int|
                old(self).cursor() <= i < final(self).cursor() ==> call_ensures(
                    test,
                    (&#[trigger] old(self).input()[i],),
                    true,
                ),
            final(self).cursor() < old(self).input().len() ==> call_ensures(
                test,
                (&old(self).input()[final(self).cursor()],),
                false,
            ),
    {
        let mut acc = String::new();
        acc.push(start_with);
        let ghost from = self.cursor();
        loop
            invariant
                self.wf(),
                self.input() == old(self).input(),
                from == old(self).cursor(),
                from <= self.cursor() <= self.input().len(),
                acc@ == seq![start_with] + self.input().subrange(from, self.cursor()),
                forall|c: char| call_requires(test, (&c,)),
                forall|i: int|
                    from <= i < self.cursor() ==> call_ensures(
                        test,
                        (&#[trigger] self.input()[i],),
                        true,
                    ),
            ensures
                self.cursor() < self.input().len() ==> call_ensures(
                    test,
                    (&self.input()[self.cursor()],),
                    false,
                ),
            decreases self.input().len() - self.cursor(),
        {
            match self.peek() {
                Some(peek_c) => {
                    if !test(&peek_c) {
                        break ;
                    }
                    acc.push(peek_c);
                    assert(self.input().subrange(from, self.cursor() + 1)
                        =~= self.input().subrange(from, self.cursor()).push(peek_c));
                    self.pos += 1;
                },
                None => {
                    break ;
                },
            }
        }
        acc
    }

    /// Whether `next` can be called: the next token is no integer literal
    /// too large for 32 bits. The cursor stays where it is.
    pub fn next_fits(&self) -> (fits: bool)
        requires
            self.wf(),
        ensures
            fits == literal_fits(self.input(), self.cursor()),
    {
        let ghost s = self.input();
        let mut i: usize = self.pos;
        while i < self.chars.len() && is_monkey_whitespace(&self.chars[i])
            invariant
                self.wf(),
                self.input() == s,
                self.cursor() <= i <= s.len(),
                forall|j: int|
                    self.cursor() <= j < i ==> CharClass::Whitespace.contains(#[trigger] s[j]),
            decreases self.chars.len() - i,
        {
            i += 1;
        }
        proof {
            lemma_run_end_is(s, self.cursor(), CharClass::Whitespace, i as int);
        }
        if i >= self.chars.len() || !is_monkey_digit(&self.chars[i]) {
            return true;
        }
        let start: usize = i;
        let ghost end = run_end(s, start + 1, CharClass::Digit);
        let mut value: u32 = 0;
        proof {
            lemma_run_end_bounds(s, start + 1, CharClass::Digit);
            lemma_run_end_contents(s, start + 1, CharClass::Digit);
            assert(s.subrange(start as int, start as int) =~= Seq::<char>::empty());
        }
        while i < self.chars.len() && is_monkey_digit(&self.chars[i])
            invariant
                self.wf(),
                self.input() == s,
                start < s.len(),
                start <= i <= s.len(),
                run_end(s, self.cursor(), CharClass::Whitespace) == start,
                CharClass::Digit.contains(s[start as int]),
                end == run_end(s, start + 1, CharClass::Digit),
                forall|j: int| start <= j < i ==> CharClass::Digit.contains(#[trigger] s[j]),
                forall|j: int| start + 1 <= j < end ==> CharClass::Digit.contains(#[trigger] s[j]),
                end < s.len() ==> !CharClass::Digit.contains(s[end]),
                start + 1 <= end <= s.len(),
                value == decimal_value(s.subrange(start as int, i as int)),
            decreases self.chars.len() - i,
        {
            let digit: u32 = self.chars[i] as u32 - 0x30;
            proof {
                assert(CharClass::Digit.contains(s[i as int]));
                assert(i < end);
                assert(s.subrange(start as int, i + 1).drop_last() =~= s.subrange(
                    start as int,
                    i as int,
                ));
                assert(s.subrange(start as int, end).take(i + 1 - start) =~= s.subrange(
                    start as int,
                    i + 1,
                ));
                lemma_decimal_value_prefix(s.subrange(start as int, end), i + 1 - start);
                assert(decimal_value(s.subrange(start as int, i + 1)) == 10 * value + digit);
            }
            if value > (u32::MAX - digit) / 10 {
                return false;
            }
            value = value * 10 + digit;
            i += 1;
        }
        proof {
            assert(i == end);
        }
        true
    }

    /// Skips whitespace, then reads one token and moves the cursor behind it.
    /// Returns `None`, with the cursor at the end, when only whitespace was
    /// left.
    pub fn next(&mut self) -> (tok: Option<Token>)
        requires
            old(self).wf(),
            literal_fits(old(self).input(), old(self).cursor()),
        ensures
            final(self).wf(),
            final(self).input() == old(self).input(),
            old(self).cursor() <= final(self).cursor() <= old(self).input().len(),
            tok is Some ==> old(self).cursor() < final(self).cursor(),
            match next_token(old(self).input(), old(self).cursor()) {
                Some(scan) => tok is Some && tok->0@ == scan.token && final(self).cursor()
                    == scan.end,
                None => tok is None && final(self).cursor() == old(self).input().len(),
            },
    {
        let ghost s = self.input();
        let ghost from = self.cursor();
        proof {
            lemma_run_end_bounds(s, from, CharClass::Whitespace);
            if token_start(s, from) < s.len() {
                lemma_scan_at_bounds(s, token_start(s, from));
            }
        }
        while self.pos < self.chars.len() && is_monkey_whitespace(&self.chars[self.pos])
            invariant
                self.wf(),
                self.input() == s,
                from <= self.cursor(),
                forall|i: int|
                    from <= i < self.cursor() ==> CharClass::Whitespace.contains(#[trigger] s[i]),
            decreases self.chars.len() - self.pos,
        {
            self.pos += 1;
        }
        proof {
            lemma_run_end_is(s, from, CharClass::Whitespace, self.cursor());
        }
        if self.pos >= self.chars.len() {
            return None;
        }
        let ghost start = self.cursor();
        let c: char = self.chars[self.pos];
        self.pos += 1;
        match c {
            ';' => Some(Token::Semicolon),
            '(' => Some(Token::LParen),
            ')' => Some(Token::RParen),
            ',' => Some(Token::Comma),
            '+' => Some(Token::Plus),
            '-' => Some(Token::Minus),
            '*' => Some(Token::Asterisk),
            '/' => Some(Token::Slash),
            '>' => Some(Token::GT),
            '<' => Some(Token::LT),
            '{' => Some(Token::LBrace),
            '}' => Some(Token::RBrace),
            '=' => {
                if self.peek() == Some('=') {
                    self.pos += 1;
                    Some(Token::Eq)
                } else {
                    Some(Token::Assign)
                }
            },
            '!' => {
                if self.peek() == Some('=') {
                    self.pos += 1;
                    Some(Token::NotEq)
                } else {
                    Some(Token::Illegal)
                }
            },
            c_ => {
                if is_monkey_letter(&c_) {
                    let ident_str = self.accumulate_while(is_monkey_letter, c_);
                    proof {
                        lemma_run_end_is(s, start + 1, CharClass::Letter, self.cursor());
                        assert(ident_str@ =~= s.subrange(start, self.cursor()));
                    }
                    match parse_keyword(ident_str.as_str()) {
                        Some(keyword) => Some(keyword),
                        None => Some(Token::Ident(ident_str)),
                    }
                } else if is_monkey_digit(&c_) {
                    let num_str = self.accumulate_while(is_monkey_digit, c_);
                    proof {
                        lemma_run_end_is(s, start + 1, CharClass::Digit, self.cursor());
                        assert(num_str@ =~= s.subrange(start, self.cursor()));
                    }
                    let num = parse_number(num_str.as_str());
                    Some(Token::Int(num))
                } else {
                    Some(Token::Illegal)
                }
            },
        }
    }
}

} // verus!
