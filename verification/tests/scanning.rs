use monkey_lexer::chars::{decode, is_monkey_digit, is_monkey_letter, is_monkey_whitespace};
use monkey_lexer::lexer::Lexer;
use monkey_lexer::text::{parse_keyword, parse_number};
use monkey_lexer::token::Token;

fn scan_all(input: &str) -> Vec<Token> {
    let mut lexer = Lexer::new(input);
    let mut tokens = Vec::new();
    loop {
        assert!(lexer.next_fits());
        match lexer.next() {
            Some(token) => tokens.push(token),
            None => break,
        }
    }
    assert_eq!(lexer.next(), None);
    tokens
}

fn ident(name: &str) -> Token {
    Token::Ident(String::from(name))
}

#[test]
fn every_symbol_scans_to_its_own_token() {
    assert_eq!(scan_all(";"), vec![Token::Semicolon]);
    assert_eq!(scan_all("("), vec![Token::LParen]);
    assert_eq!(scan_all(")"), vec![Token::RParen]);
    assert_eq!(scan_all(","), vec![Token::Comma]);
    assert_eq!(scan_all("+"), vec![Token::Plus]);
    assert_eq!(scan_all("-"), vec![Token::Minus]);
    assert_eq!(scan_all("*"), vec![Token::Asterisk]);
    assert_eq!(scan_all("/"), vec![Token::Slash]);
    assert_eq!(scan_all(">"), vec![Token::GT]);
    assert_eq!(scan_all("<"), vec![Token::LT]);
    assert_eq!(scan_all("{"), vec![Token::LBrace]);
    assert_eq!(scan_all("}"), vec![Token::RBrace]);
    assert_eq!(scan_all("="), vec![Token::Assign]);
}

#[test]
fn two_character_operators_use_one_character_of_lookahead() {
    assert_eq!(scan_all("=="), vec![Token::Eq]);
    assert_eq!(scan_all("="), vec![Token::Assign]);
    assert_eq!(scan_all("!="), vec![Token::NotEq]);
    assert_eq!(scan_all("!"), vec![Token::Illegal]);
    assert_eq!(scan_all("==="), vec![Token::Eq, Token::Assign]);
    assert_eq!(scan_all("= ="), vec![Token::Assign, Token::Assign]);
    assert_eq!(scan_all("!=="), vec![Token::NotEq, Token::Assign]);
    assert_eq!(scan_all("! ="), vec![Token::Illegal, Token::Assign]);
    assert_eq!(scan_all("!!"), vec![Token::Illegal, Token::Illegal]);
}

#[test]
fn whitespace_between_tokens_changes_nothing() {
    let plain = scan_all("let x=5;x!=y");
    let padded = scan_all(" \t\nlet \n\n x\t=  5 ;\r\nx != \u{a0}y\u{3000} ");
    assert_eq!(plain, padded);
    assert_eq!(
        plain,
        vec![
            Token::Let,
            ident("x"),
            Token::Assign,
            Token::Int(5),
            Token::Semicolon,
            ident("x"),
            Token::NotEq,
            ident("y"),
        ]
    );
}

#[test]
fn keywords_take_precedence_over_identifiers() {
    assert_eq!(scan_all("let"), vec![Token::Let]);
    assert_eq!(scan_all("lets"), vec![ident("lets")]);
    assert_eq!(scan_all("le"), vec![ident("le")]);
    assert_eq!(scan_all("Let"), vec![ident("Let")]);
    assert_eq!(
        scan_all("fn let true false if else return"),
        vec![
            Token::Function,
            Token::Let,
            Token::True,
            Token::False,
            Token::If,
            Token::Else,
            Token::Return,
        ]
    );
}

#[test]
fn identifiers_take_the_longest_run_of_letters() {
    assert_eq!(scan_all("asd_f"), vec![ident("asd_f")]);
    assert_eq!(scan_all("_"), vec![ident("_")]);
    assert_eq!(scan_all("AbZ_az"), vec![ident("AbZ_az")]);
}

#[test]
fn digits_do_not_continue_an_identifier() {
    assert_eq!(scan_all("x1"), vec![ident("x"), Token::Int(1)]);
    assert_eq!(scan_all("1x"), vec![Token::Int(1), ident("x")]);
    assert_eq!(scan_all("if0"), vec![Token::If, Token::Int(0)]);
}

#[test]
fn integers_accumulate_their_digits() {
    assert_eq!(scan_all("123"), vec![Token::Int(123)]);
    assert_eq!(scan_all("1 2"), vec![Token::Int(1), Token::Int(2)]);
    assert_eq!(scan_all("0"), vec![Token::Int(0)]);
    assert_eq!(scan_all("007"), vec![Token::Int(7)]);
    assert_eq!(scan_all("4294967295"), vec![Token::Int(4294967295)]);
    assert_eq!(scan_all("0004294967295"), vec![Token::Int(4294967295)]);
}

#[test]
fn a_function_definition_scans_in_order() {
    assert_eq!(
        scan_all("let stuff = fn(x, y) { return x + y + 3; };"),
        vec![
            Token::Let,
            ident("stuff"),
            Token::Assign,
            Token::Function,
            Token::LParen,
            ident("x"),
            Token::Comma,
            ident("y"),
            Token::RParen,
            Token::LBrace,
            Token::Return,
            ident("x"),
            Token::Plus,
            ident("y"),
            Token::Plus,
            Token::Int(3),
            Token::Semicolon,
            Token::RBrace,
            Token::Semicolon,
        ]
    );
}

#[test]
fn empty_and_blank_input_hold_no_token() {
    assert_eq!(scan_all(""), vec![]);
    assert_eq!(scan_all(" "), vec![]);
    assert_eq!(scan_all(" \t\r\n  \u{b}\u{c}"), vec![]);
    assert_eq!(scan_all("\u{85}\u{1680}\u{2000}\u{200a}\u{2028}\u{2029}\u{202f}\u{205f}"), vec![]);
}

#[test]
fn exhaustion_repeats() {
    let mut lexer = Lexer::new("a ");
    assert_eq!(lexer.next(), Some(ident("a")));
    assert_eq!(lexer.next(), None);
    assert_eq!(lexer.next(), None);
    assert!(lexer.next_fits());
}

#[test]
fn unknown_characters_are_illegal_tokens() {
    assert_eq!(scan_all("@"), vec![Token::Illegal]);
    assert_eq!(scan_all("a@b"), vec![ident("a"), Token::Illegal, ident("b")]);
    assert_eq!(scan_all("\u{e9}"), vec![Token::Illegal]);
    assert_eq!(scan_all("\u{200b}"), vec![Token::Illegal]);
    assert_eq!(scan_all("#$"), vec![Token::Illegal, Token::Illegal]);
}

#[test]
fn a_literal_beyond_32_bits_is_reported() {
    let lexer = Lexer::new("4294967296");
    assert!(!lexer.next_fits());
    let lexer = Lexer::new("  99999999999999999999;");
    assert!(!lexer.next_fits());
    let mut lexer = Lexer::new("x 4294967296");
    assert!(lexer.next_fits());
    assert_eq!(lexer.next(), Some(ident("x")));
    assert!(!lexer.next_fits());
}

#[test]
fn checking_the_next_token_does_not_consume_it() {
    let mut lexer = Lexer::new(" 12 ");
    assert!(lexer.next_fits());
    assert!(lexer.next_fits());
    assert_eq!(lexer.next(), Some(Token::Int(12)));
    assert_eq!(lexer.next(), None);
}

#[test]
fn letters_are_ascii_letters_and_underscore() {
    for c in ['a', 'z', 'A', 'Z', 'm', '_'] {
        assert!(is_monkey_letter(&c));
    }
    for c in ['0', '9', ' ', '@', '[', '`', '{', '\u{e9}', '-'] {
        assert!(!is_monkey_letter(&c));
    }
}

#[test]
fn digits_are_ascii_digits() {
    for c in ['0', '5', '9'] {
        assert!(is_monkey_digit(&c));
    }
    for c in ['/', ':', 'a', ' ', '\u{661}'] {
        assert!(!is_monkey_digit(&c));
    }
}

#[test]
fn whitespace_agrees_with_the_standard_library() {
    let mut code: u32 = 0;
    while code <= 0x10ffff {
        if let Some(c) = char::from_u32(code) {
            assert_eq!(is_monkey_whitespace(&c), c.is_whitespace());
            assert_eq!(is_monkey_letter(&c), c.is_ascii_alphabetic() || c == '_');
            assert_eq!(is_monkey_digit(&c), c.is_ascii_digit());
        }
        code += 1;
    }
}

#[test]
fn keyword_table_is_exact() {
    assert_eq!(parse_keyword("let"), Some(Token::Let));
    assert_eq!(parse_keyword("fn"), Some(Token::Function));
    assert_eq!(parse_keyword("true"), Some(Token::True));
    assert_eq!(parse_keyword("false"), Some(Token::False));
    assert_eq!(parse_keyword("if"), Some(Token::If));
    assert_eq!(parse_keyword("else"), Some(Token::Else));
    assert_eq!(parse_keyword("return"), Some(Token::Return));
    assert_eq!(parse_keyword(""), None);
    assert_eq!(parse_keyword("lets"), None);
    assert_eq!(parse_keyword("LET"), None);
    assert_eq!(parse_keyword("retur"), None);
    assert_eq!(parse_keyword("i"), None);
}

#[test]
fn numbers_are_read_in_base_ten() {
    assert_eq!(parse_number("0"), 0);
    assert_eq!(parse_number("10"), 10);
    assert_eq!(parse_number("0042"), 42);
    assert_eq!(parse_number("4294967295"), 4294967295);
    assert_eq!(parse_number(""), 0);
}

#[test]
fn decoding_keeps_every_character() {
    assert_eq!(decode(""), Vec::<char>::new());
    assert_eq!(decode("a=\u{e9}\u{3000}1"), vec!['a', '=', '\u{e9}', '\u{3000}', '1']);
}
