use monkey_lexer::lexer::Lexer;
use monkey_lexer::token::Token;

#[test]
fn test_test() {
    println!("I'm a test of the tests");
}

#[test]
fn test_lexer_single_chars() {
    let mut l = Lexer::new("{}+=");
    assert_eq!(l.next(), Some(Token::LBrace));
    assert_eq!(l.next(), Some(Token::RBrace));
    assert_eq!(l.next(), Some(Token::Plus));
    assert_eq!(l.next(), Some(Token::Assign));
    assert_eq!(l.next(), None);
}

#[test]
fn test_lexer_ident() {
    let mut l = Lexer::new("{}+=asd_f=");
    assert_eq!(l.next(), Some(Token::LBrace));
    assert_eq!(l.next(), Some(Token::RBrace));
    assert_eq!(l.next(), Some(Token::Plus));
    assert_eq!(l.next(), Some(Token::Assign));
    assert_eq!(l.next(), Some(Token::Ident(String::from("asd_f"))));
    assert_eq!(l.next(), Some(Token::Assign));
    assert_eq!(l.next(), None);

    let mut l = Lexer::new("{}+=asd_f");
    assert_eq!(l.next(), Some(Token::LBrace));
    assert_eq!(l.next(), Some(Token::RBrace));
    assert_eq!(l.next(), Some(Token::Plus));
    assert_eq!(l.next(), Some(Token::Assign));
    assert_eq!(l.next(), Some(Token::Ident(String::from("asd_f"))));
    assert_eq!(l.next(), None);
}

#[test]
fn test_eat_whitespace() {
    let mut l = Lexer::new("  {}   +=asd_f  =  ");
    assert_eq!(l.next(), Some(Token::LBrace));
    assert_eq!(l.next(), Some(Token::RBrace));
    assert_eq!(l.next(), Some(Token::Plus));
    assert_eq!(l.next(), Some(Token::Assign));
    assert_eq!(l.next(), Some(Token::Ident(String::from("asd_f"))));
    assert_eq!(l.next(), Some(Token::Assign));
    assert_eq!(l.next(), None);
}

#[test]
fn test_some_code() {
    let mut l = Lexer::new("
      let stuff = fn(x, y) {
        return x + y + 3;
      };
    ");
    assert_eq!(l.next(), Some(Token::Let));
    assert_eq!(l.next(), Some(Token::Ident(String::from("stuff"))));
    assert_eq!(l.next(), Some(Token::Assign));
    assert_eq!(l.next(), Some(Token::Function));
    assert_eq!(l.next(), Some(Token::LParen));
    assert_eq!(l.next(), Some(Token::Ident(String::from("x"))));
    assert_eq!(l.next(), Some(Token::Comma));
    assert_eq!(l.next(), Some(Token::Ident(String::from("y"))));
    assert_eq!(l.next(), Some(Token::RParen));
    assert_eq!(l.next(), Some(Token::LBrace));
    assert_eq!(l.next(), Some(Token::Return));
    assert_eq!(l.next(), Some(Token::Ident(String::from("x"))));
    assert_eq!(l.next(), Some(Token::Plus));
    assert_eq!(l.next(), Some(Token::Ident(String::from("y"))));
    assert_eq!(l.next(), Some(Token::Plus));
    assert_eq!(l.next(), Some(Token::Int(3)));
    assert_eq!(l.next(), Some(Token::Semicolon));
    assert_eq!(l.next(), Some(Token::RBrace));
    assert_eq!(l.next(), Some(Token::Semicolon));
    assert_eq!(l.next(), None);
}
