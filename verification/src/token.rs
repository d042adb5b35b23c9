//! Tokens and their mathematical model.

use vstd::prelude::*;

verus! {

/// A lexical token of the language.
#[derive(Debug, PartialEq, Eq)]
pub enum Token {
    Illegal,
    EOF,
    Ident(String),
    Int(u32),
    Assign,
    Plus,
    Minus,
    Asterisk,
    Slash,
    GT,
    LT,
    Comma,
    Semicolon,
    LParen,
    RParen,
    LBrace,
    RBrace,
    Eq,
    NotEq,
    Function,
    Let,
    True,
    False,
    If,
    Else,
    Return,
}

/// What a token is, independent of how it is stored: an identifier is the
/// sequence of its characters and an integer literal is its value.
pub enum TokenModel {
    Illegal,
    EOF,
    Ident(Seq<char>),
    Int(nat),
    Assign,
    Plus,
    Minus,
    Asterisk,
    Slash,
    GT,
    LT,
    Comma,
    Semicolon,
    LParen,
    RParen,
    LBrace,
    RBrace,
    Eq,
    NotEq,
    Function,
    Let,
    True,
    False,
    If,
    Else,
    Return,
}

impl View for Token {
    type V = TokenModel;

    open spec fn view(&self) -> TokenModel {
        match self {
            Token::Illegal => TokenModel::Illegal,
            Token::EOF => TokenModel::EOF,
            Token::Ident(name) => TokenModel::Ident(name@),
            Token::Int(value) => TokenModel::Int(*value as nat),
            Token::Assign => TokenModel::Assign,
            Token::Plus => TokenModel::Plus,
            Token::Minus => TokenModel::Minus,
            Token::Asterisk => TokenModel::Asterisk,
            Token::Slash => TokenModel::Slash,
            Token::GT => TokenModel::GT,
            Token::LT => TokenModel::LT,
            Token::Comma => TokenModel::Comma,
            Token::Semicolon => TokenModel::Semicolon,
            Token::LParen => TokenModel::LParen,
            Token::RParen => TokenModel::RParen,
            Token::LBrace => TokenModel::LBrace,
            Token::RBrace => TokenModel::RBrace,
            Token::Eq => TokenModel::Eq,
            Token::NotEq => TokenModel::NotEq,
            Token::Function => TokenModel::Function,
            Token::Let => TokenModel::Let,
            Token::True => TokenModel::True,
            Token::False => TokenModel::False,
            Token::If => TokenModel::If,
            Token::Else => TokenModel::Else,
            Token::Return => TokenModel::Return,
        }
    }
}

} // verus!
