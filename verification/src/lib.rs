//! A pull-based tokenizer for a small C-like scripting language.
//!
//! [`lexer::Lexer`] is the executable scanner. What it computes is defined
//! by the mathematical model in [`grammar`]; [`laws`] proves general facts
//! about that model, such as the transparency of whitespace.

pub mod chars;
pub mod grammar;
pub mod laws;
pub mod lexer;
pub mod text;
pub mod token;
