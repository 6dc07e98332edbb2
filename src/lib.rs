//! Scanner for a small imperative scripting language: it turns source text
//! into a stream of classified tokens, each with its lexeme and position.

pub mod chars;
pub mod token;
pub mod model;
pub mod lexer;
pub mod laws;

pub use chars::{
    escaped_char, is_closing_parenthesis, is_identifier_continue, is_identifier_start,
    is_letter, is_number, is_opening_parenthesis, is_operator, is_parenthesis, is_quote,
    is_whitespace, single_char_kind,
};
pub use lexer::Lexer;
pub use token::{LexError, Token, TokenType};
