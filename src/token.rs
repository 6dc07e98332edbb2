//! Tokens, their kinds, the reserved words and the scanner's errors.

use vstd::prelude::*;

verus! {

/// The closed set of token kinds.
#[derive(Debug, Clone, Copy, PartialEq, Eq, Structural)]
pub enum TokenType {
    Number,
    String,
    Identifier,
    Plus,
    Minus,
    Multiply,
    Divide,
    Modulo,
    Assign,
    Semicolon,
    Comma,
    Dot,
    LeftParen,
    RightParen,
    LeftBrace,
    RightBrace,
    LeftBracket,
    RightBracket,
    Let,
    Print,
    If,
    Else,
    While,
    For,
    Function,
    Return,
    EOF,
}

/// A classified lexeme with the 1-based line and column of its first
/// character. For a string literal `value` holds the decoded contents.
#[derive(Debug, Clone)]
pub struct Token {
    pub token_type: TokenType,
    pub value: String,
    pub line: usize,
    pub column: usize,
}

/// The mathematical content of a token.
pub struct TokenSpec {
    pub kind: TokenType,
    pub value: Seq<char>,
    pub line: int,
    pub column: int,
}

impl View for Token {
    type V = TokenSpec;

    open spec fn view(&self) -> TokenSpec {
        TokenSpec {
            kind: self.token_type,
            value: self.value@,
            line: self.line as int,
            column: self.column as int,
        }
    }
}

/// Why a scan stopped.
#[derive(Debug, Clone, Copy, PartialEq, Eq, Structural)]
pub enum LexError {
    /// No rule matches the character; its line and column.
    UnexpectedCharacter(char, usize, usize),
    /// The input ended inside a string literal.
    UnterminatedString,
    /// The character after a backslash in a string literal is not one of
    /// `n`, `t`, `r`, `\` and `"`.
    InvalidEscape(char),
    /// The input ended right after a backslash in a string literal.
    UnterminatedEscape,
}

/// The reserved words, each with its kind, in the order of the keyword table.
pub open spec fn keyword_table() -> Seq<(Seq<char>, TokenType)> {
    seq![
        (seq!['l', 'e', 't'], TokenType::Let),
        (seq!['p', 'r', 'i', 'n', 't'], TokenType::Print),
        (seq!['i', 'f'], TokenType::If),
        (seq!['e', 'l', 's', 'e'], TokenType::Else),
        (seq!['w', 'h', 'i', 'l', 'e'], TokenType::While),
        (seq!['f', 'o', 'r'], TokenType::For),
        (seq!['f', 'u', 'n', 'c', 't', 'i', 'o', 'n'], TokenType::Function),
        (seq!['r', 'e', 't', 'u', 'r', 'n'], TokenType::Return),
    ]
}

/// The kind of the first entry of `table` from index `i` on whose word is `w`.
pub open spec fn lookup_from(table: Seq<(Seq<char>, TokenType)>, w: Seq<char>, i: int) -> Option<
    TokenType,
>
    decreases table.len() - i,
{
    if i < 0 || i >= table.len() {
        None
    } else if table[i].0 == w {
        Some(table[i].1)
    } else {
        lookup_from(table, w, i + 1)
    }
}

/// The kind of an identifier lexeme: its keyword kind if it is a reserved
/// word, else `Identifier`.
pub open spec fn word_kind(w: Seq<char>) -> TokenType {
    match lookup_from(keyword_table(), w, 0) {
        Some(k) => k,
        None => TokenType::Identifier,
    }
}

} // verus!
