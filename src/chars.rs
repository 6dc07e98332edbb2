//! Character classes of the scanner. All classes but whitespace are ASCII.

use vstd::prelude::*;
use crate::token::TokenType;

verus! {

/// An ASCII decimal digit.
pub open spec fn digit(c: char) -> bool {
    '0' <= c && c <= '9'
}

/// An ASCII letter.
pub open spec fn letter(c: char) -> bool {
    ('a' <= c && c <= 'z') || ('A' <= c && c <= 'Z')
}

/// The first character of an identifier.
pub open spec fn ident_start(c: char) -> bool {
    letter(c) || c == '_'
}

/// A character that may follow the first one in an identifier.
pub open spec fn ident_continue(c: char) -> bool {
    letter(c) || digit(c) || c == '_'
}

/// A character of a number literal: a digit or a dot.
pub open spec fn number_char(c: char) -> bool {
    digit(c) || c == '.'
}

/// Whitespace: the characters of Unicode's White_Space property (space, tab,
/// line feed, carriage return and the other standard spaces).
pub open spec fn whitespace(c: char) -> bool {
    let u = c as u32;
    (0x09 <= u && u <= 0x0D) || u == 0x20 || u == 0x85 || u == 0xA0 || u == 0x1680
        || (0x2000 <= u && u <= 0x200A) || u == 0x2028 || u == 0x2029 || u == 0x202F
        || u == 0x205F || u == 0x3000
}

/// The kind of the token that a character makes on its own, if it is an
/// operator, a delimiter or a bracket.
pub open spec fn single_kind(c: char) -> Option<TokenType> {
    if c == '+' {
        Some(TokenType::Plus)
    } else if c == '-' {
        Some(TokenType::Minus)
    } else if c == '*' {
        Some(TokenType::Multiply)
    } else if c == '/' {
        Some(TokenType::Divide)
    } else if c == '%' {
        Some(TokenType::Modulo)
    } else if c == '=' {
        Some(TokenType::Assign)
    } else if c == ';' {
        Some(TokenType::Semicolon)
    } else if c == ',' {
        Some(TokenType::Comma)
    } else if c == '.' {
        Some(TokenType::Dot)
    } else if c == '(' {
        Some(TokenType::LeftParen)
    } else if c == ')' {
        Some(TokenType::RightParen)
    } else if c == '{' {
        Some(TokenType::LeftBrace)
    } else if c == '}' {
        Some(TokenType::RightBrace)
    } else if c == '[' {
        Some(TokenType::LeftBracket)
    } else if c == ']' {
        Some(TokenType::RightBracket)
    } else {
        None
    }
}

/// The character that an escape `\c` inside a string literal stands for.
pub open spec fn escape_of(c: char) -> Option<char> {
    if c == 'n' {
        Some('\n')
    } else if c == 't' {
        Some('\t')
    } else if c == 'r' {
        Some('\r')
    } else if c == '\\' {
        Some('\\')
    } else if c == '"' {
        Some('"')
    } else {
        None
    }
}

pub fn is_opening_parenthesis(character: char) -> (r: bool)
    ensures
        r == (character == '('),
{
    character == '('
}

pub fn is_closing_parenthesis(character: char) -> (r: bool)
    ensures
        r == (character == ')'),
{
    character == ')'
}

pub fn is_parenthesis(character: char) -> (r: bool)
    ensures
        r == (character == '(' || character == ')'),
{
    is_opening_parenthesis(character) || is_closing_parenthesis(character)
}

pub fn is_letter(character: char) -> (r: bool)
    ensures
        r == letter(character),
{
    ('a' <= character && character <= 'z') || ('A' <= character && character <= 'Z')
}

pub fn is_whitespace(character: char) -> (r: bool)
    ensures
        r == whitespace(character),
{
    let u = character as u32;
    (0x09 <= u && u <= 0x0D) || u == 0x20 || u == 0x85 || u == 0xA0 || u == 0x1680
        || (0x2000 <= u && u <= 0x200A) || u == 0x2028 || u == 0x2029 || u == 0x202F
        || u == 0x205F || u == 0x3000
}

pub fn is_number(character: char) -> (r: bool)
    ensures
        r == digit(character),
{
    '0' <= character && character <= '9'
}

pub fn is_quote(character: char) -> (r: bool)
    ensures
        r == (character == '"'),
{
    character == '"'
}

pub fn is_operator(character: char) -> (r: bool)
    ensures
        r == (character == '+' || character == '-' || character == '*' || character == '/'
            || character == '%'),
{
    character == '+' || character == '-' || character == '*' || character == '/' || character
        == '%'
}

pub fn is_identifier_start(character: char) -> (r: bool)
    ensures
        r == ident_start(character),
{
    is_letter(character) || character == '_'
}

pub fn is_identifier_continue(character: char) -> (r: bool)
    ensures
        r == ident_continue(character),
{
    is_letter(character) || is_number(character) || character == '_'
}

/// The kind of a one-character token, as `single_kind` gives it.
pub fn single_char_kind(character: char) -> (r: Option<TokenType>)
    ensures
        r == single_kind(character),
{
    match character {
        '+' => Some(TokenType::Plus),
        '-' => Some(TokenType::Minus),
        '*' => Some(TokenType::Multiply),
        '/' => Some(TokenType::Divide),
        '%' => Some(TokenType::Modulo),
        '=' => Some(TokenType::Assign),
        ';' => Some(TokenType::Semicolon),
        ',' => Some(TokenType::Comma),
        '.' => Some(TokenType::Dot),
        '(' => Some(TokenType::LeftParen),
        ')' => Some(TokenType::RightParen),
        '{' => Some(TokenType::LeftBrace),
        '}' => Some(TokenType::RightBrace),
        '[' => Some(TokenType::LeftBracket),
        ']' => Some(TokenType::RightBracket),
        _ => None,
    }
}

/// The character that the escape `\character` stands for, as `escape_of`
/// gives it.
pub fn escaped_char(character: char) -> (r: Option<char>)
    ensures
        r == escape_of(character),
{
    match character {
        'n' => Some('\n'),
        't' => Some('\t'),
        'r' => Some('\r'),
        '\\' => Some('\\'),
        '"' => Some('"'),
        _ => None,
    }
}

} // verus!
