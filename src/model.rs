//! The scanner as mathematics: where a run of characters ends, what token a
//! position yields, and the token sequence of a whole input.

use vstd::prelude::*;
use crate::chars::{
    digit, escape_of, ident_continue, ident_start, number_char, single_kind, whitespace,
};
use crate::token::{LexError, TokenSpec, TokenType, word_kind};

verus! {

/// The line of position `i`: one more than the line feeds before it. Past
/// the end of the input it stays that of the end.
pub open spec fn line_at(s: Seq<char>, i: int) -> int
    decreases i,
{
    if i <= 0 {
        1
    } else if i > s.len() {
        line_at(s, s.len() as int)
    } else if s[i - 1] == '\n' {
        line_at(s, i - 1) + 1
    } else {
        line_at(s, i - 1)
    }
}

/// The column of position `i`: 1 at the start and after a line feed, one more
/// after any other character. Past the end of the input it stays that of the
/// end.
pub open spec fn column_at(s: Seq<char>, i: int) -> int
    decreases i,
{
    if i <= 0 {
        1
    } else if i > s.len() {
        column_at(s, s.len() as int)
    } else if s[i - 1] == '\n' {
        1
    } else {
        column_at(s, i - 1) + 1
    }
}

/// The end of the run of whitespace that starts at `i`.
pub open spec fn ws_end(s: Seq<char>, i: int) -> int
    decreases s.len() - i,
{
    if 0 <= i < s.len() && whitespace(s[i]) {
        ws_end(s, i + 1)
    } else {
        i
    }
}

/// The first line feed at or after `i`, or the end of the input.
pub open spec fn line_end(s: Seq<char>, i: int) -> int
    decreases s.len() - i,
{
    if 0 <= i < s.len() && s[i] != '\n' {
        line_end(s, i + 1)
    } else {
        i
    }
}

/// The end of the run of number characters that starts at `i`.
pub open spec fn number_end(s: Seq<char>, i: int) -> int
    decreases s.len() - i,
{
    if 0 <= i < s.len() && number_char(s[i]) {
        number_end(s, i + 1)
    } else {
        i
    }
}

/// The end of the run of identifier characters that starts at `i`.
pub open spec fn ident_end(s: Seq<char>, i: int) -> int
    decreases s.len() - i,
{
    if 0 <= i < s.len() && ident_continue(s[i]) {
        ident_end(s, i + 1)
    } else {
        i
    }
}

/// A comment, `//`, starts at `i`.
pub open spec fn starts_comment(s: Seq<char>, i: int) -> bool {
    0 <= i && i + 1 < s.len() && s[i] == '/' && s[i + 1] == '/'
}

/// The first position at or after `i` that is neither whitespace nor inside a
/// comment. A comment runs from `//` up to the next line feed, which is left
/// as whitespace.
pub open spec fn trivia_end(s: Seq<char>, i: int) -> int
    decreases s.len() - i,
    via trivia_end_decreases
{
    let j = ws_end(s, i);
    if starts_comment(s, j) {
        trivia_end(s, line_end(s, j + 2))
    } else {
        j
    }
}

#[via_fn]
proof fn trivia_end_decreases(s: Seq<char>, i: int) {
    if i >= 0 {
        lemma_ws_end(s, i);
        let j = ws_end(s, i);
        if starts_comment(s, j) {
            lemma_line_end(s, j + 2);
        }
    }
}

/// Reads a string literal's body from `i`, after `acc` was decoded: the
/// decoded contents and the position after the closing quote, or the error.
pub open spec fn string_scan(s: Seq<char>, i: int, acc: Seq<char>) -> Result<
    (Seq<char>, int),
    LexError,
>
    decreases s.len() - i,
{
    if i < 0 || i >= s.len() {
        Err(LexError::UnterminatedString)
    } else if s[i] == '"' {
        Ok((acc, i + 1))
    } else if s[i] == '\\' {
        if i + 1 >= s.len() {
            Err(LexError::UnterminatedEscape)
        } else {
            match escape_of(s[i + 1]) {
                Some(c) => string_scan(s, i + 2, acc.push(c)),
                None => Err(LexError::InvalidEscape(s[i + 1])),
            }
        }
    } else {
        string_scan(s, i + 1, acc.push(s[i]))
    }
}

/// The token that a scan from position `i` yields, with the position after
/// it, or the error that stops the scan.
pub open spec fn scan_at(s: Seq<char>, i: int) -> Result<(TokenSpec, int), LexError> {
    let k = trivia_end(s, i);
    let line = line_at(s, k);
    let column = column_at(s, k);
    if k >= s.len() {
        Ok((TokenSpec { kind: TokenType::EOF, value: seq![], line, column }, k))
    } else if digit(s[k]) {
        let e = number_end(s, k);
        Ok((TokenSpec { kind: TokenType::Number, value: s.subrange(k, e), line, column }, e))
    } else if s[k] == '"' {
        match string_scan(s, k + 1, seq![]) {
            Ok((v, e)) => Ok((TokenSpec { kind: TokenType::String, value: v, line, column }, e)),
            Err(x) => Err(x),
        }
    } else if ident_start(s[k]) {
        let e = ident_end(s, k);
        let w = s.subrange(k, e);
        Ok((TokenSpec { kind: word_kind(w), value: w, line, column }, e))
    } else {
        match single_kind(s[k]) {
            Some(kind) => Ok((TokenSpec { kind, value: seq![s[k]], line, column }, k + 1)),
            None => Err(LexError::UnexpectedCharacter(s[k], line as usize, column as usize)),
        }
    }
}

/// The tokens of a scan from position `i`, after `acc` was produced, up to and
/// including the end-of-input token, or the first error.
pub open spec fn lex_from(s: Seq<char>, i: int, acc: Seq<TokenSpec>) -> Result<
    Seq<TokenSpec>,
    LexError,
>
    decreases s.len() - i,
    via lex_from_decreases
{
    if i < 0 {
        Err(LexError::UnterminatedString)
    } else {
        match scan_at(s, i) {
            Err(e) => Err(e),
            Ok((t, n)) => if t.kind == TokenType::EOF {
                Ok(acc.push(t))
            } else {
                lex_from(s, n, acc.push(t))
            },
        }
    }
}

#[via_fn]
proof fn lex_from_decreases(s: Seq<char>, i: int, acc: Seq<TokenSpec>) {
    if i >= 0 {
        lemma_scan_at(s, i);
    }
}

/// The tokens of a whole input, or the first error.
pub open spec fn lex(s: Seq<char>) -> Result<Seq<TokenSpec>, LexError> {
    lex_from(s, 0, seq![])
}

pub proof fn lemma_ws_end(s: Seq<char>, i: int)
    requires
        0 <= i,
    ensures
        i <= ws_end(s, i),
        i <= s.len() ==> ws_end(s, i) <= s.len(),
        forall|j: int| i <= j < ws_end(s, i) ==> whitespace(#[trigger] s[j]),
        ws_end(s, i) < s.len() ==> !whitespace(s[ws_end(s, i)]),
    decreases s.len() - i,
{
    if 0 <= i < s.len() && whitespace(s[i]) {
        lemma_ws_end(s, i + 1);
    }
}

pub proof fn lemma_line_end(s: Seq<char>, i: int)
    requires
        0 <= i,
    ensures
        i <= line_end(s, i),
        i <= s.len() ==> line_end(s, i) <= s.len(),
        forall|j: int| i <= j < line_end(s, i) ==> #[trigger] s[j] != '\n',
        line_end(s, i) < s.len() ==> s[line_end(s, i)] == '\n',
    decreases s.len() - i,
{
    if 0 <= i < s.len() && s[i] != '\n' {
        lemma_line_end(s, i + 1);
    }
}

pub proof fn lemma_number_end(s: Seq<char>, i: int)
    requires
        0 <= i <= s.len(),
    ensures
        i <= number_end(s, i) <= s.len(),
        forall|j: int| i <= j < number_end(s, i) ==> number_char(#[trigger] s[j]),
        number_end(s, i) < s.len() ==> !number_char(s[number_end(s, i)]),
    decreases s.len() - i,
{
    if 0 <= i < s.len() && number_char(s[i]) {
        lemma_number_end(s, i + 1);
    }
}

pub proof fn lemma_ident_end(s: Seq<char>, i: int)
    requires
        0 <= i <= s.len(),
    ensures
        i <= ident_end(s, i) <= s.len(),
        forall|j: int| i <= j < ident_end(s, i) ==> ident_continue(#[trigger] s[j]),
        ident_end(s, i) < s.len() ==> !ident_continue(s[ident_end(s, i)]),
    decreases s.len() - i,
{
    if 0 <= i < s.len() && ident_continue(s[i]) {
        lemma_ident_end(s, i + 1);
    }
}

pub proof fn lemma_trivia_end(s: Seq<char>, i: int)
    requires
        0 <= i,
    ensures
        i <= trivia_end(s, i),
        i <= s.len() ==> trivia_end(s, i) <= s.len(),
    decreases s.len() - i,
{
    lemma_ws_end(s, i);
    let j = ws_end(s, i);
    if starts_comment(s, j) {
        lemma_line_end(s, j + 2);
        lemma_trivia_end(s, line_end(s, j + 2));
    }
}

pub proof fn lemma_string_scan(s: Seq<char>, i: int, acc: Seq<char>)
    requires
        0 <= i,
    ensures
        string_scan(s, i, acc) matches Ok((v, e)) ==> i < e <= s.len(),
    decreases s.len() - i,
{
    if i < s.len() && s[i] != '"' {
        if s[i] == '\\' {
            if i + 1 < s.len() {
                if let Some(c) = escape_of(s[i + 1]) {
                    lemma_string_scan(s, i + 2, acc.push(c));
                }
            }
        } else {
            lemma_string_scan(s, i + 1, acc.push(s[i]));
        }
    }
}

/// A scan from a position in the input ends inside it, and a token other than
/// the end-of-input token moves past the position.
pub proof fn lemma_scan_at(s: Seq<char>, i: int)
    requires
        0 <= i,
    ensures
        scan_at(s, i) matches Ok((t, n)) ==> (i <= trivia_end(s, i) <= n && (i <= s.len()
            ==> n <= s.len()) && (t.kind != TokenType::EOF ==> i < n)),
{
    lemma_trivia_end(s, i);
    let k = trivia_end(s, i);
    if k < s.len() {
        lemma_number_end(s, k);
        lemma_ident_end(s, k);
        lemma_string_scan(s, k + 1, seq![]);
    }
}

} // verus!
