//! Laws of the scanner, stated over the model and proved.

use vstd::prelude::*;
use crate::chars::{digit, escape_of, ident_continue, ident_start, number_char, whitespace};
use crate::model::{
    column_at, ident_end, lemma_ident_end, lemma_number_end, lemma_scan_at, lemma_string_scan,
    lemma_line_end, lemma_trivia_end, lemma_ws_end, lex, lex_from, line_at, line_end,
    number_end, scan_at, starts_comment, string_scan, trivia_end, ws_end,
};
use crate::token::{keyword_table, lookup_from, word_kind, LexError, TokenSpec, TokenType};

verus! {

/// The position reached from `(line, column)` by reading `text`: a line feed
/// moves to column 1 of the next line, any other character one column on.
pub open spec fn pos_after(line: int, column: int, text: Seq<char>) -> (int, int)
    decreases text.len(),
{
    if text.len() == 0 {
        (line, column)
    } else {
        let (l, c) = pos_after(line, column, text.drop_last());
        if text.last() == '\n' {
            (l + 1, 1)
        } else {
            (l, c + 1)
        }
    }
}

/// The reserved word that `w` is, with its kind.
pub open spec fn reserved_kind(w: Seq<char>) -> Option<TokenType> {
    if w == seq!['l', 'e', 't'] {
        Some(TokenType::Let)
    } else if w == seq!['p', 'r', 'i', 'n', 't'] {
        Some(TokenType::Print)
    } else if w == seq!['i', 'f'] {
        Some(TokenType::If)
    } else if w == seq!['e', 'l', 's', 'e'] {
        Some(TokenType::Else)
    } else if w == seq!['w', 'h', 'i', 'l', 'e'] {
        Some(TokenType::While)
    } else if w == seq!['f', 'o', 'r'] {
        Some(TokenType::For)
    } else if w == seq!['f', 'u', 'n', 'c', 't', 'i', 'o', 'n'] {
        Some(TokenType::Function)
    } else if w == seq!['r', 'e', 't', 'u', 'r', 'n'] {
        Some(TokenType::Return)
    } else {
        None
    }
}

proof fn lemma_lex_from_eof(s: Seq<char>, i: int, acc: Seq<TokenSpec>)
    requires
        0 <= i <= s.len(),
        forall|j: int| 0 <= j < acc.len() ==> (#[trigger] acc[j]).kind != TokenType::EOF,
    ensures
        lex_from(s, i, acc) matches Ok(ts) ==> {
            &&& ts.len() > acc.len()
            &&& ts.last().kind == TokenType::EOF
            &&& forall|j: int| 0 <= j < ts.len() - 1 ==> (#[trigger] ts[j]).kind != TokenType::EOF
        },
    decreases s.len() - i,
{
    lemma_scan_at(s, i);
    if let Ok((t, n)) = scan_at(s, i) {
        if t.kind != TokenType::EOF {
            let acc2 = acc.push(t);
            assert forall|j: int| 0 <= j < acc2.len() implies (#[trigger] acc2[j]).kind
                != TokenType::EOF by {
                if j < acc.len() {
                    assert(acc2[j] == acc[j]);
                }
            }
            lemma_lex_from_eof(s, n, acc2);
        }
    }
}

/// A successful scan ends in exactly one end-of-input token, and no other
/// token is one.
pub proof fn lemma_single_eof(s: Seq<char>)
    ensures
        lex(s) matches Ok(ts) ==> {
            &&& ts.len() > 0
            &&& ts.last().kind == TokenType::EOF
            &&& forall|j: int| 0 <= j < ts.len() - 1 ==> (#[trigger] ts[j]).kind != TokenType::EOF
        },
{
    lemma_lex_from_eof(s, 0, seq![]);
}

/// Each token stands for the text it was read from: whitespace and comments
/// come first, then the lexeme. Outside string literals the lexeme is the
/// token's value; a string literal's lexeme is its quoted source form; the
/// end-of-input token stands at the end of the input.
pub proof fn lemma_lexeme_spans(s: Seq<char>, i: int)
    requires
        0 <= i <= s.len(),
    ensures
        scan_at(s, i) matches Ok((t, n)) ==> {
            let k = trivia_end(s, i);
            &&& i <= k <= n <= s.len()
            &&& s.subrange(i, n) == s.subrange(i, k) + s.subrange(k, n)
            &&& t.kind == TokenType::EOF ==> k == n && n == s.len() && t.value.len() == 0
            &&& t.kind != TokenType::EOF && t.kind != TokenType::String ==> t.value == s.subrange(
                k,
                n,
            ) && t.value.len() > 0
            &&& t.kind == TokenType::String ==> k + 2 <= n && s[k] == '"' && s[n - 1] == '"'
        },
{
    lemma_scan_at(s, i);
    lemma_trivia_end(s, i);
    let k = trivia_end(s, i);
    if let Ok((t, n)) = scan_at(s, i) {
        assert(s.subrange(i, n) =~= s.subrange(i, k) + s.subrange(k, n));
        if k < s.len() {
            lemma_keyword_exact(s.subrange(k, ident_end(s, k)));
            if digit(s[k]) {
                lemma_number_end(s, k + 1);
                assert(number_end(s, k) == number_end(s, k + 1));
            } else if ident_start(s[k]) {
                lemma_ident_end(s, k + 1);
                assert(ident_end(s, k) == ident_end(s, k + 1));
            } else if s[k] != '"' {
                assert(t.value =~= s.subrange(k, n));
            }
        }
        if t.kind == TokenType::String {
            lemma_string_close(s, k + 1, seq![]);
        }
    }
}

proof fn lemma_string_close(s: Seq<char>, i: int, acc: Seq<char>)
    requires
        0 <= i,
    ensures
        string_scan_ok_end(s, i, acc),
    decreases s.len() - i,
{
    if 0 <= i < s.len() && s[i] != '"' {
        if s[i] == '\\' {
            if i + 1 < s.len() {
                if let Some(c) = escape_of(s[i + 1]) {
                    lemma_string_close(s, i + 2, acc.push(c));
                }
            }
        } else {
            lemma_string_close(s, i + 1, acc.push(s[i]));
        }
    }
}

/// A string literal body read from `i` ends just after a closing quote.
spec fn string_scan_ok_end(s: Seq<char>, i: int, acc: Seq<char>) -> bool {
    string_scan(s, i, acc) matches Ok((v, e)) ==> i < e <= s.len() && s[e - 1]
        == '"'
}

/// Reading the text from position `k` to position `n` moves from the line and
/// column of `k` to those of `n`.
pub proof fn lemma_pos_after(s: Seq<char>, k: int, n: int)
    requires
        0 <= k <= n <= s.len(),
    ensures
        pos_after(line_at(s, k), column_at(s, k), s.subrange(k, n)) == (
            line_at(s, n),
            column_at(s, n),
        ),
    decreases n - k,
{
    if n > k {
        lemma_pos_after(s, k, n - 1);
        assert(s.subrange(k, n).drop_last() =~= s.subrange(k, n - 1));
    } else {
        assert(s.subrange(k, n) =~= Seq::<char>::empty());
    }
}

/// When a token B follows a token A with no whitespace or comment between
/// them, B starts where reading A's lexeme from A's position ends; outside
/// string literals A's lexeme is its value.
pub proof fn lemma_adjacent_tokens(s: Seq<char>, i: int)
    requires
        0 <= i <= s.len(),
    ensures
        scan_at(s, i) matches Ok((a, n)) ==> (a.kind != TokenType::EOF && trivia_end(s, n) == n
            ==> (scan_at(s, n) matches Ok((b, m)) ==> {
            &&& (b.line, b.column) == pos_after(
                a.line,
                a.column,
                s.subrange(trivia_end(s, i), n),
            )
            &&& a.kind != TokenType::String ==> (b.line, b.column) == pos_after(
                a.line,
                a.column,
                a.value,
            )
            &&& a.kind != TokenType::String ==> b.line == a.line && b.column == a.column
                + a.value.len()
        })),
{
    lemma_lexeme_spans(s, i);
    lemma_trivia_end(s, i);
    if let Ok((a, n)) = scan_at(s, i) {
        lemma_pos_after(s, trivia_end(s, i), n);
        if a.kind != TokenType::String {
            lemma_value_no_line_feed(s, i);
            lemma_pos_after_flat(a.line, a.column, a.value);
        }
    }
}

/// Reading text without a line feed stays on the line and moves the column
/// by the text's length.
proof fn lemma_pos_after_flat(line: int, column: int, text: Seq<char>)
    requires
        forall|j: int| 0 <= j < text.len() ==> #[trigger] text[j] != '\n',
    ensures
        pos_after(line, column, text) == (line, column + text.len()),
    decreases text.len(),
{
    if text.len() > 0 {
        let init = text.drop_last();
        assert forall|j: int| 0 <= j < init.len() implies #[trigger] init[j] != '\n' by {
            assert(init[j] == text[j]);
        }
        lemma_pos_after_flat(line, column, init);
        assert(text.last() == text[text.len() - 1]);
    }
}

/// The value of a token other than a string literal holds no line feed.
proof fn lemma_value_no_line_feed(s: Seq<char>, i: int)
    requires
        0 <= i <= s.len(),
    ensures
        scan_at(s, i) matches Ok((t, n)) ==> (t.kind != TokenType::String ==> forall|j: int|
            0 <= j < t.value.len() ==> #[trigger] t.value[j] != '\n'),
{
    lemma_trivia_end(s, i);
    let k = trivia_end(s, i);
    if k < s.len() {
        lemma_number_end(s, k);
        lemma_ident_end(s, k);
        lemma_keyword_exact(s.subrange(k, ident_end(s, k)));
        if let Ok((t, n)) = scan_at(s, i) {
            if t.kind != TokenType::String {
                assert forall|j: int| 0 <= j < t.value.len() implies #[trigger] t.value[j]
                    != '\n' by {
                    if digit(s[k]) {
                        assert(t.value[j] == s[k + j]);
                        assert(number_char(s[k + j]));
                    } else if ident_start(s[k]) {
                        assert(t.value[j] == s[k + j]);
                        assert(ident_continue(s[k + j]));
                    }
                }
            }
        }
    }
}

/// Reserved words are recognised exactly: an identifier lexeme that is a
/// reserved word has the word's kind, and any other is an `Identifier`.
pub proof fn lemma_keyword_exact(w: Seq<char>)
    ensures
        word_kind(w) == (match reserved_kind(w) {
            Some(k) => k,
            None => TokenType::Identifier,
        }),
        word_kind(w) == TokenType::Identifier <==> reserved_kind(w) is None,
{
    reveal_with_fuel(lookup_from, 9);
    assert(keyword_table().len() == 8);
}

/// The line grows by one exactly across a line feed, and the column restarts
/// at 1 just after one; any other character moves the column one on.
pub proof fn lemma_line_column_step(s: Seq<char>, i: int)
    requires
        0 <= i < s.len(),
    ensures
        line_at(s, i + 1) == if s[i] == '\n' {
            line_at(s, i) + 1
        } else {
            line_at(s, i)
        },
        column_at(s, i + 1) == if s[i] == '\n' {
            1
        } else {
            column_at(s, i) + 1
        },
{
}

/// How a string literal writes a character: line feed, tab, carriage
/// return, backslash and double quote by their escapes, any other character
/// as itself.
pub open spec fn escape_one(c: char) -> Seq<char> {
    if c == '\n' {
        seq!['\\', 'n']
    } else if c == '\t' {
        seq!['\\', 't']
    } else if c == '\r' {
        seq!['\\', 'r']
    } else if c == '\\' {
        seq!['\\', '\\']
    } else if c == '"' {
        seq!['\\', '"']
    } else {
        seq![c]
    }
}

/// The body of a string literal that holds `v`, each character written by
/// `escape_one`.
pub open spec fn escape_text(v: Seq<char>) -> Seq<char>
    decreases v.len(),
{
    if v.len() == 0 {
        seq![]
    } else {
        escape_one(v[0]) + escape_text(v.drop_first())
    }
}

/// The string literal that holds `v`: its escaped body between quotes.
pub open spec fn quoted(v: Seq<char>) -> Seq<char> {
    seq!['"'] + escape_text(v) + seq!['"']
}

/// `x`, scanned alone, is one string literal whose value is `v`, covering
/// all of `x`.
pub open spec fn scans_as_string(x: Seq<char>, v: Seq<char>) -> bool {
    scan_at(x, 0) == Ok::<(TokenSpec, int), LexError>(
        (TokenSpec { kind: TokenType::String, value: v, line: 1, column: 1 }, x.len() as int),
    )
}

/// A string body read after a prefix reads as it does alone, with its end
/// moved on by the prefix's length.
proof fn lemma_string_scan_shift(p: Seq<char>, t: Seq<char>, j: int, acc: Seq<char>)
    requires
        0 <= j,
    ensures
        string_scan(p + t, p.len() + j, acc) == match string_scan(t, j, acc) {
            Ok((v, e)) => Ok((v, e + p.len())),
            Err(x) => Err(x),
        },
    decreases t.len() - j,
{
    let s = p + t;
    let i = p.len() + j;
    if j < t.len() {
        assert(s[i] == t[j]);
        if t[j] != '"' {
            if t[j] == '\\' {
                if j + 1 < t.len() {
                    assert(s[i + 1] == t[j + 1]);
                    if let Some(c) = escape_of(t[j + 1]) {
                        lemma_string_scan_shift(p, t, j + 2, acc.push(c));
                    }
                }
            } else {
                lemma_string_scan_shift(p, t, j + 1, acc.push(t[j]));
            }
        }
    }
}

proof fn lemma_escape_text_reads_back(v: Seq<char>, acc: Seq<char>)
    ensures
        string_scan(escape_text(v) + seq!['"'], 0, acc) == Ok::<(Seq<char>, int), LexError>(
            (acc + v, escape_text(v).len() + 1 as int),
        ),
    decreases v.len(),
{
    if v.len() == 0 {
        assert(escape_text(v) + seq!['"'] =~= seq!['"']);
        assert(acc + v =~= acc);
    } else {
        let c = v[0];
        let rest = v.drop_first();
        let head = escape_one(c);
        let tail = escape_text(rest) + seq!['"'];
        assert(escape_text(v) + seq!['"'] =~= head + tail);
        lemma_escape_text_reads_back(rest, acc.push(c));
        lemma_string_scan_shift(head, tail, 0, acc.push(c));
        assert(acc.push(c) + rest =~= acc + v);
        let s = head + tail;
        if head.len() == 2 {
            assert(s[0] == '\\');
            assert(s[1] == head[1]);
            assert(escape_of(s[1]) == Some(c));
            assert(string_scan(s, 0, acc) == string_scan(s, 2, acc.push(c)));
        } else {
            assert(s[0] == c);
            assert(string_scan(s, 0, acc) == string_scan(s, 1, acc.push(c)));
        }
    }
}

/// A string token's value, written back as a quoted literal with its
/// escapes, scans as a string token with the same value and covers the
/// whole literal.
pub proof fn lemma_string_round_trip(v: Seq<char>)
    ensures
        scans_as_string(quoted(v), v),
{
    let q = quoted(v);
    let body = escape_text(v) + seq!['"'];
    assert(q =~= seq!['"'] + body);
    lemma_escape_text_reads_back(v, seq![]);
    lemma_string_scan_shift(seq!['"'], body, 0, seq![]);
    assert(Seq::<char>::empty() + v =~= v);
    assert(q[0] == '"');
    assert(!whitespace(q[0]));
    assert(ws_end(q, 0) == 0);
    assert(trivia_end(q, 0) == 0);
}

proof fn lemma_no_line_feed(s: Seq<char>, i: int)
    requires
        0 <= i <= s.len(),
        forall|j: int| 0 <= j < i ==> #[trigger] s[j] != '\n',
    ensures
        line_at(s, i) == 1,
        column_at(s, i) == i + 1,
    decreases i,
{
    if i > 0 {
        lemma_no_line_feed(s, i - 1);
    }
}

/// An identifier lexeme scanned alone gives one token, its keyword kind or
/// `Identifier`, with the lexeme as its value, then the end-of-input token.
pub proof fn lemma_identifier_round_trip(w: Seq<char>)
    requires
        w.len() > 0,
        ident_start(w[0]),
        forall|j: int| 0 <= j < w.len() ==> ident_continue(#[trigger] w[j]),
    ensures
        lex(w) == Ok::<Seq<TokenSpec>, LexError>(
            seq![
                TokenSpec { kind: word_kind(w), value: w, line: 1, column: 1 },
                TokenSpec {
                    kind: TokenType::EOF,
                    value: seq![],
                    line: 1,
                    column: w.len() + 1 as int,
                },
            ],
        ),
{
    assert(!whitespace(w[0]));
    assert(ws_end(w, 0) == 0);
    assert(trivia_end(w, 0) == 0);
    lemma_ident_end(w, 0);
    assert(ident_end(w, 0) == w.len());
    assert(w.subrange(0, w.len() as int) =~= w);
    lemma_keyword_exact(w);
    let first = TokenSpec { kind: word_kind(w), value: w, line: 1, column: 1 };
    assert(scan_at(w, 0) == Ok::<(TokenSpec, int), LexError>(
        (first, w.len() as int),
    ));
    assert(trivia_end(w, w.len() as int) == w.len());
    lemma_no_line_feed(w, w.len() as int);
    let last = TokenSpec { kind: TokenType::EOF, value: seq![], line: 1, column: w.len() + 1 as int };
    assert(scan_at(w, w.len() as int) == Ok::<(TokenSpec, int), LexError>((last, w.len() as int)));
    assert(seq![first].push(last) =~= seq![first, last]);
    assert(Seq::<TokenSpec>::empty().push(first) =~= seq![first]);
    assert(lex_from(w, w.len() as int, seq![first]) == Ok::<Seq<TokenSpec>, LexError>(
        seq![first, last],
    ));
    assert(lex_from(w, 0, seq![]) == lex_from(w, w.len() as int, seq![first]));
}

/// The text that a scan from `i` reads, token by token: for each token the
/// whitespace and comments before it and its lexeme, up to the end-of-input
/// token, or up to the first error.
pub open spec fn spans(s: Seq<char>, i: int) -> Seq<(Seq<char>, Seq<char>)>
    decreases s.len() - i,
    via spans_decreases
{
    if i < 0 {
        seq![]
    } else {
        match scan_at(s, i) {
            Ok((t, n)) => {
                let k = trivia_end(s, i);
                let piece = (s.subrange(i, k), s.subrange(k, n));
                if t.kind == TokenType::EOF {
                    seq![piece]
                } else {
                    seq![piece] + spans(s, n)
                }
            },
            Err(_) => seq![],
        }
    }
}

#[via_fn]
proof fn spans_decreases(s: Seq<char>, i: int) {
    if i >= 0 {
        lemma_scan_at(s, i);
    }
}

/// The pieces of text joined in order.
pub open spec fn joined(ps: Seq<(Seq<char>, Seq<char>)>) -> Seq<char>
    decreases ps.len(),
{
    if ps.len() == 0 {
        seq![]
    } else {
        ps[0].0 + ps[0].1 + joined(ps.drop_first())
    }
}

proof fn lemma_string_scan_prefix(s: Seq<char>, i: int, acc: Seq<char>, m: int)
    requires
        0 <= i,
        m <= s.len(),
        string_scan(s, i, acc) matches Ok((v, e)) && e <= m,
    ensures
        string_scan(s.subrange(0, m), i, acc) == string_scan(s, i, acc),
    decreases s.len() - i,
{
    let r = s.subrange(0, m);
    lemma_string_scan(s, i, acc);
    assert(i < m);
    assert(r[i] == s[i]);
    if s[i] != '"' {
        if s[i] == '\\' {
            if let Some(c) = escape_of(s[i + 1]) {
                lemma_string_scan(s, i + 2, acc.push(c));
                assert(r[i + 1] == s[i + 1]);
                lemma_string_scan_prefix(s, i + 2, acc.push(c), m);
            }
        } else {
            lemma_string_scan_prefix(s, i + 1, acc.push(s[i]), m);
        }
    }
}

/// The lexeme of a string token, taken alone, scans as that string token.
proof fn lemma_string_lexeme(s: Seq<char>, k: int, v: Seq<char>, n: int)
    requires
        0 <= k < s.len(),
        s[k] == '"',
        string_scan(s, k + 1, seq![]) == Ok::<(Seq<char>, int), LexError>((v, n)),
    ensures
        scans_as_string(s.subrange(k, n), v),
{
    lemma_string_scan(s, k + 1, seq![]);
    let x = s.subrange(k, n);
    let p = s.subrange(0, k);
    lemma_string_scan_prefix(s, k + 1, seq![], n);
    assert(s.subrange(0, n) =~= p + x);
    lemma_string_scan_shift(p, x, 1, seq![]);
    assert(x[0] == '"');
    assert(!whitespace(x[0]));
    assert(ws_end(x, 0) == 0);
    assert(trivia_end(x, 0) == 0);
}

/// What a scan from `i` that succeeds with `ts` (after `acc`) read: joining
/// the spans gives back the input from `i`; there is one span for each new
/// token; a token other than a string literal has its lexeme as its value,
/// and a string literal's lexeme, scanned alone, is that string token again.
pub proof fn lemma_reconstruction(s: Seq<char>, i: int, acc: Seq<TokenSpec>)
    requires
        0 <= i <= s.len(),
    ensures
        lex_from(s, i, acc) matches Ok(ts) ==> {
            let ps = spans(s, i);
            &&& joined(ps) == s.subrange(i, s.len() as int)
            &&& acc.len() + ps.len() == ts.len()
            &&& forall|j: int|
                0 <= j < ps.len() ==> {
                    let t = #[trigger] ts[acc.len() + j];
                    &&& t.kind != TokenType::String ==> ps[j].1 == t.value
                    &&& t.kind == TokenType::String ==> scans_as_string(ps[j].1, t.value)
                }
        },
    decreases s.len() - i,
{
    lemma_scan_at(s, i);
    lemma_lexeme_spans(s, i);
    if let Ok((t, n)) = scan_at(s, i) {
        let k = trivia_end(s, i);
        let piece = (s.subrange(i, k), s.subrange(k, n));
        if t.kind == TokenType::String {
            lemma_string_lexeme(s, k, t.value, n);
        }
        if t.kind == TokenType::EOF {
            assert(spans(s, i) == seq![piece]);
            assert(joined(seq![piece].drop_first()) == Seq::<char>::empty());
            assert(joined(spans(s, i)) =~= s.subrange(i, s.len() as int));
        } else {
            lemma_reconstruction(s, n, acc.push(t));
            let rest = spans(s, n);
            let ps = seq![piece] + rest;
            assert(spans(s, i) == ps);
            assert(ps.drop_first() =~= rest);
            assert(ps[0] == piece);
            if let Ok(ts) = lex_from(s, i, acc) {
                assert(lex_from(s, n, acc.push(t)) == Ok::<Seq<TokenSpec>, LexError>(ts));
                assert(joined(ps) == piece.0 + piece.1 + joined(rest));
                assert(joined(ps) =~= s.subrange(i, s.len() as int));
                assert forall|j: int| 0 <= j < ps.len() implies {
                    let u = #[trigger] ts[acc.len() + j];
                    &&& u.kind != TokenType::String ==> ps[j].1 == u.value
                    &&& u.kind == TokenType::String ==> scans_as_string(ps[j].1, u.value)
                } by {
                    if j == 0 {
                        lemma_lex_from_prefix(s, n, acc.push(t));
                        let pre = ts.subrange(0, acc.len() + 1 as int);
                        assert(pre == acc.push(t));
                        assert(pre[acc.len() as int] == ts[acc.len() as int]);
                    } else {
                        assert(ps[j] == rest[j - 1]);
                        assert(ts[acc.len() + j] == ts[(acc.len() + 1) + (j - 1)]);
                    }
                }
            }
        }
    }
}

/// A scan keeps what came before it.
proof fn lemma_lex_from_prefix(s: Seq<char>, i: int, acc: Seq<TokenSpec>)
    requires
        0 <= i <= s.len(),
    ensures
        lex_from(s, i, acc) matches Ok(ts) ==> ts.len() >= acc.len() && ts.subrange(
            0,
            acc.len() as int,
        ) == acc,
    decreases s.len() - i,
{
    lemma_scan_at(s, i);
    if let Ok((t, n)) = scan_at(s, i) {
        if t.kind == TokenType::EOF {
            assert(acc.push(t).subrange(0, acc.len() as int) =~= acc);
        } else {
            lemma_lex_from_prefix(s, n, acc.push(t));
            if let Ok(ts) = lex_from(s, n, acc.push(t)) {
                assert(ts.subrange(0, acc.len() as int) =~= ts.subrange(
                    0,
                    acc.len() + 1 as int,
                ).subrange(0, acc.len() as int));
            }
        }
    }
}

/// The spans of a scan with each lexeme replaced by its token's value.
pub open spec fn with_values(ps: Seq<(Seq<char>, Seq<char>)>, ts: Seq<TokenSpec>) -> Seq<
    (Seq<char>, Seq<char>),
> {
    Seq::new(ps.len(), |j: int| (ps[j].0, ts[j].value))
}

/// For an input with no string literal, the values of its tokens joined with
/// the whitespace and comments between them scan as the input did.
pub proof fn lemma_retokenize(s: Seq<char>)
    requires
        lex(s) matches Ok(ts) && forall|j: int|
            0 <= j < ts.len() ==> (#[trigger] ts[j]).kind != TokenType::String,
    ensures
        lex(s) matches Ok(ts) && lex(joined(with_values(spans(s, 0), ts))) == lex(s),
{
    lemma_reconstruction(s, 0, seq![]);
    if let Ok(ts) = lex(s) {
        let ps = spans(s, 0);
        assert forall|j: int| 0 <= j < ps.len() implies #[trigger] with_values(ps, ts)[j] == ps[j] by {
            assert(ts[0 + j] == ts[j]);
        }
        assert(with_values(ps, ts) =~= ps);
        assert(s.subrange(0, s.len() as int) =~= s);
    }
}

/// Position `p` lies inside a comment: a `//` starts at or before it with no
/// line feed in between.
pub open spec fn in_comment(s: Seq<char>, p: int) -> bool {
    exists|c: int|
        0 <= c <= p && #[trigger] starts_comment(s, c) && forall|q: int|
            c <= q <= p ==> #[trigger] s[q] != '\n'
}

/// What a scan skips before a token is whitespace and comments only.
pub proof fn lemma_gap_is_trivia(s: Seq<char>, i: int)
    requires
        0 <= i <= s.len(),
    ensures
        forall|p: int|
            i <= p < trivia_end(s, i) ==> whitespace(#[trigger] s[p]) || in_comment(s, p),
    decreases s.len() - i,
{
    lemma_ws_end(s, i);
    let j = ws_end(s, i);
    if starts_comment(s, j) {
        lemma_line_end(s, j + 2);
        let e = line_end(s, j + 2);
        lemma_gap_is_trivia(s, e);
        assert forall|p: int| j <= p < e implies in_comment(s, p) by {
            assert forall|q: int| j <= q <= p implies #[trigger] s[q] != '\n' by {
                if q >= j + 2 {
                    assert(s[q] != '\n');
                }
            }
            assert(starts_comment(s, j));
        }
        assert forall|p: int| i <= p < trivia_end(s, i) implies whitespace(#[trigger] s[p])
            || in_comment(s, p) by {
            if p < j {
            } else if p < e {
                assert(in_comment(s, p));
            }
        }
    }
}

proof fn lemma_string_scan_extend(s: Seq<char>, i: int, acc: Seq<char>, m: int)
    requires
        0 <= i,
        0 <= m <= s.len(),
        string_scan(s.subrange(0, m), i, acc) is Ok,
    ensures
        string_scan(s, i, acc) == string_scan(s.subrange(0, m), i, acc),
    decreases m - i,
{
    let r = s.subrange(0, m);
    assert(r.len() == m);
    assert(i < m);
    assert(r[i] == s[i]);
    if s[i] != '"' {
        if s[i] == '\\' {
            assert(i + 1 < m);
            assert(r[i + 1] == s[i + 1]);
            if let Some(c) = escape_of(s[i + 1]) {
                lemma_string_scan_extend(s, i + 2, acc.push(c), m);
            }
        } else {
            lemma_string_scan_extend(s, i + 1, acc.push(s[i]), m);
        }
    }
}

/// A quoted literal with its escapes, found at position `p` of any input and
/// followed by anything, is read up to its closing quote and decodes to the
/// value it was written from.
pub proof fn lemma_string_in_context(s: Seq<char>, p: int, v: Seq<char>)
    requires
        0 <= p,
        p + quoted(v).len() <= s.len(),
        s.subrange(p, p + quoted(v).len()) == quoted(v),
    ensures
        string_scan(s, p + 1, seq![]) == Ok::<(Seq<char>, int), LexError>(
            (v, p + quoted(v).len()),
        ),
{
    let q = quoted(v);
    let m = p + q.len();
    let body = escape_text(v) + seq!['"'];
    assert(q =~= seq!['"'] + body);
    lemma_escape_text_reads_back(v, seq![]);
    assert(Seq::<char>::empty() + v =~= v);
    lemma_string_scan_shift(seq!['"'], body, 0, seq![]);
    assert(s.subrange(0, m) =~= s.subrange(0, p) + q);
    lemma_string_scan_shift(s.subrange(0, p), q, 1, seq![]);
    lemma_string_scan_extend(s, p + 1, seq![], m);
}

} // verus!
