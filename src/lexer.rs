//! The scanner: a cursor over the input characters that yields one token at
//! a time, keeping the line and column of the cursor.

use vstd::prelude::*;
use crate::chars::{
    escaped_char, is_identifier_continue, is_identifier_start, is_number, is_whitespace,
    single_char_kind,
};
use crate::model::{
    column_at, ident_end, lemma_line_end, lemma_scan_at, lemma_ws_end, lex_from, line_at,
    line_end, number_end, scan_at, string_scan, trivia_end, ws_end,
};
use crate::token::{keyword_table, lookup_from, word_kind, LexError, Token, TokenSpec, TokenType};

verus! {

/// The characters of a string, in order.
fn chars_of(s: &str) -> (r: Vec<char>)
    ensures
        r@ == s@,
{
    let mut v: Vec<char> = Vec::new();
    for c in it: s.chars()
        invariant
            it.seq() == s@,
            v@ == it.seq().take(it.index() as int),
    {
        v.push(c);
        assert(v@ =~= it.seq().take(it.index() as int + 1));
    }
    assert(v@ =~= s@);
    v
}

/// Relies on `String`'s `FromIterator<&char>`: the string of the characters,
/// in order.
#[verifier::external_body]
fn string_of(chars: &Vec<char>) -> (r: String)
    ensures
        r@ == chars@,
{
    chars.iter().collect()
}

/// Whether two character vectors hold the same characters.
fn same_chars(a: &Vec<char>, b: &Vec<char>) -> (r: bool)
    ensures
        r == (a@ == b@),
{
    if a.len() != b.len() {
        return false;
    }
    let mut i: usize = 0;
    while i < a.len()
        invariant
            a@.len() == b@.len(),
            0 <= i <= a@.len(),
            forall|j: int| 0 <= j < i ==> a@[j] == b@[j],
        decreases a.len() - i,
    {
        if a[i] != b[i] {
            return false;
        }
        i = i + 1;
    }
    assert(a@ =~= b@);
    true
}

/// Line and column stay within one more than the position.
proof fn lemma_position_bounds(s: Seq<char>, i: int)
    requires
        0 <= i,
    ensures
        1 <= line_at(s, i) <= i + 1,
        1 <= column_at(s, i) <= i + 1,
    decreases i,
{
    if i > s.len() {
        lemma_position_bounds(s, s.len() as int);
    } else if i > 0 {
        lemma_position_bounds(s, i - 1);
    }
}

/// The scanner's state: the input, the cursor, the cursor's line and column,
/// and the keyword table.
pub struct Lexer {
    input: Vec<char>,
    position: usize,
    line: usize,
    column: usize,
    keywords: Vec<(Vec<char>, TokenType)>,
}

impl Lexer {
    /// The input characters.
    pub closed spec fn text(&self) -> Seq<char> {
        self.input@
    }

    /// The cursor: the offset of the next character to read.
    pub closed spec fn pos(&self) -> int {
        self.position as int
    }

    /// The line of the cursor.
    pub closed spec fn line_no(&self) -> int {
        self.line as int
    }

    /// The column of the cursor.
    pub closed spec fn column_no(&self) -> int {
        self.column as int
    }

    /// The keyword table holds the reserved words, each with its kind.
    pub closed spec fn table_ok(&self) -> bool {
        &&& self.keywords@.len() == keyword_table().len()
        &&& forall|i: int|
            0 <= i < self.keywords@.len() ==> (#[trigger] self.keywords@[i]).0@
                == keyword_table()[i].0 && self.keywords@[i].1 == keyword_table()[i].1
    }

    /// The line and column, both at least 1, are those of the cursor, and the
    /// keyword table is intact.
    pub open spec fn wf(&self) -> bool {
        &&& 0 <= self.pos()
        &&& self.line_no() >= 1
        &&& self.column_no() >= 1
        &&& self.text().len() < usize::MAX
        &&& self.line_no() == line_at(self.text(), self.pos())
        &&& self.column_no() == column_at(self.text(), self.pos())
        &&& self.table_ok()
    }

    /// A scanner at the start of `input`, at line 1, column 1.
    pub fn new(input: &str) -> (r: Lexer)
        requires
            input@.len() < usize::MAX,
        ensures
            r.wf(),
            r.text() == input@,
            r.pos() == 0,
            r.line_no() == 1,
            r.column_no() == 1,
    {
        let mut keywords: Vec<(Vec<char>, TokenType)> = Vec::new();
        keywords.push((vec!['l', 'e', 't'], TokenType::Let));
        keywords.push((vec!['p', 'r', 'i', 'n', 't'], TokenType::Print));
        keywords.push((vec!['i', 'f'], TokenType::If));
        keywords.push((vec!['e', 'l', 's', 'e'], TokenType::Else));
        keywords.push((vec!['w', 'h', 'i', 'l', 'e'], TokenType::While));
        keywords.push((vec!['f', 'o', 'r'], TokenType::For));
        keywords.push((vec!['f', 'u', 'n', 'c', 't', 'i', 'o', 'n'], TokenType::Function));
        keywords.push((vec!['r', 'e', 't', 'u', 'r', 'n'], TokenType::Return));
        let r = Lexer { input: chars_of(input), position: 0, line: 1, column: 1, keywords };
        assert(r.keywords@[0].0@ =~= keyword_table()[0].0);
        assert(r.keywords@[1].0@ =~= keyword_table()[1].0);
        assert(r.keywords@[2].0@ =~= keyword_table()[2].0);
        assert(r.keywords@[3].0@ =~= keyword_table()[3].0);
        assert(r.keywords@[4].0@ =~= keyword_table()[4].0);
        assert(r.keywords@[5].0@ =~= keyword_table()[5].0);
        assert(r.keywords@[6].0@ =~= keyword_table()[6].0);
        assert(r.keywords@[7].0@ =~= keyword_table()[7].0);
        r
    }

    /// The character under the cursor, if any.
    pub fn current_char(&self) -> (r: Option<char>)
        requires
            self.wf(),
        ensures
            r == (if self.pos() < self.text().len() {
                Some(self.text()[self.pos()])
            } else {
                None
            }),
    {
        if self.position < self.input.len() {
            Some(self.input[self.position])
        } else {
            None
        }
    }

    /// The character after the one under the cursor, if any.
    pub fn peek_char(&self) -> (r: Option<char>)
        requires
            self.wf(),
        ensures
            r == (if self.pos() + 1 < self.text().len() {
                Some(self.text()[self.pos() + 1])
            } else {
                None
            }),
    {
        if self.position < self.input.len() && self.position + 1 < self.input.len() {
            Some(self.input[self.position + 1])
        } else {
            None
        }
    }

    /// Moves the cursor one character forward: past a line feed to column 1
    /// of the next line, past any other character one column on. At or past
    /// the end of the input the cursor still moves, and the line and column
    /// stay.
    pub fn advance(&mut self)
        requires
            old(self).wf(),
            old(self).pos() < usize::MAX,
        ensures
            final(self).wf(),
            final(self).text() == old(self).text(),
            final(self).pos() == old(self).pos() + 1,
            old(self).pos() < old(self).text().len() ==> if old(self).text()[old(self).pos()]
                == '\n' {
                final(self).line_no() == old(self).line_no() + 1 && final(self).column_no() == 1
            } else {
                final(self).line_no() == old(self).line_no() && final(self).column_no()
                    == old(self).column_no() + 1
            },
            old(self).pos() >= old(self).text().len() ==> final(self).line_no()
                == old(self).line_no() && final(self).column_no() == old(self).column_no(),
    {
        if self.position < self.input.len() {
            proof {
                lemma_position_bounds(self.input@, self.position + 1);
            }
            if self.input[self.position] == '\n' {
                self.line = self.line + 1;
                self.column = 1;
            } else {
                self.column = self.column + 1;
            }
        }
        self.position = self.position + 1;
    }

    /// Moves the cursor past the run of whitespace under it.
    pub fn skip_whitespace(&mut self)
        requires
            old(self).wf(),
        ensures
            final(self).wf(),
            final(self).text() == old(self).text(),
            final(self).pos() >= old(self).pos(),
            final(self).pos() == ws_end(old(self).text(), old(self).pos()),
    {
        let ghost start = self.pos();
        loop
            invariant
                self.wf(),
                self.text() == old(self).text(),
                start == old(self).pos(),
                start <= self.pos(),
                ws_end(self.text(), self.pos()) == ws_end(self.text(), start),
            ensures
                self.pos() == ws_end(self.text(), start),
            decreases self.text().len() - self.pos(),
        {
            match self.current_char() {
                Some(ch) => {
                    if is_whitespace(ch) {
                        self.advance();
                    } else {
                        break;
                    }
                },
                None => {
                    break;
                },
            }
        }
    }

    /// Reads the run of digits and dots under the cursor as a number token.
    pub fn read_number(&mut self) -> (r: Token)
        requires
            old(self).wf(),
        ensures
            final(self).wf(),
            final(self).text() == old(self).text(),
            final(self).pos() >= old(self).pos(),
            final(self).pos() == number_end(old(self).text(), old(self).pos()),
            r@ == (TokenSpec {
                kind: TokenType::Number,
                value: if old(self).pos() <= old(self).text().len() {
                    old(self).text().subrange(old(self).pos(), final(self).pos())
                } else {
                    seq![]
                },
                line: old(self).line_no(),
                column: old(self).column_no(),
            }),
    {
        let start_line = self.line;
        let start_column = self.column;
        let ghost start = self.pos();
        let mut number: Vec<char> = Vec::new();
        loop
            invariant
                self.wf(),
                self.text() == old(self).text(),
                start == old(self).pos(),
                start <= self.pos(),
                number@ == if start <= self.text().len() {
                    self.text().subrange(start, self.pos())
                } else {
                    seq![]
                },
                number_end(self.text(), self.pos()) == number_end(self.text(), start),
            ensures
                self.pos() == number_end(self.text(), start),
                number@ == if start <= self.text().len() {
                    self.text().subrange(start, self.pos())
                } else {
                    seq![]
                },
            decreases self.text().len() - self.pos(),
        {
            match self.current_char() {
                Some(ch) => {
                    if is_number(ch) || ch == '.' {
                        let ghost p = self.pos();
                        let ghost s = self.text();
                        let ghost before = number@;
                        assert(s[p] == ch);
                        assert(before == s.subrange(start, p));
                        number.push(ch);
                        self.advance();
                        assert(s.subrange(start, p + 1) =~= s.subrange(start, p).push(ch));
                        assert(number@ =~= before.push(ch));
                    } else {
                        break;
                    }
                },
                None => {
                    break;
                },
            }
        }
        Token {
            token_type: TokenType::Number,
            value: string_of(&number),
            line: start_line,
            column: start_column,
        }
    }

    /// Reads the string literal whose opening quote is under the cursor,
    /// decoding its escapes.
    pub fn read_string(&mut self) -> (r: Result<Token, LexError>)
        requires
            old(self).wf(),
            old(self).pos() < old(self).text().len(),
            old(self).text()[old(self).pos()] == '"',
        ensures
            final(self).wf(),
            final(self).text() == old(self).text(),
            final(self).pos() >= old(self).pos(),
            match string_scan(old(self).text(), old(self).pos() + 1, seq![]) {
                Ok((v, e)) => {
                    &&& r is Ok
                    &&& r->Ok_0@ == (TokenSpec {
                        kind: TokenType::String,
                        value: v,
                        line: old(self).line_no(),
                        column: old(self).column_no(),
                    })
                    &&& final(self).pos() == e
                },
                Err(x) => r == Err::<Token, LexError>(x),
            },
    {
        let start_line = self.line;
        let start_column = self.column;
        let ghost start = self.pos();
        let mut string: Vec<char> = Vec::new();
        self.advance();
        loop
            invariant
                self.wf(),
                self.text() == old(self).text(),
                start == old(self).pos(),
                start_line == old(self).line_no(),
                start_column == old(self).column_no(),
                start < self.pos(),
                string_scan(self.text(), self.pos(), string@) == string_scan(
                    self.text(),
                    start + 1,
                    seq![],
                ),
            decreases self.text().len() - self.pos(),
        {
            let ghost p = self.pos();
            let ghost s = self.text();
            let ghost before = string@;
            match self.current_char() {
                Some(ch) => {
                    if ch == '"' {
                        assert(string_scan(s, p, before) == Ok::<(Seq<char>, int), LexError>(
                            (before, p + 1),
                        ));
                        self.advance();
                        return Ok(
                            Token {
                                token_type: TokenType::String,
                                value: string_of(&string),
                                line: start_line,
                                column: start_column,
                            },
                        );
                    } else if ch == '\\' {
                        self.advance();
                        match self.current_char() {
                            Some(escaped) => {
                                assert(escaped == s[p + 1]);
                                match escaped_char(escaped) {
                                    Some(d) => {
                                        string.push(d);
                                        self.advance();
                                    },
                                    None => {
                                        return Err(LexError::InvalidEscape(escaped));
                                    },
                                }
                            },
                            None => {
                                return Err(LexError::UnterminatedEscape);
                            },
                        }
                    } else {
                        string.push(ch);
                        self.advance();
                    }
                },
                None => {
                    return Err(LexError::UnterminatedString);
                },
            }
        }
    }

    /// The kind of an identifier lexeme, looked up in the keyword table.
    fn keyword_kind(&self, word: &Vec<char>) -> (r: TokenType)
        requires
            self.table_ok(),
        ensures
            r == word_kind(word@),
    {
        let mut i: usize = 0;
        while i < self.keywords.len()
            invariant
                self.table_ok(),
                0 <= i <= self.keywords@.len(),
                lookup_from(keyword_table(), word@, 0) == lookup_from(
                    keyword_table(),
                    word@,
                    i as int,
                ),
            decreases self.keywords.len() - i,
        {
            if same_chars(&self.keywords[i].0, word) {
                return self.keywords[i].1;
            }
            i = i + 1;
        }
        TokenType::Identifier
    }

    /// Reads the run of identifier characters under the cursor, as a keyword
    /// token if it is a reserved word and as an identifier otherwise.
    pub fn read_identifier(&mut self) -> (r: Token)
        requires
            old(self).wf(),
        ensures
            final(self).wf(),
            final(self).text() == old(self).text(),
            final(self).pos() >= old(self).pos(),
            final(self).pos() == ident_end(old(self).text(), old(self).pos()),
            r@ == (TokenSpec {
                kind: word_kind(
                    if old(self).pos() <= old(self).text().len() {
                        old(self).text().subrange(old(self).pos(), final(self).pos())
                    } else {
                        seq![]
                    },
                ),
                value: if old(self).pos() <= old(self).text().len() {
                    old(self).text().subrange(old(self).pos(), final(self).pos())
                } else {
                    seq![]
                },
                line: old(self).line_no(),
                column: old(self).column_no(),
            }),
    {
        let start_line = self.line;
        let start_column = self.column;
        let ghost start = self.pos();
        let mut identifier: Vec<char> = Vec::new();
        loop
            invariant
                self.wf(),
                self.text() == old(self).text(),
                start == old(self).pos(),
                start <= self.pos(),
                identifier@ == if start <= self.text().len() {
                    self.text().subrange(start, self.pos())
                } else {
                    seq![]
                },
                ident_end(self.text(), self.pos()) == ident_end(self.text(), start),
            ensures
                self.pos() == ident_end(self.text(), start),
                identifier@ == if start <= self.text().len() {
                    self.text().subrange(start, self.pos())
                } else {
                    seq![]
                },
            decreases self.text().len() - self.pos(),
        {
            match self.current_char() {
                Some(ch) => {
                    if is_identifier_continue(ch) {
                        let ghost p = self.pos();
                        let ghost s = self.text();
                        let ghost before = identifier@;
                        assert(s[p] == ch);
                        assert(before == s.subrange(start, p));
                        identifier.push(ch);
                        self.advance();
                        assert(s.subrange(start, p + 1) =~= s.subrange(start, p).push(ch));
                        assert(identifier@ =~= before.push(ch));
                    } else {
                        break;
                    }
                },
                None => {
                    break;
                },
            }
        }
        let token_type = self.keyword_kind(&identifier);
        Token { token_type, value: string_of(&identifier), line: start_line, column: start_column }
    }

    /// Moves the cursor to the end of the line: to the next line feed, which
    /// stays unread, or to the end of the input.
    pub fn read_comment(&mut self)
        requires
            old(self).wf(),
        ensures
            final(self).wf(),
            final(self).text() == old(self).text(),
            final(self).pos() >= old(self).pos(),
            final(self).pos() == line_end(old(self).text(), old(self).pos()),
    {
        let ghost start = self.pos();
        loop
            invariant
                self.wf(),
                self.text() == old(self).text(),
                start == old(self).pos(),
                start <= self.pos(),
                line_end(self.text(), self.pos()) == line_end(self.text(), start),
            ensures
                self.pos() == line_end(self.text(), start),
            decreases self.text().len() - self.pos(),
        {
            match self.current_char() {
                Some(ch) => {
                    if ch == '\n' {
                        break;
                    }
                    self.advance();
                },
                None => {
                    break;
                },
            }
        }
    }

    /// Skips whitespace and comments, then reads the next token: the
    /// end-of-input token when nothing is left.
    pub fn next_token(&mut self) -> (r: Result<Token, LexError>)
        requires
            old(self).wf(),
        ensures
            final(self).wf(),
            final(self).text() == old(self).text(),
            final(self).pos() >= old(self).pos(),
            match scan_at(old(self).text(), old(self).pos()) {
                Ok((t, n)) => r is Ok && r->Ok_0@ == t && final(self).pos() == n,
                Err(e) => r == Err::<Token, LexError>(e),
            },
    {
        let ghost start = self.pos();
        loop
            invariant
                self.wf(),
                self.text() == old(self).text(),
                start == old(self).pos(),
                start <= self.pos(),
                trivia_end(self.text(), self.pos()) == trivia_end(self.text(), start),
            ensures
                self.pos() == trivia_end(self.text(), start),
            decreases self.text().len() - self.pos(),
        {
            let ghost p = self.pos();
            proof {
                lemma_ws_end(self.text(), p);
            }
            self.skip_whitespace();
            match (self.current_char(), self.peek_char()) {
                (Some('/'), Some('/')) => {
                    self.advance();
                    self.advance();
                    proof {
                        lemma_line_end(self.text(), self.pos());
                    }
                    self.read_comment();
                },
                _ => {
                    break;
                },
            }
        }
        let ch = match self.current_char() {
            Some(ch) => ch,
            None => {
                return Ok(
                    Token {
                        token_type: TokenType::EOF,
                        value: String::new(),
                        line: self.line,
                        column: self.column,
                    },
                );
            },
        };
        let start_line = self.line;
        let start_column = self.column;
        if is_number(ch) {
            Ok(self.read_number())
        } else if ch == '"' {
            self.read_string()
        } else if is_identifier_start(ch) {
            Ok(self.read_identifier())
        } else {
            match single_char_kind(ch) {
                Some(kind) => {
                    self.advance();
                    let lexeme = vec![ch];
                    assert(lexeme@ =~= seq![ch]);
                    Ok(
                        Token {
                            token_type: kind,
                            value: string_of(&lexeme),
                            line: start_line,
                            column: start_column,
                        },
                    )
                },
                None => Err(LexError::UnexpectedCharacter(ch, start_line, start_column)),
            }
        }
    }

    /// Reads tokens up to and including the end-of-input token; the first
    /// error ends the scan and is returned instead.
    pub fn tokenize(&mut self) -> (r: Result<Vec<Token>, LexError>)
        requires
            old(self).wf(),
        ensures
            final(self).wf(),
            final(self).text() == old(self).text(),
            final(self).pos() >= old(self).pos(),
            match lex_from(old(self).text(), old(self).pos(), seq![]) {
                Ok(ts) => r is Ok && r->Ok_0@.map_values(|t: Token| t@) == ts,
                Err(e) => r == Err::<Vec<Token>, LexError>(e),
            },
    {
        let ghost start = self.pos();
        let mut tokens: Vec<Token> = Vec::new();
        assert(tokens@.map_values(|t: Token| t@) =~= Seq::<TokenSpec>::empty());
        loop
            invariant
                self.wf(),
                self.text() == old(self).text(),
                start == old(self).pos(),
                start <= self.pos(),
                lex_from(self.text(), self.pos(), tokens@.map_values(|t: Token| t@)) == lex_from(
                    self.text(),
                    start,
                    seq![],
                ),
            decreases self.text().len() - self.pos(),
        {
            proof {
                lemma_scan_at(self.text(), self.pos());
            }
            let ghost before = tokens@.map_values(|t: Token| t@);
            let token = match self.next_token() {
                Ok(t) => t,
                Err(e) => {
                    return Err(e);
                },
            };
            let is_eof = token.token_type == TokenType::EOF;
            let ghost tv = token@;
            tokens.push(token);
            assert(tokens@.map_values(|t: Token| t@) =~= before.push(tv));
            if is_eof {
                return Ok(tokens);
            }
        }
    }
}

} // verus!
