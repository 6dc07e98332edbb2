use script_lexer::{
    escaped_char, is_closing_parenthesis, is_identifier_continue, is_identifier_start,
    is_letter, is_number, is_opening_parenthesis, is_operator, is_parenthesis, is_quote,
    is_whitespace, single_char_kind, LexError, Lexer, Token, TokenType,
};
use script_lexer::TokenType::{
    Assign, Comma, Divide, Dot, Else, For, Function, Identifier, If, LeftBrace, LeftBracket,
    LeftParen, Let, Minus, Modulo, Multiply, Number, Plus, Print, Return, RightBrace,
    RightBracket, RightParen, Semicolon, While, EOF,
};

fn lex(input: &str) -> Result<Vec<Token>, LexError> {
    Lexer::new(input).tokenize()
}

fn kinds_values(tokens: &[Token]) -> Vec<(TokenType, String)> {
    tokens.iter().map(|t| (t.token_type, t.value.clone())).collect()
}

fn expect(input: &str, expected: &[(TokenType, &str)]) -> Vec<Token> {
    let tokens = lex(input).expect("scan should succeed");
    let want: Vec<(TokenType, String)> =
        expected.iter().map(|(k, v)| (*k, v.to_string())).collect();
    assert_eq!(kinds_values(&tokens), want);
    tokens
}

#[test]
fn let_statement() {
    expect(
        "let x = 3;",
        &[(Let, "let"), (Identifier, "x"), (Assign, "="), (Number, "3"), (Semicolon, ";"), (EOF, "")],
    );
}

#[test]
fn comment_then_let() {
    let tokens = expect(
        "// hi\nlet a=1;",
        &[(Let, "let"), (Identifier, "a"), (Assign, "="), (Number, "1"), (Semicolon, ";"), (EOF, "")],
    );
    assert_eq!((tokens[0].line, tokens[0].column), (2, 1));
}

#[test]
fn string_with_escape() {
    let tokens = expect("\"Hello,\\n World!\"", &[(TokenType::String, "Hello,\n World!"), (TokenType::EOF, "")]);
    assert_eq!((tokens[0].line, tokens[0].column), (1, 1));
    assert_eq!((tokens[1].line, tokens[1].column), (1, 18));
}

#[test]
fn print_call() {
    expect(
        "print(hey);",
        &[(Print, "print"), (LeftParen, "("), (Identifier, "hey"), (RightParen, ")"), (Semicolon, ";"), (EOF, "")],
    );
}

#[test]
fn arithmetic_expression() {
    expect(
        "a + b * (c - d) % 2",
        &[
            (Identifier, "a"),
            (Plus, "+"),
            (Identifier, "b"),
            (Multiply, "*"),
            (LeftParen, "("),
            (Identifier, "c"),
            (Minus, "-"),
            (Identifier, "d"),
            (RightParen, ")"),
            (Modulo, "%"),
            (Number, "2"),
            (EOF, ""),
        ],
    );
}

#[test]
fn unterminated_string() {
    assert_eq!(lex("\"oops").err(), Some(LexError::UnterminatedString));
}

#[test]
fn invalid_escape() {
    assert_eq!(lex("\"a\\qb\"").err(), Some(LexError::InvalidEscape('q')));
}

#[test]
fn unterminated_escape() {
    assert_eq!(lex("\"a\\").err(), Some(LexError::UnterminatedEscape));
}

#[test]
fn unexpected_character() {
    assert_eq!(lex("let x\n  @").err(), Some(LexError::UnexpectedCharacter('@', 2, 3)));
}

#[test]
fn error_discards_earlier_tokens() {
    assert_eq!(lex("a b c #").err(), Some(LexError::UnexpectedCharacter('#', 1, 7)));
}

#[test]
fn empty_input() {
    let tokens = expect("", &[(TokenType::EOF, "")]);
    assert_eq!((tokens[0].line, tokens[0].column), (1, 1));
}

#[test]
fn only_whitespace_and_comments() {
    let tokens = expect("  \t\n// note\n   // last", &[(TokenType::EOF, "")]);
    assert_eq!((tokens[0].line, tokens[0].column), (3, 11));
}

#[test]
fn every_single_character_token() {
    expect(
        "+-*/%=;,.(){}[]",
        &[
            (Plus, "+"),
            (Minus, "-"),
            (Multiply, "*"),
            (Divide, "/"),
            (Modulo, "%"),
            (Assign, "="),
            (Semicolon, ";"),
            (Comma, ","),
            (Dot, "."),
            (LeftParen, "("),
            (RightParen, ")"),
            (LeftBrace, "{"),
            (RightBrace, "}"),
            (LeftBracket, "["),
            (RightBracket, "]"),
            (EOF, ""),
        ],
    );
}

#[test]
fn divide_advances_once() {
    let tokens = expect(
        "a/b",
        &[(TokenType::Identifier, "a"), (TokenType::Divide, "/"), (TokenType::Identifier, "b"), (TokenType::EOF, "")],
    );
    let cols: Vec<usize> = tokens.iter().map(|t| t.column).collect();
    assert_eq!(cols, vec![1, 2, 3, 4]);
}

#[test]
fn number_keeps_every_dot() {
    expect("1.2.3 .5", &[(TokenType::Number, "1.2.3"), (TokenType::Dot, "."), (TokenType::Number, "5"), (TokenType::EOF, "")]);
}

#[test]
fn every_keyword() {
    expect(
        "let print if else while for function return",
        &[
            (Let, "let"),
            (Print, "print"),
            (If, "if"),
            (Else, "else"),
            (While, "while"),
            (For, "for"),
            (Function, "function"),
            (Return, "return"),
            (EOF, ""),
        ],
    );
}

#[test]
fn keyword_match_is_exact() {
    expect(
        "lets Let le _if if_ print2",
        &[
            (Identifier, "lets"),
            (Identifier, "Let"),
            (Identifier, "le"),
            (Identifier, "_if"),
            (Identifier, "if_"),
            (Identifier, "print2"),
            (EOF, ""),
        ],
    );
}

#[test]
fn identifier_round_trip() {
    for word in ["x", "_", "while", "whiles", "a1_b2", "function"] {
        let tokens = lex(word).unwrap();
        assert_eq!(tokens.len(), 2);
        assert_eq!(tokens[0].value, word);
        assert_eq!(tokens[1].token_type, TokenType::EOF);
    }
}

#[test]
fn line_and_column_tracking() {
    let tokens = lex("a\n  bb\r\n c").unwrap();
    let pos: Vec<(usize, usize)> = tokens.iter().map(|t| (t.line, t.column)).collect();
    assert_eq!(pos, vec![(1, 1), (2, 3), (3, 2), (3, 3)]);
}

#[test]
fn carriage_return_keeps_line() {
    let tokens = lex("a\rb").unwrap();
    assert_eq!((tokens[1].line, tokens[1].column), (1, 3));
}

#[test]
fn newline_in_string_moves_line() {
    let tokens = lex("\"a\nb\" c").unwrap();
    assert_eq!(tokens[0].value, "a\nb");
    assert_eq!((tokens[1].line, tokens[1].column), (2, 4));
}

#[test]
fn single_eof_at_end() {
    let tokens = lex("let a = 1; // c\nprint(a);").unwrap();
    assert_eq!(tokens.last().unwrap().token_type, TokenType::EOF);
    assert_eq!(tokens.iter().filter(|t| t.token_type == TokenType::EOF).count(), 1);
}

#[test]
fn adjacent_tokens_touch() {
    let tokens = lex("ab+12;").unwrap();
    let cols: Vec<usize> = tokens.iter().map(|t| t.column).collect();
    assert_eq!(cols, vec![1, 3, 4, 6, 7]);
}

#[test]
fn lexemes_rebuild_input() {
    let input = "let x = 3 ; print ( x ) ;";
    let tokens = lex(input).unwrap();
    let rebuilt: Vec<String> = tokens
        .iter()
        .filter(|t| t.token_type != TokenType::EOF)
        .map(|t| t.value.clone())
        .collect();
    assert_eq!(rebuilt.join(" "), input);
}

#[test]
fn retokenizing_values_is_stable() {
    let input = "let x = 3.5 ; x = x * ( y % 2 )";
    let first = lex(input).unwrap();
    let joined: Vec<String> = first
        .iter()
        .filter(|t| t.token_type != TokenType::EOF)
        .map(|t| t.value.clone())
        .collect();
    let second = lex(&joined.join(" ")).unwrap();
    assert_eq!(kinds_values(&first), kinds_values(&second));
}

#[test]
fn all_escapes_decode() {
    expect("\"\\n\\t\\r\\\\\\\"\"", &[(TokenType::String, "\n\t\r\\\""), (TokenType::EOF, "")]);
}

#[test]
fn comment_runs_to_line_end() {
    let tokens = expect("x // y = 2;\n z", &[(Identifier, "x"), (Identifier, "z"), (EOF, "")]);
    assert_eq!((tokens[1].line, tokens[1].column), (2, 2));
}

#[test]
fn unicode_whitespace_is_skipped() {
    let tokens = lex("a\u{00A0}\u{3000}b").unwrap();
    assert_eq!(tokens.len(), 3);
    assert_eq!(tokens[1].column, 4);
}

#[test]
fn stepwise_next_token() {
    let mut lexer = Lexer::new("a 1");
    assert_eq!(lexer.next_token().unwrap().token_type, TokenType::Identifier);
    assert_eq!(lexer.next_token().unwrap().value, "1");
    assert_eq!(lexer.next_token().unwrap().token_type, TokenType::EOF);
}

#[test]
fn cursor_primitives() {
    let mut lexer = Lexer::new("a\nb");
    assert_eq!(lexer.current_char(), Some('a'));
    assert_eq!(lexer.peek_char(), Some('\n'));
    lexer.advance();
    lexer.advance();
    assert_eq!(lexer.current_char(), Some('b'));
    assert_eq!(lexer.peek_char(), None);
    let t = lexer.read_identifier();
    assert_eq!((t.line, t.column), (2, 1));
    assert_eq!(lexer.current_char(), None);
}

#[test]
fn readers_from_the_cursor() {
    let mut lexer = Lexer::new("12.5x");
    assert_eq!(lexer.read_number().value, "12.5");
    let mut lexer = Lexer::new("   // skip\nq");
    lexer.skip_whitespace();
    assert_eq!(lexer.current_char(), Some('/'));
    lexer.read_comment();
    assert_eq!(lexer.current_char(), Some('\n'));
    let mut lexer = Lexer::new("\"ab\" rest");
    assert_eq!(lexer.read_string().unwrap().value, "ab");
}

#[test]
fn character_classes() {
    assert!(is_opening_parenthesis('(') && !is_opening_parenthesis(')'));
    assert!(is_closing_parenthesis(')') && !is_closing_parenthesis('('));
    assert!(is_parenthesis('(') && is_parenthesis(')') && !is_parenthesis('['));
    assert!(is_letter('q') && is_letter('Z') && !is_letter('1') && !is_letter('_'));
    assert!(is_number('0') && is_number('9') && !is_number('a') && !is_number('.'));
    assert!(is_whitespace(' ') && is_whitespace('\t') && is_whitespace('\r') && is_whitespace('\n'));
    assert!(!is_whitespace('x'));
    assert!(is_quote('"') && !is_quote('\''));
    assert!(is_operator('+') && is_operator('%') && is_operator('/') && !is_operator('='));
    assert!(is_identifier_start('_') && !is_identifier_start('3'));
    assert!(is_identifier_continue('3') && !is_identifier_continue('-'));
    assert_eq!(single_char_kind(']'), Some(TokenType::RightBracket));
    assert_eq!(single_char_kind('#'), None);
    assert_eq!(escaped_char('t'), Some('\t'));
    assert_eq!(escaped_char('x'), None);
}

#[test]
fn string_value_written_back_scans_the_same() {
    let first = lex("\"tab\there \\\"q\\\" back\\\\ nl\\n\"").unwrap();
    let value = first[0].value.clone();
    assert_eq!(value, "tab\there \"q\" back\\ nl\n");
    let mut written = String::from("\"");
    for c in value.chars() {
        match c {
            '\n' => written.push_str("\\n"),
            '\t' => written.push_str("\\t"),
            '\r' => written.push_str("\\r"),
            '\\' => written.push_str("\\\\"),
            '"' => written.push_str("\\\""),
            other => written.push(other),
        }
    }
    written.push('"');
    let second = lex(&written).unwrap();
    assert_eq!(second[0].token_type, TokenType::String);
    assert_eq!(second[0].value, value);
}

#[test]
fn advance_moves_past_end_keeping_position() {
    let mut lexer = Lexer::new("a");
    lexer.advance();
    lexer.advance();
    lexer.advance();
    assert_eq!(lexer.current_char(), None);
    assert_eq!(lexer.peek_char(), None);
    let eof = lexer.next_token().unwrap();
    assert_eq!((eof.token_type, eof.line, eof.column), (TokenType::EOF, 1, 2));
    let ident = lexer.read_identifier();
    assert_eq!((ident.token_type, ident.value.as_str()), (TokenType::Identifier, ""));
}
