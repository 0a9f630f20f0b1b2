use lisp_desu::lexer::{Cursor, Span, Token, TokenKind as LexKind};
use lisp_desu::parser::{ParseError, SExpr, StringReader, TokenKind};
use lisp_desu::render::{Pythonify, TranspileError};

fn transpile(src: &str) -> Result<String, TranspileError> {
    Pythonify::new(src).transpile()
}

fn lex_all(src: &str) -> Vec<Token> {
    let mut cursor = Cursor::new(src);
    let mut out = Vec::new();
    loop {
        let t = cursor.next_token();
        let done = t.kind == LexKind::EOF;
        out.push(t);
        if done {
            return out;
        }
    }
}

#[test]
fn renders_symbol_call() {
    assert_eq!(transpile("(add 1 2)").unwrap(), "\nadd(1 2)");
}

#[test]
fn renders_quoted_literal_verbatim() {
    assert_eq!(transpile("(print \"hi\")").unwrap(), "\nprint(\"hi\")");
}

#[test]
fn renders_nested_argument_form() {
    assert_eq!(transpile("(add (mul 2 3) 4)").unwrap(), "\nadd(mul(2 3) 4)");
}

#[test]
fn renders_form_in_head_position_with_embedded_newline() {
    assert_eq!(transpile("((mul 2 3) 4)").unwrap(), "\nmul(2 3)(4)");
}

#[test]
fn bare_number_head_is_accepted() {
    assert_eq!(transpile("(1 2)").unwrap(), "\n1(2)");
}

#[test]
fn top_level_close_paren_is_unexpected() {
    let mut reader = StringReader::new(")");
    match reader.next_token() {
        Err(ParseError::UnexpectedToken(expected, got)) => {
            assert_eq!(expected, vec![LexKind::OpenParen]);
            assert_eq!(got.kind, LexKind::CloseParen);
        }
        Ok(_) => panic!("a bare ')' must not parse"),
    }
    assert!(matches!(transpile(")"), Err(TranspileError::ParseError(_))));
}

#[test]
fn top_level_symbol_is_unexpected() {
    match transpile("abc") {
        Err(TranspileError::ParseError(ParseError::UnexpectedToken(expected, got))) => {
            assert_eq!(expected, vec![LexKind::OpenParen]);
            assert_eq!(got.kind, LexKind::Ident);
        }
        Ok(s) => panic!("unexpected success: {:?}", s),
    }
}

#[test]
fn unterminated_literal_runs_to_end() {
    let tokens = lex_all("\"abc");
    assert_eq!(tokens.len(), 2);
    assert_eq!(tokens[0].kind, LexKind::Literal);
    assert_eq!(tokens[0].len, 4);
    assert_eq!(tokens[0].as_str("\"abc"), "\"abc");
    assert_eq!(tokens[1].kind, LexKind::EOF);
}

#[test]
fn unterminated_literal_inside_form_fails_at_end() {
    match transpile("(a \"bc") {
        Err(TranspileError::ParseError(ParseError::UnexpectedToken(expected, got))) => {
            assert_eq!(expected.len(), 11);
            assert_eq!(got.kind, LexKind::EOF);
        }
        Ok(s) => panic!("unexpected success: {:?}", s),
    }
}

#[test]
fn keyword_needs_full_match() {
    let kinds: Vec<LexKind> = lex_all("defx defun define if and a case cases nil")
        .iter()
        .filter(|t| t.kind != LexKind::Whitespace && t.kind != LexKind::EOF)
        .map(|t| t.kind)
        .collect();
    assert_eq!(
        kinds,
        vec![
            LexKind::Ident,
            LexKind::Keyword,
            LexKind::Ident,
            LexKind::Keyword,
            LexKind::Keyword,
            LexKind::Ident,
            LexKind::Keyword,
            LexKind::Ident,
            LexKind::Keyword,
        ]
    );
}

#[test]
fn punctuation_tokens() {
    let kinds: Vec<LexKind> = lex_all("(),<>=!&'`;c\n")
        .iter()
        .map(|t| t.kind)
        .collect();
    assert_eq!(
        kinds,
        vec![
            LexKind::OpenParen,
            LexKind::CloseParen,
            LexKind::Comma,
            LexKind::OpenAngleBracket,
            LexKind::CloseAngleBracket,
            LexKind::Eq,
            LexKind::Bang,
            LexKind::And,
            LexKind::Backquote,
            LexKind::Backquote,
            LexKind::LineComment,
            LexKind::Whitespace,
            LexKind::EOF,
        ]
    );
}

#[test]
fn whitespace_run_is_one_token_with_span() {
    let tokens = lex_all("a \t\n  b");
    assert_eq!(tokens[1].kind, LexKind::Whitespace);
    assert_eq!(tokens[1].len, 5);
    assert_eq!(tokens[1].span, Span::new(1, 2, 2, 2));
    assert_eq!(tokens[2].span, Span::new(2, 2, 3, 3));
    assert_eq!(tokens[2].as_str("a \t\n  b"), "b");
}

#[test]
fn empty_list_parses_to_list_nil() {
    let mut reader = StringReader::new("()");
    let t = reader.next_token().unwrap();
    assert!(matches!(t.kind, TokenKind::ListNil));
    assert_eq!(t.span, Span::new(1, 1, 1, 2));
    assert_eq!(transpile("()").unwrap(), "()");
    assert_eq!(transpile("( \n )").unwrap(), "()");
}

#[test]
fn tail_ends_with_one_nil() {
    let mut reader = StringReader::new("(a b (c) d)");
    let t = reader.next_token().unwrap();
    match t.kind {
        TokenKind::SExpr(SExpr::Cons { car, cdr }) => {
            assert!(matches!(car.kind, TokenKind::Atom(_)));
            assert_eq!(cdr.len(), 4);
            assert!(matches!(cdr[3].kind, TokenKind::Nil));
            for c in &cdr[..3] {
                assert!(!matches!(c.kind, TokenKind::Nil));
            }
            match &cdr[1].kind {
                TokenKind::SExpr(SExpr::Cons { cdr: inner, .. }) => {
                    assert_eq!(inner.len(), 1);
                    assert!(matches!(inner[0].kind, TokenKind::Nil));
                }
                _ => panic!("expected a nested form"),
            }
        }
        _ => panic!("expected a form"),
    }
}

#[test]
fn form_span_runs_from_open_to_matching_close() {
    let mut reader = StringReader::new("  (a\n  (b c))");
    let t = reader.next_token().unwrap();
    assert_eq!(t.span, Span::new(1, 2, 3, 8));
    match t.kind {
        TokenKind::SExpr(SExpr::Cons { cdr, .. }) => {
            assert_eq!(cdr[0].span, Span::new(2, 2, 3, 7));
        }
        _ => panic!("expected a form"),
    }
    assert!(matches!(reader.next_token().unwrap().kind, TokenKind::EOF));
}

#[test]
fn rendering_is_deterministic() {
    let src = "(f (g x) \"y\")\n(h)";
    assert_eq!(transpile(src).unwrap(), transpile(src).unwrap());
}

#[test]
fn comments_and_whitespace_between_forms() {
    assert_eq!(transpile("; note\n(a)\n\n(b 1)").unwrap(), "\na()\nb(1)");
}

#[test]
fn comment_inside_form_is_unexpected() {
    match transpile("(a ; c\n)") {
        Err(TranspileError::ParseError(ParseError::UnexpectedToken(_, got))) => {
            assert_eq!(got.kind, LexKind::LineComment);
        }
        Ok(s) => panic!("unexpected success: {:?}", s),
    }
}

#[test]
fn top_level_empty_lists_are_appended() {
    assert_eq!(transpile("() (a)").unwrap(), "()\na()");
}

#[test]
fn literal_head_ignores_tail() {
    assert_eq!(transpile("(\"x\" 1 2)").unwrap(), "\n\"x\"");
}

#[test]
fn empty_list_head_appends_parens() {
    assert_eq!(transpile("(() 1)").unwrap(), "()");
}

#[test]
fn empty_source_renders_nothing() {
    assert_eq!(transpile("").unwrap(), "");
    assert_eq!(transpile("  \n ; only a comment").unwrap(), "");
}

#[test]
fn atoms_and_empty_lists_in_tail() {
    assert_eq!(transpile("(f () 'q <)").unwrap(), "\nf(() ' q <)");
}

#[test]
fn make_span_counts_rows_and_columns() {
    let chars = ['x', 'a', '\n', 'b'];
    let (span, rows, col) = Span::make_span(3, 5, &chars, 1, 3);
    assert_eq!(span, Span::new(3, 4, 5, 1));
    assert_eq!(rows, 1);
    assert_eq!(col, 2);
    let (span, rows, col) = Span::make_span(1, 1, &chars, 1, 2);
    assert_eq!(span, Span::new(1, 1, 1, 2));
    assert_eq!(rows, 1);
    assert_eq!(col, 1);
}

#[test]
fn token_accessors() {
    let t = Token::new(LexKind::Ident, 2, Span::new(1, 1, 2, 3), 1);
    assert_eq!(*t.kind(), LexKind::Ident);
    assert_eq!(t.as_str("xab"), "ab");
    let eof = Token::new(LexKind::EOF, 0, Span::new(0, 0, 0, 0), 3);
    assert_eq!(eof.as_str("xab"), "");
}

#[test]
fn unicode_whitespace_is_trimmed_from_arguments() {
    assert_eq!(transpile("(f x\u{3000})").unwrap(), "\nf(x)");
    assert_eq!(transpile("(f é)").unwrap(), "\nf(é)");
}
