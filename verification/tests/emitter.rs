use uncomment::emitter::{emit_count, emit_stripped, list_comments};
use uncomment::lexer::Lexer;
use uncomment::rules::{LanguageRules, StringDelimiter};
use uncomment::token::{Token, TokenKind};

fn c_rules() -> LanguageRules {
    LanguageRules {
        name: "C".into(),
        extensions: vec!["c".into()],
        line_comments: vec!["//".into()],
        block_comments: vec![["/*".into(), "*/".into()]],
        raw_strings: false,
        strings: vec![StringDelimiter {
            open: "\"".into(),
            close: "\"".into(),
            escape: true,
            multiline: false,
            char_literal: false,
        }],
    }
}

fn lex(src: &str) -> Vec<Token> {
    let chars: Vec<char> = src.chars().collect();
    let rules = c_rules();
    Lexer::new(&chars, &rules).tokenize()
}

fn tok(kind: TokenKind, text: &str) -> Token {
    Token::new(kind, text.to_string())
}

#[test]
fn strip_removes_line_comment_keeps_newline() {
    assert_eq!(emit_stripped(&lex("a; // x\nb;")), "a; \nb;");
}

#[test]
fn strip_replaces_block_comment_with_space() {
    assert_eq!(emit_stripped(&lex("a/*x*/b")), "a b");
}

#[test]
fn strip_keeps_comment_free_source() {
    let src = "int x = \"//\"; /\n";
    assert_eq!(emit_stripped(&lex(src)), src);
}

#[test]
fn strip_never_lengthens() {
    let src = "/**/x/**/";
    let out = emit_stripped(&lex(src));
    assert_eq!(out, " x ");
    assert!(out.chars().count() <= src.chars().count());
}

#[test]
fn strip_on_given_tokens() {
    let tokens = vec![
        tok(TokenKind::Code, "a"),
        tok(TokenKind::BlockComment, "zz"),
        tok(TokenKind::StringLiteral, "\"s\""),
        tok(TokenKind::LineComment, "c"),
        tok(TokenKind::Newline, "\n"),
    ];
    assert_eq!(emit_stripped(&tokens), "a \"s\"\n");
}

#[test]
fn count_comments() {
    assert_eq!(emit_count(&lex("// a\n/* b */ x /* c */\n\"/*\"")), (1, 2));
    assert_eq!(emit_count(&[]), (0, 0));
}

#[test]
fn list_line_comment_is_trimmed_with_line() {
    let entries = list_comments(&lex("x\n\n//   hello  \n"));
    assert_eq!(entries.len(), 1);
    assert_eq!(entries[0].line, 3);
    assert_eq!(entries[0].text, "hello");
}

#[test]
fn list_block_comment_shows_first_line_and_ellipsis() {
    let entries = list_comments(&lex("/*\n   first  \n\n second\n*/ y /* one */ /*  \n */"));
    assert_eq!(entries.len(), 3);
    assert_eq!(entries[0].line, 1);
    assert_eq!(entries[0].text, "/* first \u{2026} */");
    assert_eq!(entries[1].text, "/* one */");
    assert_eq!(entries[2].text, "/* (empty) */");
}

#[test]
fn list_lines_count_newline_tokens_only() {
    // A block comment spanning lines does not advance the line number.
    let entries = list_comments(&lex("/* a\nb */ // c\n// d"));
    let lines: Vec<usize> = entries.iter().map(|e| e.line).collect();
    assert_eq!(lines, vec![1, 1, 2]);
}

#[test]
fn listing_matches_count() {
    let tokens = lex("// a\n/* b */\n// c /* d */\n\"// e\"");
    let (lc, bc) = emit_count(&tokens);
    assert_eq!(list_comments(&tokens).len(), lc + bc);
}
