use uncomment::emitter::emit_stripped;
use uncomment::lexer::Lexer;
use uncomment::rules::{LanguageRules, StringDelimiter};
use uncomment::token::{Token, TokenKind};

fn rust_rules() -> LanguageRules {
    LanguageRules {
        name: "Rust".into(),
        extensions: vec!["rs".into()],
        line_comments: vec!["//".into()],
        block_comments: vec![["/*".into(), "*/".into()]],
        raw_strings: true,
        strings: vec![
            StringDelimiter {
                open: "\"".into(),
                close: "\"".into(),
                escape: true,
                multiline: false,
                char_literal: false,
            },
            StringDelimiter {
                open: "'".into(),
                close: "'".into(),
                escape: true,
                multiline: false,
                char_literal: true,
            },
        ],
    }
}

fn lex(src: &str, rules: &LanguageRules) -> Vec<Token> {
    let chars: Vec<char> = src.chars().collect();
    Lexer::new(&chars, rules).tokenize()
}

fn kinds(tokens: &[Token]) -> Vec<TokenKind> {
    tokens.iter().map(|t| t.kind.clone()).collect()
}

fn strip(src: &str, rules: &LanguageRules) -> String {
    emit_stripped(&lex(src, rules))
}

#[test]
fn comment_in_string_is_not_stripped() {
    let src = r#"let s = "hello // world";"#;
    let tokens = lex(src, &rust_rules());
    assert!(!kinds(&tokens).contains(&TokenKind::LineComment));
}

#[test]
fn line_comment_produces_token() {
    let src = "let x = 1; // assign\nlet y = 2;";
    let tokens = lex(src, &rust_rules());
    assert!(kinds(&tokens).contains(&TokenKind::LineComment));
}

#[test]
fn block_comment_produces_token() {
    let src = "a /* block */ b";
    let tokens = lex(src, &rust_rules());
    assert!(kinds(&tokens).contains(&TokenKind::BlockComment));
}

#[test]
fn newline_after_line_comment_is_preserved() {
    let src = "a // comment\nb";
    let tokens = lex(src, &rust_rules());
    let ks = kinds(&tokens);
    let comment_pos = ks
        .iter()
        .position(|k| k == &TokenKind::LineComment)
        .unwrap();
    assert_eq!(ks[comment_pos + 1], TokenKind::Newline);
}

#[test]
fn escaped_quote_does_not_end_string() {
    let src = r#"let s = "he said \"hi\"";"#;
    let tokens = lex(src, &rust_rules());
    let string_count = kinds(&tokens)
        .iter()
        .filter(|k| k == &&TokenKind::StringLiteral)
        .count();
    assert_eq!(string_count, 1);
}

#[test]
fn raw_string_hides_double_slash() {
    let src = r####"let s = r#"hello // world"#;"####;
    let tokens = lex(src, &rust_rules());
    assert!(
        !kinds(&tokens).contains(&TokenKind::LineComment),
        "// inside raw string should not become a comment"
    );
}

#[test]
fn raw_string_hides_block_comment() {
    let src = r####"let s = r#"/* not a comment */"#;"####;
    let tokens = lex(src, &rust_rules());
    assert!(
        !kinds(&tokens).contains(&TokenKind::BlockComment),
        "/* */ inside raw string should not become a block comment"
    );
}

#[test]
fn raw_string_no_hashes() {
    let src = "let s = r\"hello // world\"; // real";
    let tokens = lex(src, &rust_rules());
    let comments: Vec<_> = tokens
        .iter()
        .filter(|t| t.kind == TokenKind::LineComment)
        .collect();
    assert_eq!(
        comments.len(),
        1,
        "only the real comment after the raw string should be found"
    );
}

#[test]
fn raw_string_multiple_hashes() {
    let src = r#####"let s = r##"has "one" hash and r#"nested"# inside"##; // real"#####;
    let tokens = lex(src, &rust_rules());
    let comments: Vec<_> = tokens
        .iter()
        .filter(|t| t.kind == TokenKind::LineComment)
        .collect();
    assert_eq!(comments.len(), 1, "only one real comment expected");
}

#[test]
fn raw_string_content_preserved_verbatim() {
    let src = "let s = r\"C:\\Users\\foo\"; // strip";
    let result = strip(src, &rust_rules());
    assert!(
        result.contains(r"C:\Users\foo"),
        "raw string content must be verbatim"
    );
    assert!(
        !result.contains("strip"),
        "comment after raw string must be removed"
    );
}

#[test]
fn lifetime_annotation_does_not_eat_comment() {
    let src = "fn foo<'a>(s: &'a str) -> &'a str { // comment\n    s\n}";
    let result = strip(src, &rust_rules());
    assert!(
        !result.contains("comment"),
        "comment after lifetime annotation must be stripped"
    );
    assert!(
        result.contains("'a"),
        "lifetime annotation must be preserved"
    );
}

#[test]
fn char_literals_preserved() {
    let src = "let a = 'x'; // strip\nlet b = '\\n'; // strip\nlet c = '\\''; // strip\n";
    let result = strip(src, &rust_rules());
    assert!(result.contains("'x'"));
    assert!(result.contains("'\\n'"));
    assert!(result.contains("'\\''"));
    assert!(!result.contains("strip"));
}

// Further cases.

fn texts(tokens: &[Token]) -> Vec<(TokenKind, String)> {
    tokens.iter().map(|t| (t.kind, t.text.clone())).collect()
}

#[test]
fn empty_source_has_no_tokens() {
    assert!(lex("", &rust_rules()).is_empty());
}

#[test]
fn exact_token_stream() {
    let tokens = lex("a//x\n\"s\"/*y*/", &rust_rules());
    assert_eq!(
        texts(&tokens),
        vec![
            (TokenKind::Code, "a".to_string()),
            (TokenKind::LineComment, "x".to_string()),
            (TokenKind::Newline, "\n".to_string()),
            (TokenKind::StringLiteral, "\"s\"".to_string()),
            (TokenKind::BlockComment, "y".to_string()),
        ]
    );
}

#[test]
fn unterminated_block_comment_runs_to_end() {
    let tokens = lex("a /* open\nstill", &rust_rules());
    assert_eq!(
        texts(&tokens).last().unwrap(),
        &(TokenKind::BlockComment, " open\nstill".to_string())
    );
}

#[test]
fn single_line_string_stops_at_newline() {
    let tokens = lex("\"abc\nd", &rust_rules());
    assert_eq!(
        texts(&tokens),
        vec![
            (TokenKind::StringLiteral, "\"abc".to_string()),
            (TokenKind::Newline, "\n".to_string()),
            (TokenKind::Code, "d".to_string()),
        ]
    );
}

#[test]
fn unicode_char_escape_is_a_literal() {
    let tokens = lex("'\\u{1F600}'", &rust_rules());
    assert_eq!(
        texts(&tokens),
        vec![(TokenKind::StringLiteral, "'\\u{1F600}'".to_string())]
    );
}

#[test]
fn lifetime_quote_is_code() {
    let tokens = lex("'a b", &rust_rules());
    assert_eq!(tokens[0].kind, TokenKind::Code);
    assert_eq!(tokens[0].text, "'");
}

#[test]
fn longest_opener_wins() {
    let mut rules = rust_rules();
    rules.line_comments = vec!["/".into(), "///".into()];
    rules.block_comments = vec![];
    let tokens = lex("///doc", &rules);
    assert_eq!(texts(&tokens), vec![(TokenKind::LineComment, "doc".to_string())]);
}

#[test]
fn multibyte_line_opener_skips_one_char() {
    let mut rules = rust_rules();
    rules.line_comments = vec!["\u{a7}".into()];
    // The opener is one character (two bytes): the body starts right after it.
    let tokens = lex("\u{a7}abc", &rules);
    assert_eq!(texts(&tokens), vec![(TokenKind::LineComment, "abc".to_string())]);
}

#[test]
fn multibyte_line_opener_keeps_newline_and_code() {
    let mut rules = rust_rules();
    rules.line_comments = vec!["\u{a7}".into()];
    let tokens = lex("\u{a7}\nx", &rules);
    assert_eq!(
        texts(&tokens),
        vec![
            (TokenKind::LineComment, "".to_string()),
            (TokenKind::Newline, "\n".to_string()),
            (TokenKind::Code, "x".to_string()),
        ]
    );
    assert_eq!(emit_stripped(&tokens), "\nx");
}

#[test]
fn raw_string_unterminated_runs_to_end() {
    let tokens = lex("r#\"abc\"", &rust_rules());
    assert_eq!(texts(&tokens), vec![(TokenKind::StringLiteral, "r#\"abc\"".to_string())]);
}

#[test]
fn multiline_string_spans_lines() {
    let mut rules = rust_rules();
    rules.strings = vec![StringDelimiter {
        open: "\"\"\"".into(),
        close: "\"\"\"".into(),
        escape: false,
        multiline: true,
        char_literal: false,
    }];
    let tokens = lex("\"\"\"a\n# b\"\"\"#c", &rules);
    assert_eq!(tokens[0].kind, TokenKind::StringLiteral);
    assert_eq!(tokens[0].text, "\"\"\"a\n# b\"\"\"");
}

#[test]
fn tokens_cover_the_source() {
    let src = "x = 'c'; // note\ny = \"q\" /* b */ + r#\"z\"#;";
    let tokens = lex(src, &rust_rules());
    let mut rebuilt = String::new();
    for t in &tokens {
        match t.kind {
            TokenKind::LineComment => {
                rebuilt.push_str("//");
                rebuilt.push_str(&t.text);
            }
            TokenKind::BlockComment => {
                rebuilt.push_str("/*");
                rebuilt.push_str(&t.text);
                rebuilt.push_str("*/");
            }
            _ => rebuilt.push_str(&t.text),
        }
    }
    assert_eq!(rebuilt, src);
}

#[test]
fn line_comment_then_newline_token() {
    let tokens = lex("// a\n// b\nc", &rust_rules());
    for i in 0..tokens.len() - 1 {
        if tokens[i].kind == TokenKind::LineComment {
            assert_eq!(tokens[i + 1].kind, TokenKind::Newline);
        }
    }
}

#[test]
fn new_token_keeps_fields() {
    let t = Token::new(TokenKind::Code, "z".to_string());
    assert_eq!(t.kind, TokenKind::Code);
    assert_eq!(t.text, "z");
}
