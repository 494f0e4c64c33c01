use uncomment::rules::{LanguageRules, StringDelimiter};
use uncomment::text::{chars_to_string, first_nonblank_line, to_chars, trimmed, white_space};

fn chars(s: &str) -> Vec<char> {
    s.chars().collect()
}

#[test]
fn white_space_is_unicode_white_space() {
    for c in ['\t', '\n', '\r', ' ', '\u{85}', '\u{a0}', '\u{2003}', '\u{3000}'] {
        assert!(white_space(c));
        assert_eq!(white_space(c), c.is_whitespace());
    }
    for c in ['a', '_', '\u{200b}', '\u{feff}'] {
        assert!(!white_space(c));
        assert_eq!(white_space(c), c.is_whitespace());
    }
}

#[test]
fn trimmed_drops_outer_space_only() {
    let cs = chars("xx \t a b \r\n yy");
    assert_eq!(trimmed(&cs, 2, 12), "a b");
    assert_eq!(trimmed(&cs, 2, 4), "");
}

#[test]
fn first_nonblank_line_and_more() {
    assert_eq!(first_nonblank_line(&chars("\n  \n x \n")), (Some("x".to_string()), false));
    assert_eq!(first_nonblank_line(&chars(" a\n\nb")), (Some("a".to_string()), true));
    assert_eq!(first_nonblank_line(&chars(" \n\t")), (None, false));
    assert_eq!(first_nonblank_line(&[]), (None, false));
}

#[test]
fn char_conversions() {
    let cs = to_chars("h\u{e9}llo");
    assert_eq!(cs, vec!['h', '\u{e9}', 'l', 'l', 'o']);
    assert_eq!(chars_to_string(&cs, 1, 3), "\u{e9}l");
}

#[test]
fn rules_that_cannot_advance_are_detected() {
    let mut rules = LanguageRules {
        name: "X".into(),
        extensions: vec![],
        line_comments: vec!["".into()],
        block_comments: vec![["/*".into(), "".into()]],
        strings: vec![StringDelimiter {
            open: "".into(),
            close: "'".into(),
            escape: false,
            multiline: false,
            char_literal: false,
        }],
        raw_strings: false,
    };
    assert!(rules.advances_on_every_input());
    rules.block_comments.push(["".into(), "".into()]);
    assert!(!rules.advances_on_every_input());
    rules.block_comments.pop();
    rules.strings[0].close = "".into();
    assert!(!rules.advances_on_every_input());
}
