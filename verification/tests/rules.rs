use uncomment::report::{check_output_target, merge_configs, plural_suffix, UsageError};
use uncomment::rules::{build_index, default_true, LanguageConfig, LanguageRules};

fn lang(name: &str, exts: &[&str]) -> LanguageRules {
    LanguageRules {
        name: name.into(),
        extensions: exts.iter().map(|e| e.to_string()).collect(),
        line_comments: vec!["#".into()],
        block_comments: vec![],
        strings: vec![],
        raw_strings: false,
    }
}

#[test]
fn index_finds_each_extension() {
    let index = build_index(vec![lang("Py", &["py", "pyw"]), lang("Sh", &["sh"])]);
    assert_eq!(index.get(&"pyw".to_string()).unwrap().name, "Py");
    assert_eq!(index.get(&"sh".to_string()).unwrap().name, "Sh");
    assert!(index.get(&"rs".to_string()).is_none());
}

#[test]
fn later_definition_wins() {
    let base = LanguageConfig { language: vec![lang("Old", &["x", "y"])] };
    let extra = LanguageConfig { language: vec![lang("New", &["y"])] };
    let merged = merge_configs(base, extra);
    assert_eq!(merged.language.len(), 2);
    let index = build_index(merged.language);
    assert_eq!(index.get(&"y".to_string()).unwrap().name, "New");
    assert_eq!(index.get(&"x".to_string()).unwrap().name, "Old");
}

#[test]
fn empty_index() {
    let index = build_index(vec![]);
    assert!(index.get(&String::new()).is_none());
}

#[test]
fn escape_defaults_to_true() {
    assert!(default_true());
}

#[test]
fn output_needs_single_input() {
    assert_eq!(check_output_target(true, 2), Err(UsageError::OutputNeedsSingleInput));
    assert_eq!(check_output_target(true, 1), Ok(()));
    assert_eq!(check_output_target(false, 5), Ok(()));
    assert_eq!(
        UsageError::OutputNeedsSingleInput.message(),
        "--output can only be used with a single input file"
    );
}

#[test]
fn plural_endings() {
    assert_eq!(plural_suffix(1), "");
    assert_eq!(plural_suffix(0), "s");
    assert_eq!(plural_suffix(2), "s");
}
