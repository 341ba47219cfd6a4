use topcoat::attr::ComponentAttr;

fn parse_err(source: &str) -> String {
    match ComponentAttr::parse_str(source) {
        Ok(_) => panic!("expected parse error for `{source}`"),
        Err(err) => err.message(),
    }
}

#[test]
fn parses_empty_arguments() {
    let attr = ComponentAttr::parse_str("").unwrap();
    assert!(!attr.boxed());
    assert!(!attr.rerender());
}

#[test]
fn parses_boxed() {
    let attr = ComponentAttr::parse_str("boxed").unwrap();
    assert!(attr.boxed());
}

#[test]
fn rejects_unknown_argument() {
    assert!(parse_err("pinned").contains("expected `boxed` or `rerender`"));
}

#[test]
fn rejects_trailing_tokens() {
    assert!(parse_err("boxed, extra").contains("expected `boxed` or `rerender`"));
}

#[test]
fn parses_rerender_with_boxed() {
    let attr = ComponentAttr::parse_str("rerender, boxed").unwrap();
    assert!(attr.rerender());
    assert!(attr.boxed());
}

#[test]
fn rejects_duplicate_flags() {
    assert_eq!(parse_err("boxed, boxed"), "duplicate `boxed` argument");
    assert_eq!(parse_err("rerender, rerender"), "duplicate `rerender` argument");
}

#[test]
fn accepts_a_trailing_comma() {
    let attr = ComponentAttr::parse_str("rerender,").unwrap();
    assert!(attr.rerender());
    assert!(!attr.boxed());
}

#[test]
fn reports_syntax_errors_from_the_parser() {
    assert!(!parse_err("boxed rerender").is_empty());
    assert!(!parse_err("boxed rerender").contains("expected `boxed` or `rerender`"));
}

#[test]
fn reads_flags_from_identifier_lists() {
    let args = vec!["boxed".to_string(), "rerender".to_string()];
    let attr = ComponentAttr::from_args(&args).unwrap();
    assert!(attr.boxed() && attr.rerender());
    let args = vec!["boxed".to_string(), "pinned".to_string()];
    assert_eq!(
        ComponentAttr::from_args(&args).unwrap_err().message(),
        "expected `boxed` or `rerender`"
    );
}
