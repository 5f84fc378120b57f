use generator::base::text::escape_literal;

#[test]
fn literal_escapes_backslashes_and_quotes() {
    assert_eq!(escape_literal(r#"a\b"c"#), r#"a\\b\"c"#);
    assert_eq!(escape_literal("plain text"), "plain text");
    assert_eq!(escape_literal(""), "");
    assert_eq!(escape_literal("\"\\"), "\\\"\\\\");
}
