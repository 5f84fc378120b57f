use generator::base::template::expander::{expand_patterns, expand_templates, TemplateMap};
use generator::config::PatternDef;

#[test]
fn test_nested_templates() {
    let mut templates = TemplateMap::new();
    templates.insert("A".to_string(), r"{B}".to_string());
    templates.insert("B".to_string(), r"abc".to_string());
    let input = r"{A}";
    let mut seen = Vec::new();
    let result = expand_templates(input, &templates, &mut seen).unwrap();
    assert_eq!(result, "abc");
}

#[test]
fn test_template_with_braces_not_template() {
    let templates = TemplateMap::new();
    let input = r"\{not a template\}";
    let mut seen = Vec::new();
    let result = expand_templates(input, &templates, &mut seen).unwrap();
    assert_eq!(result, r"\{not a template\}");
}

#[test]
fn test_template_undefined() {
    let templates = TemplateMap::new();
    let input = r"{UNDEF}";
    let mut seen = Vec::new();
    let result = expand_templates(input, &templates, &mut seen);
    assert!(result.is_err());
    let err = result.unwrap_err();
    let msg = err.to_string();
    assert!(msg.contains("Undefined template"));
}

#[test]
fn test_template_with_escape() {
    let mut templates = TemplateMap::new();
    templates.insert("ESC".to_string(), r"\n".to_string());
    let input = r"{ESC}";
    let mut seen = Vec::new();
    let result = expand_templates(input, &templates, &mut seen).unwrap();
    assert_eq!(result, r"\n");
}

#[test]
fn test_expand_patterns_with_templates() {
    let mut templates = TemplateMap::new();
    templates.insert("DIGIT".to_string(), r"[0-9]".to_string());
    let patterns = vec![PatternDef {
        token: "NUM".to_string(),
        regex: "{DIGIT}+".to_string(),
    }];
    let expanded = expand_patterns(patterns, &templates).unwrap();
    assert_eq!(expanded[0].regex, r"[0-9]+");
}

#[test]
fn template_cycle_is_refused() {
    let mut templates = TemplateMap::new();
    templates.insert("A".to_string(), r"x{B}".to_string());
    templates.insert("B".to_string(), r"{A}".to_string());
    let mut seen = Vec::new();
    let result = expand_templates("{A}", &templates, &mut seen);
    assert!(result.is_err());
}

#[test]
fn template_map_insert_replaces() {
    let mut templates = TemplateMap::new();
    assert_eq!(templates.insert("A".to_string(), "1".to_string()), None);
    assert_eq!(templates.insert("A".to_string(), "2".to_string()), Some("1".to_string()));
    assert_eq!(templates.len(), 1);
    assert_eq!(templates.get(&"A".to_string()), Some(&"2".to_string()));
}

#[test]
fn plain_text_expands_to_itself() {
    let mut templates = TemplateMap::new();
    templates.insert("DIGIT".to_string(), "[0-9]".to_string());
    for text in ["[a-z]+", "a\\}b", "x*|y", ""] {
        let mut seen = Vec::new();
        assert_eq!(expand_templates(text, &templates, &mut seen).unwrap(), text);
        assert!(seen.is_empty());
    }
}

#[test]
fn reference_is_replaced_by_plain_body() {
    let mut templates = TemplateMap::new();
    templates.insert("_Digit9".to_string(), "[0-9]+".to_string());
    let mut seen = Vec::new();
    assert_eq!(expand_templates("{_Digit9}", &templates, &mut seen).unwrap(), "[0-9]+");
}

#[test]
fn reference_between_text_is_fully_expanded() {
    let mut templates = TemplateMap::new();
    templates.insert("X".to_string(), "c{Y}".to_string());
    templates.insert("Y".to_string(), "d{2,3}".to_string());
    let mut seen = Vec::new();
    let result = expand_templates("a{X}b+", &templates, &mut seen).unwrap();
    assert_eq!(result, "acd{2,3}b+");
    assert!(seen.is_empty());
}

#[test]
fn undefined_reference_after_text_is_named() {
    let templates = TemplateMap::new();
    let mut seen = Vec::new();
    match expand_templates("ab{Z_1}c", &templates, &mut seen) {
        Err(generator::base::error::Error::Config(msg)) => assert_eq!(msg, "Undefined template: 'Z_1'"),
        _ => panic!("expected an undefined template error"),
    }
}

#[test]
fn every_reference_is_replaced_and_the_rest_copied() {
    let mut t = TemplateMap::new();
    t.insert("D".to_string(), "[0-9]".to_string());
    t.insert("W".to_string(), "{D}x".to_string());
    let mut seen: Vec<String> = Vec::new();
    let r = expand_templates("a{D}b{W}c\\d{1}", &t, &mut seen).unwrap();
    assert_eq!(r, "a[0-9]b[0-9]xc\\d{1}");
    assert!(seen.is_empty());
}
