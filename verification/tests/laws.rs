use valve_kv_tools::{
    format_keyvalue, lint_keyvalue, serialize_keyvalue, FormatterConfig, KvErrorKind, KeyValue,
    Position, Range, Value,
};

#[test]
fn format_is_idempotent_on_plain_entries() {
    let input = r#"  "key"   "value"  "#;
    let once = format_keyvalue(input, FormatterConfig::default()).unwrap();
    let twice = format_keyvalue(once.as_str(), FormatterConfig::default()).unwrap();
    assert_eq!(once, twice);
}

#[test]
fn format_is_idempotent_on_sections_and_comments() {
    let input = r#"// head
"key"  /* note */
{

    "a"  "1"   // trailing


    "b"
    {
        "c" "3"
    }
}
/* tail */"#;
    let once = format_keyvalue(input, FormatterConfig::default()).unwrap();
    let twice = format_keyvalue(once.as_str(), FormatterConfig::default()).unwrap();
    assert_eq!(once, twice);
}

#[test]
fn format_is_idempotent_with_wide_blank_allowance() {
    let input = "\"key\"\n{\n    \"a\" \"1\"\n\n\n\n\n    \"b\" \"2\"\n}";
    let config = FormatterConfig {
        use_tabs: false,
        indent_size: 2,
        max_empty_lines: 3,
    };
    let once = format_keyvalue(input, config).unwrap();
    let twice = format_keyvalue(once.as_str(), config).unwrap();
    assert_eq!(once, twice);
}

#[test]
fn parse_builds_the_annotated_tree() {
    let kv = serialize_keyvalue(r#""k1" { "k2" "v" }"#).unwrap();
    assert_eq!(kv.key, "k1");
    match kv.value {
        Value::Section(entries) => {
            assert_eq!(entries.len(), 1);
            assert_eq!(entries[0].key, "k2");
            assert_eq!(entries[0].value, Value::String("v".to_string()));
        }
        Value::String(_) => panic!("root value must be a section"),
    }
}

#[test]
fn three_blank_lines_shrink_to_one() {
    let input = "\"key\"\n{\n    \"a\"    \"1\"\n\n\n\n    \"b\"    \"2\"\n}";
    let expected = "\"key\"\n{\n    \"a\"    \"1\"\n\n    \"b\"    \"2\"\n}";
    let output = format_keyvalue(input, FormatterConfig::default()).unwrap();
    assert_eq!(output, expected);
}

#[test]
fn block_comment_keeps_its_own_line_or_its_key_line() {
    // Sharing the line of the key before it: it stays there.
    let shared = r#""key"  /* comment */  "value""#;
    assert_eq!(
        format_keyvalue(shared, FormatterConfig::default()).unwrap(),
        shared
    );
    // On its own line: it stays on its own line.
    let alone = "/* comment */\n\"key\"    \"value\"";
    assert_eq!(
        format_keyvalue(alone, FormatterConfig::default()).unwrap(),
        alone
    );
}

#[test]
fn lint_reports_one_syntax_error_only() {
    let diags = lint_keyvalue("\"key\"\n{");
    assert_eq!(diags.len(), 1);
    assert_eq!(diags[0].kind, KvErrorKind::SyntaxError);
    assert!(diags
        .iter()
        .all(|d| d.kind != KvErrorKind::DuplicateError));
}

#[test]
fn lint_reports_missing_root_key() {
    let diags = lint_keyvalue("{");
    assert_eq!(diags.len(), 1);
    assert_eq!(diags[0].kind, KvErrorKind::SyntaxError);
    assert_eq!(diags[0].message, "expected COMMENT or string");
    assert_eq!(
        diags[0].range,
        Range {
            start: Position {
                line: 1,
                character: 1
            },
            end: Position {
                line: 1,
                character: 1
            }
        }
    );
}

#[test]
fn lint_reports_trailing_content() {
    let diags = lint_keyvalue(r#""a" "b" }"#);
    assert_eq!(diags.len(), 1);
    assert_eq!(diags[0].kind, KvErrorKind::SyntaxError);
    assert_eq!(diags[0].message, "expected COMMENT or EOI");
    assert_eq!(diags[0].range.start, Position::new(1, 9));
}

#[test]
fn lint_reports_unterminated_block_comment() {
    let diags = lint_keyvalue(r#""a" "b" /* open"#);
    assert_eq!(diags.len(), 1);
    assert_eq!(diags[0].kind, KvErrorKind::SyntaxError);
    assert_eq!(diags[0].range.start, Position::new(1, 9));
}

#[test]
fn serialize_rejects_unterminated_string() {
    assert!(serialize_keyvalue(r#""key"#).is_err());
}

#[test]
fn serialize_keeps_root_key_range() {
    let kv = serialize_keyvalue(r#""key" "value""#).unwrap();
    assert_eq!(
        kv.key_range,
        Range::new(Position::new(0, 0), Position::new(0, 5))
    );
}

#[test]
fn format_with_tabs_indents_by_tabs() {
    let config = FormatterConfig {
        use_tabs: true,
        indent_size: 4,
        max_empty_lines: 1,
    };
    let input = r#""key" { "a" "1" }"#;
    let expected = "\"key\"\n{\n\t\"a\"\t\"1\"\n}";
    assert_eq!(format_keyvalue(input, config).unwrap(), expected);
}

#[test]
fn format_passes_the_parse_error_through() {
    let err = format_keyvalue("\"key\"\n{", FormatterConfig::default());
    assert!(err.is_err());
}

#[test]
fn duplicate_scopes_stay_independent() {
    // The same key in different sections is no duplicate.
    let input = r#""root"
{
    "a"
    {
        "key"    "1"
    }
    "b"
    {
        "key"    "2"
    }
}"#;
    assert_eq!(lint_keyvalue(input), []);
}

#[test]
fn one_diagnostic_per_repeated_declaration() {
    let input = r#""root"
{
    "key"    "1"
    "key"    "2"
    "key"    "3"
}"#;
    let diags = lint_keyvalue(input);
    assert_eq!(diags.len(), 2);
    assert_eq!(diags[0].range.start, Position::new(3, 4));
    assert_eq!(diags[1].range.start, Position::new(4, 4));
    assert_eq!(diags[0].additional_ranges, vec![Range::new(
        Position::new(2, 4),
        Position::new(2, 9)
    )]);
    assert_eq!(diags[1].additional_ranges, vec![Range::new(
        Position::new(2, 4),
        Position::new(2, 9)
    )]);
}

#[test]
fn empty_section_formats_cleanly() {
    let input = "\"key\"\n{\n}";
    assert_eq!(
        format_keyvalue(input, FormatterConfig::default()).unwrap(),
        input
    );
    let kv = serialize_keyvalue(input).unwrap();
    assert_eq!(kv.value, Value::Section(Vec::<KeyValue>::new()));
}

#[test]
fn empty_input_wants_a_root_key() {
    let diags = lint_keyvalue("");
    assert_eq!(diags.len(), 1);
    assert_eq!(diags[0].kind, KvErrorKind::SyntaxError);
    assert_eq!(diags[0].message, "expected COMMENT or string");
    assert_eq!(diags[0].range.start, Position::new(1, 1));
}

#[test]
fn comments_alone_make_no_document() {
    let diags = lint_keyvalue("// only a comment");
    assert_eq!(diags.len(), 1);
    assert_eq!(diags[0].kind, KvErrorKind::SyntaxError);
    assert_eq!(diags[0].message, "expected COMMENT or string");
}

#[test]
fn zero_kept_empty_lines_tightens_entries() {
    let input = "\"key\"\n{\n    \"a\"    \"1\"\n\n\n    \"b\"    \"2\"\n}";
    let expected = "\"key\"\n{\n    \"a\"    \"1\"\n    \"b\"    \"2\"\n}";
    let config = FormatterConfig {
        use_tabs: false,
        indent_size: 4,
        max_empty_lines: 0,
    };
    assert_eq!(format_keyvalue(input, config).unwrap(), expected);
}

#[test]
fn format_is_idempotent_on_multiline_block_comments() {
    // The comment spans two source lines; the value sits on the line
    // the comment ends on, so it stays there on every pass.
    let input = "\"k\" /* a\nb */ \"v\"";
    let once = format_keyvalue(input, FormatterConfig::default()).unwrap();
    assert_eq!(once, "\"k\"  /* a\nb */  \"v\"");
    let twice = format_keyvalue(once.as_str(), FormatterConfig::default()).unwrap();
    assert_eq!(once, twice);
}

#[test]
fn format_is_idempotent_under_a_multiline_comment() {
    let input = "\"key\"\n{\n    \"a\" \"1\" /* first\n    second */\n    \"b\" \"2\"\n}";
    let once = format_keyvalue(input, FormatterConfig::default()).unwrap();
    let twice = format_keyvalue(once.as_str(), FormatterConfig::default()).unwrap();
    assert_eq!(once, twice);
}

#[test]
fn format_is_idempotent_on_multiline_strings() {
    let input = "\"a\nb\"   \"v\"";
    let once = format_keyvalue(input, FormatterConfig::default()).unwrap();
    let twice = format_keyvalue(once.as_str(), FormatterConfig::default()).unwrap();
    assert_eq!(once, twice);
}

#[test]
fn parse_errors_convert_to_editor_coordinates() {
    let input = "\"key\"\n{";
    let err = serialize_keyvalue(input).unwrap_err();
    let diag = err.to_diagnostic(input);
    assert_eq!(diag.range.start, Position::new(2, 2));
    assert_eq!(diag.range.end, Position::new(2, 2));
    assert_eq!(diag.message, "expected COMMENT, r_brace, or string");
    assert_eq!(diag.kind, KvErrorKind::SyntaxError);
    let ferr = format_keyvalue(input, FormatterConfig::default()).unwrap_err();
    assert_eq!(ferr.to_diagnostic(input), diag);
}
