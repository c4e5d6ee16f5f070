use valve_kv_tools::{FormatterConfig, Position, Range};

#[test]
fn test_range() {
    let range = Range::new(Position::new(1, 2), Position::new(3, 4));
    assert_eq!(range.start.line, 1);
    assert_eq!(range.start.character, 2);
    assert_eq!(range.end.line, 3);
    assert_eq!(range.end.character, 4);
}

#[test]
fn test_formatter_config() {
    let mut config = FormatterConfig::default();
    assert!(!config.use_tabs);
    config.use_tabs = true;
    assert!(config.use_tabs);
    assert_eq!(config.indent_size, 4);
    config.indent_size = 2;
    assert_eq!(config.indent_size, 2);
    assert_eq!(config.max_empty_lines, 1);
    config.max_empty_lines = 2;
    assert_eq!(config.max_empty_lines, 2);
}
