//! Tests of the configuration compiler: the tables a configuration
//! denotes, and the error each malformed configuration is rejected with.

use unstruct::config::parse;
use unstruct::config::ConfigError;
use unstruct::output::format_line;
use unstruct::output::DELIMITER;
use unstruct::output::TERMINATOR;

#[test]
fn flat_config_builds_the_tables() {
    let cfg = parse("\"Record\" { id = \"ID\" name = \"Name\" }").unwrap();
    assert_eq!(cfg.header, vec!["id".to_string(), "name".to_string()]);
    assert_eq!(cfg.levels, vec![0usize, 2usize]);
    assert_eq!(cfg.matcher.get(&"ID".to_string(), 2), Some(&"id".to_string()));
    assert_eq!(cfg.matcher.get(&"Name".to_string(), 2), Some(&"name".to_string()));
    assert_eq!(cfg.matcher.get(&"ID".to_string(), 1), None);
    let cols = cfg.elements.get(&"Record".to_string(), 1).unwrap();
    assert_eq!(cols, &vec!["id".to_string(), "name".to_string()]);
}

#[test]
fn nested_config_registers_groups_per_depth() {
    let cfg = parse(
        "\"Data\" {\n    marker = \"Marker\"\n    Rec/@keep == \"yes\"\n    \"Rec\" {\n        id = \"ID\"\n    }\n}",
    )
    .unwrap();
    assert_eq!(cfg.header, vec!["marker".to_string(), "id".to_string()]);
    assert_eq!(cfg.levels, vec![0usize, 1usize, 1usize]);
    assert!(cfg.elements.contains(&"Data".to_string(), 1));
    assert!(cfg.elements.contains(&"Rec".to_string(), 2));
    assert!(!cfg.elements.contains(&"Rec".to_string(), 1));
    assert_eq!(cfg.filters.get(&"Rec/@keep".to_string(), 2), Some(&"yes".to_string()));
    assert_eq!(cfg.matcher.get(&"ID".to_string(), 3), Some(&"id".to_string()));
}

#[test]
fn duplicate_columns_are_preserved_in_header_order() {
    let cfg = parse("\"R\" { a = \"X\" b = \"Y\" a = \"Z\" }").unwrap();
    assert_eq!(
        cfg.header,
        vec!["a".to_string(), "b".to_string(), "a".to_string()]
    );
    assert_eq!(cfg.levels, vec![0usize, 3usize]);
}

#[test]
fn directives_without_spaces_parse_too() {
    let cfg = parse("\"R\"{a=\"X\"}").unwrap();
    assert_eq!(cfg.header, vec!["a".to_string()]);
    assert_eq!(cfg.matcher.get(&"X".to_string(), 2), Some(&"a".to_string()));
}

#[test]
fn attribute_paths_are_plain_keys() {
    let cfg = parse("\"R\" { t = \"Item/@type\" }").unwrap();
    assert_eq!(
        cfg.matcher.get(&"Item/@type".to_string(), 2),
        Some(&"t".to_string())
    );
}

#[test]
fn unterminated_quote_is_rejected() {
    assert_eq!(parse("\"Rec\" { a = \"X }").err(), Some(ConfigError::UnterminatedQuote));
}

#[test]
fn unclosed_block_is_rejected() {
    assert_eq!(parse("\"Rec\" {").err(), Some(ConfigError::UnclosedBlock));
    assert_eq!(parse("\"Rec\" { \"Sub\" { } ").err(), Some(ConfigError::UnclosedBlock));
}

#[test]
fn block_without_brace_is_rejected() {
    assert_eq!(parse("\"Rec\"").err(), Some(ConfigError::MissingBrace));
    assert_eq!(parse("\"Rec\" id").err(), Some(ConfigError::MissingBrace));
    assert_eq!(parse("\"Rec\" { \"Sub\" x = \"Y\" }").err(), Some(ConfigError::MissingBrace));
}

#[test]
fn dangling_name_is_rejected() {
    assert_eq!(parse("\"Rec\" { id }").err(), Some(ConfigError::DanglingName));
    assert_eq!(parse("\"Rec\" { id").err(), Some(ConfigError::DanglingName));
}

#[test]
fn directive_missing_its_path_is_rejected() {
    assert_eq!(parse("\"Rec\" { id = }").err(), Some(ConfigError::MalformedDirective));
    assert_eq!(parse("\"Rec\" { id =").err(), Some(ConfigError::MalformedDirective));
    assert_eq!(parse("\"Rec\" { id = name }").err(), Some(ConfigError::MalformedDirective));
}

#[test]
fn filter_missing_its_literal_is_rejected() {
    assert_eq!(parse("\"Rec\" { p == }").err(), Some(ConfigError::MalformedFilter));
    assert_eq!(parse("\"Rec\" { p == q }").err(), Some(ConfigError::MalformedFilter));
}

#[test]
fn stray_tokens_are_rejected() {
    assert_eq!(parse("\"Rec\" { = }").err(), Some(ConfigError::UnexpectedToken));
    assert_eq!(parse("id = \"X\"").err(), Some(ConfigError::UnexpectedToken));
    assert_eq!(parse("\"A\" { } \"B\" { }").err(), Some(ConfigError::UnexpectedToken));
}

#[test]
fn empty_text_is_rejected() {
    assert_eq!(parse("").err(), Some(ConfigError::EmptyConfig));
    assert_eq!(parse("   \n\t  ").err(), Some(ConfigError::EmptyConfig));
}

#[test]
fn lines_are_joined_by_tab_and_closed_by_newline() {
    assert_eq!(DELIMITER, '\t');
    assert_eq!(TERMINATOR, '\n');
    let fields = vec!["a".to_string(), "b".to_string(), "".to_string()];
    assert_eq!(format_line(&fields), "a\tb\t\n");
    assert_eq!(format_line(&vec!["x".to_string()]), "x\n");
    let empty: Vec<String> = Vec::new();
    assert_eq!(format_line(&empty), "");
}
