use bytecode_filter::{load_filter_string, LoadError, ParserConfig};
use bytes::Bytes;

fn test_config() -> ParserConfig {
    let mut config = ParserConfig::default();
    config.add_field("LEVEL", 0);
    config.add_field("CODE", 1);
    config.add_field("BODY", 2);
    config
}

#[test]
fn test_load_filter_string_with_comments() {
    let content = r#"
        # This is a comment
        LEVEL == "error"
        # Another comment
        AND CODE == "500"
    "#;

    let config = test_config();
    let filter = load_filter_string(content, &config).unwrap();

    assert!(filter.evaluate(Bytes::from("error;;;500;;;body")));
    assert!(!filter.evaluate(Bytes::from("info;;;500;;;body")));
}

#[test]
fn test_load_filter_string_empty_lines() {
    let content = r#"
        LEVEL == "error"

        OR

        LEVEL == "warn"
    "#;

    let config = test_config();
    let filter = load_filter_string(content, &config).unwrap();

    assert!(filter.evaluate(Bytes::from("error;;;500;;;body")));
    assert!(filter.evaluate(Bytes::from("warn;;;500;;;body")));
    assert!(!filter.evaluate(Bytes::from("info;;;500;;;body")));
}

#[test]
fn test_load_filter_with_directives() {
    let content = r#"
        # Test filter with embedded config
        @delimiter = ";;;"
        @field STATUS = 0
        @field CODE = 1

        STATUS == "ok" AND CODE == "200"
    "#;

    let config = ParserConfig::default();
    let filter = load_filter_string(content, &config).unwrap();

    assert!(filter.evaluate(Bytes::from("ok;;;200;;;body")));
    assert!(!filter.evaluate(Bytes::from("err;;;200;;;body")));
}

#[test]
fn test_load_filter_with_pipe_delimiter() {
    let content = r#"
        @delimiter = "|"
        @field TYPE = 0
        @field VALUE = 1

        TYPE == "A" AND VALUE == "100"
    "#;

    let config = ParserConfig::default();
    let filter = load_filter_string(content, &config).unwrap();

    assert!(filter.evaluate(Bytes::from("A|100")));
    assert!(!filter.evaluate(Bytes::from("B|100")));
    assert!(!filter.evaluate(Bytes::from("A|200")));
}

#[test]
fn test_load_filter_override_config() {
    let content = r#"
        @field EXTRA = 5

        EXTRA == "test"
    "#;

    let config = test_config();
    let filter = load_filter_string(content, &config).unwrap();

    let payload = Bytes::from("0;;;1;;;2;;;3;;;4;;;test");
    assert!(filter.evaluate(payload));
}

#[test]
fn test_invalid_directive() {
    let content = r#"
        @unknown_directive = "value"
        LEVEL == "error"
    "#;

    let config = test_config();
    let result = load_filter_string(content, &config);
    assert!(matches!(result, Err(LoadError::InvalidDirective(_))));
}

#[test]
fn test_invalid_field_index() {
    let content = r#"
        @field BAD_FIELD = not_a_number
        LEVEL == "error"
    "#;

    let config = test_config();
    let result = load_filter_string(content, &config);
    assert!(matches!(result, Err(LoadError::InvalidFieldIndex(_))));
}

#[test]
fn test_inline_comments_not_swallowed_after_join() {
    // Inline # comments on each line must not eat subsequent AND clauses
    // when the loader joins expression lines with " ".
    let content = r#"
        LEVEL == "error" # check level
        AND CODE == "500" # check code
    "#;

    let config = test_config();
    let filter = load_filter_string(content, &config).unwrap();

    // Both conditions must be enforced
    assert!(filter.evaluate(Bytes::from("error;;;500;;;body")));
    assert!(!filter.evaluate(Bytes::from("error;;;200;;;body")));  // would pass if AND was eaten
    assert!(!filter.evaluate(Bytes::from("info;;;500;;;body")));
}

#[test]
fn test_inline_comment_respects_quoted_hash() {
    // A # inside quotes must not be treated as a comment
    let content = r#"
        @field TAG = 0
        TAG == "a#b"
    "#;

    let mut config = ParserConfig::default();
    config.add_field("TAG", 0);
    let filter = load_filter_string(content, &config).unwrap();

    assert!(filter.evaluate(Bytes::from("a#b")));
    assert!(!filter.evaluate(Bytes::from("a")));
}
