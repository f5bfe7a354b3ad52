use bytecode_filter::{compile, CompileError, ParserConfig};
use bytes::Bytes;

fn test_config() -> ParserConfig {
    let mut config = ParserConfig::default();
    config.add_field("LEVEL", 0);
    config.add_field("CODE", 1);
    config.add_field("METHOD", 2);
    config.add_field("PATH", 3);
    config.add_field("HEADERS", 4);
    config.add_field("BODY", 5);
    config
}

fn compile_and_test(input: &str, payload: &str, expected: bool) {
    let config = test_config();
    let filter = compile(input, &config).expect("Failed to compile");
    let result = filter.evaluate(Bytes::from(payload.to_string()));
    assert_eq!(
        result, expected,
        "Filter '{}' on payload '{}' expected {} but got {}",
        input, payload, expected, result
    );
}

#[test]
fn test_compile_true() {
    compile_and_test("true", "", true);
}

#[test]
fn test_compile_false() {
    compile_and_test("false", "", false);
}

#[test]
fn test_compile_payload_contains() {
    compile_and_test(r#"payload contains "error""#, "an error occurred", true);
    compile_and_test(r#"payload contains "error""#, "all good", false);
}

#[test]
fn test_compile_field_equals() {
    compile_and_test(r#"LEVEL == "error""#, "error;;;500;;;GET", true);
    compile_and_test(r#"LEVEL == "error""#, "info;;;500;;;GET", false);
}

#[test]
fn test_compile_field_in_set() {
    compile_and_test(r#"LEVEL in {"error", "warn", "fatal"}"#, "error;;;500;;;GET", true);
    compile_and_test(r#"LEVEL in {"error", "warn", "fatal"}"#, "warn;;;500;;;GET", true);
    compile_and_test(r#"LEVEL in {"error", "warn", "fatal"}"#, "info;;;500;;;GET", false);
}

#[test]
fn test_compile_and() {
    compile_and_test(
        r#"LEVEL == "error" AND CODE == "500""#,
        "error;;;500;;;GET",
        true,
    );
    compile_and_test(
        r#"LEVEL == "error" AND CODE == "500""#,
        "error;;;200;;;GET",
        false,
    );
}

#[test]
fn test_compile_or() {
    compile_and_test(
        r#"LEVEL == "error" OR LEVEL == "warn""#,
        "error;;;500;;;GET",
        true,
    );
    compile_and_test(
        r#"LEVEL == "error" OR LEVEL == "warn""#,
        "warn;;;500;;;GET",
        true,
    );
    compile_and_test(
        r#"LEVEL == "error" OR LEVEL == "warn""#,
        "info;;;500;;;GET",
        false,
    );
}

#[test]
fn test_compile_not() {
    compile_and_test(r#"NOT LEVEL == "debug""#, "error;;;500;;;GET", true);
    compile_and_test(r#"NOT LEVEL == "debug""#, "debug;;;500;;;GET", false);
}

#[test]
fn test_compile_header_iequals() {
    let mut parts = vec![""; 6];
    parts[0] = "error";
    parts[4] = "X-Custom: value\r\n";
    let payload = parts.join(";;;");

    let config = test_config();
    let filter = compile(
        r#"HEADERS.header("x-custom") iequals "value""#,
        &config,
    )
    .unwrap();

    assert!(filter.evaluate(Bytes::from(payload)));
}

#[test]
fn test_compile_complex_filter() {
    let filter_str = r#"
        LEVEL == "error"
        AND CODE == "500"
        AND HEADERS.header("Content-Type") iequals "application/json"
    "#;

    let config = test_config();
    let filter = compile(filter_str, &config).unwrap();

    let mut parts = vec![""; 6];
    parts[0] = "error";
    parts[1] = "500";
    parts[4] = "Content-Type: application/json\r\n";
    let payload = parts.join(";;;");
    assert!(filter.evaluate(Bytes::from(payload)));

    parts[0] = "info";
    let payload = parts.join(";;;");
    assert!(!filter.evaluate(Bytes::from(payload)));
}

#[test]
fn test_compile_rand() {
    let config = test_config();
    let filter = compile("rand(2)", &config).unwrap();
    filter.reset_rand_counter();

    assert!(filter.evaluate(Bytes::new()));
    assert!(!filter.evaluate(Bytes::new()));
    assert!(filter.evaluate(Bytes::new()));
    assert!(!filter.evaluate(Bytes::new()));
}

#[test]
fn test_compile_regex() {
    compile_and_test(r#"payload matches "error_[0-9]+""#, "found error_123", true);
    compile_and_test(r#"payload matches "error_[0-9]+""#, "no errors", false);
}

#[test]
fn test_compile_unknown_field() {
    let config = test_config();
    let result = compile(r#"UNKNOWN_FIELD == "x""#, &config);
    assert!(matches!(result, Err(CompileError::UnknownField(_, _))));
}

#[test]
fn test_compile_invalid_regex() {
    let config = test_config();
    let result = compile(r#"payload matches "[invalid""#, &config);
    assert!(matches!(result, Err(CompileError::InvalidRegex { .. })));
}

#[test]
fn test_bytecode_size() {
    let config = test_config();

    let filter = compile(r#"LEVEL == "error""#, &config).unwrap();
    assert_eq!(filter.bytecode_len(), 5); // PartEquals(1 + 1 + 2) + Return(1)

    let filter = compile(
        r#"LEVEL == "error" AND CODE == "500""#,
        &config,
    )
    .unwrap();
    assert_eq!(filter.bytecode_len(), 12); // 2x PartEquals(4) + JumpIfFalse(3) + Return(1)
}
