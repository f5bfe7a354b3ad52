use bytecode_filter::{parse, Expr, ParseError, ParserConfig};

fn test_config() -> ParserConfig {
    let mut config = ParserConfig::default();
    config.add_field("LEVEL", 0);
    config.add_field("CODE", 1);
    config.add_field("METHOD", 2);
    config.add_field("PATH", 3);
    config.add_field("HEADERS", 4);
    config.add_field("BODY", 5);
    config
}

fn parse_expr(input: &str) -> Result<Expr, ParseError> {
    let config = test_config();
    parse(input, &config)
}

#[test]
fn test_bool_literals() {
    assert_eq!(parse_expr("true").unwrap(), Expr::Bool(true));
    assert_eq!(parse_expr("false").unwrap(), Expr::Bool(false));
}

#[test]
fn parser_test_rand() {
    assert_eq!(parse_expr("rand(100)").unwrap(), Expr::Rand(100));
    assert_eq!(parse_expr("rand(1)").unwrap(), Expr::Rand(1));
}

#[test]
fn test_payload_contains() {
    assert_eq!(
        parse_expr(r#"payload contains "error""#).unwrap(),
        Expr::Contains("error".into())
    );
}

#[test]
fn test_payload_matches() {
    assert_eq!(
        parse_expr(r#"payload matches "error_[0-9]+""#).unwrap(),
        Expr::Matches("error_[0-9]+".into())
    );
}

#[test]
fn test_field_equals() {
    assert_eq!(
        parse_expr(r#"LEVEL == "error""#).unwrap(),
        Expr::PartEquals {
            part: "LEVEL".into(),
            value: "error".into(),
        }
    );
}

#[test]
fn test_field_in_set() {
    assert_eq!(
        parse_expr(r#"LEVEL in {"error", "warn", "fatal"}"#).unwrap(),
        Expr::PartInSet {
            part: "LEVEL".into(),
            values: vec!["error".into(), "warn".into(), "fatal".into()],
        }
    );
}

#[test]
fn parser_test_header_iequals() {
    assert_eq!(
        parse_expr(r#"HEADERS.header("x-custom") iequals "value""#).unwrap(),
        Expr::HeaderIEquals {
            part: "HEADERS".into(),
            header: "x-custom".into(),
            value: "value".into(),
        }
    );
}

#[test]
fn parser_test_and() {
    let expr = parse_expr(r#"LEVEL == "error" AND CODE == "500""#).unwrap();
    assert!(matches!(expr, Expr::And(_, _)));
}

#[test]
fn parser_test_or() {
    let expr = parse_expr(r#"LEVEL == "error" OR LEVEL == "warn""#).unwrap();
    assert!(matches!(expr, Expr::Or(_, _)));
}

#[test]
fn parser_test_not() {
    let expr = parse_expr(r#"NOT LEVEL == "debug""#).unwrap();
    assert!(matches!(expr, Expr::Not(_)));
}

#[test]
fn test_parentheses() {
    let expr =
        parse_expr(r#"(LEVEL == "error" OR LEVEL == "warn") AND BODY not_empty"#).unwrap();
    match expr {
        Expr::And(left, _) => {
            assert!(matches!(*left, Expr::Or(_, _)));
        }
        _ => panic!("Expected And expression"),
    }
}

#[test]
fn test_complex_filter() {
    let input = r#"
        CODE == "500"
        AND METHOD == "POST"
        AND HEADERS.header("Content-Type") iequals "application/json"
    "#;
    let expr = parse_expr(input).unwrap();

    match expr {
        Expr::And(left, right) => {
            assert!(matches!(*left, Expr::And(_, _)));
            assert!(matches!(*right, Expr::HeaderIEquals { .. }));
        }
        _ => panic!("Expected And expression"),
    }
}

#[test]
fn test_field_is_empty() {
    assert_eq!(
        parse_expr("BODY is_empty").unwrap(),
        Expr::PartIsEmpty {
            part: "BODY".into()
        }
    );
}

#[test]
fn test_field_not_empty() {
    assert_eq!(
        parse_expr("BODY not_empty").unwrap(),
        Expr::PartNotEmpty {
            part: "BODY".into()
        }
    );
}

#[test]
fn test_combined_with_rand() {
    let expr = parse_expr(r#"LEVEL == "error" AND rand(100)"#).unwrap();
    match expr {
        Expr::And(left, right) => {
            assert!(matches!(*left, Expr::PartEquals { .. }));
            assert!(matches!(*right, Expr::Rand(100)));
        }
        _ => panic!("Expected And expression"),
    }
}
