use bytecode_filter::{LexError, Lexer, Token};

fn tokenize(input: &str) -> Result<Vec<Token>, LexError> {
    Lexer::new(input).tokenize()
}

#[test]
fn test_simple_tokens() {
    assert_eq!(
        tokenize("(){},.").unwrap(),
        vec![
            Token::LParen,
            Token::RParen,
            Token::LBrace,
            Token::RBrace,
            Token::Comma,
            Token::Dot,
        ]
    );
}

#[test]
fn test_operators() {
    assert_eq!(
        tokenize("== != && ||").unwrap(),
        vec![Token::Eq, Token::Ne, Token::And, Token::Or,]
    );
}

#[test]
fn test_strings() {
    assert_eq!(
        tokenize(r#""hello" 'world'"#).unwrap(),
        vec![Token::String("hello".into()), Token::String("world".into()),]
    );
}

#[test]
fn test_string_escapes() {
    assert_eq!(
        tokenize(r#""hello\nworld""#).unwrap(),
        vec![Token::String("hello\nworld".into()),]
    );
}

#[test]
fn test_numbers() {
    assert_eq!(
        tokenize("123 456").unwrap(),
        vec![Token::Number(123), Token::Number(456),]
    );
}

#[test]
fn test_keywords() {
    assert_eq!(
        tokenize("AND OR NOT contains matches").unwrap(),
        vec![
            Token::And,
            Token::Or,
            Token::Not,
            Token::Contains,
            Token::Matches,
        ]
    );
}

#[test]
fn test_case_insensitive_keywords() {
    assert_eq!(
        tokenize("and AND And").unwrap(),
        vec![Token::And, Token::And, Token::And,]
    );
}

#[test]
fn test_identifiers() {
    assert_eq!(
        tokenize("MESSAGE_TYPE field1").unwrap(),
        vec![
            Token::Ident("MESSAGE_TYPE".into()),
            Token::Ident("field1".into()),
        ]
    );
}

#[test]
fn test_regex_r_syntax() {
    assert_eq!(
        tokenize(r#"r"hello.*world""#).unwrap(),
        vec![Token::Regex("hello.*world".into()),]
    );
}

#[test]
fn test_regex_slash_syntax() {
    assert_eq!(
        tokenize(r#"/hello.*world/"#).unwrap(),
        vec![Token::Regex("hello.*world".into()),]
    );
}

#[test]
fn test_complex_expression() {
    let input = r#"MESSAGE_TYPE == "2" AND payload contains "error""#;
    assert_eq!(
        tokenize(input).unwrap(),
        vec![
            Token::Ident("MESSAGE_TYPE".into()),
            Token::Eq,
            Token::String("2".into()),
            Token::And,
            Token::Ident("payload".into()),
            Token::Contains,
            Token::String("error".into()),
        ]
    );
}

#[test]
fn lexer_test_rand() {
    assert_eq!(
        tokenize("rand(100)").unwrap(),
        vec![
            Token::Rand,
            Token::LParen,
            Token::Number(100),
            Token::RParen,
        ]
    );
}

#[test]
fn test_in_set() {
    assert_eq!(
        tokenize(r#"field in {"a", "b", "c"}"#).unwrap(),
        vec![
            Token::Ident("field".into()),
            Token::In,
            Token::LBrace,
            Token::String("a".into()),
            Token::Comma,
            Token::String("b".into()),
            Token::Comma,
            Token::String("c".into()),
            Token::RBrace,
        ]
    );
}

#[test]
fn test_header_syntax() {
    assert_eq!(
        tokenize(r#"field.header("X-Custom") iequals "value""#).unwrap(),
        vec![
            Token::Ident("field".into()),
            Token::Dot,
            Token::Header,
            Token::LParen,
            Token::String("X-Custom".into()),
            Token::RParen,
            Token::IEquals,
            Token::String("value".into()),
        ]
    );
}

#[test]
fn test_end_of_line_comments() {
    // Comment at end of line
    let input = "MESSAGE_TYPE == \"2\" # check type\nAND MESSAGE_SUB_TYPE == \"11\" # CUSTOM PROBE";
    assert_eq!(
        tokenize(input).unwrap(),
        vec![
            Token::Ident("MESSAGE_TYPE".into()),
            Token::Eq,
            Token::String("2".into()),
            Token::And,
            Token::Ident("MESSAGE_SUB_TYPE".into()),
            Token::Eq,
            Token::String("11".into()),
        ]
    );

    // Comment at end of input (no trailing newline)
    assert_eq!(
        tokenize("true # done").unwrap(),
        vec![Token::Ident("true".into()),]
    );

    // Only a comment
    assert_eq!(tokenize("# nothing here").unwrap(), vec![]);
}

#[test]
fn test_unterminated_string() {
    assert!(matches!(
        tokenize(r#""hello"#),
        Err(LexError::UnterminatedString(_))
    ));
}

#[test]
fn test_unterminated_regex() {
    assert!(matches!(
        tokenize(r#"/hello"#),
        Err(LexError::UnterminatedRegex(_))
    ));
}
