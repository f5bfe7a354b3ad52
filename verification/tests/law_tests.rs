use bytecode_filter::compiler::{admit_regex, resolve_field};
use bytecode_filter::pattern::CompiledRegex;
use bytecode_filter::search::SubstringFinder;
use bytecode_filter::vm::rand_1_in_n;
use bytecode_filter::{
    compile, extract_header_value, load_filter_string, parse, CompileError, CompiledFilter, Expr,
    LexError, Lexer, LoadError, Opcode, ParseError, Parser, ParserConfig, PayloadParts, Token,
};
use bytes::Bytes;

fn two_field_config() -> ParserConfig {
    let mut config = ParserConfig::default();
    config.add_field("LEVEL", 0);
    config.add_field("CODE", 1);
    config
}

#[test]
fn counter_draws_are_successive_values() {
    let config = two_field_config();
    let filter = compile("rand(3)", &config).unwrap();
    let mut counter: u64 = 0;
    let mut results = Vec::new();
    for _ in 0..6 {
        results.push(filter.evaluate_with_counter(Bytes::new(), &mut counter));
    }
    assert_eq!(results, vec![true, false, false, true, false, false]);
    assert_eq!(counter, 6);
}

#[test]
fn counter_wraps_at_the_top() {
    let config = two_field_config();
    let filter = compile("rand(2)", &config).unwrap();
    let mut counter: u64 = u64::MAX;
    assert!(!filter.evaluate_with_counter(Bytes::new(), &mut counter));
    assert_eq!(counter, 0);
    assert!(filter.evaluate_with_counter(Bytes::new(), &mut counter));
    assert_eq!(counter, 1);
}

#[test]
fn short_circuit_skips_draws() {
    let config = two_field_config();
    let filter = compile(r#"LEVEL == "error" AND rand(2)"#, &config).unwrap();
    let mut counter: u64 = 5;
    assert!(!filter.evaluate_with_counter(Bytes::from("info;;;1"), &mut counter));
    assert_eq!(counter, 5);
    assert!(!filter.evaluate_with_counter(Bytes::from("error;;;1"), &mut counter));
    assert_eq!(counter, 6);
    assert!(filter.evaluate_with_counter(Bytes::from("error;;;1"), &mut counter));
    assert_eq!(counter, 7);
}

#[test]
fn filter_without_rand_is_deterministic() {
    let config = two_field_config();
    let filter = compile(r#"NOT (LEVEL == "a" OR CODE == "b")"#, &config).unwrap();
    for _ in 0..3 {
        assert!(filter.evaluate(Bytes::from("x;;;y")));
        assert!(!filter.evaluate(Bytes::from("a;;;y")));
        assert!(!filter.evaluate(Bytes::from("x;;;b")));
    }
}

#[test]
fn reset_restarts_the_counter() {
    let config = two_field_config();
    let filter = compile("rand(2)", &config).unwrap();
    assert!(filter.evaluate(Bytes::new()));
    assert!(!filter.evaluate(Bytes::new()));
    filter.reset_rand_counter();
    assert!(filter.evaluate(Bytes::new()));
}

#[test]
fn rand_one_in_n_values() {
    assert!(rand_1_in_n(3, 6));
    assert!(!rand_1_in_n(3, 7));
    assert!(rand_1_in_n(1, 7));
    assert!(rand_1_in_n(0, 7));
}

#[test]
fn rand_samples_once_per_window() {
    for n in [1u16, 2, 7, 100] {
        for start in [0u64, 5, 13, 1000] {
            let hits = (start..start + n as u64).filter(|&c| rand_1_in_n(n, c)).count();
            assert_eq!(hits, 1, "n = {}, start = {}", n, start);
        }
    }
}

#[test]
fn keywords_ignore_case_identifiers_keep_it() {
    let tokens = Lexer::new("ANd oR NoT tRuE FALSE MyField").tokenize().unwrap();
    assert_eq!(
        tokens,
        vec![
            Token::And,
            Token::Or,
            Token::Not,
            Token::Ident("true".into()),
            Token::Ident("false".into()),
            Token::Ident("MyField".into()),
        ]
    );
}

#[test]
fn keyword_spellings() {
    let tokens =
        Lexer::new("startswith endswith isempty empty notempty ieq random in").tokenize().unwrap();
    assert_eq!(
        tokens,
        vec![
            Token::StartsWith,
            Token::EndsWith,
            Token::IsEmpty,
            Token::IsEmpty,
            Token::NotEmpty,
            Token::IEquals,
            Token::Rand,
            Token::In,
        ]
    );
}

#[test]
fn single_equals_and_lone_ampersand() {
    let tokens = Lexer::new("a = 'b' & c | !d").tokenize().unwrap();
    assert_eq!(
        tokens,
        vec![
            Token::Ident("a".into()),
            Token::Eq,
            Token::String("b".into()),
            Token::And,
            Token::Ident("c".into()),
            Token::Or,
            Token::Not,
            Token::Ident("d".into()),
        ]
    );
}

#[test]
fn regex_literals_keep_escapes_and_skip_flags() {
    let tokens = Lexer::new(r#"r"a\"b" /x\/y/i z"#).tokenize().unwrap();
    assert_eq!(
        tokens,
        vec![
            Token::Regex(r#"a\"b"#.into()),
            Token::Regex(r"x\/y".into()),
            Token::Ident("z".into()),
        ]
    );
}

#[test]
fn unexpected_char_reports_byte_offset() {
    // "é" takes two bytes, so `$` starts at byte 3
    assert_eq!(Lexer::new("é $").tokenize(), Err(LexError::UnexpectedChar('é', 0)));
    assert_eq!(Lexer::new("a $").tokenize(), Err(LexError::UnexpectedChar('$', 2)));
    assert_eq!(Lexer::new("\"é\" $").tokenize(), Err(LexError::UnexpectedChar('$', 5)));
}

#[test]
fn string_errors() {
    assert_eq!(Lexer::new(r#""a\q""#).tokenize(), Err(LexError::InvalidEscape(2)));
    assert_eq!(Lexer::new(r#"x "abc"#).tokenize(), Err(LexError::UnterminatedString(2)));
    assert_eq!(Lexer::new("'it\\'s'").tokenize(), Ok(vec![Token::String("it's".into())]));
}

#[test]
fn number_too_large() {
    assert_eq!(
        Lexer::new("1 99999999999999999999999").tokenize(),
        Err(LexError::InvalidNumber(2))
    );
    assert_eq!(
        Lexer::new("18446744073709551615").tokenize(),
        Ok(vec![Token::Number(u64::MAX)])
    );
}

#[test]
fn next_token_reaches_end() {
    let mut lexer = Lexer::new("  ( # note\n )");
    assert_eq!(lexer.next_token(), Ok(Token::LParen));
    assert_eq!(lexer.next_token(), Ok(Token::RParen));
    assert_eq!(lexer.next_token(), Ok(Token::Eof));
    assert_eq!(lexer.next_token(), Ok(Token::Eof));
}

#[test]
fn parse_errors() {
    let config = two_field_config();
    assert_eq!(
        parse("true )", &config),
        Err(ParseError::UnexpectedToken { expected: "end of input".into(), got: Token::RParen })
    );
    assert_eq!(
        parse("(true", &config),
        Err(ParseError::UnexpectedToken { expected: "RParen".into(), got: Token::Eof })
    );
    assert_eq!(parse("rand(0)", &config), Err(ParseError::InvalidRandArg));
    assert_eq!(parse("rand(65536)", &config), Err(ParseError::InvalidRandArg));
    assert_eq!(parse("rand(65535)", &config), Ok(Expr::Rand(65535)));
    assert_eq!(
        parse("LEVEL.size", &config),
        Err(ParseError::UnexpectedToken { expected: "header".into(), got: Token::Ident("size".into()) })
    );
    assert_eq!(parse("\"x", &config), Err(ParseError::Lex(LexError::UnterminatedString(0))));
}

#[test]
fn operators_group_to_the_left_and_not_binds_tightest() {
    let config = two_field_config();
    let expr = parse("true OR false AND NOT true OR false", &config).unwrap();
    let expected = Expr::Or(
        Box::new(Expr::Or(
            Box::new(Expr::Bool(true)),
            Box::new(Expr::And(
                Box::new(Expr::Bool(false)),
                Box::new(Expr::Not(Box::new(Expr::Bool(true)))),
            )),
        )),
        Box::new(Expr::Bool(false)),
    );
    assert_eq!(expr, expected);
}

#[test]
fn string_sets_and_header_exists() {
    let config = two_field_config();
    assert_eq!(
        parse("LEVEL in {}", &config),
        Ok(Expr::PartInSet { part: "LEVEL".into(), values: vec![] })
    );
    assert_eq!(
        parse(r#"LEVEL in {"a", "b",}"#, &config),
        Ok(Expr::PartInSet { part: "LEVEL".into(), values: vec!["a".into(), "b".into()] })
    );
    assert_eq!(
        parse(r#"CODE.header("Host") EXISTS"#, &config),
        Ok(Expr::HeaderExists { part: "CODE".into(), header: "Host".into() })
    );
    assert_eq!(parse(r#"PAYLOAD == "x""#, &config), Ok(Expr::Equals("x".into())));
}

#[test]
fn parser_can_be_driven_directly() {
    let config = two_field_config();
    let mut parser = Parser::new("LEVEL != \"x\"", &config).unwrap();
    assert_eq!(
        parser.parse(),
        Ok(Expr::PartNotEquals { part: "LEVEL".into(), value: "x".into() })
    );
}

#[test]
fn unknown_field_lists_known_fields() {
    let config = two_field_config();
    match compile(r#"OTHER == "x""#, &config) {
        Err(CompileError::UnknownField(name, known)) => {
            assert_eq!(name, "OTHER");
            assert_eq!(known, "LEVEL, CODE");
        },
        _ => panic!("expected an unknown field"),
    }
}

#[test]
fn field_names_match_after_upper_casing() {
    let config = two_field_config();
    let filter = compile(r#"level == "warn""#, &config).unwrap();
    assert!(filter.evaluate(Bytes::from("warn;;;1")));
    assert!(!filter.evaluate(Bytes::from("info;;;1")));
}

#[test]
fn invalid_regex_carries_the_message() {
    let config = two_field_config();
    match compile(r#"payload matches "(unclosed""#, &config) {
        Err(CompileError::InvalidRegex { pattern, error }) => {
            assert_eq!(pattern, "(unclosed");
            assert!(!error.is_empty());
        },
        _ => panic!("expected an invalid regex"),
    }
}

#[test]
fn strings_and_regexes_are_interned_once() {
    let config = two_field_config();
    let filter = compile(
        r#"LEVEL == "a" OR CODE == "a" OR payload matches "x" OR LEVEL matches "x""#,
        &config,
    )
    .unwrap();
    assert_eq!(filter.string_count(), 1);
    assert_eq!(filter.regex_count(), 1);
    // three field tests of four bytes, one payload test of three, three jumps, a return
    assert_eq!(filter.bytecode_len(), 3 * 4 + 3 + 3 * 3 + 1);
    assert_eq!(filter.source(), r#"LEVEL == "a" OR CODE == "a" OR payload matches "x" OR LEVEL matches "x""#);
}

#[test]
fn field_tests_on_compiled_filters() {
    let config = two_field_config();
    let cases: Vec<(&str, &str, bool)> = vec![
        (r#"LEVEL starts_with "err""#, "error;;;1", true),
        (r#"LEVEL ends_with "or""#, "error;;;1", true),
        (r#"LEVEL contains "rro""#, "error;;;1", true),
        (r#"LEVEL iequals "ERROR""#, "error;;;1", true),
        (r#"LEVEL != "error""#, "error;;;1", false),
        (r#"CODE matches "^[0-9]+$""#, "error;;;123", true),
        (r#"CODE is_empty"#, "error;;;", true),
        (r#"CODE is_empty"#, "error", true),
        (r#"payload starts_with "err""#, "error;;;1", true),
        (r#"payload ends_with ";;;1""#, "error;;;1", true),
        (r#"payload == "error;;;1""#, "error;;;1", true),
    ];
    for (source, record, expected) in cases {
        let filter = compile(source, &config).unwrap();
        assert_eq!(filter.evaluate(Bytes::from(record)), expected, "{}", source);
    }
}

#[test]
fn header_name_ignores_case() {
    let headers = b"X-Token:\tabc\r\nOther: 1\r\n";
    assert_eq!(extract_header_value(headers, b"x-token"), Some(b"abc".as_slice()));
    assert_eq!(extract_header_value(headers, b"X-TOKEN"), Some(b"abc".as_slice()));
    assert_eq!(extract_header_value(headers, b"x-tok"), None);
    assert_eq!(extract_header_value(b"A:1\r\rB:2", b"b"), Some(b"2".as_slice()));
}

#[test]
fn parts_rejoin_with_the_delimiter() {
    let record = "a;;;bb;;;;;;c";
    let parts = PayloadParts::split(Bytes::from(record), b";;;");
    let pieces: Vec<Vec<u8>> = parts.iter().iter().map(|p| p.to_vec()).collect();
    assert_eq!(pieces.len(), 4);
    assert_eq!(pieces.join(&b";;;"[..]), record.as_bytes().to_vec());
}

#[test]
fn split_caps_the_number_of_parts() {
    let record = vec!["x"; 40].join(",");
    let parts = PayloadParts::split(Bytes::from(record.clone()), b",");
    assert_eq!(parts.len(), 32);
    assert_eq!(parts.get(30), b"x");
    assert_eq!(parts.get(31), vec!["x"; 9].join(",").as_bytes());
    assert_eq!(PayloadParts::split(Bytes::from("abc"), b"").get(0), b"abc");
}

#[test]
fn lazy_split_agrees_with_eager_split() {
    let record = Bytes::from("a,b,,c");
    let finder = SubstringFinder::new(b",");
    let eager = PayloadParts::split(record.clone(), b",");
    for i in 0..6 {
        let mut lazy = PayloadParts::new_lazy(record.clone());
        lazy.ensure(i, &finder, 1);
        assert_eq!(lazy.get(i), eager.get(i));
    }
    assert_eq!(finder.find(b"xx,y"), Some(2));
    assert_eq!(finder.needle_len(), 1);
}

#[test]
fn opcode_bytes_round_trip() {
    for b in 0u16..=255 {
        let b = b as u8;
        if let Some(op) = Opcode::from_byte(b) {
            assert_eq!(op.to_byte(), b);
        }
    }
    assert_eq!(Opcode::from_byte(0x70), Some(Opcode::JumpIfFalse));
    assert_eq!(Opcode::from_byte(0x03), None);
    assert_eq!(Opcode::HeaderEquals.instruction_size(), 6);
    assert_eq!(Opcode::Return.instruction_size(), 1);
}

#[test]
fn malformed_bytecode_answers_false() {
    let filter = |code: Vec<u8>| {
        CompiledFilter::new(code, vec![b"x".to_vec()], vec![], vec![], b";".to_vec(), "raw".into())
    };
    // return with an empty stack
    assert!(!filter(vec![0xFF]).evaluate(Bytes::new()));
    // unknown opcode
    assert!(!filter(vec![0x01, 0x05, 0xFF]).evaluate(Bytes::new()));
    // string index out of range
    assert!(!filter(vec![0x10, 0x09, 0x00, 0xFF]).evaluate(Bytes::from("x")));
    // truncated operand
    assert!(!filter(vec![0x01, 0x70, 0x03]).evaluate(Bytes::new()));
    // running off the end
    assert!(!filter(vec![0x01]).evaluate(Bytes::new()));
}

#[test]
fn directives_and_messages() {
    let config = ParserConfig::default();
    let filter = load_filter_string("@@delimiter = '\\t'\n@field A = +7\nA == \"x\"", &config).unwrap();
    assert!(filter.evaluate(Bytes::from("0\t1\t2\t3\t4\t5\t6\tx")));
    assert_eq!(filter.delimiter(), b"\t");

    match load_filter_string("@field X = 256\ntrue", &config) {
        Err(LoadError::InvalidFieldIndex(m)) => assert_eq!(m, "Invalid field index '256' for field 'X'"),
        _ => panic!("expected an invalid field index"),
    }
    match load_filter_string("@frobnicate", &config) {
        Err(LoadError::InvalidDirective(m)) => assert_eq!(m, "Unknown directive: @frobnicate"),
        _ => panic!("expected an invalid directive"),
    }
    match load_filter_string("@field NOEQUALS", &config) {
        Err(LoadError::InvalidDirective(m)) => assert_eq!(m, "Invalid field directive: field NOEQUALS"),
        _ => panic!("expected an invalid directive"),
    }
    match load_filter_string("@delimiter", &config) {
        Err(LoadError::InvalidDirective(m)) => assert_eq!(m, "Invalid delimiter directive: delimiter"),
        _ => panic!("expected an invalid directive"),
    }
    match load_filter_string("NOPE == \"x\"", &config) {
        Err(LoadError::Compile(CompileError::UnknownField(name, _))) => assert_eq!(name, "NOPE"),
        _ => panic!("expected a compile error"),
    }
}

#[test]
fn inline_comments_respect_escapes() {
    let mut config = ParserConfig::default();
    config.add_field("T", 0);
    let filter = load_filter_string("T == \"a\\\"#b\" # comment\r\n", &config).unwrap();
    assert!(filter.evaluate(Bytes::from("a\"#b")));
    assert_eq!(filter.source(), "T == \"a\\\"#b\"");
}

#[test]
fn add_field_replaces_an_existing_name() {
    let mut config = ParserConfig::default();
    config.add_field("A", 1).add_field("B", 2).add_field("A", 3);
    assert_eq!(config.fields, vec![("A".to_string(), 3), ("B".to_string(), 2)]);
    config.set_delimiter("|");
    assert_eq!(config.delimiter, b"|".to_vec());
}

#[test]
fn boolean_operators_compose_filters() {
    let config = two_field_config();
    let a = r#"LEVEL == "error""#;
    let b = r#"CODE starts_with "5""#;
    let fa = compile(a, &config).unwrap();
    let fb = compile(b, &config).unwrap();
    let fand = compile(&format!("({}) AND ({})", a, b), &config).unwrap();
    let forr = compile(&format!("({}) OR ({})", a, b), &config).unwrap();
    let fnot = compile(&format!("NOT ({})", a), &config).unwrap();
    for record in ["error;;;500", "error;;;200", "info;;;503", "info;;;200", ""] {
        let x = fa.evaluate(Bytes::from(record));
        let y = fb.evaluate(Bytes::from(record));
        assert_eq!(fand.evaluate(Bytes::from(record)), x && y, "{}", record);
        assert_eq!(forr.evaluate(Bytes::from(record)), x || y, "{}", record);
        assert_eq!(fnot.evaluate(Bytes::from(record)), !x, "{}", record);
    }
}

#[test]
fn counter_advances_once_per_reached_rand() {
    let config = two_field_config();
    let cases: Vec<(&str, u64)> = vec![
        ("false AND rand(2)", 0),
        ("true OR rand(2)", 0),
        (r#"LEVEL == "x""#, 0),
        ("rand(1)", 0),
        ("rand(2) AND rand(3)", 2),
        ("rand(2) OR rand(3)", 1),
        ("NOT rand(4)", 1),
    ];
    for (source, draws) in cases {
        let filter = compile(source, &config).unwrap();
        let mut counter: u64 = 10;
        filter.evaluate_with_counter(Bytes::from("a;;;b"), &mut counter);
        assert_eq!(counter, 10 + draws, "{}", source);
    }
}

#[test]
fn boolean_code_layout() {
    let config = two_field_config();
    // two field tests of four bytes, a jump of three, a return
    assert_eq!(compile(r#"LEVEL == "a" AND CODE == "b""#, &config).unwrap().bytecode_len(), 4 + 3 + 4 + 1);
    // a field test and a Not, then a return
    assert_eq!(compile(r#"LEVEL != "a""#, &config).unwrap().bytecode_len(), 4 + 1 + 1);
    assert_eq!(compile(r#"NOT LEVEL == "a""#, &config).unwrap().bytecode_len(), 4 + 1 + 1);
}

#[test]
fn tokenize_matches_repeated_next_token() {
    let source = r#"LEVEL in {"a", 'b'} && NOT payload matches /x+/ || rand(3)"#;
    let tokens = Lexer::new(source).tokenize().unwrap();
    let mut lexer = Lexer::new(source);
    for t in &tokens {
        assert_ne!(*t, Token::Eof);
        assert_eq!(lexer.next_token().unwrap(), *t);
    }
    assert_eq!(lexer.next_token().unwrap(), Token::Eof);

    let bad = r#"LEVEL == "a" $"#;
    let err = Lexer::new(bad).tokenize().unwrap_err();
    let mut lexer = Lexer::new(bad);
    loop {
        match lexer.next_token() {
            Ok(t) => assert_ne!(t, Token::Eof),
            Err(e) => {
                assert_eq!(e, err);
                break;
            },
        }
    }
}

#[test]
fn parts_hold_no_delimiter_and_join_back() {
    let record = "x;;;yy;;;;;;zzz;;";
    let parts = PayloadParts::split(Bytes::from(record), b";;;");
    let pieces: Vec<Vec<u8>> = parts.iter().iter().map(|p| p.to_vec()).collect();
    assert_eq!(pieces.join(&b";;;"[..]), record.as_bytes().to_vec());
    for p in &pieces {
        assert!(!p.windows(3).any(|w| w == b";;;"));
    }
}

#[test]
fn header_value_is_first_naming_line() {
    let h = b"\r\nX-Id:  first\r\n\r\nx-id: second\nXId: no";
    assert_eq!(extract_header_value(h, b"X-ID"), Some(b"first".as_slice()));
    assert_eq!(extract_header_value(b"\n\n: v\nname:\t\t", b"name"), Some(b"".as_slice()));
    assert_eq!(extract_header_value(b"namex: 1\nname 2", b"name"), None);
}

#[test]
fn scan_step_longer_than_the_needle() {
    let finder = SubstringFinder::new(b";");
    let parts = PayloadParts::split_with_finder(Bytes::from("a;b;c"), &finder, 2);
    assert_eq!(parts.len(), 3);
    assert_eq!(parts.get(0), b"a");
    assert_eq!(parts.get(1), b"");
    assert_eq!(parts.get(2), b"");
    let mut lazy = PayloadParts::new_lazy(Bytes::from("a;b;c"));
    lazy.ensure(1, &finder, 2);
    assert_eq!(lazy.get(1), b"");
    lazy.ensure(5, &finder, 2);
    assert_eq!(lazy.len(), 3);
}

#[test]
fn loading_compiles_under_the_directives() {
    let mut config = ParserConfig::default();
    config.set_delimiter(",");
    config.add_field("LEVEL", 0);
    let plain = load_filter_string("# only an expression\nLEVEL == \"a\"\n", &config).unwrap();
    assert_eq!(plain.delimiter(), b",");
    assert_eq!(plain.source(), "LEVEL == \"a\"");
    let tabbed = load_filter_string("@delimiter = \"\\t\"\n@field LEVEL = 1\nLEVEL == \"a\"", &config).unwrap();
    assert_eq!(tabbed.delimiter(), b"\t");
    assert!(tabbed.evaluate(Bytes::from("x\ta")));
    assert!(!tabbed.evaluate(Bytes::from("a\tx")));
    assert_eq!(config.delimiter, b",".to_vec());
}

#[test]
fn resolve_field_prefers_the_upper_cased_name() {
    let mut config = ParserConfig::default();
    config.add_field("LEVEL", 3);
    config.add_field("level", 7);
    config.add_field("Code", 1);
    assert_eq!(resolve_field(&config, "level", "LEVEL").unwrap(), 3);
    assert_eq!(resolve_field(&config, "Code", "CODE").unwrap(), 1);
    match resolve_field(&config, "nope", "NOPE") {
        Err(CompileError::UnknownField(name, known)) => {
            assert_eq!(name, "nope");
            assert_eq!(known, "LEVEL, level, Code");
        },
        _ => panic!("expected an unknown field"),
    }
}

#[test]
fn admit_regex_uses_the_build_outcome() {
    let mut regexes: Vec<CompiledRegex> = Vec::new();
    assert_eq!(admit_regex(&mut regexes, "a+", CompiledRegex::new("a+")).unwrap(), 0);
    assert_eq!(admit_regex(&mut regexes, "b", CompiledRegex::new("b")).unwrap(), 1);
    match admit_regex(&mut regexes, "(", Err("bad".to_string())) {
        Err(CompileError::InvalidRegex { pattern, error }) => {
            assert_eq!(pattern, "(");
            assert_eq!(error, "bad");
        },
        _ => panic!("expected an invalid regex"),
    }
    assert_eq!(regexes.len(), 2);
    assert!(regexes[0].is_match(b"xaa"));
}

#[test]
fn lazy_parts_never_outnumber_eager_parts() {
    let record = "a,b,,c";
    let finder = SubstringFinder::new(b",");
    let eager = PayloadParts::split(Bytes::from(record), b",");
    let mut lazy = PayloadParts::new_lazy(Bytes::from(record));
    let mut last = 0;
    for i in [0usize, 2, 1, 9, 3] {
        lazy.ensure(i, &finder, 1);
        assert!(lazy.len() >= last);
        assert!(lazy.len() <= eager.len());
        last = lazy.len();
        assert_eq!(lazy.get(i), eager.get(i));
    }
    assert_eq!(lazy.len(), eager.len());
}
