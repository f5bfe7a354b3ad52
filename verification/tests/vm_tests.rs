use bytecode_filter::pattern::CompiledRegex;
use bytecode_filter::CompiledFilter;
use bytes::Bytes;

fn make_simple_filter(opcode: u8, str_idx: u16, needle: &str) -> CompiledFilter {
    let mut bytecode = vec![opcode];
    bytecode.extend_from_slice(&str_idx.to_le_bytes());
    bytecode.push(0xFF); // Return

    CompiledFilter::new(
        bytecode,
        vec![needle.as_bytes().to_vec()],
        vec![],
        vec![],
        b";;;".to_vec(),
        format!("test filter"),
    )
}

#[test]
fn test_contains() {
    let filter = make_simple_filter(0x10, 0, "hello");
    assert!(filter.evaluate(Bytes::from("say hello world")));
    assert!(!filter.evaluate(Bytes::from("say goodbye")));
}

#[test]
fn test_starts_with() {
    let filter = make_simple_filter(0x11, 0, "hello");
    assert!(filter.evaluate(Bytes::from("hello world")));
    assert!(!filter.evaluate(Bytes::from("say hello")));
}

#[test]
fn test_ends_with() {
    let filter = make_simple_filter(0x12, 0, "world");
    assert!(filter.evaluate(Bytes::from("hello world")));
    assert!(!filter.evaluate(Bytes::from("world hello")));
}

#[test]
fn test_equals() {
    let filter = make_simple_filter(0x13, 0, "hello");
    assert!(filter.evaluate(Bytes::from("hello")));
    assert!(!filter.evaluate(Bytes::from("hello world")));
}

#[test]
fn test_push_true() {
    let filter = CompiledFilter::new(
        vec![0x01, 0xFF], // PushTrue, Return
        vec![],
        vec![],
        vec![],
        b";;;".to_vec(),
        "true".into(),
    );
    assert!(filter.evaluate(Bytes::from("anything")));
}

#[test]
fn test_push_false() {
    let filter = CompiledFilter::new(
        vec![0x02, 0xFF], // PushFalse, Return
        vec![],
        vec![],
        vec![],
        b";;;".to_vec(),
        "false".into(),
    );
    assert!(!filter.evaluate(Bytes::from("anything")));
}

#[test]
fn vm_test_and() {
    // true AND true = true
    let filter = CompiledFilter::new(
        vec![0x01, 0x01, 0x30, 0xFF], // PushTrue, PushTrue, And, Return
        vec![],
        vec![],
        vec![],
        b";;;".to_vec(),
        "true AND true".into(),
    );
    assert!(filter.evaluate(Bytes::from("")));

    // true AND false = false
    let filter = CompiledFilter::new(
        vec![0x01, 0x02, 0x30, 0xFF], // PushTrue, PushFalse, And, Return
        vec![],
        vec![],
        vec![],
        b";;;".to_vec(),
        "true AND false".into(),
    );
    assert!(!filter.evaluate(Bytes::from("")));
}

#[test]
fn vm_test_or() {
    // false OR true = true
    let filter = CompiledFilter::new(
        vec![0x02, 0x01, 0x31, 0xFF], // PushFalse, PushTrue, Or, Return
        vec![],
        vec![],
        vec![],
        b";;;".to_vec(),
        "false OR true".into(),
    );
    assert!(filter.evaluate(Bytes::from("")));

    // false OR false = false
    let filter = CompiledFilter::new(
        vec![0x02, 0x02, 0x31, 0xFF], // PushFalse, PushFalse, Or, Return
        vec![],
        vec![],
        vec![],
        b";;;".to_vec(),
        "false OR false".into(),
    );
    assert!(!filter.evaluate(Bytes::from("")));
}

#[test]
fn vm_test_not() {
    // NOT true = false
    let filter = CompiledFilter::new(
        vec![0x01, 0x32, 0xFF], // PushTrue, Not, Return
        vec![],
        vec![],
        vec![],
        b";;;".to_vec(),
        "NOT true".into(),
    );
    assert!(!filter.evaluate(Bytes::from("")));

    // NOT false = true
    let filter = CompiledFilter::new(
        vec![0x02, 0x32, 0xFF], // PushFalse, Not, Return
        vec![],
        vec![],
        vec![],
        b";;;".to_vec(),
        "NOT false".into(),
    );
    assert!(filter.evaluate(Bytes::from("")));
}

#[test]
fn test_part_equals() {
    // PartEquals(part=1, str=0) -> parts[1] == "2"
    let filter = CompiledFilter::new(
        vec![0x43, 0x01, 0x00, 0x00, 0xFF],
        vec![b"2".to_vec()],
        vec![],
        vec![],
        b";;;".to_vec(),
        "field[1] == \"2\"".into(),
    );

    assert!(filter.evaluate(Bytes::from("v1;;;2;;;subtype")));
    assert!(!filter.evaluate(Bytes::from("v1;;;1;;;subtype")));
}

#[test]
fn test_part_in_set() {
    // PartInSet(part=1, set=0) -> parts[1] in {"1", "2", "3"}
    let filter = CompiledFilter::new(
        vec![0x47, 0x01, 0x00, 0x00, 0xFF],
        vec![b"1".to_vec(), b"2".to_vec(), b"3".to_vec()],
        vec![],
        vec![vec![0, 1, 2]], // Set 0 contains string indices 0, 1, 2
        b";;;".to_vec(),
        "field[1] in {\"1\", \"2\", \"3\"}".into(),
    );

    assert!(filter.evaluate(Bytes::from("v1;;;1;;;sub")));
    assert!(filter.evaluate(Bytes::from("v1;;;2;;;sub")));
    assert!(filter.evaluate(Bytes::from("v1;;;3;;;sub")));
    assert!(!filter.evaluate(Bytes::from("v1;;;4;;;sub")));
}

#[test]
fn vm_test_rand() {
    // rand(2) should return true, false, true, false, ...
    let filter = CompiledFilter::new(
        vec![0x60, 0x02, 0x00, 0xFF], // Rand(2), Return
        vec![],
        vec![],
        vec![],
        b";;;".to_vec(),
        "rand(2)".into(),
    );
    filter.reset_rand_counter();

    let results: Vec<bool> = (0..10).map(|_| filter.evaluate(Bytes::from(""))).collect();
    assert_eq!(
        results,
        vec![true, false, true, false, true, false, true, false, true, false]
    );
}

#[test]
fn test_rand_always_true() {
    let filter = CompiledFilter::new(
        vec![0x60, 0x01, 0x00, 0xFF], // Rand(1), Return
        vec![],
        vec![],
        vec![],
        b";;;".to_vec(),
        "rand(1)".into(),
    );
    filter.reset_rand_counter();

    for _ in 0..10 {
        assert!(filter.evaluate(Bytes::from("")));
    }
}

#[test]
fn test_regex_match() {
    let filter = CompiledFilter::new(
        vec![0x20, 0x00, 0x00, 0xFF], // Matches(regex=0), Return
        vec![],
        vec![CompiledRegex::new(r"error_[0-9]+").unwrap()],
        vec![],
        b";;;".to_vec(),
        "payload matches \"error_[0-9]+\"".into(),
    );

    assert!(filter.evaluate(Bytes::from("found error_123 in log")));
    assert!(filter.evaluate(Bytes::from("error_0")));
    assert!(!filter.evaluate(Bytes::from("error_abc")));
    assert!(!filter.evaluate(Bytes::from("no errors")));
}

#[test]
fn vm_test_header_iequals() {
    // HeaderIEquals(part=0, header="x-custom", value="expected")
    let filter = CompiledFilter::new(
        vec![0x51, 0x00, 0x00, 0x00, 0x01, 0x00, 0xFF],
        vec![b"x-custom".to_vec(), b"expected".to_vec()],
        vec![],
        vec![],
        b";;;".to_vec(),
        "headers.header(\"x-custom\") iequals \"expected\"".into(),
    );

    assert!(filter.evaluate(Bytes::from("X-Custom: expected\r\n")));
    assert!(filter.evaluate(Bytes::from("x-custom: EXPECTED\r\n")));
    assert!(filter.evaluate(Bytes::from("X-CUSTOM: Expected\r\n")));
    assert!(!filter.evaluate(Bytes::from("X-Custom: other\r\n")));
    assert!(!filter.evaluate(Bytes::from("X-Other: expected\r\n")));
}

#[test]
fn test_complex_multi_clause_filter() {
    // field[1] == "error" AND field[2] == "500" AND header check
    // Bytecode:
    //   PartEquals(1, 0)    -> field[1] == "error"
    //   PartEquals(2, 1)    -> field[2] == "500"
    //   And
    //   HeaderIEquals(4, 2, 3) -> header check
    //   And
    //   Return
    let filter = CompiledFilter::new(
        vec![
            0x43, 0x01, 0x00, 0x00, // PartEquals(part=1, str=0)
            0x43, 0x02, 0x01, 0x00, // PartEquals(part=2, str=1)
            0x30, // And
            0x51, 0x04, 0x02, 0x00, 0x03, 0x00, // HeaderIEquals(part=4, hdr=2, val=3)
            0x30, // And
            0xFF, // Return
        ],
        vec![
            b"error".to_vec(),
            b"500".to_vec(),
            b"content-type".to_vec(),
            b"application/json".to_vec(),
        ],
        vec![],
        vec![],
        b";;;".to_vec(),
        "multi-clause filter".into(),
    );

    // Build a matching record: [ignored, "error", "500", ignored, headers, ...]
    let mut fields: Vec<&str> = vec![""; 6];
    fields[1] = "error";
    fields[2] = "500";
    fields[4] = "Content-Type: application/json\r\n";

    let payload = fields.join(";;;");
    assert!(filter.evaluate(Bytes::from(payload)));

    // Non-matching: wrong field[1]
    fields[1] = "info";
    let payload = fields.join(";;;");
    assert!(!filter.evaluate(Bytes::from(payload)));

    // Non-matching: wrong field[2]
    fields[1] = "error";
    fields[2] = "200";
    let payload = fields.join(";;;");
    assert!(!filter.evaluate(Bytes::from(payload)));

    // Non-matching: wrong header value
    fields[2] = "500";
    fields[4] = "Content-Type: text/html\r\n";
    let payload = fields.join(";;;");
    assert!(!filter.evaluate(Bytes::from(payload)));
}
