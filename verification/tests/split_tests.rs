use bytecode_filter::{extract_header_value, PayloadParts};
use bytes::Bytes;

#[test]
fn test_split_basic() {
    let payload = Bytes::from("a;;;b;;;c");
    let parts = PayloadParts::split(payload, b";;;");

    assert_eq!(parts.len(), 3);
    assert_eq!(parts.get(0), b"a");
    assert_eq!(parts.get(1), b"b");
    assert_eq!(parts.get(2), b"c");
}

#[test]
fn test_split_no_delimiter() {
    let payload = Bytes::from("hello world");
    let parts = PayloadParts::split(payload, b";;;");

    assert_eq!(parts.len(), 1);
    assert_eq!(parts.get(0), b"hello world");
}

#[test]
fn test_split_empty_parts() {
    let payload = Bytes::from("a;;;;;;b");
    let parts = PayloadParts::split(payload, b";;;");

    assert_eq!(parts.len(), 3);
    assert_eq!(parts.get(0), b"a");
    assert_eq!(parts.get(1), b"");
    assert_eq!(parts.get(2), b"b");
}

#[test]
fn test_split_empty_payload() {
    let payload = Bytes::from("");
    let parts = PayloadParts::split(payload, b";;;");

    assert_eq!(parts.len(), 1);
    assert_eq!(parts.get(0), b"");
}

#[test]
fn test_split_trailing_delimiter() {
    let payload = Bytes::from("a;;;b;;;");
    let parts = PayloadParts::split(payload, b";;;");

    assert_eq!(parts.len(), 3);
    assert_eq!(parts.get(0), b"a");
    assert_eq!(parts.get(1), b"b");
    assert_eq!(parts.get(2), b"");
}

#[test]
fn test_split_single_char_delimiter() {
    let payload = Bytes::from("a|b|c|d");
    let parts = PayloadParts::split(payload, b"|");

    assert_eq!(parts.len(), 4);
    assert_eq!(parts.get(0), b"a");
    assert_eq!(parts.get(1), b"b");
    assert_eq!(parts.get(2), b"c");
    assert_eq!(parts.get(3), b"d");
}

#[test]
fn test_get_out_of_bounds() {
    let payload = Bytes::from("a;;;b");
    let parts = PayloadParts::split(payload, b";;;");

    assert_eq!(parts.get(0), b"a");
    assert_eq!(parts.get(1), b"b");
    assert_eq!(parts.get(2), b""); // Out of bounds returns empty
    assert_eq!(parts.get(100), b"");
}

#[test]
fn test_get_bytes_zero_copy() {
    let payload = Bytes::from("hello;;;world");
    let parts = PayloadParts::split(payload.clone(), b";;;");

    let part0 = parts.get_bytes(0);
    let part1 = parts.get_bytes(1);

    assert_eq!(&part0[..], b"hello");
    assert_eq!(&part1[..], b"world");

    // Verify it's truly zero-copy by checking pointer
    assert_eq!(part0.as_ptr(), payload.as_ptr());
}

#[test]
fn test_extract_header_basic() {
    let headers = b"Content-Type: application/json\r\nX-Custom: value\r\n";

    assert_eq!(
        extract_header_value(headers, b"Content-Type"),
        Some(b"application/json".as_slice())
    );
    assert_eq!(
        extract_header_value(headers, b"X-Custom"),
        Some(b"value".as_slice())
    );
}

#[test]
fn test_extract_header_case_insensitive() {
    let headers = b"Content-Type: application/json\r\n";

    assert_eq!(
        extract_header_value(headers, b"content-type"),
        Some(b"application/json".as_slice())
    );
    assert_eq!(
        extract_header_value(headers, b"CONTENT-TYPE"),
        Some(b"application/json".as_slice())
    );
}

#[test]
fn test_extract_header_with_whitespace() {
    let headers = b"X-Custom:   value with spaces  \r\n";

    assert_eq!(
        extract_header_value(headers, b"X-Custom"),
        Some(b"value with spaces  ".as_slice())
    );
}

#[test]
fn test_extract_header_not_found() {
    let headers = b"Content-Type: application/json\r\n";

    assert_eq!(extract_header_value(headers, b"X-Missing"), None);
}

#[test]
fn test_extract_header_empty() {
    assert_eq!(extract_header_value(b"", b"Content-Type"), None);
    assert_eq!(extract_header_value(b"Content-Type: value", b""), None);
}

#[test]
fn test_extract_header_no_crlf() {
    // Headers without \r\n (just \n)
    let headers = b"Content-Type: value\nX-Other: other\n";

    assert_eq!(
        extract_header_value(headers, b"Content-Type"),
        Some(b"value".as_slice())
    );
    assert_eq!(
        extract_header_value(headers, b"X-Other"),
        Some(b"other".as_slice())
    );
}
