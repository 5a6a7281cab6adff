use koma_source_sdk::request::{encode_u32_decimal, Request};
use koma_source_sdk::result::ResultBuffer;

#[test]
fn response_handle_is_the_last_response_until_freed() {
    let mut buffer = ResultBuffer::<256>::new();
    assert_eq!(buffer.last_ptr(), 0);
    let r = buffer.write(b"{\"x\":1}", true);
    assert_eq!(buffer.last_ptr(), r);
    buffer.free(r.wrapping_add(1));
    assert_eq!(buffer.last_ptr(), r);
    buffer.free(r);
    assert_eq!(buffer.last_ptr(), 0);
}

#[test]
fn response_too_large_yields_no_handle() {
    let mut buffer = ResultBuffer::<20>::new();
    assert_eq!(buffer.write(b"12345", true), 0);
    assert_eq!(buffer.last_ptr(), 0);
}

#[test]
fn error_envelope_too_large_yields_no_handle() {
    let mut buffer = ResultBuffer::<64>::new();
    assert_eq!(buffer.write_error("search", "internal_error", "overflow"), 0);
    let mut big = ResultBuffer::<512>::new();
    let r = big.write_error("search", "internal_error", "overflow");
    assert_eq!(big.last_ptr(), r);
}

#[test]
fn number_probe_matches_whole_numbers_only() {
    let request = Request::from_bytes_for_test(br#"{"a":7,"b":70}"#).expect("non-empty");
    assert!(request.contains_json_number(b"a", 7));
    assert!(request.contains_json_number(b"b", 70));
    assert!(!request.contains_json_number(b"b", 7));
    assert!(!request.contains_json_number(b"a", 70));
}

#[test]
fn string_probe_and_plain_probe() {
    let request = Request::from_bytes_for_test(br#"{"query":"foo"}"#).expect("non-empty");
    assert!(request.contains_json_string(b"query", b"foo"));
    assert!(!request.contains_json_string(b"query", b"fo"));
    assert!(request.contains(b"foo"));
    assert!(!request.contains(b""));
    assert!(Request::from_bytes_for_test(b"").is_none());
}

#[test]
fn decimal_encoding_of_u32() {
    let mut out = [0u8; 10];
    assert_eq!(encode_u32_decimal(4294967295, &mut out), 10);
    assert_eq!(&out, b"4294967295");
    let mut small = [b'x'; 10];
    assert_eq!(encode_u32_decimal(0, &mut small), 1);
    assert_eq!(&small[..2], b"0x");
}
