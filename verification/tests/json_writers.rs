use koma_source_sdk::json_utils::{
    append_json_escaped, append_json_unescaped_then_escaped, contains_bytes, encode_utf8,
    extract_json_number, extract_json_string, find_subslice, hex_to_u16, write_bytes,
    write_url_encoded, write_usize, JsonArrayIter,
};

fn written(buf: &[u8], c: usize) -> &[u8] {
    &buf[..c]
}

#[test]
fn write_bytes_appends_when_it_fits() {
    let mut buf = [0u8; 8];
    let mut c = 0usize;
    assert!(write_bytes(&mut buf, &mut c, b"abc"));
    assert!(write_bytes(&mut buf, &mut c, b"de"));
    assert_eq!(written(&buf, c), b"abcde");
}

#[test]
fn write_bytes_leaves_buffer_when_it_does_not_fit() {
    let mut buf = [0u8; 4];
    let mut c = 1usize;
    assert!(!write_bytes(&mut buf, &mut c, b"abcd"));
    assert_eq!(c, 1);
    assert_eq!(buf, [0u8; 4]);
}

#[test]
fn write_usize_writes_decimal_digits() {
    let mut buf = [0u8; 16];
    let mut c = 0usize;
    assert!(write_usize(&mut buf, &mut c, 12345));
    assert!(write_usize(&mut buf, &mut c, 0));
    assert_eq!(written(&buf, c), b"123450");
}

#[test]
fn append_json_escaped_escapes_quotes_and_controls() {
    let mut buf = [0u8; 32];
    let mut c = 0usize;
    assert!(append_json_escaped(&mut buf, &mut c, b"a\"b\\c\nd\x01"));
    assert_eq!(written(&buf, c), b"a\\\"b\\\\c\\nd ");
}

#[test]
fn append_json_escaped_overflow_reports_failure() {
    let mut buf = [0u8; 3];
    let mut c = 0usize;
    assert!(!append_json_escaped(&mut buf, &mut c, b"ab\""));
    assert!(c <= 3);
}

#[test]
fn unescape_then_escape_decodes_unicode_and_slash() {
    let mut buf = [0u8; 32];
    let mut c = 0usize;
    assert!(append_json_unescaped_then_escaped(&mut buf, &mut c, b"\\u4e2d\\/x\\n"));
    assert_eq!(written(&buf, c), &[0xE4, 0xB8, 0xAD, b'/', b'x', b'\\', b'n']);
}

#[test]
fn plain_text_reescapes_as_it_escapes() {
    let text: &[u8] = b"say \"hi\"\tnow";
    let mut a = [0u8; 64];
    let mut ca = 0usize;
    let mut b = [0u8; 64];
    let mut cb = 0usize;
    assert!(append_json_escaped(&mut a, &mut ca, text));
    assert!(append_json_unescaped_then_escaped(&mut b, &mut cb, text));
    assert_eq!(written(&a, ca), written(&b, cb));
}

#[test]
fn url_encoding_keeps_unreserved_bytes() {
    let mut buf = [0u8; 32];
    let mut c = 0usize;
    assert!(write_url_encoded(&mut buf, &mut c, b"a b/c~_-."));
    assert_eq!(written(&buf, c), b"a%20b%2Fc~_-.");
}

#[test]
fn find_subslice_gives_first_occurrence() {
    assert_eq!(find_subslice(b"abcabc", b"bc"), Some(1));
    assert_eq!(find_subslice(b"abc", b"x"), None);
    assert_eq!(find_subslice(b"abc", b""), None);
    assert!(contains_bytes(b"hello world", b"o w"));
    assert!(!contains_bytes(b"hello", b"hello!"));
}

#[test]
fn extract_json_values_by_key() {
    let data: &[u8] = br#"{"name":"a\"b","count": 42,"x":1}"#;
    assert_eq!(extract_json_string(data, b"name"), Some(&b"a\\\"b"[..]));
    assert_eq!(extract_json_number(data, b"count"), Some(&b"42"[..]));
    assert_eq!(extract_json_string(data, b"count"), None);
    assert_eq!(extract_json_number(data, b"missing"), None);
}

#[test]
fn json_array_iter_walks_objects() {
    let data: &[u8] = br#"{"list":[{"a":1},{"b":"}"}, {"c":[2]}]}"#;
    let mut it = JsonArrayIter::new(data, b"list").expect("array present");
    assert_eq!(it.next_object(), Some(&br#"{"a":1}"#[..]));
    assert_eq!(it.next_object(), Some(&br#"{"b":"}"}"#[..]));
    assert_eq!(it.next_object(), Some(&br#"{"c":[2]}"#[..]));
    assert_eq!(it.next_object(), None);
}

#[test]
fn hex_and_utf8_helpers() {
    assert_eq!(hex_to_u16(b"4e2d"), 0x4e2d);
    assert_eq!(hex_to_u16(b"zz"), 0);
    let mut buf = [0u8; 4];
    assert_eq!(encode_utf8(0x4e2d, &mut buf), 3);
    assert_eq!(&buf[..3], &[0xE4, 0xB8, 0xAD]);
    assert_eq!(encode_utf8(0x41, &mut buf), 1);
    assert_eq!(buf[0], 0x41);
}
