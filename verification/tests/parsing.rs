use f2m::bytes::{bytes_eq, parse_u32, split_fields, u64_dec, TAB};

#[test]
fn parse_plain_number() {
    assert_eq!(parse_u32(b"123"), Some(123));
    assert_eq!(parse_u32(b"0"), Some(0));
}

#[test]
fn parse_plus_sign() {
    assert_eq!(parse_u32(b"+7"), Some(7));
    assert_eq!(parse_u32(b"+"), None);
}

#[test]
fn parse_rejects_garbage() {
    assert_eq!(parse_u32(b""), None);
    assert_eq!(parse_u32(b"12a"), None);
    assert_eq!(parse_u32(b"-3"), None);
    assert_eq!(parse_u32(b" 5"), None);
}

#[test]
fn parse_u32_bounds() {
    assert_eq!(parse_u32(b"4294967295"), Some(u32::MAX));
    assert_eq!(parse_u32(b"4294967296"), None);
    assert_eq!(parse_u32(b"99999999999999999999"), None);
}

#[test]
fn parse_leading_zeroes() {
    assert_eq!(parse_u32(b"000123"), Some(123));
}

#[test]
fn split_three_fields() {
    let fields = split_fields(b"chr1\t100\t200", TAB);
    assert_eq!(fields.len(), 3);
    assert_eq!(fields[0], b"chr1".to_vec());
    assert_eq!(fields[1], b"100".to_vec());
    assert_eq!(fields[2], b"200".to_vec());
}

#[test]
fn split_empty_line_is_one_empty_field() {
    let fields = split_fields(b"", TAB);
    assert_eq!(fields.len(), 1);
    assert_eq!(fields[0], Vec::<u8>::new());
}

#[test]
fn split_trailing_separator() {
    let fields = split_fields(b"a\tb\t", TAB);
    assert_eq!(fields.len(), 3);
    assert_eq!(fields[2], Vec::<u8>::new());
}

#[test]
fn bytes_eq_basics() {
    assert!(bytes_eq(b"AAA", b"AAA"));
    assert!(!bytes_eq(b"AAA", b"AAB"));
    assert!(!bytes_eq(b"AAA", b"AAAA"));
    assert!(bytes_eq(b"", b""));
}

#[test]
fn decimal_formatting() {
    assert_eq!(u64_dec(0), b"0".to_vec());
    assert_eq!(u64_dec(7), b"7".to_vec());
    assert_eq!(u64_dec(105), b"105".to_vec());
    assert_eq!(u64_dec(4294967295), b"4294967295".to_vec());
}
