use kv_wire::decimal::{push_decimal, push_digits, push_length, read_i64};

#[test]
fn digits_of_numbers() {
    let mut out = Vec::new();
    push_digits(&mut out, 0);
    assert_eq!(out, b"0".to_vec());
    push_digits(&mut out, 10);
    assert_eq!(out, b"010".to_vec());
    push_digits(&mut out, u64::MAX);
    assert_eq!(out, b"01018446744073709551615".to_vec());
}

#[test]
fn numerals_of_signed_numbers() {
    let mut out = Vec::new();
    push_decimal(&mut out, -1);
    assert_eq!(out, b"-1".to_vec());
    let mut out = Vec::new();
    push_decimal(&mut out, i64::MIN);
    assert_eq!(out, b"-9223372036854775808".to_vec());
    let mut out = Vec::new();
    push_decimal(&mut out, 907);
    assert_eq!(out, b"907".to_vec());
}

#[test]
fn numerals_of_lengths() {
    let mut out = Vec::new();
    push_length(&mut out, 4096);
    assert_eq!(out, b"4096".to_vec());
}

#[test]
fn reading_numerals() {
    assert_eq!(read_i64(b"0"), Some(0));
    assert_eq!(read_i64(b"-1"), Some(-1));
    assert_eq!(read_i64(b"0042"), Some(42));
    assert_eq!(read_i64(b"9223372036854775807"), Some(i64::MAX));
    assert_eq!(read_i64(b"-9223372036854775808"), Some(i64::MIN));
    assert_eq!(read_i64(b"00000000000000000000000000000000000012"), Some(12));
}

#[test]
fn reading_what_is_no_numeral() {
    assert_eq!(read_i64(b""), None);
    assert_eq!(read_i64(b"-"), None);
    assert_eq!(read_i64(b"--1"), None);
    assert_eq!(read_i64(b"1-"), None);
    assert_eq!(read_i64(b"abc"), None);
    assert_eq!(read_i64(b" 1"), None);
    assert_eq!(read_i64(b"9223372036854775808"), None);
    assert_eq!(read_i64(b"-9223372036854775809"), None);
    assert_eq!(read_i64(b"18446744073709551616"), None);
    assert_eq!(read_i64(b"184467440737095516160"), None);
}

#[test]
fn numerals_round_trip() {
    for n in [0i64, 1, -1, 9, 10, 99, 100, -100, 123456789, i64::MAX, i64::MIN] {
        let mut out = Vec::new();
        push_decimal(&mut out, n);
        assert_eq!(out, n.to_string().into_bytes());
        assert_eq!(read_i64(&out), Some(n));
    }
}
