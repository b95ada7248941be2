use kv_wire::codec::{find_line, Check};
use kv_wire::frame::Frame;
use kv_wire::wire::Malformation;

fn round_trip(frame: Frame) {
    let bytes = frame.encode();
    assert_eq!(Frame::check(&bytes), Check::Complete(bytes.len()));
    assert_eq!(Frame::parse(&bytes), frame);
    assert_eq!(Frame::parse_prefix(&bytes), (frame, bytes.len()));
}

#[test]
fn simple_string_is_written_with_its_type_byte() {
    let frame = Frame::Simple("OK".to_string());
    assert_eq!(frame.encode(), b"+OK\r\n".to_vec());
}

#[test]
fn error_is_written_with_its_type_byte() {
    let frame = Frame::Error("ERR unknown".to_string());
    assert_eq!(frame.encode(), b"-ERR unknown\r\n".to_vec());
}

#[test]
fn integer_is_written_in_decimal() {
    assert_eq!(Frame::Integer(0).encode(), b":0\r\n".to_vec());
    assert_eq!(Frame::Integer(1234567890).encode(), b":1234567890\r\n".to_vec());
    assert_eq!(Frame::Integer(-42).encode(), b":-42\r\n".to_vec());
    assert_eq!(Frame::Integer(i64::MAX).encode(), b":9223372036854775807\r\n".to_vec());
    assert_eq!(Frame::Integer(i64::MIN).encode(), b":-9223372036854775808\r\n".to_vec());
}

#[test]
fn bulk_is_written_with_its_length() {
    let frame = Frame::Bulk(b"world".to_vec());
    assert_eq!(frame.encode(), b"$5\r\nworld\r\n".to_vec());
}

#[test]
fn null_is_written_as_a_bulk_of_length_minus_one() {
    assert_eq!(Frame::Null.encode(), b"$-1\r\n".to_vec());
}

#[test]
fn array_is_written_with_its_count_and_items() {
    let frame = Frame::Array(vec![
        Frame::Bulk(b"GET".to_vec()),
        Frame::Bulk(b"hello".to_vec()),
    ]);
    assert_eq!(frame.encode(), b"*2\r\n$3\r\nGET\r\n$5\r\nhello\r\n".to_vec());
}

#[test]
fn encode_into_appends() {
    let mut out = b"+a\r\n".to_vec();
    Frame::Integer(7).encode_into(&mut out);
    assert_eq!(out, b"+a\r\n:7\r\n".to_vec());
}

#[test]
fn every_kind_of_frame_round_trips() {
    round_trip(Frame::Simple("hello".to_string()));
    round_trip(Frame::Simple(String::new()));
    round_trip(Frame::Simple("gr\u{fc}\u{df}e \u{4e16}\u{754c}".to_string()));
    round_trip(Frame::Error("ERR unsupported command".to_string()));
    round_trip(Frame::Integer(0));
    round_trip(Frame::Integer(-1));
    round_trip(Frame::Integer(i64::MIN));
    round_trip(Frame::Integer(i64::MAX));
    round_trip(Frame::Bulk(b"world".to_vec()));
    round_trip(Frame::Bulk(vec![0, 13, 10, 255, 36, 42]));
    round_trip(Frame::Null);
    round_trip(Frame::Array(vec![]));
    round_trip(Frame::Array(vec![
        Frame::Integer(1),
        Frame::Array(vec![Frame::Null, Frame::Bulk(b"\r\n".to_vec())]),
        Frame::Simple("deep".to_string()),
    ]));
}

#[test]
fn text_with_a_lone_carriage_return_round_trips() {
    round_trip(Frame::Simple("a\rb".to_string()));
    round_trip(Frame::Simple("ends with cr\r".to_string()));
}

#[test]
fn zero_length_bulk_is_not_null() {
    let empty = Frame::Bulk(Vec::new());
    assert_eq!(empty.encode(), b"$0\r\n\r\n".to_vec());
    assert_eq!(Frame::parse(b"$0\r\n\r\n"), Frame::Bulk(Vec::new()));
    assert_ne!(Frame::parse(b"$0\r\n\r\n"), Frame::Null);
    assert_eq!(Frame::parse(b"$-1\r\n"), Frame::Null);
}

#[test]
fn negative_count_is_null_and_zero_count_is_empty() {
    assert_eq!(Frame::check(b"*-1\r\n"), Check::Complete(5));
    assert_eq!(Frame::parse(b"*-1\r\n"), Frame::Null);
    assert_eq!(Frame::check(b"*0\r\n"), Check::Complete(4));
    assert_eq!(Frame::parse(b"*0\r\n"), Frame::Array(vec![]));
}

#[test]
fn check_tells_the_length_of_the_first_frame_only() {
    let bytes = b"+OK\r\n:12\r\n";
    assert_eq!(Frame::check(bytes), Check::Complete(5));
    assert_eq!(Frame::parse(bytes), Frame::Simple("OK".to_string()));
    assert_eq!(Frame::parse_prefix(bytes), (Frame::Simple("OK".to_string()), 5));
}

#[test]
fn numerals_may_have_leading_zeros() {
    assert_eq!(Frame::parse(b":007\r\n"), Frame::Integer(7));
    assert_eq!(Frame::parse(b":-0\r\n"), Frame::Integer(0));
    assert_eq!(Frame::parse(b"$03\r\nabc\r\n"), Frame::Bulk(b"abc".to_vec()));
}

#[test]
fn every_strict_prefix_is_incomplete() {
    let frame = Frame::Array(vec![
        Frame::Bulk(b"SET".to_vec()),
        Frame::Bulk(b"hello".to_vec()),
        Frame::Bulk(b"world".to_vec()),
        Frame::Integer(-15),
        Frame::Simple("x".to_string()),
        Frame::Null,
    ]);
    let bytes = frame.encode();
    for k in 0..bytes.len() {
        assert_eq!(Frame::check(&bytes[..k]), Check::Incomplete);
    }
    assert_eq!(Frame::check(&bytes), Check::Complete(bytes.len()));
}

#[test]
fn unknown_type_byte_is_malformed() {
    assert_eq!(Frame::check(b"hello\r\n"), Check::Malformed(Malformation::UnknownType(b'h')));
    assert_eq!(Frame::check(b"!"), Check::Malformed(Malformation::UnknownType(b'!')));
}

#[test]
fn text_that_is_not_utf8_is_malformed() {
    assert_eq!(Frame::check(b"+\xff\xfe\r\n"), Check::Malformed(Malformation::InvalidText));
    assert_eq!(Frame::check(b"-\xc3\r\n"), Check::Malformed(Malformation::InvalidText));
}

#[test]
fn non_numeric_length_is_malformed() {
    assert_eq!(Frame::check(b"$abc\r\n"), Check::Malformed(Malformation::InvalidNumber));
    assert_eq!(Frame::check(b":\r\n"), Check::Malformed(Malformation::InvalidNumber));
    assert_eq!(Frame::check(b":-\r\n"), Check::Malformed(Malformation::InvalidNumber));
    assert_eq!(Frame::check(b":+5\r\n"), Check::Malformed(Malformation::InvalidNumber));
    assert_eq!(Frame::check(b":12a\r\n"), Check::Malformed(Malformation::InvalidNumber));
    assert_eq!(Frame::check(b"*1 \r\n"), Check::Malformed(Malformation::InvalidNumber));
}

#[test]
fn number_beyond_64_bits_is_malformed() {
    assert_eq!(
        Frame::check(b":9223372036854775808\r\n"),
        Check::Malformed(Malformation::InvalidNumber)
    );
    assert_eq!(
        Frame::check(b":-9223372036854775809\r\n"),
        Check::Malformed(Malformation::InvalidNumber)
    );
    assert_eq!(
        Frame::check(b":99999999999999999999999999\r\n"),
        Check::Malformed(Malformation::InvalidNumber)
    );
    assert_eq!(Frame::check(b":-9223372036854775808\r\n"), Check::Complete(23));
}

#[test]
fn length_below_minus_one_is_malformed() {
    assert_eq!(Frame::check(b"$-2\r\n"), Check::Malformed(Malformation::InvalidLength));
    assert_eq!(Frame::check(b"*-7\r\n"), Check::Malformed(Malformation::InvalidLength));
}

#[test]
fn bulk_without_terminator_is_malformed() {
    assert_eq!(Frame::check(b"$3\r\nabcde"), Check::Malformed(Malformation::MissingTerminator));
    assert_eq!(Frame::check(b"$3\r\nabc\n\r"), Check::Malformed(Malformation::MissingTerminator));
}

#[test]
fn bulk_waits_for_all_its_bytes() {
    assert_eq!(Frame::check(b"$3\r\n"), Check::Incomplete);
    assert_eq!(Frame::check(b"$3\r\nabc"), Check::Incomplete);
    assert_eq!(Frame::check(b"$3\r\nabc\r"), Check::Incomplete);
    assert_eq!(Frame::check(b"$3\r\nabc\r\n"), Check::Complete(9));
    assert_eq!(Frame::check(b"$9223372036854775807\r\nabc"), Check::Incomplete);
}

#[test]
fn a_malformed_item_makes_the_array_malformed() {
    assert_eq!(
        Frame::check(b"*2\r\n:1\r\n?\r\n"),
        Check::Malformed(Malformation::UnknownType(b'?'))
    );
    assert_eq!(Frame::check(b"*2\r\n:1\r\n"), Check::Incomplete);
}

#[test]
fn empty_input_is_incomplete() {
    assert_eq!(Frame::check(b""), Check::Incomplete);
    assert_eq!(Frame::check(b"+"), Check::Incomplete);
    assert_eq!(Frame::check(b"+OK\r"), Check::Incomplete);
}

#[test]
fn find_line_finds_the_first_terminator() {
    assert_eq!(find_line(b"+OK\r\n+NO\r\n", 1), Some(3));
    assert_eq!(find_line(b"+OK\r\n+NO\r\n", 4), Some(8));
    assert_eq!(find_line(b"\r\n", 0), Some(0));
    assert_eq!(find_line(b"abc\r", 0), None);
    assert_eq!(find_line(b"abc\n\r", 0), None);
    assert_eq!(find_line(b"", 0), None);
}

#[test]
fn decode_checks_and_reads() {
    assert_eq!(Frame::decode(b":12\r\n+rest"), Ok(Some((Frame::Integer(12), 5))));
    assert_eq!(Frame::decode(b":12\r"), Ok(None));
    assert_eq!(Frame::decode(b""), Ok(None));
    assert_eq!(Frame::decode(b":x\r\n"), Err(Malformation::InvalidNumber));
    let frame = Frame::Array(vec![Frame::Null, Frame::Bulk(b"\r\n".to_vec())]);
    let bytes = frame.encode();
    assert_eq!(Frame::decode(&bytes), Ok(Some((frame, bytes.len()))));
}

#[test]
fn clone_is_equal() {
    let frame = Frame::Array(vec![
        Frame::Simple("a".to_string()),
        Frame::Error("b".to_string()),
        Frame::Integer(-3),
        Frame::Bulk(vec![1, 2, 3]),
        Frame::Null,
        Frame::Array(vec![Frame::Array(vec![]), Frame::Integer(4)]),
    ]);
    assert_eq!(frame.clone(), frame);
    assert_eq!(frame.clone().encode(), frame.encode());
}
