use my_redis::decimal::{parse_i64, push_decimal};
use my_redis::frame::{check, encode, parse, Frame, FrameError, Malformation, MAX_LINE_LEN};

fn decode_all(bytes: &[u8]) -> Result<(Frame, usize), FrameError> {
    let n = check(bytes)?;
    let (frame, used) = parse(bytes);
    assert_eq!(n, used);
    Ok((frame, used))
}

fn round_trip(frame: Frame) {
    let bytes = encode(&frame).unwrap();
    let (back, used) = decode_all(&bytes).unwrap();
    assert_eq!(used, bytes.len());
    assert_eq!(back, frame);
}

#[test]
fn encodes_each_kind() {
    assert_eq!(encode(&Frame::Simple("OK".to_string())).unwrap(), b"+OK\r\n".to_vec());
    assert_eq!(encode(&Frame::Error("ERR x".to_string())).unwrap(), b"-ERR x\r\n".to_vec());
    assert_eq!(encode(&Frame::Integer(42)).unwrap(), b":42\r\n".to_vec());
    assert_eq!(encode(&Frame::Integer(-7)).unwrap(), b":-7\r\n".to_vec());
    assert_eq!(encode(&Frame::Integer(0)).unwrap(), b":0\r\n".to_vec());
    assert_eq!(encode(&Frame::Null).unwrap(), b"$-1\r\n".to_vec());
    assert_eq!(encode(&Frame::Bulk(b"world".to_vec())).unwrap(), b"$5\r\nworld\r\n".to_vec());
    assert_eq!(encode(&Frame::Bulk(Vec::new())).unwrap(), b"$0\r\n\r\n".to_vec());
}

#[test]
fn array_encode_is_unsupported() {
    assert_eq!(encode(&Frame::Array(vec![Frame::Null])), Err(FrameError::Unsupported));
}

#[test]
fn round_trips() {
    round_trip(Frame::Simple("hello world".to_string()));
    round_trip(Frame::Simple(String::new()));
    round_trip(Frame::Simple("héllo ✓".to_string()));
    round_trip(Frame::Error("ERR something".to_string()));
    round_trip(Frame::Integer(i64::MAX));
    round_trip(Frame::Integer(i64::MIN));
    round_trip(Frame::Integer(12345));
    round_trip(Frame::Null);
    round_trip(Frame::Bulk(b"bin\r\n\x00\xff".to_vec()));
    round_trip(Frame::Bulk(Vec::new()));
}

#[test]
fn decodes_with_trailing_bytes() {
    let (f, n) = decode_all(b"+OK\r\n:1\r\n").unwrap();
    assert_eq!(f, Frame::Simple("OK".to_string()));
    assert_eq!(n, 5);
}

#[test]
fn incomplete_prefixes() {
    let bytes = b"$5\r\nworld\r\n";
    for k in 0..bytes.len() {
        assert_eq!(check(&bytes[..k]), Err(FrameError::Incomplete), "prefix {}", k);
    }
    assert_eq!(check(bytes), Ok(bytes.len()));
}

#[test]
fn bulk_negative_length_is_malformed() {
    assert_eq!(check(b"$-5\r\n"), Err(FrameError::Malformed(Malformation::BadLength)));
}

#[test]
fn bulk_non_numeric_length_is_malformed() {
    assert_eq!(check(b"$abc\r\nxyz\r\n"), Err(FrameError::Malformed(Malformation::BadLength)));
    assert_eq!(check(b"$\r\n"), Err(FrameError::Malformed(Malformation::BadLength)));
}

#[test]
fn bulk_overflowing_length_is_malformed() {
    assert_eq!(
        check(b"$99999999999999999999\r\n"),
        Err(FrameError::Malformed(Malformation::BadLength))
    );
}

#[test]
fn bulk_without_terminator_is_malformed() {
    assert_eq!(check(b"$3\r\nabcde"), Err(FrameError::Malformed(Malformation::BadTerminator)));
}

#[test]
fn unknown_tag_is_malformed() {
    assert_eq!(check(b"?x\r\n"), Err(FrameError::Malformed(Malformation::UnknownTag)));
}

#[test]
fn array_decode_is_unsupported() {
    assert_eq!(check(b"*1\r\n$3\r\nGET\r\n"), Err(FrameError::Unsupported));
}

#[test]
fn bad_integer_is_malformed() {
    assert_eq!(check(b":12a\r\n"), Err(FrameError::Malformed(Malformation::BadInteger)));
    assert_eq!(check(b":9223372036854775808\r\n"), Err(FrameError::Malformed(Malformation::BadInteger)));
    assert_eq!(check(b":-\r\n"), Err(FrameError::Malformed(Malformation::BadInteger)));
}

#[test]
fn bad_text_is_malformed() {
    assert_eq!(check(b"+\xff\xfe\r\n"), Err(FrameError::Malformed(Malformation::BadText)));
}

#[test]
fn long_line_is_malformed() {
    let mut bytes = vec![b'+'];
    bytes.extend(std::iter::repeat(b'a').take(MAX_LINE_LEN + 2));
    assert_eq!(check(&bytes), Err(FrameError::Malformed(Malformation::LineTooLong)));
    let mut short = vec![b'+'];
    short.extend(std::iter::repeat(b'a').take(MAX_LINE_LEN));
    assert_eq!(check(&short), Err(FrameError::Incomplete));
    short.extend_from_slice(b"\r\n");
    assert_eq!(check(&short), Ok(MAX_LINE_LEN + 3));
}

#[test]
fn decimal_text() {
    let mut out = Vec::new();
    push_decimal(&mut out, i64::MIN);
    assert_eq!(out, b"-9223372036854775808".to_vec());
    assert_eq!(parse_i64(b"-9223372036854775808"), Some(i64::MIN));
    assert_eq!(parse_i64(b"9223372036854775807"), Some(i64::MAX));
    assert_eq!(parse_i64(b"9223372036854775808"), None);
    assert_eq!(parse_i64(b"007"), Some(7));
    assert_eq!(parse_i64(b""), None);
    assert_eq!(parse_i64(b"+1"), None);
}

#[test]
fn non_canonical_integers_are_malformed() {
    assert_eq!(check(b":07\r\n"), Err(FrameError::Malformed(Malformation::BadInteger)));
    assert_eq!(check(b":-0\r\n"), Err(FrameError::Malformed(Malformation::BadInteger)));
    assert_eq!(check(b":+7\r\n"), Err(FrameError::Malformed(Malformation::BadInteger)));
    assert_eq!(check(b":0\r\n"), Ok(4));
}

#[test]
fn non_canonical_bulk_lengths_are_malformed() {
    assert_eq!(check(b"$05\r\nhello\r\n"), Err(FrameError::Malformed(Malformation::BadLength)));
    assert_eq!(check(b"$-0\r\n\r\n"), Err(FrameError::Malformed(Malformation::BadLength)));
    assert_eq!(check(b"$-01\r\n"), Err(FrameError::Malformed(Malformation::BadLength)));
}

#[test]
fn lone_cr_or_lf_in_text_is_malformed() {
    assert_eq!(check(b"+a\rb\r\n"), Err(FrameError::Malformed(Malformation::BadText)));
    assert_eq!(check(b"-a\nb\r\n"), Err(FrameError::Malformed(Malformation::BadText)));
}

#[test]
fn encode_refuses_text_outside_grammar() {
    assert_eq!(
        encode(&Frame::Simple("a\r\nb".to_string())),
        Err(FrameError::Malformed(Malformation::BadText))
    );
    assert_eq!(
        encode(&Frame::Error("a\nb".to_string())),
        Err(FrameError::Malformed(Malformation::BadText))
    );
    let long: String = std::iter::repeat('x').take(MAX_LINE_LEN + 1).collect();
    assert_eq!(
        encode(&Frame::Simple(long)),
        Err(FrameError::Malformed(Malformation::LineTooLong))
    );
    let fits: String = std::iter::repeat('x').take(MAX_LINE_LEN).collect();
    round_trip(Frame::Simple(fits));
}
