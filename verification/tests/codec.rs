use my_redis::frame::{get_decimal, get_line, get_u8, peek_u8, skip, Error, Frame};

fn parse_all(bytes: &[u8]) -> (Result<Frame, Error>, usize) {
    let buf: Vec<u8> = bytes.to_vec();
    let mut pos: usize = 0;
    let r = Frame::parse(&buf, &mut pos);
    (r, pos)
}

fn check_all(bytes: &[u8]) -> (Result<(), Error>, usize) {
    let buf: Vec<u8> = bytes.to_vec();
    let mut pos: usize = 0;
    let r = Frame::check(&buf, &mut pos);
    (r, pos)
}

fn round_trip(frame: Frame) {
    let encoded = frame.encode();
    let (checked, cpos) = check_all(&encoded);
    assert!(checked.is_ok());
    assert_eq!(cpos, encoded.len());
    let (parsed, ppos) = parse_all(&encoded);
    assert_eq!(parsed.unwrap(), frame);
    assert_eq!(ppos, encoded.len());
}

#[test]
fn encode_simple_exact_bytes() {
    let f = Frame::Simple("OK".to_string());
    assert_eq!(f.encode(), b"+OK\r\n".to_vec());
}

#[test]
fn encode_error_exact_bytes() {
    let f = Frame::Error("oops".to_string());
    assert_eq!(f.encode(), b"-oops\r\n".to_vec());
}

#[test]
fn encode_integer_exact_bytes() {
    assert_eq!(Frame::Integer(0).encode(), b":0\r\n".to_vec());
    assert_eq!(Frame::Integer(10570).encode(), b":10570\r\n".to_vec());
    assert_eq!(
        Frame::Integer(u64::MAX).encode(),
        b":18446744073709551615\r\n".to_vec()
    );
}

#[test]
fn encode_bulk_exact_bytes() {
    let f = Frame::Bulk(b"hello".to_vec());
    assert_eq!(f.encode(), b"$5\r\nhello\r\n".to_vec());
}

#[test]
fn encode_null_exact_bytes() {
    assert_eq!(Frame::Null.encode(), b"$-1\r\n".to_vec());
}

#[test]
fn encode_array_exact_bytes() {
    let f = Frame::Array(vec![
        Frame::Simple("GET".to_string()),
        Frame::Bulk(b"k".to_vec()),
    ]);
    assert_eq!(f.encode(), b"*2\r\n+GET\r\n$1\r\nk\r\n".to_vec());
}

#[test]
fn round_trip_all_shapes() {
    round_trip(Frame::Simple("OK".to_string()));
    round_trip(Frame::Simple(String::new()));
    round_trip(Frame::Error("ERR something went wrong".to_string()));
    round_trip(Frame::Integer(0));
    round_trip(Frame::Integer(u64::MAX));
    round_trip(Frame::Bulk(Vec::new()));
    round_trip(Frame::Bulk(vec![0, 13, 10, 255, 42]));
    round_trip(Frame::Null);
    round_trip(Frame::Array(Vec::new()));
    round_trip(Frame::Array(vec![
        Frame::Simple("SET".to_string()),
        Frame::Bulk(b"key".to_vec()),
        Frame::Bulk(b"value".to_vec()),
        Frame::Simple("EX".to_string()),
        Frame::Integer(10),
    ]));
}

#[test]
fn round_trip_non_ascii_text() {
    round_trip(Frame::Simple("héllo wörld \u{1F600}".to_string()));
}

#[test]
fn round_trip_nested_arrays() {
    round_trip(Frame::Array(vec![
        Frame::Array(vec![Frame::Integer(1), Frame::Null]),
        Frame::Array(vec![Frame::Array(vec![Frame::Bulk(b"x".to_vec())])]),
        Frame::Simple("deep".to_string()),
    ]));
}

#[test]
fn parse_integer_line() {
    let (r, pos) = parse_all(b":12345\r\n");
    assert_eq!(r.unwrap(), Frame::Integer(12345));
    assert_eq!(pos, 8);
}

#[test]
fn parse_leaves_trailing_bytes() {
    let (r, pos) = parse_all(b"+a\r\n+b\r\n");
    assert_eq!(r.unwrap(), Frame::Simple("a".to_string()));
    assert_eq!(pos, 4);
}

#[test]
fn incomplete_on_every_strict_prefix() {
    let frames = vec![
        Frame::Simple("OK".to_string()),
        Frame::Integer(1234),
        Frame::Bulk(b"bytes".to_vec()),
        Frame::Null,
        Frame::Array(vec![Frame::Simple("GET".to_string()), Frame::Bulk(b"k".to_vec())]),
    ];
    for frame in frames {
        let encoded = frame.encode();
        for cut in 0..encoded.len() {
            let (p, _) = parse_all(&encoded[..cut]);
            assert_eq!(p, Err(Error::Incomplete), "prefix of length {} parsed", cut);
            let (c, _) = check_all(&encoded[..cut]);
            assert_eq!(c, Err(Error::Incomplete), "prefix of length {} checked", cut);
        }
        let (p, _) = parse_all(&encoded);
        assert_eq!(p.unwrap(), frame);
    }
}

#[test]
fn illegal_tag_byte_is_protocol_error() {
    let (r, _) = parse_all(b"!oops\r\n");
    assert!(matches!(r, Err(Error::Other(_))));
    let (c, _) = check_all(b"!oops\r\n");
    assert!(matches!(c, Err(Error::Other(_))));
}

#[test]
fn malformed_decimal_is_protocol_error_not_incomplete() {
    let (r, _) = parse_all(b":12a4\r\n");
    assert!(matches!(r, Err(Error::Other(_))));
    let (r2, _) = parse_all(b":\r\n");
    assert!(matches!(r2, Err(Error::Other(_))));
}

#[test]
fn oversized_decimal_is_protocol_error() {
    // one past u64::MAX
    let (r, _) = parse_all(b":18446744073709551616\r\n");
    assert!(matches!(r, Err(Error::Other(_))));
}

#[test]
fn invalid_utf8_simple_is_protocol_error_where_check_passes() {
    let bytes = b"+\xff\xfe\r\n";
    let (c, _) = check_all(bytes);
    assert!(c.is_ok());
    let (r, _) = parse_all(bytes);
    assert!(matches!(r, Err(Error::Other(_))));
}

#[test]
fn non_ascii_utf8_simple_decodes() {
    let (r, _) = parse_all(b"+\xc3\xa9\r\n");
    assert_eq!(r.unwrap(), Frame::Simple("é".to_string()));
}

#[test]
fn bad_null_marker_is_protocol_error() {
    let (r, _) = parse_all(b"$-2\r\n");
    assert!(matches!(r, Err(Error::Other(_))));
    let (c, _) = check_all(b"$-2\r\n");
    assert!(matches!(c, Err(Error::Other(_))));
}

#[test]
fn null_array_marker_parses_as_null() {
    let (r, pos) = parse_all(b"*-1\r\n");
    assert_eq!(r.unwrap(), Frame::Null);
    assert_eq!(pos, 5);
}

#[test]
fn bulk_needs_payload_and_terminator() {
    let (r, _) = parse_all(b"$5\r\nhel");
    assert_eq!(r, Err(Error::Incomplete));
    let (r2, _) = parse_all(b"$5\r\nhello");
    assert_eq!(r2, Err(Error::Incomplete));
    let (r3, _) = parse_all(b"$5\r\nhello\r\n");
    assert_eq!(r3.unwrap(), Frame::Bulk(b"hello".to_vec()));
}

#[test]
fn get_u8_reads_and_advances() {
    let buf: Vec<u8> = vec![7, 8];
    let mut pos: usize = 0;
    assert_eq!(get_u8(&buf, &mut pos).unwrap(), 7);
    assert_eq!(pos, 1);
    assert_eq!(get_u8(&buf, &mut pos).unwrap(), 8);
    assert_eq!(get_u8(&buf, &mut pos), Err(Error::Incomplete));
}

#[test]
fn peek_u8_does_not_advance() {
    let buf: Vec<u8> = vec![9];
    let mut pos: usize = 0;
    assert_eq!(peek_u8(&buf, &mut pos).unwrap(), 9);
    assert_eq!(pos, 0);
}

#[test]
fn skip_respects_remaining() {
    let buf: Vec<u8> = vec![1, 2, 3];
    let mut pos: usize = 0;
    assert!(skip(&buf, &mut pos, 2).is_ok());
    assert_eq!(pos, 2);
    assert_eq!(skip(&buf, &mut pos, 2), Err(Error::Incomplete));
    assert_eq!(pos, 2);
}

#[test]
fn get_line_finds_first_crlf() {
    let buf: Vec<u8> = b"abc\r\ndef\r\n".to_vec();
    let mut pos: usize = 0;
    assert_eq!(get_line(&buf, &mut pos).unwrap(), b"abc".to_vec());
    assert_eq!(pos, 5);
    assert_eq!(get_line(&buf, &mut pos).unwrap(), b"def".to_vec());
    let mut pos2: usize = 0;
    let buf2: Vec<u8> = b"no terminator".to_vec();
    assert_eq!(get_line(&buf2, &mut pos2), Err(Error::Incomplete));
    assert_eq!(pos2, 0);
}

#[test]
fn get_decimal_reads_a_numeral_line() {
    let buf: Vec<u8> = b"451\r\n".to_vec();
    let mut pos: usize = 0;
    assert_eq!(get_decimal(&buf, &mut pos).unwrap(), 451);
    assert_eq!(pos, 5);
    let bad: Vec<u8> = b"4x1\r\n".to_vec();
    let mut pos2: usize = 0;
    assert!(matches!(get_decimal(&bad, &mut pos2), Err(Error::Other(_))));
}

#[test]
fn error_messages() {
    assert_eq!(Error::Incomplete.message(), "stream end early");
    assert_eq!(Error::Other("bad".to_string()).message(), "bad");
}
