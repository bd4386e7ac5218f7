use my_redis::cmd::{Command, Get, SetCmd, Unknown};
use my_redis::frame::Frame;
use my_redis::parse::{Parse, ParseError};

fn req(parts: Vec<Frame>) -> Frame {
    Frame::Array(parts)
}

fn bulk(s: &str) -> Frame {
    Frame::Bulk(s.as_bytes().to_vec())
}

fn simple(s: &str) -> Frame {
    Frame::Simple(s.to_string())
}

#[test]
fn from_frame_builds_get() {
    let cmd = Command::from_frame(req(vec![bulk("GET"), bulk("mykey")])).unwrap();
    match cmd {
        Command::Get(g) => assert_eq!(g.key(), "mykey"),
        _ => panic!("expected a GET"),
    }
}

#[test]
fn command_name_matching_is_case_insensitive() {
    let cmd = Command::from_frame(req(vec![bulk("GeT"), bulk("k")])).unwrap();
    assert!(matches!(cmd, Command::Get(_)));
    let cmd2 = Command::from_frame(req(vec![simple("set"), bulk("k"), bulk("v")])).unwrap();
    assert!(matches!(cmd2, Command::SetCmd(_)));
}

#[test]
fn from_frame_builds_plain_set() {
    let cmd = Command::from_frame(req(vec![bulk("SET"), bulk("k"), bulk("v")])).unwrap();
    match cmd {
        Command::SetCmd(s) => {
            assert_eq!(s.key(), "k");
            assert_eq!(s.value().as_slice(), b"v");
            assert_eq!(s.expire(), None);
        },
        _ => panic!("expected a SET"),
    }
}

#[test]
fn set_ex_seconds_become_milliseconds() {
    let cmd = Command::from_frame(req(vec![
        bulk("SET"),
        bulk("k"),
        bulk("v"),
        bulk("EX"),
        Frame::Integer(10),
    ]))
    .unwrap();
    match cmd {
        Command::SetCmd(s) => assert_eq!(s.expire(), Some(10_000)),
        _ => panic!("expected a SET"),
    }
}

#[test]
fn set_px_milliseconds_kept_and_option_case_insensitive() {
    let cmd = Command::from_frame(req(vec![
        bulk("SET"),
        bulk("k"),
        bulk("v"),
        bulk("pX"),
        bulk("750"),
    ]))
    .unwrap();
    match cmd {
        Command::SetCmd(s) => assert_eq!(s.expire(), Some(750)),
        _ => panic!("expected a SET"),
    }
}

#[test]
fn set_unsupported_option_is_an_error() {
    let r = Command::from_frame(req(vec![bulk("SET"), bulk("k"), bulk("v"), bulk("KEEPTTL")]));
    assert!(matches!(r, Err(ParseError::Other(_))));
}

#[test]
fn set_missing_arguments_end_the_stream() {
    let r = Command::from_frame(req(vec![bulk("SET"), bulk("k")]));
    assert_eq!(r.unwrap_err(), ParseError::EndOfStream);
    let r2 = Command::from_frame(req(vec![bulk("SET"), bulk("k"), bulk("v"), bulk("EX")]));
    assert_eq!(r2.unwrap_err(), ParseError::EndOfStream);
}

#[test]
fn set_bad_expiry_number_is_an_error() {
    let r = Command::from_frame(req(vec![
        bulk("SET"),
        bulk("k"),
        bulk("v"),
        bulk("EX"),
        bulk("soon"),
    ]));
    assert!(matches!(r, Err(ParseError::Other(_))));
}

#[test]
fn unknown_command_is_a_normal_outcome() {
    let cmd = Command::from_frame(req(vec![bulk("FOO")])).unwrap();
    match cmd {
        Command::UnKnown(u) => assert_eq!(u.get_name(), "FOO"),
        _ => panic!("expected an unknown command"),
    }
}

#[test]
fn trailing_arguments_fail_the_whole_parse() {
    let r = Command::from_frame(req(vec![bulk("GET"), bulk("k"), bulk("extra")]));
    assert!(matches!(r, Err(ParseError::Other(_))));
    let r2 = Command::from_frame(req(vec![bulk("FOO"), bulk("extra")]));
    assert!(matches!(r2, Err(ParseError::Other(_))));
}

#[test]
fn non_array_request_is_an_error() {
    let r = Command::from_frame(simple("GET"));
    assert!(matches!(r, Err(ParseError::Other(_))));
}

#[test]
fn empty_array_request_ends_the_stream() {
    let r = Command::from_frame(req(Vec::new()));
    assert_eq!(r.unwrap_err(), ParseError::EndOfStream);
}

#[test]
fn getters_echo_constructor_arguments() {
    let g = Get::new("alpha".to_string());
    assert_eq!(g.key(), "alpha");
    let s = SetCmd::new("beta".to_string(), b"val".to_vec(), Some(77));
    assert_eq!(s.key(), "beta");
    assert_eq!(s.value().as_slice(), b"val");
    assert_eq!(s.expire(), Some(77));
    let u = Unknown::new("gamma".to_string());
    assert_eq!(u.get_name(), "gamma");
}

#[test]
fn parse_cursor_walks_typed_arguments() {
    let mut p = Parse::new(req(vec![
        simple("text"),
        bulk("bytes"),
        Frame::Integer(42),
        bulk("43"),
    ]))
    .unwrap();
    assert_eq!(p.next_string().unwrap(), "text");
    assert_eq!(p.next_bytes().unwrap(), b"bytes".to_vec());
    assert_eq!(p.next_int().unwrap(), 42);
    assert_eq!(p.next_int().unwrap(), 43);
    assert!(p.finish().is_ok());
}

#[test]
fn parse_cursor_rejects_wrong_shapes() {
    let mut p = Parse::new(req(vec![Frame::Integer(5)])).unwrap();
    assert!(matches!(p.next_string(), Err(ParseError::Other(_))));

    let mut p2 = Parse::new(req(vec![Frame::Null])).unwrap();
    assert!(matches!(p2.next_bytes(), Err(ParseError::Other(_))));

    let mut p3 = Parse::new(req(vec![simple("ten")])).unwrap();
    assert!(matches!(p3.next_int(), Err(ParseError::Other(_))));

    let mut p4 = Parse::new(req(vec![simple("x")])).unwrap();
    assert!(matches!(p4.finish(), Err(ParseError::Other(_))));

    assert!(matches!(Parse::new(Frame::Integer(1)), Err(ParseError::Other(_))));
}

#[test]
fn parse_cursor_reports_end_of_stream() {
    let mut p = Parse::new(req(Vec::new())).unwrap();
    assert_eq!(p.next(), Err(ParseError::EndOfStream));
    assert_eq!(p.next_string(), Err(ParseError::EndOfStream));
    assert!(p.finish().is_ok());
}

#[test]
fn parse_string_from_simple_and_bulk_utf8() {
    let mut p = Parse::new(req(vec![simple("plain"), Frame::Bulk(vec![0xc3, 0xa9])])).unwrap();
    assert_eq!(p.next_string().unwrap(), "plain");
    assert_eq!(p.next_string().unwrap(), "é");
    let mut p2 = Parse::new(req(vec![Frame::Bulk(vec![0xff])])).unwrap();
    assert!(matches!(p2.next_string(), Err(ParseError::Other(_))));
}

#[test]
fn parse_error_messages() {
    assert_eq!(
        ParseError::EndOfStream.message(),
        "protocol error; unexpected end of stream"
    );
    assert_eq!(ParseError::Other("why".to_string()).message(), "why");
}
