use my_redis::cmd::Command;
use my_redis::connection::Connection;
use my_redis::db::Db;
use my_redis::frame::{Error, Frame};
use my_redis::server::{handle_frame, Admission, Backoff, MAX_CONNECT};
use my_redis::shutdown::Shutdown;

fn bulk(s: &str) -> Frame {
    Frame::Bulk(s.as_bytes().to_vec())
}

fn req(parts: Vec<Frame>) -> Frame {
    Frame::Array(parts)
}

fn set_cmd(key: &str, value: &str) -> Frame {
    req(vec![bulk("SET"), bulk(key), bulk(value)])
}

fn set_ex_cmd(key: &str, value: &str, secs: u64) -> Frame {
    req(vec![
        bulk("SET"),
        bulk(key),
        bulk(value),
        bulk("EX"),
        Frame::Integer(secs),
    ])
}

fn get_cmd(key: &str) -> Frame {
    req(vec![bulk("GET"), bulk(key)])
}

#[test]
fn set_with_expiry_then_get_before_and_after_deadline() {
    let mut db = Db::new();
    let reply = handle_frame(set_ex_cmd("k", "v", 10), &mut db, 1_000).unwrap();
    assert_eq!(reply, Frame::Simple("OK".to_string()));

    // immediately: present
    let hit = handle_frame(get_cmd("k"), &mut db, 1_000).unwrap();
    assert_eq!(hit, Frame::Bulk(b"v".to_vec()));

    // just before the deadline: still present
    let near = handle_frame(get_cmd("k"), &mut db, 10_999).unwrap();
    assert_eq!(near, Frame::Bulk(b"v".to_vec()));

    // deadline reached, no sweep has run: absent anyway
    let miss = handle_frame(get_cmd("k"), &mut db, 11_000).unwrap();
    assert_eq!(miss, Frame::Null);
}

#[test]
fn set_without_expiry_persists_and_overwrite_clears_expiry() {
    let mut db = Db::new();
    handle_frame(set_cmd("k", "v"), &mut db, 0).unwrap();
    // far in the future, still present
    let hit = handle_frame(get_cmd("k"), &mut db, u64::MAX).unwrap();
    assert_eq!(hit, Frame::Bulk(b"v".to_vec()));

    // an expiring write, overwritten by a plain write, loses the expiry
    handle_frame(set_ex_cmd("k", "v1", 1), &mut db, 0).unwrap();
    handle_frame(set_cmd("k", "v2"), &mut db, 500).unwrap();
    let later = handle_frame(get_cmd("k"), &mut db, 1_000_000).unwrap();
    assert_eq!(later, Frame::Bulk(b"v2".to_vec()));
}

#[test]
fn repeated_set_overwrites_value() {
    let mut db = Db::new();
    handle_frame(set_cmd("k", "v"), &mut db, 0).unwrap();
    handle_frame(set_cmd("k", "v2"), &mut db, 1).unwrap();
    let hit = handle_frame(get_cmd("k"), &mut db, 2).unwrap();
    assert_eq!(hit, Frame::Bulk(b"v2".to_vec()));
}

#[test]
fn get_absent_key_is_null_and_unknown_command_reports_name() {
    let mut db = Db::new();
    let miss = handle_frame(get_cmd("nothing"), &mut db, 0).unwrap();
    assert_eq!(miss, Frame::Null);

    let reply = handle_frame(req(vec![bulk("FOO")]), &mut db, 0).unwrap();
    match reply {
        Frame::Error(msg) => {
            assert!(msg.contains("FOO"));
            assert_eq!(msg, "unknown command 'FOO'");
        },
        other => panic!("expected an error reply, got {:?}", other),
    }

    // the store is untouched by the unknown command
    let still_miss = handle_frame(get_cmd("FOO"), &mut db, 0).unwrap();
    assert_eq!(still_miss, Frame::Null);
}

#[test]
fn sweep_removes_only_expired_entries() {
    let mut db = Db::new();
    handle_frame(set_ex_cmd("gone", "a", 1), &mut db, 0).unwrap();
    handle_frame(set_ex_cmd("kept", "b", 100), &mut db, 0).unwrap();
    handle_frame(set_cmd("forever", "c"), &mut db, 0).unwrap();

    db.sweep(5_000);

    assert_eq!(db.get("gone", 5_000), None);
    assert_eq!(db.get("kept", 5_000), Some(b"b".to_vec()));
    assert_eq!(db.get("forever", 5_000), Some(b"c".to_vec()));
}

#[test]
fn next_deadline_is_the_nearest_expiry() {
    let mut db = Db::new();
    assert_eq!(db.next_deadline(), None);
    handle_frame(set_cmd("forever", "x"), &mut db, 0).unwrap();
    assert_eq!(db.next_deadline(), None);
    handle_frame(set_ex_cmd("later", "y", 60), &mut db, 0).unwrap();
    handle_frame(set_ex_cmd("sooner", "z", 10), &mut db, 0).unwrap();
    assert_eq!(db.next_deadline(), Some(10_000));
}

#[test]
fn direct_store_calls_honor_expiry() {
    let mut db = Db::new();
    db.set("k".to_string(), b"v".to_vec(), Some(42));
    assert_eq!(db.get("k", 41), Some(b"v".to_vec()));
    assert_eq!(db.get("k", 42), None);
}

#[test]
fn connection_fed_byte_by_byte_yields_incomplete_then_the_frame() {
    let frame = req(vec![bulk("SET"), bulk("key"), bulk("value")]);
    let encoded = frame.encode();
    let mut conn = Connection::new();
    for (i, byte) in encoded.iter().enumerate() {
        if i + 1 < encoded.len() {
            conn.fill(&vec![*byte]);
            assert_eq!(conn.parse_frame().unwrap(), None, "byte {} completed early", i);
        } else {
            conn.fill(&vec![*byte]);
            let expected = req(vec![bulk("SET"), bulk("key"), bulk("value")]);
            assert_eq!(conn.parse_frame().unwrap(), Some(expected));
        }
    }
    // buffer fully consumed
    assert!(!conn.has_buffered());
    assert!(matches!(conn.end_of_stream(), Ok(None)));
}

#[test]
fn connection_decodes_back_to_back_frames_in_order() {
    let mut conn = Connection::new();
    let mut bytes = Frame::Simple("one".to_string()).encode();
    bytes.extend_from_slice(&Frame::Integer(2).encode());
    conn.fill(&bytes);
    assert_eq!(
        conn.parse_frame().unwrap(),
        Some(Frame::Simple("one".to_string()))
    );
    assert_eq!(conn.parse_frame().unwrap(), Some(Frame::Integer(2)));
    assert_eq!(conn.parse_frame().unwrap(), None);
}

#[test]
fn connection_reset_mid_frame_is_an_error() {
    let mut conn = Connection::new();
    conn.fill(&b"+par".to_vec());
    assert_eq!(conn.parse_frame().unwrap(), None);
    assert!(conn.has_buffered());
    assert!(matches!(conn.end_of_stream(), Err(Error::Other(_))));
}

#[test]
fn connection_surfaces_protocol_errors() {
    let mut conn = Connection::new();
    conn.fill(&b"!bad\r\n".to_vec());
    assert!(matches!(conn.parse_frame(), Err(Error::Other(_))));
}

#[test]
fn admission_slots_bound_concurrency() {
    let n: usize = 3;
    let mut pool = Admission::new(n);
    for _ in 0..n {
        assert!(pool.try_acquire());
    }
    // the (n+1)-th attempt must wait
    assert!(!pool.try_acquire());
    // one handler exits, the next connection gets in
    pool.release();
    assert!(pool.try_acquire());
    assert!(MAX_CONNECT > 0);
}

#[test]
fn shutdown_flag_sticks() {
    let mut s = Shutdown::new();
    assert!(!s.is_shutdown());
    s.note_shutdown();
    assert!(s.is_shutdown());
    s.note_shutdown();
    assert!(s.is_shutdown());
}

#[test]
fn backoff_doubles_until_the_ceiling() {
    let mut b = Backoff::new();
    let mut seen = Vec::new();
    while !b.give_up() {
        seen.push(b.delay_secs());
        b.advance();
    }
    assert_eq!(seen, vec![1, 2, 4, 8, 16, 32, 64]);
    assert_eq!(b.delay_secs(), 128);
}

#[test]
fn apply_runs_a_parsed_command() {
    let mut db = Db::new();
    let cmd = Command::from_frame(set_cmd("k", "v")).unwrap();
    let reply = cmd.apply(&mut db, 0);
    assert_eq!(reply, Frame::Simple("OK".to_string()));
    let got = Command::from_frame(get_cmd("k")).unwrap().apply(&mut db, 0);
    assert_eq!(got, Frame::Bulk(b"v".to_vec()));
}
