use presence_log::codec::{decode, encode};
use presence_log::domain::LogEntry;
use presence_log::num::parse_u32;
use presence_log::store::{shorten_device, FileLogRepository};

fn b(s: &str) -> Vec<u8> {
    s.as_bytes().to_vec()
}

fn sample_entry() -> LogEntry {
    LogEntry {
        timestamp: b("2024-01-01 10:05:00 +0000"),
        ip: b("1.2.3.4"),
        device: b("Chrome"),
        device_id: b("dev1"),
        action: b("DISCONNECTED"),
        count: 0,
        duration: Some(b("5m 0s")),
        raw: Vec::new(),
    }
}

#[test]
fn encode_joins_seven_fields() {
    let line = encode(&sample_entry());
    assert_eq!(
        line,
        b("2024-01-01 10:05:00 +0000,1.2.3.4,Chrome,dev1,DISCONNECTED,0,5m 0s")
    );
}

#[test]
fn encode_empty_duration_field_when_absent() {
    let mut e = sample_entry();
    e.action = b("CONNECTED");
    e.count = 1;
    e.duration = None;
    let line = encode(&e);
    assert_eq!(
        line,
        b("2024-01-01 10:05:00 +0000,1.2.3.4,Chrome,dev1,CONNECTED,1,")
    );
}

#[test]
fn encode_sanitizes_device_commas() {
    let mut e = sample_entry();
    e.device = b("a,b,c");
    let line = encode(&e);
    assert_eq!(
        line,
        b("2024-01-01 10:05:00 +0000,1.2.3.4,a b c,dev1,DISCONNECTED,0,5m 0s")
    );
}

#[test]
fn decode_encode_round_trip() {
    let e = sample_entry();
    let line = encode(&e);
    let back = decode(&line).expect("well-formed line must decode");
    assert_eq!(back.timestamp, e.timestamp);
    assert_eq!(back.ip, e.ip);
    assert_eq!(back.device, e.device);
    assert_eq!(back.device_id, e.device_id);
    assert_eq!(back.action, e.action);
    assert_eq!(back.count, e.count);
    assert_eq!(back.duration, e.duration);
    assert_eq!(back.raw, line);
}

#[test]
fn decode_current_format_without_duration() {
    let line = b("2024-01-01 10:00:00 +0000,1.2.3.4,Chrome,dev1,CONNECTED,1,");
    let e = decode(&line).unwrap();
    assert_eq!(e.device_id, b("dev1"));
    assert_eq!(e.count, 1);
    assert_eq!(e.duration, None);
}

#[test]
fn decode_legacy_five_field_line() {
    let line = b("2024-01-01 10:00:00 +0000,1.2.3.4,Chrome,CONNECTED,3");
    let e = decode(&line).unwrap();
    assert_eq!(e.device_id, b("N/A"));
    assert_eq!(e.action, b("CONNECTED"));
    assert_eq!(e.count, 3);
    assert_eq!(e.duration, None);
}

#[test]
fn decode_discards_malformed_lines() {
    assert!(decode(&b("")).is_none());
    assert!(decode(&b("garbage")).is_none());
    assert!(decode(&b("a,b,c")).is_none());
    assert!(decode(&b("a,b,c,d")).is_none());
}

#[test]
fn decode_defaults_unparsable_count_to_zero() {
    let line = b("ts,ip,dev,id,ACT,notanumber,");
    assert_eq!(decode(&line).unwrap().count, 0);
    let too_big = b("ts,ip,dev,id,ACT,99999999999999999999,");
    assert_eq!(decode(&too_big).unwrap().count, 0);
}

#[test]
fn parse_u32_accepts_plus_and_rejects_junk() {
    assert_eq!(parse_u32(&b("42")), 42);
    assert_eq!(parse_u32(&b("+42")), 42);
    assert_eq!(parse_u32(&b("4294967295")), u32::MAX);
    assert_eq!(parse_u32(&b("4294967296")), 0);
    assert_eq!(parse_u32(&b("")), 0);
    assert_eq!(parse_u32(&b("-1")), 0);
    assert_eq!(parse_u32(&b("1 2")), 0);
}

#[test]
fn shorten_device_takes_parenthesised_group() {
    let ua = b("Mozilla/5.0 (Windows NT 10.0; Win64; x64) AppleWebKit/537.36");
    assert_eq!(shorten_device(&ua), b("Windows NT 10.0; Win64; x64"));
    assert_eq!(FileLogRepository::shorten_device(&ua), b("Windows NT 10.0; Win64; x64"));
}

#[test]
fn shorten_device_truncates_without_parentheses() {
    let long = b("abcdefghijklmnopqrstuvwxyz0123456789");
    assert_eq!(shorten_device(&long), b("abcdefghijklmnopqrstuvwxyz0123"));
    assert_eq!(shorten_device(&b("short")), b("short"));
    assert_eq!(shorten_device(&b("x()")), b(""));
    assert_eq!(shorten_device(&b("x(unclosed")), b("x(unclosed"));
}
