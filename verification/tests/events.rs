use moor::events::{
    canonical_event, canonical_header, event, semantic_assertion, semantic_source, Axis, Cursor, Event, EventError,
    EventKind, EventStream, Json,
};
use moor::session::{SemanticEvent, SemanticEventKind, SourceEffect, SourceReason, SourceStatus};

fn text(bytes: &[u8]) -> &str {
    std::str::from_utf8(bytes).unwrap()
}

fn ready(ts: u64) -> Event {
    event("ready", ts, &[])
}

#[test]
fn event_fields_follow_in_order_with_json_values() {
    let e = event("state", 5, &[("state", Json::String("idle")), ("truncated", Json::Bool(false)), ("n", Json::Number(12))]);
    assert_eq!(e.0, "state");
    assert_eq!(e.1, 5);
    assert_eq!(text(&e.2), ",\"state\":\"idle\",\"truncated\":false,\"n\":12");
    assert!(e.3.is_none());
}

#[test]
fn quoted_strings_escape_controls_in_uppercase() {
    let e = event("state", 0, &[("title", Json::String("a\"b\\c\n\u{1}"))]);
    assert_eq!(text(&e.2), ",\"title\":\"a\\\"b\\\\c\\n\\u0001\"");
    let e = event("state", 0, &[("title", Json::String("\u{1f}"))]);
    assert_eq!(text(&e.2), ",\"title\":\"\\u001F\"");
}

#[test]
fn canonical_lines_write_whole_seconds_or_three_decimals() {
    let line = canonical_event(2, 9, EventKind::Snapshot, &ready(3000));
    assert_eq!(text(&line), "{\"type\":\"ready\",\"ts\":3,\"epoch\":2,\"seq\":9,\"kind\":\"snapshot\"}\n");
    let line = canonical_event(0, 0, EventKind::Transition, &event("exit", 1042, &[("code", Json::Number(0))]));
    assert_eq!(text(&line), "{\"type\":\"exit\",\"ts\":1.042,\"epoch\":0,\"seq\":0,\"kind\":\"transition\",\"code\":0}\n");
}

#[test]
fn header_names_session_generation_and_cursor() {
    let header = canonical_header(1500, "AXc=", Some(4), Cursor(1, 7, 3, 9));
    assert_eq!(
        text(&header),
        "{\"v\":2,\"type\":\"header\",\"ts\":1.500,\"session\":\"AXc=\",\"generation\":4,\"epoch\":1,\"next_seq\":7,\"first_retained\":3}\n"
    );
    let header = canonical_header(0, "s", None, Cursor(0, 0, 0, 1));
    assert!(text(&header).contains("\"generation\":null,"));
}

#[test]
fn a_transaction_numbers_its_lines_and_advances_the_commit() {
    let mut stream = EventStream::new();
    assert!(stream.writable());
    let (records, cursor, axis) = stream.transact(&[], &[ready(0), ready(1000)], false).unwrap();
    assert_eq!(
        text(&records),
        "{\"type\":\"ready\",\"ts\":0,\"epoch\":0,\"seq\":0,\"kind\":\"transition\"}\n{\"type\":\"ready\",\"ts\":1,\"epoch\":0,\"seq\":1,\"kind\":\"transition\"}\n"
    );
    assert_eq!(cursor, Cursor(0, 2, 0, 2));
    assert_eq!(axis, None);
    let (_, cursor, _) = stream.transact(&[], &[ready(2000)], false).unwrap();
    assert_eq!(cursor, Cursor(0, 3, 0, 3));
}

#[test]
fn compaction_starts_an_epoch_with_its_snapshots_first() {
    let mut stream = EventStream::at(Cursor(0, 5, 0, 4));
    let (records, cursor, axis) = stream.transact(&[ready(0)], &[ready(1000)], true).unwrap();
    assert_eq!(
        text(&records),
        "{\"type\":\"ready\",\"ts\":0,\"epoch\":1,\"seq\":5,\"kind\":\"snapshot\"}\n{\"type\":\"ready\",\"ts\":1,\"epoch\":1,\"seq\":6,\"kind\":\"transition\"}\n"
    );
    assert_eq!(cursor, Cursor(1, 7, 5, 5));
    assert_eq!(axis, None);
}

#[test]
fn the_last_commit_index_reports_exhaustion_and_closes_the_stream() {
    let mut stream = EventStream::at(Cursor(0, 0, 0, u64::MAX - 1));
    let (records, cursor, axis) = stream.transact(&[], &[ready(7000)], false).unwrap();
    assert_eq!(axis, Some(Axis::Commit));
    assert_eq!(
        text(&records),
        "{\"type\":\"ready\",\"ts\":7,\"epoch\":0,\"seq\":0,\"kind\":\"transition\"}\n{\"type\":\"stream-exhausted\",\"ts\":7,\"epoch\":0,\"seq\":1,\"kind\":\"transition\",\"axis\":\"commit\"}\n"
    );
    assert_eq!(cursor, Cursor(0, 2, 0, u64::MAX));
    assert!(!stream.writable());
    assert_eq!(stream.transact(&[], &[ready(0)], false).unwrap_err(), EventError::Closed);
}

#[test]
fn sequence_exhaustion_writes_only_the_diagnostic() {
    let mut stream = EventStream::at(Cursor(0, (1 << 53) - 1, 0, 1));
    let (records, cursor, axis) = stream.transact(&[], &[ready(0)], false).unwrap();
    assert_eq!(axis, Some(Axis::Sequence));
    assert!(text(&records).starts_with("{\"type\":\"stream-exhausted\","));
    assert!(text(&records).ends_with("\"axis\":\"seq\"}\n"));
    assert_eq!(cursor.1, 1 << 53);
}

#[test]
fn epoch_exhaustion_stops_a_compaction() {
    let mut stream = EventStream::at(Cursor(u32::MAX, 0, 0, 1));
    let (records, _, axis) = stream.transact(&[ready(0)], &[ready(0)], true).unwrap();
    assert_eq!(axis, Some(Axis::Epoch));
    assert!(text(&records).ends_with("\"axis\":\"epoch\"}\n"));
}

#[test]
fn empty_and_invalid_transactions_are_refused_without_change() {
    let mut stream = EventStream::new();
    assert_eq!(stream.transact(&[], &[], false).unwrap_err(), EventError::EmptyTransaction);
    let mut stream = EventStream::at(Cursor(0, 0, 0, 0));
    assert_eq!(stream.transact(&[], &[ready(0)], false).unwrap_err(), EventError::InvalidState);
    assert!(stream.writable());
}

#[test]
fn semantic_source_records_status_and_is_retained_under_its_source() {
    let effect = SourceEffect {
        source: b"src".to_vec(),
        producer: [3; 16],
        source_epoch: 2,
        status: SourceStatus::Degraded,
        reason: SourceReason::HeartbeatTimeout,
    };
    let e = semantic_source(10, &effect).unwrap();
    assert_eq!(e.0, "semantic-source");
    assert_eq!(
        text(&e.2),
        ",\"source\":\"src\",\"producer\":\"AwMDAwMDAwMDAwMDAwMDAw==\",\"source_epoch\":2,\"status\":\"degraded\",\"reason\":\"heartbeat-timeout\""
    );
    assert_eq!(e.3, Some((0, b"src".to_vec())));
    let bad = SourceEffect { source: vec![0xff], ..effect };
    assert_eq!(semantic_source(10, &bad).unwrap_err(), EventError::InvalidEvent);
}

#[test]
fn semantic_assertion_encodes_payload_and_keeps_snapshots() {
    let asserted = SemanticEvent {
        id: [4; 16],
        sequence: 8,
        kind: SemanticEventKind::Snapshot,
        exact_payload: b"{\"a\":1}".to_vec(),
    };
    let e = semantic_assertion(0, b"s", [3; 16], 1, &asserted, true).unwrap();
    assert!(text(&e.2).ends_with(
        ",\"source_seq\":\"8\",\"event_id\":\"BAQEBAQEBAQEBAQEBAQEBA==\",\"assertion_kind\":\"snapshot\",\"payload\":\"eyJhIjoxfQ==\""
    ));
    assert_eq!(e.3, Some((1, b"s".to_vec())));
    assert_eq!(semantic_assertion(0, b"s", [3; 16], 1, &asserted, false).unwrap_err(), EventError::InvalidEvent);
}
