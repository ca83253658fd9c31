use moor::events::{canonical_event, canonical_header, event, Cursor, EventKind, EventStream};
use moor::storage::{
    generation_field, health, lifecycle_phase, line_flags, observed_event, session_path, stored_sequence, EventLog, Purpose,
    StorageError,
};
use moor::terminal::Observation;

#[test]
fn health_bits_follow_writable_lanes() {
    assert_eq!(health(Some(true), Some(true), Some(true), true), 7);
    assert_eq!(health(Some(true), Some(true), Some(true), false), 5);
    assert_eq!(health(None, Some(false), Some(true), true), 4);
    assert_eq!(health(None, None, None, true), 0);
}

#[test]
fn observations_become_events_in_their_slots() {
    let (e, slot) = observed_event(&Observation::Ready, 2000).unwrap();
    assert_eq!((e.0, e.1, slot), ("ready", 2000, Some(0)));
    assert!(e.2.is_empty());
    let (e, slot) = observed_event(&Observation::State("busy", b"t".to_vec(), true), 1).unwrap();
    assert_eq!((e.0, slot), ("state", Some(1)));
    assert_eq!(e.2, b",\"state\":\"busy\",\"title\":\"t\",\"truncated\":true".to_vec());
    let (e, slot) = observed_event(&Observation::Link(b"u".to_vec(), false), 1).unwrap();
    assert_eq!((e.0, slot), ("link", Some(2)));
    assert_eq!(e.2, b",\"uri\":\"u\",\"truncated\":false".to_vec());
    let (e, slot) = observed_event(&Observation::Degraded("osc", "limit"), 1).unwrap();
    assert_eq!((e.0, slot), ("observer-degraded", None));
    assert_eq!(e.2, b",\"scanner\":\"osc\",\"reason\":\"limit\"".to_vec());
    assert!(observed_event(&Observation::Query(1, b"\x1b[c".to_vec()), 1).is_none());
}

#[test]
fn a_planned_commit_stores_the_header_and_the_records_of_the_epoch() {
    let mut log = EventLog::new(EventStream::new(), 0, b"s".to_vec(), None);
    assert!(log.writable());
    let ready = event("ready", 0, &[]);
    let planned = log.plan(Purpose::Background, &[ready], Some(0)).unwrap();
    let mut expected = canonical_header(0, "s", None, Cursor(0, 1, 0, 2));
    let line = canonical_event(0, 0, EventKind::Transition, &event("ready", 0, &[]));
    expected.extend(line.clone());
    assert_eq!(planned.replacement.body, expected);
    assert_eq!((planned.replacement.epoch, planned.replacement.first, planned.replacement.next), (0, 0, 1));
    assert_eq!(planned.replacement.purpose, Purpose::Background);
    assert_eq!(log.commit(planned), Ok(()));
    let second = log.plan(Purpose::Lifecycle, &[event("ready", 1000, &[])], None).unwrap();
    let mut expected = canonical_header(0, "s", None, Cursor(0, 2, 0, 3));
    expected.extend(line);
    expected.extend(canonical_event(0, 1, EventKind::Transition, &event("ready", 1000, &[])));
    assert_eq!(second.replacement.body, expected);
    assert_eq!(second.replacement.purpose, Purpose::Lifecycle);
}

#[test]
fn a_closed_stream_disables_planning() {
    let log = EventLog::new(EventStream::at(Cursor(0, 0, 0, 0)), 0, b"s".to_vec(), None);
    assert_eq!(log.plan(Purpose::Background, &[event("ready", 0, &[])], None).err(), Some(StorageError::Disabled));
    assert_eq!(log.plan(Purpose::Background, &[], None).err(), Some(StorageError::Disabled));
}

fn event_commit(epoch: u32, start: u64, end: u64) -> moor::store::Commit {
    moor::store::Commit {
        slot: 0,
        body: 0,
        kind: moor::store::Kind::Event,
        generation: 7,
        epoch,
        index: 1,
        length: 0,
        start,
        end,
        hash: [0; 32],
    }
}

#[test]
fn a_stored_commit_numbers_its_lines_from_the_first_retained() {
    let commit = event_commit(0, 1, 3);
    assert!(stored_sequence((0, 1, 3), &[0, 0], 100, &commit));
    assert!(!stored_sequence((0, 1, 4), &[0, 0], 100, &commit));
    assert!(!stored_sequence((1, 1, 3), &[0, 0], 100, &commit));
}

#[test]
fn snapshots_come_first_and_nothing_follows_the_exhaustion() {
    let commit = event_commit(0, 1, 3);
    assert!(stored_sequence((0, 1, 3), &[1, 0], 100, &commit));
    assert!(!stored_sequence((0, 1, 3), &[0, 1], 100, &commit));
    assert!(!stored_sequence((0, 1, 3), &[2 | 8, 0], 100, &commit));
}

#[test]
fn only_an_overage_may_pass_the_size_cap() {
    let commit = event_commit(0, 1, 2);
    assert!(!stored_sequence((0, 1, 2), &[0], 300_000, &commit));
    assert!(stored_sequence((0, 1, 2), &[2 | 8], 300_000, &commit));
    let commit = event_commit(2, 1, 2);
    assert!(stored_sequence((2, 1, 2), &[0], 300_000, &commit));
    assert!(!stored_sequence((2, 1, 2), &[4], 300_000, &commit));
}

#[test]
fn stored_line_flags_mark_snapshots_exhaustion_retention_and_axis() {
    assert_eq!(line_flags(b"state", true, false, b""), 1);
    assert_eq!(line_flags(b"stream-exhausted", false, false, b"seq"), 2 | 8);
    assert_eq!(line_flags(b"stream-exhausted", false, false, b"epoch"), 2 | 16);
    assert_eq!(line_flags(b"stream-exhausted", false, false, b"commit"), 2 | 32);
    assert_eq!(line_flags(b"semantic-source", true, false, b""), 1 | 4);
    assert_eq!(line_flags(b"semantic-assertion", false, true, b""), 4);
    assert_eq!(line_flags(b"semantic-assertion", false, false, b""), 0);
    assert_eq!(line_flags(b"ready", false, false, b"seq"), 0);
}

#[test]
fn stored_records_name_generation_path_and_phase_by_their_rules() {
    assert!(generation_field(true, None, 1));
    assert!(!generation_field(false, Some(1), 1));
    assert!(generation_field(false, Some(4), 4));
    assert!(!generation_field(true, None, 4));
    assert!(session_path(b"\x01/tmp/s", false));
    assert!(!session_path(b"\x01tmp", false));
    let mut windows = vec![2u8];
    windows.extend_from_slice(&[0; 24]);
    assert!(session_path(&windows, true));
    assert!(!session_path(&windows[..24], true));
    assert!(lifecycle_phase(true, None, 1, 0, 0, None, None, false));
    assert!(!lifecycle_phase(true, Some(0), 1, 0, 0, None, None, false));
    assert!(lifecycle_phase(false, Some(0), 2, 5, 9, Some(9), Some(255), false));
    assert!(!lifecycle_phase(false, Some(0), 2, 5, 9, Some(9), Some(256), false));
    assert!(lifecycle_phase(false, Some(0), 2, 5, 9, Some(9), Some(256), true));
    assert!(!lifecycle_phase(false, Some(0), 2, 5, 9, Some(8), Some(0), false));
    assert!(lifecycle_phase(false, Some(1), 2, 0, 3, Some(3), None, false));
    assert!(!lifecycle_phase(false, Some(1), 2, 0, 3, Some(3), None, true));
    assert!(lifecycle_phase(false, Some(2), 2, 0, 3, Some(3), None, true));
    assert!(!lifecycle_phase(false, Some(3), 2, 0, 3, Some(3), None, true));
}
