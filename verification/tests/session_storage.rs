use moor::events::{event, EventStream};
use moor::session_storage::{SessionStorage, Work};
use moor::storage::{EventLog, Purpose, StorageError};
use moor::terminal::Observation;

fn storage() -> SessionStorage {
    let log = EventLog::new(EventStream::new(), 0, b"s".to_vec(), None);
    SessionStorage::new(Some(1024), Some(log), 4, 4096)
}

#[test]
fn output_goes_to_the_log_lane_under_its_cap() {
    let mut storage = storage();
    match storage.output(b"abc".to_vec(), 3) {
        Ok(Work::Append(bytes, 1024, 3)) => assert_eq!(bytes, b"abc"),
        other => panic!("unexpected {:?}", other),
    }
    assert_eq!(storage.pending(), 1);
    assert_eq!(storage.completed(0), Some(Purpose::Background));
    assert_eq!(storage.pending(), 0);
}

#[test]
fn storage_without_an_output_log_refuses_output_and_clears() {
    let mut storage = SessionStorage::new(None, None, 4, 4096);
    assert!(matches!(storage.output(b"x".to_vec(), 1), Err(StorageError::Disabled)));
    assert!(matches!(storage.clear(1, 0, 0), Err(StorageError::Disabled)));
    assert_eq!(storage.health(), 4);
}

#[test]
fn background_output_too_large_closes_the_log_lane() {
    let mut storage = SessionStorage::new(Some(1024), None, 4, 2);
    assert!(matches!(storage.output(b"abc".to_vec(), 3), Err(StorageError::Disabled)));
    assert_eq!(storage.health() & 1, 0);
}

#[test]
fn an_abandoned_clear_closes_the_log_lane() {
    let mut storage = storage();
    assert!(matches!(storage.clear(9, 1, 5), Ok(Work::Clear(1, 5))));
    storage.abandon_clear(8);
    assert_eq!(storage.health() & 1, 1);
    storage.abandon_clear(9);
    assert_eq!(storage.health() & 1, 0);
}

#[test]
fn the_lifecycle_record_replaces_its_store_at_the_output_end() {
    let mut storage = storage();
    match storage.lifecycle(b"{}\n".to_vec(), 7) {
        Ok(Work::Replace(body, 1, 7, 7)) => assert_eq!(body, b"{}\n"),
        other => panic!("unexpected {:?}", other),
    }
    assert_eq!(storage.completed(2), Some(Purpose::Lifecycle));
}

#[test]
fn events_are_filed_in_the_event_lane_and_nothing_files_nothing() {
    let mut storage = storage();
    let (work, result) = storage.commit(Purpose::Final, &[]);
    assert!(work.is_none() && result.is_ok());
    let (work, result) = storage.commit(Purpose::Final, &[event("ready", 1, &[])]);
    assert!(result.is_ok());
    assert!(matches!(work, Some(Work::Replace(_, 0, _, _))));
    assert_eq!(storage.completed(1), Some(Purpose::Final));
    let (work, result) = storage.observe(&Observation::Ready, 2);
    assert!(result.is_ok() && work.is_some());
    assert_eq!(storage.health(), 7);
}
