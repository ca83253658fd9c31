use moor::lane::{clear_step, next_frontier, phase_step, published, ClearStep, LaneQueue, Published, StoreStep, WritePhase};
use moor::storage::{Purpose, StorageError};
use moor::store::{Commit, Kind, StoreError};

fn commit(index: u64, epoch: u32, length: u64) -> Commit {
    Commit { slot: 0, body: 0, kind: Kind::Log, generation: 1, epoch, index, length, start: 0, end: length, hash: [0; 32] }
}

#[test]
fn a_lane_takes_jobs_within_its_limits_and_completes_them_in_order() {
    let mut lane = LaneQueue::new(2, 10);
    assert_eq!(lane.admission(Purpose::Clear(1, 5), 4), Ok(()));
    lane.taken(Purpose::Clear(1, 5), 4);
    assert_eq!(lane.admission(Purpose::Semantic(2, false), 6), Ok(()));
    lane.taken(Purpose::Semantic(2, false), 6);
    assert_eq!(lane.pending(), 2);
    assert!(lane.clear_pending(1));
    assert!(!lane.clear_pending(2));
    assert_eq!(lane.admission(Purpose::Semantic(3, false), 0), Err(StorageError::Busy));
    assert!(lane.writable());
    assert_eq!(lane.complete(), Some(Purpose::Clear(1, 5)));
    assert_eq!(lane.complete(), Some(Purpose::Semantic(2, false)));
    assert_eq!(lane.complete(), None);
}

#[test]
fn mandatory_work_that_does_not_fit_closes_the_lane() {
    let mut lane = LaneQueue::new(4, 10);
    assert_eq!(lane.admission(Purpose::Sources(1, false), 11), Err(StorageError::Busy));
    assert!(lane.writable());
    assert_eq!(lane.admission(Purpose::Background, 11), Err(StorageError::Disabled));
    assert!(!lane.writable());
    assert_eq!(lane.admission(Purpose::Semantic(1, false), 1), Err(StorageError::Disabled));
}

#[test]
fn a_clear_reports_a_changed_or_empty_log_and_otherwise_replaces_it() {
    match clear_step(&commit(4, 2, 0), 4) {
        Ok(ClearStep::Report(c, changed)) => assert_eq!((c.index, changed), (4, false)),
        _ => panic!("expected a report"),
    }
    match clear_step(&commit(5, 2, 9), 4) {
        Ok(ClearStep::Report(c, changed)) => assert_eq!((c.index, changed), (5, true)),
        _ => panic!("expected a report"),
    }
    assert!(matches!(clear_step(&commit(4, 2, 9), 4), Ok(ClearStep::Replace(3))));
    assert!(matches!(clear_step(&commit(4, u32::MAX, 9), 4), Err(StoreError::Exhausted)));
}

#[test]
fn the_frontier_only_moves_forward_and_unknown_stays_unknown() {
    assert_eq!(next_frontier(Some(commit(4, 1, 0)), Some(commit(6, 1, 0))).map(|c| c.index), Some(6));
    assert_eq!(next_frontier(Some(commit(7, 1, 0)), Some(commit(6, 1, 0))).map(|c| c.index), Some(7));
    assert!(next_frontier(Some(commit(7, 1, 0)), None).is_none());
    assert!(next_frontier(None, Some(commit(9, 1, 0))).is_none());
}

#[test]
fn the_write_phase_moves_through_body_record_and_commit() {
    assert_eq!(phase_step(StoreStep::Body, WritePhase::Body), Some(WritePhase::Body));
    assert_eq!(phase_step(StoreStep::Commit, WritePhase::Body), Some(WritePhase::Dirty));
    assert_eq!(phase_step(StoreStep::Commit, WritePhase::Dirty), Some(WritePhase::Dirty));
    assert_eq!(phase_step(StoreStep::Flush, WritePhase::Dirty), Some(WritePhase::Committing));
    assert_eq!(phase_step(StoreStep::Flush, WritePhase::Body), None);
    assert_eq!(phase_step(StoreStep::Body, WritePhase::Idle), None);
}

#[test]
fn a_failed_job_publishes_by_the_phase_it_stopped_in() {
    assert!(matches!(published(Some(commit(3, 1, 0)), WritePhase::Dirty), Published::Commit(c) if c.index == 3));
    assert!(matches!(published(None, WritePhase::Committing), Published::Reread));
    assert!(matches!(published(None, WritePhase::Dirty), Published::Unknown));
    assert!(matches!(published(None, WritePhase::Body), Published::Standing));
}
