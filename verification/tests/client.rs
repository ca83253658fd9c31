use moor::cli::CreateMode;
use moor::client::{create_ends, create_plan};
use moor::client::{
    attach_request, attach_policy, clear_policy, create_policy, decide, decode_clear_result, listed, probe_state, remove_policy,
    removal, same_session, state_mark, ClientError, Contact, Decision, InputLease, PathSeen, Removal, ResumeStep,
    SessionProblem, SessionState,
};
use moor::session::{LeaseOperation, LeaseResult, LeaseRole, ResultOutcome, ResultReason};
use moor::session::Request;
use moor::wire::{decode_controller, ControllerRequest, InputReceipt};

fn granted(token: u8) -> LeaseResult {
    LeaseResult { outcome: ResultOutcome::Granted, reason: ResultReason::NoReason, role: LeaseRole::InputOnly, epoch: 4, token: [token; 16] }
}

fn receipt(request: u64, written: u64) -> InputReceipt {
    InputReceipt { epoch: 4, request, generation: 2, incarnation: [8; 16], written, status: 0, result: 0 }
}

#[test]
fn a_granted_lease_delivers_input_request_by_request() {
    let mut lease = InputLease::from_result(granted(1), LeaseRole::InputOnly).unwrap().unwrap();
    assert_eq!(lease.next, Some(1));
    assert!(!lease.pending());
    assert_eq!(lease.request().unwrap(), None);
    lease.stage(b"hi".to_vec());
    let mut expected = 4u32.to_le_bytes().to_vec();
    expected.extend(1u64.to_le_bytes());
    expected.push(0);
    expected.extend(b"hi");
    assert_eq!(lease.request().unwrap(), Some(expected));
    assert_eq!(lease.receipt(&receipt(1, 1), 2, [8; 16]), Err(ClientError::NotDelivered));
    assert!(lease.pending());
    assert_eq!(lease.receipt(&receipt(1, 2), 2, [8; 16]), Ok(()));
    assert!(!lease.pending());
    assert_eq!(lease.next, Some(2));
    assert_eq!(lease.receipt(&receipt(2, 2), 2, [8; 16]), Err(ClientError::UnexpectedReceipt));
}

#[test]
fn a_lease_for_another_role_or_not_granted_is_not_taken() {
    assert_eq!(InputLease::from_result(granted(1), LeaseRole::Viewer).unwrap_err(), ClientError::UnexpectedRole);
    let refused = LeaseResult { outcome: ResultOutcome::Refused, reason: ResultReason::Busy, ..granted(0) };
    assert!(InputLease::from_result(refused, LeaseRole::InputOnly).unwrap().is_none());
}

#[test]
fn resuming_adopts_the_new_token_or_says_whether_to_retry() {
    let mut lease = InputLease::from_result(granted(1), LeaseRole::InputOnly).unwrap().unwrap();
    let request = lease.resume_request([9; 16]);
    assert_eq!(request.operation, LeaseOperation::Resume);
    assert_eq!((request.epoch, request.token, request.incarnation), (4, [1; 16], [9; 16]));
    let busy = LeaseResult { outcome: ResultOutcome::Refused, reason: ResultReason::Busy, ..granted(0) };
    assert_eq!(lease.resumed(&busy), ResumeStep::Retry);
    let bad = LeaseResult { outcome: ResultOutcome::Refused, reason: ResultReason::BadToken, ..granted(0) };
    assert_eq!(lease.resumed(&bad), ResumeStep::GiveUp);
    let resumed = LeaseResult { outcome: ResultOutcome::Resumed, ..granted(5) };
    assert_eq!(lease.resumed(&resumed), ResumeStep::Resumed);
    assert_eq!(lease.token, [5; 16]);
}

#[test]
fn a_reconnection_must_reach_the_same_session() {
    assert_eq!(same_session(2, [1; 16], b"s", 2, [1; 16], b"s"), Ok(()));
    assert_eq!(same_session(2, [1; 16], b"s", 3, [1; 16], b"s"), Err(ClientError::SessionChanged));
    assert_eq!(same_session(2, [1; 16], b"s", 2, [2; 16], b"s"), Err(ClientError::SessionChanged));
    assert_eq!(same_session(2, [1; 16], b"s", 2, [1; 16], b"t"), Err(ClientError::SessionChanged));
}

fn clear_answer(outcome: u8, reason: u8, epoch: u32, prior: u64) -> Vec<u8> {
    let mut out = vec![outcome, reason, 0, 0];
    out.extend(epoch.to_le_bytes());
    out.extend(prior.to_le_bytes());
    out.extend(0u64.to_le_bytes());
    out.extend(0u64.to_le_bytes());
    out
}

#[test]
fn log_clear_answers_are_checked_against_the_observed_index() {
    assert_eq!(decode_clear_result(&clear_answer(0, 0, 3, 7), 7), Ok(()));
    assert_eq!(decode_clear_result(&clear_answer(1, 0, 0, 7), 7), Ok(()));
    assert_eq!(decode_clear_result(&clear_answer(0, 0, 3, 7), 8), Err(ClientError::ClearMismatch));
    assert_eq!(decode_clear_result(&clear_answer(2, 1, 0, 7), 7), Err(ClientError::LogChanged));
    assert_eq!(decode_clear_result(&clear_answer(2, 2, 0, 7), 7), Err(ClientError::LogUnavailable));
    assert_eq!(decode_clear_result(&clear_answer(2, 3, 0, 7), 7), Err(ClientError::LogCorrupt));
    assert_eq!(decode_clear_result(&clear_answer(0, 0, 0, 7), 7), Err(ClientError::InvalidClearResult));
    assert_eq!(decode_clear_result(&clear_answer(0, 0, 3, 7)[..31], 7), Err(ClientError::InvalidClearResult));
    assert_eq!(ClientError::LogCorrupt.message(), "log store is corrupt");
}

#[test]
fn policies_decide_each_command_by_session_state() {
    assert_eq!(decide(SessionState::Live, attach_policy()), Ok(Decision::Proceed));
    assert_eq!(decide(SessionState::Missing, attach_policy()), Err(SessionProblem::DoesNotExist));
    assert_eq!(decide(SessionState::Exited, attach_policy()), Err(SessionProblem::NotRunning));
    assert_eq!(decide(SessionState::Stale, clear_policy()), Ok(Decision::Offline));
    assert_eq!(decide(SessionState::Live, remove_policy()), Err(SessionProblem::IsRunning));
    assert_eq!(decide(SessionState::Exited, remove_policy()), Ok(Decision::Cleanup));
    assert_eq!(decide(SessionState::Missing, create_policy(Decision::Attach)), Ok(Decision::Proceed));
    assert_eq!(decide(SessionState::Attached, create_policy(Decision::Already)), Err(SessionProblem::AlreadyRunning));
    assert_eq!(decide(SessionState::Indeterminate, create_policy(Decision::Attach)), Err(SessionProblem::Unidentified));
    assert_eq!(SessionProblem::Unidentified.phrase(), "could not be identified");
}

#[test]
fn probing_a_session_reads_path_record_and_contact() {
    assert_eq!(probe_state(PathSeen::Absent, true, false, Contact::Unclear), SessionState::Exited);
    assert_eq!(probe_state(PathSeen::Absent, false, false, Contact::Unclear), SessionState::Missing);
    assert_eq!(probe_state(PathSeen::Unreadable, false, true, Contact::Holder(true)), SessionState::Indeterminate);
    assert_eq!(probe_state(PathSeen::Present, false, true, Contact::Holder(true)), SessionState::Attached);
    assert_eq!(probe_state(PathSeen::Present, false, true, Contact::Holder(false)), SessionState::Live);
    assert_eq!(probe_state(PathSeen::Present, false, true, Contact::Refused), SessionState::Stale);
    assert_eq!(probe_state(PathSeen::Present, false, false, Contact::Refused), SessionState::Indeterminate);
}

#[test]
fn listing_marks_states_and_hides_exited_sessions_unless_all() {
    assert!(listed(SessionState::Live, false));
    assert!(!listed(SessionState::Exited, false));
    assert!(listed(SessionState::Exited, true));
    assert!(!listed(SessionState::Missing, true));
    assert_eq!(state_mark(SessionState::Stale), " [stale]");
    assert_eq!(state_mark(SessionState::Live), "");
    assert_eq!(removal(SessionState::Live), Removal::SkipRunning);
}

#[test]
fn an_attach_request_is_read_back_by_the_holder() {
    let request = attach_request(24, 80, true, false);
    assert_eq!(request, vec![80, 0, 24, 0, 1]);
    match decode_controller(3, &request, Some([7; 16])).unwrap() {
        ControllerRequest::Policy(Request::Attach(columns, rows, lease, non_vt, token)) => {
            assert_eq!((columns, rows, lease, non_vt, token), (80, 24, true, false, Some([7; 16])));
        }
        other => panic!("unexpected {:?}", other),
    }
    assert_eq!(attach_request(1, 2, false, true), vec![2, 0, 1, 0, 2]);
}

#[test]
fn each_create_mode_has_its_live_decision_attachment_and_verb() {
    assert_eq!(create_plan(CreateMode::Bare), (Decision::Attach, true, Some("created")));
    assert_eq!(create_plan(CreateMode::New), (Decision::Already, true, Some("created")));
    assert_eq!(create_plan(CreateMode::Start), (Decision::Already, false, Some("started")));
    assert_eq!(create_plan(CreateMode::Run), (Decision::Already, false, None));
    assert!(create_ends(CreateMode::Run, 0));
    assert!(create_ends(CreateMode::Bare, 3));
    assert!(!create_ends(CreateMode::Start, 0));
}
