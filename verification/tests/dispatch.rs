use moor::dispatch::{apply_effect, descriptor_step, semantic_unsubmitted, sources_unsubmitted, DescriptorStep, HolderAction, SnapshotKind};
use moor::session::{Completion, Effect, SemanticRefusal, Ticket, Transition};
use moor::terminal::Modes;

#[test]
fn an_attach_past_its_deadline_drops_the_connection() {
    let steps = apply_effect(Effect::Attached(4, false, None, Some((24, 80))), 10, 10, &Modes::reset(), 0);
    assert!(matches!(steps[..], [HolderAction::Disconnect(4)]));
}

#[test]
fn an_attach_in_time_sends_the_state_resizes_and_sends_the_status() {
    let steps = apply_effect(Effect::Attached(4, true, None, Some((24, 80))), 5, 10, &Modes::reset(), 0);
    assert_eq!(steps.len(), 3);
    match &steps[0] {
        HolderAction::Frame(4, 5, payload) => assert_eq!(payload, &vec![0, 0]),
        other => panic!("unexpected {:?}", other),
    }
    assert!(matches!(steps[1], HolderAction::ResizeChild(24, 80)));
    assert!(matches!(steps[2], HolderAction::AttachStatus(4, None)));
}

#[test]
fn a_gap_notice_names_the_last_lost_sequence() {
    let steps = apply_effect(Effect::Gap(2, 9), 0, 0, &Modes::reset(), 0);
    match &steps[..] {
        [HolderAction::Frame(2, 8, payload)] => {
            let mut expected = 1u64.to_le_bytes().to_vec();
            expected.extend(9u64.to_le_bytes());
            assert_eq!(payload, &expected);
        }
        other => panic!("unexpected {:?}", other),
    }
}

#[test]
fn no_source_changes_submit_nothing() {
    let ticket = Ticket::from_raw(3).unwrap();
    assert!(apply_effect(Effect::CommitSources(ticket, Vec::new(), true), 0, 0, &Modes::reset(), 0).is_empty());
}

#[test]
fn background_output_is_logged_then_broadcast() {
    let record = moor::session::OutputRecord { sequence: 1, offset: 0, bytes: b"hi".to_vec() };
    let steps = apply_effect(Effect::Output(None, record), 0, 0, &Modes::reset(), 2);
    match &steps[..] {
        [HolderAction::StoreOutput(bytes, 2), HolderAction::Broadcast(6, payload, true)] => {
            assert_eq!(bytes, b"hi");
            assert_eq!(payload.len(), 18);
        }
        other => panic!("unexpected {:?}", other),
    }
}

#[test]
fn a_failed_mandatory_submission_stops_writes_and_a_rejectable_one_only_refuses() {
    let ticket = Ticket::from_raw(3).unwrap();
    let mandatory = sources_unsubmitted(8, ticket, true);
    assert!(matches!(
        mandatory[..],
        [Transition::Writable(false), Transition::Complete(8, _, Completion::Sources(false))]
    ));
    let rejectable = sources_unsubmitted(8, ticket, false);
    assert!(matches!(rejectable[..], [Transition::Complete(8, _, Completion::Sources(false))]));
}

#[test]
fn an_event_that_could_not_be_stored_is_refused_for_its_reason() {
    let ticket = Ticket::from_raw(3).unwrap();
    assert!(matches!(
        semantic_unsubmitted(1, ticket, false),
        Transition::Complete(1, _, Completion::Semantic(Err(SemanticRefusal::InvalidPayload)))
    ));
    assert!(matches!(
        semantic_unsubmitted(1, ticket, true),
        Transition::Complete(1, _, Completion::Semantic(Err(SemanticRefusal::ResourceExhausted)))
    ));
}

#[test]
fn the_front_descriptor_waits_while_storage_is_busy() {
    assert_eq!(descriptor_step(false, 10, 0, SnapshotKind::Ready), DescriptorStep::Forget);
    assert_eq!(descriptor_step(true, 10, 10, SnapshotKind::Ready), DescriptorStep::Expired);
    assert_eq!(descriptor_step(true, 10, 5, SnapshotKind::Busy), DescriptorStep::Wait);
    assert_eq!(descriptor_step(true, 10, 5, SnapshotKind::Failed), DescriptorStep::Exhausted);
    assert_eq!(descriptor_step(true, 10, 5, SnapshotKind::Ready), DescriptorStep::Serve);
}
