use moor::session::{
    ConnId, Effect, LeaseOperation, LeaseRequest, LeaseRole, Machine, Reply, Request, Transition,
};
use moor::wire::QueryShape;

fn query_shape() -> QueryShape {
    QueryShape {
        class: 1,
        csi8: false,
        mode: None,
    }
}

fn attached_viewer(next: u64) -> Machine {
    let mut machine = Machine::new(7, [1; 16], [2; 16]);
    machine.set_query_next(next);
    machine.register_controller(7);
    machine
        .transition(Transition::Peer(
            0,
            7,
            Request::Attach(0, 0, true, false, Some([3; 16])),
        ))
        .unwrap();
    machine
}

fn resume_viewer(machine: &mut Machine, conn: ConnId) {
    machine.transition(Transition::Disconnect(7)).unwrap();
    machine.register_controller(conn);
    machine
        .transition(Transition::Peer(
            3,
            conn,
            Request::Lease(
                LeaseRequest {
                    operation: LeaseOperation::Resume,
                    role: LeaseRole::Viewer,
                    epoch: 1,
                    incarnation: [1; 16],
                    token: [3; 16],
                },
                Some([4; 16]),
            ),
        ))
        .unwrap();
    machine
        .transition(Transition::Peer(
            4,
            conn,
            Request::Attach(0, 0, false, false, None),
        ))
        .unwrap();
}

#[test]
fn correlation_exhaustion_reports_once_then_cancels_in_output_order() {
    let mut machine = attached_viewer(u64::MAX);
    let first = machine
        .transition(Transition::Query(
            1,
            b"\x1b[c".to_vec(),
            query_shape(),
            Some(b"old".to_vec()),
        ))
        .unwrap();
    assert!(matches!(
        first.as_slice(),
        [Effect::QuerySend(7, query)] if query.correlation == u64::MAX
    ));

    let exhausted = machine
        .transition(Transition::Query(
            2,
            b"\x1b[c".to_vec(),
            query_shape(),
            Some(b"new".to_vec()),
        ))
        .unwrap();
    assert!(matches!(
        exhausted.as_slice(),
        [
            Effect::Send(7, Reply::ControllerError(13, _)),
            Effect::Close(7),
            Effect::Write(old, old_bytes),
            Effect::Write(new, new_bytes),
        ] if old.get() == 0 && new.get() == 0 && old_bytes == b"old" && new_bytes == b"new"
    ));
    assert!(!machine.status(7).query_available);

    resume_viewer(&mut machine, 8);
    let later = machine
        .transition(Transition::Query(
            5,
            b"\x1b[c".to_vec(),
            query_shape(),
            Some(b"later".to_vec()),
        ))
        .unwrap();
    assert!(matches!(
        later.as_slice(),
        [Effect::Write(ticket, bytes)] if ticket.get() == 0 && bytes == b"later"
    ));
}

#[test]
fn outstanding_limit_wins_when_the_correlation_space_ends_at_the_same_boundary() {
    let mut machine = attached_viewer(u64::MAX - 63);
    for index in 0_u8..64 {
        let effects = machine
            .transition(Transition::Query(
                u64::from(index),
                b"\x1b[c".to_vec(),
                query_shape(),
                Some(vec![index]),
            ))
            .unwrap();
        assert!(matches!(effects.as_slice(), [Effect::QuerySend(7, _)]));
    }

    let overloaded = machine
        .transition(Transition::Query(
            64,
            b"\x1b[c".to_vec(),
            query_shape(),
            Some(vec![64]),
        ))
        .unwrap();
    assert!(matches!(overloaded.first(), Some(Effect::Close(7))));
    assert_eq!(overloaded.len(), 66);
    assert!(
        !overloaded
            .iter()
            .any(|effect| matches!(effect, Effect::Send(_, Reply::ControllerError(..))))
    );
    for (index, effect) in overloaded[1..].iter().enumerate() {
        assert!(matches!(effect, Effect::Write(ticket, bytes)
            if ticket.get() == 0 && bytes.as_slice() == [index as u8]));
    }

    resume_viewer(&mut machine, 8);
    let exhausted = machine
        .transition(Transition::Query(
            65,
            b"\x1b[c".to_vec(),
            query_shape(),
            Some(b"final".to_vec()),
        ))
        .unwrap();
    assert!(matches!(
        exhausted.as_slice(),
        [
            Effect::Send(8, Reply::ControllerError(13, _)),
            Effect::Close(8),
            Effect::Write(ticket, bytes),
        ] if ticket.get() == 0 && bytes == b"final"
    ));
}

#[test]
fn an_acknowledgement_past_the_last_output_is_out_of_sequence() {
    let mut machine = attached_viewer(1);
    assert!(machine.transition(Transition::Peer(1, 7, Request::OutputAck(0))).unwrap().is_empty());
    assert!(machine.transition(Transition::Peer(1, 7, Request::OutputAck(5))).is_err());
}

#[test]
fn a_termination_for_another_session_is_answered_and_ignored() {
    let mut machine = attached_viewer(1);
    let effects = machine
        .transition(Transition::Peer(1, 7, Request::Terminate(b"other".to_vec(), 7, [1; 16], false)))
        .unwrap();
    assert_eq!(effects.len(), 1);
    match &effects[0] {
        Effect::Send(7, Reply::Termination(2, 0, 0, text)) => assert_eq!(*text, "session identity did not match"),
        other => panic!("unexpected {:?}", other),
    }
}

#[test]
fn a_held_lease_resizes_the_child_and_others_are_refused() {
    let mut machine = attached_viewer(1);
    let effects = machine.transition(Transition::Peer(1, 7, Request::Resize(1, 80, 24))).unwrap();
    assert!(matches!(effects[..], [Effect::Resize(24, 80)]));
    assert!(machine.transition(Transition::Peer(1, 7, Request::Resize(2, 80, 24))).is_err());
    let effects = machine.transition(Transition::Peer(1, 7, Request::Resize(1, 80, 0))).unwrap();
    assert!(matches!(effects[..], [Effect::Send(7, Reply::ControllerError(14, _)), Effect::Close(7)]));
}

#[test]
fn a_keepalive_with_the_wrong_token_closes_and_a_lapsed_lease_cannot_be_touched() {
    let mut machine = attached_viewer(1);
    assert!(machine.transition(Transition::Peer(1, 7, Request::Touch(1))).unwrap().is_empty());
    let effects = machine.transition(Transition::Peer(2, 7, Request::Keepalive(1, [9; 16]))).unwrap();
    let n = effects.len();
    assert!(matches!(effects[n - 2..], [Effect::Send(7, Reply::ControllerError(15, _)), Effect::Close(7)]));
    assert!(machine.transition(Transition::Peer(1_000_000, 7, Request::Touch(1))).is_err());
}

#[test]
fn a_release_frees_the_held_lease_and_refuses_any_other() {
    let mut machine = attached_viewer(1);
    let effects = machine.transition(Transition::Peer(1, 7, Request::Release(1, [9; 16]))).unwrap();
    match effects.last() {
        Some(Effect::Send(7, Reply::Lease(result))) => {
            assert_eq!(result.outcome, moor::session::ResultOutcome::Refused);
            assert_eq!(result.reason, moor::session::ResultReason::NotHeld);
        }
        other => panic!("unexpected {:?}", other),
    }
    let effects = machine.transition(Transition::Peer(2, 7, Request::Release(1, [3; 16]))).unwrap();
    match effects.last() {
        Some(Effect::Send(7, Reply::Lease(result))) => {
            assert_eq!(result.outcome, moor::session::ResultOutcome::Released);
            assert_eq!(result.epoch, 1);
        }
        other => panic!("unexpected {:?}", other),
    }
}

#[test]
fn a_termination_of_this_session_terminates_the_child() {
    let mut machine = attached_viewer(1);
    let effects = machine
        .transition(Transition::Peer(1, 7, Request::Terminate(Vec::new(), 7, [1; 16], true)))
        .unwrap();
    assert!(effects.iter().any(|e| matches!(e, Effect::Terminate(true))));
}

#[test]
fn a_producer_hello_with_a_stale_token_is_refused() {
    let mut machine = Machine::new(7, [1; 16], [2; 16]);
    let hello = moor::session::SemanticHello {
        token: [9; 16],
        producer: [5; 16],
        generation: 7,
        mode: moor::session::SemanticMode::Edge,
        capabilities: 0,
        source: b"s".to_vec(),
    };
    let effects = machine.transition(Transition::Peer(0, 11, Request::SemanticHello(hello))).unwrap();
    assert!(matches!(
        effects[..],
        [Effect::Send(11, Reply::SemanticRefused(None, moor::session::SemanticRefusal::StaleToken))]
    ));
}

#[test]
fn input_on_a_lease_not_held_is_refused_as_not_held() {
    let mut machine = attached_viewer(1);
    let mut payload = 2u32.to_le_bytes().to_vec();
    payload.extend(1u64.to_le_bytes());
    payload.push(0);
    payload.extend(b"ls");
    let request = match moor::wire::decode_controller(9, &payload, None).unwrap() {
        moor::wire::ControllerRequest::Policy(request) => request,
        other => panic!("unexpected {:?}", other),
    };
    let effects = machine.transition(Transition::Peer(1, 7, request)).unwrap();
    match effects.last() {
        Some(Effect::Send(7, Reply::Input(bytes))) => {
            let receipt = moor::wire::InputReceipt::decode(bytes).unwrap();
            assert_eq!((receipt.epoch, receipt.request, receipt.written), (2, 1, 0));
            assert_eq!((receipt.status, receipt.result), (1, 15));
        }
        other => panic!("unexpected {:?}", other),
    }
}

fn lease_input(epoch: u32, request: u64, text: &[u8]) -> Request {
    let mut payload = epoch.to_le_bytes().to_vec();
    payload.extend(request.to_le_bytes());
    payload.push(0);
    payload.extend(text);
    match moor::wire::decode_controller(9, &payload, None).unwrap() {
        moor::wire::ControllerRequest::Policy(request) => request,
        other => panic!("unexpected {:?}", other),
    }
}

#[test]
fn an_attach_that_asks_for_the_lease_is_granted_and_resizes_the_child() {
    let mut machine = Machine::new(7, [1; 16], [2; 16]);
    machine.register_controller(7);
    let effects = machine
        .transition(Transition::Peer(0, 7, Request::Attach(80, 24, true, false, Some([3; 16]))))
        .unwrap();
    assert_eq!(effects.len(), 1);
    match &effects[0] {
        Effect::Attached(7, false, Some(result), Some((24, 80))) => {
            assert_eq!(result.outcome, moor::session::ResultOutcome::Granted);
            assert_eq!(result.reason, moor::session::ResultReason::NoReason);
            assert_eq!(result.role, LeaseRole::Viewer);
            assert_eq!(result.epoch, 1);
            assert_eq!(result.token, [3; 16]);
        }
        other => panic!("unexpected {:?}", other),
    }
    assert!(machine.attached(7));
    assert!(machine.status(7).owns_lease);
    assert_eq!(machine.status(7).lease_epoch, 1);
}

#[test]
fn an_edge_producer_is_acknowledged_at_once() {
    let mut machine = Machine::new(7, [1; 16], [2; 16]);
    let hello = moor::session::SemanticHello {
        token: [2; 16],
        producer: [5; 16],
        generation: 7,
        mode: moor::session::SemanticMode::Edge,
        capabilities: 1,
        source: b"src".to_vec(),
    };
    let effects = machine.transition(Transition::Peer(0, 9, Request::SemanticHello(hello))).unwrap();
    assert_eq!(effects.len(), 1);
    match &effects[0] {
        Effect::Send(9, Reply::SemanticHello(ack)) => {
            assert_eq!(ack.epoch, 1);
            assert!(!ack.snapshot_required);
        }
        other => panic!("unexpected {:?}", other),
    }
}

#[test]
fn a_producer_hello_for_another_generation_is_refused() {
    let mut machine = Machine::new(7, [1; 16], [2; 16]);
    let hello = moor::session::SemanticHello {
        token: [2; 16],
        producer: [5; 16],
        generation: 8,
        mode: moor::session::SemanticMode::Edge,
        capabilities: 1,
        source: b"src".to_vec(),
    };
    let effects = machine.transition(Transition::Peer(0, 9, Request::SemanticHello(hello))).unwrap();
    assert!(matches!(
        effects[..],
        [Effect::Send(9, Reply::SemanticRefused(None, moor::session::SemanticRefusal::Generation))]
    ));
}

#[test]
fn the_holders_next_input_is_written_and_others_are_out_of_sequence() {
    let mut machine = attached_viewer(1);
    let effects = machine.transition(Transition::Peer(1, 7, lease_input(1, 1, b"ls"))).unwrap();
    match &effects[..] {
        [Effect::Write(ticket, bytes)] => {
            assert_ne!(ticket.get(), 0);
            assert_eq!(bytes, b"ls");
        }
        other => panic!("unexpected {:?}", other),
    }
    assert!(machine.transition(Transition::Peer(2, 7, lease_input(1, 1, b"ls"))).unwrap().is_empty());
    let effects = machine.transition(Transition::Peer(3, 7, lease_input(1, 2, b"pwd"))).unwrap();
    match &effects[..] {
        [Effect::Send(7, Reply::Input(bytes))] => {
            let receipt = moor::wire::InputReceipt::decode(bytes).unwrap();
            assert_eq!((receipt.status, receipt.result, receipt.written), (1, 6, 0));
        }
        other => panic!("unexpected {:?}", other),
    }
}

#[test]
fn a_completion_under_an_unknown_ticket_changes_nothing() {
    let mut machine = attached_viewer(1);
    let before = machine.status(7);
    let ticket = moor::session::Ticket::from_raw(99).unwrap();
    let effects = machine
        .transition(Transition::Complete(1, ticket, moor::session::Completion::Write(2, None)))
        .unwrap();
    assert!(effects.is_empty());
    let after = machine.status(7);
    assert_eq!(before.owns_lease, after.owns_lease);
    assert_eq!(before.lease_epoch, after.lease_epoch);
}

#[test]
fn a_graceful_termination_is_forced_after_its_grace_and_reported_once() {
    let mut machine = attached_viewer(1);
    machine
        .transition(Transition::Peer(0, 7, Request::Terminate(Vec::new(), 7, [1; 16], false)))
        .unwrap();
    let effects = machine.transition(Transition::Tick(5_000)).unwrap();
    assert!(matches!(effects[..], [Effect::Terminate(true)]));
    assert_eq!(machine.termination_forced(), Some(true));
    let effects = machine.transition(Transition::Tick(10_000)).unwrap();
    assert!(effects.iter().any(|e| matches!(e, Effect::ReportTermination(7))));
    let effects = machine.transition(Transition::Tick(20_000)).unwrap();
    assert!(!effects.iter().any(|e| matches!(e, Effect::ReportTermination(_))));
}

#[test]
fn the_terminal_write_of_an_input_is_answered_with_its_receipt() {
    let mut machine = attached_viewer(1);
    let effects = machine.transition(Transition::Peer(1, 7, lease_input(1, 1, b"ls"))).unwrap();
    let ticket = match &effects[..] {
        [Effect::Write(ticket, _)] => *ticket,
        other => panic!("unexpected {:?}", other),
    };
    let effects = machine
        .transition(Transition::Complete(2, ticket, moor::session::Completion::Write(2, None)))
        .unwrap();
    match &effects[..] {
        [Effect::Send(7, Reply::Input(bytes))] => {
            let receipt = moor::wire::InputReceipt::decode(bytes).unwrap();
            assert_eq!((receipt.status, receipt.result, receipt.written, receipt.request), (0, 0, 2, 1));
        }
        other => panic!("unexpected {:?}", other),
    }
    let effects = machine.transition(Transition::Peer(3, 7, lease_input(1, 1, b"ls"))).unwrap();
    assert!(matches!(effects[..], [Effect::Send(7, Reply::Input(_))]));
}

#[test]
fn an_allocated_epoch_numbers_the_next_grant() {
    let mut machine = Machine::new(7, [1; 16], [2; 16]).allocated(5);
    machine.register_controller(7);
    assert_eq!(machine.status(7).lease_epoch, 5);
    let effects = machine
        .transition(Transition::Peer(0, 7, Request::Attach(0, 0, true, false, Some([3; 16]))))
        .unwrap();
    match &effects[..] {
        [Effect::Attached(7, false, Some(lease), None)] => {
            assert!(matches!(lease.outcome, moor::session::ResultOutcome::Granted));
            assert!(matches!(lease.role, LeaseRole::Viewer));
            assert_eq!((lease.epoch, lease.token), (6, [3; 16]));
        }
        other => panic!("unexpected {:?}", other),
    }
    let mut spent = Machine::new(7, [1; 16], [2; 16]).allocated(u32::MAX);
    spent.register_controller(7);
    let effects = spent
        .transition(Transition::Peer(0, 7, Request::Attach(0, 0, true, false, Some([3; 16]))))
        .unwrap();
    match &effects[..] {
        [Effect::Attached(7, false, Some(lease), None)] => {
            assert!(matches!(lease.outcome, moor::session::ResultOutcome::Refused));
            assert!(matches!(lease.reason, moor::session::ResultReason::Exhausted));
            assert_eq!((lease.epoch, lease.token), (u32::MAX, [0; 16]));
        }
        other => panic!("unexpected {:?}", other),
    }
}

#[test]
fn a_shutdown_is_forced_after_five_seconds() {
    let mut machine = Machine::new(7, [1; 16], [2; 16]);
    let effects = machine.transition(Transition::Shutdown(100, false)).unwrap();
    assert!(matches!(effects[..], [Effect::Terminate(false)]));
    assert_eq!(machine.termination_forced(), Some(false));
    assert!(machine.transition(Transition::Tick(5_099)).unwrap().is_empty());
    assert_eq!(machine.termination_forced(), Some(false));
    let effects = machine.transition(Transition::Tick(5_100)).unwrap();
    assert!(matches!(effects[..], [Effect::Terminate(true)]));
    assert_eq!(machine.termination_forced(), Some(true));
}

#[test]
fn a_requested_termination_is_forced_then_reported_once() {
    let mut machine = Machine::new(7, [1; 16], [2; 16]);
    machine.configure(b"id".to_vec(), 1024);
    machine.register_controller(3);
    let effects = machine
        .transition(Transition::Peer(100, 3, Request::Terminate(b"id".to_vec(), 7, [1; 16], false)))
        .unwrap();
    assert!(matches!(effects[..], [Effect::Terminate(false)]));
    let effects = machine.transition(Transition::Tick(10_099)).unwrap();
    assert!(matches!(effects[..], [Effect::Terminate(true)]));
    assert!(!machine.termination_expired());
    let effects = machine.transition(Transition::Tick(10_100)).unwrap();
    assert!(matches!(effects[..], [Effect::ReportTermination(3)]));
    assert!(machine.termination_expired());
    assert!(machine.transition(Transition::Tick(20_000)).unwrap().is_empty());
}

fn edge_producer(machine: &mut Machine, conn: ConnId) {
    let hello = moor::session::SemanticHello {
        token: [2; 16],
        producer: [5; 16],
        generation: 7,
        mode: moor::session::SemanticMode::Edge,
        capabilities: 1,
        source: b"src".to_vec(),
    };
    machine.transition(Transition::Peer(0, conn, Request::SemanticHello(hello))).unwrap();
}

#[test]
fn losing_writability_refuses_and_closes_every_producer() {
    let mut machine = Machine::new(7, [1; 16], [2; 16]);
    edge_producer(&mut machine, 9);
    let effects = machine.transition(Transition::Writable(false)).unwrap();
    assert!(matches!(
        effects[..],
        [
            Effect::Send(9, Reply::SemanticRefused(None, moor::session::SemanticRefusal::ResourceExhausted)),
            Effect::Close(9)
        ]
    ));
    assert!(machine.transition(Transition::Writable(true)).unwrap().is_empty());
}

#[test]
fn a_departed_holder_leaves_its_lease_to_be_resumed() {
    let mut machine = attached_viewer(1);
    assert!(machine.status(7).owns_lease);
    machine.transition(Transition::Disconnect(7)).unwrap();
    let status = machine.status(7);
    assert!(!status.owns_lease);
    assert_eq!(status.lease_epoch, 1);
    resume_viewer(&mut machine, 8);
    assert!(machine.status(8).owns_lease);
}
