use moor::cli::{Redraw, Reset};
use moor::session::{LeaseResult, LeaseRole, ResultOutcome, ResultReason};
use moor::viewer::{ViewerFailure, ViewerOut, ViewerPhase, ViewerState};
use moor::wire::viewer::ViewerEvent;
use moor::wire::InputReceipt;

fn granted() -> LeaseResult {
    LeaseResult { outcome: ResultOutcome::Granted, reason: ResultReason::NoReason, role: LeaseRole::Viewer, epoch: 3, token: [1; 16] }
}

fn input_frame(epoch: u32, request: u64, bytes: &[u8]) -> Vec<u8> {
    let mut out = epoch.to_le_bytes().to_vec();
    out.extend(request.to_le_bytes());
    out.push(0);
    out.extend(bytes);
    out
}

fn control_frame() -> Vec<u8> {
    let mut out = 3u32.to_le_bytes().to_vec();
    out.extend([1u8; 16]);
    out
}

fn sent(out: &[ViewerOut]) -> Vec<(u8, Vec<u8>)> {
    out.iter()
        .filter_map(|o| match o {
            ViewerOut::Send(kind, bytes) => Some((*kind, bytes.clone())),
            _ => None,
        })
        .collect()
}

fn started(redraw: Redraw) -> (ViewerState, Vec<ViewerOut>) {
    let mut viewer = ViewerState::new(redraw, Reset::Move, (24, 80), 2, [9; 16]);
    let mut out = Vec::new();
    assert_eq!(viewer.accept(0x15, Some(ViewerEvent::Lease(granted())), &mut out), Ok(false));
    (viewer, out)
}

#[test]
fn a_granted_lease_starts_the_keyboard_and_redraws_with_control_l() {
    let (viewer, out) = started(Redraw::CtrlL);
    assert!(matches!(out[0], ViewerOut::Start));
    assert_eq!(sent(&out), vec![(9, input_frame(3, 1, b"\x0c"))]);
    assert_eq!(viewer.phase, ViewerPhase::Attached);
    assert!(viewer.lease.as_ref().unwrap().pending());
}

#[test]
fn a_winch_redraw_resizes_the_child() {
    let (_, out) = started(Redraw::Winch);
    let mut resize = 3u32.to_le_bytes().to_vec();
    resize.extend(80u16.to_le_bytes());
    resize.extend(24u16.to_le_bytes());
    assert_eq!(sent(&out), vec![(0x0b, resize)]);
}

#[test]
fn terminal_state_is_written_then_the_cursor_homed_when_moving() {
    let (mut viewer, _) = started(Redraw::NoRedraw);
    let mut out = Vec::new();
    assert_eq!(viewer.accept(5, Some(ViewerEvent::Terminal(b"\x1b[?25h")), &mut out), Ok(false));
    match (&out[0], &out[1]) {
        (ViewerOut::Write(a), ViewerOut::Write(b)) => {
            assert_eq!(a, &b"\x1b[?25h".to_vec());
            assert_eq!(b, &b"\x1b[H".to_vec());
        }
        other => panic!("unexpected {:?}", other),
    }
}

#[test]
fn output_is_written_when_it_applies_and_always_acknowledged() {
    let (mut viewer, _) = started(Redraw::NoRedraw);
    let mut out = Vec::new();
    viewer.accept(6, Some(ViewerEvent::Output(4, false, b"old")), &mut out).unwrap();
    assert_eq!(out.len(), 1);
    assert_eq!(sent(&out), vec![(7, 4u64.to_le_bytes().to_vec())]);
    let mut out = Vec::new();
    viewer.accept(6, Some(ViewerEvent::Output(5, true, b"new")), &mut out).unwrap();
    assert!(matches!(&out[0], ViewerOut::Write(b) if b == b"new"));
}

#[test]
fn a_receipt_completes_the_input_and_a_release_then_asks_for_the_lease_back() {
    let (mut viewer, _) = started(Redraw::CtrlL);
    let receipt = InputReceipt { epoch: 3, request: 1, generation: 2, incarnation: [9; 16], written: 1, status: 0, result: 0 };
    let mut out = Vec::new();
    assert_eq!(viewer.accept(0x0a, Some(ViewerEvent::Receipt(receipt)), &mut out), Ok(false));
    assert!(out.is_empty());
    assert!(!viewer.lease.as_ref().unwrap().pending());
    let mut out = Vec::new();
    assert_eq!(viewer.release(Vec::new(), &mut out), Ok(false));
    assert_eq!(sent(&out), vec![(0x17, control_frame())]);
    let released = LeaseResult { outcome: ResultOutcome::Released, ..granted() };
    let mut out = Vec::new();
    assert_eq!(viewer.accept(0x15, Some(ViewerEvent::Lease(released)), &mut out), Ok(true));
    assert!(matches!(out[0], ViewerOut::Released(true)));
    assert!(viewer.lease.is_none());
}

#[test]
fn a_receipt_for_other_input_is_refused() {
    let (mut viewer, _) = started(Redraw::CtrlL);
    let receipt = InputReceipt { epoch: 3, request: 2, generation: 2, incarnation: [9; 16], written: 1, status: 0, result: 0 };
    let mut out = Vec::new();
    assert!(matches!(viewer.accept(0x0a, Some(ViewerEvent::Receipt(receipt)), &mut out), Err(ViewerFailure::Client(_))));
}

#[test]
fn an_unasked_lease_result_and_a_viewer_without_lease_are_handled() {
    let (mut viewer, _) = started(Redraw::NoRedraw);
    let mut out = Vec::new();
    assert_eq!(viewer.accept(0x15, Some(ViewerEvent::Lease(granted())), &mut out), Err(ViewerFailure::UnexpectedLeaseResult));
    let mut bare = ViewerState::new(Redraw::NoRedraw, Reset::NoReset, (24, 80), 2, [9; 16]);
    assert_eq!(bare.release(Vec::new(), &mut out), Ok(true));
    assert_eq!(bare.input(b"x".to_vec(), &mut out), Err(ViewerFailure::LeaseLost));
}

#[test]
fn reattaching_resizes_and_replays_pending_input() {
    let (mut viewer, _) = started(Redraw::Winch);
    let mut out = Vec::new();
    viewer.input(b"ab".to_vec(), &mut out).unwrap();
    viewer.phase = ViewerPhase::Reattaching;
    let mut out = Vec::new();
    viewer.accept(4, None, &mut out).unwrap();
    let mut resize = 3u32.to_le_bytes().to_vec();
    resize.extend(80u16.to_le_bytes());
    resize.extend(24u16.to_le_bytes());
    assert_eq!(sent(&out), vec![(0x0b, resize), (9, input_frame(3, 1, b"ab"))]);
    assert_eq!(viewer.phase, ViewerPhase::Attached);
}

#[test]
fn keepalive_names_the_held_lease() {
    let (viewer, _) = started(Redraw::NoRedraw);
    let mut out = Vec::new();
    viewer.keepalive(&mut out).unwrap();
    assert_eq!(sent(&out), vec![(0x18, control_frame())]);
}
