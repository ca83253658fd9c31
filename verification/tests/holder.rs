use moor::holder::{
    admits_connection, clear_unsubmitted, connection_limit_refusal, controller_admits, deadline_refusal,
    foreign_clear, gap_payload, heartbeat_due, heartbeat_flags, output_credit, output_payload, over_budget, preface,
    route, status_health, wants_token, wire_refusal, Preface, Routing, REASSEMBLY_BUDGET,
};
use moor::session::machine::OutputRecord;
use moor::storage::StorageError;
use moor::wire::{Profile, WireError};

#[test]
fn protocol_errors_map_to_their_refusal_codes() {
    let r = wire_refusal(WireError::BadSequence);
    assert_eq!((r.controller, r.semantic, r.diagnostic), (6, 7, "frame sequence was not the expected successor"));
    let r = wire_refusal(WireError::OversizedMessage);
    assert_eq!((r.controller, r.semantic), (4, 3));
    let r = deadline_refusal();
    assert_eq!((r.controller, r.semantic, r.diagnostic), (12, 13, "identity exchange deadline exceeded"));
    let r = connection_limit_refusal();
    assert_eq!((r.controller, r.semantic), (13, 12));
}

#[test]
fn connections_are_admitted_from_the_same_user_within_the_handshake_limit() {
    assert!(admits_connection(true, 15, 3));
    assert!(!admits_connection(true, 16, 3));
    assert!(!admits_connection(false, 0, 3));
    assert!(!admits_connection(true, 0, u64::MAX));
}

#[test]
fn the_preface_names_the_protocol() {
    assert_eq!(preface(b"MOO"), Preface::Wait);
    assert_eq!(preface(b"MOORxx"), Preface::Open(Profile::Controller));
    assert_eq!(preface(b"MOOS"), Preface::Open(Profile::Semantic));
    assert_eq!(preface(b"HTTP"), Preface::Close);
}

#[test]
fn reassembly_may_not_pass_its_budget() {
    assert!(!over_budget(100, 10, Some(20)));
    assert!(over_budget(100, 10, None));
    assert!(over_budget(REASSEMBLY_BUDGET, 0, Some(1)));
    assert!(!over_budget(REASSEMBLY_BUDGET, 1, Some(1)));
    assert!(over_budget(5, 6, Some(0)));
}

#[test]
fn messages_are_routed_by_deadline_scope_and_protocol() {
    assert!(matches!(route(10, 10, Profile::Controller, 0, 0, false, 3, 1, 0), Routing::Expired));
    assert!(matches!(route(10, 0, Profile::Controller, 0, 0, false, 3, 1, 3), Routing::Controller));
    assert!(matches!(route(10, 0, Profile::Semantic, 4, 0, true, 3, 9, 4), Routing::Semantic));
    match route(10, 0, Profile::Semantic, 4, 7, true, 3, 9, 5) {
        Routing::Refused(r) => assert_eq!((r.controller, r.semantic, r.diagnostic), (5, 3, "semantic frame preceded hello")),
        _ => panic!("not refused"),
    }
    match route(10, 0, Profile::Controller, 3, 0, true, 3, 2, 4) {
        Routing::Refused(r) => assert_eq!((r.controller, r.semantic), (9, 5)),
        _ => panic!("not refused"),
    }
}

#[test]
fn controller_messages_wait_for_descriptors_and_their_phase() {
    assert_eq!(controller_admits(false, 1, false), Ok(()));
    assert_eq!(controller_admits(false, 4, true), Ok(()));
    assert_eq!(controller_admits(false, 4, false), Err(WireError::Malformed));
    assert_eq!(controller_admits(true, 1, true), Err(WireError::Malformed));
    assert!(wants_token(3) && wants_token(0x15) && !wants_token(4));
}

#[test]
fn heartbeat_and_status_flags_pack_the_lane_health() {
    assert_eq!(heartbeat_flags(true, 0b111, true), 0b11111);
    assert_eq!(heartbeat_flags(false, 0b001, false), 0b00100);
    assert_eq!(heartbeat_flags(true, 0b010, false), 0b00011);
    assert_eq!(status_health(0b101, true, true), 0b1111);
    assert_eq!(status_health(0b010, false, false), 0);
    assert!(heartbeat_due(1, 2, 0, 0));
    assert!(!heartbeat_due(1, 1, 4999, 0));
    assert!(heartbeat_due(1, 1, 5000, 0));
    assert!(!heartbeat_due(1, 1, u64::MAX - 1, u64::MAX - 10));
}

#[test]
fn output_frames_lead_with_sequence_and_offset() {
    let payload = output_payload(&OutputRecord { sequence: 2, offset: 9, bytes: b"xy".to_vec() });
    let mut expected = 2u64.to_le_bytes().to_vec();
    expected.extend(9u64.to_le_bytes());
    expected.extend(b"xy");
    assert_eq!(payload, expected);
    let mut gap = 1u64.to_le_bytes().to_vec();
    gap.extend(40u64.to_le_bytes());
    assert_eq!(gap_payload(40), gap);
    assert_eq!(output_credit(true, 6, 20), 4);
    assert_eq!(output_credit(true, 5, 20), 0);
    assert_eq!(output_credit(false, 6, 20), 0);
    assert_eq!(output_credit(true, 6, 10), 0);
}

#[test]
fn unsubmitted_and_foreign_clears_are_answered() {
    assert_eq!(clear_unsubmitted(StorageError::Disabled), (1, 0, None));
    assert_eq!(clear_unsubmitted(StorageError::Busy), (2, 2, None));
    assert_eq!(foreign_clear(), (2, 1, None));
}

#[test]
fn an_overdue_connection_is_refused_for_the_deadline_it_missed() {
    let reassembly = moor::holder::expiry_refusal(0, 0, 50);
    assert_eq!((reassembly.controller, reassembly.semantic), (8, 13));
    let identity = moor::holder::expiry_refusal(3, 40, 50);
    assert_eq!((identity.controller, identity.semantic), (12, 13));
    assert_eq!(identity.diagnostic, "identity exchange deadline exceeded");
}
