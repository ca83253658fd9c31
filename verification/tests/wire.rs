use moor::lifecycle::status_prefix;
use moor::session::{LeaseOperation, LeaseRole, Reply, Request, SemanticEventKind, SemanticMode};
use moor::wire::requests::decode_controller;
use moor::wire::viewer::{decode_viewer, ViewerEvent, ViewerStream};
use moor::wire::{
    controller_hello, decode_semantic, encode_reply, error_payload, input_payload, put_compact,
    put_wide, Codec, ControllerRequest, InputReceipt, Message, Profile, ReplayDescriptor,
    RuntimeReply, StatusExtension, StatusTail, WireError,
};

fn le32(v: u32) -> Vec<u8> {
    v.to_le_bytes().to_vec()
}

fn le64(v: u64) -> Vec<u8> {
    v.to_le_bytes().to_vec()
}

#[test]
fn controller_hello_decodes_to_its_identity() {
    let hello = controller_hello(b"\x01/tmp/s").unwrap();
    match decode_controller(1, &hello, None).unwrap() {
        ControllerRequest::Hello(identity) => assert_eq!(identity, b"\x01/tmp/s".to_vec()),
        other => panic!("unexpected {:?}", other),
    }
}

#[test]
fn controller_hello_with_wrong_magic_is_malformed() {
    let mut hello = controller_hello(b"id").unwrap();
    hello[4] = 3;
    assert_eq!(decode_controller(1, &hello, None).unwrap_err(), WireError::Malformed);
}

#[test]
fn controller_hello_announcing_too_much_is_oversized() {
    let mut payload = b"MOOR\x04\0\0".to_vec();
    payload.extend_from_slice(&((1u32 << 20) + 1).to_le_bytes());
    assert_eq!(
        decode_controller(1, &payload, None).unwrap_err(),
        WireError::OversizedMessage
    );
}

#[test]
fn attach_reads_geometry_flags_and_token() {
    let payload = [80, 0, 24, 0, 3];
    match decode_controller(3, &payload, Some([9; 16])).unwrap() {
        ControllerRequest::Policy(Request::Attach(columns, rows, lease, non_vt, token)) => {
            assert_eq!((columns, rows, lease, non_vt), (80, 24, true, true));
            assert_eq!(token, Some([9; 16]));
        }
        other => panic!("unexpected {:?}", other),
    }
    assert_eq!(
        decode_controller(3, &[80, 0, 24, 0, 4], None).unwrap_err(),
        WireError::Malformed
    );
}

#[test]
fn plain_input_keeps_the_exact_payload() {
    let payload = input_payload(5, 9, b"ls\r");
    match decode_controller(9, &payload, None).unwrap() {
        ControllerRequest::Policy(Request::Input(input, application)) => {
            assert_eq!((input.epoch, input.request_id), (5, 9));
            assert_eq!(input.exact_payload, payload);
            assert!(application.is_none());
        }
        other => panic!("unexpected {:?}", other),
    }
}

#[test]
fn application_input_names_its_source_and_terminal_bytes() {
    let mut payload = le32(5);
    payload.extend(le64(9));
    payload.push(1);
    payload.extend([7u8; 16]);
    put_compact(&mut payload, b"agent-1").unwrap();
    payload.extend_from_slice(b"hi");
    match decode_controller(9, &payload, None).unwrap() {
        ControllerRequest::Policy(Request::Input(_, Some(app))) => {
            assert_eq!(app.receipt.application_id, [7; 16]);
            assert_eq!((app.source_start, app.source_end, app.terminal_at), (31, 38, 38));
            assert_eq!(&payload[app.source_start..app.source_end], b"agent-1");
        }
        other => panic!("unexpected {:?}", other),
    }
    let mut bad = payload.clone();
    bad[31] = b' ';
    assert_eq!(decode_controller(9, &bad, None).unwrap_err(), WireError::Malformed);
}

#[test]
fn status_needs_an_empty_payload_and_unknown_kinds_are_malformed() {
    assert!(matches!(decode_controller(13, &[], None), Ok(ControllerRequest::Status)));
    assert_eq!(decode_controller(13, &[0], None).unwrap_err(), WireError::Malformed);
    assert_eq!(decode_controller(2, &[], None).unwrap_err(), WireError::Malformed);
}

#[test]
fn release_and_keepalive_need_an_epoch_and_token() {
    let mut payload = le32(3);
    payload.extend([1u8; 16]);
    assert!(matches!(
        decode_controller(0x17, &payload, None),
        Ok(ControllerRequest::Policy(Request::Release(3, _)))
    ));
    assert!(matches!(
        decode_controller(0x18, &payload, None),
        Ok(ControllerRequest::Policy(Request::Keepalive(3, _)))
    ));
    let mut zero = le32(0);
    zero.extend([1u8; 16]);
    assert_eq!(decode_controller(0x17, &zero, None).unwrap_err(), WireError::Malformed);
}

#[test]
fn terminate_and_log_clear_decode() {
    let mut payload = Vec::new();
    put_wide(&mut payload, b"\x01/s").unwrap();
    payload.extend(le32(4));
    payload.extend([2u8; 16]);
    payload.push(1);
    match decode_controller(15, &payload, None).unwrap() {
        ControllerRequest::Policy(Request::Terminate(identity, generation, incarnation, force)) => {
            assert_eq!(identity, b"\x01/s".to_vec());
            assert_eq!((generation, incarnation, force), (4, [2; 16], true));
        }
        other => panic!("unexpected {:?}", other),
    }
    let mut clear = vec![5u8; 16];
    clear.extend(le64(77));
    match decode_controller(0x19, &clear, None) {
        Ok(ControllerRequest::LogClear(token, size)) => {
            assert_eq!((token, size), ([5u8; 16], 77));
        }
        other => panic!("unexpected {:?}", other),
    }
}

#[test]
fn lease_requests_decode_through_the_lease_layout() {
    let mut payload = vec![0u8, 0, 0, 0];
    payload.extend([0u8; 36]);
    match decode_controller(0x15, &payload, Some([6; 16])).unwrap() {
        ControllerRequest::Policy(Request::Lease(request, token)) => {
            assert_eq!(request.operation, LeaseOperation::Fresh);
            assert_eq!(request.role, LeaseRole::Viewer);
            assert_eq!(token, Some([6; 16]));
        }
        other => panic!("unexpected {:?}", other),
    }
}

#[test]
fn semantic_hello_comes_unscoped_only() {
    let mut payload = vec![1u8; 16];
    payload.extend([2u8; 16]);
    payload.extend(le32(8));
    payload.push(1);
    payload.push(3);
    put_compact(&mut payload, b"src").unwrap();
    match decode_semantic(0, 1, &payload, false).unwrap() {
        Request::SemanticHello(hello) => {
            assert_eq!((hello.generation, hello.mode, hello.capabilities), (8, SemanticMode::Stateful, 3));
            assert_eq!(hello.source, b"src".to_vec());
        }
        other => panic!("unexpected {:?}", other),
    }
    assert_eq!(decode_semantic(5, 1, &payload, false).unwrap_err(), WireError::Malformed);
}

#[test]
fn semantic_events_carry_their_payload_and_object_flag() {
    let mut payload = vec![4u8; 16];
    payload.extend(le64(2));
    payload.push(1);
    payload.extend_from_slice(b"{}");
    match decode_semantic(9, 3, &payload, true).unwrap() {
        Request::SemanticEvent(event, projection, object) => {
            assert_eq!((event.sequence, event.kind), (2, SemanticEventKind::Snapshot));
            assert_eq!(event.exact_payload, b"{}".to_vec());
            assert!(projection.is_none() && object);
        }
        other => panic!("unexpected {:?}", other),
    }
}

#[test]
fn receipt_events_project_provider_ranges() {
    let mut payload = vec![4u8; 16];
    payload.extend(le64(2));
    payload.extend([7u8; 16]);
    payload.extend(le32(3));
    payload.extend(le64(11));
    payload.push(0);
    put_compact(&mut payload, b"sess").unwrap();
    put_compact(&mut payload, b"turn-1").unwrap();
    match decode_semantic(9, 4, &payload, false).unwrap() {
        Request::SemanticEvent(event, Some(p), _) => {
            assert_eq!(event.kind, SemanticEventKind::ApplicationReceipt);
            assert_eq!(event.exact_payload, payload[24..].to_vec());
            assert_eq!(p.provider_session, (31, 35));
            assert_eq!(p.provider_turn, (37, 43));
            assert_eq!(&event.exact_payload[31..35], b"sess");
            assert_eq!(&event.exact_payload[37..43], b"turn-1");
            assert_eq!((p.receipt.lease_epoch, p.receipt.request_id), (3, 11));
        }
        other => panic!("unexpected {:?}", other),
    }
}

#[test]
fn notice_ack_and_heartbeat_decode() {
    let mut payload = vec![7u8; 16];
    payload.extend(le32(3));
    payload.extend(le64(11));
    payload.push(0);
    match decode_semantic(9, 6, &payload, false).unwrap() {
        Request::NoticeAck(ack) => assert!(ack.prepared),
        other => panic!("unexpected {:?}", other),
    }
    assert!(matches!(
        decode_semantic(9, 8, &[0; 8], false),
        Ok(Request::SemanticHeartbeat)
    ));
    assert_eq!(decode_semantic(9, 8, &[0; 9], false).unwrap_err(), WireError::Malformed);
}

#[test]
fn oversized_compact_fields_are_reported_as_such() {
    let mut payload = vec![1u8; 16];
    payload.extend([2u8; 16]);
    payload.extend(le32(8));
    payload.push(0);
    payload.push(0);
    payload.extend(4097u16.to_le_bytes());
    assert_eq!(
        decode_semantic(0, 1, &payload, false).unwrap_err(),
        WireError::OversizedMessage
    );
}

#[test]
fn replies_encode_as_frames() {
    match encode_reply(Reply::ControllerError(13, "limit"), [0; 16]) {
        RuntimeReply::Frame(kind, payload) => {
            assert_eq!(kind, 0x13);
            assert_eq!(payload, error_payload(13, b"limit"));
        }
        other => panic!("unexpected {:?}", other),
    }
    match encode_reply(Reply::Termination(2, 1, 0, "gone"), [0; 16]) {
        RuntimeReply::Frame(kind, payload) => {
            assert_eq!(kind, 16);
            assert_eq!(payload, b"\x02\x01\x00\x04\x00gone".to_vec());
        }
        other => panic!("unexpected {:?}", other),
    }
    match encode_reply(Reply::Input(vec![1, 2, 3]), [0; 16]) {
        RuntimeReply::Frame(kind, payload) => assert_eq!((kind, payload), (10, vec![1, 2, 3])),
        other => panic!("unexpected {:?}", other),
    }
}

fn tail(columns: u16, rows: u16) -> StatusTail {
    StatusTail {
        columns,
        rows,
        replay: ReplayDescriptor {
            first: 1,
            last: 2,
            start: 0,
            end: 10,
            complete: true,
            modes_exact: true,
        },
        owns_lease: true,
        viewers: false,
        running: true,
        event_writable: false,
        lease_epoch: 3,
        semantic_flags: 1,
        semantic_pending: 0,
        extension: StatusExtension {
            health: 0,
            log_epoch: 0,
            log_index: 0,
            retained_start: 0,
            retained_end: 0,
        },
    }
}

fn descriptor(identity: &[u8], generation: u32, incarnation: [u8; 16], status: &StatusTail) -> Vec<u8> {
    let (mut payload, _) =
        status_prefix(identity, generation, incarnation, 0, b"", None, (1, 2, [3; 16])).unwrap();
    put_wide(&mut payload, b"/home").unwrap();
    payload.extend(le32(100));
    payload.extend(le32(101));
    payload.extend([4u8; 16]);
    payload.extend(status.columns.to_le_bytes());
    payload.extend(status.rows.to_le_bytes());
    payload.extend(status.encode().unwrap());
    payload
}

#[test]
fn status_descriptor_reads_back_what_was_written() {
    let written = tail(80, 24);
    let payload = descriptor(b"\x01/tmp/s", 4, [9; 16], &written);
    let read = StatusTail::decode_for(&payload, b"\x01/tmp/s", 4, [9; 16]).unwrap();
    assert_eq!(read, written);
}

#[test]
fn status_descriptor_from_another_holder_is_malformed() {
    let payload = descriptor(b"\x01/tmp/s", 4, [9; 16], &tail(80, 24));
    assert_eq!(
        StatusTail::decode_for(&payload, b"\x01/tmp/s", 5, [9; 16]).unwrap_err(),
        WireError::Malformed
    );
    assert_eq!(
        StatusTail::decode_for(&payload, b"\x01/tmp/t", 4, [9; 16]).unwrap_err(),
        WireError::Malformed
    );
}

fn stream() -> ViewerStream {
    ViewerStream {
        lease_epoch: Some(3),
        ..ViewerStream::default()
    }
}

fn message(kind: u8, payload: Vec<u8>) -> Message {
    Message {
        scope: 4,
        kind,
        payload,
    }
}

#[test]
fn viewer_takes_status_then_terminal_state_then_output() {
    let mut viewer = stream();
    let identity = b"\x01/tmp/s";
    let expected = (&identity[..], 4u32, [9u8; 16]);
    let status = message(4, descriptor(identity, 4, [9; 16], &tail(80, 24)));
    assert!(decode_viewer(&mut viewer, &status, expected).unwrap().is_none());
    assert_eq!(viewer.next, Some((1, 0)));
    assert_eq!(viewer.received, Some((1, 0)));
    let state = message(5, vec![2, 0, b'a', b'b']);
    match decode_viewer(&mut viewer, &state, expected).unwrap() {
        Some(ViewerEvent::Terminal(bytes)) => assert_eq!(bytes, b"ab"),
        other => panic!("unexpected {:?}", other),
    }
    let mut output = le64(1);
    output.extend(le64(0));
    output.extend([b'x'; 4]);
    let output = message(6, output);
    match decode_viewer(&mut viewer, &output, expected).unwrap() {
        Some(ViewerEvent::Output(1, true, bytes)) => assert_eq!(bytes, b"xxxx"),
        other => panic!("unexpected {:?}", other),
    }
    assert_eq!(viewer.next, Some((2, 4)));
    assert_eq!(viewer.received, Some((2, 4)));
}

#[test]
fn viewer_refuses_output_before_terminal_state_and_leaves_its_record() {
    let mut viewer = stream();
    let mut output = le64(1);
    output.extend(le64(0));
    output.push(b'x');
    let output = message(6, output);
    assert_eq!(
        decode_viewer(&mut viewer, &output, (b"", 1, [0; 16])).unwrap_err(),
        WireError::Malformed
    );
    assert!(!viewer.terminal && viewer.next.is_none());
}

#[test]
fn viewer_passes_receipts_and_ignores_unknown_kinds() {
    let mut viewer = stream();
    let receipt = InputReceipt::outcome(3, 1, 4, [9; 16], 2, None).encode().unwrap();
    match decode_viewer(&mut viewer, &message(10, receipt), (b"", 4, [9; 16])).unwrap() {
        Some(ViewerEvent::Receipt(r)) => assert_eq!((r.epoch, r.request, r.written), (3, 1, 2)),
        other => panic!("unexpected {:?}", other),
    }
    assert!(decode_viewer(&mut viewer, &message(0x30, vec![1]), (b"", 4, [9; 16]))
        .unwrap()
        .is_none());
}

#[test]
fn viewer_answers_delegated_queries_from_keyboard_input() {
    let mut viewer = stream();
    let mut query = le64(42);
    query.extend(le32(3));
    query.push(5);
    query.extend(4u16.to_le_bytes());
    query.extend_from_slice(b"\x1b[6n");
    assert!(decode_viewer(&mut viewer, &message(0x14, query), (b"", 4, [9; 16]))
        .unwrap()
        .is_none());
    assert_eq!(viewer.queries.len(), 1);
    let (ordinary, replies) = viewer.input(b"a\x1b[12;40Rb".to_vec());
    assert_eq!(ordinary, b"ab".to_vec());
    assert_eq!(replies.len(), 1);
    assert_eq!(replies[0].correlation, 42);
    assert_eq!(replies[0].bytes, b"\x1b[12;40R".to_vec());
    assert!(viewer.queries.is_empty());
}

#[test]
fn keyboard_input_holds_a_partial_reply_until_flushed() {
    let mut viewer = stream();
    let mut query = le64(42);
    query.extend(le32(3));
    query.push(5);
    query.extend(4u16.to_le_bytes());
    query.extend_from_slice(b"\x1b[6n");
    decode_viewer(&mut viewer, &message(0x14, query), (b"", 4, [9; 16])).unwrap();
    let (ordinary, replies) = viewer.input(b"\x1b[1".to_vec());
    assert!(ordinary.is_empty() && replies.is_empty());
    assert_eq!(viewer.flush_input(), b"\x1b[1".to_vec());
    viewer.disconnected();
    assert!(viewer.queries.is_empty());
}

#[test]
fn codec_delivers_what_it_encoded_and_rejects_a_corrupted_checksum() {
    let mut sender = Codec::new(Profile::Controller);
    let mut frames = Vec::new();
    sender.encode(4, 7, &le64(5), &mut frames).unwrap();
    let mut receiver = Codec::new(Profile::Controller);
    let mut messages = Vec::new();
    receiver.feed(0, &frames, &mut messages).unwrap();
    assert_eq!(messages.len(), 1);
    assert_eq!((messages[0].scope, messages[0].kind), (4, 7));
    assert_eq!(messages[0].payload, le64(5));
    let mut corrupted = Vec::new();
    Codec::new(Profile::Controller)
        .encode(4, 7, &le64(5), &mut corrupted)
        .unwrap();
    corrupted[20] ^= 1;
    let mut fresh = Codec::new(Profile::Controller);
    let mut none = Vec::new();
    assert_eq!(
        fresh.feed(0, &corrupted, &mut none).unwrap_err(),
        WireError::Malformed
    );
}

#[test]
fn codec_reassembly_deadline_counts_from_the_first_partial_input() {
    let mut sender = Codec::new(Profile::Controller);
    let mut frames = Vec::new();
    sender.encode(4, 7, &le64(5), &mut frames).unwrap();
    let mut receiver = Codec::new(Profile::Controller);
    let mut messages = Vec::new();
    receiver.feed(1000, &frames[..10], &mut messages).unwrap();
    assert!(messages.is_empty());
    assert_eq!(receiver.buffered_len(), 10);
    receiver.feed(5999, &frames[10..20], &mut messages).unwrap();
    assert!(messages.is_empty());
    assert_eq!(receiver.expire(5999), Ok(()));
    assert_eq!(receiver.buffered_len(), 20);
    assert_eq!(receiver.expire(6000), Err(WireError::ReassemblyTimeout));
    assert_eq!(receiver.buffered_len(), 0);
    assert_eq!(receiver.expire(1_000_000), Ok(()));
}
