//! Decoding the requests that controllers and semantic producers send to the
//! holder: each message kind has a fixed field grammar, read front to back.
use crate::bytes::{nonzero, read_u16, read_u32, read_u64, u16_le, u32_le, u64_le};
use crate::session::machine::{
    ApplicationInput, ApplicationReceipt, InputNoticeAck, OwnedInput, ReceiptProjection, Request,
    SemanticEvent, SemanticEventKind, SemanticHello, SemanticMode, spec_valid_source_id,
    valid_source_id,
};
use crate::session::LeaseRequest;
use crate::wire::{read_query, spec_read_query, WireError, COMPACT_MAX, WIDE_MAX};
use vstd::prelude::*;

verus! {

/// The wide field that starts at `at` and where it ends: a short read is
/// malformed, an announced length above 1 MiB oversized.
pub open spec fn wide_field(s: Seq<u8>, at: int) -> Result<(Seq<u8>, int), WireError> {
    if at + 4 > s.len() {
        Err(WireError::Malformed)
    } else {
        let n = u32_le(s.subrange(at, at + 4)) as int;
        if n > WIDE_MAX {
            Err(WireError::OversizedMessage)
        } else if at + 4 + n > s.len() {
            Err(WireError::Malformed)
        } else {
            Ok((s.subrange(at + 4, at + 4 + n), at + 4 + n))
        }
    }
}

/// The compact field that starts at `at` and where it ends: a short read is
/// malformed, an announced length above 4096 bytes oversized.
pub open spec fn compact_field(s: Seq<u8>, at: int) -> Result<(Seq<u8>, int), WireError> {
    if at + 2 > s.len() {
        Err(WireError::Malformed)
    } else {
        let n = u16_le(s.subrange(at, at + 2)) as int;
        if n > COMPACT_MAX {
            Err(WireError::OversizedMessage)
        } else if at + 2 + n > s.len() {
            Err(WireError::Malformed)
        } else {
            Ok((s.subrange(at + 2, at + 2 + n), at + 2 + n))
        }
    }
}

pub(crate) fn read_wide(bytes: &[u8], at: usize) -> (r: Result<(&[u8], usize), WireError>)
    requires
        at <= bytes.len(),
    ensures
        match wide_field(bytes@, at as int) {
            Ok(v) => r matches Ok(x) && x.0@ == v.0 && x.1 == v.1,
            Err(e) => r == Err::<(&[u8], usize), WireError>(e),
        },
{
    if bytes.len() - at < 4 {
        return Err(WireError::Malformed);
    }
    let n = read_u32(bytes, at) as usize;
    if n > WIDE_MAX {
        return Err(WireError::OversizedMessage);
    }
    if bytes.len() - at - 4 < n {
        return Err(WireError::Malformed);
    }
    Ok((&bytes[at + 4..at + 4 + n], at + 4 + n))
}

pub(crate) fn read_compact(bytes: &[u8], at: usize) -> (r: Result<(&[u8], usize), WireError>)
    requires
        at <= bytes.len(),
    ensures
        match compact_field(bytes@, at as int) {
            Ok(v) => r matches Ok(x) && x.0@ == v.0 && x.1 == v.1,
            Err(e) => r == Err::<(&[u8], usize), WireError>(e),
        },
{
    if bytes.len() - at < 2 {
        return Err(WireError::Malformed);
    }
    let n = read_u16(bytes, at) as usize;
    if n > COMPACT_MAX {
        return Err(WireError::OversizedMessage);
    }
    if bytes.len() - at - 2 < n {
        return Err(WireError::Malformed);
    }
    Ok((&bytes[at + 2..at + 2 + n], at + 2 + n))
}

/// What a controller asks of the holder.
#[derive(Clone, Debug)]
pub enum ControllerRequest {
    Hello(Vec<u8>),
    Policy(Request),
    Status,
    LogClear([u8; 16], u64),
}

/// The seven bytes that open a controller hello.
pub open spec fn hello_magic() -> Seq<u8> {
    seq![0x4du8, 0x4fu8, 0x4fu8, 0x52u8, 4u8, 0u8, 0u8]
}

/// A lease epoch and a token that must both be nonzero, filling the payload.
pub open spec fn epoch_token_ok(s: Seq<u8>) -> bool {
    s.len() == 20 && u32_le(s.subrange(0, 4)) != 0 && nonzero(s.subrange(4, 20))
}

/// Whether a controller message of `kind` decodes, and the error when not:
/// a field announced too long is oversized, every other defect (a short
/// read, an invalid value, bytes left over, an unknown kind) malformed.
pub open spec fn controller_outcome(kind: u8, s: Seq<u8>) -> Result<(), WireError> {
    let malformed = Err::<(), WireError>(WireError::Malformed);
    if kind == 1 {
        if s.len() < 7 || s.subrange(0, 7) != hello_magic() {
            malformed
        } else {
            match wide_field(s, 7) {
                Ok(v) => if v.1 == s.len() { Ok(()) } else { malformed },
                Err(e) => Err(e),
            }
        }
    } else if kind == 3 {
        if s.len() == 5 && s[4] & 0xfc == 0 { Ok(()) } else { malformed }
    } else if kind == 7 {
        if s.len() == 8 { Ok(()) } else { malformed }
    } else if kind == 9 {
        if s.len() < 13 || s[12] > 1 {
            malformed
        } else if s[12] == 0 {
            Ok(())
        } else if s.len() < 29 {
            malformed
        } else {
            match compact_field(s, 29) {
                Ok(v) => if nonzero(s.subrange(13, 29)) && spec_valid_source_id(v.0) {
                    Ok(())
                } else {
                    malformed
                },
                Err(e) => Err(e),
            }
        }
    } else if kind == 11 {
        if s.len() == 8 { Ok(()) } else { malformed }
    } else if kind == 12 {
        match spec_read_query(s) {
            Some(v) => if v.4 == s.len() { Ok(()) } else { malformed },
            None => malformed,
        }
    } else if kind == 13 {
        if s.len() == 0 { Ok(()) } else { malformed }
    } else if kind == 15 {
        match wide_field(s, 0) {
            Ok(v) => if s.len() == v.1 + 21 && s[v.1 + 20] <= 1 { Ok(()) } else { malformed },
            Err(e) => Err(e),
        }
    } else if kind == 0x15 {
        if exists|x: LeaseRequest| x.layout() == s && #[trigger] x.valid_wire() {
            Ok(())
        } else {
            malformed
        }
    } else if kind == 0x17 || kind == 0x18 {
        if epoch_token_ok(s) { Ok(()) } else { malformed }
    } else if kind == 0x19 {
        if s.len() == 24 && nonzero(s.subrange(0, 16)) { Ok(()) } else { malformed }
    } else {
        malformed
    }
}

/// The request that a well-formed controller message of `kind` carries;
/// `token` is the lease token of the connection, handed to attach and lease
/// requests.
pub open spec fn controller_value(
    kind: u8,
    s: Seq<u8>,
    token: Option<[u8; 16]>,
    r: ControllerRequest,
) -> bool {
    if kind == 1 {
        r matches ControllerRequest::Hello(identity) && identity@ == s.subrange(11, s.len() as int)
    } else if kind == 3 {
        r matches ControllerRequest::Policy(Request::Attach(columns, rows, force, interactive, t))
            && columns == u16_le(s.subrange(0, 2)) && rows == u16_le(s.subrange(2, 4))
            && force == (s[4] & 1 != 0) && interactive == (s[4] & 2 != 0) && t == token
    } else if kind == 7 {
        r matches ControllerRequest::Policy(Request::OutputAck(sequence)) && sequence == u64_le(s)
    } else if kind == 9 {
        r matches ControllerRequest::Policy(Request::Input(input, application))
            && input.epoch == u32_le(s.subrange(0, 4))
            && input.request_id == u64_le(s.subrange(4, 12)) && input.exact_payload@ == s
            && if s[12] == 0 {
                application is None
            } else {
                application matches Some(app) && app.receipt.application_id@ == s.subrange(13, 29)
                    && app.receipt.lease_epoch == input.epoch
                    && app.receipt.request_id == input.request_id && app.source_start == 31
                    && app.source_end == 31 + u16_le(s.subrange(29, 31))
                    && app.terminal_at == app.source_end
            }
    } else if kind == 11 {
        r matches ControllerRequest::Policy(Request::Resize(epoch, rows, columns))
            && epoch == u32_le(s.subrange(0, 4)) && rows == u16_le(s.subrange(4, 6))
            && columns == u16_le(s.subrange(6, 8))
    } else if kind == 12 {
        r matches ControllerRequest::Policy(Request::QueryReply(correlation, epoch, class, bytes))
            && spec_read_query(s) matches Some(q) && correlation == q.0 && epoch == q.1
            && class == q.2 && bytes@ == q.3
    } else if kind == 13 {
        r is Status
    } else if kind == 15 {
        r matches ControllerRequest::Policy(Request::Terminate(identity, generation, incarnation, force))
            && wide_field(s, 0) matches Ok(v) && identity@ == v.0
            && generation == u32_le(s.subrange(v.1, v.1 + 4))
            && incarnation@ == s.subrange(v.1 + 4, v.1 + 20) && force == (s[v.1 + 20] != 0)
    } else if kind == 0x15 {
        r matches ControllerRequest::Policy(Request::Lease(request, t)) && request.layout() == s
            && request.valid_wire() && t == token
    } else if kind == 0x17 {
        r matches ControllerRequest::Policy(Request::Release(epoch, lease_token))
            && epoch == u32_le(s.subrange(0, 4)) && lease_token@ == s.subrange(4, 20)
    } else if kind == 0x18 {
        r matches ControllerRequest::Policy(Request::Keepalive(epoch, lease_token))
            && epoch == u32_le(s.subrange(0, 4)) && lease_token@ == s.subrange(4, 20)
    } else {
        r matches ControllerRequest::LogClear(incarnation, observed)
            && incarnation@ == s.subrange(0, 16) && observed == u64_le(s.subrange(16, 24))
    }
}

/// Decodes the payload of a controller message of `kind`.
pub fn decode_controller(kind: u8, payload: &[u8], token: Option<[u8; 16]>) -> (r: Result<
    ControllerRequest,
    WireError,
>)
    ensures
        r is Ok <==> controller_outcome(kind, payload@) is Ok,
        r matches Err(e) ==> controller_outcome(kind, payload@) == Err::<(), WireError>(e),
        r matches Ok(v) ==> controller_value(kind, payload@, token, v),
{
    let s = payload;
    if kind == 1 {
        if s.len() < 7 || !(s[0] == 0x4d && s[1] == 0x4f && s[2] == 0x4f && s[3] == 0x52 && s[4]
            == 4 && s[5] == 0 && s[6] == 0) {
            proof {
                if s.len() >= 7 {
                    assert(!(s@.subrange(0, 7) =~= hello_magic()) ==> s@.subrange(0, 7)
                        != hello_magic());
                    assert(s@.subrange(0, 7) != hello_magic()) by {
                        if s@.subrange(0, 7) == hello_magic() {
                            assert(s@.subrange(0, 7)[0] == s@[0]);
                            assert(s@.subrange(0, 7)[1] == s@[1]);
                            assert(s@.subrange(0, 7)[2] == s@[2]);
                            assert(s@.subrange(0, 7)[3] == s@[3]);
                            assert(s@.subrange(0, 7)[4] == s@[4]);
                            assert(s@.subrange(0, 7)[5] == s@[5]);
                            assert(s@.subrange(0, 7)[6] == s@[6]);
                        }
                    }
                }
            }
            return Err(WireError::Malformed);
        }
        assert(s@.subrange(0, 7) =~= hello_magic());
        let (identity, end) = read_wide(s, 7)?;
        if end != s.len() {
            return Err(WireError::Malformed);
        }
        return Ok(ControllerRequest::Hello(crate::bytes::to_vec(identity)));
    } else if kind == 3 {
        if s.len() != 5 || s[4] & 0xfc != 0 {
            return Err(WireError::Malformed);
        }
        let flags = s[4];
        return Ok(
            ControllerRequest::Policy(
                Request::Attach(read_u16(s, 0), read_u16(s, 2), flags & 1 != 0, flags & 2 != 0, token),
            ),
        );
    } else if kind == 7 {
        if s.len() != 8 {
            return Err(WireError::Malformed);
        }
        assert(s@.subrange(0, 8) =~= s@);
        return Ok(ControllerRequest::Policy(Request::OutputAck(read_u64(s, 0))));
    } else if kind == 9 {
        if s.len() < 13 || s[12] > 1 {
            return Err(WireError::Malformed);
        }
        let epoch = read_u32(s, 0);
        let request_id = read_u64(s, 4);
        let application = if s[12] == 0 {
            None
        } else {
            if s.len() < 29 {
                return Err(WireError::Malformed);
            }
            let (source, end) = read_compact(s, 29)?;
            let application_id = crate::bytes::array16(s, 13);
            if !crate::bytes::any_nonzero(&s[13..29]) || !valid_source_id(source) {
                proof {
                    assert(s@.subrange(13, 29) =~= s@.subrange(13, 29));
                }
                return Err(WireError::Malformed);
            }
            Some(
                ApplicationInput {
                    receipt: ApplicationReceipt { application_id, lease_epoch: epoch, request_id },
                    source_start: 31,
                    source_end: end,
                    terminal_at: end,
                },
            )
        };
        let input = OwnedInput { epoch, request_id, exact_payload: crate::bytes::to_vec(s) };
        return Ok(ControllerRequest::Policy(Request::Input(input, application)));
    } else if kind == 11 {
        if s.len() != 8 {
            return Err(WireError::Malformed);
        }
        return Ok(
            ControllerRequest::Policy(Request::Resize(read_u32(s, 0), read_u16(s, 4), read_u16(s, 6))),
        );
    } else if kind == 12 {
        let (correlation, epoch, class, bytes, end) = read_query(s)?;
        if end != s.len() {
            return Err(WireError::Malformed);
        }
        return Ok(
            ControllerRequest::Policy(
                Request::QueryReply(correlation, epoch, class, crate::bytes::to_vec(bytes)),
            ),
        );
    } else if kind == 13 {
        if s.len() != 0 {
            return Err(WireError::Malformed);
        }
        return Ok(ControllerRequest::Status);
    } else if kind == 15 {
        let (identity, at) = read_wide(s, 0)?;
        if s.len() - at != 21 || s[at + 20] > 1 {
            return Err(WireError::Malformed);
        }
        let generation = read_u32(s, at);
        let incarnation = crate::bytes::array16(s, at + 4);
        let force = s[at + 20] != 0;
        return Ok(
            ControllerRequest::Policy(
                Request::Terminate(crate::bytes::to_vec(identity), generation, incarnation, force),
            ),
        );
    } else if kind == 0x15 {
        match LeaseRequest::decode_wire(s) {
            Ok(request) => {
                return Ok(ControllerRequest::Policy(Request::Lease(request, token)));
            },
            Err(e) => {
                return Err(e);
            },
        }
    } else if kind == 0x17 || kind == 0x18 {
        if s.len() != 20 {
            return Err(WireError::Malformed);
        }
        let epoch = read_u32(s, 0);
        if epoch == 0 || !crate::bytes::any_nonzero(&s[4..20]) {
            proof {
                assert(s@.subrange(4, 20) =~= s@.subrange(4, 20));
            }
            return Err(WireError::Malformed);
        }
        let lease_token = crate::bytes::array16(s, 4);
        if kind == 0x17 {
            return Ok(ControllerRequest::Policy(Request::Release(epoch, lease_token)));
        } else {
            return Ok(ControllerRequest::Policy(Request::Keepalive(epoch, lease_token)));
        }
    } else if kind == 0x19 {
        if s.len() != 24 || !crate::bytes::any_nonzero(&s[0..16]) {
            proof {
                if s.len() == 24 {
                    assert(s@.subrange(0, 16) =~= s@.subrange(0, 16));
                }
            }
            return Err(WireError::Malformed);
        }
        return Ok(ControllerRequest::LogClear(crate::bytes::array16(s, 0), read_u64(s, 16)));
    } else {
        return Err(WireError::Malformed);
    }
}

/// Whether a semantic message of `kind` under `scope` decodes, and the error
/// when not: a field announced too long is oversized, every other defect
/// malformed. A hello must come unscoped.
pub open spec fn semantic_outcome(scope: u32, kind: u8, s: Seq<u8>) -> Result<(), WireError> {
    let malformed = Err::<(), WireError>(WireError::Malformed);
    if kind == 1 && scope == 0 {
        if s.len() < 38 || s[36] > 1 {
            malformed
        } else {
            match compact_field(s, 38) {
                Ok(v) => if v.1 == s.len() { Ok(()) } else { malformed },
                Err(e) => Err(e),
            }
        }
    } else if kind == 3 {
        if s.len() >= 25 && s[24] <= 1 { Ok(()) } else { malformed }
    } else if kind == 4 {
        if s.len() < 53 || s[52] > 1 {
            malformed
        } else {
            match compact_field(s, 53) {
                Ok(session) => match compact_field(s, session.1) {
                    Ok(turn) => if turn.1 == s.len() { Ok(()) } else { malformed },
                    Err(e) => Err(e),
                },
                Err(e) => Err(e),
            }
        }
    } else if kind == 6 {
        if s.len() == 29 && s[28] <= 1 { Ok(()) } else { malformed }
    } else if kind == 8 {
        if s.len() == 8 { Ok(()) } else { malformed }
    } else {
        malformed
    }
}

/// The request that a well-formed semantic message of `kind` carries;
/// `object` says whether an event payload is a bounded JSON object.
pub open spec fn semantic_value(kind: u8, s: Seq<u8>, object: bool, r: Request) -> bool {
    if kind == 1 {
        &&& r matches Request::SemanticHello(hello)
        &&& hello.token@ == s.subrange(0, 16)
        &&& hello.producer@ == s.subrange(16, 32)
        &&& hello.generation == u32_le(s.subrange(32, 36))
        &&& hello.mode == (if s[36] == 0 { SemanticMode::Edge } else { SemanticMode::Stateful })
        &&& hello.capabilities == s[37]
        &&& compact_field(s, 38) matches Ok(v)
        &&& hello.source@ == v.0
    } else if kind == 3 {
        r matches Request::SemanticEvent(event, projection, o) && event.id@ == s.subrange(0, 16)
            && event.sequence == u64_le(s.subrange(16, 24))
            && event.kind == (if s[24] == 0 {
                SemanticEventKind::Transition
            } else {
                SemanticEventKind::Snapshot
            }) && event.exact_payload@ == s.subrange(25, s.len() as int) && projection is None
            && o == object
    } else if kind == 4 {
        &&& r matches Request::SemanticEvent(event, projection, o)
        &&& event.id@ == s.subrange(0, 16)
        &&& event.sequence == u64_le(s.subrange(16, 24))
        &&& event.kind == SemanticEventKind::ApplicationReceipt
        &&& event.exact_payload@ == s.subrange(24, s.len() as int)
        &&& o == object
        &&& projection matches Some(p)
        &&& p.receipt.application_id@ == s.subrange(24, 40)
        &&& p.receipt.lease_epoch == u32_le(s.subrange(40, 44))
        &&& p.receipt.request_id == u64_le(s.subrange(44, 52))
        &&& p.status == s[52]
        &&& compact_field(s, 53) matches Ok(session)
        &&& compact_field(s, session.1) matches Ok(turn)
        &&& p.provider_session == (31usize, (session.1 - 24) as usize)
        &&& p.provider_turn == ((session.1 - 22) as usize, (turn.1 - 24) as usize)
    } else if kind == 6 {
        r matches Request::NoticeAck(ack) && ack.receipt.application_id@ == s.subrange(0, 16)
            && ack.receipt.lease_epoch == u32_le(s.subrange(16, 20))
            && ack.receipt.request_id == u64_le(s.subrange(20, 28)) && ack.prepared == (s[28] == 0)
    } else {
        r is SemanticHeartbeat
    }
}

/// Decodes the payload of a semantic message of `kind` under `scope`;
/// `object` is handed to an event request as whether its payload is a
/// bounded JSON object.
pub fn decode_semantic(scope: u32, kind: u8, payload: &[u8], object: bool) -> (r: Result<
    Request,
    WireError,
>)
    ensures
        r is Ok <==> semantic_outcome(scope, kind, payload@) is Ok,
        r matches Err(e) ==> semantic_outcome(scope, kind, payload@) == Err::<(), WireError>(e),
        r matches Ok(v) ==> semantic_value(kind, payload@, object, v),
{
    let s = payload;
    if kind == 1 && scope == 0 {
        if s.len() < 38 || s[36] > 1 {
            return Err(WireError::Malformed);
        }
        let (source, end) = read_compact(s, 38)?;
        if end != s.len() {
            return Err(WireError::Malformed);
        }
        let mode = if s[36] == 0 {
            SemanticMode::Edge
        } else {
            SemanticMode::Stateful
        };
        return Ok(
            Request::SemanticHello(
                SemanticHello {
                    token: crate::bytes::array16(s, 0),
                    producer: crate::bytes::array16(s, 16),
                    generation: read_u32(s, 32),
                    mode,
                    capabilities: s[37],
                    source: crate::bytes::to_vec(source),
                },
            ),
        );
    } else if kind == 3 {
        if s.len() < 25 || s[24] > 1 {
            return Err(WireError::Malformed);
        }
        let event_kind = if s[24] == 0 {
            SemanticEventKind::Transition
        } else {
            SemanticEventKind::Snapshot
        };
        let event = SemanticEvent {
            id: crate::bytes::array16(s, 0),
            sequence: read_u64(s, 16),
            kind: event_kind,
            exact_payload: crate::bytes::to_vec(&s[25..s.len()]),
        };
        return Ok(Request::SemanticEvent(event, None, object));
    } else if kind == 4 {
        if s.len() < 53 || s[52] > 1 {
            return Err(WireError::Malformed);
        }
        let (_session, session_end) = read_compact(s, 53)?;
        let (_turn, turn_end) = read_compact(s, session_end)?;
        if turn_end != s.len() {
            return Err(WireError::Malformed);
        }
        let event = SemanticEvent {
            id: crate::bytes::array16(s, 0),
            sequence: read_u64(s, 16),
            kind: SemanticEventKind::ApplicationReceipt,
            exact_payload: crate::bytes::to_vec(&s[24..s.len()]),
        };
        let projection = ReceiptProjection {
            receipt: ApplicationReceipt {
                application_id: crate::bytes::array16(s, 24),
                lease_epoch: read_u32(s, 40),
                request_id: read_u64(s, 44),
            },
            status: s[52],
            provider_session: (31, session_end - 24),
            provider_turn: (session_end - 22, turn_end - 24),
        };
        return Ok(Request::SemanticEvent(event, Some(projection), object));
    } else if kind == 6 {
        if s.len() != 29 || s[28] > 1 {
            return Err(WireError::Malformed);
        }
        let ack = InputNoticeAck {
            receipt: ApplicationReceipt {
                application_id: crate::bytes::array16(s, 0),
                lease_epoch: read_u32(s, 16),
                request_id: read_u64(s, 20),
            },
            prepared: s[28] == 0,
        };
        return Ok(Request::NoticeAck(ack));
    } else if kind == 8 {
        if s.len() != 8 {
            return Err(WireError::Malformed);
        }
        return Ok(Request::SemanticHeartbeat);
    } else {
        return Err(WireError::Malformed);
    }
}

} // verus!
