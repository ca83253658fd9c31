//! Encoding the machine's replies as the frames the holder sends.
use crate::bytes::{le16, le32, le64, push_all, push_u16, push_u32, push_u64};
use crate::session::machine::{Reply, SemanticAckStatus, SemanticRefusal};
use crate::wire::{compact, error_payload, spec_error_payload, terminate_result_payload, valid_termination, COMPACT_MAX};
use vstd::prelude::*;
use vstd::string::StringSliceAdditionalSpecFns;

verus! {

/// A frame to send: unscoped with its kind, or under a scope.
#[derive(Clone, Debug)]
pub enum RuntimeReply {
    Frame(u8, Vec<u8>),
    Scoped(u32, u8, Vec<u8>),
}

/// The error code that answers a refused semantic request.
pub open spec fn spec_semantic_code(error: SemanticRefusal) -> u16 {
    match error {
        SemanticRefusal::CapabilityAbsent => 10,
        SemanticRefusal::StaleToken => 5,
        SemanticRefusal::Generation => 5,
        SemanticRefusal::SourceConflict => 6,
        SemanticRefusal::ResourceExhausted => 12,
        SemanticRefusal::BadSequence => 7,
        SemanticRefusal::EventConflict => 8,
        SemanticRefusal::SnapshotRequired => 11,
        SemanticRefusal::InvalidPayload => 14,
        SemanticRefusal::Superseded => 6,
        SemanticRefusal::ApplicationConflict => 8,
        SemanticRefusal::UnknownApplication => 9,
        SemanticRefusal::SourceUnavailable => 10,
        SemanticRefusal::NotWritten => 15,
    }
}

pub fn semantic_code(error: SemanticRefusal) -> (r: u16)
    ensures
        r == spec_semantic_code(error),
{
    match error {
        SemanticRefusal::CapabilityAbsent => 10,
        SemanticRefusal::StaleToken => 5,
        SemanticRefusal::Generation => 5,
        SemanticRefusal::SourceConflict => 6,
        SemanticRefusal::ResourceExhausted => 12,
        SemanticRefusal::BadSequence => 7,
        SemanticRefusal::EventConflict => 8,
        SemanticRefusal::SnapshotRequired => 11,
        SemanticRefusal::InvalidPayload => 14,
        SemanticRefusal::Superseded => 6,
        SemanticRefusal::ApplicationConflict => 8,
        SemanticRefusal::UnknownApplication => 9,
        SemanticRefusal::SourceUnavailable => 10,
        SemanticRefusal::NotWritten => 15,
    }
}

pub open spec fn ack_status_ordinal(status: SemanticAckStatus) -> u8 {
    match status {
        SemanticAckStatus::Accepted => 0,
        SemanticAckStatus::Duplicate => 1,
        SemanticAckStatus::Refused => 2,
    }
}

/// What a reply may carry: a lease result that is valid on the wire, a
/// termination result that is valid with a diagnostic that fits a compact
/// field.
pub open spec fn encodable(reply: Reply) -> bool {
    match reply {
        Reply::Lease(result) => result.valid_wire(),
        Reply::Termination(outcome, containment, method, diagnostic) => valid_termination(
            outcome,
            containment,
            method,
            diagnostic.spec_bytes(),
        ) && diagnostic.spec_bytes().len() <= COMPACT_MAX,
        _ => true,
    }
}

/// The frame that answers `reply`: its scope when it has one, its kind and
/// its payload; `incarnation` names the holder in a semantic hello ack.
pub open spec fn spec_reply(reply: Reply, incarnation: Seq<u8>) -> (Option<u32>, u8, Seq<u8>) {
    match reply {
        Reply::Lease(result) => (None, 0x16u8, result.layout()),
        Reply::Input(payload) => (None, 10u8, payload@),
        Reply::Notice(notice) => (
            None,
            5u8,
            notice.receipt.application_id@ + le32(notice.receipt.lease_epoch) + le64(
                notice.receipt.request_id,
            ) + le64(notice.byte_count) + notice.digest@,
        ),
        Reply::NoticeCancel(receipt) => (
            None,
            10u8,
            receipt.application_id@ + le32(receipt.lease_epoch) + le64(receipt.request_id) + le16(
                21,
            ) + "terminal write failed".spec_bytes(),
        ),
        Reply::SemanticAck(ack) => {
            let (epoch, sequence) = match ack.position {
                Some(p) => (p.epoch, p.sequence),
                None => (0u32, 0u64),
            };
            (
                None,
                7u8,
                ack.id@ + le64(ack.sequence) + seq![ack_status_ordinal(ack.status), 0u8, 0u8] + le32(
                    epoch,
                ) + le64(sequence) + seq![0u8, 0u8],
            )
        },
        Reply::SemanticRefused(Some(event), error) => (
            None,
            7u8,
            event.id@ + le64(event.sequence) + seq![2u8] + le16(spec_semantic_code(error))
                + Seq::new(12, |i: int| 0u8) + le16(22) + "semantic event refused".spec_bytes(),
        ),
        Reply::SemanticRefused(None, error) => (
            None,
            9u8,
            spec_error_payload(spec_semantic_code(error), "semantic request refused".spec_bytes()),
        ),
        Reply::SemanticHello(ack) => (
            Some(ack.epoch),
            2u8,
            incarnation + seq![if ack.snapshot_required { 1u8 } else { 0u8 }] + le32(32768) + le32(
                5000,
            ) + le32(60000) + le32(600000),
        ),
        Reply::ControllerError(code, diagnostic) => (
            None,
            0x13u8,
            spec_error_payload(code, diagnostic.spec_bytes()),
        ),
        Reply::Termination(outcome, containment, method, diagnostic) => (
            None,
            16u8,
            seq![outcome, containment, method] + compact(diagnostic.spec_bytes()),
        ),
    }
}

/// Encodes a reply as the frame the holder sends.
pub fn encode_reply(reply: Reply, incarnation: [u8; 16]) -> (r: RuntimeReply)
    requires
        encodable(reply),
    ensures
        match r {
            RuntimeReply::Frame(kind, payload) => spec_reply(reply, incarnation@) == (
                None::<u32>,
                kind,
                payload@,
            ),
            RuntimeReply::Scoped(scope, kind, payload) => spec_reply(reply, incarnation@) == (
                Some(scope),
                kind,
                payload@,
            ),
        },
{
    match reply {
        Reply::Lease(result) => {
            let payload = match result.encode_wire() {
                Ok(v) => v,
                Err(_) => Vec::new(),
            };
            RuntimeReply::Frame(0x16, payload)
        },
        Reply::Input(payload) => RuntimeReply::Frame(10, payload),
        Reply::Notice(notice) => {
            let mut out = Vec::new();
            push_all(&mut out, &notice.receipt.application_id);
            push_u32(&mut out, notice.receipt.lease_epoch);
            push_u64(&mut out, notice.receipt.request_id);
            push_u64(&mut out, notice.byte_count);
            push_all(&mut out, &notice.digest);
            RuntimeReply::Frame(5, out)
        },
        Reply::NoticeCancel(receipt) => {
            let mut out = Vec::new();
            push_all(&mut out, &receipt.application_id);
            push_u32(&mut out, receipt.lease_epoch);
            push_u64(&mut out, receipt.request_id);
            push_u16(&mut out, 21);
            push_all(&mut out, "terminal write failed".as_bytes());
            RuntimeReply::Frame(10, out)
        },
        Reply::SemanticAck(ack) => {
            let (epoch, sequence) = match ack.position {
                Some(p) => (p.epoch, p.sequence),
                None => (0u32, 0u64),
            };
            let status: u8 = match ack.status {
                SemanticAckStatus::Accepted => 0,
                SemanticAckStatus::Duplicate => 1,
                SemanticAckStatus::Refused => 2,
            };
            let mut out = Vec::new();
            push_all(&mut out, &ack.id);
            push_u64(&mut out, ack.sequence);
            out.push(status);
            out.push(0);
            out.push(0);
            push_u32(&mut out, epoch);
            push_u64(&mut out, sequence);
            out.push(0);
            out.push(0);
            assert(out@ =~= ack.id@ + le64(ack.sequence) + seq![status, 0u8, 0u8] + le32(epoch)
                + le64(sequence) + seq![0u8, 0u8]);
            RuntimeReply::Frame(7, out)
        },
        Reply::SemanticRefused(event, error) => {
            let code = semantic_code(error);
            match event {
                Some(event) => {
                    let mut out = Vec::new();
                    push_all(&mut out, &event.id);
                    push_u64(&mut out, event.sequence);
                    out.push(2);
                    push_u16(&mut out, code);
                    let ghost before = out@;
                    let mut i: usize = 0;
                    while i < 12
                        invariant
                            i <= 12,
                            out@ == before + Seq::new(i as nat, |k: int| 0u8),
                        decreases 12 - i,
                    {
                        out.push(0);
                        i = i + 1;
                        assert(out@ =~= before + Seq::new(i as nat, |k: int| 0u8));
                    }
                    push_u16(&mut out, 22);
                    push_all(&mut out, "semantic event refused".as_bytes());
                    assert(out@ =~= event.id@ + le64(event.sequence) + seq![2u8] + le16(code)
                        + Seq::new(12, |i: int| 0u8) + le16(22) + "semantic event refused".spec_bytes());
                    RuntimeReply::Frame(7, out)
                },
                None => RuntimeReply::Frame(9, error_payload(code, "semantic request refused".as_bytes())),
            }
        },
        Reply::SemanticHello(ack) => {
            let mut out = Vec::new();
            push_all(&mut out, &incarnation);
            out.push(if ack.snapshot_required { 1u8 } else { 0u8 });
            push_u32(&mut out, 32768);
            push_u32(&mut out, 5000);
            push_u32(&mut out, 60000);
            push_u32(&mut out, 600000);
            RuntimeReply::Scoped(ack.epoch, 2, out)
        },
        Reply::ControllerError(code, diagnostic) => RuntimeReply::Frame(
            0x13,
            error_payload(code, diagnostic.as_bytes()),
        ),
        Reply::Termination(outcome, containment, method, diagnostic) => {
            let payload = match terminate_result_payload(outcome, containment, method, diagnostic.as_bytes()) {
                Ok(v) => v,
                Err(_) => Vec::new(),
            };
            RuntimeReply::Frame(16, payload)
        },
    }
}

} // verus!
