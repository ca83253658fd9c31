//! The framed binary protocol between holder, controllers and semantic
//! producers: errors, fixed payload layouts and length-prefixed fields.
use crate::bytes::{
    le16, le32, le64, nonzero, push_all, push_u16, push_u32, push_u64, read_u16, read_u32,
    read_u64, u16_le, u32_le, u64_le,
};
use vstd::prelude::*;

pub mod codec;
pub mod replies;
pub mod requests;
pub mod status;
pub mod text;
pub mod viewer;

pub use self::codec::{Codec, Message};
pub use self::replies::{encode_reply, RuntimeReply};
pub use self::requests::{decode_controller, decode_semantic, ControllerRequest};
pub use self::text::{
    csi, decimal, recognize_query, valid_size, validate_query_reply, QueryShape,
};

verus! {

#[derive(Clone, Copy, Debug, PartialEq, Eq, Structural)]
pub enum Profile {
    Controller,
    Semantic,
}

#[derive(Clone, Copy, Debug, PartialEq, Eq, Structural)]
pub enum WireError {
    UnknownVersion,
    UnknownType,
    OversizedFrame,
    OversizedMessage,
    Malformed,
    BadSequence,
    ReassemblyAborted,
    ReassemblyTimeout,
    ResourceExhausted,
    GenerationMismatch,
}

/// `Ok` when `valid`, else the given error.
pub fn require(valid: bool, error: WireError) -> (r: Result<(), WireError>)
    ensures
        r == (if valid {
            Ok::<(), WireError>(())
        } else {
            Err(error)
        }),
{
    if valid {
        Ok(())
    } else {
        Err(error)
    }
}

/// The largest field a wide (32-bit) length prefix may announce.
pub const WIDE_MAX: usize = 1048576;

/// The largest field a compact (16-bit) length prefix may announce.
pub const COMPACT_MAX: usize = 4096;

/// A wide field: the 32-bit little-endian length, then the bytes.
pub open spec fn wide(bytes: Seq<u8>) -> Seq<u8> {
    le32(bytes.len() as u32) + bytes
}

/// A compact field: the 16-bit little-endian length, then the bytes.
pub open spec fn compact(bytes: Seq<u8>) -> Seq<u8> {
    le16(bytes.len() as u16) + bytes
}

/// Appends a wide field, refusing one longer than 1 MiB.
pub fn put_wide(out: &mut Vec<u8>, bytes: &[u8]) -> (r: Result<(), WireError>)
    ensures
        r is Ok <==> bytes.len() <= WIDE_MAX,
        r is Ok ==> final(out)@ == old(out)@ + wide(bytes@),
        r is Err ==> r == Err::<(), WireError>(WireError::OversizedMessage) && final(out)@ == old(
            out,
        )@,
{
    if bytes.len() > WIDE_MAX {
        return Err(WireError::OversizedMessage);
    }
    push_u32(out, bytes.len() as u32);
    push_all(out, bytes);
    assert(final(out)@ =~= old(out)@ + wide(bytes@));
    Ok(())
}

/// Appends a compact field, refusing one longer than 4096 bytes.
pub fn put_compact(out: &mut Vec<u8>, bytes: &[u8]) -> (r: Result<(), WireError>)
    ensures
        r is Ok <==> bytes.len() <= COMPACT_MAX,
        r is Ok ==> final(out)@ == old(out)@ + compact(bytes@),
        r is Err ==> r == Err::<(), WireError>(WireError::OversizedMessage) && final(out)@ == old(
            out,
        )@,
{
    if bytes.len() > COMPACT_MAX {
        return Err(WireError::OversizedMessage);
    }
    push_u16(out, bytes.len() as u16);
    push_all(out, bytes);
    assert(final(out)@ =~= old(out)@ + compact(bytes@));
    Ok(())
}

/// The wide field that starts at `at`: its length prefix must fit, announce
/// at most 1 MiB and be followed by that many bytes; with `exact_tail`
/// nothing may follow it.
pub open spec fn spec_get_wide(s: Seq<u8>, at: int, exact_tail: bool) -> Option<Seq<u8>> {
    if 0 <= at && at + 4 <= s.len() {
        let n = u32_le(s.subrange(at, at + 4)) as int;
        if n <= WIDE_MAX && at + 4 + n <= s.len() && (!exact_tail || at + 4 + n == s.len()) {
            Some(s.subrange(at + 4, at + 4 + n))
        } else {
            None
        }
    } else {
        None
    }
}

pub open spec fn spec_get_compact(s: Seq<u8>, at: int, exact_tail: bool) -> Option<Seq<u8>> {
    if 0 <= at && at + 2 <= s.len() {
        let n = u16_le(s.subrange(at, at + 2)) as int;
        if n <= COMPACT_MAX && at + 2 + n <= s.len() && (!exact_tail || at + 2 + n == s.len()) {
            Some(s.subrange(at + 2, at + 2 + n))
        } else {
            None
        }
    } else {
        None
    }
}

pub fn get_wide(bytes: &[u8], at: usize, exact_tail: bool) -> (r: Option<&[u8]>)
    ensures
        match spec_get_wide(bytes@, at as int, exact_tail) {
            Some(v) => r matches Some(x) && x@ == v,
            None => r is None,
        },
{
    if at > bytes.len() || bytes.len() - at < 4 {
        return None;
    }
    let n = read_u32(bytes, at) as usize;
    if n > WIDE_MAX || bytes.len() - at - 4 < n || (exact_tail && bytes.len() - at - 4 != n) {
        return None;
    }
    Some(&bytes[at + 4..at + 4 + n])
}

pub fn get_compact(bytes: &[u8], at: usize, exact_tail: bool) -> (r: Option<&[u8]>)
    ensures
        match spec_get_compact(bytes@, at as int, exact_tail) {
            Some(v) => r matches Some(x) && x@ == v,
            None => r is None,
        },
{
    if at > bytes.len() || bytes.len() - at < 2 {
        return None;
    }
    let n = read_u16(bytes, at) as usize;
    if n > COMPACT_MAX || bytes.len() - at - 2 < n || (exact_tail && bytes.len() - at - 2 != n) {
        return None;
    }
    Some(&bytes[at + 2..at + 2 + n])
}

/// Reading a wide field gives back what writing it wrote.
pub proof fn lemma_wide_roundtrip(prefix: Seq<u8>, bytes: Seq<u8>)
    requires
        bytes.len() <= WIDE_MAX,
    ensures
        spec_get_wide(prefix + wide(bytes), prefix.len() as int, true) == Some(bytes),
{
    let s = prefix + wide(bytes);
    let at = prefix.len() as int;
    crate::bytes::lemma_le32(bytes.len() as u32);
    assert(s.subrange(at, at + 4) =~= le32(bytes.len() as u32));
    assert(s.subrange(at + 4, at + 4 + bytes.len()) =~= bytes);
}

/// Reading a compact field gives back what writing it wrote.
pub proof fn lemma_compact_roundtrip(prefix: Seq<u8>, bytes: Seq<u8>)
    requires
        bytes.len() <= COMPACT_MAX,
    ensures
        spec_get_compact(prefix + compact(bytes), prefix.len() as int, true) == Some(bytes),
{
    let s = prefix + compact(bytes);
    let at = prefix.len() as int;
    crate::bytes::lemma_le16(bytes.len() as u16);
    assert(s.subrange(at, at + 2) =~= le16(bytes.len() as u16));
    assert(s.subrange(at + 2, at + 2 + bytes.len()) =~= bytes);
}

/// The payload naming a held lease: its epoch, then its token.
pub open spec fn spec_lease_token_payload(epoch: u32, token: Seq<u8>) -> Seq<u8> {
    le32(epoch) + token
}

/// Encodes a lease epoch and token; both must be nonzero.
pub fn lease_token_payload(epoch: u32, token: [u8; 16]) -> (r: Result<Vec<u8>, WireError>)
    ensures
        r is Ok <==> epoch != 0 && nonzero(token@),
        r matches Ok(v) ==> v@ == spec_lease_token_payload(epoch, token@),
        r is Err ==> r == Err::<Vec<u8>, WireError>(WireError::Malformed),
{
    if epoch == 0 || !crate::bytes::any_nonzero(&token) {
        return Err(WireError::Malformed);
    }
    let mut out = Vec::new();
    push_u32(&mut out, epoch);
    push_all(&mut out, &token);
    Ok(out)
}

/// Encodes a log-clear request: the holder incarnation, then the commit
/// index the requester observed; the incarnation must be nonzero.
pub fn log_clear_payload(incarnation: [u8; 16], observed: u64) -> (r: Result<Vec<u8>, WireError>)
    ensures
        r is Ok <==> nonzero(incarnation@),
        r matches Ok(v) ==> v@ == incarnation@ + le64(observed),
        r is Err ==> r == Err::<Vec<u8>, WireError>(WireError::Malformed),
{
    if !crate::bytes::any_nonzero(&incarnation) {
        return Err(WireError::Malformed);
    }
    let mut out = Vec::new();
    push_all(&mut out, &incarnation);
    push_u64(&mut out, observed);
    Ok(out)
}

/// An input request: lease epoch, request id, the plain-input form byte 0,
/// then the bytes for the terminal.
pub fn input_payload(epoch: u32, request: u64, bytes: &[u8]) -> (r: Vec<u8>)
    ensures
        r@ == le32(epoch) + le64(request) + seq![0u8] + bytes@,
{
    let mut out = Vec::new();
    push_u32(&mut out, epoch);
    push_u64(&mut out, request);
    out.push(0);
    push_all(&mut out, bytes);
    out
}

/// A resize request: lease epoch, columns, rows.
pub fn resize_payload(epoch: u32, rows: u16, columns: u16) -> (r: Vec<u8>)
    ensures
        r@ == le32(epoch) + le16(columns) + le16(rows),
{
    let mut out = Vec::new();
    push_u32(&mut out, epoch);
    push_u16(&mut out, columns);
    push_u16(&mut out, rows);
    out
}

/// An attach request for `size` (rows, columns): columns, rows, flags.
pub fn attach_payload(size: (u16, u16), flags: u8) -> (r: Vec<u8>)
    ensures
        r@ == le16(size.1) + le16(size.0) + seq![flags],
{
    let mut out = Vec::new();
    push_u16(&mut out, size.1);
    push_u16(&mut out, size.0);
    out.push(flags);
    out
}

/// A terminate request: the wide session identity, generation,
/// incarnation and the force byte.
pub fn terminate_request_payload(
    identity: &[u8],
    generation: u32,
    incarnation: [u8; 16],
    force: bool,
) -> (r: Result<Vec<u8>, WireError>)
    ensures
        r is Ok <==> identity.len() <= WIDE_MAX,
        r matches Ok(v) ==> v@ == wide(identity@) + le32(generation) + incarnation@ + seq![
            if force {
                1u8
            } else {
                0u8
            },
        ],
        r is Err ==> r == Err::<Vec<u8>, WireError>(WireError::OversizedMessage),
{
    let mut out = Vec::new();
    put_wide(&mut out, identity)?;
    push_u32(&mut out, generation);
    push_all(&mut out, &incarnation);
    out.push(if force {
        1
    } else {
        0
    });
    Ok(out)
}

/// The outcome of a log clear: 0 cleared (with a nonzero epoch), 1
/// unavailable, or 2 refused with reason 1 to 3.
pub open spec fn valid_clear_result(outcome: u8, reason: u8, epoch: u32) -> bool {
    (outcome == 0 && reason == 0 && epoch != 0) || (outcome == 1 && reason == 0) || (outcome == 2
        && 1 <= reason <= 3)
}

pub open spec fn spec_clear_result(
    outcome: u8,
    reason: u8,
    epoch: u32,
    prior: u64,
    resulting: u64,
    cleared: u64,
) -> Seq<u8> {
    seq![outcome, reason, 0u8, 0u8] + le32(epoch) + le64(prior) + le64(resulting) + le64(cleared)
}

pub fn log_clear_result_payload(
    outcome: u8,
    reason: u8,
    epoch: u32,
    prior: u64,
    resulting: u64,
    cleared: u64,
) -> (r: Result<Vec<u8>, WireError>)
    ensures
        r is Ok <==> valid_clear_result(outcome, reason, epoch),
        r matches Ok(v) ==> v@ == spec_clear_result(outcome, reason, epoch, prior, resulting, cleared),
        r is Err ==> r == Err::<Vec<u8>, WireError>(WireError::Malformed),
{
    if !((outcome == 0 && reason == 0 && epoch != 0) || (outcome == 1 && reason == 0) || (outcome
        == 2 && 1 <= reason && reason <= 3)) {
        return Err(WireError::Malformed);
    }
    let mut out = Vec::new();
    out.push(outcome);
    out.push(reason);
    out.push(0);
    out.push(0);
    push_u32(&mut out, epoch);
    push_u64(&mut out, prior);
    push_u64(&mut out, resulting);
    push_u64(&mut out, cleared);
    assert(out@ =~= spec_clear_result(outcome, reason, epoch, prior, resulting, cleared));
    Ok(out)
}

/// Decodes a log-clear result into its outcome, reason and prior index.
pub fn decode_log_clear_result(payload: &[u8]) -> (r: Result<(u8, u8, u64), WireError>)
    ensures
        r is Ok <==> payload.len() == 32 && payload@[2] == 0 && payload@[3] == 0
            && valid_clear_result(payload@[0], payload@[1], u32_le(payload@.subrange(4, 8))),
        r matches Ok(v) ==> v == (payload@[0], payload@[1], u64_le(payload@.subrange(8, 16))),
        r is Err ==> r == Err::<(u8, u8, u64), WireError>(WireError::Malformed),
{
    if payload.len() != 32 {
        return Err(WireError::Malformed);
    }
    let (outcome, reason) = (payload[0], payload[1]);
    let epoch = read_u32(payload, 4);
    if payload[2] != 0 || payload[3] != 0 || !((outcome == 0 && reason == 0 && epoch != 0) || (
    outcome == 1 && reason == 0) || (outcome == 2 && 1 <= reason && reason <= 3)) {
        return Err(WireError::Malformed);
    }
    Ok((outcome, reason, read_u64(payload, 8)))
}

/// The receipt the holder gives for one input request.
#[derive(Clone, Copy, Debug)]
pub struct InputReceipt {
    pub epoch: u32,
    pub request: u64,
    pub generation: u32,
    pub incarnation: [u8; 16],
    pub written: u64,
    pub status: u8,
    pub result: u16,
}

impl InputReceipt {
    /// A receipt has nonzero coordinates, and either succeeded (status 0,
    /// result 0) or failed (status 1, result 1 to 20).
    pub open spec fn valid(&self) -> bool {
        self.epoch != 0 && self.request != 0 && self.generation != 0 && nonzero(self.incarnation@)
            && ((self.status == 0 && self.result == 0) || (self.status == 1 && 1 <= self.result
            <= 20))
    }

    pub open spec fn layout(&self) -> Seq<u8> {
        le32(self.epoch) + le64(self.request) + le32(self.generation) + self.incarnation@ + le64(
            self.written,
        ) + seq![self.status] + le16(self.result)
    }

    fn is_valid(&self) -> (r: bool)
        ensures
            r == self.valid(),
    {
        self.epoch != 0 && self.request != 0 && self.generation != 0
            && crate::bytes::any_nonzero(&self.incarnation) && ((self.status == 0 && self.result
            == 0) || (self.status == 1 && 1 <= self.result && self.result <= 20))
    }

    /// The receipt for a request that wrote `written` bytes and failed with
    /// `error`, if any.
    pub fn outcome(
        epoch: u32,
        request: u64,
        generation: u32,
        incarnation: [u8; 16],
        written: u64,
        error: Option<u16>,
    ) -> (r: Self)
        ensures
            r.epoch == epoch && r.request == request && r.generation == generation
                && r.incarnation == incarnation && r.written == written,
            r.status == (if error is Some {
                1u8
            } else {
                0u8
            }),
            r.result == (match error {
                Some(code) => code,
                None => 0u16,
            }),
    {
        InputReceipt {
            epoch,
            request,
            generation,
            incarnation,
            written,
            status: if error.is_some() {
                1
            } else {
                0
            },
            result: match error {
                Some(code) => code,
                None => 0,
            },
        }
    }

    /// The 43-byte encoding of a valid receipt.
    pub fn encode(self) -> (r: Result<Vec<u8>, WireError>)
        ensures
            r is Ok <==> self.valid(),
            r matches Ok(v) ==> v@ == self.layout() && v@.len() == 43,
            r is Err ==> r == Err::<Vec<u8>, WireError>(WireError::Malformed),
    {
        if !self.is_valid() {
            return Err(WireError::Malformed);
        }
        let mut out = Vec::new();
        push_u32(&mut out, self.epoch);
        push_u64(&mut out, self.request);
        push_u32(&mut out, self.generation);
        push_all(&mut out, &self.incarnation);
        push_u64(&mut out, self.written);
        out.push(self.status);
        push_u16(&mut out, self.result);
        Ok(out)
    }

    /// Decodes a 43-byte receipt that is valid.
    pub fn decode(payload: &[u8]) -> (r: Result<Self, WireError>)
        ensures
            r is Ok <==> payload.len() == 43 && exists|x: InputReceipt|
                x.layout() == payload@ && #[trigger] x.valid(),
            r matches Ok(x) ==> x.layout() == payload@ && x.valid(),
            r is Err ==> r == Err::<Self, WireError>(WireError::Malformed),
    {
        if payload.len() != 43 {
            return Err(WireError::Malformed);
        }
        let value = InputReceipt {
            epoch: read_u32(payload, 0),
            request: read_u64(payload, 4),
            generation: read_u32(payload, 12),
            incarnation: crate::bytes::array16(payload, 16),
            written: read_u64(payload, 32),
            status: payload[40],
            result: read_u16(payload, 41),
        };
        proof {
            crate::bytes::lemma_u32_le(payload@.subrange(0, 4));
            crate::bytes::lemma_u64_le(payload@.subrange(4, 12));
            crate::bytes::lemma_u32_le(payload@.subrange(12, 16));
            crate::bytes::lemma_u64_le(payload@.subrange(32, 40));
            crate::bytes::lemma_u16_le(payload@.subrange(41, 43));
            assert(value.layout() =~= payload@);
        }
        if !value.is_valid() {
            proof {
                assert forall|x: InputReceipt| x.layout() == payload@ implies !#[trigger] x.valid() by {
                    lemma_receipt_layout_unique(x, value);
                }
            }
            return Err(WireError::Malformed);
        }
        Ok(value)
    }
}

/// A receipt layout determines every field.
pub proof fn lemma_receipt_layout_unique(a: InputReceipt, b: InputReceipt)
    requires
        a.layout() == b.layout(),
    ensures
        a.epoch == b.epoch && a.request == b.request && a.generation == b.generation
            && a.incarnation@ == b.incarnation@ && a.written == b.written && a.status == b.status
            && a.result == b.result,
{
    let (x, y) = (a.layout(), b.layout());
    crate::bytes::lemma_le32(a.epoch);
    crate::bytes::lemma_le32(b.epoch);
    crate::bytes::lemma_le64(a.request);
    crate::bytes::lemma_le64(b.request);
    crate::bytes::lemma_le32(a.generation);
    crate::bytes::lemma_le32(b.generation);
    crate::bytes::lemma_le64(a.written);
    crate::bytes::lemma_le64(b.written);
    crate::bytes::lemma_le16(a.result);
    crate::bytes::lemma_le16(b.result);
    assert(x.subrange(0, 4) =~= le32(a.epoch));
    assert(y.subrange(0, 4) =~= le32(b.epoch));
    assert(x.subrange(4, 12) =~= le64(a.request));
    assert(y.subrange(4, 12) =~= le64(b.request));
    assert(x.subrange(12, 16) =~= le32(a.generation));
    assert(y.subrange(12, 16) =~= le32(b.generation));
    assert(x.subrange(16, 32) =~= a.incarnation@);
    assert(y.subrange(16, 32) =~= b.incarnation@);
    assert(x.subrange(32, 40) =~= le64(a.written));
    assert(y.subrange(32, 40) =~= le64(b.written));
    assert(x[40] == a.status && y[40] == b.status);
    assert(x.subrange(41, 43) =~= le16(a.result));
    assert(y.subrange(41, 43) =~= le16(b.result));
}

/// Decoding an encoded receipt gives back the receipt.
pub proof fn lemma_receipt_roundtrip(x: InputReceipt)
    requires
        x.valid(),
    ensures
        x.layout().len() == 43,
        forall|y: InputReceipt| #[trigger] y.layout() == x.layout() ==> y.epoch == x.epoch
            && y.request == x.request && y.generation == x.generation && y.incarnation@
            == x.incarnation@ && y.written == x.written && y.status == x.status && y.result
            == x.result,
{
    crate::bytes::lemma_le32(x.epoch);
    crate::bytes::lemma_le64(x.request);
    crate::bytes::lemma_le32(x.generation);
    crate::bytes::lemma_le64(x.written);
    crate::bytes::lemma_le16(x.result);
    assert forall|y: InputReceipt| #[trigger] y.layout() == x.layout() implies y.epoch == x.epoch
        && y.request == x.request && y.generation == x.generation && y.incarnation@
        == x.incarnation@ && y.written == x.written && y.status == x.status && y.result
        == x.result by {
        lemma_receipt_layout_unique(y, x);
    }
}

/// An error payload: code, then the diagnostic as a compact field whose
/// length is taken modulo 2^16.
pub open spec fn spec_error_payload(code: u16, diagnostic: Seq<u8>) -> Seq<u8> {
    le16(code) + le16(diagnostic.len() as u16) + diagnostic
}

pub fn error_payload(code: u16, diagnostic: &[u8]) -> (r: Vec<u8>)
    ensures
        r@ == spec_error_payload(code, diagnostic@),
{
    let mut out = Vec::new();
    push_u16(&mut out, code);
    push_u16(&mut out, diagnostic.len() as u16);
    push_all(&mut out, diagnostic);
    out
}

/// Decodes an error payload: the code, then exactly one compact field.
pub fn decode_error_payload(payload: &[u8]) -> (r: Option<(u16, &[u8])>)
    ensures
        match (if payload@.len() >= 2 {
            spec_get_compact(payload@, 2, true)
        } else {
            None
        }) {
            Some(text) => r matches Some(v) && v.0 == u16_le(payload@.subrange(0, 2)) && v.1@
                == text,
            None => r is None,
        },
{
    if payload.len() < 2 {
        return None;
    }
    let code = read_u16(payload, 0);
    match get_compact(payload, 2, true) {
        Some(text) => Some((code, text)),
        None => None,
    }
}

/// The controller hello: the profile preface, then the wide identity.
pub open spec fn hello_preface() -> Seq<u8> {
    seq![0x4du8, 0x4f, 0x4f, 0x52, 4, 0, 0]
}

pub fn controller_hello(identity: &[u8]) -> (r: Result<Vec<u8>, WireError>)
    ensures
        r is Ok <==> identity.len() <= WIDE_MAX,
        r matches Ok(v) ==> v@ == hello_preface() + wide(identity@),
        r is Err ==> r == Err::<Vec<u8>, WireError>(WireError::OversizedMessage),
{
    let mut out = Vec::new();
    out.push(0x4d);
    out.push(0x4f);
    out.push(0x4f);
    out.push(0x52);
    out.push(4);
    out.push(0);
    out.push(0);
    assert(out@ =~= hello_preface());
    put_wide(&mut out, identity)?;
    Ok(out)
}

/// The holder's hello acknowledgement: accepted byte 4, generation,
/// incarnation, then the wide identity.
pub open spec fn spec_hello_ack(generation: u32, incarnation: Seq<u8>, identity: Seq<u8>) -> Seq<u8> {
    seq![4u8] + le32(generation) + incarnation + wide(identity)
}

pub fn controller_hello_ack(generation: u32, incarnation: [u8; 16], identity: &[u8]) -> (r: Result<
    Vec<u8>,
    WireError,
>)
    ensures
        r is Ok <==> generation != 0 && nonzero(incarnation@) && identity.len() <= WIDE_MAX,
        r matches Ok(v) ==> v@ == spec_hello_ack(generation, incarnation@, identity@),
        !(generation != 0 && nonzero(incarnation@)) ==> r == Err::<Vec<u8>, WireError>(
            WireError::Malformed,
        ),
        generation != 0 && nonzero(incarnation@) && identity.len() > WIDE_MAX ==> r == Err::<
            Vec<u8>,
            WireError,
        >(WireError::OversizedMessage),
{
    if generation == 0 || !crate::bytes::any_nonzero(&incarnation) {
        return Err(WireError::Malformed);
    }
    let mut out = Vec::new();
    out.push(4);
    push_u32(&mut out, generation);
    push_all(&mut out, &incarnation);
    put_wide(&mut out, identity)?;
    Ok(out)
}

/// What a controller accepts as the holder's hello acknowledgement for
/// `identity`, received in `scope`.
pub open spec fn spec_decode_hello_ack(scope: u32, s: Seq<u8>, identity: Seq<u8>) -> Option<
    (u32, Seq<u8>),
> {
    if s.len() < 21 {
        None
    } else {
        let generation = u32_le(s.subrange(1, 5));
        let incarnation = s.subrange(5, 21);
        if nonzero(incarnation) && s[0] == 4 && generation != 0 && scope == generation
            && spec_get_wide(s, 21, true) == Some(identity) {
            Some((generation, incarnation))
        } else {
            None
        }
    }
}

pub fn decode_controller_hello_ack(scope: u32, payload: &[u8], identity: &[u8]) -> (r: Option<
    (u32, [u8; 16]),
>)
    ensures
        match spec_decode_hello_ack(scope, payload@, identity@) {
            Some((generation, incarnation)) => r matches Some(v) && v.0 == generation && v.1@
                == incarnation,
            None => r is None,
        },
{
    if payload.len() < 21 {
        return None;
    }
    let generation = read_u32(payload, 1);
    let incarnation = crate::bytes::array16(payload, 5);
    if !crate::bytes::any_nonzero(&incarnation) || payload[0] != 4 || generation == 0 || scope
        != generation {
        return None;
    }
    match get_wide(payload, 21, true) {
        Some(named) => if crate::bytes::same_bytes(named, identity) {
            Some((generation, incarnation))
        } else {
            None
        },
        None => None,
    }
}

/// A termination result: outcome at most 4, containment bits within the low
/// four, method at most 2, and a diagnostic exactly when the outcome is not
/// a success (0 or 1).
pub open spec fn valid_termination(outcome: u8, containment: u8, method: u8, diagnostic: Seq<u8>) -> bool {
    outcome <= 4 && containment & 0xf0 == 0 && method <= 2 && (diagnostic.len() == 0) == (outcome
        <= 1)
}

fn is_valid_termination(outcome: u8, containment: u8, method: u8, diagnostic: &[u8]) -> (r: bool)
    ensures
        r == valid_termination(outcome, containment, method, diagnostic@),
{
    outcome <= 4 && containment & 0xf0 == 0 && method <= 2 && (diagnostic.len() == 0) == (outcome
        <= 1)
}

pub fn terminate_result_payload(outcome: u8, containment: u8, method: u8, diagnostic: &[u8]) -> (r:
    Result<Vec<u8>, WireError>)
    ensures
        r is Ok <==> valid_termination(outcome, containment, method, diagnostic@)
            && diagnostic.len() <= COMPACT_MAX,
        r matches Ok(v) ==> v@ == seq![outcome, containment, method] + compact(diagnostic@),
        !valid_termination(outcome, containment, method, diagnostic@) ==> r == Err::<
            Vec<u8>,
            WireError,
        >(WireError::Malformed),
        valid_termination(outcome, containment, method, diagnostic@) && diagnostic.len()
            > COMPACT_MAX ==> r == Err::<Vec<u8>, WireError>(WireError::OversizedMessage),
{
    if !is_valid_termination(outcome, containment, method, diagnostic) {
        return Err(WireError::Malformed);
    }
    let mut out = Vec::new();
    out.push(outcome);
    out.push(containment);
    out.push(method);
    put_compact(&mut out, diagnostic)?;
    assert(out@ =~= seq![outcome, containment, method] + compact(diagnostic@));
    Ok(out)
}

/// Decoding a termination result: three header bytes and one compact
/// field that ends the payload; a field announced longer than 4096 bytes is
/// oversized, every other defect malformed.
pub open spec fn spec_decode_terminate(s: Seq<u8>) -> Result<(u8, u8, u8, Seq<u8>), WireError> {
    if s.len() < 5 {
        Err(WireError::Malformed)
    } else {
        let n = u16_le(s.subrange(3, 5)) as int;
        if n > COMPACT_MAX {
            Err(WireError::OversizedMessage)
        } else if 5 + n != s.len() || !valid_termination(s[0], s[1], s[2], s.subrange(5, s.len() as int)) {
            Err(WireError::Malformed)
        } else {
            Ok((s[0], s[1], s[2], s.subrange(5, s.len() as int)))
        }
    }
}

pub fn decode_terminate_result(payload: &[u8]) -> (r: Result<(u8, u8, u8, &[u8]), WireError>)
    ensures
        match spec_decode_terminate(payload@) {
            Ok(v) => r matches Ok(x) && x.0 == v.0 && x.1 == v.1 && x.2 == v.2 && x.3@ == v.3,
            Err(e) => r matches Err(x) && x == e,
        },
{
    if payload.len() < 5 {
        return Err(WireError::Malformed);
    }
    let n = read_u16(payload, 3) as usize;
    if n > COMPACT_MAX {
        return Err(WireError::OversizedMessage);
    }
    if payload.len() - 5 != n {
        return Err(WireError::Malformed);
    }
    let diagnostic = &payload[5..payload.len()];
    if !is_valid_termination(payload[0], payload[1], payload[2], diagnostic) {
        return Err(WireError::Malformed);
    }
    Ok((payload[0], payload[1], payload[2], diagnostic))
}

/// A query the holder delegates to the lease holder's viewer.
#[derive(Clone, Debug)]
pub struct Query {
    pub correlation: u64,
    pub epoch: u32,
    pub class: u8,
    pub bytes: Vec<u8>,
}

pub open spec fn valid_query(correlation: u64, epoch: u32, class: u8, length: nat) -> bool {
    correlation != 0 && epoch != 0 && 1 <= class <= 5 && length <= 4096
}

pub open spec fn query_layout(correlation: u64, epoch: u32, class: u8, bytes: Seq<u8>) -> Seq<u8> {
    le64(correlation) + le32(epoch) + seq![class] + le16(bytes.len() as u16) + bytes
}

impl Query {
    pub fn encode(&self) -> (r: Result<Vec<u8>, WireError>)
        ensures
            r is Ok <==> valid_query(self.correlation, self.epoch, self.class, self.bytes@.len()),
            r matches Ok(v) ==> v@ == query_layout(self.correlation, self.epoch, self.class, self.bytes@),
            r is Err ==> r == Err::<Vec<u8>, WireError>(WireError::Malformed),
    {
        if !(self.correlation != 0 && self.epoch != 0 && 1 <= self.class && self.class <= 5
            && self.bytes.len() <= 4096) {
            return Err(WireError::Malformed);
        }
        let mut out = Vec::new();
        push_u64(&mut out, self.correlation);
        push_u32(&mut out, self.epoch);
        out.push(self.class);
        push_u16(&mut out, self.bytes.len() as u16);
        push_all(&mut out, self.bytes.as_slice());
        Ok(out)
    }
}

/// The query at the front of `s` and where it ends.
pub open spec fn spec_read_query(s: Seq<u8>) -> Option<(u64, u32, u8, Seq<u8>, int)> {
    if s.len() < 15 {
        None
    } else {
        let n = u16_le(s.subrange(13, 15)) as int;
        let correlation = u64_le(s.subrange(0, 8));
        let epoch = u32_le(s.subrange(8, 12));
        if 15 + n <= s.len() && valid_query(correlation, epoch, s[12], n as nat) {
            Some((correlation, epoch, s[12], s.subrange(15, 15 + n), 15 + n))
        } else {
            None
        }
    }
}

pub(crate) fn read_query(payload: &[u8]) -> (r: Result<(u64, u32, u8, &[u8], usize), WireError>)
    ensures
        match spec_read_query(payload@) {
            Some(v) => r matches Ok(x) && x.0 == v.0 && x.1 == v.1 && x.2 == v.2 && x.3@ == v.3
                && x.4 == v.4,
            None => r == Err::<(u64, u32, u8, &[u8], usize), WireError>(WireError::Malformed),
        },
{
    if payload.len() < 15 {
        return Err(WireError::Malformed);
    }
    let correlation = read_u64(payload, 0);
    let epoch = read_u32(payload, 8);
    let class = payload[12];
    let n = read_u16(payload, 13) as usize;
    if payload.len() - 15 < n || !(correlation != 0 && epoch != 0 && 1 <= class && class <= 5
        && n <= 4096) {
        return Err(WireError::Malformed);
    }
    Ok((correlation, epoch, class, &payload[15..15 + n], 15 + n))
}

/// Decodes a payload that is exactly one query.
pub fn decode_query(payload: &[u8]) -> (r: Result<Query, WireError>)
    ensures
        match spec_read_query(payload@) {
            Some(v) => if v.4 == payload@.len() {
                r matches Ok(q) && q.correlation == v.0 && q.epoch == v.1 && q.class == v.2
                    && q.bytes@ == v.3
            } else {
                r == Err::<Query, WireError>(WireError::Malformed)
            },
            None => r == Err::<Query, WireError>(WireError::Malformed),
        },
{
    let (correlation, epoch, class, bytes, end) = read_query(payload)?;
    if end != payload.len() {
        return Err(WireError::Malformed);
    }
    Ok(Query { correlation, epoch, class, bytes: crate::bytes::to_vec(bytes) })
}

/// The liveness beacon the holder broadcasts.
#[derive(Clone, Copy, Debug, PartialEq, Eq, Structural)]
pub struct Heartbeat {
    pub monotonic_ms: u64,
    pub flags: u8,
}

impl Heartbeat {
    pub fn encode(self) -> (r: Result<Vec<u8>, WireError>)
        ensures
            r is Ok <==> self.flags & 0xe0 == 0,
            r matches Ok(v) ==> v@ == le64(self.monotonic_ms) + seq![self.flags],
            r is Err ==> r == Err::<Vec<u8>, WireError>(WireError::Malformed),
    {
        if self.flags & 0xe0 != 0 {
            return Err(WireError::Malformed);
        }
        let mut out = Vec::new();
        push_u64(&mut out, self.monotonic_ms);
        out.push(self.flags);
        Ok(out)
    }

    pub fn decode(bytes: &[u8]) -> (r: Result<Self, WireError>)
        ensures
            r is Ok <==> bytes.len() == 9 && bytes@[8] & 0xe0 == 0,
            r matches Ok(h) ==> h.monotonic_ms == u64_le(bytes@.subrange(0, 8)) && h.flags
                == bytes@[8],
            r is Err ==> r == Err::<Self, WireError>(WireError::Malformed),
    {
        if bytes.len() != 9 || bytes[8] & 0xe0 != 0 {
            return Err(WireError::Malformed);
        }
        Ok(Heartbeat { monotonic_ms: read_u64(bytes, 0), flags: bytes[8] })
    }
}

/// Decoding an encoded heartbeat gives it back.
pub proof fn lemma_heartbeat_roundtrip(h: Heartbeat)
    requires
        h.flags & 0xe0 == 0,
    ensures
        u64_le((le64(h.monotonic_ms) + seq![h.flags]).subrange(0, 8)) == h.monotonic_ms,
        (le64(h.monotonic_ms) + seq![h.flags])[8] == h.flags,
        (le64(h.monotonic_ms) + seq![h.flags]).len() == 9,
{
    crate::bytes::lemma_le64(h.monotonic_ms);
    assert((le64(h.monotonic_ms) + seq![h.flags]).subrange(0, 8) =~= le64(h.monotonic_ms));
}

/// The logging part of a status descriptor.
#[derive(Clone, Copy, Debug, PartialEq, Eq, Structural)]
pub struct StatusExtension {
    pub health: u8,
    pub log_epoch: u32,
    pub log_index: u64,
    pub retained_start: u64,
    pub retained_end: u64,
}

impl StatusExtension {
    pub open spec fn logging(&self) -> bool {
        self.log_epoch != 0 || self.log_index != 0 || self.retained_start != 0 || self.retained_end
            != 0
    }

    /// Health flags in the low four bits and an ordered retained range; with
    /// logging, a nonzero log commit; without it, no log health bit and no
    /// log coordinates.
    pub open spec fn valid(&self, logging: bool) -> bool {
        self.health & 0xf0 == 0 && self.retained_start <= self.retained_end && if logging {
            self.log_epoch != 0 && self.log_index != 0
        } else {
            self.health & 1 == 0 && !self.logging()
        }
    }

    pub open spec fn layout(&self) -> Seq<u8> {
        seq![self.health] + le32(self.log_epoch) + le64(self.log_index) + le64(self.retained_start)
            + le64(self.retained_end)
    }

    pub fn encode(&self, logging: bool) -> (r: Result<Vec<u8>, WireError>)
        ensures
            r is Ok <==> self.valid(logging),
            r matches Ok(v) ==> v@ == self.layout(),
            r is Err ==> r == Err::<Vec<u8>, WireError>(WireError::Malformed),
    {
        let logs = self.log_epoch != 0 || self.log_index != 0 || self.retained_start != 0
            || self.retained_end != 0;
        let valid = self.health & 0xf0 == 0 && self.retained_start <= self.retained_end && if logging {
            self.log_epoch != 0 && self.log_index != 0
        } else {
            self.health & 1 == 0 && !logs
        };
        if !valid {
            return Err(WireError::Malformed);
        }
        let mut out = Vec::new();
        out.push(self.health);
        push_u32(&mut out, self.log_epoch);
        push_u64(&mut out, self.log_index);
        push_u64(&mut out, self.retained_start);
        push_u64(&mut out, self.retained_end);
        Ok(out)
    }
}

/// The replay window a status descriptor announces.
#[derive(Clone, Copy, Debug, PartialEq, Eq, Structural)]
pub struct ReplayDescriptor {
    pub first: u64,
    pub last: u64,
    pub start: u64,
    pub end: u64,
    pub complete: bool,
    pub modes_exact: bool,
}

/// The holder-state tail of a status descriptor.
#[derive(Clone, Copy, Debug, PartialEq, Eq, Structural)]
pub struct StatusTail {
    pub columns: u16,
    pub rows: u16,
    pub replay: ReplayDescriptor,
    pub owns_lease: bool,
    pub viewers: bool,
    pub running: bool,
    pub event_writable: bool,
    pub lease_epoch: u32,
    pub semantic_flags: u8,
    pub semantic_pending: u16,
    pub extension: StatusExtension,
}

pub open spec fn bit(b: bool, value: u8) -> int {
    if b {
        value as int
    } else {
        0
    }
}

fn bit_of(b: bool, value: u8) -> (r: u8)
    ensures
        r == bit(b, value),
{
    if b {
        value
    } else {
        0
    }
}

impl StatusTail {
    /// An empty window has equal offsets; a nonempty one ordered sequences
    /// and offsets; complete means it starts at the first output; the
    /// semantic summary is in range; an owned lease has an epoch; the
    /// geometry is valid.
    pub open spec fn valid(&self) -> bool {
        let r = self.replay;
        &&& ((r.first == 0 && r.last == 0 && r.start == r.end) || (r.first != 0 && r.first <= r.last
            && r.start < r.end))
        &&& r.complete == (r.first <= 1 && r.start == 0)
        &&& self.semantic_flags & 0xf8 == 0
        &&& self.semantic_pending <= 512
        &&& (!self.owns_lease || self.lease_epoch != 0)
        &&& crate::wire::text::spec_valid_size(self.rows, self.columns)
    }

    pub open spec fn flags(&self) -> u8 {
        (bit(self.replay.complete, 1) + bit(self.replay.modes_exact, 2) + bit(self.owns_lease, 16)
            + bit(self.viewers, 32) + bit(self.running, 64) + bit(self.event_writable, 128)) as u8
    }

    pub open spec fn layout(&self) -> Seq<u8> {
        le64(self.replay.first) + le64(self.replay.last) + le64(self.replay.start) + le64(
            self.replay.end,
        ) + seq![self.flags()] + le32(self.lease_epoch) + seq![self.semantic_flags] + le16(
            self.semantic_pending,
        ) + self.extension.layout()
    }

    /// The 69-byte tail of a valid descriptor whose extension is valid.
    pub fn encode(&self) -> (r: Result<Vec<u8>, WireError>)
        ensures
            r is Ok <==> self.valid() && self.extension.valid(self.extension.logging()),
            r matches Ok(v) ==> v@ == self.layout(),
            r is Err ==> r == Err::<Vec<u8>, WireError>(WireError::Malformed),
    {
        let r = self.replay;
        let range = (r.first == 0 && r.last == 0 && r.start == r.end) || (r.first != 0 && r.first
            <= r.last && r.start < r.end);
        let valid = range && r.complete == (r.first <= 1 && r.start == 0) && self.semantic_flags
            & 0xf8 == 0 && self.semantic_pending <= 512 && (!self.owns_lease || self.lease_epoch
            != 0) && valid_size((self.rows, self.columns));
        if !valid {
            return Err(WireError::Malformed);
        }
        let logs = self.extension.log_epoch != 0 || self.extension.log_index != 0
            || self.extension.retained_start != 0 || self.extension.retained_end != 0;
        let extension = self.extension.encode(logs)?;
        let flags: u8 = bit_of(r.complete, 1) + bit_of(r.modes_exact, 2) + bit_of(self.owns_lease, 16)
            + bit_of(self.viewers, 32) + bit_of(self.running, 64) + bit_of(self.event_writable, 128);
        let mut out = Vec::new();
        push_u64(&mut out, r.first);
        push_u64(&mut out, r.last);
        push_u64(&mut out, r.start);
        push_u64(&mut out, r.end);
        out.push(flags);
        push_u32(&mut out, self.lease_epoch);
        out.push(self.semantic_flags);
        push_u16(&mut out, self.semantic_pending);
        push_all(&mut out, extension.as_slice());
        Ok(out)
    }
}

/// Status flags may not set the two reserved bits 2 and 3.
pub fn validate_status_flags(flags: u8) -> (r: Result<(), WireError>)
    ensures
        r is Ok <==> flags & 0x0c == 0,
        r is Err ==> r == Err::<(), WireError>(WireError::Malformed),
{
    require(flags & 0x0c == 0, WireError::Malformed)
}

} // verus!
