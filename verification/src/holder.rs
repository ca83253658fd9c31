//! The holder's decisions around its policy machine: which connections it
//! admits and how it tells their protocol, how messages are routed or
//! refused, the frames that effects and results become, and the heartbeat
//! and status it reports. The runtime performs what these decide.
use crate::bytes::{le64, push_u64};
use crate::session::machine::{EventPosition, OutputRecord, Request, SemanticRefusal};
use crate::session::{LeaseOperation, LeaseRole};
use crate::storage::StorageError;
use crate::store::{Commit, StoreError};
use crate::terminal::Modes;
use crate::wire::text::QueryShape;
use crate::wire::{Profile, WireError};
use vstd::prelude::*;
use vstd::string::StringSliceAdditionalSpecFns;

verus! {

/// A refusal: the error code a controller gets, the one a semantic producer
/// gets, and the diagnostic both get.
pub struct Refusal {
    pub controller: u16,
    pub semantic: u16,
    pub diagnostic: &'static str,
}

pub open spec fn refusal(controller: u16, semantic: u16, diagnostic: &'static str) -> Refusal {
    Refusal { controller, semantic, diagnostic }
}

/// The refusal that answers a protocol error.
pub open spec fn spec_wire_refusal(error: WireError) -> Refusal {
    match error {
        WireError::UnknownVersion => refusal(1, 1, "unknown wire version"),
        WireError::UnknownType => refusal(2, 2, "unknown frame type"),
        WireError::OversizedFrame => refusal(3, 3, "frame payload exceeded its bound"),
        WireError::OversizedMessage => refusal(4, 3, "message payload exceeded its bound"),
        WireError::Malformed => refusal(5, 3, "malformed frame or payload"),
        WireError::BadSequence => refusal(6, 7, "frame sequence was not the expected successor"),
        WireError::ReassemblyAborted => refusal(7, 3, "fragment run changed type or scope"),
        WireError::ReassemblyTimeout => refusal(8, 13, "fragment reassembly deadline exceeded"),
        WireError::ResourceExhausted => refusal(13, 12, "protocol resource exhausted"),
        WireError::GenerationMismatch => refusal(9, 3, "generation did not match"),
    }
}

pub fn wire_refusal(error: WireError) -> (r: Refusal)
    ensures
        r == spec_wire_refusal(error),
{
    match error {
        WireError::UnknownVersion => Refusal { controller: 1, semantic: 1, diagnostic: "unknown wire version" },
        WireError::UnknownType => Refusal { controller: 2, semantic: 2, diagnostic: "unknown frame type" },
        WireError::OversizedFrame => Refusal {
            controller: 3,
            semantic: 3,
            diagnostic: "frame payload exceeded its bound",
        },
        WireError::OversizedMessage => Refusal {
            controller: 4,
            semantic: 3,
            diagnostic: "message payload exceeded its bound",
        },
        WireError::Malformed => Refusal { controller: 5, semantic: 3, diagnostic: "malformed frame or payload" },
        WireError::BadSequence => Refusal {
            controller: 6,
            semantic: 7,
            diagnostic: "frame sequence was not the expected successor",
        },
        WireError::ReassemblyAborted => Refusal {
            controller: 7,
            semantic: 3,
            diagnostic: "fragment run changed type or scope",
        },
        WireError::ReassemblyTimeout => Refusal {
            controller: 8,
            semantic: 13,
            diagnostic: "fragment reassembly deadline exceeded",
        },
        WireError::ResourceExhausted => Refusal {
            controller: 13,
            semantic: 12,
            diagnostic: "protocol resource exhausted",
        },
        WireError::GenerationMismatch => Refusal {
            controller: 9,
            semantic: 3,
            diagnostic: "generation did not match",
        },
    }
}

/// The refusal of a connection whose identity exchange ran past its deadline.
pub fn deadline_refusal() -> (r: Refusal)
    ensures
        r == refusal(12, 13, "identity exchange deadline exceeded"),
{
    Refusal { controller: 12, semantic: 13, diagnostic: "identity exchange deadline exceeded" }
}

/// The refusal of a connection that a tick at `now` found overdue: one done
/// with its identity exchange, and not past a deadline, lost its partial
/// input to the reassembly deadline; any other ran past its identity
/// exchange deadline.
pub open spec fn spec_expiry_refusal(handshake: u64, deadline: u64, now: u64) -> Refusal {
    if handshake == 0 && (deadline == 0 || now < deadline) {
        spec_wire_refusal(WireError::ReassemblyTimeout)
    } else {
        refusal(12, 13, "identity exchange deadline exceeded")
    }
}

pub fn expiry_refusal(handshake: u64, deadline: u64, now: u64) -> (r: Refusal)
    ensures
        r == spec_expiry_refusal(handshake, deadline, now),
{
    if handshake == 0 && (deadline == 0 || now < deadline) {
        wire_refusal(WireError::ReassemblyTimeout)
    } else {
        deadline_refusal()
    }
}

/// The refusal of a connection beyond the limit for its protocol.
pub fn connection_limit_refusal() -> (r: Refusal)
    ensures
        r == refusal(13, 12, "connection limit exhausted"),
{
    Refusal { controller: 13, semantic: 12, diagnostic: "connection limit exhausted" }
}

/// The frame that carries a refusal to a peer of `profile`: an error frame
/// for a controller, a semantic error for a producer.
pub open spec fn refusal_kind(profile: Profile, r: Refusal) -> (u8, u16) {
    match profile {
        Profile::Controller => (0x13u8, r.controller),
        Profile::Semantic => (9u8, r.semantic),
    }
}

pub fn refusal_frame(profile: Profile, r: &Refusal) -> (f: (u8, u16))
    ensures
        f == refusal_kind(profile, *r),
{
    match profile {
        Profile::Controller => (0x13, r.controller),
        Profile::Semantic => (9, r.semantic),
    }
}

/// How many connections may be mid identity exchange at once.
pub const HANDSHAKES: usize = 16;

/// How many identified connections each protocol may hold.
pub const PEERS_PER_PROFILE: usize = 64;

/// How many status or attach descriptors may wait at once.
pub const DESCRIPTOR_LIMIT: usize = 64;

/// How many bytes all connections together may hold in reassembly.
pub const REASSEMBLY_BUDGET: usize = 67108864;

/// A new connection is admitted from the same user while fewer than 16
/// are mid identity exchange and connection ids remain.
pub fn admits_connection(same_user: bool, handshaking: usize, next_peer: u64) -> (r: bool)
    ensures
        r == (same_user && handshaking < HANDSHAKES && next_peer != u64::MAX),
{
    same_user && handshaking < HANDSHAKES && next_peer != u64::MAX
}

/// Where a connection's opening bytes stand: too few to tell, a controller
/// (`MOOR`) or semantic producer (`MOOS`), or neither.
#[derive(Clone, Copy, Debug, PartialEq, Eq, Structural)]
pub enum Preface {
    Wait,
    Open(Profile),
    Close,
}

pub open spec fn spec_preface(s: Seq<u8>) -> Preface {
    if s.len() < 4 {
        Preface::Wait
    } else if s[0] == 0x4d && s[1] == 0x4f && s[2] == 0x4f && s[3] == 0x52 {
        Preface::Open(Profile::Controller)
    } else if s[0] == 0x4d && s[1] == 0x4f && s[2] == 0x4f && s[3] == 0x53 {
        Preface::Open(Profile::Semantic)
    } else {
        Preface::Close
    }
}

pub fn preface(bytes: &[u8]) -> (r: Preface)
    ensures
        r == spec_preface(bytes@),
{
    if bytes.len() < 4 {
        Preface::Wait
    } else if bytes[0] == 0x4d && bytes[1] == 0x4f && bytes[2] == 0x4f && bytes[3] == 0x52 {
        Preface::Open(Profile::Controller)
    } else if bytes[0] == 0x4d && bytes[1] == 0x4f && bytes[2] == 0x4f && bytes[3] == 0x53 {
        Preface::Open(Profile::Semantic)
    } else {
        Preface::Close
    }
}

/// Whether feeding `incoming` bytes would take reassembly past its budget:
/// the total held (`buffered`, of which this connection holds `before`)
/// less this connection's share, plus what its codec would then hold
/// (`projected`, none when that does not fit).
pub open spec fn spec_over_budget(buffered: usize, before: usize, projected: Option<usize>) -> bool {
    match projected {
        None => true,
        Some(next) => before > buffered || buffered - before + next > REASSEMBLY_BUDGET,
    }
}

pub fn over_budget(buffered: usize, before: usize, projected: Option<usize>) -> (r: bool)
    ensures
        r == spec_over_budget(buffered, before, projected),
{
    match projected {
        None => true,
        Some(next) => {
            if before > buffered {
                true
            } else {
                let used = buffered - before;
                next > REASSEMBLY_BUDGET || used > REASSEMBLY_BUDGET - next
            }
        },
    }
}

/// What to do with a message from an identified connection.
pub enum Routing {
    Expired,
    Refused(Refusal),
    Semantic,
    Controller,
}

/// A message past the connection's deadline expires it; a message outside
/// the connection's scope is refused, unless it is the first hello of a
/// controller under no scope or the holder's generation; otherwise it goes
/// to the decoder of the connection's protocol. A producer that has not
/// said hello is told so; anyone else that its scope did not match.
pub open spec fn spec_route(
    time: u64,
    deadline: u64,
    profile: Profile,
    peer_scope: u32,
    handshake: u64,
    registered: bool,
    generation: u32,
    kind: u8,
    scope: u32,
) -> Routing {
    let first_controller = profile == Profile::Controller && !registered && kind == 1 && (scope == 0
        || scope == generation);
    if deadline != 0 && time >= deadline {
        Routing::Expired
    } else if scope != peer_scope && !first_controller {
        if profile == Profile::Semantic && handshake != 0 {
            Routing::Refused(refusal(5, 3, "semantic frame preceded hello"))
        } else {
            Routing::Refused(refusal(9, 5, "generation or source epoch did not match"))
        }
    } else if profile == Profile::Semantic {
        Routing::Semantic
    } else {
        Routing::Controller
    }
}

pub fn route(
    time: u64,
    deadline: u64,
    profile: Profile,
    peer_scope: u32,
    handshake: u64,
    registered: bool,
    generation: u32,
    kind: u8,
    scope: u32,
) -> (r: Routing)
    ensures
        r == spec_route(time, deadline, profile, peer_scope, handshake, registered, generation, kind, scope),
{
    let controller = match profile {
        Profile::Controller => true,
        Profile::Semantic => false,
    };
    let first_controller = controller && !registered && kind == 1 && (scope == 0 || scope == generation);
    if deadline != 0 && time >= deadline {
        Routing::Expired
    } else if scope != peer_scope && !first_controller {
        if !controller && handshake != 0 {
            Routing::Refused(Refusal { controller: 5, semantic: 3, diagnostic: "semantic frame preceded hello" })
        } else {
            Routing::Refused(
                Refusal { controller: 9, semantic: 5, diagnostic: "generation or source epoch did not match" },
            )
        }
    } else if !controller {
        Routing::Semantic
    } else {
        Routing::Controller
    }
}

/// A controller message is malformed while a descriptor for its connection
/// waits, or when its kind is not legal in the connection's phase (a hello
/// is judged later).
pub fn controller_admits(waiting: bool, kind: u8, legal: bool) -> (r: Result<(), WireError>)
    ensures
        r is Ok <==> !waiting && (kind == 1 || legal),
        r is Err ==> r == Err::<(), WireError>(WireError::Malformed),
{
    if waiting || (kind != 1 && !legal) {
        Err(WireError::Malformed)
    } else {
        Ok(())
    }
}

/// Attach and lease requests come with a fresh lease token.
pub fn wants_token(kind: u8) -> (r: bool)
    ensures
        r == (kind == 3 || kind == 0x15),
{
    kind == 3 || kind == 0x15
}

/// A hello under another generation, or naming another session, is refused.
pub open spec fn spec_hello_refusal(scope: u32, generation: u32, identity: Seq<u8>, expected: Seq<u8>) -> Option<
    Refusal,
> {
    if scope != 0 && scope != generation {
        Some(refusal(9, 5, "generation did not match"))
    } else if identity != expected {
        Some(refusal(10, 3, "session identity did not match"))
    } else {
        None
    }
}

pub fn hello_refusal(scope: u32, generation: u32, identity: &[u8], expected: &[u8]) -> (r: Option<Refusal>)
    ensures
        r == spec_hello_refusal(scope, generation, identity@, expected@),
{
    if scope != 0 && scope != generation {
        Some(Refusal { controller: 9, semantic: 5, diagnostic: "generation did not match" })
    } else if !crate::bytes::same_bytes(identity, expected) {
        Some(Refusal { controller: 10, semantic: 3, diagnostic: "session identity did not match" })
    } else {
        None
    }
}

/// Every policy request clears the connection's identity deadline except a
/// viewer resuming its lease, which must still finish attaching in time.
pub open spec fn spec_clears_deadline(request: Request) -> bool {
    !(request matches Request::Lease(lease, _) && lease.operation == LeaseOperation::Resume
        && lease.role == LeaseRole::Viewer)
}

pub fn clears_deadline(request: &Request) -> (r: bool)
    ensures
        r == spec_clears_deadline(*request),
{
    match request {
        Request::Lease(lease, _) => !(match lease.operation {
            LeaseOperation::Resume => match lease.role {
                LeaseRole::Viewer => true,
                _ => false,
            },
            _ => false,
        }),
        _ => true,
    }
}

/// A log clear's answer: outcome, reason and the commit (epoch, index, end)
/// it reached, if any.
pub type ClearAnswer = (u8, u8, Option<(u32, u64, u64)>);

/// A log clear for another incarnation is refused as changed (2, 1).
pub fn foreign_clear() -> (r: ClearAnswer)
    ensures
        r == (2u8, 1u8, None::<(u32, u64, u64)>),
{
    (2, 1, None)
}

/// A log clear that could not be submitted: without a log the log is
/// unchanged (1, 0); a busy log is unavailable (2, 2).
pub fn clear_unsubmitted(error: StorageError) -> (r: ClearAnswer)
    ensures
        error == StorageError::Disabled ==> r == (1u8, 0u8, None::<(u32, u64, u64)>),
        error == StorageError::Busy ==> r == (2u8, 2u8, None::<(u32, u64, u64)>),
{
    match error {
        StorageError::Disabled => (1, 0, None),
        StorageError::Busy => (2, 2, None),
    }
}

/// How a finished log clear ended: the store reached a commit, and either
/// cleared the log or found nothing to clear; or the store refused.
pub enum ClearDone {
    Reached(Commit, bool),
    Failed(StoreError),
    Broken,
}

/// The answer to a finished log clear for a controller that observed
/// index `prior`: cleared (2, 1), unchanged since it looked (1, 0), or
/// changed (0, 0), each with the commit reached; a corrupt store (2, 3); an
/// exhausted one (2, 2). A broken store gets no answer: the connection is
/// dropped.
pub open spec fn spec_clear_answer(done: ClearDone, prior: u64) -> Option<ClearAnswer> {
    match done {
        ClearDone::Reached(c, cleared) => Some(
            (
                if cleared {
                    2u8
                } else if c.index == prior {
                    1u8
                } else {
                    0u8
                },
                if cleared {
                    1u8
                } else {
                    0u8
                },
                Some((c.epoch, c.index, c.end)),
            ),
        ),
        ClearDone::Failed(StoreError::Corrupt) => Some((2u8, 3u8, None)),
        ClearDone::Failed(StoreError::Exhausted) => Some((2u8, 2u8, None)),
        ClearDone::Broken => None,
    }
}

pub fn clear_answer(done: &ClearDone, prior: u64) -> (r: Option<ClearAnswer>)
    ensures
        r == spec_clear_answer(*done, prior),
{
    match done {
        ClearDone::Reached(c, cleared) => {
            let outcome: u8 = if *cleared {
                2
            } else if c.index == prior {
                1
            } else {
                0
            };
            let reason: u8 = if *cleared {
                1
            } else {
                0
            };
            Some((outcome, reason, Some((c.epoch, c.index, c.end))))
        },
        ClearDone::Failed(StoreError::Corrupt) => Some((2, 3, None)),
        ClearDone::Failed(StoreError::Exhausted) => Some((2, 2, None)),
        ClearDone::Broken => None,
    }
}

/// Where a committed semantic event landed: the commit's epoch and the
/// sequence before its end, or two before when the stream ran out and a
/// diagnostic followed; a failed commit or an end too small for that is
/// refused as exhausted.
pub open spec fn spec_semantic_position(committed: Option<(u32, u64)>, terminal: bool) -> Result<
    EventPosition,
    SemanticRefusal,
> {
    let back: u64 = if terminal {
        2
    } else {
        1
    };
    match committed {
        Some((epoch, end)) if end >= back => Ok(EventPosition { epoch, sequence: (end - back) as u64 }),
        _ => Err(SemanticRefusal::ResourceExhausted),
    }
}

pub fn semantic_position(committed: Option<(u32, u64)>, terminal: bool) -> (r: Result<
    EventPosition,
    SemanticRefusal,
>)
    ensures
        r == spec_semantic_position(committed, terminal),
{
    let back: u64 = if terminal {
        2
    } else {
        1
    };
    match committed {
        Some((epoch, end)) => if end >= back {
            Ok(EventPosition { epoch, sequence: end - back })
        } else {
            Err(SemanticRefusal::ResourceExhausted)
        },
        None => Err(SemanticRefusal::ResourceExhausted),
    }
}

/// The heartbeat flags: the child runs (bit 0), the event lane is
/// writable (bit 1), the log lane (bit 2), the lifecycle lane (bit 3), and
/// the scanners are exact (bit 4).
pub open spec fn spec_heartbeat_flags(running: bool, health: u8, exact: bool) -> u8 {
    ((if running { 1int } else { 0 }) + (if health & 2 != 0 { 2int } else { 0 }) + (if health & 1
        != 0 {
        4int
    } else {
        0
    }) + (if health & 4 != 0 { 8int } else { 0 }) + (if exact { 16int } else { 0 })) as u8
}

pub fn heartbeat_flags(running: bool, health: u8, exact: bool) -> (r: u8)
    ensures
        r == spec_heartbeat_flags(running, health, exact),
        r & 0xe0 == 0,
{
    let a: u8 = if running { 1 } else { 0 };
    let b: u8 = if health & 2 != 0 { 2 } else { 0 };
    let c: u8 = if health & 1 != 0 { 4 } else { 0 };
    let d: u8 = if health & 4 != 0 { 8 } else { 0 };
    let e: u8 = if exact { 16 } else { 0 };
    assert((a == 0 || a == 1) && (b == 0 || b == 2) && (c == 0 || c == 4) && (d == 0 || d == 8) && (
    e == 0 || e == 16) ==> (a + b + c + d + e) as u8 & 0xe0 == 0) by (bit_vector);
    a + b + c + d + e
}

/// A heartbeat goes out when the flags changed or five seconds passed.
pub fn heartbeat_due(flags: u8, sent_flags: u8, now: u64, sent_at: u64) -> (r: bool)
    ensures
        r == (flags != sent_flags || now >= (if sent_at > u64::MAX - 5000 {
            u64::MAX
        } else {
            (sent_at + 5000) as u64
        })),
{
    flags != sent_flags || now >= sent_at.saturating_add(5000)
}

/// The health byte of a status extension: log lane writable (bit 0),
/// lifecycle lane writable (bit 1), scanners exact (bit 2), a query may be
/// delegated (bit 3).
pub open spec fn spec_status_health(health: u8, exact: bool, query_available: bool) -> u8 {
    ((if health & 1 != 0 { 1int } else { 0 }) + (if health & 4 != 0 { 2int } else { 0 }) + (if exact {
        4int
    } else {
        0
    }) + (if query_available { 8int } else { 0 })) as u8
}

pub fn status_health(health: u8, exact: bool, query_available: bool) -> (r: u8)
    ensures
        r == spec_status_health(health, exact, query_available),
        r & 0xf0 == 0,
{
    let a: u8 = if health & 1 != 0 { 1 } else { 0 };
    let b: u8 = if health & 4 != 0 { 2 } else { 0 };
    let c: u8 = if exact { 4 } else { 0 };
    let d: u8 = if query_available { 8 } else { 0 };
    assert((a == 0 || a == 1) && (b == 0 || b == 2) && (c == 0 || c == 4) && (d == 0 || d == 8)
        ==> (a + b + c + d) as u8 & 0xf0 == 0) by (bit_vector);
    a + b + c + d
}

/// The payload of an output frame: sequence, offset, then the bytes.
pub open spec fn output_layout(sequence: u64, offset: u64, bytes: Seq<u8>) -> Seq<u8> {
    le64(sequence) + le64(offset) + bytes
}

pub fn output_payload(record: &OutputRecord) -> (r: Vec<u8>)
    ensures
        r@ == output_layout(record.sequence, record.offset, record.bytes@),
{
    let mut out: Vec<u8> = Vec::new();
    push_u64(&mut out, record.sequence);
    push_u64(&mut out, record.offset);
    crate::bytes::push_all(&mut out, record.bytes.as_slice());
    out
}

/// The payload of a gap notice: output from the first record up to `lost`
/// is gone.
pub fn gap_payload(lost: u64) -> (r: Vec<u8>)
    ensures
        r@ == le64(1) + le64(lost),
{
    let mut out: Vec<u8> = Vec::new();
    push_u64(&mut out, 1);
    push_u64(&mut out, lost);
    out
}

/// How much of a frame counts as terminal output for a connection's send
/// budget: an output frame to a controller, less its 16-byte header.
pub fn output_credit(controller: bool, kind: u8, length: usize) -> (r: usize)
    ensures
        r == (if controller && kind == 6 && length >= 16 {
            (length - 16) as usize
        } else {
            0usize
        }),
{
    if controller && kind == 6 && length >= 16 {
        length - 16
    } else {
        0
    }
}

/// The terminal state an attaching viewer gets: the modes preamble (none
/// for a child that is not a VT, or when the modes are not known), led by
/// its length.
pub open spec fn terminal_state(preamble: Option<Seq<u8>>, non_vt: bool) -> Seq<u8> {
    let state = if non_vt {
        Seq::empty()
    } else {
        match preamble {
            Some(p) => p,
            None => Seq::empty(),
        }
    };
    crate::bytes::le16(state.len() as u16) + state
}

pub fn attach_state(modes: &Modes, non_vt: bool) -> (r: Vec<u8>)
    ensures
        r@ == terminal_state(
            if modes.spec_inexact() {
                None
            } else {
                Some(modes.preamble_text())
            },
            non_vt,
        ),
{
    let state: Vec<u8> = if non_vt {
        Vec::new()
    } else {
        match modes.preamble() {
            Some(p) => p,
            None => Vec::new(),
        }
    };
    let mut out: Vec<u8> = Vec::new();
    crate::bytes::push_u16(&mut out, state.len() as u16);
    crate::bytes::push_all(&mut out, state.as_slice());
    out
}

/// The replies the holder gives itself to the primary, secondary and
/// version queries when no viewer answers, in 7-bit and 8-bit form.
pub open spec fn canned_reply(class: u8, csi8: bool) -> Seq<u8> {
    if class == 1 {
        if csi8 {
            seq![0x9bu8] + "?62;4c".spec_bytes()
        } else {
            "\x1b[?62;4c".spec_bytes()
        }
    } else if class == 2 {
        if csi8 {
            seq![0x9bu8] + ">1;47;0c".spec_bytes()
        } else {
            "\x1b[>1;47;0c".spec_bytes()
        }
    } else if csi8 {
        seq![0x90u8] + ">|kitty(0.47.0)".spec_bytes() + seq![0x9cu8]
    } else {
        "\x1bP>|kitty(0.47.0)\x1b\\".spec_bytes()
    }
}

/// The fallback reply to a query the child asked: none unless synthetic
/// replies are on (bit 0); a private mode report from the tracked modes; the
/// canned replies for classes 1 to 3 only when those are on too (bit 1).
pub open spec fn spec_synthetic_reply(synthetic: u8, class: u8, shape: QueryShape, modes: Modes) -> Option<
    Seq<u8>,
> {
    if synthetic & 1 == 0 {
        None
    } else if class == 4 {
        match shape.mode {
            Some(mode) => if modes.spec_inexact() {
                None
            } else {
                Some(
                    (if shape.csi8 {
                        seq![0x9bu8]
                    } else {
                        seq![0x1bu8, 0x5bu8]
                    }) + seq![0x3fu8] + crate::events::decimal_text(mode as nat) + seq![0x3bu8]
                        + crate::events::decimal_text(modes.query_state(mode) as nat) + seq![
                        0x24u8,
                        0x79u8,
                    ],
                )
            },
            None => None,
        }
    } else if synthetic & 2 == 0 || class == 0 || class > 3 {
        None
    } else {
        Some(canned_reply(class, shape.csi8))
    }
}

fn push_text(out: &mut Vec<u8>, s: &str)
    ensures
        final(out)@ == old(out)@ + s.spec_bytes(),
{
    crate::bytes::push_all(out, s.as_bytes());
}

pub fn synthetic_reply(synthetic: u8, class: u8, shape: QueryShape, modes: &Modes) -> (r: Option<Vec<u8>>)
    ensures
        match spec_synthetic_reply(synthetic, class, shape, *modes) {
            Some(v) => r matches Some(x) && x@ == v,
            None => r is None,
        },
{
    if synthetic & 1 == 0 {
        return None;
    }
    if class == 4 {
        return match shape.mode {
            Some(mode) => modes.query(mode, shape.csi8),
            None => None,
        };
    }
    if synthetic & 2 == 0 || class == 0 || class > 3 {
        return None;
    }
    let mut out: Vec<u8> = Vec::new();
    if class == 1 {
        if shape.csi8 {
            out.push(0x9b);
            push_text(&mut out, "?62;4c");
        } else {
            push_text(&mut out, "\x1b[?62;4c");
        }
    } else if class == 2 {
        if shape.csi8 {
            out.push(0x9b);
            push_text(&mut out, ">1;47;0c");
        } else {
            push_text(&mut out, "\x1b[>1;47;0c");
        }
    } else if shape.csi8 {
        out.push(0x90);
        push_text(&mut out, ">|kitty(0.47.0)");
        out.push(0x9c);
    } else {
        push_text(&mut out, "\x1bP>|kitty(0.47.0)\x1b\\");
    }
    proof {
        assert(out@ =~= canned_reply(class, shape.csi8));
    }
    Some(out)
}

/// When a waiting descriptor expires: the connection's own deadline while
/// it is still identifying, else two seconds from now.
pub fn descriptor_deadline(now: u64, peer_deadline: Option<u64>) -> (r: u64)
    ensures
        r == match peer_deadline {
            Some(d) if d != 0 => d,
            _ => if now > u64::MAX - 2000 {
                u64::MAX
            } else {
                (now + 2000) as u64
            },
        },
{
    match peer_deadline {
        Some(d) if d != 0 => d,
        _ => now.saturating_add(2000),
    }
}

/// How long output may drain after the child exits: ten seconds from when
/// termination started, else two seconds from now.
pub fn drain_deadline(now: u64, termination_started: Option<u64>) -> (r: u64)
    ensures
        r == match termination_started {
            Some(s) => if s > u64::MAX - 10000 {
                u64::MAX
            } else {
                (s + 10000) as u64
            },
            None => if now > u64::MAX - 2000 {
                u64::MAX
            } else {
                (now + 2000) as u64
            },
        },
{
    match termination_started {
        Some(s) => s.saturating_add(10000),
        None => now.saturating_add(2000),
    }
}

/// How the child ended.
#[derive(Clone, Copy, Debug, PartialEq, Eq, Structural)]
pub enum NativeExit {
    Code(u32),
    Signal(u32),
}

/// The exit status the holder reports and the recorded outcome: a code
/// ends the holder with it (as a signed value), recorded as terminated with
/// its method when a termination was applied, else as exited; a signal ends
/// it with 1, recorded as signalled.
pub open spec fn spec_exit_outcome(status: NativeExit, termination: Option<bool>) -> (i32, (
    &'static str,
    &'static str,
    u64,
    Option<&'static str>,
)) {
    match status {
        NativeExit::Code(code) => match termination {
            Some(forced) => (
                code as i32,
                ("terminated", "code", code as u64, Some(if forced { "forced" } else { "graceful" })),
            ),
            None => (code as i32, ("exited", "code", code as u64, None)),
        },
        NativeExit::Signal(signal) => (1i32, ("signalled", "signal", signal as u64, None)),
    }
}

pub fn exit_outcome(status: NativeExit, termination: Option<bool>) -> (r: (
    i32,
    (&'static str, &'static str, u64, Option<&'static str>),
))
    ensures
        r == spec_exit_outcome(status, termination),
{
    match status {
        NativeExit::Code(code) => match termination {
            Some(forced) => (
                code as i32,
                ("terminated", "code", code as u64, Some(if forced { "forced" } else { "graceful" })),
            ),
            None => (code as i32, ("exited", "code", code as u64, None)),
        },
        NativeExit::Signal(signal) => (1, ("signalled", "signal", signal as u64, None)),
    }
}

} // verus!
