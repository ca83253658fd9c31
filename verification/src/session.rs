//! Session policy: the input lease, phases of a controller, the semantic
//! source registry and the holder's policy machine.
use crate::bytes::{le32, nonzero, push_all, push_u32, read_u32, u32_le};
use crate::wire::WireError;
use vstd::prelude::*;

pub mod machine;

pub use self::machine::{
    ApplicationInput, ApplicationReceipt, Completion, Effect, EventPosition, InputNotice,
    InputNoticeAck, Machine, MissingReason, OutputRecord, OwnedInput, PolicyStatus, ReceiptProjection, Reply,
    Request, SemanticAck, SemanticAckStatus, SemanticChange, SemanticEffect, SemanticEvent,
    SemanticEventKind, SemanticHello, SemanticHelloAck, SemanticMode, SemanticRefusal, SourceEffect,
    SourceReason, SourceStatus, Transition, next_semantic_sequence,
};

verus! {

pub type ConnId = u64;

#[derive(Clone, Copy, Debug, PartialEq, Eq, Structural)]
pub enum LeaseOperation {
    Fresh,
    Resume,
}

#[derive(Clone, Copy, Debug, PartialEq, Eq, Structural)]
pub enum LeaseRole {
    Viewer,
    InputOnly,
}

#[derive(Clone, Copy, Debug, PartialEq, Eq, Structural)]
pub enum ResultOutcome {
    Granted,
    Resumed,
    Released,
    Refused,
}

#[derive(Clone, Copy, Debug, PartialEq, Eq, Structural)]
pub enum ResultReason {
    NoReason,
    Busy,
    BadEpoch,
    BadToken,
    BadRole,
    NotHeld,
    Exhausted,
    BadIncarnation,
    BadSequence,
}

pub open spec fn operation_ordinal(o: LeaseOperation) -> u8 {
    match o {
        LeaseOperation::Fresh => 0,
        LeaseOperation::Resume => 1,
    }
}

pub open spec fn role_ordinal(r: LeaseRole) -> u8 {
    match r {
        LeaseRole::Viewer => 0,
        LeaseRole::InputOnly => 1,
    }
}

pub open spec fn outcome_ordinal(o: ResultOutcome) -> u8 {
    match o {
        ResultOutcome::Granted => 0,
        ResultOutcome::Resumed => 1,
        ResultOutcome::Released => 2,
        ResultOutcome::Refused => 3,
    }
}

pub open spec fn reason_ordinal(r: ResultReason) -> u8 {
    match r {
        ResultReason::NoReason => 0,
        ResultReason::Busy => 1,
        ResultReason::BadEpoch => 2,
        ResultReason::BadToken => 3,
        ResultReason::BadRole => 4,
        ResultReason::NotHeld => 5,
        ResultReason::Exhausted => 6,
        ResultReason::BadIncarnation => 7,
        ResultReason::BadSequence => 8,
    }
}

pub fn operation_from(value: u8) -> (r: LeaseOperation)
    requires
        value <= 1,
    ensures
        operation_ordinal(r) == value,
{
    if value == 0 {
        LeaseOperation::Fresh
    } else {
        LeaseOperation::Resume
    }
}

pub fn role_from(value: u8) -> (r: LeaseRole)
    requires
        value <= 1,
    ensures
        role_ordinal(r) == value,
{
    if value == 0 {
        LeaseRole::Viewer
    } else {
        LeaseRole::InputOnly
    }
}

fn outcome_from(value: u8) -> (r: ResultOutcome)
    requires
        value <= 3,
    ensures
        outcome_ordinal(r) == value,
{
    if value == 0 {
        ResultOutcome::Granted
    } else if value == 1 {
        ResultOutcome::Resumed
    } else if value == 2 {
        ResultOutcome::Released
    } else {
        ResultOutcome::Refused
    }
}

fn reason_from(value: u8) -> (r: ResultReason)
    requires
        value <= 8,
    ensures
        reason_ordinal(r) == value,
{
    if value == 0 {
        ResultReason::NoReason
    } else if value == 1 {
        ResultReason::Busy
    } else if value == 2 {
        ResultReason::BadEpoch
    } else if value == 3 {
        ResultReason::BadToken
    } else if value == 4 {
        ResultReason::BadRole
    } else if value == 5 {
        ResultReason::NotHeld
    } else if value == 6 {
        ResultReason::Exhausted
    } else if value == 7 {
        ResultReason::BadIncarnation
    } else {
        ResultReason::BadSequence
    }
}

pub fn role_ord(r: LeaseRole) -> (v: u8)
    ensures
        v == role_ordinal(r),
{
    match r {
        LeaseRole::Viewer => 0,
        LeaseRole::InputOnly => 1,
    }
}

pub fn operation_ord(o: LeaseOperation) -> (v: u8)
    ensures
        v == operation_ordinal(o),
{
    match o {
        LeaseOperation::Fresh => 0,
        LeaseOperation::Resume => 1,
    }
}

pub fn reason_ord(r: ResultReason) -> (v: u8)
    ensures
        v == reason_ordinal(r),
{
    match r {
        ResultReason::NoReason => 0,
        ResultReason::Busy => 1,
        ResultReason::BadEpoch => 2,
        ResultReason::BadToken => 3,
        ResultReason::BadRole => 4,
        ResultReason::NotHeld => 5,
        ResultReason::Exhausted => 6,
        ResultReason::BadIncarnation => 7,
        ResultReason::BadSequence => 8,
    }
}

/// Whether two identifiers are equal.
pub fn same16(a: &[u8; 16], b: &[u8; 16]) -> (r: bool)
    ensures
        r == (a@ == b@),
{
    crate::bytes::same_bytes(a.as_slice(), b.as_slice())
}

/// Whether an identifier has a nonzero byte.
pub fn nonzero16(a: &[u8; 16]) -> (r: bool)
    ensures
        r == nonzero(a@),
{
    crate::bytes::any_nonzero(a.as_slice())
}

/// A request for the input lease.
#[derive(Clone, Copy, Debug)]
pub struct LeaseRequest {
    pub operation: LeaseOperation,
    pub role: LeaseRole,
    pub epoch: u32,
    pub incarnation: [u8; 16],
    pub token: [u8; 16],
}

impl LeaseRequest {
    /// A fresh request carries no epoch, incarnation or token; a resume
    /// carries all three.
    pub open spec fn valid_wire(&self) -> bool {
        let resume = self.operation == LeaseOperation::Resume;
        (self.epoch != 0) == resume && nonzero(self.incarnation@) == resume && nonzero(self.token@)
            == resume
    }

    pub open spec fn layout(&self) -> Seq<u8> {
        seq![operation_ordinal(self.operation), role_ordinal(self.role), 0u8, 0u8] + le32(
            self.epoch,
        ) + self.incarnation@ + self.token@
    }

    fn is_valid_wire(&self) -> (r: bool)
        ensures
            r == self.valid_wire(),
    {
        let resume = match self.operation {
            LeaseOperation::Resume => true,
            LeaseOperation::Fresh => false,
        };
        (self.epoch != 0) == resume && nonzero16(&self.incarnation) == resume && nonzero16(
            &self.token,
        ) == resume
    }

    /// A fresh request for `role`.
    pub fn fresh(role: LeaseRole) -> (r: Self)
        ensures
            r.operation == LeaseOperation::Fresh && r.role == role && r.epoch == 0,
            r.incarnation@ == seq![0u8; 16] && r.token@ == seq![0u8; 16],
    {
        let r = LeaseRequest {
            operation: LeaseOperation::Fresh,
            role,
            epoch: 0,
            incarnation: [0u8; 16],
            token: [0u8; 16],
        };
        assert(r.incarnation@ =~= seq![0u8; 16]);
        r
    }

    /// The 40-byte request.
    pub fn encode_wire(&self) -> (r: Result<Vec<u8>, WireError>)
        ensures
            r is Ok <==> self.valid_wire(),
            r matches Ok(v) ==> v@ == self.layout(),
            r is Err ==> r == Err::<Vec<u8>, WireError>(WireError::Malformed),
    {
        if !self.is_valid_wire() {
            return Err(WireError::Malformed);
        }
        let mut out = Vec::new();
        out.push(operation_ord(self.operation));
        out.push(role_ord(self.role));
        out.push(0);
        out.push(0);
        push_u32(&mut out, self.epoch);
        push_all(&mut out, &self.incarnation);
        push_all(&mut out, &self.token);
        Ok(out)
    }

    /// Decodes a 40-byte request with known operation and role bytes, zero
    /// reserved bytes, and a valid combination of fields.
    pub fn decode_wire(bytes: &[u8]) -> (r: Result<Self, WireError>)
        ensures
            r matches Ok(v) ==> v.layout() == bytes@ && v.valid_wire(),
            r is Err ==> r == Err::<Self, WireError>(WireError::Malformed),
            (bytes.len() != 40 || bytes@[0] > 1 || bytes@[1] > 1 || bytes@[2] != 0 || bytes@[3] != 0)
                ==> r is Err,
            forall|x: LeaseRequest| x.layout() == bytes@ && #[trigger] x.valid_wire() ==> r is Ok,
    {
        if bytes.len() != 40 || bytes[0] > 1 || bytes[1] > 1 || bytes[2] != 0 || bytes[3] != 0 {
            proof {
                assert forall|x: LeaseRequest| x.layout() == bytes@ implies !#[trigger] x.valid_wire() by {
                    assert(x.layout().len() == 40);
                    assert(x.layout()[0] <= 1 && x.layout()[1] <= 1 && x.layout()[2] == 0 && x.layout()[3] == 0);
                }
            }
            return Err(WireError::Malformed);
        }
        let value = LeaseRequest {
            operation: operation_from(bytes[0]),
            role: role_from(bytes[1]),
            epoch: read_u32(bytes, 4),
            incarnation: crate::bytes::array16(bytes, 8),
            token: crate::bytes::array16(bytes, 24),
        };
        proof {
            crate::bytes::lemma_u32_le(bytes@.subrange(4, 8));
            assert(value.layout() =~= bytes@);
        }
        if !value.is_valid_wire() {
            proof {
                assert forall|x: LeaseRequest| x.layout() == bytes@ implies !#[trigger] x.valid_wire() by {
                    lemma_request_layout_unique(x, value);
                }
            }
            return Err(WireError::Malformed);
        }
        Ok(value)
    }
}

/// The holder's answer to a lease request.
#[derive(Clone, Copy, Debug)]
pub struct LeaseResult {
    pub outcome: ResultOutcome,
    pub reason: ResultReason,
    pub role: LeaseRole,
    pub epoch: u32,
    pub token: [u8; 16],
}

impl LeaseResult {
    /// A grant or resume names the epoch and a nonzero token; a release
    /// names the epoch and no token; a refusal gives a reason from 1 to 7
    /// and no token.
    pub open spec fn valid_wire(&self) -> bool {
        let common = self.reason == ResultReason::NoReason && self.epoch != 0;
        match self.outcome {
            ResultOutcome::Granted | ResultOutcome::Resumed => common && nonzero(self.token@),
            ResultOutcome::Released => common && !nonzero(self.token@),
            ResultOutcome::Refused => 1 <= reason_ordinal(self.reason) <= 7 && !nonzero(
                self.token@,
            ),
        }
    }

    pub open spec fn layout(&self) -> Seq<u8> {
        seq![outcome_ordinal(self.outcome), reason_ordinal(self.reason), role_ordinal(self.role), 0u8]
            + le32(self.epoch) + self.token@
    }

    fn is_valid_wire(&self) -> (r: bool)
        ensures
            r == self.valid_wire(),
    {
        let common = match self.reason {
            ResultReason::NoReason => self.epoch != 0,
            _ => false,
        };
        match self.outcome {
            ResultOutcome::Granted | ResultOutcome::Resumed => common && nonzero16(&self.token),
            ResultOutcome::Released => common && !nonzero16(&self.token),
            ResultOutcome::Refused => {
                let reason = reason_ord(self.reason);
                1 <= reason && reason <= 7 && !nonzero16(&self.token)
            },
        }
    }

    /// The 24-byte result.
    pub fn encode_wire(&self) -> (r: Result<Vec<u8>, WireError>)
        ensures
            r is Ok <==> self.valid_wire(),
            r matches Ok(v) ==> v@ == self.layout(),
            r is Err ==> r == Err::<Vec<u8>, WireError>(WireError::Malformed),
    {
        if !self.is_valid_wire() {
            return Err(WireError::Malformed);
        }
        let mut out = Vec::new();
        out.push(match self.outcome {
            ResultOutcome::Granted => 0,
            ResultOutcome::Resumed => 1,
            ResultOutcome::Released => 2,
            ResultOutcome::Refused => 3,
        });
        out.push(reason_ord(self.reason));
        out.push(role_ord(self.role));
        out.push(0);
        push_u32(&mut out, self.epoch);
        push_all(&mut out, &self.token);
        Ok(out)
    }

    /// Decodes a 24-byte result with known ordinals and a valid combination.
    pub fn decode_wire(bytes: &[u8]) -> (r: Result<Self, WireError>)
        ensures
            r matches Ok(v) ==> v.layout() == bytes@ && v.valid_wire(),
            r is Err ==> r == Err::<Self, WireError>(WireError::Malformed),
            (bytes.len() != 24 || bytes@[0] > 3 || bytes@[1] > 8 || bytes@[2] > 1 || bytes@[3] != 0)
                ==> r is Err,
            forall|x: LeaseResult| x.layout() == bytes@ && #[trigger] x.valid_wire() ==> r is Ok,
    {
        if bytes.len() != 24 || bytes[0] > 3 || bytes[1] > 8 || bytes[2] > 1 || bytes[3] != 0 {
            proof {
                assert forall|x: LeaseResult| x.layout() == bytes@ implies !#[trigger] x.valid_wire() by {
                    assert(x.layout().len() == 24);
                    assert(x.layout()[0] <= 3 && x.layout()[1] <= 8 && x.layout()[2] <= 1 && x.layout()[3] == 0);
                }
            }
            return Err(WireError::Malformed);
        }
        let value = LeaseResult {
            outcome: outcome_from(bytes[0]),
            reason: reason_from(bytes[1]),
            role: role_from(bytes[2]),
            epoch: read_u32(bytes, 4),
            token: crate::bytes::array16(bytes, 8),
        };
        proof {
            crate::bytes::lemma_u32_le(bytes@.subrange(4, 8));
            assert(value.layout() =~= bytes@);
        }
        if !value.is_valid_wire() {
            proof {
                assert forall|x: LeaseResult| x.layout() == bytes@ implies !#[trigger] x.valid_wire() by {
                    lemma_result_layout_unique(x, value);
                }
            }
            return Err(WireError::Malformed);
        }
        Ok(value)
    }
}

/// A result layout determines every field.
pub proof fn lemma_result_layout_unique(a: LeaseResult, b: LeaseResult)
    requires
        a.layout() == b.layout(),
    ensures
        a.outcome == b.outcome && a.reason == b.reason && a.role == b.role && a.epoch == b.epoch
            && a.token@ == b.token@,
{
    let (x, y) = (a.layout(), b.layout());
    crate::bytes::lemma_le32(a.epoch);
    crate::bytes::lemma_le32(b.epoch);
    assert(x[0] == y[0] && x[1] == y[1] && x[2] == y[2]);
    assert(x.subrange(4, 8) =~= le32(a.epoch));
    assert(y.subrange(4, 8) =~= le32(b.epoch));
    assert(x.subrange(8, 24) =~= a.token@);
    assert(y.subrange(8, 24) =~= b.token@);
}

/// A request layout determines every field.
pub proof fn lemma_request_layout_unique(a: LeaseRequest, b: LeaseRequest)
    requires
        a.layout() == b.layout(),
    ensures
        a.operation == b.operation && a.role == b.role && a.epoch == b.epoch && a.incarnation@
            == b.incarnation@ && a.token@ == b.token@,
{
    let (x, y) = (a.layout(), b.layout());
    crate::bytes::lemma_le32(a.epoch);
    crate::bytes::lemma_le32(b.epoch);
    assert(x[0] == y[0] && x[1] == y[1]);
    assert(x.subrange(4, 8) =~= le32(a.epoch));
    assert(y.subrange(4, 8) =~= le32(b.epoch));
    assert(x.subrange(8, 24) =~= a.incarnation@);
    assert(y.subrange(8, 24) =~= b.incarnation@);
    assert(x.subrange(24, 40) =~= a.token@);
    assert(y.subrange(24, 40) =~= b.token@);
}

/// The phase of a controller connection.
#[derive(Clone, Copy, Debug, PartialEq, Eq, Structural)]
pub enum Phase {
    Unattached,
    InputOnly,
    Resumed,
    Observer,
    Viewer,
    Closing,
}

/// The message kinds a controller may send in each phase.
pub open spec fn spec_legal_in_phase(phase: Phase, kind: u8) -> bool {
    match phase {
        Phase::Unattached => kind == 3 || kind == 13 || kind == 15 || kind == 21 || kind == 25,
        Phase::InputOnly => kind == 9 || kind == 23 || kind == 24,
        Phase::Resumed => kind == 3 || kind == 23 || kind == 24,
        Phase::Observer => kind == 7 || kind == 13 || kind == 15 || kind == 21 || kind == 25,
        Phase::Viewer => kind == 7 || kind == 9 || kind == 11 || kind == 12 || kind == 13 || kind
            == 15 || kind == 23 || kind == 24 || kind == 25,
        Phase::Closing => false,
    }
}

pub fn legal_in_phase(phase: Phase, kind: u8) -> (r: bool)
    ensures
        r == spec_legal_in_phase(phase, kind),
{
    match phase {
        Phase::Unattached => kind == 3 || kind == 13 || kind == 15 || kind == 21 || kind == 25,
        Phase::InputOnly => kind == 9 || kind == 23 || kind == 24,
        Phase::Resumed => kind == 3 || kind == 23 || kind == 24,
        Phase::Observer => kind == 7 || kind == 13 || kind == 15 || kind == 21 || kind == 25,
        Phase::Viewer => kind == 7 || kind == 9 || kind == 11 || kind == 12 || kind == 13 || kind
            == 15 || kind == 23 || kind == 24 || kind == 25,
        Phase::Closing => false,
    }
}

/// The phase a controller enters by an attach (3), lease (0x15, with the
/// operation in bit 0 and the role in bit 1 of `flags`) or release (0x17).
pub open spec fn spec_next_phase(phase: Phase, action: u8, flags: u8) -> Option<Phase> {
    if phase == Phase::Unattached && action == 3 && flags == 3 {
        Some(Phase::Viewer)
    } else if phase == Phase::Unattached && action == 3 {
        Some(Phase::Observer)
    } else if phase == Phase::Resumed && action == 3 {
        Some(Phase::Viewer)
    } else if phase == Phase::Unattached && action == 0x15 && (flags == 2 || flags == 3) {
        Some(Phase::InputOnly)
    } else if phase == Phase::Unattached && action == 0x15 && flags == 1 {
        Some(Phase::Resumed)
    } else if phase == Phase::Observer && action == 0x15 && flags == 0 {
        Some(Phase::Viewer)
    } else if phase == Phase::Viewer && action == 0x17 {
        Some(Phase::Observer)
    } else if (phase == Phase::InputOnly || phase == Phase::Resumed) && action == 0x17 {
        Some(Phase::Unattached)
    } else {
        None
    }
}

pub fn next_phase(phase: Phase, action: u8, flags: u8) -> (r: Option<Phase>)
    ensures
        r == spec_next_phase(phase, action, flags),
{
    match phase {
        Phase::Unattached => if action == 3 && flags == 3 {
            Some(Phase::Viewer)
        } else if action == 3 {
            Some(Phase::Observer)
        } else if action == 0x15 && (flags == 2 || flags == 3) {
            Some(Phase::InputOnly)
        } else if action == 0x15 && flags == 1 {
            Some(Phase::Resumed)
        } else {
            None
        },
        Phase::Resumed => if action == 3 {
            Some(Phase::Viewer)
        } else if action == 0x17 {
            Some(Phase::Unattached)
        } else {
            None
        },
        Phase::Observer => if action == 0x15 && flags == 0 {
            Some(Phase::Viewer)
        } else {
            None
        },
        Phase::Viewer => if action == 0x17 {
            Some(Phase::Observer)
        } else {
            None
        },
        Phase::InputOnly => if action == 0x17 {
            Some(Phase::Unattached)
        } else {
            None
        },
        Phase::Closing => None,
    }
}

/// A ticket naming a pending storage or terminal operation; zero names
/// none.
#[derive(Clone, Copy, Debug, PartialEq, Eq, Hash, Structural)]
pub struct Ticket(pub(crate) u64);

pub type CommitTicket = Ticket;

pub type WriteTicket = Ticket;

impl Ticket {
    /// The number the ticket carries.
    pub closed spec fn value(self) -> u64 {
        self.0
    }

    pub fn get(self) -> (r: u64)
        ensures
            r == self.value(),
    {
        self.0
    }

    /// The ticket a lane reports back as a plain number, if it is one.
    pub fn from_raw(value: u64) -> (r: Option<Self>)
        ensures
            value == 0 ==> r is None,
            value != 0 ==> (r matches Some(t) && t.value() == value),
    {
        if value == 0 {
            None
        } else {
            Some(Ticket(value))
        }
    }
}

} // verus!
