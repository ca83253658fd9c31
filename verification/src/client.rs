//! The controller side: the input lease a pushing client holds and the
//! receipts it checks, the answer to a log clear, and how a session's
//! observed state decides what each command may do and how it is listed.
use crate::session::{LeaseOperation, LeaseRequest, LeaseResult, LeaseRole, ResultOutcome, ResultReason};
use crate::bytes::{le16, le32, le64, u32_le, u64_le};
use crate::cli::CreateMode;
use crate::session::machine::Request;
use crate::wire::requests::{controller_outcome, controller_value, ControllerRequest};
use crate::wire::{input_payload, valid_clear_result, InputReceipt};
use vstd::prelude::*;

verus! {

/// Why a client gave up.
#[derive(Clone, Copy, Debug, PartialEq, Eq, Structural)]
pub enum ClientError {
    UnexpectedRole,
    RequestsExhausted,
    UnexpectedReceipt,
    NotDelivered,
    SessionChanged,
    NotResumed,
    InvalidClearResult,
    ClearMismatch,
    LogChanged,
    LogUnavailable,
    LogCorrupt,
}

pub open spec fn error_message(e: ClientError) -> &'static str {
    match e {
        ClientError::UnexpectedRole => "unexpected input lease role",
        ClientError::RequestsExhausted => "input request space exhausted",
        ClientError::UnexpectedReceipt => "unexpected input receipt",
        ClientError::NotDelivered => "input was not delivered",
        ClientError::SessionChanged => "session changed while input was pending",
        ClientError::NotResumed => "input lease could not be resumed",
        ClientError::InvalidClearResult => "invalid log clear result",
        ClientError::ClearMismatch => "log clear result did not match the request",
        ClientError::LogChanged => "log changed before it could be cleared",
        ClientError::LogUnavailable => "log store is unavailable",
        ClientError::LogCorrupt => "log store is corrupt",
    }
}

impl ClientError {
    /// The message shown for the error.
    pub fn message(&self) -> (r: &'static str)
        ensures
            r == error_message(*self),
    {
        match self {
            ClientError::UnexpectedRole => "unexpected input lease role",
            ClientError::RequestsExhausted => "input request space exhausted",
            ClientError::UnexpectedReceipt => "unexpected input receipt",
            ClientError::NotDelivered => "input was not delivered",
            ClientError::SessionChanged => "session changed while input was pending",
            ClientError::NotResumed => "input lease could not be resumed",
            ClientError::InvalidClearResult => "invalid log clear result",
            ClientError::ClearMismatch => "log clear result did not match the request",
            ClientError::LogChanged => "log changed before it could be cleared",
            ClientError::LogUnavailable => "log store is unavailable",
            ClientError::LogCorrupt => "log store is corrupt",
        }
    }
}

/// The input lease a client holds: its role, epoch and token, the next
/// request id (none once they ran out) and the input not yet acknowledged.
#[derive(Debug)]
pub struct InputLease {
    pub role: LeaseRole,
    pub epoch: u32,
    pub token: [u8; 16],
    pub next: Option<u64>,
    pub pending: Vec<u8>,
}

/// What resuming the lease on a new connection came to.
#[derive(Clone, Copy, Debug, PartialEq, Eq, Structural)]
pub enum ResumeStep {
    Resumed,
    Retry,
    GiveUp,
}

impl InputLease {
    /// The lease a result grants: it must be for the role asked; a grant or
    /// resume starts at request 1 with nothing pending, anything else grants
    /// nothing.
    pub fn from_result(result: LeaseResult, role: LeaseRole) -> (r: Result<Option<InputLease>, ClientError>)
        ensures
            result.role != role ==> r == Err::<Option<InputLease>, ClientError>(ClientError::UnexpectedRole),
            result.role == role && (result.outcome == ResultOutcome::Granted || result.outcome
                == ResultOutcome::Resumed) ==> (r matches Ok(Some(l)) && l.role == role && l.epoch == result.epoch
                && l.token == result.token && l.next == Some(1u64) && l.pending@.len() == 0),
            result.role == role && !(result.outcome == ResultOutcome::Granted || result.outcome
                == ResultOutcome::Resumed) ==> (r matches Ok(None)),
    {
        if result.role != role {
            return Err(ClientError::UnexpectedRole);
        }
        match result.outcome {
            ResultOutcome::Granted | ResultOutcome::Resumed => Ok(
                Some(
                    InputLease {
                        role: result.role,
                        epoch: result.epoch,
                        token: result.token,
                        next: Some(1),
                        pending: Vec::new(),
                    },
                ),
            ),
            _ => Ok(None),
        }
    }

    pub fn pending(&self) -> (r: bool)
        ensures
            r == (self.pending@.len() > 0),
    {
        self.pending.len() > 0
    }

    /// Stages input to deliver; the previous input must have been
    /// acknowledged.
    pub fn stage(&mut self, bytes: Vec<u8>)
        requires
            bytes@.len() > 0,
            old(self).pending@.len() == 0,
        ensures
            final(self).pending@ == bytes@,
            final(self).role == old(self).role && final(self).epoch == old(self).epoch,
            final(self).token == old(self).token && final(self).next == old(self).next,
    {
        self.pending = bytes;
    }

    /// The input request that delivers the pending input, if any; none can
    /// be made once request ids ran out.
    pub fn request(&self) -> (r: Result<Option<Vec<u8>>, ClientError>)
        ensures
            self.pending@.len() == 0 ==> r matches Ok(None),
            self.pending@.len() > 0 && self.next is None ==> r == Err::<Option<Vec<u8>>, ClientError>(
                ClientError::RequestsExhausted,
            ),
            self.next matches Some(n) ==> (self.pending@.len() > 0 ==> (r matches Ok(Some(p)) && p@
                == le32(self.epoch) + le64(n) + seq![0u8] + self.pending@)),
    {
        if self.pending.len() == 0 {
            return Ok(None);
        }
        match self.next {
            Some(n) => Ok(Some(input_payload(self.epoch, n, self.pending.as_slice()))),
            None => Err(ClientError::RequestsExhausted),
        }
    }

    /// The receipt must answer the pending input exactly: this epoch and
    /// request, the session's generation and incarnation, every byte written
    /// and no error. Then the input is done and the next request id is the
    /// following one.
    pub fn receipt(&mut self, receipt: &InputReceipt, generation: u32, incarnation: [u8; 16]) -> (r: Result<
        (),
        ClientError,
    >)
        ensures
            old(self).pending@.len() == 0 ==> r == Err::<(), ClientError>(ClientError::UnexpectedReceipt),
            old(self).pending@.len() > 0 && old(self).next is None ==> r == Err::<(), ClientError>(
                ClientError::RequestsExhausted,
            ),
            old(self).next matches Some(n) ==> old(self).pending@.len() > 0 ==> {
                let expected = receipt.epoch == old(self).epoch && receipt.request == n && receipt.generation
                    == generation && receipt.incarnation@ == incarnation@ && receipt.written
                    == old(self).pending@.len() && receipt.status == 0 && receipt.result == 0;
                &&& expected ==> r is Ok && final(self).pending@.len() == 0 && final(self).next == (if n
                    < u64::MAX {
                    Some((n + 1) as u64)
                } else {
                    None
                })
                &&& !expected ==> r == Err::<(), ClientError>(ClientError::NotDelivered)
            },
            r is Err ==> final(self).pending@ == old(self).pending@ && final(self).next == old(self).next,
            final(self).role == old(self).role && final(self).epoch == old(self).epoch,
            final(self).token == old(self).token,
    {
        if self.pending.len() == 0 {
            return Err(ClientError::UnexpectedReceipt);
        }
        let n = match self.next {
            Some(n) => n,
            None => {
                return Err(ClientError::RequestsExhausted);
            },
        };
        let expected = InputReceipt::outcome(
            self.epoch,
            n,
            generation,
            incarnation,
            self.pending.len() as u64,
            None,
        );
        let same = receipt.epoch == expected.epoch && receipt.request == expected.request
            && receipt.generation == expected.generation && crate::session::same16(
            &receipt.incarnation,
            &expected.incarnation,
        ) && receipt.written == expected.written && receipt.status == expected.status && receipt.result
            == expected.result;
        if !same {
            return Err(ClientError::NotDelivered);
        }
        self.pending.clear();
        self.next = expected.request.checked_add(1);
        Ok(())
    }

    /// The request that resumes this lease under `incarnation`.
    pub fn resume_request(&self, incarnation: [u8; 16]) -> (r: LeaseRequest)
        ensures
            r.operation == LeaseOperation::Resume && r.role == self.role && r.epoch == self.epoch
                && r.incarnation == incarnation && r.token == self.token,
    {
        LeaseRequest {
            operation: LeaseOperation::Resume,
            role: self.role,
            epoch: self.epoch,
            incarnation,
            token: self.token,
        }
    }

    /// What a resume's result means: resumed under this role and epoch, the
    /// new token adopted; refused as busy, try again; anything else, give up.
    pub fn resumed(&mut self, result: &LeaseResult) -> (r: ResumeStep)
        ensures
            (result.outcome == ResultOutcome::Resumed && result.role == old(self).role && result.epoch
                == old(self).epoch) ==> r == ResumeStep::Resumed && final(self).token == result.token,
            !(result.outcome == ResultOutcome::Resumed && result.role == old(self).role && result.epoch
                == old(self).epoch) ==> final(self).token == old(self).token && r == (if result.reason
                == ResultReason::Busy {
                ResumeStep::Retry
            } else {
                ResumeStep::GiveUp
            }),
            final(self).role == old(self).role && final(self).epoch == old(self).epoch,
            final(self).next == old(self).next && final(self).pending@ == old(self).pending@,
    {
        if result.outcome == ResultOutcome::Resumed && result.role == self.role && result.epoch == self.epoch {
            self.token = result.token;
            return ResumeStep::Resumed;
        }
        if result.reason == ResultReason::Busy {
            ResumeStep::Retry
        } else {
            ResumeStep::GiveUp
        }
    }
}

/// A reconnection must reach the same session: its generation, incarnation
/// and identity unchanged.
pub fn same_session(
    generation: u32,
    incarnation: [u8; 16],
    identity: &[u8],
    candidate_generation: u32,
    candidate_incarnation: [u8; 16],
    candidate_identity: &[u8],
) -> (r: Result<(), ClientError>)
    ensures
        r is Ok <==> generation == candidate_generation && incarnation@ == candidate_incarnation@
            && identity@ == candidate_identity@,
        r is Err ==> r == Err::<(), ClientError>(ClientError::SessionChanged),
{
    if generation == candidate_generation && crate::session::same16(&incarnation, &candidate_incarnation)
        && crate::bytes::same_bytes(identity, candidate_identity) {
        Ok(())
    } else {
        Err(ClientError::SessionChanged)
    }
}

/// A log clear's answer as read: outcome, reason and the index it was
/// about, when the payload is a valid answer.
pub open spec fn clear_decoded(s: Seq<u8>) -> Option<(u8, u8, u64)> {
    if s.len() == 32 && s[2] == 0 && s[3] == 0 && valid_clear_result(s[0], s[1], u32_le(s.subrange(4, 8))) {
        Some((s[0], s[1], u64_le(s.subrange(8, 16))))
    } else {
        None
    }
}

/// What a log clear's answer means to the controller that observed index
/// `prior`: it must decode and be about that index; cleared or unchanged
/// succeed; changed, unavailable and corrupt each say so.
pub open spec fn spec_clear_verdict(decoded: Option<(u8, u8, u64)>, prior: u64) -> Result<(), ClientError> {
    match decoded {
        None => Err(ClientError::InvalidClearResult),
        Some((outcome, reason, observed)) => if observed != prior {
            Err(ClientError::ClearMismatch)
        } else if (outcome == 0 || outcome == 1) && reason == 0 {
            Ok(())
        } else if outcome == 2 && reason == 1 {
            Err(ClientError::LogChanged)
        } else if outcome == 2 && reason == 2 {
            Err(ClientError::LogUnavailable)
        } else if outcome == 2 && reason == 3 {
            Err(ClientError::LogCorrupt)
        } else {
            Err(ClientError::InvalidClearResult)
        },
    }
}

pub fn decode_clear_result(payload: &[u8], prior: u64) -> (r: Result<(), ClientError>)
    ensures
        r == spec_clear_verdict(
            clear_decoded(payload@),
            prior,
        ),
{
    let (outcome, reason, observed) = match crate::wire::decode_log_clear_result(payload) {
        Ok(v) => v,
        Err(_) => {
            return Err(ClientError::InvalidClearResult);
        },
    };
    if observed != prior {
        return Err(ClientError::ClearMismatch);
    }
    if (outcome == 0 || outcome == 1) && reason == 0 {
        Ok(())
    } else if outcome == 2 && reason == 1 {
        Err(ClientError::LogChanged)
    } else if outcome == 2 && reason == 2 {
        Err(ClientError::LogUnavailable)
    } else if outcome == 2 && reason == 3 {
        Err(ClientError::LogCorrupt)
    } else {
        Err(ClientError::InvalidClearResult)
    }
}

/// What a session is found to be: missing, live, live with a viewer,
/// stale residue, exited, or not identifiable.
#[derive(Clone, Copy, Debug, PartialEq, Eq, Structural)]
pub enum SessionState {
    Missing,
    Live,
    Attached,
    Stale,
    Exited,
    Indeterminate,
}

/// What a command does with a session in some state: go on, attach,
/// clean up first, work offline, or refuse it as missing, stopped,
/// running, already running, or unidentifiable.
#[derive(Clone, Copy, Debug, PartialEq, Eq, Structural)]
pub enum Decision {
    Proceed,
    Attach,
    Cleanup,
    Offline,
    Missing,
    Stopped,
    Running,
    Already,
    Identify,
}

/// A command's policy: the decision for each state, in the order of the
/// states.
pub type Policy = [Decision; 6];

pub open spec fn state_index(state: SessionState) -> int {
    match state {
        SessionState::Missing => 0,
        SessionState::Live => 1,
        SessionState::Attached => 2,
        SessionState::Stale => 3,
        SessionState::Exited => 4,
        SessionState::Indeterminate => 5,
    }
}

pub fn attach_policy() -> (r: Policy)
    ensures
        r@ == seq![
            Decision::Missing,
            Decision::Proceed,
            Decision::Proceed,
            Decision::Stopped,
            Decision::Stopped,
            Decision::Identify,
        ],
{
    [Decision::Missing, Decision::Proceed, Decision::Proceed, Decision::Stopped, Decision::Stopped, Decision::Identify]
}

pub fn clear_policy() -> (r: Policy)
    ensures
        r@ == seq![
            Decision::Missing,
            Decision::Proceed,
            Decision::Proceed,
            Decision::Offline,
            Decision::Offline,
            Decision::Identify,
        ],
{
    [Decision::Missing, Decision::Proceed, Decision::Proceed, Decision::Offline, Decision::Offline, Decision::Identify]
}

pub fn remove_policy() -> (r: Policy)
    ensures
        r@ == seq![
            Decision::Missing,
            Decision::Running,
            Decision::Running,
            Decision::Cleanup,
            Decision::Cleanup,
            Decision::Identify,
        ],
{
    [Decision::Missing, Decision::Running, Decision::Running, Decision::Cleanup, Decision::Cleanup, Decision::Identify]
}

pub fn unavailable_policy() -> (r: Policy)
    ensures
        r@ == seq![
            Decision::Missing,
            Decision::Identify,
            Decision::Identify,
            Decision::Stopped,
            Decision::Stopped,
            Decision::Identify,
        ],
{
    [Decision::Missing, Decision::Identify, Decision::Identify, Decision::Stopped, Decision::Stopped, Decision::Identify]
}

/// The policy for creating: a fresh path proceeds, a live one gets `live`,
/// stale residue is cleaned up first, an unidentifiable one is refused.
pub fn create_policy(live: Decision) -> (r: Policy)
    ensures
        r@ == seq![Decision::Proceed, live, live, Decision::Cleanup, Decision::Cleanup, Decision::Identify],
{
    [Decision::Proceed, live, live, Decision::Cleanup, Decision::Cleanup, Decision::Identify]
}

/// How creating goes for each mode: what a live session of the name gets,
/// whether the new session is attached once it is up, and the verb that
/// announces it. A bare name attaches to a live session and `new` refuses
/// one; both attach and announce "created". `start` announces "started"
/// and leaves the session running; `run` says nothing and gives the child's
/// status.
pub open spec fn spec_create_plan(mode: CreateMode) -> (Decision, bool, Option<&'static str>) {
    match mode {
        CreateMode::Bare => (Decision::Attach, true, Some("created")),
        CreateMode::New => (Decision::Already, true, Some("created")),
        CreateMode::Start => (Decision::Already, false, Some("started")),
        CreateMode::Run => (Decision::Already, false, None),
    }
}

pub fn create_plan(mode: CreateMode) -> (r: (Decision, bool, Option<&'static str>))
    ensures
        r == spec_create_plan(mode),
{
    match mode {
        CreateMode::Bare => (Decision::Attach, true, Some("created")),
        CreateMode::New => (Decision::Already, true, Some("created")),
        CreateMode::Start => (Decision::Already, false, Some("started")),
        CreateMode::Run => (Decision::Already, false, None),
    }
}

/// Whether creating ends with the launch's status: when the launch failed,
/// or for `run`, which neither announces nor attaches.
pub fn create_ends(mode: CreateMode, status: i32) -> (r: bool)
    ensures
        r == (status != 0 || mode == CreateMode::Run),
{
    status != 0 || match mode {
        CreateMode::Run => true,
        _ => false,
    }
}

/// Why a command refused a session; the message is "session '<name>' "
/// followed by the phrase.
#[derive(Clone, Copy, Debug, PartialEq, Eq, Structural)]
pub enum SessionProblem {
    DoesNotExist,
    NotRunning,
    IsRunning,
    AlreadyRunning,
    Unidentified,
}

/// How a session's problem is told after its name.
pub open spec fn problem_phrase(p: SessionProblem) -> &'static str {
    match p {
        SessionProblem::DoesNotExist => "does not exist",
        SessionProblem::NotRunning => "is not running",
        SessionProblem::IsRunning => "is running",
        SessionProblem::AlreadyRunning => "is already running",
        SessionProblem::Unidentified => "could not be identified",
    }
}

impl SessionProblem {
    pub fn phrase(&self) -> (r: &'static str)
        ensures
            r == problem_phrase(*self),
    {
        match self {
            SessionProblem::DoesNotExist => "does not exist",
            SessionProblem::NotRunning => "is not running",
            SessionProblem::IsRunning => "is running",
            SessionProblem::AlreadyRunning => "is already running",
            SessionProblem::Unidentified => "could not be identified",
        }
    }
}

pub open spec fn spec_decide(decision: Decision) -> Result<Decision, SessionProblem> {
    match decision {
        Decision::Missing => Err(SessionProblem::DoesNotExist),
        Decision::Stopped => Err(SessionProblem::NotRunning),
        Decision::Running => Err(SessionProblem::IsRunning),
        Decision::Already => Err(SessionProblem::AlreadyRunning),
        Decision::Identify => Err(SessionProblem::Unidentified),
        d => Ok(d),
    }
}

/// The decision a policy gives for a state, or why it refuses.
pub fn decide(state: SessionState, table: Policy) -> (r: Result<Decision, SessionProblem>)
    ensures
        r == spec_decide(table@[state_index(state)]),
{
    let at: usize = match state {
        SessionState::Missing => 0,
        SessionState::Live => 1,
        SessionState::Attached => 2,
        SessionState::Stale => 3,
        SessionState::Exited => 4,
        SessionState::Indeterminate => 5,
    };
    match table[at] {
        Decision::Missing => Err(SessionProblem::DoesNotExist),
        Decision::Stopped => Err(SessionProblem::NotRunning),
        Decision::Running => Err(SessionProblem::IsRunning),
        Decision::Already => Err(SessionProblem::AlreadyRunning),
        Decision::Identify => Err(SessionProblem::Unidentified),
        d => Ok(d),
    }
}

/// What probing a session's path saw.
#[derive(Clone, Copy, Debug, PartialEq, Eq, Structural)]
pub enum PathSeen {
    Present,
    Absent,
    Unreadable,
}

/// What connecting to a session gave: a holder (with a viewer attached or
/// not), a refused connection, or something unclear.
#[derive(Clone, Copy, Debug, PartialEq, Eq, Structural)]
pub enum Contact {
    Holder(bool),
    Refused,
    Unclear,
}

/// A session's state from what probing it saw: an unreadable path is
/// indeterminate; an absent one exited when its exit record remains, else
/// missing; a present one that is not a valid rendezvous is indeterminate;
/// otherwise live (attached when asked and a viewer is attached), stale
/// when the connection is refused, indeterminate when unclear.
pub open spec fn spec_probe_state(path: PathSeen, exit_record: bool, valid: bool, contact: Contact) -> SessionState {
    match path {
        PathSeen::Unreadable => SessionState::Indeterminate,
        PathSeen::Absent => if exit_record {
            SessionState::Exited
        } else {
            SessionState::Missing
        },
        PathSeen::Present => if !valid {
            SessionState::Indeterminate
        } else {
            match contact {
                Contact::Holder(true) => SessionState::Attached,
                Contact::Holder(false) => SessionState::Live,
                Contact::Refused => SessionState::Stale,
                Contact::Unclear => SessionState::Indeterminate,
            }
        },
    }
}

pub fn probe_state(path: PathSeen, exit_record: bool, valid: bool, contact: Contact) -> (r: SessionState)
    ensures
        r == spec_probe_state(path, exit_record, valid, contact),
{
    match path {
        PathSeen::Unreadable => SessionState::Indeterminate,
        PathSeen::Absent => if exit_record {
            SessionState::Exited
        } else {
            SessionState::Missing
        },
        PathSeen::Present => if !valid {
            SessionState::Indeterminate
        } else {
            match contact {
                Contact::Holder(true) => SessionState::Attached,
                Contact::Holder(false) => SessionState::Live,
                Contact::Refused => SessionState::Stale,
                Contact::Unclear => SessionState::Indeterminate,
            }
        },
    }
}

/// A listing shows exited sessions only when all are asked for, and never
/// a missing one.
pub fn listed(state: SessionState, all: bool) -> (r: bool)
    ensures
        r == (state != SessionState::Missing && (all || state != SessionState::Exited)),
{
    match state {
        SessionState::Missing => false,
        SessionState::Exited => all,
        _ => true,
    }
}

/// The mark a listing puts after a session in some state.
pub fn state_mark(state: SessionState) -> (r: &'static str)
    ensures
        state == SessionState::Exited ==> r == " [exited]",
        state == SessionState::Attached ==> r == " [attached]",
        state == SessionState::Live || state == SessionState::Missing ==> r == "",
        state == SessionState::Stale ==> r == " [stale]",
        state == SessionState::Indeterminate ==> r == " [indeterminate]",
{
    match state {
        SessionState::Exited => " [exited]",
        SessionState::Attached => " [attached]",
        SessionState::Live => "",
        SessionState::Stale => " [stale]",
        SessionState::Indeterminate => " [indeterminate]",
        SessionState::Missing => "",
    }
}

/// What removing every session does with one: stale and exited ones are
/// cleaned up, running and indeterminate ones skipped, missing ones ignored.
#[derive(Clone, Copy, Debug, PartialEq, Eq, Structural)]
pub enum Removal {
    Clean,
    SkipRunning,
    SkipIndeterminate,
    Ignore,
}

pub fn removal(state: SessionState) -> (r: Removal)
    ensures
        r == match state {
            SessionState::Stale | SessionState::Exited => Removal::Clean,
            SessionState::Live | SessionState::Attached => Removal::SkipRunning,
            SessionState::Indeterminate => Removal::SkipIndeterminate,
            SessionState::Missing => Removal::Ignore,
        },
{
    match state {
        SessionState::Stale | SessionState::Exited => Removal::Clean,
        SessionState::Live | SessionState::Attached => Removal::SkipRunning,
        SessionState::Indeterminate => Removal::SkipIndeterminate,
        SessionState::Missing => Removal::Ignore,
    }
}

/// The flags byte of an attach request: whether it asks for the viewer
/// lease (bit 0) and whether the viewer is not VT-compatible (bit 1).
pub open spec fn attach_flags(lease: bool, non_vt: bool) -> u8 {
    ((if lease { 1int } else { 0 }) + (if non_vt { 2int } else { 0 })) as u8
}

/// An attach request: the columns and rows, then the flags.
pub open spec fn attach_layout(rows: u16, columns: u16, lease: bool, non_vt: bool) -> Seq<u8> {
    le16(columns) + le16(rows) + seq![attach_flags(lease, non_vt)]
}

/// The attach request a viewer sends for a terminal of `rows` and
/// `columns`; a first attach asks for the viewer lease, a reattach that
/// resumes its lease does not.
pub fn attach_request(rows: u16, columns: u16, lease: bool, non_vt: bool) -> (r: Vec<u8>)
    ensures
        r@ == attach_layout(rows, columns, lease, non_vt),
{
    let mut out: Vec<u8> = Vec::new();
    crate::bytes::push_u16(&mut out, columns);
    crate::bytes::push_u16(&mut out, rows);
    let flags: u8 = if lease { 1 } else { 0 };
    let flags: u8 = if non_vt { flags + 2 } else { flags };
    out.push(flags);
    proof {
        assert(out@ =~= attach_layout(rows, columns, lease, non_vt));
    }
    out
}

/// What a viewer asks is what the holder reads: an attach request decodes,
/// under any lease token of the connection, to an attach for the same
/// geometry and flags.
pub proof fn lemma_attach_request_decodes(
    rows: u16,
    columns: u16,
    lease: bool,
    non_vt: bool,
    token: Option<[u8; 16]>,
)
    ensures
        controller_outcome(3, attach_layout(rows, columns, lease, non_vt)) is Ok,
        controller_value(
            3,
            attach_layout(rows, columns, lease, non_vt),
            token,
            ControllerRequest::Policy(Request::Attach(columns, rows, lease, non_vt, token)),
        ),
{
    let s = attach_layout(rows, columns, lease, non_vt);
    crate::bytes::lemma_le16(columns);
    crate::bytes::lemma_le16(rows);
    assert(s.subrange(0, 2) =~= le16(columns));
    assert(s.subrange(2, 4) =~= le16(rows));
    let f = attach_flags(lease, non_vt);
    assert(s[4] == f);
    assert(f == 0 || f == 1 || f == 2 || f == 3);
    assert((f == 0 || f == 1 || f == 2 || f == 3) ==> (f & 0xfc == 0 && ((f & 1 != 0) == (f == 1 || f == 3))
        && ((f & 2 != 0) == (f == 2 || f == 3)))) by (bit_vector);
}

} // verus!
