//! The holder's policy machine: it owns the input lease, the controllers
//! and semantic producers that are connected, the queries delegated to the
//! lease holder, the replay window of terminal output and the termination
//! state, and turns each transition into the effects the runtime performs.
use crate::bytes::{lex_order, nonzero, seq_lt};
use crate::session::{
    ConnId, LeaseOperation, LeaseRequest, LeaseResult, LeaseRole, Phase, ResultOutcome,
    ResultReason, Ticket, legal_in_phase, next_phase, nonzero16, same16, spec_legal_in_phase,
};
use crate::wire::text::{QueryShape, spec_validate_query_reply, validate_query_reply};
use crate::wire::{InputReceipt, Query, ReplayDescriptor, WireError};
use sha2::Digest;
use vstd::prelude::*;

verus! {

/// The SHA-256 digest of `bytes`.
pub uninterp spec fn spec_sha256(bytes: Seq<u8>) -> Seq<u8>;

/// Digests `bytes` with `sha2::Sha256`; the result is the 32-byte digest,
/// which depends on the bytes alone.
#[verifier::external_body]
pub(crate) fn sha256(bytes: &[u8]) -> (r: [u8; 32])
    ensures
        r@ == spec_sha256(bytes@),
{
    sha2::Sha256::digest(bytes).into()
}

/// An input request of the lease holder, as it arrived.
#[derive(Clone, Debug)]
pub struct OwnedInput {
    pub epoch: u32,
    pub request_id: u64,
    pub exact_payload: Vec<u8>,
}

impl OwnedInput {
    /// Two inputs are the same request.
    pub open spec fn same(&self, other: &OwnedInput) -> bool {
        self.epoch == other.epoch && self.request_id == other.request_id
            && self.exact_payload@ == other.exact_payload@
    }

    pub fn duplicate(&self) -> (r: Self)
        ensures
            r.same(self),
    {
        OwnedInput {
            epoch: self.epoch,
            request_id: self.request_id,
            exact_payload: crate::bytes::to_vec(self.exact_payload.as_slice()),
        }
    }

    fn equals(&self, other: &OwnedInput) -> (r: bool)
        ensures
            r == self.same(other),
    {
        self.epoch == other.epoch && self.request_id == other.request_id
            && crate::bytes::same_bytes(self.exact_payload.as_slice(), other.exact_payload.as_slice())
    }

    /// The application an input payload names: byte 12 is 1 and bytes 13 to
    /// 29 hold its id.
    pub open spec fn spec_application_id(&self) -> Option<Seq<u8>> {
        if self.exact_payload@.len() >= 29 && self.exact_payload@[12] == 1 {
            Some(self.exact_payload@.subrange(13, 29))
        } else {
            None
        }
    }

    pub(crate) fn application_id(&self) -> (r: Option<[u8; 16]>)
        ensures
            r matches Some(id) ==> self.spec_application_id() == Some(id@),
            r is None ==> self.spec_application_id() is None,
    {
        if self.exact_payload.len() >= 29 && self.exact_payload[12] == 1 {
            Some(crate::bytes::array16(self.exact_payload.as_slice(), 13))
        } else {
            None
        }
    }
}

/// The identity of an application input.
#[derive(Clone, Copy, Debug)]
pub struct ApplicationReceipt {
    pub application_id: [u8; 16],
    pub lease_epoch: u32,
    pub request_id: u64,
}

impl ApplicationReceipt {
    pub open spec fn same(&self, other: &ApplicationReceipt) -> bool {
        self.application_id@ == other.application_id@ && self.lease_epoch == other.lease_epoch
            && self.request_id == other.request_id
    }

    fn equals(&self, other: &ApplicationReceipt) -> (r: bool)
        ensures
            r == self.same(other),
    {
        same16(&self.application_id, &other.application_id) && self.lease_epoch
            == other.lease_epoch && self.request_id == other.request_id
    }
}

/// Where, in an input payload, an application input names its source and
/// where the bytes for the terminal begin.
#[derive(Clone, Copy, Debug)]
pub struct ApplicationInput {
    pub receipt: ApplicationReceipt,
    pub source_start: usize,
    pub source_end: usize,
    pub terminal_at: usize,
}

/// Announces an application input to its source before it is written.
#[derive(Clone, Copy, Debug)]
pub struct InputNotice {
    pub receipt: ApplicationReceipt,
    pub byte_count: u64,
    pub digest: [u8; 32],
}

/// A source's answer to an input notice.
#[derive(Clone, Copy, Debug)]
pub struct InputNoticeAck {
    pub receipt: ApplicationReceipt,
    pub prepared: bool,
}

#[derive(Clone, Copy, Debug, PartialEq, Eq, Structural)]
pub enum SemanticMode {
    Edge,
    Stateful,
}

#[derive(Clone, Copy, Debug, PartialEq, Eq, Structural)]
pub enum SemanticEventKind {
    Transition,
    Snapshot,
    ApplicationReceipt,
}

#[derive(Clone, Copy, Debug, PartialEq, Eq, Structural)]
pub enum SemanticAckStatus {
    Accepted,
    Duplicate,
    Refused,
}

/// Why a semantic request was refused.
#[derive(Clone, Copy, Debug, PartialEq, Eq, Structural)]
pub enum SemanticRefusal {
    CapabilityAbsent,
    StaleToken,
    Generation,
    SourceConflict,
    ResourceExhausted,
    BadSequence,
    EventConflict,
    SnapshotRequired,
    InvalidPayload,
    Superseded,
    ApplicationConflict,
    UnknownApplication,
    SourceUnavailable,
    NotWritten,
}

/// The sequence after `high`, or exhaustion at the end of the range.
pub fn next_semantic_sequence(high: u64) -> (r: Result<u64, SemanticRefusal>)
    ensures
        high < u64::MAX ==> r == Ok::<u64, SemanticRefusal>((high + 1) as u64),
        high == u64::MAX ==> r == Err::<u64, SemanticRefusal>(SemanticRefusal::ResourceExhausted),
{
    match high.checked_add(1) {
        Some(next) => Ok(next),
        None => Err(SemanticRefusal::ResourceExhausted),
    }
}

/// A producer's registration.
#[derive(Clone, Debug)]
pub struct SemanticHello {
    pub token: [u8; 16],
    pub producer: [u8; 16],
    pub generation: u32,
    pub mode: SemanticMode,
    pub capabilities: u8,
    pub source: Vec<u8>,
}

/// A producer's event.
#[derive(Clone, Debug)]
pub struct SemanticEvent {
    pub id: [u8; 16],
    pub sequence: u64,
    pub kind: SemanticEventKind,
    pub exact_payload: Vec<u8>,
}

impl SemanticEvent {
    pub fn duplicate(&self) -> (r: Self)
        ensures
            r.id == self.id && r.sequence == self.sequence && r.kind == self.kind,
            r.exact_payload@ == self.exact_payload@,
    {
        SemanticEvent {
            id: self.id,
            sequence: self.sequence,
            kind: self.kind,
            exact_payload: crate::bytes::to_vec(self.exact_payload.as_slice()),
        }
    }
}

/// Where the event store put an event.
#[derive(Clone, Copy, Debug, PartialEq, Eq, Structural)]
pub struct EventPosition {
    pub epoch: u32,
    pub sequence: u64,
}

#[derive(Clone, Copy, Debug)]
pub struct SemanticAck {
    pub id: [u8; 16],
    pub sequence: u64,
    pub status: SemanticAckStatus,
    pub position: Option<EventPosition>,
}

#[derive(Clone, Copy, Debug, PartialEq, Eq, Structural)]
pub struct SemanticHelloAck {
    pub epoch: u32,
    pub snapshot_required: bool,
}

#[derive(Clone, Copy, Debug, PartialEq, Eq, Structural)]
pub enum MissingReason {
    Deadline,
    SourceLost,
    RetentionExpired,
}

#[derive(Clone, Copy, Debug, PartialEq, Eq, Structural)]
pub enum SourceStatus {
    Connected,
    Exact,
    Degraded,
    Disconnected,
}

#[derive(Clone, Copy, Debug, PartialEq, Eq, Structural)]
pub enum SourceReason {
    NoReason,
    HeartbeatTimeout,
    TransportClosed,
    Superseded,
    SessionEnding,
}

/// A written application input whose receipt event did not arrive.
#[derive(Clone, Debug)]
pub struct SemanticEffect {
    pub receipt: ApplicationReceipt,
    pub source: Vec<u8>,
    pub source_epoch: u32,
    pub producer: [u8; 16],
    pub reason: MissingReason,
}

/// A change of a stateful source's status.
#[derive(Clone, Debug)]
pub struct SourceEffect {
    pub source: Vec<u8>,
    pub producer: [u8; 16],
    pub source_epoch: u32,
    pub status: SourceStatus,
    pub reason: SourceReason,
}

#[derive(Clone, Debug)]
pub enum SemanticChange {
    Source(SourceEffect),
    Missing(SemanticEffect),
}

/// Where an application receipt event names the provider's session and
/// turn.
#[derive(Clone, Copy, Debug)]
pub struct ReceiptProjection {
    pub receipt: ApplicationReceipt,
    pub status: u8,
    pub provider_session: (usize, usize),
    pub provider_turn: (usize, usize),
}

/// What a controller's status report says of the policy state.
#[derive(Clone, Copy, Debug, PartialEq, Eq, Structural)]
pub struct PolicyStatus {
    pub owns_lease: bool,
    pub viewers: bool,
    pub lease_epoch: u32,
    pub semantic_flags: u8,
    pub semantic_pending: u16,
    pub query_available: bool,
    pub replay: ReplayDescriptor,
}

/// A chunk of terminal output and where it stands in the stream.
#[derive(Clone, Debug)]
pub struct OutputRecord {
    pub sequence: u64,
    pub offset: u64,
    pub bytes: Vec<u8>,
}

impl OutputRecord {
    fn duplicate(&self) -> (r: Self)
        ensures
            r.sequence == self.sequence && r.offset == self.offset && r.bytes@ == self.bytes@,
    {
        OutputRecord {
            sequence: self.sequence,
            offset: self.offset,
            bytes: crate::bytes::to_vec(self.bytes.as_slice()),
        }
    }
}

/// A message for one peer.
#[derive(Clone, Debug)]
pub enum Reply {
    Lease(LeaseResult),
    Input(Vec<u8>),
    Notice(InputNotice),
    NoticeCancel(ApplicationReceipt),
    SemanticAck(SemanticAck),
    SemanticRefused(Option<SemanticEvent>, SemanticRefusal),
    SemanticHello(SemanticHelloAck),
    ControllerError(u16, &'static str),
    Termination(u8, u8, u8, &'static str),
}

/// What the runtime is to do.
#[derive(Clone, Debug)]
pub enum Effect {
    Send(ConnId, Reply),
    Attached(ConnId, bool, Option<LeaseResult>, Option<(u16, u16)>),
    Resize(u16, u16),
    Write(Ticket, Vec<u8>),
    CommitSources(Ticket, Vec<SemanticChange>, bool),
    CommitSemantic(Ticket, Vec<u8>, u32, [u8; 16], SemanticEvent, Option<ReceiptProjection>),
    QuerySend(ConnId, Query),
    Output(Option<ConnId>, OutputRecord),
    Gap(ConnId, u64),
    OutputExhausted,
    Terminate(bool),
    ReportTermination(ConnId),
    Flush(ConnId, u64),
    Close(ConnId),
    Replaced(ConnId),
}

/// How a storage or terminal operation ended.
#[derive(Clone, Copy, Debug)]
pub enum Completion {
    Write(u64, Option<u16>),
    Sources(bool),
    Semantic(Result<EventPosition, SemanticRefusal>),
}

/// A peer's request.
#[derive(Clone, Debug)]
pub enum Request {
    Attach(u16, u16, bool, bool, Option<[u8; 16]>),
    Lease(LeaseRequest, Option<[u8; 16]>),
    Release(u32, [u8; 16]),
    Keepalive(u32, [u8; 16]),
    Touch(u32),
    Resize(u32, u16, u16),
    Input(OwnedInput, Option<ApplicationInput>),
    NoticeAck(InputNoticeAck),
    SemanticHello(SemanticHello),
    /// The event, its receipt projection, and whether its payload is a JSON
    /// object within the nesting and member bounds.
    SemanticEvent(SemanticEvent, Option<ReceiptProjection>, bool),
    SemanticHeartbeat,
    QueryReply(u64, u32, u8, Vec<u8>),
    OutputAck(u64),
    Terminate(Vec<u8>, u32, [u8; 16], bool),
}

/// What happened, for the machine to answer.
#[derive(Clone, Debug)]
pub enum Transition {
    Peer(u64, ConnId, Request),
    Complete(u64, Ticket, Completion),
    Query(u64, Vec<u8>, QueryShape, Option<Vec<u8>>),
    Output(u64, Vec<u8>),
    Shutdown(u64, bool),
    TerminationApplied(u8, bool),
    ReportTermination(ConnId),
    Retired(bool, bool),
    Tick(u64),
    Disconnect(ConnId),
    Writable(bool),
    Ending,
}


/// The input lease: who holds it, under which epoch and token, until when,
/// the request in flight and the receipt of the last one answered.
struct Lease {
    owner: Option<ConnId>,
    role: LeaseRole,
    epoch: u32,
    token: [u8; 16],
    deadline: u64,
    cached: Option<(OwnedInput, Vec<u8>)>,
    inflight: Option<OwnedInput>,
}

impl Lease {
    fn vacant() -> (r: Self)
        ensures
            r.owner is None && r.role == LeaseRole::Viewer && r.epoch == 0 && r.deadline == 0,
            r.cached is None && r.inflight is None && !nonzero(r.token@),
    {
        let r = Lease {
            owner: None,
            role: LeaseRole::Viewer,
            epoch: 0,
            token: [0u8; 16],
            deadline: 0,
            cached: None,
            inflight: None,
        };
        assert(!nonzero(r.token@));
        r
    }
}

enum Peer {
    Controller(bool, bool),
    Semantic(Vec<u8>),
}

struct PeerEntry {
    conn: ConnId,
    peer: Peer,
}

#[derive(Clone, Copy)]
struct Binding {
    conn: ConnId,
    epoch: u32,
    producer: [u8; 16],
}

struct Retained {
    id: [u8; 16],
    sequence: u64,
    kind: SemanticEventKind,
    digest: [u8; 32],
    position: EventPosition,
}

const STATEFUL: u8 = 1;

const ACTIVE: u8 = 2;

const EXACT: u8 = 4;

const COMMIT_PENDING: u8 = 1;

const ACK_PENDING: u8 = 2;

pub const GEOMETRY_LIMIT: u16 = 32767;

pub const GEOMETRY_CELLS: u32 = 2000000;

/// The most queries a holder may have outstanding.
pub const QUERY_LIMIT: usize = 64;

const SOURCE_LIMIT: usize = 64;

const APPLICATION_LIMIT: usize = 512;

const RETAINED_LIMIT: usize = 512;

struct Source {
    binding: Binding,
    flags: u8,
    capabilities: u8,
    status: SourceStatus,
    entries: Vec<Retained>,
    pending: u8,
    last_seen: u64,
}

struct SourceEntry {
    name: Vec<u8>,
    source: Source,
}

struct InputPending {
    controller: ConnId,
    input: OwnedInput,
    expected: u64,
    terminal_at: usize,
}

enum AppState {
    Notice(InputPending),
    Writing,
    Written,
}

struct Application {
    receipt: ApplicationReceipt,
    source: Vec<u8>,
    binding: Binding,
    state: AppState,
    deadline: u64,
    emitted: u8,
}

struct PendingHello {
    name: Vec<u8>,
    source: Source,
    superseded: Option<ConnId>,
    missing: Vec<[u8; 16]>,
}

enum Pending {
    Input(ConnId, OwnedInput),
    Application([u8; 16], InputPending),
    Semantic(Vec<u8>, Binding, SemanticEvent, Option<[u8; 16]>),
    Sources,
    Hello(PendingHello),
    Ack(Vec<u8>, SemanticAck),
}

struct PendingEntry {
    ticket: u64,
    pending: Pending,
}

struct PendingQuery {
    conn: ConnId,
    correlation: u64,
    epoch: u32,
    shape: QueryShape,
    fallback: Option<Vec<u8>>,
    deadline: u64,
}

#[derive(Clone, Copy)]
struct Termination {
    peer: Option<ConnId>,
    started: u64,
    containment: u8,
    method: u8,
    expired: bool,
}

/// The holder's policy state.
pub struct Machine {
    generation: u32,
    incarnation: [u8; 16],
    allocated: u32,
    lease: Lease,
    semantic_token: [u8; 16],
    sources: Vec<SourceEntry>,
    applications: Vec<Application>,
    writable: bool,
    peers: Vec<PeerEntry>,
    pending: Vec<PendingEntry>,
    next_ticket: u64,
    queries: Vec<PendingQuery>,
    /// The correlation the next delegated query carries; zero once the
    /// correlation space is spent.
    query_next: u64,
    query_exhaustion_pending: bool,
    replay: Vec<OutputRecord>,
    replay_limit: u64,
    next_sequence: u64,
    next_offset: u64,
    lost: u64,
    identity: Vec<u8>,
    termination: Option<Termination>,
}

/// The phase a controller is in, from whether it is attached, whether it
/// holds the lease and the lease's role.
pub open spec fn phase_of(attached: bool, owns: bool, role: LeaseRole) -> Phase {
    if attached && owns {
        Phase::Viewer
    } else if attached {
        Phase::Observer
    } else if owns && role == LeaseRole::InputOnly {
        Phase::InputOnly
    } else if owns {
        Phase::Resumed
    } else {
        Phase::Unattached
    }
}

spec fn peers_sorted(s: Seq<PeerEntry>) -> bool {
    forall|i: int, j: int| 0 <= i < j < s.len() ==> #[trigger] s[i].conn < #[trigger] s[j].conn
}

spec fn has_peer(s: Seq<PeerEntry>, conn: ConnId) -> bool {
    exists|i: int| 0 <= i < s.len() && #[trigger] s[i].conn == conn
}

spec fn peer_index(s: Seq<PeerEntry>, conn: ConnId) -> int {
    choose|i: int| 0 <= i < s.len() && #[trigger] s[i].conn == conn
}

/// The peer a connection is, if any.
spec fn peer_of(s: Seq<PeerEntry>, conn: ConnId) -> Option<Peer> {
    if has_peer(s, conn) {
        Some(s[peer_index(s, conn)].peer)
    } else {
        None
    }
}

/// Keys in strictly increasing byte order.
pub open spec fn sorted_keys(k: Seq<Seq<u8>>) -> bool {
    forall|i: int, j: int| 0 <= i < j < k.len() ==> seq_lt(#[trigger] k[i], #[trigger] k[j])
}

spec fn source_keys(s: Seq<SourceEntry>) -> Seq<Seq<u8>> {
    s.map_values(|e: SourceEntry| e.name@)
}

spec fn application_keys(s: Seq<Application>) -> Seq<Seq<u8>> {
    s.map_values(|a: Application| a.receipt.application_id@)
}

spec fn sources_sorted(s: Seq<SourceEntry>) -> bool {
    sorted_keys(source_keys(s))
}

spec fn applications_sorted(s: Seq<Application>) -> bool {
    sorted_keys(application_keys(s))
}

/// Inserting a key at its place keeps the keys sorted.
proof fn lemma_sorted_insert(k: Seq<Seq<u8>>, p: int, x: Seq<u8>)
    requires
        sorted_keys(k),
        0 <= p <= k.len(),
        forall|j: int| 0 <= j < p ==> seq_lt(#[trigger] k[j], x),
        p < k.len() ==> seq_lt(x, k[p]),
    ensures
        sorted_keys(k.insert(p, x)),
{
    let n = k.insert(p, x);
    assert forall|a: int, b: int| 0 <= a < b < n.len() implies seq_lt(#[trigger] n[a], #[trigger] n[b]) by {
        if b < p {
            assert(seq_lt(k[a], k[b]));
        } else if b == p {
            assert(seq_lt(k[a], x));
        } else if a < p {
            assert(seq_lt(k[a], x));
            assert(seq_lt(x, k[p]));
            if b - 1 > p {
                assert(seq_lt(k[p], k[b - 1]));
                crate::bytes::lemma_seq_lt_transitive(x, k[p], k[b - 1]);
            }
            crate::bytes::lemma_seq_lt_transitive(k[a], x, k[b - 1]);
        } else if a == p {
            assert(seq_lt(x, k[p]));
            if b - 1 > p {
                assert(seq_lt(k[p], k[b - 1]));
                crate::bytes::lemma_seq_lt_transitive(x, k[p], k[b - 1]);
            }
        } else {
            assert(seq_lt(k[a - 1], k[b - 1]));
        }
    }
}

/// Removing a key keeps the keys sorted.
proof fn lemma_sorted_remove(k: Seq<Seq<u8>>, p: int)
    requires
        sorted_keys(k),
        0 <= p < k.len(),
    ensures
        sorted_keys(k.remove(p)),
{
    let n = k.remove(p);
    assert forall|a: int, b: int| 0 <= a < b < n.len() implies seq_lt(#[trigger] n[a], #[trigger] n[b]) by {
        let a0 = if a < p { a } else { a + 1 };
        let b0 = if b < p { b } else { b + 1 };
        assert(seq_lt(k[a0], k[b0]));
    }
}

/// Sorted keys are distinct.
proof fn lemma_sorted_distinct(k: Seq<Seq<u8>>, a: int, b: int)
    requires
        sorted_keys(k),
        0 <= a < k.len(),
        0 <= b < k.len(),
        a != b,
    ensures
        k[a] != k[b],
{
    if a < b {
        assert(seq_lt(k[a], k[b]));
    } else {
        assert(seq_lt(k[b], k[a]));
    }
    crate::bytes::lemma_seq_lt_asymmetric(k[a], k[b]);
}

spec fn tickets_fresh(s: Seq<PendingEntry>, next: u64) -> bool {
    &&& forall|i: int| 0 <= i < s.len() ==> #[trigger] s[i].ticket != 0
    &&& next != 0 ==> forall|i: int| 0 <= i < s.len() ==> #[trigger] s[i].ticket < next
    &&& forall|i: int, j: int|
        0 <= i < j < s.len() ==> #[trigger] s[i].ticket != #[trigger] s[j].ticket
}

/// What kind of operation a pending entry awaits: an input's write, an
/// application's write, a registration, an acknowledged snapshot, source
/// changes, or a producer's event.
spec fn pending_kind(p: Pending) -> u8 {
    match p {
        Pending::Input(_, _) => 0,
        Pending::Application(_, _) => 1,
        Pending::Hello(_) => 2,
        Pending::Ack(_, _) => 3,
        Pending::Sources => 4,
        Pending::Semantic(_, _, _, _) => 5,
    }
}

/// Whether a completion ends an operation of `kind`: a write ends a
/// terminal write, a store outcome ends a filing of sources, and an event
/// position ends a producer's event.
pub open spec fn completes(kind: u8, c: Completion) -> bool {
    match c {
        Completion::Write(_, _) => kind == 0 || kind == 1,
        Completion::Sources(_) => kind == 2 || kind == 3 || kind == 4,
        Completion::Semantic(_) => kind == 5,
    }
}

/// Where the entry under `ticket` is filed, when one is.
spec fn pending_index(s: Seq<PendingEntry>, ticket: u64) -> int {
    choose|i: int| 0 <= i < s.len() && #[trigger] s[i].ticket == ticket
}

/// The kind of the operation pending under `ticket`, if one is.
spec fn pending_kind_of(s: Seq<PendingEntry>, ticket: u64) -> Option<u8> {
    if exists|i: int| 0 <= i < s.len() && #[trigger] s[i].ticket == ticket {
        Some(pending_kind(s[pending_index(s, ticket)].pending))
    } else {
        None
    }
}

/// The connection and input whose write waits under `ticket`, if an
/// input's does.
spec fn pending_input_of(s: Seq<PendingEntry>, ticket: u64) -> Option<(ConnId, OwnedInput)> {
    if exists|i: int| 0 <= i < s.len() && #[trigger] s[i].ticket == ticket {
        input_of(s[pending_index(s, ticket)].pending)
    } else {
        None
    }
}

/// What losing writability sends to the producers among `s`, in order.
spec fn producer_closes(s: Seq<PeerEntry>) -> Seq<Effect>
    decreases s.len(),
{
    if s.len() == 0 {
        Seq::empty()
    } else {
        producer_closes(s.drop_last()) + if s.last().peer is Semantic {
            seq![
                Effect::Send(s.last().conn, Reply::SemanticRefused(None, SemanticRefusal::ResourceExhausted)),
                Effect::Close(s.last().conn),
            ]
        } else {
            Seq::empty()
        }
    }
}

/// The operation pending under `ticket`, if one is.
spec fn pending_of(s: Seq<PendingEntry>, ticket: u64) -> Option<Pending> {
    if exists|i: int| 0 <= i < s.len() && #[trigger] s[i].ticket == ticket {
        Some(s[pending_index(s, ticket)].pending)
    } else {
        None
    }
}

spec fn input_of(p: Pending) -> Option<(ConnId, OwnedInput)> {
    match p {
        Pending::Input(c, i) => Some((c, i)),
        _ => None,
    }
}

/// The entry filed at `i` is the one its ticket finds.
proof fn lemma_pending_at(s: Seq<PendingEntry>, next: u64, i: int)
    requires
        tickets_fresh(s, next),
        0 <= i < s.len(),
    ensures
        pending_kind_of(s, s[i].ticket) == Some(pending_kind(s[i].pending)),
        pending_input_of(s, s[i].ticket) == input_of(s[i].pending),
        pending_of(s, s[i].ticket) == Some(s[i].pending),
{
    let t = s[i].ticket;
    assert(exists|k: int| 0 <= k < s.len() && #[trigger] s[k].ticket == t) by {
        assert(s[i].ticket == t);
    }
    let j = pending_index(s, t);
    assert(0 <= j < s.len() && s[j].ticket == t);
    if j < i {
        assert(s[j].ticket != s[i].ticket);
    } else if i < j {
        assert(s[i].ticket != s[j].ticket);
    }
}

/// Queued correlations are nonzero, increase along the queue and stay
/// below the next one to be issued.
spec fn queries_ordered(q: Seq<PendingQuery>, next: u64) -> bool {
    &&& q.len() <= QUERY_LIMIT
    &&& forall|i: int| 0 <= i < q.len() ==> #[trigger] q[i].correlation != 0
    &&& forall|i: int, j: int|
        0 <= i < j < q.len() ==> #[trigger] q[i].correlation < #[trigger] q[j].correlation
    &&& next != 0 ==> forall|i: int| 0 <= i < q.len() ==> #[trigger] q[i].correlation < next
}

/// The records of the replay window follow each other: each sequence is one
/// past the last and each record starts where the last ended; the window
/// ends at `end` and, while sequences remain, just before `next`.
pub open spec fn replay_contiguous(r: Seq<OutputRecord>, next: u64, end: u64) -> bool {
    &&& forall|i: int| 0 <= i < r.len() - 1 ==> #[trigger] follows(r, i)
    &&& r.len() > 0 ==> r.last().offset + r.last().bytes@.len() == end
    &&& r.len() > 0 && next != 0 ==> r.last().sequence + 1 == next
    &&& forall|i: int| 0 <= i < r.len() ==> #[trigger] r[i].sequence != 0
    &&& forall|i: int| 0 <= i < r.len() ==> #[trigger] r[i].offset + r[i].bytes@.len() <= end
}

/// The source filed under `name`, if one is.
spec fn source_of(s: Seq<SourceEntry>, name: Seq<u8>) -> Option<Source> {
    if exists|i: int| 0 <= i < s.len() && #[trigger] s[i].name@ == name {
        Some(s[source_index(s, name)].source)
    } else {
        None
    }
}

/// Where the source named `name` is filed, when it is.
spec fn source_index(s: Seq<SourceEntry>, name: Seq<u8>) -> int {
    choose|i: int| 0 <= i < s.len() && #[trigger] s[i].name@ == name
}

/// Whether a pending entry is a registration for `conn` or for `name`.
spec fn hello_for(e: PendingEntry, conn: ConnId, name: Seq<u8>) -> bool {
    e.pending matches Pending::Hello(h) && (h.source.binding.conn == conn || h.name@ == name)
}

/// Whether a pending entry is a registration of a source not yet filed.
spec fn fresh_hello(e: PendingEntry, s: Seq<SourceEntry>) -> bool {
    e.pending matches Pending::Hello(h) && source_of(s, h.name@) is None
}

/// How many pending registrations name a source not yet filed.
spec fn fresh_hellos(p: Seq<PendingEntry>, s: Seq<SourceEntry>) -> nat
    decreases p.len(),
{
    if p.len() == 0 {
        0
    } else {
        fresh_hellos(p.drop_last(), s) + if fresh_hello(p.last(), s) {
            1nat
        } else {
            0nat
        }
    }
}

/// A written application of the producer on `conn` that was not yet
/// reported missing.
spec fn lost_application(a: Application, conn: ConnId) -> bool {
    a.binding.conn == conn && a.state is Written && a.emitted & 2 == 0
}

impl Machine {
    /// The machine's invariant.
    pub closed spec fn wf(&self) -> bool {
        &&& self.generation != 0 && nonzero(self.incarnation@)
        &&& peers_sorted(self.peers@)
        &&& sources_sorted(self.sources@)
        &&& applications_sorted(self.applications@)
        &&& tickets_fresh(self.pending@, self.next_ticket)
        &&& queries_ordered(self.queries@, self.query_next)
        &&& replay_contiguous(self.replay@, self.next_sequence, self.next_offset)
        &&& self.lease.epoch <= self.allocated
        &&& self.lease.epoch == 0 ==> self.lease.owner is None && self.lease.inflight is None
            && self.lease.cached is None
        &&& self.lease.cached matches Some(c) ==> c.1@.len() == 43 && c.0.request_id != 0
        &&& self.lease.inflight matches Some(i) ==> i.epoch == self.lease.epoch && i.request_id != 0
        &&& self.lease.cached matches Some(c) ==> c.0.epoch != 0
        &&& forall|i: int| 0 <= i < self.pending@.len() ==> pending_ok(#[trigger] self.pending@[i].pending)
        &&& forall|i: int| 0 <= i < self.applications@.len() ==> application_ok(#[trigger] self.applications@[i])
    }

    /// The session's generation.
    pub closed spec fn spec_generation(&self) -> u32 {
        self.generation
    }

    /// The epoch last handed out.
    pub closed spec fn spec_allocated(&self) -> u32 {
        self.allocated
    }

    /// The lease's holder and epoch, while it is held.
    pub closed spec fn spec_owner(&self) -> Option<(ConnId, u32)> {
        match self.lease.owner {
            Some(conn) => Some((conn, self.lease.epoch)),
            None => None,
        }
    }

    /// The lease's epoch, zero while no lease stands.
    pub closed spec fn spec_lease_epoch(&self) -> u32 {
        self.lease.epoch
    }

    /// The token semantic producers must present; all zero when the
    /// session offers no semantic capability.
    pub closed spec fn spec_semantic_token(&self) -> Seq<u8> {
        self.semantic_token@
    }

    /// The token of the lease that stands.
    pub closed spec fn spec_lease_token(&self) -> Seq<u8> {
        self.lease.token@
    }

    /// Whether the lease that stands ran past its deadline by `now`.
    pub closed spec fn spec_lease_lapsed(&self, now: u64) -> bool {
        self.lease.epoch != 0 && now >= self.lease.deadline
    }

    /// Whether a connection is a controller, and if so whether it is
    /// attached and whether it asked for plain output.
    pub closed spec fn spec_controller(&self, conn: ConnId) -> Option<(bool, bool)> {
        match peer_of(self.peers@, conn) {
            Some(Peer::Controller(attached, non_vt)) => Some((attached, non_vt)),
            _ => None,
        }
    }

    /// Whether a connection is a semantic producer.
    pub closed spec fn spec_is_producer(&self, conn: ConnId) -> bool {
        peer_of(self.peers@, conn) matches Some(Peer::Semantic(_))
    }

    /// The phase of a controller.
    pub closed spec fn spec_phase(&self, conn: ConnId) -> Option<Phase> {
        match self.spec_controller(conn) {
            Some((attached, _)) => Some(
                phase_of(attached, self.lease.owner == Some(conn), self.lease.role),
            ),
            None => None,
        }
    }

    /// The correlation the next query carries.
    pub closed spec fn spec_query_next(&self) -> u64 {
        self.query_next
    }

    /// Whether a delegated query may still be issued or its exhaustion
    /// still be reported.
    pub closed spec fn spec_exhaustion_pending(&self) -> bool {
        self.query_exhaustion_pending
    }

    /// The lease holder to whom queries go: it holds the lease, is an
    /// attached controller that did not ask for plain output, and the
    /// correlations are not spent and reported.
    pub closed spec fn spec_query_owner(&self) -> Option<(ConnId, u32)> {
        if (self.query_next != 0 || self.query_exhaustion_pending) && self.lease.owner is Some
            && self.spec_controller(self.lease.owner->0) == Some((true, false)) {
            self.spec_owner()
        } else {
            None
        }
    }

    /// The queries awaiting a reply, by connection and correlation.
    pub closed spec fn spec_queries(&self) -> Seq<(ConnId, u64)> {
        self.queries@.map_values(|q: PendingQuery| (q.conn, q.correlation))
    }

    /// The offset the next output starts at.
    pub closed spec fn spec_output_end(&self) -> u64 {
        self.next_offset
    }

    /// The sequence of the next output record; zero once exhausted.
    pub closed spec fn spec_next_sequence(&self) -> u64 {
        self.next_sequence
    }

    /// The output records still held for replay.
    pub closed spec fn spec_replay(&self) -> Seq<OutputRecord> {
        self.replay@
    }

    /// The sequence of the last record dropped from replay, zero while none
    /// was.
    pub closed spec fn spec_lost(&self) -> u64 {
        self.lost
    }

    /// The most bytes the replay window spans.
    pub closed spec fn spec_replay_limit(&self) -> u64 {
        self.replay_limit
    }

    /// The termination under way: when it started, whether it was forced,
    /// and whether its report deadline passed.
    pub closed spec fn spec_termination(&self) -> Option<(u64, bool, bool)> {
        match self.termination {
            Some(t) => Some((t.started, t.method == 2, t.expired)),
            None => None,
        }
    }

    /// Whether the store accepts semantic writes.
    pub closed spec fn spec_writable(&self) -> bool {
        self.writable
    }

    /// A machine for `generation` and `incarnation`, accepting producers
    /// that present `semantic_token` (none when it is all zero).
    pub fn new(generation: u32, incarnation: [u8; 16], semantic_token: [u8; 16]) -> (r: Self)
        requires
            generation != 0,
            nonzero(incarnation@),
        ensures
            r.wf(),
            r.spec_generation() == generation,
            r.spec_allocated() == 0,
            r.spec_owner() is None && r.spec_lease_epoch() == 0,
            forall|c: ConnId| r.spec_controller(c) is None && !r.spec_is_producer(c),
            r.spec_query_next() == 1 && !r.spec_exhaustion_pending() && r.spec_queries().len() == 0,
            r.spec_output_end() == 0 && r.spec_next_sequence() == 1 && r.spec_replay().len() == 0,
            r.spec_lost() == 0 && r.spec_replay_limit() == u64::MAX,
            r.spec_termination() is None && r.spec_termination_state() is None,
            r.spec_writable(),
            r.spec_semantic_token() == semantic_token@ && r.spec_incarnation() == incarnation@,
            r.spec_lease_role() == LeaseRole::Viewer && r.spec_inflight() is None && r.spec_cached() is None,
            r.spec_next_ticket() == 1 && forall|t: u64| #[trigger] r.spec_pending_kind(t) is None,
            r.spec_semantic_idle() && r.spec_source_room(),
            forall|n: Seq<u8>| #[trigger] r.spec_source_binding(n) is None && !r.spec_hello_loses(n),
            forall|c: ConnId, n: Seq<u8>| !#[trigger] r.spec_hello_clash(c, n),
            forall|now: u64| !r.spec_lease_lapsed(now),
    {
        let r = Machine {
            generation,
            incarnation,
            allocated: 0,
            lease: Lease::vacant(),
            semantic_token,
            sources: Vec::new(),
            applications: Vec::new(),
            writable: true,
            peers: Vec::new(),
            pending: Vec::new(),
            next_ticket: 1,
            queries: Vec::new(),
            query_next: 1,
            query_exhaustion_pending: false,
            replay: Vec::new(),
            replay_limit: u64::MAX,
            next_sequence: 1,
            next_offset: 0,
            lost: 0,
            identity: Vec::new(),
            termination: None,
        };
        assert(r.spec_queries() =~= Seq::<(ConnId, u64)>::empty());
        r
    }

    /// Sets the identity that termination requests must name and the most
    /// bytes of output kept for replay.
    pub fn configure(&mut self, identity: Vec<u8>, limit: usize)
        requires
            old(self).wf(),
        ensures
            final(self).wf(),
            final(self).spec_replay_limit() == limit,
            final(self).spec_identity() == identity@,
            kept(*old(self), *final(self), true, true, true, true, false),
    {
        self.identity = identity;
        self.replay_limit = limit as u64;
        proof { lemma_kept(*old(self), *self, true, true, true, true, false); }
    }

    /// The identity termination requests must name.
    pub closed spec fn spec_identity(&self) -> Seq<u8> {
        self.identity@
    }

    /// The binding of the source filed under `name`: the connection of its
    /// producer and its epoch.
    pub closed spec fn spec_source_binding(&self, name: Seq<u8>) -> Option<(ConnId, u32)> {
        match source_of(self.sources@, name) {
            Some(s) => Some((s.binding.conn, s.binding.epoch)),
            None => None,
        }
    }

    /// Whether the source filed under `name` keeps a snapshot.
    pub closed spec fn spec_source_stateful(&self, name: Seq<u8>) -> bool {
        source_of(self.sources@, name) matches Some(s) && s.flags & STATEFUL == STATEFUL
    }

    /// Whether the source filed under `name` awaits the store.
    pub closed spec fn spec_source_busy(&self, name: Seq<u8>) -> bool {
        source_of(self.sources@, name) matches Some(s) && s.pending != 0
    }

    /// Whether a registration for `conn` or for the source `name` already
    /// awaits the store.
    pub closed spec fn spec_hello_clash(&self, conn: ConnId, name: Seq<u8>) -> bool {
        exists|i: int| 0 <= i < self.pending@.len() && hello_for(#[trigger] self.pending@[i], conn, name)
    }

    /// Whether one more source may be filed: the sources filed and those
    /// awaiting the store stay under the limit.
    pub closed spec fn spec_source_room(&self) -> bool {
        self.sources@.len() < SOURCE_LIMIT && fresh_hellos(self.pending@, self.sources@) < SOURCE_LIMIT
            - self.sources@.len()
    }

    /// Whether registering `name` anew supersedes an active producer that
    /// has written applications not yet reported missing.
    pub closed spec fn spec_hello_loses(&self, name: Seq<u8>) -> bool {
        source_of(self.sources@, name) matches Some(s) && s.flags & ACTIVE == ACTIVE && exists|j: int|
            0 <= j < self.applications@.len() && lost_application(#[trigger] self.applications@[j], s.binding.conn)
    }

    /// The kind of the operation pending under `ticket`, as `completes`
    /// numbers them, if one is.
    pub closed spec fn spec_pending_kind(&self, ticket: u64) -> Option<u8> {
        pending_kind_of(self.pending@, ticket)
    }

    /// The connection and input whose write waits under `ticket`, if an
    /// input's does.
    pub closed spec fn spec_pending_input(&self, ticket: u64) -> Option<(ConnId, OwnedInput)> {
        pending_input_of(self.pending@, ticket)
    }

    /// The source and acknowledgement whose snapshot change waits under
    /// `ticket`, if one does.
    pub closed spec fn spec_pending_ack(&self, ticket: u64) -> Option<(Seq<u8>, SemanticAck)> {
        match pending_of(self.pending@, ticket) {
            Some(Pending::Ack(name, ack)) => Some((name@, ack)),
            _ => None,
        }
    }

    /// The connection, epoch and snapshot need of the registration that
    /// waits under `ticket`, if one does.
    pub closed spec fn spec_pending_hello(&self, ticket: u64) -> Option<(ConnId, u32, bool)> {
        match pending_of(self.pending@, ticket) {
            Some(Pending::Hello(h)) => Some(
                (h.source.binding.conn, h.source.binding.epoch, h.source.flags & STATEFUL == STATEFUL),
            ),
            _ => None,
        }
    }

    /// The source, producer connection and event of the producer's event
    /// that waits under `ticket`, if one does.
    pub closed spec fn spec_pending_event(&self, ticket: u64) -> Option<(Seq<u8>, ConnId, SemanticEvent)> {
        match pending_of(self.pending@, ticket) {
            Some(Pending::Semantic(name, binding, event, _)) => Some((name@, binding.conn, event)),
            _ => None,
        }
    }

    /// The source a producer on `conn` registered, if `conn` is one.
    pub closed spec fn spec_producer_name(&self, conn: ConnId) -> Option<Seq<u8>> {
        match peer_of(self.peers@, conn) {
            Some(Peer::Semantic(name)) => Some(name@),
            _ => None,
        }
    }

    /// The status of the source filed under `name`, if one is.
    pub closed spec fn spec_source_status(&self, name: Seq<u8>) -> Option<SourceStatus> {
        match source_of(self.sources@, name) {
            Some(s) => Some(s.status),
            None => None,
        }
    }

    /// The refusals and closings a loss of writability sends: for every
    /// producer, in connection order, a refusal for want of resources and
    /// then closing it.
    pub closed spec fn spec_producer_closes(&self) -> Seq<Effect> {
        producer_closes(self.peers@)
    }

    /// Whether no semantic source is filed and no application is known.
    pub closed spec fn spec_semantic_idle(&self) -> bool {
        self.sources@.len() == 0 && self.applications@.len() == 0
    }

    /// The lease holder's input still awaiting its receipt.
    pub closed spec fn spec_inflight(&self) -> Option<OwnedInput> {
        self.lease.inflight
    }

    /// The last input answered under the lease, with its receipt.
    pub closed spec fn spec_cached(&self) -> Option<(OwnedInput, Seq<u8>)> {
        match self.lease.cached {
            Some(c) => Some((c.0, c.1@)),
            None => None,
        }
    }

    /// The ticket the next write to the terminal carries; zero once the
    /// tickets are spent.
    pub closed spec fn spec_next_ticket(&self) -> u64 {
        self.next_ticket
    }

    /// The role of the lease that stands.
    pub closed spec fn spec_lease_role(&self) -> LeaseRole {
        self.lease.role
    }

    /// The session's incarnation.
    pub closed spec fn spec_incarnation(&self) -> Seq<u8> {
        self.incarnation@
    }

    pub closed spec fn spec_incarnation_bytes(&self) -> [u8; 16] {
        self.incarnation
    }

    /// The highest output sequence a viewer may acknowledge: the last one
    /// kept for replay, or the last one lost.
    pub closed spec fn spec_replay_high(&self) -> u64 {
        if self.replay@.len() > 0 {
            self.replay@.last().sequence
        } else {
            self.lost
        }
    }

    /// Sets the correlation the next delegated query carries, while no
    /// query awaits a reply.
    pub fn set_query_next(&mut self, next: u64)
        requires
            old(self).wf(),
            old(self).spec_queries().len() == 0,
        ensures
            final(self).wf(),
            final(self).spec_query_next() == next,
            kept(*old(self), *final(self), true, true, false, true, true),
    {
        self.query_next = next;
        proof { lemma_kept(*old(self), *self, true, true, false, true, true); }
    }

    /// The machine with `allocated` as the last epoch handed out.
    pub fn allocated(self, allocated: u32) -> (r: Self)
        requires
            self.wf(),
            self.spec_lease_epoch() <= allocated,
        ensures
            r.wf(),
            r.spec_allocated() == allocated,
            kept(self, r, false, true, true, true, true),
    {
        let ghost before = self;
        let mut m = self;
        m.allocated = allocated;
        proof { lemma_kept(before, m, false, true, true, true, true); }
        m
    }

    fn find_peer(&self, conn: ConnId) -> (r: Option<usize>)
        requires
            peers_sorted(self.peers@),
        ensures
            r matches Some(i) ==> i < self.peers@.len() && self.peers@[i as int].conn == conn
                && peer_index(self.peers@, conn) == i && has_peer(self.peers@, conn),
            r is None ==> !has_peer(self.peers@, conn),
    {
        let mut i: usize = 0;
        while i < self.peers.len()
            invariant
                i <= self.peers@.len(),
                peers_sorted(self.peers@),
                forall|j: int| 0 <= j < i ==> #[trigger] self.peers@[j].conn != conn,
            decreases self.peers@.len() - i,
        {
            if self.peers[i].conn == conn {
                proof {
                    assert(has_peer(self.peers@, conn));
                    let k = peer_index(self.peers@, conn);
                    if k < i {
                        assert(self.peers@[k].conn != conn);
                    } else if k > i {
                        assert(self.peers@[i as int].conn < self.peers@[k].conn);
                    }
                }
                return Some(i);
            }
            i = i + 1;
        }
        None
    }

    /// Records `conn` as `peer`, in place of what it was.
    fn put_peer(&mut self, conn: ConnId, peer: Peer)
        requires
            peers_sorted(old(self).peers@),
        ensures
            peers_sorted(final(self).peers@),
            peer_of(final(self).peers@, conn) == Some(peer),
            forall|c: ConnId| c != conn ==> peer_of(final(self).peers@, c) == peer_of(
                old(self).peers@,
                c,
            ),
            final(self).lease == old(self).lease && final(self).queries == old(self).queries
                && final(self).query_next == old(self).query_next
                && final(self).query_exhaustion_pending == old(self).query_exhaustion_pending,
            final(self).sources == old(self).sources && final(self).applications == old(self).applications
                && final(self).pending == old(self).pending && final(self).next_ticket == old(self).next_ticket
                && final(self).replay == old(self).replay && final(self).next_sequence == old(self).next_sequence
                && final(self).next_offset == old(self).next_offset && final(self).lost == old(self).lost
                && final(self).termination == old(self).termination && final(self).allocated == old(self).allocated
                && final(self).generation == old(self).generation && final(self).incarnation == old(self).incarnation
                && final(self).writable == old(self).writable && final(self).identity == old(self).identity
                && final(self).replay_limit == old(self).replay_limit && final(self).semantic_token == old(self).semantic_token,
    {
        let ghost before = self.peers@;
        let mut i: usize = 0;
        while i < self.peers.len() && self.peers[i].conn < conn
            invariant
                i <= self.peers@.len(),
                self.peers@ == before,
                peers_sorted(before),
                forall|j: int| 0 <= j < i ==> #[trigger] before[j].conn < conn,
            decreases self.peers@.len() - i,
        {
            i = i + 1;
        }
        if i < self.peers.len() && self.peers[i].conn == conn {
            self.peers.set(i, PeerEntry { conn, peer });
            proof {
                let after = self.peers@;
                assert forall|a: int, b: int| 0 <= a < b < after.len() implies #[trigger] after[a].conn
                    < #[trigger] after[b].conn by {
                    assert(before[a].conn < before[b].conn);
                }
                assert(after[i as int].conn == conn);
                assert(has_peer(after, conn));
                let k = peer_index(after, conn);
                if k != i {
                    if k < i {
                        assert(after[k].conn < after[i as int].conn);
                    } else {
                        assert(after[i as int].conn < after[k].conn);
                    }
                }
                assert forall|c: ConnId| c != conn implies peer_of(after, c) == peer_of(before, c) by {
                    if has_peer(before, c) {
                        let kb = peer_index(before, c);
                        assert(kb != i);
                        assert(after[kb].conn == c);
                        assert(has_peer(after, c));
                        let ka = peer_index(after, c);
                        if ka != kb {
                            if ka < kb {
                                assert(after[ka].conn < after[kb].conn);
                            } else {
                                assert(after[kb].conn < after[ka].conn);
                            }
                        }
                    } else if has_peer(after, c) {
                        let ka = peer_index(after, c);
                        assert(ka != i);
                        assert(before[ka].conn == c);
                    }
                }
            }
        } else {
            self.peers.insert(i, PeerEntry { conn, peer });
            proof {
                let after = self.peers@;
                assert(after.len() == before.len() + 1);
                assert forall|j: int| 0 <= j < after.len() implies #[trigger] after[j] == (if j < i {
                    before[j]
                } else if j == i {
                    PeerEntry { conn, peer }
                } else {
                    before[j - 1]
                }) by {}
                assert forall|a: int, b: int| 0 <= a < b < after.len() implies #[trigger] after[a].conn
                    < #[trigger] after[b].conn by {
                    if a < i && b < i {
                        assert(before[a].conn < before[b].conn);
                    } else if a < i && b == i {
                    } else if a < i {
                        assert(before[a].conn < conn);
                        assert(i < before.len());
                        assert(before[i as int].conn > conn);
                        if b - 1 > i {
                            assert(before[i as int].conn < before[b - 1].conn);
                        }
                    } else if a == i {
                        assert(before[i as int].conn > conn);
                        if b - 1 > i {
                            assert(before[i as int].conn < before[b - 1].conn);
                        }
                    } else {
                        assert(before[a - 1].conn < before[b - 1].conn);
                    }
                }
                assert(after[i as int].conn == conn);
                assert(has_peer(after, conn));
                let k = peer_index(after, conn);
                if k != i {
                    if k < i {
                        assert(after[k].conn < after[i as int].conn);
                    } else {
                        assert(after[i as int].conn < after[k].conn);
                    }
                }
                assert forall|c: ConnId| c != conn implies peer_of(after, c) == peer_of(before, c) by {
                    if has_peer(before, c) {
                        let kb = peer_index(before, c);
                        let m = if kb < i { kb } else { kb + 1 };
                        assert(after[m].conn == c);
                        assert(has_peer(after, c));
                        let ka = peer_index(after, c);
                        if ka != m {
                            if ka < m {
                                assert(after[ka].conn < after[m].conn);
                            } else {
                                assert(after[m].conn < after[ka].conn);
                            }
                        }
                    } else if has_peer(after, c) {
                        let ka = peer_index(after, c);
                        assert(ka != i);
                        if ka < i {
                            assert(before[ka].conn == c);
                        } else {
                            assert(before[ka - 1].conn == c);
                        }
                    }
                }
            }
        }
    }

    /// Removes `conn` and hands back what it was.
    fn take_peer(&mut self, conn: ConnId) -> (r: Option<Peer>)
        requires
            peers_sorted(old(self).peers@),
        ensures
            peers_sorted(final(self).peers@),
            r == peer_of(old(self).peers@, conn),
            peer_of(final(self).peers@, conn) is None,
            forall|c: ConnId| c != conn ==> peer_of(final(self).peers@, c) == peer_of(
                old(self).peers@,
                c,
            ),
            final(self).lease == old(self).lease && final(self).queries == old(self).queries
                && final(self).query_next == old(self).query_next
                && final(self).query_exhaustion_pending == old(self).query_exhaustion_pending,
            final(self).sources == old(self).sources && final(self).applications == old(self).applications
                && final(self).pending == old(self).pending && final(self).next_ticket == old(self).next_ticket
                && final(self).replay == old(self).replay && final(self).next_sequence == old(self).next_sequence
                && final(self).next_offset == old(self).next_offset && final(self).lost == old(self).lost
                && final(self).termination == old(self).termination && final(self).allocated == old(self).allocated
                && final(self).generation == old(self).generation && final(self).incarnation == old(self).incarnation
                && final(self).writable == old(self).writable && final(self).identity == old(self).identity
                && final(self).replay_limit == old(self).replay_limit && final(self).semantic_token == old(self).semantic_token,
    {
        let ghost before = self.peers@;
        match self.find_peer(conn) {
            None => None,
            Some(i) => {
                let entry = self.peers.remove(i);
                proof {
                    let after = self.peers@;
                    assert forall|j: int| 0 <= j < after.len() implies #[trigger] after[j] == (if j < i {
                        before[j]
                    } else {
                        before[j + 1]
                    }) by {}
                    assert forall|a: int, b: int| 0 <= a < b < after.len() implies #[trigger] after[a].conn
                        < #[trigger] after[b].conn by {
                        let a0 = if a < i { a } else { a + 1 };
                        let b0 = if b < i { b } else { b + 1 };
                        assert(before[a0].conn < before[b0].conn);
                    }
                    if has_peer(after, conn) {
                        let ka = peer_index(after, conn);
                        let k0 = if ka < i { ka } else { ka + 1 };
                        assert(before[k0].conn == conn);
                        if k0 < i {
                            assert(before[k0].conn < before[i as int].conn);
                        } else {
                            assert(before[i as int].conn < before[k0].conn);
                        }
                    }
                    assert forall|c: ConnId| c != conn implies peer_of(after, c) == peer_of(before, c) by {
                        if has_peer(before, c) {
                            let kb = peer_index(before, c);
                            assert(kb != i);
                            let m = if kb < i { kb } else { kb - 1 };
                            assert(after[m].conn == c);
                            assert(has_peer(after, c));
                            let ka = peer_index(after, c);
                            if ka != m {
                                if ka < m {
                                    assert(after[ka].conn < after[m].conn);
                                } else {
                                    assert(after[m].conn < after[ka].conn);
                                }
                            }
                        } else if has_peer(after, c) {
                            let ka = peer_index(after, c);
                            let k0 = if ka < i { ka } else { ka + 1 };
                            assert(before[k0].conn == c);
                        }
                    }
                }
                Some(entry.peer)
            },
        }
    }

    /// Registers a controller connection, unattached.
    pub fn register_controller(&mut self, conn: ConnId)
        requires
            old(self).wf(),
        ensures
            final(self).wf(),
            final(self).spec_controller(conn) == Some((false, false)),
            !final(self).spec_is_producer(conn),
            forall|c: ConnId| c != conn ==> final(self).spec_controller(c) == old(self).spec_controller(c)
                && final(self).spec_is_producer(c) == old(self).spec_is_producer(c),
            final(self).spec_owner() == old(self).spec_owner(),
            final(self).spec_query_next() == old(self).spec_query_next(),
            final(self).spec_queries() == old(self).spec_queries(),
            final(self).spec_exhaustion_pending() == old(self).spec_exhaustion_pending(),
            final(self).spec_replay() == old(self).spec_replay(),
            final(self).spec_output_end() == old(self).spec_output_end(),
            same_but_peers(*old(self), *final(self)),
    {
        self.put_peer(conn, Peer::Controller(false, false));
    }

    /// The phase of a controller connection.
    pub fn phase(&self, conn: ConnId) -> (r: Option<Phase>)
        requires
            self.wf(),
        ensures
            r == self.spec_phase(conn),
    {
        match self.find_peer(conn) {
            Some(i) => match self.peers[i].peer {
                Peer::Controller(attached, _) => {
                    let owns = match self.lease.owner {
                        Some(o) => o == conn,
                        None => false,
                    };
                    Some(
                        if attached && owns {
                            Phase::Viewer
                        } else if attached {
                            Phase::Observer
                        } else if owns && self.lease.role == LeaseRole::InputOnly {
                            Phase::InputOnly
                        } else if owns {
                            Phase::Resumed
                        } else {
                            Phase::Unattached
                        },
                    )
                },
                Peer::Semantic(_) => None,
            },
            None => None,
        }
    }

    /// Whether a controller is attached.
    pub fn attached(&self, conn: ConnId) -> (r: bool)
        requires
            self.wf(),
        ensures
            r == (self.spec_controller(conn) matches Some((true, _))),
    {
        match self.find_peer(conn) {
            Some(i) => match self.peers[i].peer {
                Peer::Controller(attached, _) => attached,
                Peer::Semantic(_) => false,
            },
            None => false,
        }
    }

    /// Whether a controller may send a message of `kind` in its phase.
    pub fn legal(&self, conn: ConnId, kind: u8) -> (r: bool)
        requires
            self.wf(),
        ensures
            r == (self.spec_phase(conn) matches Some(p) && spec_legal_in_phase(p, kind)),
    {
        match self.phase(conn) {
            Some(phase) => legal_in_phase(phase, kind),
            None => false,
        }
    }

    fn owner(&self) -> (r: Option<(ConnId, u32)>)
        ensures
            r == self.spec_owner(),
    {
        match self.lease.owner {
            Some(conn) => Some((conn, self.lease.epoch)),
            None => None,
        }
    }

    fn owns(&self, conn: ConnId) -> (r: bool)
        ensures
            r == (self.lease.owner == Some(conn)),
    {
        match self.lease.owner {
            Some(o) => o == conn,
            None => false,
        }
    }

    /// The lease holder to whom queries are delegated.
    pub fn query_owner(&self) -> (r: Option<(ConnId, u32)>)
        requires
            self.wf(),
        ensures
            r == self.spec_query_owner(),
    {
        if !(self.query_next != 0 || self.query_exhaustion_pending) {
            return None;
        }
        match self.lease.owner {
            Some(conn) => match self.find_peer(conn) {
                Some(i) => match self.peers[i].peer {
                    Peer::Controller(true, false) => Some((conn, self.lease.epoch)),
                    _ => None,
                },
                None => None,
            },
            None => None,
        }
    }

    /// The offset at which the next output starts.
    pub fn output_end(&self) -> (r: u64)
        ensures
            r == self.spec_output_end(),
    {
        self.next_offset
    }

    /// Whether a termination's report deadline passed.
    pub fn termination_expired(&self) -> (r: bool)
        ensures
            r == (self.spec_termination() matches Some(t) && t.2),
    {
        match &self.termination {
            Some(t) => t.expired,
            None => false,
        }
    }

    /// When the termination under way started.
    pub fn termination_started(&self) -> (r: Option<u64>)
        ensures
            r == (match self.spec_termination() {
                Some(t) => Some(t.0),
                None => None::<u64>,
            }),
    {
        match &self.termination {
            Some(t) => Some(t.started),
            None => None,
        }
    }

    /// Whether the termination under way is forced.
    pub fn termination_forced(&self) -> (r: Option<bool>)
        ensures
            r == (match self.spec_termination() {
                Some(t) => Some(t.1),
                None => None::<bool>,
            }),
    {
        match &self.termination {
            Some(t) => Some(t.method == 2),
            None => None,
        }
    }
}


/// Whether a tick at `now` forces the termination under way: its grace
/// period ran out while it was still gentle.
pub open spec fn tick_force(m: Machine, now: u64) -> bool {
    m.spec_termination_state() matches Some(t) && t.3 == 1 && now >= sat_add(t.1, 5000)
}

/// To whom a tick at `now` reports the termination under way: to the peer
/// awaiting it, once its report deadline passed and it was not yet
/// reported.
pub open spec fn tick_report(m: Machine, now: u64) -> Option<ConnId> {
    match m.spec_termination_state() {
        Some(t) => if !t.4 && now >= sat_add(t.1, 10000) {
            t.0
        } else {
            None
        },
        None => None,
    }
}

/// The termination effects of a tick at `now`: forcing the child, then the
/// report.
pub open spec fn tick_marks(m: Machine, now: u64) -> Seq<Effect> {
    (if tick_force(m, now) {
        seq![Effect::Terminate(true)]
    } else {
        Seq::empty()
    }) + match tick_report(m, now) {
        Some(p) => seq![Effect::ReportTermination(p)],
        None => Seq::empty(),
    }
}

/// `after` holds the termination effects of a tick at `k`.
pub open spec fn marks_at(after: Seq<Effect>, k: int, marks: Seq<Effect>) -> bool {
    0 <= k && k + marks.len() <= after.len() && after.subrange(k, k + marks.len()) == marks
}

/// Whether nothing but the termination is due at `now`: no lease lapsed,
/// no query waits, no source or application is known.
pub open spec fn quiet(m: Machine, now: u64) -> bool {
    !m.spec_lease_lapsed(now) && m.spec_queries().len() == 0 && m.spec_semantic_idle()
}

/// How a tick at `now` is answered: after what a lapsed lease's end writes
/// come its termination effects; when nothing else is due (no lapsed
/// lease, no query, no source or application) they are all.
pub open spec fn tick_answer(old: Machine, now: u64, before: Seq<Effect>, after: Seq<Effect>) -> bool {
    &&& exists|k: int| before.len() <= k && (!old.spec_lease_lapsed(now) ==> k == before.len()) && #[trigger] marks_at(after, k, tick_marks(old, now))
    &&& !old.spec_lease_lapsed(now) && old.spec_queries().len() == 0 && old.spec_semantic_idle() ==> after == before + tick_marks(old, now)
}

/// How a tick at `now` moves the termination under way: it stays under
/// way from when it started; it is forced once it was, or once its grace
/// period ran out; its report deadline passed once it had, or once it ran
/// out.
pub open spec fn tick_step(old: Machine, new: Machine, now: u64) -> bool {
    match (old.spec_termination_state(), new.spec_termination_state()) {
        (None, None) => true,
        (Some((p0, started0, c0, m0, e0)), Some((p1, started1, c1, m1, e1))) => {
            let forced = m0 == 1 && now >= sat_add(started0, 5000);
            let reported = !e0 && now >= sat_add(started0, 10000);
            &&& started1 == started0
            &&& m1 == (if forced { 2u8 } else { m0 })
            &&& c1 == (if forced { c0 | 4 } else { c0 })
            &&& e1 == (e0 || reported)
            &&& p1 == (if reported { None } else { p0 })
        },
        _ => false,
    }
}

/// The termination report falls due once: after a tick that reports it, no
/// later tick reports it again.
pub proof fn lemma_report_falls_due_once(old: Machine, new: Machine, now: u64, later: u64)
    requires
        tick_step(old, new, now),
        tick_report(old, now) is Some,
    ensures
        tick_report(new, later) is None,
{
}

/// `b` keeps what `a` holds, but for what is not marked kept: the epoch
/// last handed out, the peers, the correlation of the next query, the
/// termination under way, and the identity and replay limit.
pub open spec fn kept(a: Machine, b: Machine, allocated: bool, peers: bool, next: bool, termination: bool, config: bool) -> bool {
    &&& b.spec_generation() == a.spec_generation() && b.spec_incarnation() == a.spec_incarnation()
    &&& b.spec_incarnation_bytes() == a.spec_incarnation_bytes()
    &&& b.spec_owner() == a.spec_owner() && b.spec_lease_epoch() == a.spec_lease_epoch()
    &&& b.spec_lease_role() == a.spec_lease_role() && b.spec_lease_token() == a.spec_lease_token()
    &&& forall|now: u64| #[trigger] b.spec_lease_lapsed(now) == a.spec_lease_lapsed(now)
    &&& b.spec_inflight() == a.spec_inflight() && b.spec_cached() == a.spec_cached()
    &&& b.spec_next_ticket() == a.spec_next_ticket()
    &&& forall|t: u64| #[trigger] b.spec_pending_kind(t) == a.spec_pending_kind(t) && b.spec_pending_input(t)
        == a.spec_pending_input(t) && b.spec_pending_ack(t) == a.spec_pending_ack(t) && b.spec_pending_hello(t)
        == a.spec_pending_hello(t) && b.spec_pending_event(t) == a.spec_pending_event(t)
    &&& b.spec_exhaustion_pending() == a.spec_exhaustion_pending() && b.spec_queries() == a.spec_queries()
    &&& b.spec_output_end() == a.spec_output_end() && b.spec_next_sequence() == a.spec_next_sequence()
    &&& b.spec_replay() == a.spec_replay() && b.spec_lost() == a.spec_lost()
    &&& b.spec_writable() == a.spec_writable() && b.spec_semantic_token() == a.spec_semantic_token()
    &&& b.spec_semantic_idle() == a.spec_semantic_idle() && b.spec_source_room() == a.spec_source_room()
    &&& forall|n: Seq<u8>| #[trigger] b.spec_source_binding(n) == a.spec_source_binding(n)
        && b.spec_source_stateful(n) == a.spec_source_stateful(n) && b.spec_source_busy(n) == a.spec_source_busy(n)
        && b.spec_hello_loses(n) == a.spec_hello_loses(n) && b.spec_source_status(n) == a.spec_source_status(n)
    &&& forall|c: ConnId, n: Seq<u8>| #[trigger] b.spec_hello_clash(c, n) == a.spec_hello_clash(c, n)
    &&& allocated ==> b.spec_allocated() == a.spec_allocated()
    &&& peers ==> b.spec_producer_closes() == a.spec_producer_closes() && forall|c: ConnId| #[trigger] b.spec_controller(c)
        == a.spec_controller(c) && b.spec_is_producer(c) == a.spec_is_producer(c) && b.spec_producer_name(c)
        == a.spec_producer_name(c)
    &&& next ==> b.spec_query_next() == a.spec_query_next()
    &&& termination ==> b.spec_termination_state() == a.spec_termination_state()
    &&& config ==> b.spec_identity() == a.spec_identity() && b.spec_replay_limit() == a.spec_replay_limit()
}

/// Machines that agree on their fields agree on what they show, but for
/// what is not marked kept.
proof fn lemma_kept(a: Machine, b: Machine, allocated: bool, peers: bool, next: bool, termination: bool, config: bool)
    requires
        a.generation == b.generation && a.incarnation == b.incarnation && a.lease == b.lease,
        a.semantic_token == b.semantic_token && a.sources@ == b.sources@ && a.applications@ == b.applications@,
        a.writable == b.writable && a.pending@ == b.pending@ && a.next_ticket == b.next_ticket,
        a.queries@ == b.queries@ && a.query_exhaustion_pending == b.query_exhaustion_pending,
        a.replay@ == b.replay@ && a.next_sequence == b.next_sequence && a.next_offset == b.next_offset
            && a.lost == b.lost,
        allocated ==> a.allocated == b.allocated,
        peers ==> a.peers@ == b.peers@,
        next ==> a.query_next == b.query_next,
        termination ==> a.termination == b.termination,
        config ==> a.identity@ == b.identity@ && a.replay_limit == b.replay_limit,
    ensures
        kept(a, b, allocated, peers, next, termination, config),
{
    assert(a.spec_queries() =~= b.spec_queries());
    assert forall|n: Seq<u8>| #[trigger] b.spec_hello_loses(n) == a.spec_hello_loses(n) by {
        assert(source_of(a.sources@, n) == source_of(b.sources@, n));
    }
}

/// `b` differs from `a` at most in its peers.
pub open spec fn same_but_peers(a: Machine, b: Machine) -> bool {
    &&& b.spec_generation() == a.spec_generation() && b.spec_incarnation() == a.spec_incarnation()
    &&& b.spec_allocated() == a.spec_allocated() && b.spec_owner() == a.spec_owner()
    &&& b.spec_lease_epoch() == a.spec_lease_epoch() && b.spec_lease_role() == a.spec_lease_role()
    &&& b.spec_lease_token() == a.spec_lease_token()
    &&& forall|now: u64| b.spec_lease_lapsed(now) == a.spec_lease_lapsed(now)
    &&& b.spec_inflight() == a.spec_inflight() && b.spec_cached() == a.spec_cached()
    &&& b.spec_next_ticket() == a.spec_next_ticket()
    &&& forall|t: u64| b.spec_pending_kind(t) == a.spec_pending_kind(t)
    &&& b.spec_query_next() == a.spec_query_next() && b.spec_exhaustion_pending() == a.spec_exhaustion_pending()
    &&& b.spec_queries() == a.spec_queries()
    &&& b.spec_output_end() == a.spec_output_end() && b.spec_next_sequence() == a.spec_next_sequence()
    &&& b.spec_replay() == a.spec_replay() && b.spec_lost() == a.spec_lost()
    &&& b.spec_replay_limit() == a.spec_replay_limit() && b.spec_identity() == a.spec_identity()
    &&& b.spec_termination_state() == a.spec_termination_state()
    &&& b.spec_writable() == a.spec_writable() && b.spec_semantic_token() == a.spec_semantic_token()
    &&& b.spec_semantic_idle() == a.spec_semantic_idle() && b.spec_source_room() == a.spec_source_room()
    &&& forall|n: Seq<u8>| #[trigger] b.spec_source_binding(n) == a.spec_source_binding(n)
        && b.spec_source_stateful(n) == a.spec_source_stateful(n) && b.spec_source_busy(n) == a.spec_source_busy(n)
        && b.spec_hello_loses(n) == a.spec_hello_loses(n)
    &&& forall|c: ConnId, n: Seq<u8>| #[trigger] b.spec_hello_clash(c, n) == a.spec_hello_clash(c, n)
}

/// The lease holder, when one holds it.
pub open spec fn holder(m: Machine) -> Option<ConnId> {
    match m.spec_owner() {
        Some(o) => Some(o.0),
        None => None,
    }
}

/// How the machine's views fit together: a controller's phase follows from
/// whether it is attached, whether it holds the lease and the lease's role;
/// queries go to the holder while it is an attached controller that did not
/// ask for plain output and correlations are left or their end is still to
/// be reported; a controller's status tells whether it holds the lease,
/// the last epoch handed out, whether correlations are left and where the
/// output stands; the termination under way is seen in full by
/// `spec_termination_state`.
pub proof fn lemma_views_agree(m: Machine, conn: ConnId)
    ensures
        m.spec_phase(conn) == match m.spec_controller(conn) {
            Some(c) => Some(phase_of(c.0, holder(m) == Some(conn), m.spec_lease_role())),
            None => None,
        },
        m.spec_query_owner() == (if (m.spec_query_next() != 0 || m.spec_exhaustion_pending()) && holder(m) is Some
            && m.spec_controller(holder(m)->0) == Some((true, false)) {
            m.spec_owner()
        } else {
            None
        }),
        m.spec_status(conn).owns_lease == (holder(m) == Some(conn)),
        m.spec_status(conn).lease_epoch == m.spec_allocated(),
        m.spec_status(conn).query_available == (m.spec_query_next() != 0),
        m.spec_status(conn).replay.end == m.spec_output_end(),
        m.spec_status(conn).replay.complete == (m.spec_lost() == 0),
        m.spec_status(conn).replay.last == (if m.spec_replay().len() > 0 {
            m.spec_replay().last().sequence
        } else {
            0
        }),
        m.spec_status(conn).replay.first == (if m.spec_replay().len() > 0 {
            m.spec_replay()[0].sequence
        } else {
            0
        }),
        m.spec_status(conn).replay.start == (if m.spec_replay().len() > 0 {
            m.spec_replay()[0].offset
        } else {
            m.spec_output_end()
        }),
        !m.spec_status(conn).replay.modes_exact,
        m.spec_semantic_idle() ==> m.spec_status(conn).semantic_flags == 0 && m.spec_status(conn).semantic_pending == 0,
        m.wf() ==> (m.spec_status(conn).viewers <==> exists|c: ConnId| #[trigger] m.spec_controller(c) matches Some((true, _))),
        m.spec_termination() == match m.spec_termination_state() {
            Some(t) => Some((t.1, t.3 == 2, t.4)),
            None => None,
        },
{
    if m.wf() {
        let s = m.peers@;
        if any_attached(s) {
            let i = choose|i: int| 0 <= i < s.len() && #[trigger] s[i].peer matches Peer::Controller(true, _);
            lemma_peer_at(s, i);
            assert(m.spec_controller(s[i].conn) matches Some((true, _)));
        }
        if exists|c: ConnId| #[trigger] m.spec_controller(c) matches Some((true, _)) {
            let c = choose|c: ConnId| #[trigger] m.spec_controller(c) matches Some((true, _));
            let i = peer_index(s, c);
            assert(s[i].peer matches Peer::Controller(true, _));
        }
    }
}

/// The peer filed at `i` is the one its connection finds.
proof fn lemma_peer_at(s: Seq<PeerEntry>, i: int)
    requires
        peers_sorted(s),
        0 <= i < s.len(),
    ensures
        peer_of(s, s[i].conn) == Some(s[i].peer),
{
    let c = s[i].conn;
    assert(has_peer(s, c)) by {
        assert(s[i].conn == c);
    }
    let j = peer_index(s, c);
    if j < i {
        assert(s[j].conn < s[i].conn);
    } else if i < j {
        assert(s[i].conn < s[j].conn);
    }
}

/// Whether `binding` binds a source to `conn`.
pub open spec fn bound_to(binding: Option<(ConnId, u32)>, conn: ConnId) -> bool {
    binding matches Some(b) && b.0 == conn
}

/// Whether `conn` is a producer whose own source is still bound to it.
pub open spec fn bound_producer(m: Machine, conn: ConnId) -> bool {
    m.spec_producer_name(conn) matches Some(name) && bound_to(m.spec_source_binding(name), conn)
}

/// Every source bound to `conn` is disconnected.
pub open spec fn sources_closed(old: Machine, new: Machine, conn: ConnId) -> bool {
    forall|n: Seq<u8>| #[trigger] bound_to(old.spec_source_binding(n), conn) ==> new.spec_source_status(n) == Some(
        SourceStatus::Disconnected,
    )
}

/// What a controller's going away does: a lease it held is no longer held,
/// under the same epoch, and the fallbacks of the queries it owned are
/// written, in order.
pub open spec fn controller_gone(old: Machine, new: Machine, conn: ConnId, fx: Seq<Effect>) -> bool {
    &&& new.spec_lease_epoch() == old.spec_lease_epoch()
    &&& holder(new) == (if holder(old) == Some(conn) {
        None
    } else {
        holder(old)
    })
    &&& writes(fx, old.spec_gone(conn))
}

/// How a completion under `ticket` is answered: under a ticket nothing
/// awaits it changes nothing; of the wrong kind for what its ticket awaits
/// it leaves that awaited and answers nothing; the write of an input is
/// answered as `written_answer` says.
pub open spec fn complete_answer(
    old: Machine,
    new: Machine,
    before: Seq<Effect>,
    after: Seq<Effect>,
    ticket: Ticket,
    c: Completion,
) -> bool {
    &&& match old.spec_pending_kind(ticket.value()) {
        None => new == old && after == before,
        Some(k) => !completes(k, c) ==> after == before && new.spec_pending_kind(ticket.value()) == Some(k),
    }
    &&& old.spec_pending_input(ticket.value()) matches Some((conn, input)) ==> match c {
        Completion::Write(written, error) => written_answer(old, before, after, conn, input, written, error),
        _ => true,
    }
    &&& old.spec_pending_ack(ticket.value()) matches Some((name, ack)) ==> match c {
        Completion::Sources(stored) => ack_answer(old, before, after, name, ack, stored)
            && new.spec_writable() == old.spec_writable(),
        _ => true,
    }
    &&& old.spec_pending_kind(ticket.value()) == Some(4u8) ==> match c {
        Completion::Sources(stored) => if stored {
            after == before && new.spec_writable() == old.spec_writable()
        } else {
            !new.spec_writable() && after == before + if old.spec_writable() {
                old.spec_producer_closes()
            } else {
                Seq::empty()
            }
        },
        _ => true,
    }
    &&& old.spec_pending_hello(ticket.value()) matches Some((conn, epoch, snapshot)) ==> match c {
        Completion::Sources(stored) => new.spec_writable() == old.spec_writable() && if stored {
            after.len() > before.len() && after.last() == Effect::Send(
                conn,
                Reply::SemanticHello(SemanticHelloAck { epoch, snapshot_required: snapshot }),
            )
        } else {
            after == before + seq![
                Effect::Send(conn, Reply::SemanticRefused(None, SemanticRefusal::ResourceExhausted)),
                Effect::Close(conn),
            ]
        },
        _ => true,
    }
    &&& old.spec_pending_event(ticket.value()) matches Some((name, conn, event)) ==> match c {
        Completion::Semantic(position) => event_answer(old, before, after, name, conn, event, position),
        _ => true,
    }
}

/// How the store's outcome for a producer's snapshot change is answered:
/// the producer of the source is acknowledged when it was stored and
/// refused for want of resources when it was not, nobody else being
/// disturbed; nothing is sent when the source is gone.
pub open spec fn ack_answer(
    old: Machine,
    before: Seq<Effect>,
    after: Seq<Effect>,
    name: Seq<u8>,
    ack: SemanticAck,
    stored: bool,
) -> bool {
    match old.spec_source_binding(name) {
        None => after == before,
        Some(b) => after == before.push(
            if stored {
                Effect::Send(b.0, Reply::SemanticAck(ack))
            } else {
                Effect::Send(b.0, Reply::SemanticRefused(None, SemanticRefusal::ResourceExhausted))
            },
        ),
    }
}

/// How the store's outcome for a producer's event is answered: nothing
/// when its source is gone; the refusal the store gave, with the event;
/// and, for an event other than a snapshot, its acknowledgement at the
/// position it was stored at.
pub open spec fn event_answer(
    old: Machine,
    before: Seq<Effect>,
    after: Seq<Effect>,
    name: Seq<u8>,
    conn: ConnId,
    event: SemanticEvent,
    position: Result<EventPosition, SemanticRefusal>,
) -> bool {
    if old.spec_source_binding(name) is None {
        after == before
    } else {
        match position {
            Err(e) => after == before.push(Effect::Send(conn, Reply::SemanticRefused(Some(event), e))),
            Ok(p) => event.kind != SemanticEventKind::Snapshot ==> after == before.push(
                Effect::Send(
                    conn,
                    Reply::SemanticAck(
                        SemanticAck {
                            id: event.id,
                            sequence: event.sequence,
                            status: SemanticAckStatus::Accepted,
                            position: Some(p),
                        },
                    ),
                ),
            ),
        }
    }
}

/// How the terminal's write of an input is answered: the input in flight is
/// answered, to the lease holder if there is one, with its receipt for
/// what was written and any error; an input no longer in flight closes the
/// connection that sent it.
pub open spec fn written_answer(
    old: Machine,
    before: Seq<Effect>,
    after: Seq<Effect>,
    conn: ConnId,
    input: OwnedInput,
    written: u64,
    error: Option<u16>,
) -> bool {
    if in_flight(old.spec_inflight(), input) {
        match holder(old) {
            Some(o) => after == before.push(after.last()) && is_input_reply(
                after.last(),
                o,
                receipt_layout(input, old.spec_generation(), old.spec_incarnation_bytes(), written, error),
            ),
            None => after == before,
        }
    } else {
        after == before.push(Effect::Close(conn))
    }
}

/// `new` holds `old` and what followed it.
pub open spec fn extends(new: Seq<Effect>, old: Seq<Effect>) -> bool {
    new.len() >= old.len() && new.take(old.len() as int) == old
}

proof fn lemma_extends_self(s: Seq<Effect>)
    ensures
        extends(s, s),
{
    assert(s.take(s.len() as int) =~= s);
}

/// A write of `bytes` straight to the terminal, outside any ticket.
pub open spec fn is_write(e: Effect, bytes: Seq<u8>) -> bool {
    e matches Effect::Write(t, b) && t.value() == 0 && b@ == bytes
}

/// `fx` writes each of `bs` in turn.
pub open spec fn writes(fx: Seq<Effect>, bs: Seq<Seq<u8>>) -> bool {
    fx.len() == bs.len() && forall|i: int| 0 <= i < bs.len() ==> is_write(#[trigger] fx[i], bs[i])
}

/// The bytes of a fallback, if there is one.
pub open spec fn fallback_seq(fallback: Option<Vec<u8>>) -> Seq<Seq<u8>> {
    match fallback {
        Some(b) => seq![b@],
        None => Seq::empty(),
    }
}

/// The fallbacks of queued queries, in queue order.
spec fn fallbacks(q: Seq<PendingQuery>) -> Seq<Seq<u8>>
    decreases q.len(),
{
    if q.len() == 0 {
        Seq::empty()
    } else {
        fallbacks(q.drop_last()) + fallback_seq(q.last().fallback)
    }
}

/// The effects and state a query leaves: its fallback when no holder can
/// take it; a close (after an error when the correlations ran out) and the
/// fallbacks of the holder's queries when the holder cannot take more; and
/// otherwise the query sent under the next correlation.
pub open spec fn spec_query_step(
    a: Machine,
    b: Machine,
    added: Seq<Effect>,
    raw: Seq<u8>,
    class: u8,
    fallback: Option<Vec<u8>>,
) -> bool {
    match a.spec_query_owner() {
        None => writes(added, fallback_seq(fallback)) && b.spec_query_next()
            == a.spec_query_next() && b.spec_queries() == a.spec_queries()
            && b.spec_exhaustion_pending() == a.spec_exhaustion_pending(),
        Some((owner, epoch)) => if a.spec_queries().len() == QUERY_LIMIT {
            added.len() >= 1 && added[0] == Effect::Close(owner) && writes(
                added.skip(1),
                a.spec_gone(owner) + fallback_seq(fallback),
            ) && b.spec_query_next() == a.spec_query_next()
                && b.spec_exhaustion_pending() == a.spec_exhaustion_pending()
        } else if a.spec_query_next() == 0 {
            added.len() >= 2 && is_controller_error(added[0], owner, 13) && added[1]
                == Effect::Close(owner) && writes(
                added.skip(2),
                a.spec_gone(owner) + fallback_seq(fallback),
            ) && b.spec_query_next() == 0
                && !b.spec_exhaustion_pending()
        } else {
            added.len() == 1 && is_query_send(
                added[0],
                owner,
                a.spec_query_next(),
                epoch,
                class,
                raw,
            ) && b.spec_query_next() == (if a.spec_query_next() == u64::MAX {
                0
            } else {
                a.spec_query_next() + 1
            }) && b.spec_exhaustion_pending() == (a.spec_query_next()
                == u64::MAX) && b.spec_queries() == a.spec_queries().push(
                (owner, a.spec_query_next()),
            )
        },
    }
}

/// An error sent to a controller, with its code.
pub open spec fn is_controller_error(e: Effect, conn: ConnId, code: u16) -> bool {
    e matches Effect::Send(c, Reply::ControllerError(k, _)) && c == conn && k == code
}

/// A query sent to `conn` with the given coordinates.
pub open spec fn is_query_send(
    e: Effect,
    conn: ConnId,
    correlation: u64,
    epoch: u32,
    class: u8,
    bytes: Seq<u8>,
) -> bool {
    e matches Effect::QuerySend(c, q) && c == conn && q.correlation == correlation && q.epoch
        == epoch && q.class == class && q.bytes@ == bytes
}

impl Machine {
    /// The fallbacks that go out when `conn` stops owning the queued
    /// queries: all of them, in order, when the first is `conn`'s.
    pub closed spec fn spec_gone(&self, conn: ConnId) -> Seq<Seq<u8>> {
        if self.queries@.len() > 0 && self.queries@[0].conn == conn {
            fallbacks(self.queries@)
        } else {
            Seq::empty()
        }
    }

    fn fallback(fallback: Option<Vec<u8>>, fx: &mut Vec<Effect>)
        ensures
            final(fx)@.len() == old(fx)@.len() + fallback_seq(fallback).len(),
            extends(final(fx)@, old(fx)@),
            writes(final(fx)@.skip(old(fx)@.len() as int), fallback_seq(fallback)),
    {
        let ghost f = fallback;
        match fallback {
            Some(bytes) => {
                fx.push(Effect::Write(Ticket(0), bytes));
            },
            None => {},
        }
        proof {
            assert(fx@.take(old(fx)@.len() as int) =~= old(fx)@);
            if f is Some {
                assert(fx@.skip(old(fx)@.len() as int)[0] == fx@[old(fx)@.len() as int]);
            }
        }
    }

    /// Drops the queued queries when their owner `conn` goes, writing their
    /// fallbacks in order.
    fn queries_gone(&mut self, conn: ConnId, fx: &mut Vec<Effect>)
        requires
            old(self).wf(),
        ensures
            final(self).wf(),
            final(fx)@.len() == old(fx)@.len() + old(self).spec_gone(conn).len(),
            extends(final(fx)@, old(fx)@),
            writes(final(fx)@.skip(old(fx)@.len() as int), old(self).spec_gone(conn)),
            old(self).spec_gone(conn).len() > 0 || old(self).queries@.len() == 0 || old(self).queries@[0].conn == conn
                ==> final(self).queries@.len() == 0 || old(self).queries@[0].conn != conn,
            old(self).queries@.len() > 0 && old(self).queries@[0].conn == conn ==> final(self).queries@.len() == 0,
            !(old(self).queries@.len() > 0 && old(self).queries@[0].conn == conn) ==> final(self).queries == old(self).queries,
            final(self).peers == old(self).peers && final(self).lease == old(self).lease,
            final(self).query_next == old(self).query_next,
            final(self).query_exhaustion_pending == old(self).query_exhaustion_pending,
            final(self).sources == old(self).sources && final(self).applications == old(self).applications
                && final(self).pending == old(self).pending && final(self).next_ticket == old(self).next_ticket
                && final(self).replay == old(self).replay && final(self).next_sequence == old(self).next_sequence
                && final(self).next_offset == old(self).next_offset && final(self).lost == old(self).lost
                && final(self).termination == old(self).termination && final(self).allocated == old(self).allocated
                && final(self).generation == old(self).generation && final(self).incarnation == old(self).incarnation
                && final(self).writable == old(self).writable && final(self).identity == old(self).identity
                && final(self).replay_limit == old(self).replay_limit && final(self).semantic_token == old(self).semantic_token,
    {
        proof {
            lemma_extends_self(fx@);
        }
        if self.queries.len() > 0 && self.queries[0].conn == conn {
            let ghost start = fx@;
            let ghost all = self.queries@;
            let mut queries: Vec<PendingQuery> = Vec::new();
            std::mem::swap(&mut queries, &mut self.queries);
            let mut i: usize = 0;
            while i < queries.len()
                invariant
                    queries@ == all,
                    i <= all.len(),
                    fx@.len() == start.len() + fallbacks(all.take(i as int)).len(),
                    fx@.take(start.len() as int) == start,
                    writes(fx@.skip(start.len() as int), fallbacks(all.take(i as int))),
                decreases all.len() - i,
            {
                let ghost before = fx@;
                let q = &queries[i];
                let fb = match &q.fallback {
                    Some(b) => Some(crate::bytes::to_vec(b.as_slice())),
                    None => None,
                };
                Self::fallback(fb, fx);
                proof {
                    assert(all.take(i + 1).drop_last() =~= all.take(i as int));
                    assert(all.take(i + 1).last() == all[i as int]);
                    assert(fallback_seq(fb) == fallback_seq(all[i as int].fallback));
                    let bs = fallbacks(all.take(i + 1));
                    assert(bs == fallbacks(all.take(i as int)) + fallback_seq(fb));
                    assert(fx@.take(start.len() as int) =~= start) by {
                        assert(fx@.take(before.len() as int) == before);
                        assert forall|k: int| 0 <= k < start.len() implies fx@[k] == start[k] by {
                            assert(fx@[k] == fx@.take(before.len() as int)[k]);
                            assert(before[k] == before.take(start.len() as int)[k]);
                        }
                    }
                    let tail = fx@.skip(start.len() as int);
                    let prev = before.skip(start.len() as int);
                    let n = fallbacks(all.take(i as int)).len();
                    assert forall|k: int| 0 <= k < bs.len() implies is_write(#[trigger] tail[k], bs[k]) by {
                        if k < n {
                            assert(tail[k] == fx@[start.len() + k]);
                            assert(fx@[start.len() + k] == fx@.take(before.len() as int)[start.len() + k]);
                            assert(prev[k] == before[start.len() + k]);
                        } else {
                            assert(tail[k] == fx@.skip(before.len() as int)[k - n]);
                        }
                    }
                }
                i = i + 1;
            }
            proof {
                assert(all.take(all.len() as int) =~= all);
            }
        }
    }

    /// Delegates a terminal query to the lease holder, or answers it with
    /// its fallback when no holder can take it.
    fn query(
        &mut self,
        now: u64,
        raw: Vec<u8>,
        shape: QueryShape,
        fallback: Option<Vec<u8>>,
        fx: &mut Vec<Effect>,
    )
        requires
            old(self).wf(),
        ensures
            final(self).wf(),
            extends(final(fx)@, old(fx)@),
            spec_query_step(*old(self), *final(self), final(fx)@.skip(old(fx)@.len() as int), raw@, shape.class, fallback),
            final(self).spec_owner() == old(self).spec_owner(),
            forall|c: ConnId| final(self).spec_controller(c) == old(self).spec_controller(c),
            final(self).spec_replay() == old(self).spec_replay(),
            final(self).spec_output_end() == old(self).spec_output_end(),
            final(self).spec_termination() == old(self).spec_termination(),
            final(self).lease == old(self).lease && final(self).allocated == old(self).allocated,
            final(self).replay == old(self).replay && final(self).next_sequence == old(self).next_sequence
                && final(self).next_offset == old(self).next_offset && final(self).lost == old(self).lost
                && final(self).termination == old(self).termination
                && final(self).generation == old(self).generation && final(self).incarnation == old(self).incarnation
                && final(self).identity == old(self).identity && final(self).replay_limit == old(self).replay_limit,
            same_semantics(&*final(self), &*old(self)),
    {
        let ghost start = fx@;
        let (owner, epoch) = match self.query_owner() {
            Some(o) => o,
            None => {
                Self::fallback(fallback, fx);
                return;
            },
        };
        let correlation = self.query_next;
        if self.queries.len() == QUERY_LIMIT || correlation == 0 {
            if self.queries.len() != QUERY_LIMIT {
                self.query_exhaustion_pending = false;
                fx.push(
                    Effect::Send(owner, Reply::ControllerError(13, "query correlation exhausted")),
                );
            }
            fx.push(Effect::Close(owner));
            let ghost mid = fx@;
            let ghost gone = self.spec_gone(owner);
            self.queries_gone(owner, fx);
            let ghost mid2 = fx@;
            Self::fallback(fallback, fx);
            proof {
                let lead: int = mid.len() - start.len();
                assert(fx@.take(start.len() as int) =~= start) by {
                    assert forall|k: int| 0 <= k < start.len() implies fx@[k] == start[k] by {
                        assert(fx@[k] == fx@.take(mid2.len() as int)[k]);
                        assert(mid2[k] == mid2.take(mid.len() as int)[k]);
                    }
                }
                let added = fx@.skip(start.len() as int);
                let bs = gone + fallback_seq(fallback);
                assert(added.len() == lead + bs.len());
                assert forall|k: int| 0 <= k < bs.len() implies is_write(#[trigger] added.skip(lead)[k], bs[k]) by {
                    assert(added.skip(lead)[k] == fx@[mid.len() + k]);
                    if k < gone.len() {
                        assert(fx@[mid.len() + k] == fx@.take(mid2.len() as int)[mid.len() + k]);
                        assert(mid2.skip(mid.len() as int)[k] == mid2[mid.len() + k]);
                    } else {
                        assert(fx@.skip(mid2.len() as int)[k - gone.len()] == fx@[mid.len() + k]);
                    }
                }
                assert(added[0] == fx@[start.len() as int]);
                assert(fx@[start.len() as int] == fx@.take(mid2.len() as int)[start.len() as int]);
                assert(mid2[start.len() as int] == mid2.take(mid.len() as int)[start.len() as int]);
                if lead == 2 {
                    assert(added[1] == fx@[start.len() + 1int]);
                    assert(fx@[start.len() + 1int] == fx@.take(mid2.len() as int)[start.len() + 1int]);
                    assert(mid2[start.len() + 1int] == mid2.take(mid.len() as int)[start.len() + 1int]);
                }
                assert(added.skip(lead).len() == bs.len());
            }
            return;
        }
        self.query_next = correlation.wrapping_add(1);
        self.query_exhaustion_pending = self.query_next == 0;
        let class = shape.class;
        self.queries.push(
            PendingQuery {
                conn: owner,
                correlation,
                epoch,
                shape,
                fallback,
                deadline: now.saturating_add(250),
            },
        );
        fx.push(Effect::QuerySend(owner, Query { correlation, epoch, class, bytes: raw }));
        proof {
            let q = self.queries@;
            let old_q = old(self).queries@;
            assert forall|a: int, b: int| 0 <= a < b < q.len() implies #[trigger] q[a].correlation
                < #[trigger] q[b].correlation by {
                if b < old_q.len() {
                    assert(old_q[a].correlation < old_q[b].correlation);
                } else {
                    assert(old_q[a].correlation < correlation);
                }
            }
            if self.query_next != 0 {
                assert forall|a: int| 0 <= a < q.len() implies #[trigger] q[a].correlation < self.query_next by {
                    if a < old_q.len() {
                        assert(old_q[a].correlation < correlation);
                    }
                }
            }
            assert(self.spec_queries() =~= old(self).spec_queries().push((owner, correlation)));
            assert(fx@.take(start.len() as int) =~= start);
            assert(fx@.skip(start.len() as int)[0] == fx@[start.len() as int]);
        }
    }
}


/// Why a fresh request is refused, given the epoch of the standing lease.
pub open spec fn fresh_refusal(lease_epoch: u32, r: LeaseRequest) -> Option<ResultReason> {
    if lease_epoch != 0 {
        Some(ResultReason::Busy)
    } else if r.epoch != 0 {
        Some(ResultReason::BadEpoch)
    } else if nonzero(r.incarnation@) {
        Some(ResultReason::BadIncarnation)
    } else if nonzero(r.token@) {
        Some(ResultReason::BadToken)
    } else {
        None
    }
}

/// Why a resume is refused, given the standing lease's epoch, whether it
/// has a holder, its role and token, and the session's incarnation.
pub open spec fn resume_refusal(
    epoch: u32,
    held: bool,
    role: LeaseRole,
    token: Seq<u8>,
    incarnation: Seq<u8>,
    r: LeaseRequest,
) -> Option<ResultReason> {
    if epoch == 0 {
        Some(ResultReason::NotHeld)
    } else if held {
        Some(ResultReason::Busy)
    } else if r.incarnation@ != incarnation {
        Some(ResultReason::BadIncarnation)
    } else if r.epoch != epoch {
        Some(ResultReason::BadEpoch)
    } else if r.role != role {
        Some(ResultReason::BadRole)
    } else if r.token@ != token {
        Some(ResultReason::BadToken)
    } else {
        None
    }
}

/// A refusal for `reason`, naming `role` and the last epoch handed out.
pub open spec fn is_refusal(r: LeaseResult, reason: ResultReason, role: LeaseRole, epoch: u32) -> bool {
    r.outcome == ResultOutcome::Refused && r.reason == reason && r.role == role && r.epoch == epoch
        && !nonzero(r.token@)
}

/// The epoch of the lease standing at `now`: zero when none stands or it
/// ran past its deadline.
pub open spec fn standing_epoch(m: Machine, now: u64) -> u32 {
    if m.spec_lease_lapsed(now) {
        0
    } else {
        m.spec_lease_epoch()
    }
}

/// Why `request` at `now` is refused by the lease that stands then, if it
/// is.
pub open spec fn lease_request_refusal(m: Machine, now: u64, request: LeaseRequest) -> Option<ResultReason> {
    let e = standing_epoch(m, now);
    if request.operation == LeaseOperation::Fresh {
        fresh_refusal(e, request)
    } else {
        resume_refusal(
            e,
            !m.spec_lease_lapsed(now) && m.spec_owner() is Some,
            m.spec_lease_role(),
            m.spec_lease_token(),
            m.spec_incarnation(),
            request,
        )
    }
}

/// How a lease request of `conn` at `now` for `role`, fresh or a resume,
/// is answered when `reason` is why the standing lease refuses it: refused
/// for that reason; refused as exhausted when no token could be drawn or
/// the epochs are spent; otherwise granted (or resumed) under the next
/// epoch (or the standing one) with the drawn token, `conn` then holding
/// it.
pub open spec fn lease_answer(
    old: Machine,
    new: Machine,
    conn: ConnId,
    fresh: bool,
    role: LeaseRole,
    reason: Option<ResultReason>,
    now: u64,
    token: Option<[u8; 16]>,
    r: LeaseResult,
) -> bool {
    let epoch: u32 = if fresh {
        if old.spec_allocated() < u32::MAX {
            (old.spec_allocated() + 1) as u32
        } else {
            0
        }
    } else {
        standing_epoch(old, now)
    };
    if reason is Some {
        is_refusal(r, reason->0, role, old.spec_allocated())
    } else if !drawn(token) || epoch == 0 {
        is_refusal(r, ResultReason::Exhausted, role, old.spec_allocated())
    } else {
        &&& r.outcome == (if fresh {
            ResultOutcome::Granted
        } else {
            ResultOutcome::Resumed
        })
        &&& r.reason == ResultReason::NoReason && r.role == role && r.epoch == epoch && r.token == token->0
        &&& new.spec_owner() == Some((conn, epoch))
        &&& fresh ==> new.spec_allocated() == epoch
    }
}

/// The answer to `request` sent to `conn`, as `lease_answer` says.
pub open spec fn answers_lease(
    e: Effect,
    conn: ConnId,
    old: Machine,
    new: Machine,
    request: LeaseRequest,
    now: u64,
    token: Option<[u8; 16]>,
) -> bool {
    e matches Effect::Send(c, Reply::Lease(lr)) && c == conn && lease_answer(
        old,
        new,
        conn,
        request.operation == LeaseOperation::Fresh,
        request.role,
        lease_request_refusal(old, now, request),
        now,
        token,
        lr,
    )
}

/// Whether a usable token was drawn.
pub open spec fn drawn(token: Option<[u8; 16]>) -> bool {
    token matches Some(t) && nonzero(t@)
}

/// Whether a lease answer grants the lease.
pub open spec fn grants(result: Option<LeaseResult>) -> bool {
    result matches Some(r) && r.outcome == ResultOutcome::Granted
}

/// The attach answer for `conn`: the lease answer to a fresh viewer
/// request when it asked for the lease, and the geometry to resize to when
/// it gave one and holds the lease, resumed or just granted.
pub open spec fn attach_effect(
    e: Effect,
    old: Machine,
    new: Machine,
    conn: ConnId,
    non_vt: bool,
    lease: bool,
    resumed: bool,
    columns: u16,
    rows: u16,
    now: u64,
    token: Option<[u8; 16]>,
) -> bool {
    match e {
        Effect::Attached(c, v, result, resize) => {
            &&& c == conn && v == non_vt
            &&& match result {
                Some(lr) => lease && lease_answer(
                    old,
                    new,
                    conn,
                    true,
                    LeaseRole::Viewer,
                    if standing_epoch(old, now) != 0 {
                        Some(ResultReason::Busy)
                    } else {
                        None
                    },
                    now,
                    token,
                    lr,
                ),
                None => !lease,
            }
            &&& resize == if columns != 0 && (resumed || grants(result)) {
                Some((rows, columns))
            } else {
                None
            }
        },
        _ => false,
    }
}

/// A replay of `rec` to `conn`.
pub open spec fn replays_to(e: Effect, conn: ConnId, rec: OutputRecord) -> bool {
    e matches Effect::Output(Some(c), r) && c == conn && record_view(r) == record_view(rec)
}

spec fn source_flag(e: SourceEntry) -> u8 {
    if e.source.flags & STATEFUL != STATEFUL {
        0
    } else if e.source.flags & EXACT == EXACT {
        if e.source.capabilities & 6 == 6 {
            5
        } else {
            1
        }
    } else if e.source.status == SourceStatus::Degraded || e.source.status
        == SourceStatus::Disconnected {
        2
    } else {
        0
    }
}

spec fn flags_of(s: Seq<SourceEntry>) -> u8
    decreases s.len(),
{
    if s.len() == 0 {
        0
    } else {
        flags_of(s.drop_last()) | source_flag(s.last())
    }
}

spec fn written_count(s: Seq<Application>) -> nat
    decreases s.len(),
{
    if s.len() == 0 {
        0
    } else {
        written_count(s.drop_last()) + if s.last().state is Written {
            1nat
        } else {
            0nat
        }
    }
}

spec fn any_attached(s: Seq<PeerEntry>) -> bool {
    exists|i: int| 0 <= i < s.len() && #[trigger] s[i].peer matches Peer::Controller(true, _)
}

impl Machine {
    /// What a controller's status report carries.
    pub closed spec fn spec_status(&self, conn: ConnId) -> PolicyStatus {
        let r = self.replay@;
        PolicyStatus {
            owns_lease: self.lease.owner == Some(conn),
            viewers: any_attached(self.peers@),
            lease_epoch: self.allocated,
            semantic_flags: flags_of(self.sources@),
            semantic_pending: #[verifier::truncate] (written_count(self.applications@) as u16),
            query_available: self.query_next != 0,
            replay: ReplayDescriptor {
                first: if r.len() > 0 {
                    r[0].sequence
                } else {
                    0
                },
                last: if r.len() > 0 {
                    r.last().sequence
                } else {
                    0
                },
                start: if r.len() > 0 {
                    r[0].offset
                } else {
                    self.next_offset
                },
                end: self.next_offset,
                complete: self.lost == 0,
                modes_exact: false,
            },
        }
    }

    fn semantic_flags(&self) -> (r: u8)
        ensures
            r == flags_of(self.sources@),
    {
        let mut flags: u8 = 0;
        let mut i: usize = 0;
        while i < self.sources.len()
            invariant
                i <= self.sources@.len(),
                flags == flags_of(self.sources@.take(i as int)),
            decreases self.sources@.len() - i,
        {
            let source = &self.sources[i].source;
            let bit: u8 = if source.flags & STATEFUL != STATEFUL {
                0
            } else if source.flags & EXACT == EXACT {
                if source.capabilities & 6 == 6 {
                    5
                } else {
                    1
                }
            } else if source.status == SourceStatus::Degraded || source.status
                == SourceStatus::Disconnected {
                2
            } else {
                0
            };
            proof {
                assert(self.sources@.take(i + 1).drop_last() =~= self.sources@.take(i as int));
            }
            flags = flags | bit;
            i = i + 1;
        }
        proof {
            assert(self.sources@.take(i as int) =~= self.sources@);
        }
        flags
    }

    fn written_applications(&self) -> (r: u16)
        ensures
            r == #[verifier::truncate] (written_count(self.applications@) as u16),
    {
        let mut count: usize = 0;
        let mut i: usize = 0;
        while i < self.applications.len()
            invariant
                i <= self.applications@.len(),
                count == written_count(self.applications@.take(i as int)),
                count <= i,
            decreases self.applications@.len() - i,
        {
            proof {
                assert(self.applications@.take(i + 1).drop_last() =~= self.applications@.take(i as int));
            }
            if let AppState::Written = self.applications[i].state {
                count = count + 1;
            }
            i = i + 1;
        }
        proof {
            assert(self.applications@.take(i as int) =~= self.applications@);
        }
        #[verifier::truncate]
        (count as u16)
    }

    /// What a controller's status report says of the policy state.
    pub fn status(&self, conn: ConnId) -> (r: PolicyStatus)
        requires
            self.wf(),
        ensures
            r == self.spec_status(conn),
    {
        let mut viewers = false;
        let mut i: usize = 0;
        while i < self.peers.len()
            invariant
                i <= self.peers@.len(),
                viewers == exists|j: int| 0 <= j < i && #[trigger] self.peers@[j].peer matches Peer::Controller(true, _),
            decreases self.peers@.len() - i,
        {
            if let Peer::Controller(true, _) = self.peers[i].peer {
                viewers = true;
            }
            i = i + 1;
        }
        let n = self.replay.len();
        let replay = ReplayDescriptor {
            first: if n > 0 {
                self.replay[0].sequence
            } else {
                0
            },
            last: if n > 0 {
                self.replay[n - 1].sequence
            } else {
                0
            },
            start: if n > 0 {
                self.replay[0].offset
            } else {
                self.next_offset
            },
            end: self.next_offset,
            complete: self.lost == 0,
            modes_exact: false,
        };
        PolicyStatus {
            owns_lease: self.owns(conn),
            viewers,
            lease_epoch: self.allocated,
            semantic_flags: self.semantic_flags(),
            semantic_pending: self.written_applications(),
            query_available: self.query_next != 0,
            replay,
        }
    }

    /// Ends a lease whose deadline passed, dropping its holder's queries.
    fn expire_lease(&mut self, now: u64, fx: &mut Vec<Effect>)
        requires
            old(self).wf(),
        ensures
            final(self).wf(),
            extends(final(fx)@, old(fx)@),
            ({
                let s = old(self);
                if s.lease.epoch != 0 && now >= s.lease.deadline {
                    final(self).lease.epoch == 0 && final(self).lease.owner is None
                        && final(self).lease.deadline == 0 && (match s.lease.owner {
                        Some(c) => writes(final(fx)@.skip(old(fx)@.len() as int), s.spec_gone(c)),
                        None => final(fx)@ == old(fx)@,
                    })
                } else {
                    final(self).lease == s.lease && final(fx)@ == old(fx)@ && final(self).queries
                        == s.queries
                }
            }),
            final(self).peers == old(self).peers && final(self).allocated == old(self).allocated,
            final(self).query_next == old(self).query_next,
            final(self).query_exhaustion_pending == old(self).query_exhaustion_pending,
            final(self).sources == old(self).sources && final(self).applications == old(self).applications
                && final(self).pending == old(self).pending && final(self).next_ticket == old(self).next_ticket
                && final(self).replay == old(self).replay && final(self).next_sequence == old(self).next_sequence
                && final(self).next_offset == old(self).next_offset && final(self).lost == old(self).lost
                && final(self).termination == old(self).termination
                && final(self).generation == old(self).generation && final(self).incarnation == old(self).incarnation
                && final(self).writable == old(self).writable && final(self).identity == old(self).identity
                && final(self).replay_limit == old(self).replay_limit && final(self).semantic_token == old(self).semantic_token,
    {
        proof {
            lemma_extends_self(fx@);
        }
        if self.lease.epoch == 0 || now < self.lease.deadline {
            return;
        }
        let owner = self.lease.owner;
        self.lease = Lease::vacant();
        if let Some(conn) = owner {
            self.queries_gone(conn, fx);
        }
    }

    /// Grants or resumes the lease for `conn` on `request`, with `token` as
    /// the new token when one could be drawn.
    fn grant(&mut self, conn: ConnId, request: &LeaseRequest, now: u64, token: Option<[u8; 16]>) -> (r: LeaseResult)
        requires
            old(self).wf(),
        ensures
            final(self).wf(),
            ({
                let s = old(self);
                let fresh = request.operation == LeaseOperation::Fresh;
                let reason = if fresh {
                    fresh_refusal(s.lease.epoch, *request)
                } else {
                    resume_refusal(s.lease.epoch, s.lease.owner is Some, s.lease.role, s.lease.token@, s.incarnation@, *request)
                };
                let epoch: u32 = if fresh {
                    if s.allocated < u32::MAX { (s.allocated + 1) as u32 } else { 0 }
                } else {
                    s.lease.epoch
                };
                if reason is Some {
                    is_refusal(r, reason->0, request.role, s.allocated) && final(self).lease == s.lease
                        && final(self).allocated == s.allocated
                } else if !(token matches Some(t) && nonzero(t@)) || epoch == 0 {
                    is_refusal(r, ResultReason::Exhausted, request.role, s.allocated) && final(self).lease == s.lease
                        && final(self).allocated == s.allocated
                } else {
                    &&& r.outcome == (if fresh { ResultOutcome::Granted } else { ResultOutcome::Resumed })
                    &&& r.reason == ResultReason::NoReason && r.role == request.role && r.epoch == epoch
                    &&& r.token == token->0
                    &&& final(self).lease.owner == Some(conn) && final(self).lease.epoch == epoch
                    &&& final(self).lease.token == token->0
                    &&& final(self).lease.deadline == (if now <= u64::MAX - 10000 { (now + 10000) as u64 } else { u64::MAX })
                    &&& fresh ==> final(self).allocated == epoch && final(self).lease.role == request.role
                        && final(self).lease.inflight is None && final(self).lease.cached is None
                    &&& !fresh ==> final(self).allocated == s.allocated && final(self).lease.role == s.lease.role
                        && final(self).lease.inflight == s.lease.inflight && final(self).lease.cached == s.lease.cached
                }
            }),
            final(self).peers == old(self).peers && final(self).queries == old(self).queries,
            final(self).query_next == old(self).query_next,
            final(self).query_exhaustion_pending == old(self).query_exhaustion_pending,
            final(self).sources == old(self).sources && final(self).applications == old(self).applications
                && final(self).pending == old(self).pending && final(self).next_ticket == old(self).next_ticket
                && final(self).replay == old(self).replay && final(self).next_sequence == old(self).next_sequence
                && final(self).next_offset == old(self).next_offset && final(self).lost == old(self).lost
                && final(self).termination == old(self).termination
                && final(self).generation == old(self).generation && final(self).incarnation == old(self).incarnation
                && final(self).writable == old(self).writable && final(self).identity == old(self).identity
                && final(self).replay_limit == old(self).replay_limit && final(self).semantic_token == old(self).semantic_token,
    {
        let fresh = request.operation == LeaseOperation::Fresh;
        let reason = if fresh {
            if self.lease.epoch != 0 {
                Some(ResultReason::Busy)
            } else if request.epoch != 0 {
                Some(ResultReason::BadEpoch)
            } else if nonzero16(&request.incarnation) {
                Some(ResultReason::BadIncarnation)
            } else if nonzero16(&request.token) {
                Some(ResultReason::BadToken)
            } else {
                None
            }
        } else {
            if self.lease.epoch == 0 {
                Some(ResultReason::NotHeld)
            } else if self.lease.owner.is_some() {
                Some(ResultReason::Busy)
            } else if !same16(&request.incarnation, &self.incarnation) {
                Some(ResultReason::BadIncarnation)
            } else if request.epoch != self.lease.epoch {
                Some(ResultReason::BadEpoch)
            } else if request.role != self.lease.role {
                Some(ResultReason::BadRole)
            } else if !same16(&request.token, &self.lease.token) {
                Some(ResultReason::BadToken)
            } else {
                None
            }
        };
        let epoch: u32 = if fresh {
            if self.allocated < u32::MAX {
                self.allocated + 1
            } else {
                0
            }
        } else {
            self.lease.epoch
        };
        if let Some(reason) = reason {
            return self.refusal(request.role, reason);
        }
        let token = match token {
            Some(t) => {
                if !nonzero16(&t) || epoch == 0 {
                    return self.refusal(request.role, ResultReason::Exhausted);
                }
                t
            },
            None => {
                return self.refusal(request.role, ResultReason::Exhausted);
            },
        };
        let deadline = now.saturating_add(10000);
        if fresh {
            self.allocated = epoch;
            self.lease = Lease {
                owner: Some(conn),
                role: request.role,
                epoch,
                token,
                deadline,
                cached: None,
                inflight: None,
            };
        } else {
            self.lease.owner = Some(conn);
            self.lease.token = token;
            self.lease.deadline = deadline;
        }
        LeaseResult {
            outcome: if fresh {
                ResultOutcome::Granted
            } else {
                ResultOutcome::Resumed
            },
            reason: ResultReason::NoReason,
            role: request.role,
            epoch,
            token,
        }
    }

    fn refusal(&self, role: LeaseRole, reason: ResultReason) -> (r: LeaseResult)
        ensures
            is_refusal(r, reason, role, self.allocated),
    {
        let r = LeaseResult { outcome: ResultOutcome::Refused, reason, role, epoch: self.allocated, token: [0u8; 16] };
        assert(!nonzero(r.token@));
        r
    }

    /// Releases the lease `conn` holds under `epoch` and `token`.
    fn release_lease(&mut self, conn: ConnId, epoch: u32, token: [u8; 16]) -> (r: LeaseResult)
        requires
            old(self).wf(),
        ensures
            final(self).wf(),
            ({
                let s = old(self);
                let role = if s.lease.epoch == 0 { LeaseRole::Viewer } else { s.lease.role };
                if s.lease.owner == Some(conn) && s.lease.epoch == epoch && s.lease.token@ == token@ {
                    r.outcome == ResultOutcome::Released && r.reason == ResultReason::NoReason
                        && r.role == role && r.epoch == epoch && !nonzero(r.token@)
                        && final(self).lease.epoch == 0 && final(self).lease.owner is None
                } else {
                    is_refusal(r, ResultReason::NotHeld, role, s.allocated) && final(self).lease == s.lease
                }
            }),
            final(self).allocated == old(self).allocated,
            final(self).peers == old(self).peers && final(self).queries == old(self).queries,
            final(self).query_next == old(self).query_next,
            final(self).query_exhaustion_pending == old(self).query_exhaustion_pending,
            final(self).sources == old(self).sources && final(self).applications == old(self).applications
                && final(self).pending == old(self).pending && final(self).next_ticket == old(self).next_ticket
                && final(self).replay == old(self).replay && final(self).next_sequence == old(self).next_sequence
                && final(self).next_offset == old(self).next_offset && final(self).lost == old(self).lost
                && final(self).termination == old(self).termination
                && final(self).generation == old(self).generation && final(self).incarnation == old(self).incarnation
                && final(self).writable == old(self).writable && final(self).identity == old(self).identity
                && final(self).replay_limit == old(self).replay_limit && final(self).semantic_token == old(self).semantic_token,
    {
        let role = if self.lease.epoch == 0 {
            LeaseRole::Viewer
        } else {
            self.lease.role
        };
        if self.owns(conn) && self.lease.epoch == epoch && same16(&self.lease.token, &token) {
            self.lease = Lease::vacant();
            let r = LeaseResult { outcome: ResultOutcome::Released, reason: ResultReason::NoReason, role, epoch, token: [0u8; 16] };
            assert(!nonzero(r.token@));
            r
        } else {
            self.refusal(role, ResultReason::NotHeld)
        }
    }

    /// Extends the lease `conn` holds under `epoch` (and `token`, when
    /// given).
    fn touch_lease(&mut self, conn: ConnId, epoch: u32, token: Option<[u8; 16]>, now: u64) -> (r: bool)
        requires
            old(self).wf(),
        ensures
            final(self).wf(),
            r == (old(self).lease.owner == Some(conn) && old(self).lease.epoch == epoch && (match token {
                Some(t) => t@ == old(self).lease.token@,
                None => true,
            })),
            r ==> final(self).lease == (Lease {
                deadline: (if now <= u64::MAX - 10000 { (now + 10000) as u64 } else { u64::MAX }) as u64,
                ..old(self).lease
            }),
            !r ==> final(self).lease == old(self).lease,
            final(self).allocated == old(self).allocated,
            final(self).peers == old(self).peers && final(self).queries == old(self).queries,
            final(self).query_next == old(self).query_next,
            final(self).query_exhaustion_pending == old(self).query_exhaustion_pending,
            final(self).sources == old(self).sources && final(self).applications == old(self).applications
                && final(self).pending == old(self).pending && final(self).next_ticket == old(self).next_ticket
                && final(self).replay == old(self).replay && final(self).next_sequence == old(self).next_sequence
                && final(self).next_offset == old(self).next_offset && final(self).lost == old(self).lost
                && final(self).termination == old(self).termination
                && final(self).generation == old(self).generation && final(self).incarnation == old(self).incarnation
                && final(self).writable == old(self).writable && final(self).identity == old(self).identity
                && final(self).replay_limit == old(self).replay_limit && final(self).semantic_token == old(self).semantic_token,
    {
        if !self.owns(conn) || self.lease.epoch != epoch {
            return false;
        }
        if let Some(t) = token {
            if !same16(&self.lease.token, &t) {
                return false;
            }
        }
        self.lease.deadline = now.saturating_add(10000);
        true
    }
}


/// The sequence, offset and bytes of a record.
pub open spec fn record_view(r: OutputRecord) -> (u64, u64, Seq<u8>) {
    (r.sequence, r.offset, r.bytes@)
}

/// The sequences, offsets and bytes of records.
pub open spec fn records_view(r: Seq<OutputRecord>) -> Seq<(u64, u64, Seq<u8>)> {
    r.map_values(|x: OutputRecord| record_view(x))
}

/// Record `i + 1` follows record `i`.
pub open spec fn follows(r: Seq<OutputRecord>, i: int) -> bool {
    r[i + 1].sequence == r[i].sequence + 1 && r[i + 1].offset == r[i].offset + r[i].bytes@.len()
}

/// The termination state: the peer to report to, when it started, what
/// containment was applied, the method (1 graceful, 2 forced) and whether
/// its report deadline passed.
spec fn termination_view(t: Termination) -> (Option<ConnId>, u64, u8, u8, bool) {
    (t.peer, t.started, t.containment, t.method, t.expired)
}

impl Machine {
    /// The termination under way, in full.
    pub closed spec fn spec_termination_state(&self) -> Option<(Option<ConnId>, u64, u8, u8, bool)> {
        match self.termination {
            Some(t) => Some(termination_view(t)),
            None => None,
        }
    }

    /// Starts, joins or escalates a termination.
    fn terminate(&mut self, peer: Option<ConnId>, now: u64, force: bool, fx: &mut Vec<Effect>)
        requires
            old(self).wf(),
        ensures
            final(self).wf(),
            extends(final(fx)@, old(fx)@),
            spec_terminate_step(*old(self), *final(self), final(fx)@.skip(old(fx)@.len() as int), peer, now, force),
            termination_kept(&*old(self), &*final(self)),
            final(self).peers == old(self).peers && final(self).lease == old(self).lease,
            final(self).queries == old(self).queries && final(self).query_next == old(self).query_next,
            final(self).query_exhaustion_pending == old(self).query_exhaustion_pending,
            final(self).sources == old(self).sources && final(self).applications == old(self).applications
                && final(self).pending == old(self).pending && final(self).next_ticket == old(self).next_ticket
                && final(self).replay == old(self).replay && final(self).next_sequence == old(self).next_sequence
                && final(self).next_offset == old(self).next_offset && final(self).lost == old(self).lost
                && final(self).allocated == old(self).allocated
                && final(self).generation == old(self).generation && final(self).incarnation == old(self).incarnation
                && final(self).writable == old(self).writable && final(self).identity == old(self).identity
                && final(self).replay_limit == old(self).replay_limit && final(self).semantic_token == old(self).semantic_token,
            kept(*old(self), *final(self), true, true, true, false, true),
    {
        let ghost start = fx@;
        match self.termination {
            None => {
                self.termination = Some(
                    Termination {
                        peer,
                        started: now,
                        containment: 0,
                        method: if force {
                            2
                        } else {
                            1
                        },
                        expired: false,
                    },
                );
                fx.push(Effect::Terminate(force));
                proof {
                    assert(fx@.skip(start.len() as int) =~= seq![Effect::Terminate(force)]);
                }
            },
            Some(state) => {
                if let (Some(p), Some(q)) = (peer, state.peer) {
                    if p != q {
                        fx.push(
                            Effect::Send(
                                p,
                                Reply::Termination(4, 0, 0, "termination is already in progress"),
                            ),
                        );
                        proof {
                            assert(fx@.take(start.len() as int) =~= start);
                            assert(fx@.skip(start.len() as int)[0] == fx@[start.len() as int]);
                        }
                        return;
                    }
                }
                let mut next = state;
                if next.peer.is_none() {
                    next.peer = peer;
                }
                if force && next.method == 1 {
                    next.method = 2;
                    next.containment = next.containment | 4;
                    fx.push(Effect::Terminate(true));
                    proof {
                        assert(fx@.skip(start.len() as int) =~= seq![Effect::Terminate(true)]);
                    }
                }
                self.termination = Some(next);
            },
        }
        proof {
            assert(fx@.take(start.len() as int) =~= start);
            assert(fx@.skip(start.len() as int) =~= fx@.subrange(start.len() as int, fx@.len() as int));
            lemma_kept(*old(self), *self, true, true, true, false, true);
        }
    }

    /// Spends the output sequence: output stops and the session is
    /// terminated by force.
    fn exhaust_output(&mut self, now: u64, fx: &mut Vec<Effect>)
        requires
            old(self).wf(),
        ensures
            final(self).wf(),
            final(self).next_sequence == 0,
            extends(final(fx)@, old(fx)@),
            final(fx)@.len() > old(fx)@.len() && final(fx)@[old(fx)@.len() as int] == Effect::OutputExhausted,
            final(self).replay == old(self).replay && final(self).next_offset == old(self).next_offset
                && final(self).lost == old(self).lost,
            old(self).termination is None ==> final(self).termination is Some,
            termination_kept(&*old(self), &*final(self)),
            final(self).peers == old(self).peers && final(self).lease == old(self).lease,
            final(self).queries == old(self).queries && final(self).query_next == old(self).query_next,
            final(self).query_exhaustion_pending == old(self).query_exhaustion_pending,
            final(self).sources == old(self).sources && final(self).applications == old(self).applications
                && final(self).pending == old(self).pending && final(self).next_ticket == old(self).next_ticket
                && final(self).allocated == old(self).allocated
                && final(self).generation == old(self).generation && final(self).incarnation == old(self).incarnation
                && final(self).writable == old(self).writable && final(self).identity == old(self).identity
                && final(self).replay_limit == old(self).replay_limit && final(self).semantic_token == old(self).semantic_token,
    {
        self.next_sequence = 0;
        fx.push(Effect::OutputExhausted);
        let ghost mid = fx@;
        self.terminate(None, now, true, fx);
        proof {
            assert(fx@.take(old(fx)@.len() as int) =~= old(fx)@) by {
                assert forall|k: int| 0 <= k < old(fx)@.len() implies fx@[k] == old(fx)@[k] by {
                    assert(fx@[k] == fx@.take(mid.len() as int)[k]);
                }
            }
            assert(fx@[old(fx)@.len() as int] == fx@.take(mid.len() as int)[old(fx)@.len() as int]);
        }
    }

    /// Records terminal output: numbers it, keeps it for replay within the
    /// limit, and forwards it to the attached controllers.
    fn output(&mut self, now: u64, bytes: Vec<u8>, fx: &mut Vec<Effect>)
        requires
            old(self).wf(),
        ensures
            final(self).wf(),
            extends(final(fx)@, old(fx)@),
            spec_output_step(*old(self), *final(self), final(fx)@.skip(old(fx)@.len() as int), bytes@),
            termination_kept(&*old(self), &*final(self)),
            final(fx)@.len() == old(fx)@.len() ==> final(fx)@ == old(fx)@,
            final(self).peers == old(self).peers && final(self).lease == old(self).lease,
            final(self).queries == old(self).queries && final(self).query_next == old(self).query_next,
            final(self).query_exhaustion_pending == old(self).query_exhaustion_pending,
            final(self).sources == old(self).sources && final(self).applications == old(self).applications
                && final(self).pending == old(self).pending && final(self).next_ticket == old(self).next_ticket
                && final(self).allocated == old(self).allocated
                && final(self).generation == old(self).generation && final(self).incarnation == old(self).incarnation
                && final(self).writable == old(self).writable && final(self).identity == old(self).identity
                && final(self).replay_limit == old(self).replay_limit && final(self).semantic_token == old(self).semantic_token,
    {
        let ghost start = fx@;
        let sequence = self.next_sequence;
        let length = bytes.len() as u64;
        if self.next_offset > u64::MAX - length {
            self.exhaust_output(now, fx);
            proof {
                assert(fx@.skip(start.len() as int)[0] == fx@[start.len() as int]);
            }
            return;
        }
        let end = self.next_offset + length;
        if sequence == 0 {
            proof {
                lemma_extends_self(fx@);
            }
            return;
        }
        let ghost old_replay = self.replay@;
        let ghost rec = (sequence, self.next_offset, bytes@);
        let ghost all = records_view(old_replay).push(rec);
        let record = OutputRecord { sequence, offset: self.next_offset, bytes };
        let kept = record.duplicate();
        let next_sequence = sequence.wrapping_add(1);
        let mut replay: Vec<OutputRecord> = Vec::new();
        std::mem::swap(&mut replay, &mut self.replay);
        replay.push(kept);
        proof {
            let r = replay@;
            assert(records_view(r) =~= all.skip(0));
            assert forall|i: int| 0 <= i < r.len() - 1 implies #[trigger] follows(r, i) by {
                if i + 1 < old_replay.len() {
                    assert(follows(old_replay, i));
                } else {
                    assert(old_replay.last().offset + old_replay.last().bytes@.len() == old(self).next_offset);
                }
            }
        }
        let mut lost = self.lost;
        let limit = self.replay_limit;
        let ghost mut k: int = 0;
        while replay.len() > 0 && end - replay[0].offset > limit
            invariant
                forall|i: int| 0 <= i < replay@.len() - 1 ==> #[trigger] follows(replay@, i),
                forall|i: int| 0 <= i < replay@.len() ==> #[trigger] replay@[i].sequence != 0,
                forall|i: int| 0 <= i < replay@.len() ==> #[trigger] replay@[i].offset + replay@[i].bytes@.len() <= end,
                replay@.len() > 0 ==> replay@.last().offset + replay@.last().bytes@.len() == end,
                replay@.len() > 0 && next_sequence != 0 ==> replay@.last().sequence + 1 == next_sequence,
                0 <= k <= all.len(),
                records_view(replay@) == all.skip(k),
                k > 0 ==> lost == all[k - 1].0 && end - all[k - 1].1 > limit,
                k == 0 ==> lost == old(self).lost,
            decreases replay@.len(),
        {
            let ghost before = replay@;
            let dropped = replay.remove(0);
            lost = dropped.sequence;
            proof {
                assert(records_view(before).len() == before.len());
                assert(records_view(before)[0] == all.skip(k)[0]);
                let k0 = k;
                k = k + 1;
                assert(replay@ =~= before.skip(1));
                assert forall|i: int| 0 <= i < replay@.len() implies #[trigger] records_view(replay@)[i] == all.skip(k)[i] by {
                    assert(replay@[i] == before[i + 1]);
                    assert(records_view(before)[i + 1] == all.skip(k0)[i + 1]);
                }
                assert(records_view(replay@) =~= all.skip(k));
                assert forall|i: int| 0 <= i < replay@.len() - 1 implies #[trigger] follows(replay@, i) by {
                    assert(follows(before, i + 1));
                }
            }
        }
        proof {
            let r = replay@;
            assert forall|i: int| 0 <= i < r.len() implies end - #[trigger] r[i].offset <= limit by {
                if r.len() > 0 {
                    assert(end - r[0].offset <= limit);
                    if i > 0 {
                        lemma_offsets_increase(r, 0, i);
                    }
                }
            }
        }
        self.replay = replay;
        self.lost = lost;
        self.next_sequence = next_sequence;
        self.next_offset = end;
        fx.push(Effect::Output(None, record));
        let ghost mid = fx@;
        if self.next_sequence == 0 {
            self.exhaust_output(now, fx);
        }
        proof {
            assert(fx@.take(start.len() as int) =~= start) by {
                assert forall|j: int| 0 <= j < start.len() implies fx@[j] == start[j] by {
                    assert(fx@[j] == fx@.take(mid.len() as int)[j]);
                    assert(mid[j] == mid.take(start.len() as int)[j]);
                }
            }
            assert(fx@.skip(start.len() as int)[0] == fx@[start.len() as int]);
            assert(fx@[start.len() as int] == fx@.take(mid.len() as int)[start.len() as int]);
            if self.next_sequence == 0 {
                assert(fx@.skip(start.len() as int)[1] == fx@[mid.len() as int]);
            } else {
                assert(fx@ == mid);
            }
            assert(records_view(self.spec_replay()) == all.skip(k));
            assert(window_kept(all, *self, old(self).lost, old(self).replay_limit));
            assert(is_output(fx@.skip(start.len() as int)[0], rec));
        }
    }
}

/// The effects and state an output leaves: when its end would overflow
/// the offsets, the output is spent and the session terminated; once the
/// sequences are spent nothing happens; otherwise the output is numbered,
/// forwarded, and kept for replay, with the oldest records dropped while the
/// window spans more than its limit.
pub open spec fn spec_output_step(a: Machine, b: Machine, added: Seq<Effect>, bytes: Seq<u8>) -> bool {
    if a.spec_output_end() + bytes.len() > u64::MAX {
        b.spec_next_sequence() == 0 && added.len() >= 1 && added[0] == Effect::OutputExhausted
            && b.spec_replay() == a.spec_replay() && b.spec_output_end() == a.spec_output_end()
    } else if a.spec_next_sequence() == 0 {
        added.len() == 0 && b.spec_replay() == a.spec_replay() && b.spec_output_end()
            == a.spec_output_end() && b.spec_next_sequence() == 0
    } else {
        let rec = (a.spec_next_sequence(), a.spec_output_end(), bytes);
        let all = records_view(a.spec_replay()).push(rec);
        &&& added.len() >= 1
        &&& is_output(added[0], rec)
        &&& b.spec_output_end() == a.spec_output_end() + bytes.len()
        &&& b.spec_next_sequence() == (if a.spec_next_sequence() == u64::MAX {
            0
        } else {
            a.spec_next_sequence() + 1
        })
        &&& window_kept(all, b, a.spec_lost(), a.spec_replay_limit())
        &&& added.len() > 1 <==> a.spec_next_sequence() == u64::MAX
        &&& a.spec_next_sequence() == u64::MAX ==> added[1] == Effect::OutputExhausted
    }
}

/// How many bytes `bs` hold together.
pub open spec fn total_len(bs: Seq<Seq<u8>>) -> nat
    decreases bs.len(),
{
    if bs.len() == 0 {
        0
    } else {
        total_len(bs.drop_last()) + bs.last().len()
    }
}

/// What one output step did while sequences remained: the one record it
/// sent, and where output and sequences stand after it.
pub open spec fn output_moved(a: Machine, b: Machine, fx: Seq<Effect>, bytes: Seq<u8>) -> bool {
    &&& fx.len() == 1 && is_output(fx[0], (a.spec_next_sequence(), a.spec_output_end(), bytes))
    &&& b.spec_output_end() == a.spec_output_end() + bytes.len()
    &&& b.spec_next_sequence() == a.spec_next_sequence() + 1
}

proof fn lemma_output_moved(a: Machine, b: Machine, fx: Seq<Effect>, bytes: Seq<u8>)
    requires
        spec_output_step(a, b, fx, bytes),
        a.spec_output_end() + bytes.len() <= u64::MAX,
        0 < a.spec_next_sequence() < u64::MAX,
    ensures
        output_moved(a, b, fx, bytes),
{
}

/// The record chunk `k` of `bs` goes out as: its sequence, one past its
/// index, and its offset, where the chunks before it end.
pub open spec fn chunk_record(bs: Seq<Seq<u8>>, k: int) -> (u64, u64, Seq<u8>) {
    ((k + 1) as u64, total_len(bs.take(k)) as u64, bs[k])
}

/// Chunk `k` of `bs` went out as the one effect of its step.
pub open spec fn chunk_sent(fxs: Seq<Seq<Effect>>, bs: Seq<Seq<u8>>, k: int) -> bool {
    fxs[k].len() == 1 && is_output(fxs[k][0], chunk_record(bs, k))
}

/// Each machine of `ms` follows from the one before by the output of the
/// chunk between them.
#[verifier::opaque]
pub open spec fn output_chain(ms: Seq<Machine>, fxs: Seq<Seq<Effect>>, bs: Seq<Seq<u8>>) -> bool {
    forall|k: int| #![trigger bs[k]] 0 <= k < bs.len() ==> spec_output_step(ms[k], ms[k + 1], fxs[k], bs[k])
}

/// Output numbers and places every chunk in turn: from a fresh stream,
/// after fewer than `u64::MAX` chunks that fit in the output coordinates,
/// the output ends after all their bytes and the next sequence is one past
/// their count; chunk `k` went out as the one record with sequence `k + 1`
/// starting where the chunks before it ended.
#[verifier::spinoff_prover]
#[verifier::rlimit(60)]
pub proof fn lemma_outputs_follow(ms: Seq<Machine>, fxs: Seq<Seq<Effect>>, bs: Seq<Seq<u8>>)
    requires
        ms.len() == bs.len() + 1,
        fxs.len() == bs.len(),
        output_chain(ms, fxs, bs),
        ms[0].spec_output_end() == 0,
        ms[0].spec_next_sequence() == 1,
        bs.len() < u64::MAX,
        total_len(bs) <= u64::MAX,
    ensures
        ms.last().spec_output_end() == total_len(bs),
        ms.last().spec_next_sequence() == bs.len() + 1,
        forall|k: int| 0 <= k < bs.len() ==> #[trigger] chunk_sent(fxs, bs, k),
{
    lemma_outputs_prefix(ms, fxs, bs, bs.len() as int);
    assert(bs.take(bs.len() as int) =~= bs);
    assert(ms.last() == ms[bs.len() as int]);
}

#[verifier::spinoff_prover]
#[verifier::rlimit(100)]
proof fn lemma_outputs_prefix(ms: Seq<Machine>, fxs: Seq<Seq<Effect>>, bs: Seq<Seq<u8>>, i: int)
    requires
        ms.len() == bs.len() + 1,
        fxs.len() == bs.len(),
        output_chain(ms, fxs, bs),
        ms[0].spec_output_end() == 0,
        ms[0].spec_next_sequence() == 1,
        bs.len() < u64::MAX,
        total_len(bs) <= u64::MAX,
        0 <= i <= bs.len(),
    ensures
        ms[i].spec_output_end() == total_len(bs.take(i)),
        ms[i].spec_next_sequence() == i + 1,
        forall|k: int| 0 <= k < i ==> #[trigger] chunk_sent(fxs, bs, k),
    decreases i,
{
    assert(bs.take(0) =~= Seq::<Seq<u8>>::empty());
    if i > 0 {
        lemma_outputs_prefix(ms, fxs, bs, i - 1);
        let k = i - 1;
        assert(bs.take(i).drop_last() =~= bs.take(k));
        lemma_total_prefix(bs, i);
        assert(spec_output_step(ms[k], ms[k + 1], fxs[k], bs[k])) by {
            reveal(output_chain);
        }
        lemma_output_moved(ms[k], ms[k + 1], fxs[k], bs[k]);
        assert(chunk_record(bs, k) == (ms[k].spec_next_sequence(), ms[k].spec_output_end(), bs[k]));
        assert(chunk_sent(fxs, bs, k));
    }
}

/// A prefix holds no more bytes than the whole.
proof fn lemma_total_prefix(bs: Seq<Seq<u8>>, i: int)
    requires
        0 <= i <= bs.len(),
    ensures
        total_len(bs.take(i)) <= total_len(bs),
    decreases bs.len() - i,
{
    if i < bs.len() {
        lemma_total_prefix(bs, i + 1);
        assert(bs.take(i + 1).drop_last() =~= bs.take(i));
    } else {
        assert(bs.take(i) =~= bs);
    }
}

/// Output forwarded to every attached controller.
pub open spec fn is_output(e: Effect, rec: (u64, u64, Seq<u8>)) -> bool {
    e matches Effect::Output(None, r) && record_view(r) == rec
}

/// The replay window of `b` is what is left of `all` once the oldest
/// records are dropped while the window spans more than `limit`, the last
/// dropped record's sequence being what is lost.
pub open spec fn window_kept(all: Seq<(u64, u64, Seq<u8>)>, b: Machine, lost: u64, limit: u64) -> bool {
    &&& exists|k: int|
        0 <= k <= all.len() && records_view(b.spec_replay()) == #[trigger] all.skip(k) && (k > 0
            ==> b.spec_lost() == all[k - 1].0 && b.spec_output_end() - all[k - 1].1 > limit) && (k
            == 0 ==> b.spec_lost() == lost)
    &&& forall|i: int|
        0 <= i < b.spec_replay().len() ==> b.spec_output_end() - #[trigger] b.spec_replay()[i].offset
            <= limit
}

/// The effects and state a termination request leaves: the first starts
/// the termination; a second from another peer is refused; a forced one
/// escalates a graceful one; the first peer to ask is the one told the
/// outcome.
pub open spec fn spec_terminate_step(
    a: Machine,
    b: Machine,
    added: Seq<Effect>,
    peer: Option<ConnId>,
    now: u64,
    force: bool,
) -> bool {
    match a.spec_termination_state() {
        None => b.spec_termination_state() == Some(
            (peer, now, 0u8, if force { 2u8 } else { 1u8 }, false),
        ) && added == seq![Effect::Terminate(force)],
        Some((p, started, containment, method, expired)) => if peer is Some && p is Some
            && peer != p {
            b.spec_termination_state() == a.spec_termination_state()
                && added.len() == 1 && (added[0] matches Effect::Send(c, Reply::Termination(4, 0, 0, _))
                && Some(c) == peer)
        } else if force && method == 1 {
            b.spec_termination_state() == Some(
                (if p is Some { p } else { peer }, started, containment | 4, 2u8, expired),
            ) && added == seq![Effect::Terminate(true)]
        } else {
            b.spec_termination_state() == Some(
                (if p is Some { p } else { peer }, started, containment, method, expired),
            ) && added.len() == 0
        },
    }
}

/// Offsets grow along a contiguous window.
proof fn lemma_offsets_increase(r: Seq<OutputRecord>, a: int, b: int)
    requires
        0 <= a <= b < r.len(),
        forall|i: int| 0 <= i < r.len() - 1 ==> #[trigger] follows(r, i),
    ensures
        r[a].offset <= r[b].offset,
    decreases b - a,
{
    if a < b {
        lemma_offsets_increase(r, a, b - 1);
        assert(follows(r, b - 1));
    }
}


/// A stored input can be answered with a receipt.
pub open spec fn input_ok(i: OwnedInput) -> bool {
    i.epoch != 0 && i.request_id != 0
}

spec fn notice_ok(p: InputPending) -> bool {
    input_ok(p.input) && p.terminal_at <= p.input.exact_payload@.len()
}

spec fn pending_ok(p: Pending) -> bool {
    match p {
        Pending::Input(_, i) => input_ok(i),
        Pending::Application(_, n) => input_ok(n.input),
        _ => true,
    }
}

spec fn application_ok(a: Application) -> bool {
    match a.state {
        AppState::Notice(p) => notice_ok(p),
        _ => true,
    }
}

/// A byte of a source name: a letter, a digit, `.`, `_` or `-`.
pub open spec fn source_byte(b: u8) -> bool {
    (0x30 <= b <= 0x39) || (0x41 <= b <= 0x5a) || (0x61 <= b <= 0x7a) || b == 0x2e || b == 0x5f
        || b == 0x2d
}

/// A source name: 1 to 128 name bytes.
pub open spec fn spec_valid_source_id(s: Seq<u8>) -> bool {
    0 < s.len() <= 128 && forall|i: int| 0 <= i < s.len() ==> source_byte(#[trigger] s[i])
}

/// Which source names are accepted: exactly those of 1 to 128 bytes, each
/// an ASCII letter, an ASCII digit, a dot, an underscore or a hyphen.
pub proof fn lemma_source_id_alphabet(s: Seq<u8>)
    ensures
        spec_valid_source_id(s) <==> (1 <= s.len() <= 128 && forall|i: int|
            0 <= i < s.len() ==> {
                let c = #[trigger] s[i];
                ||| ('a' as u8) <= c <= ('z' as u8)
                ||| ('A' as u8) <= c <= ('Z' as u8)
                ||| ('0' as u8) <= c <= ('9' as u8)
                ||| c == ('.' as u8)
                ||| c == ('_' as u8)
                ||| c == ('-' as u8)
            }),
{
}

pub fn valid_source_id(source: &[u8]) -> (r: bool)
    ensures
        r == spec_valid_source_id(source@),
{
    if source.len() == 0 || source.len() > 128 {
        return false;
    }
    let mut i: usize = 0;
    while i < source.len()
        invariant
            i <= source@.len(),
            forall|j: int| 0 <= j < i ==> source_byte(#[trigger] source@[j]),
        decreases source@.len() - i,
    {
        let b = source[i];
        if !((0x30 <= b && b <= 0x39) || (0x41 <= b && b <= 0x5a) || (0x61 <= b && b <= 0x7a) || b
            == 0x2e || b == 0x5f || b == 0x2d) {
            return false;
        }
        i = i + 1;
    }
    true
}

/// The receipt code a refused lease reason maps to for an input.
pub open spec fn spec_input_refusal(reason: ResultReason) -> u16 {
    match reason {
        ResultReason::NotHeld => 15,
        ResultReason::Exhausted => 13,
        _ => 6,
    }
}

fn input_refusal(reason: ResultReason) -> (r: u16)
    ensures
        r == spec_input_refusal(reason),
{
    match reason {
        ResultReason::NotHeld => 15,
        ResultReason::Exhausted => 13,
        _ => 6,
    }
}

/// The receipt answering `input`.
pub open spec fn receipt_layout(
    input: OwnedInput,
    generation: u32,
    incarnation: [u8; 16],
    written: u64,
    error: Option<u16>,
) -> Seq<u8> {
    InputReceipt {
        epoch: input.epoch,
        request: input.request_id,
        generation,
        incarnation,
        written,
        status: if error is Some { 1 } else { 0 },
        result: match error {
            Some(c) => c,
            None => 0,
        },
    }.layout()
}

/// An input receipt sent to `conn`.
pub open spec fn is_input_reply(e: Effect, conn: ConnId, receipt: Seq<u8>) -> bool {
    e matches Effect::Send(c, Reply::Input(b)) && c == conn && b@ == receipt
}

/// A write to the terminal under ticket `ticket`.
pub open spec fn is_ticket_write(e: Effect, ticket: u64, bytes: Seq<u8>) -> bool {
    e matches Effect::Write(t, b) && t.value() == ticket && b@ == bytes
}

/// `after` is `before` and one receipt refusing `input` with `code`.
pub open spec fn refuses_input(old: Machine, before: Seq<Effect>, after: Seq<Effect>, conn: ConnId, input: OwnedInput, code: u16) -> bool {
    after.len() == before.len() + 1 && after.take(before.len() as int) == before && is_input_reply(
        after.last(),
        conn,
        receipt_layout(input, old.spec_generation(), old.spec_incarnation_bytes(), 0, Some(code)),
    )
}

/// Whether `input` repeats the last input answered.
pub open spec fn repeats_cached(m: Machine, input: OwnedInput) -> bool {
    m.spec_cached() matches Some(c) && c.0.same(&input)
}

/// The receipt of the last input answered.
pub open spec fn cached_receipt(m: Machine) -> Seq<u8> {
    match m.spec_cached() {
        Some(c) => c.1,
        None => Seq::empty(),
    }
}

/// Whether `input` is the one in flight.
pub open spec fn in_flight(inflight: Option<OwnedInput>, input: OwnedInput) -> bool {
    inflight matches Some(i) && i.same(&input)
}

/// The request id of the last input answered, zero when none was.
pub open spec fn cached_high(m: Machine) -> u64 {
    match m.spec_cached() {
        Some(c) => c.0.request_id,
        None => 0,
    }
}

/// How the lease holder's `input` is answered: a retry of the input in
/// flight changes nothing; another input while one is in flight is out of
/// sequence; a repeat of the last answered input gets its receipt again;
/// once the request ids are spent the input is refused as exhausted; a
/// request id other than the next one is out of sequence; the next one goes
/// in flight and, when it carries no application and tickets remain, its
/// bytes past the header are written to the terminal under the next ticket,
/// or it is refused as exhausted when the tickets are spent.
pub open spec fn held_input_answer(
    old: Machine,
    new: Machine,
    before: Seq<Effect>,
    after: Seq<Effect>,
    conn: ConnId,
    input: OwnedInput,
    plain: bool,
) -> bool {
    let high = cached_high(old);
    match old.spec_inflight() {
        Some(prior) => if prior.same(&input) {
            after == before && new.spec_inflight() == old.spec_inflight() && new.spec_cached() == old.spec_cached()
        } else {
            refuses_input(old, before, after, conn, input, 6)
        },
        None => if repeats_cached(old, input) {
            after.len() == before.len() + 1 && after.take(before.len() as int) == before && is_input_reply(
                after.last(),
                conn,
                cached_receipt(old),
            )
        } else if high == u64::MAX {
            refuses_input(old, before, after, conn, input, 13)
        } else if input.request_id != high + 1 {
            refuses_input(old, before, after, conn, input, 6)
        } else if plain && old.spec_next_ticket() != 0 {
            &&& after.len() == before.len() + 1 && after.take(before.len() as int) == before
            &&& is_ticket_write(after.last(), old.spec_next_ticket(), input.exact_payload@.subrange(13, input.exact_payload@.len() as int))
            &&& new.spec_inflight() matches Some(i) && i.same(&input)
            &&& new.spec_next_ticket() == old.spec_next_ticket().wrapping_add(1)
        } else if plain {
            refuses_input(old, before, after, conn, input, 13) && new.spec_inflight() is None
        } else {
            after.len() > before.len()
        }
    }
}

impl Machine {
    /// The receipt for `input`, having written `written` bytes and failed
    /// with `error`, if any.
    fn receipt(&self, input: &OwnedInput, written: u64, error: Option<u16>) -> (r: Vec<u8>)
        requires
            self.wf(),
            input_ok(*input),
            error matches Some(c) ==> 1 <= c <= 20,
        ensures
            r@ == receipt_layout(*input, self.generation, self.incarnation, written, error),
            r@.len() == 43,
    {
        let receipt = InputReceipt::outcome(
            input.epoch,
            input.request_id,
            self.generation,
            self.incarnation,
            written,
            error,
        );
        match receipt.encode() {
            Ok(bytes) => bytes,
            Err(_) => {
                assert(false);
                Vec::new()
            },
        }
    }

    /// Answers the request in flight with `receipt`, caching it for a
    /// retry; a request that is not the one in flight closes `conn`.
    fn finish_input(&mut self, conn: ConnId, input: OwnedInput, receipt: Vec<u8>, fx: &mut Vec<Effect>)
        requires
            old(self).wf(),
            input_ok(input),
            receipt@.len() == 43,
        ensures
            final(self).wf(),
            extends(final(fx)@, old(fx)@),
            ({
                let added = final(fx)@.skip(old(fx)@.len() as int);
                if old(self).lease.inflight matches Some(i) && i.same(&input) {
                    final(self).lease.inflight is None && final(self).lease.cached is Some
                        && (match old(self).lease.owner {
                        Some(o) => added.len() == 1 && is_input_reply(added[0], o, receipt@),
                        None => added.len() == 0,
                    })
                } else {
                    added == seq![Effect::Close(conn)] && final(self).lease == old(self).lease
                }
            }),
            final(self).lease.owner == old(self).lease.owner && final(self).lease.epoch == old(self).lease.epoch,
            final(self).lease.token == old(self).lease.token && final(self).lease.role == old(self).lease.role,
            final(self).allocated == old(self).allocated,
            final(self).peers == old(self).peers && final(self).queries == old(self).queries,
            final(self).query_next == old(self).query_next,
            final(self).query_exhaustion_pending == old(self).query_exhaustion_pending,
            final(self).sources == old(self).sources && final(self).applications == old(self).applications
                && final(self).pending == old(self).pending && final(self).next_ticket == old(self).next_ticket
                && final(self).replay == old(self).replay && final(self).next_sequence == old(self).next_sequence
                && final(self).next_offset == old(self).next_offset && final(self).lost == old(self).lost
                && final(self).termination == old(self).termination
                && final(self).generation == old(self).generation && final(self).incarnation == old(self).incarnation
                && final(self).writable == old(self).writable && final(self).identity == old(self).identity
                && final(self).replay_limit == old(self).replay_limit && final(self).semantic_token == old(self).semantic_token,
    {
        let ghost start = fx@;
        let current = match &self.lease.inflight {
            Some(prior) => prior.equals(&input),
            None => false,
        };
        if !current {
            fx.push(Effect::Close(conn));
            proof {
                assert(fx@.take(start.len() as int) =~= start);
                assert(fx@.skip(start.len() as int) =~= seq![Effect::Close(conn)]);
            }
            return;
        }
        let copy = crate::bytes::to_vec(receipt.as_slice());
        self.lease.inflight = None;
        self.lease.cached = Some((input, receipt));
        if let Some(owner) = self.lease.owner {
            fx.push(Effect::Send(owner, Reply::Input(copy)));
        }
        proof {
            assert(fx@.take(start.len() as int) =~= start);
            if self.lease.owner is Some {
                assert(fx@.skip(start.len() as int)[0] == fx@[start.len() as int]);
            }
        }
    }

    /// Refuses the request in flight with `code`.
    fn refuse_input(&mut self, conn: ConnId, input: OwnedInput, code: u16, fx: &mut Vec<Effect>)
        requires
            old(self).wf(),
            input_ok(input),
            1 <= code <= 20,
        ensures
            final(self).wf(),
            extends(final(fx)@, old(fx)@),
            final(self).lease.owner == old(self).lease.owner && final(self).lease.epoch == old(self).lease.epoch,
            final(self).lease.token == old(self).lease.token && final(self).lease.role == old(self).lease.role,
            final(self).allocated == old(self).allocated,
            final(self).peers == old(self).peers && final(self).queries == old(self).queries,
            final(self).query_next == old(self).query_next,
            final(self).query_exhaustion_pending == old(self).query_exhaustion_pending,
            final(self).sources == old(self).sources && final(self).applications == old(self).applications
                && final(self).pending == old(self).pending && final(self).next_ticket == old(self).next_ticket
                && final(self).replay == old(self).replay && final(self).next_sequence == old(self).next_sequence
                && final(self).next_offset == old(self).next_offset && final(self).lost == old(self).lost
                && final(self).termination == old(self).termination
                && final(self).generation == old(self).generation && final(self).incarnation == old(self).incarnation
                && final(self).writable == old(self).writable && final(self).identity == old(self).identity
                && final(self).replay_limit == old(self).replay_limit && final(self).semantic_token == old(self).semantic_token,
            old(self).lease.inflight matches Some(i) && i.same(&input) && old(self).lease.owner == Some(conn)
                ==> final(fx)@ == old(fx)@.push(final(fx)@.last()) && is_input_reply(
                final(fx)@.last(),
                conn,
                receipt_layout(input, old(self).generation, old(self).incarnation, 0, Some(code)),
            ) && final(self).lease.inflight is None,
    {
        let receipt = self.receipt(&input, 0, Some(code));
        let ghost start = fx@;
        self.finish_input(conn, input, receipt, fx);
        proof {
            if old(self).lease.inflight matches Some(i) && i.same(&input) && old(self).lease.owner == Some(conn) {
                let added = fx@.skip(start.len() as int);
                assert(fx@.len() == start.len() + 1);
                assert(added[0] == fx@.last());
                assert(fx@ =~= start.push(fx@.last()));
            }
        }
    }

    /// Answers an input that cannot be taken with a refusal receipt.
    fn reject_input(&self, conn: ConnId, input: &OwnedInput, reason: ResultReason, fx: &mut Vec<Effect>)
        requires
            self.wf(),
            input_ok(*input),
        ensures
            final(fx)@ == old(fx)@.push(final(fx)@.last()),
            is_input_reply(final(fx)@.last(), conn, receipt_layout(*input, self.generation, self.incarnation, 0, Some(spec_input_refusal(reason)))),
    {
        let receipt = self.receipt(input, 0, Some(input_refusal(reason)));
        fx.push(Effect::Send(conn, Reply::Input(receipt)));
    }

    /// Files `pending` under a fresh ticket, while tickets remain.
    fn file_pending(&mut self, pending: Pending) -> (r: Option<u64>)
        requires
            old(self).wf(),
            pending_ok(pending),
        ensures
            final(self).wf(),
            old(self).next_ticket == 0 <==> r is None,
            r is None ==> final(self).pending == old(self).pending && final(self).next_ticket == 0,
            r matches Some(t) ==> t == old(self).next_ticket && final(self).pending@ == old(self).pending@.push(
                PendingEntry { ticket: t, pending },
            ) && final(self).next_ticket == t.wrapping_add(1),
            final(self).lease == old(self).lease && final(self).allocated == old(self).allocated,
            final(self).peers == old(self).peers && final(self).queries == old(self).queries,
            final(self).query_next == old(self).query_next,
            final(self).query_exhaustion_pending == old(self).query_exhaustion_pending,
            final(self).sources == old(self).sources && final(self).applications == old(self).applications
                && final(self).replay == old(self).replay && final(self).next_sequence == old(self).next_sequence
                && final(self).next_offset == old(self).next_offset && final(self).lost == old(self).lost
                && final(self).termination == old(self).termination
                && final(self).generation == old(self).generation && final(self).incarnation == old(self).incarnation
                && final(self).writable == old(self).writable && final(self).identity == old(self).identity
                && final(self).replay_limit == old(self).replay_limit && final(self).semantic_token == old(self).semantic_token,
    {
        let ticket = self.next_ticket;
        if ticket == 0 {
            return None;
        }
        self.next_ticket = ticket.wrapping_add(1);
        self.pending.push(PendingEntry { ticket, pending });
        proof {
            let p = self.pending@;
            let o = old(self).pending@;
            assert forall|a: int, b: int| 0 <= a < b < p.len() implies #[trigger] p[a].ticket != #[trigger] p[b].ticket by {
                if b < o.len() {
                    assert(o[a].ticket != o[b].ticket);
                } else {
                    assert(o[a].ticket < ticket);
                }
            }
            assert forall|a: int| 0 <= a < p.len() implies pending_ok(#[trigger] p[a].pending) by {
                if a < o.len() {
                    assert(pending_ok(o[a].pending));
                }
            }
            if self.next_ticket != 0 {
                assert forall|a: int| 0 <= a < p.len() implies #[trigger] p[a].ticket < self.next_ticket by {
                    if a < o.len() {
                        assert(o[a].ticket < ticket);
                    }
                }
            }
        }
        Some(ticket)
    }
}


impl Machine {
    fn find_source(&self, name: &[u8]) -> (r: Option<usize>)
        ensures
            r matches Some(i) ==> i < self.sources@.len() && self.sources@[i as int].name@ == name@,
            r is None ==> forall|i: int| 0 <= i < self.sources@.len() ==> #[trigger] self.sources@[i].name@ != name@,
    {
        let mut i: usize = 0;
        while i < self.sources.len()
            invariant
                i <= self.sources@.len(),
                forall|j: int| 0 <= j < i ==> #[trigger] self.sources@[j].name@ != name@,
            decreases self.sources@.len() - i,
        {
            if crate::bytes::same_bytes(self.sources[i].name.as_slice(), name) {
                return Some(i);
            }
            i = i + 1;
        }
        None
    }

    fn find_application(&self, id: &[u8; 16]) -> (r: Option<usize>)
        ensures
            r matches Some(i) ==> i < self.applications@.len()
                && self.applications@[i as int].receipt.application_id@ == id@,
            r is None ==> forall|i: int| 0 <= i < self.applications@.len()
                ==> #[trigger] self.applications@[i].receipt.application_id@ != id@,
    {
        let mut i: usize = 0;
        while i < self.applications.len()
            invariant
                i <= self.applications@.len(),
                forall|j: int| 0 <= j < i ==> #[trigger] self.applications@[j].receipt.application_id@ != id@,
            decreases self.applications@.len() - i,
        {
            if same16(&self.applications[i].receipt.application_id, id) {
                return Some(i);
            }
            i = i + 1;
        }
        None
    }

    /// Adds a source under a name not yet known.
    fn insert_source(sources: &mut Vec<SourceEntry>, entry: SourceEntry)
        requires
            sources_sorted(old(sources)@),
            forall|i: int| 0 <= i < old(sources)@.len() ==> #[trigger] old(sources)@[i].name@ != entry.name@,
        ensures
            sources_sorted(final(sources)@),
            exists|p: int| 0 <= p <= old(sources)@.len() && final(sources)@ == old(sources)@.insert(p, entry),
    {
        let ghost keys = source_keys(sources@);
        let mut i: usize = 0;
        while i < sources.len() && lex_order(entry.name.as_slice(), sources[i].name.as_slice()) > 0
            invariant
                i <= sources@.len(),
                keys == source_keys(sources@),
                forall|j: int| 0 <= j < i ==> seq_lt(#[trigger] keys[j], entry.name@),
            decreases sources@.len() - i,
        {
            i = i + 1;
        }
        proof {
            if i < sources@.len() {
                assert(sources@[i as int].name@ != entry.name@);
                assert(keys[i as int] == sources@[i as int].name@);
            }
            lemma_sorted_insert(keys, i as int, entry.name@);
        }
        let ghost e = entry;
        sources.insert(i, entry);
        proof {
            assert(source_keys(sources@) =~= keys.insert(i as int, e.name@));
        }
    }

    /// Adds an application under an id not yet known.
    fn insert_application(apps: &mut Vec<Application>, app: Application)
        requires
            applications_sorted(old(apps)@),
            forall|i: int| 0 <= i < old(apps)@.len()
                ==> #[trigger] old(apps)@[i].receipt.application_id@ != app.receipt.application_id@,
        ensures
            applications_sorted(final(apps)@),
            exists|p: int| 0 <= p <= old(apps)@.len() && final(apps)@
                == old(apps)@.insert(p, app),
    {
        let ghost keys = application_keys(apps@);
        let mut i: usize = 0;
        while i < apps.len() && lex_order(
            app.receipt.application_id.as_slice(),
            apps[i].receipt.application_id.as_slice(),
        ) > 0
            invariant
                i <= apps@.len(),
                keys == application_keys(apps@),
                forall|j: int| 0 <= j < i ==> seq_lt(#[trigger] keys[j], app.receipt.application_id@),
            decreases apps@.len() - i,
        {
            i = i + 1;
        }
        proof {
            if i < apps@.len() {
                assert(apps@[i as int].receipt.application_id@ != app.receipt.application_id@);
                assert(keys[i as int] == apps@[i as int].receipt.application_id@);
            }
            lemma_sorted_insert(keys, i as int, app.receipt.application_id@);
        }
        let ghost a = app;
        apps.insert(i, app);
        proof {
            assert(application_keys(apps@) =~= keys.insert(i as int, a.receipt.application_id@));
        }
    }

    /// Removes the application at `i`.
    fn remove_application(apps: &mut Vec<Application>, i: usize) -> (r: Application)
        requires
            applications_sorted(old(apps)@),
            i < old(apps)@.len(),
        ensures
            applications_sorted(final(apps)@),
            final(apps)@ == old(apps)@.remove(i as int),
            r == old(apps)@[i as int],
    {
        let ghost keys = application_keys(apps@);
        let r = apps.remove(i);
        proof {
            lemma_sorted_remove(keys, i as int);
            assert(application_keys(apps@) =~= keys.remove(i as int));
        }
        r
    }
}


/// The fields of the machine that only the semantic side changes are as
/// they were.
spec fn same_semantics(a: &Machine, b: &Machine) -> bool {
    a.sources == b.sources && a.writable == b.writable && a.semantic_token == b.semantic_token
}

impl Machine {
    /// Files an ordinary input for the terminal, refusing it when no ticket
    /// is left.
    fn queue_input(&mut self, conn: ConnId, input: OwnedInput, bytes: Vec<u8>, fx: &mut Vec<Effect>)
        requires
            old(self).wf(),
            input_ok(input),
        ensures
            final(self).wf(),
            extends(final(fx)@, old(fx)@),
            final(self).lease.owner == old(self).lease.owner && final(self).lease.epoch == old(self).lease.epoch,
            final(self).allocated == old(self).allocated,
            final(self).peers == old(self).peers && final(self).queries == old(self).queries,
            final(self).query_next == old(self).query_next,
            final(self).query_exhaustion_pending == old(self).query_exhaustion_pending,
            same_semantics(&*final(self), &*old(self)), final(self).applications == old(self).applications,
            final(self).replay == old(self).replay && final(self).next_sequence == old(self).next_sequence
                && final(self).next_offset == old(self).next_offset && final(self).lost == old(self).lost
                && final(self).termination == old(self).termination
                && final(self).generation == old(self).generation && final(self).incarnation == old(self).incarnation
                && final(self).identity == old(self).identity
                && final(self).replay_limit == old(self).replay_limit,
            old(self).next_ticket != 0 ==> final(fx)@ == old(fx)@.push(Effect::Write(Ticket(old(self).next_ticket), bytes))
                && final(self).lease == old(self).lease && final(self).next_ticket == old(self).next_ticket.wrapping_add(1),
            old(self).next_ticket == 0 && in_flight(old(self).lease.inflight, input)
                && old(self).lease.owner == Some(conn) ==> final(fx)@ == old(fx)@.push(final(fx)@.last()) && is_input_reply(
                final(fx)@.last(),
                conn,
                receipt_layout(input, old(self).generation, old(self).incarnation, 0, Some(13u16)),
            ) && final(self).lease.inflight is None,
    {
        if self.next_ticket == 0 {
            self.refuse_input(conn, input, 13, fx);
            return;
        }
        let ticket = self.file_pending(Pending::Input(conn, input));
        match ticket {
            Some(t) => {
                fx.push(Effect::Write(Ticket(t), bytes));
                proof {
                    assert(fx@.take(old(fx)@.len() as int) =~= old(fx)@);
                }
            },
            None => {
                proof {
                    lemma_extends_self(fx@);
                }
            },
        }
    }

    /// An input from `conn`: answered from the cache when it is a retry,
    /// refused when the lease or sequence does not allow it, written to the
    /// terminal when ordinary, and announced to its source first when it is
    /// an application input.
    fn input(
        &mut self,
        conn: ConnId,
        now: u64,
        input: OwnedInput,
        application: Option<ApplicationInput>,
        fx: &mut Vec<Effect>,
    )
        requires
            old(self).wf(),
            input_ok(input),
            input.exact_payload@.len() >= 13,
        ensures
            final(self).wf(),
            extends(final(fx)@, old(fx)@),
            final(self).allocated == old(self).allocated,
            final(self).peers == old(self).peers,
            final(self).query_next == old(self).query_next,
            final(self).query_exhaustion_pending == old(self).query_exhaustion_pending,
            same_semantics(&*final(self), &*old(self)),
            final(self).replay == old(self).replay && final(self).next_sequence == old(self).next_sequence
                && final(self).next_offset == old(self).next_offset && final(self).lost == old(self).lost
                && final(self).termination == old(self).termination
                && final(self).generation == old(self).generation && final(self).incarnation == old(self).incarnation
                && final(self).identity == old(self).identity
                && final(self).replay_limit == old(self).replay_limit,
            !(old(self).lease.owner == Some(conn) && old(self).lease.epoch == input.epoch && !(old(self).lease.epoch
                != 0 && now >= old(self).lease.deadline)) ==> final(fx)@.len() > old(fx)@.len() && is_input_reply(
                final(fx)@.last(),
                conn,
                receipt_layout(input, old(self).generation, old(self).incarnation, 0, Some(15u16)),
            ),
            old(self).lease.owner == Some(conn) && old(self).lease.epoch == input.epoch && !(old(self).lease.epoch
                != 0 && now >= old(self).lease.deadline) ==> held_input_answer(
                *old(self),
                *final(self),
                old(fx)@,
                final(fx)@,
                conn,
                input,
                application is None,
            ),
    {
        self.expire_lease(now, fx);
        let ghost mid = fx@;
        if !self.owns(conn) || self.lease.epoch != input.epoch {
            self.reject_input(conn, &input, ResultReason::NotHeld, fx);
            proof { assert(fx@.take(mid.len() as int) =~= mid); lemma_extends_chain(old(fx)@, mid, fx@); }
            return;
        }
        let deadline = now.saturating_add(10000);
        let mut retry = false;
        let mut conflict = false;
        match &self.lease.inflight {
            Some(prior) => {
                if prior.equals(&input) {
                    retry = true;
                } else {
                    conflict = true;
                }
            },
            None => {},
        }
        if retry {
            self.lease.deadline = deadline;
            proof { lemma_extends_chain(old(fx)@, mid, fx@); lemma_extends_self(fx@); }
            return;
        }
        if conflict {
            self.reject_input(conn, &input, ResultReason::BadSequence, fx);
            proof { assert(fx@.take(mid.len() as int) =~= mid); lemma_extends_chain(old(fx)@, mid, fx@); }
            return;
        }
        let high: u64 = match &self.lease.cached {
            Some(c) => c.0.request_id,
            None => 0,
        };
        if input.request_id == high && high != 0 {
            let mut cached_receipt: Option<Vec<u8>> = None;
            match &self.lease.cached {
                Some(c) => {
                    if c.0.equals(&input) {
                        cached_receipt = Some(crate::bytes::to_vec(c.1.as_slice()));
                    }
                },
                None => {},
            }
            if let Some(receipt) = cached_receipt {
                self.lease.deadline = deadline;
                fx.push(Effect::Send(conn, Reply::Input(receipt)));
                proof { assert(fx@.take(mid.len() as int) =~= mid); lemma_extends_chain(old(fx)@, mid, fx@); }
                return;
            }
        }
        if high == u64::MAX {
            self.reject_input(conn, &input, ResultReason::Exhausted, fx);
            proof { assert(fx@.take(mid.len() as int) =~= mid); lemma_extends_chain(old(fx)@, mid, fx@); }
            return;
        }
        if input.request_id != high + 1 {
            self.reject_input(conn, &input, ResultReason::BadSequence, fx);
            proof { assert(fx@.take(mid.len() as int) =~= mid); lemma_extends_chain(old(fx)@, mid, fx@); }
            return;
        }
        self.lease.deadline = deadline;
        self.lease.inflight = Some(input.duplicate());
        let application = match application {
            None => {
                let bytes = crate::bytes::to_vec(&input.exact_payload.as_slice()[13..input.exact_payload.len()]);
                self.queue_input(conn, input, bytes, fx);
                proof { lemma_extends_chain(old(fx)@, mid, fx@); }
                return;
            },
            Some(a) => a,
        };
        let receipt = application.receipt;
        let mut reused = false;
        match &self.lease.cached {
            Some(c) => {
                if !c.0.equals(&input) {
                    match c.0.application_id() {
                        Some(prior_id) => {
                            reused = same16(&prior_id, &receipt.application_id);
                        },
                        None => {},
                    }
                }
            },
            None => {},
        }
        if reused {
            self.refuse_input(conn, input, 18, fx);
            proof { lemma_extends_chain(old(fx)@, mid, fx@); }
            return;
        }
        let length = input.exact_payload.len();
        let start = application.source_start;
        let end = application.source_end;
        let terminal_at = application.terminal_at;
        if !(start <= end && end <= length && end <= terminal_at && terminal_at <= length) || !valid_source_id(
            &input.exact_payload.as_slice()[start..end],
        ) {
            self.refuse_input(conn, input, 17, fx);
            proof { lemma_extends_chain(old(fx)@, mid, fx@); }
            return;
        }
        let found = self.find_source(&input.exact_payload.as_slice()[start..end]);
        let index = match found {
            Some(i) => {
                let source = &self.sources[i].source;
                if source.flags & EXACT == EXACT && source.capabilities & 6 == 6 && source.pending
                    != ACK_PENDING {
                    i
                } else {
                    self.refuse_input(conn, input, 17, fx);
                    proof { lemma_extends_chain(old(fx)@, mid, fx@); }
                    return;
                }
            },
            None => {
                self.refuse_input(conn, input, 17, fx);
                proof { lemma_extends_chain(old(fx)@, mid, fx@); }
                return;
            },
        };
        if self.find_application(&receipt.application_id).is_some() {
            self.refuse_input(conn, input, 18, fx);
            proof { lemma_extends_chain(old(fx)@, mid, fx@); }
            return;
        }
        if self.applications.len() >= APPLICATION_LIMIT {
            self.refuse_input(conn, input, 13, fx);
            proof { lemma_extends_chain(old(fx)@, mid, fx@); }
            return;
        }
        let terminal = &input.exact_payload.as_slice()[terminal_at..length];
        let byte_count = terminal.len() as u64;
        let digest = sha256(terminal);
        let name = crate::bytes::to_vec(self.sources[index].name.as_slice());
        let binding = self.sources[index].source.binding;
        let notice = InputNotice { receipt, byte_count, digest };
        let app = Application {
            receipt,
            source: name,
            binding,
            state: AppState::Notice(
                InputPending { controller: conn, input, expected: byte_count, terminal_at },
            ),
            deadline: now.saturating_add(2000),
            emitted: 0,
        };
        proof {
            assert(application_ok(app));
        }
        Self::insert_application(&mut self.applications, app);
        proof {
            let a = self.applications@;
            let o = old(self).applications@;
            assert forall|i: int| 0 <= i < a.len() implies application_ok(#[trigger] a[i]) by {
                let p = choose|p: int| 0 <= p <= o.len() && a == o.insert(p, app);
                if i < p {
                    assert(a[i] == o[i]);
                    assert(application_ok(o[i]));
                } else if i > p {
                    assert(a[i] == o[i - 1]);
                    assert(application_ok(o[i - 1]));
                }
            }
        }
        fx.push(Effect::Send(binding.conn, Reply::Notice(notice)));
        proof { assert(fx@.take(mid.len() as int) =~= mid); lemma_extends_chain(old(fx)@, mid, fx@); }
    }
}

proof fn lemma_extends_chain(a: Seq<Effect>, b: Seq<Effect>, c: Seq<Effect>)
    requires
        extends(b, a),
        extends(c, b),
    ensures
        extends(c, a),
{
    assert forall|k: int| 0 <= k < a.len() implies c.take(a.len() as int)[k] == a[k] by {
        assert(c[k] == c.take(b.len() as int)[k]);
        assert(b[k] == b.take(a.len() as int)[k]);
    }
    assert(c.take(a.len() as int) =~= a);
}


/// The fields of the machine that only the lease, query, output and
/// termination sides change are as they were.
spec fn same_policy(a: &Machine, b: &Machine) -> bool {
    &&& a.lease == b.lease && a.allocated == b.allocated
    &&& a.queries == b.queries && a.query_next == b.query_next
    &&& a.query_exhaustion_pending == b.query_exhaustion_pending
    &&& a.replay == b.replay && a.next_sequence == b.next_sequence && a.next_offset == b.next_offset
    &&& a.lost == b.lost && a.termination == b.termination
    &&& a.generation == b.generation && a.incarnation == b.incarnation && a.identity == b.identity
    &&& a.replay_limit == b.replay_limit
}

/// The flags a source takes on in `status`.
spec fn status_flags(stateful: bool, status: SourceStatus) -> u8 {
    match (stateful, status) {
        (false, SourceStatus::Disconnected) => 0,
        (false, _) => ACTIVE,
        (true, SourceStatus::Connected) => STATEFUL | ACTIVE,
        (true, SourceStatus::Exact) => STATEFUL | ACTIVE | EXACT,
        (true, SourceStatus::Degraded) => STATEFUL | ACTIVE,
        (true, SourceStatus::Disconnected) => STATEFUL,
    }
}

fn flags_for(stateful: bool, status: SourceStatus) -> (r: u8)
    ensures
        r == status_flags(stateful, status),
{
    match (stateful, status) {
        (false, SourceStatus::Disconnected) => 0,
        (false, _) => ACTIVE,
        (true, SourceStatus::Connected) => STATEFUL | ACTIVE,
        (true, SourceStatus::Exact) => STATEFUL | ACTIVE | EXACT,
        (true, SourceStatus::Degraded) => STATEFUL | ACTIVE,
        (true, SourceStatus::Disconnected) => STATEFUL,
    }
}

fn same_binding(a: &Binding, b: &Binding) -> (r: bool)
    ensures
        r == (a.conn == b.conn && a.epoch == b.epoch && a.producer@ == b.producer@),
{
    a.conn == b.conn && a.epoch == b.epoch && same16(&a.producer, &b.producer)
}

/// Replaces the source at `i`, keeping its name.
fn replace_source(sources: &mut Vec<SourceEntry>, i: usize, source: Source)
    requires
        i < old(sources)@.len(),
        sources_sorted(old(sources)@),
    ensures
        sources_sorted(final(sources)@),
        final(sources)@.len() == old(sources)@.len(),
        final(sources)@[i as int].name == old(sources)@[i as int].name,
        final(sources)@[i as int].source == source,
        forall|j: int| 0 <= j < old(sources)@.len() && j != i ==> #[trigger] final(sources)@[j] == old(sources)@[j],
{
    let ghost keys = source_keys(sources@);
    let entry = sources.remove(i);
    let name = entry.name;
    sources.insert(i, SourceEntry { name, source });
    proof {
        assert(source_keys(sources@) =~= keys);
    }
}

/// Takes the source at `i` out, leaving its name with an empty record, and
/// hands back the source.
fn take_source(sources: &mut Vec<SourceEntry>, i: usize) -> (r: Source)
    requires
        i < old(sources)@.len(),
        sources_sorted(old(sources)@),
    ensures
        sources_sorted(final(sources)@),
        final(sources)@.len() == old(sources)@.len(),
        final(sources)@[i as int].name == old(sources)@[i as int].name,
        r == old(sources)@[i as int].source,
        forall|j: int| 0 <= j < old(sources)@.len() && j != i ==> #[trigger] final(sources)@[j] == old(sources)@[j],
{
    let ghost keys = source_keys(sources@);
    let entry = sources.remove(i);
    let SourceEntry { name, source } = entry;
    let blank = Source {
        binding: source.binding,
        flags: 0,
        capabilities: 0,
        status: SourceStatus::Disconnected,
        entries: Vec::new(),
        pending: 0,
        last_seen: 0,
    };
    sources.insert(i, SourceEntry { name, source: blank });
    proof {
        assert(source_keys(sources@) =~= keys);
    }
    source
}

/// Moves a source to `status`, reporting the change when it is stateful.
fn transition_source(name: &Vec<u8>, source: &mut Source, status: SourceStatus, reason: SourceReason) -> (r: Option<SourceEffect>)
    ensures
        old(source).status == status ==> *final(source) == *old(source) && r is None,
        old(source).status != status ==> final(source).status == status
            && final(source).flags == status_flags(old(source).flags & STATEFUL == STATEFUL, status)
            && final(source).binding == old(source).binding && final(source).capabilities == old(source).capabilities
            && final(source).entries == old(source).entries && final(source).pending == old(source).pending
            && final(source).last_seen == old(source).last_seen
            && (r is Some <==> old(source).flags & STATEFUL == STATEFUL),
{
    if source.status == status {
        return None;
    }
    let stateful = source.flags & STATEFUL == STATEFUL;
    source.status = status;
    source.flags = flags_for(stateful, status);
    if stateful {
        Some(
            SourceEffect {
                source: crate::bytes::to_vec(name.as_slice()),
                producer: source.binding.producer,
                source_epoch: source.binding.epoch,
                status,
                reason,
            },
        )
    } else {
        None
    }
}

fn refuse_semantic(conn: ConnId, event: Option<SemanticEvent>, error: SemanticRefusal, fx: &mut Vec<Effect>)
    ensures
        final(fx)@ == old(fx)@.push(Effect::Send(conn, Reply::SemanticRefused(event, error))),
{
    fx.push(Effect::Send(conn, Reply::SemanticRefused(event, error)));
}

/// A written application's record for `reason`.
fn missing_effect(value: &Application, reason: MissingReason) -> (r: SemanticEffect)
    ensures
        r.reason == reason && r.source@ == value.source@ && r.source_epoch == value.binding.epoch,
{
    SemanticEffect {
        receipt: value.receipt,
        source: crate::bytes::to_vec(value.source.as_slice()),
        source_epoch: value.binding.epoch,
        producer: value.binding.producer,
        reason,
    }
}

/// Which notices a cancellation selects.
/// Whether a source bound to `conn` is disconnected by an update for
/// `trigger`: the connection's own closing.
spec fn closed_by(trigger: Selection, ending: bool, conn: ConnId) -> bool {
    !ending && trigger == Selection::Conn(conn)
}

enum Selection {
    /// Notices sent to this connection's source.
    Conn(ConnId),
    /// Notices whose deadline has passed at this time.
    Expired(u64),
}

impl Machine {
    /// Whether an application's source is still the binding it was
    /// announced to, with an exact state.
    fn current_source(&self, value: &Application) -> (r: bool) {
        match self.find_source(value.source.as_slice()) {
            Some(i) => {
                let source = &self.sources[i].source;
                same_binding(&source.binding, &value.binding) && source.flags & EXACT == EXACT
            },
            None => false,
        }
    }

    /// A source's answer to an input notice: the input is written when the
    /// source is prepared in time, and refused otherwise.
    fn notice_ack(&mut self, conn: ConnId, now: u64, ack: InputNoticeAck, fx: &mut Vec<Effect>)
        requires
            old(self).wf(),
        ensures
            final(self).wf(),
            extends(final(fx)@, old(fx)@),
            final(self).allocated == old(self).allocated && final(self).peers == old(self).peers,
            final(self).queries == old(self).queries && final(self).query_next == old(self).query_next,
            final(self).query_exhaustion_pending == old(self).query_exhaustion_pending,
            same_semantics(&*final(self), &*old(self)),
            final(self).lease.owner == old(self).lease.owner && final(self).lease.epoch == old(self).lease.epoch,
            final(self).replay == old(self).replay && final(self).next_sequence == old(self).next_sequence
                && final(self).next_offset == old(self).next_offset && final(self).lost == old(self).lost
                && final(self).termination == old(self).termination
                && final(self).generation == old(self).generation && final(self).incarnation == old(self).incarnation
                && final(self).identity == old(self).identity && final(self).replay_limit == old(self).replay_limit,
    {
        let index = match self.find_application(&ack.receipt.application_id) {
            Some(i) => i,
            None => {
                refuse_semantic(conn, None, SemanticRefusal::UnknownApplication, fx);
                proof { assert(fx@.take(old(fx)@.len() as int) =~= old(fx)@); }
                return;
            },
        };
        let noticed = match self.applications[index].state {
            AppState::Notice(_) => true,
            _ => false,
        };
        if !noticed {
            refuse_semantic(conn, None, SemanticRefusal::UnknownApplication, fx);
            proof { assert(fx@.take(old(fx)@.len() as int) =~= old(fx)@); }
            return;
        }
        if self.applications[index].binding.conn != conn || !self.applications[index].receipt.equals(&ack.receipt) {
            refuse_semantic(conn, None, SemanticRefusal::SourceUnavailable, fx);
            proof { assert(fx@.take(old(fx)@.len() as int) =~= old(fx)@); }
            return;
        }
        let expired = now >= self.applications[index].deadline;
        let permitted = !expired && self.current_source(&self.applications[index]) && ack.prepared;
        let ghost apps = self.applications@;
        proof {
            assert(application_ok(apps[index as int]));
        }
        let app = Self::remove_application(&mut self.applications, index);
        proof {
            let a = self.applications@;
            assert forall|i: int| 0 <= i < a.len() implies application_ok(#[trigger] a[i]) by {
                let j = if i < index { i } else { i + 1 };
                assert(a[i] == apps[j]);
                assert(application_ok(apps[j]));
            }
            assert forall|i: int| 0 <= i < a.len() implies #[trigger] a[i].receipt.application_id@ != app.receipt.application_id@ by {
                let j = if i < index { i } else { i + 1 };
                lemma_sorted_distinct(application_keys(apps), j, index as int);
                assert(application_keys(apps)[j] == apps[j].receipt.application_id@);
                assert(application_keys(apps)[index as int] == apps[index as int].receipt.application_id@);
            }
        }
        let Application { receipt, source, binding, state, deadline, emitted } = app;
        let pending = match state {
            AppState::Notice(p) => p,
            _ => {
                proof { lemma_extends_self(fx@); }
                return;
            },
        };
        if !permitted {
            let code: u16 = if expired { 19 } else { 17 };
            self.refuse_input(pending.controller, pending.input, code, fx);
            return;
        }
        if self.next_ticket == 0 {
            self.refuse_input(pending.controller, pending.input, 13, fx);
            return;
        }
        let id = receipt.application_id;
        let bytes = crate::bytes::to_vec(
            &pending.input.exact_payload.as_slice()[pending.terminal_at..pending.input.exact_payload.len()],
        );
        let writing = Application { receipt, source, binding, state: AppState::Writing, deadline, emitted };
        let ghost before = self.applications@;
        Self::insert_application(&mut self.applications, writing);
        proof {
            let a = self.applications@;
            assert forall|i: int| 0 <= i < a.len() implies application_ok(#[trigger] a[i]) by {
                let p = choose|p: int| 0 <= p <= before.len() && a == before.insert(p, writing);
                if i < p {
                    assert(a[i] == before[i]);
                } else if i > p {
                    assert(a[i] == before[i - 1]);
                }
            }
        }
        let ticket = self.file_pending(Pending::Application(id, pending));
        if let Some(t) = ticket {
            fx.push(Effect::Write(Ticket(t), bytes));
        }
        proof { assert(fx@.take(old(fx)@.len() as int) =~= old(fx)@); }
    }

    /// Refuses the first notice, in application order, that `selection`
    /// picks.
    fn cancel_notice(&mut self, code: u16, selection: Selection, fx: &mut Vec<Effect>)
        requires
            old(self).wf(),
            1 <= code <= 20,
        ensures
            final(self).wf(),
            extends(final(fx)@, old(fx)@),
            final(self).allocated == old(self).allocated && final(self).peers == old(self).peers,
            final(self).queries == old(self).queries && final(self).query_next == old(self).query_next,
            final(self).query_exhaustion_pending == old(self).query_exhaustion_pending,
            same_semantics(&*final(self), &*old(self)),
            final(self).lease.owner == old(self).lease.owner && final(self).lease.epoch == old(self).lease.epoch,
            final(self).replay == old(self).replay && final(self).next_sequence == old(self).next_sequence
                && final(self).next_offset == old(self).next_offset && final(self).lost == old(self).lost
                && final(self).termination == old(self).termination && final(self).pending == old(self).pending
                && final(self).next_ticket == old(self).next_ticket
                && final(self).generation == old(self).generation && final(self).incarnation == old(self).incarnation
                && final(self).identity == old(self).identity && final(self).replay_limit == old(self).replay_limit,
            old(self).applications@.len() == 0 ==> final(fx)@ == old(fx)@ && *final(self) == *old(self),
    {
        let mut i: usize = 0;
        while i < self.applications.len()
            invariant
                i <= self.applications@.len(),
                *self == *old(self),
                fx@ == old(fx)@,
                self.wf(),
                1 <= code <= 20,
            decreases self.applications@.len() - i,
        {
            let value = &self.applications[i];
            let selected = match value.state {
                AppState::Notice(_) => match selection {
                    Selection::Conn(conn) => value.binding.conn == conn,
                    Selection::Expired(now) => now >= value.deadline,
                },
                _ => false,
            };
            if selected {
                let ghost apps = self.applications@;
                proof {
                    assert(application_ok(apps[i as int]));
                }
                let app = Self::remove_application(&mut self.applications, i);
                proof {
                    let a = self.applications@;
                    assert forall|k: int| 0 <= k < a.len() implies application_ok(#[trigger] a[k]) by {
                        let j = if k < i { k } else { k + 1 };
                        assert(a[k] == apps[j]);
                        assert(application_ok(apps[j]));
                    }
                }
                if let AppState::Notice(pending) = app.state {
                    self.refuse_input(pending.controller, pending.input, code, fx);
                    return;
                }
                proof { lemma_extends_self(fx@); }
                return;
            }
            i = i + 1;
        }
        proof { lemma_extends_self(fx@); }
    }
}


/// Sets the reported-bits of the application at `i`.
fn set_emitted(apps: &mut Vec<Application>, i: usize, emitted: u8)
    requires
        i < old(apps)@.len(),
        applications_sorted(old(apps)@),
    ensures
        applications_sorted(final(apps)@),
        final(apps)@.len() == old(apps)@.len(),
        final(apps)@[i as int].state == old(apps)@[i as int].state,
        final(apps)@[i as int].receipt == old(apps)@[i as int].receipt,
        final(apps)@[i as int].emitted == emitted,
        forall|j: int| 0 <= j < old(apps)@.len() && j != i ==> #[trigger] final(apps)@[j] == old(apps)@[j],
{
    let ghost keys = application_keys(apps@);
    let app = apps.remove(i);
    let Application { receipt, source, binding, state, deadline, emitted: _ } = app;
    apps.insert(i, Application { receipt, source, binding, state, deadline, emitted });
    proof {
        assert(application_keys(apps@) =~= keys);
    }
}

impl Machine {
    /// Files `changes` for the store under a fresh ticket; false when no
    /// ticket is left.
    fn commit_sources(&mut self, pending: Pending, changes: Vec<SemanticChange>, mandatory: bool, fx: &mut Vec<Effect>) -> (r: bool)
        requires
            old(self).wf(),
            pending_ok(pending),
        ensures
            final(self).wf(),
            extends(final(fx)@, old(fx)@),
            r == (old(self).next_ticket != 0),
            r ==> final(fx)@ == old(fx)@.push(Effect::CommitSources(Ticket(old(self).next_ticket), changes, mandatory)),
            same_policy(&*final(self), &*old(self)), same_semantics(&*final(self), &*old(self)),
            final(self).peers == old(self).peers && final(self).applications == old(self).applications,
    {
        match self.file_pending(pending) {
            Some(t) => {
                fx.push(Effect::CommitSources(Ticket(t), changes, mandatory));
                proof { assert(fx@.take(old(fx)@.len() as int) =~= old(fx)@); }
                true
            },
            None => {
                proof { lemma_extends_self(fx@); }
                false
            },
        }
    }

    /// Stops semantic writes; every producer is refused and closed, in
    /// connection order, when writes stop.
    fn set_writable(&mut self, writable: bool, fx: &mut Vec<Effect>)
        requires
            old(self).wf(),
        ensures
            final(self).wf(),
            extends(final(fx)@, old(fx)@),
            final(self).writable == writable,
            same_policy(&*final(self), &*old(self)),
            final(self).peers == old(self).peers && final(self).applications == old(self).applications
                && final(self).sources == old(self).sources && final(self).pending == old(self).pending
                && final(self).next_ticket == old(self).next_ticket && final(self).semantic_token == old(self).semantic_token,
            final(fx)@ == old(fx)@ + if old(self).writable && !writable {
                producer_closes(old(self).peers@)
            } else {
                Seq::empty()
            },
    {
        let losing = self.writable && !writable;
        self.writable = writable;
        proof { lemma_extends_self(fx@); }
        if !losing {
            proof { assert(fx@ =~= old(fx)@ + Seq::<Effect>::empty()); }
            return;
        }
        let mut i: usize = 0;
        proof { assert(old(fx)@ + producer_closes(self.peers@.take(0)) =~= old(fx)@); }
        while i < self.peers.len()
            invariant
                i <= self.peers@.len(),
                extends(fx@, old(fx)@),
                self.peers == old(self).peers,
                fx@ == old(fx)@ + producer_closes(self.peers@.take(i as int)),
            decreases self.peers@.len() - i,
        {
            proof { assert(self.peers@.take(i + 1).drop_last() =~= self.peers@.take(i as int)); }
            let conn = self.peers[i].conn;
            let semantic = match self.peers[i].peer {
                Peer::Semantic(_) => true,
                _ => false,
            };
            if semantic {
                let ghost before = fx@;
                fx.push(Effect::Send(conn, Reply::SemanticRefused(None, SemanticRefusal::ResourceExhausted)));
                fx.push(Effect::Close(conn));
                proof {
                    assert(fx@.take(before.len() as int) =~= before);
                    lemma_extends_chain(old(fx)@, before, fx@);
                    assert(fx@ =~= old(fx)@ + producer_closes(self.peers@.take(i + 1)));
                }
            } else {
                proof { assert(fx@ =~= old(fx)@ + producer_closes(self.peers@.take(i + 1))); }
            }
            i = i + 1;
        }
        proof { assert(self.peers@.take(i as int) =~= self.peers@); }
    }

    /// Commits source changes the holder observed; when no ticket is left
    /// the store stops taking semantic writes.
    fn persist_sources(&mut self, changes: Vec<SemanticChange>, fx: &mut Vec<Effect>)
        requires
            old(self).wf(),
        ensures
            final(self).wf(),
            extends(final(fx)@, old(fx)@),
            same_policy(&*final(self), &*old(self)),
            final(self).peers == old(self).peers && final(self).applications == old(self).applications
                && final(self).sources == old(self).sources && final(self).semantic_token == old(self).semantic_token,
            changes@.len() == 0 ==> final(fx)@ == old(fx)@ && *final(self) == *old(self),
    {
        if changes.len() == 0 {
            proof { lemma_extends_self(fx@); }
            return;
        }
        let ghost mid = fx@;
        if !self.commit_sources(Pending::Sources, changes, true, fx) {
            let ghost mid2 = fx@;
            self.set_writable(false, fx);
            proof { lemma_extends_chain(mid, mid2, fx@); }
        }
    }

    /// Moves each source that `trigger` selects to the status it implies,
    /// sweeps the written applications, and commits what changed.
    #[verifier::spinoff_prover]
    fn update_sources(&mut self, trigger: Selection, ending: bool, now: Option<u64>, fx: &mut Vec<Effect>)
        requires
            old(self).wf(),
        ensures
            final(self).wf(),
            extends(final(fx)@, old(fx)@),
            same_policy(&*final(self), &*old(self)),
            final(self).peers == old(self).peers && final(self).semantic_token == old(self).semantic_token,
            old(self).spec_semantic_idle() ==> final(fx)@ == old(fx)@ && *final(self) == *old(self),
            final(self).sources@.len() == old(self).sources@.len(),
            forall|k: int| 0 <= k < old(self).sources@.len() ==> #[trigger] final(self).sources@[k].name == old(self).sources@[k].name
                && final(self).sources@[k].source.binding == old(self).sources@[k].source.binding,
            forall|k: int| 0 <= k < old(self).sources@.len() && closed_by(trigger, ending, old(self).sources@[k].source.binding.conn)
                ==> #[trigger] final(self).sources@[k].source.status == SourceStatus::Disconnected,
    {
        let (status, reason) = if ending {
            (SourceStatus::Disconnected, SourceReason::SessionEnding)
        } else {
            match trigger {
                Selection::Expired(_) => (SourceStatus::Degraded, SourceReason::HeartbeatTimeout),
                Selection::Conn(_) => (SourceStatus::Disconnected, SourceReason::TransportClosed),
            }
        };
        let mut changes: Vec<SemanticChange> = Vec::new();
        let mut i: usize = 0;
        while i < self.sources.len()
            invariant
                i <= self.sources@.len(),
                self.wf(),
                same_policy(&*self, &*old(self)),
                self.peers == old(self).peers && self.semantic_token == old(self).semantic_token,
                self.applications == old(self).applications,
                self.pending == old(self).pending && self.next_ticket == old(self).next_ticket,
                self.writable == old(self).writable,
                old(self).sources@.len() == 0 ==> *self == *old(self) && changes@.len() == 0,
                self.sources@.len() == old(self).sources@.len(),
                forall|k: int| 0 <= k < old(self).sources@.len() ==> #[trigger] self.sources@[k].name == old(self).sources@[k].name
                    && self.sources@[k].source.binding == old(self).sources@[k].source.binding,
                forall|k: int| i <= k < old(self).sources@.len() ==> #[trigger] self.sources@[k] == old(self).sources@[k],
                forall|k: int| 0 <= k < i && closed_by(trigger, ending, old(self).sources@[k].source.binding.conn)
                    ==> #[trigger] self.sources@[k].source.status == SourceStatus::Disconnected,
                !ending ==> (trigger is Conn ==> status == SourceStatus::Disconnected),
            decreases self.sources@.len() - i,
        {
            let source = &self.sources[i].source;
            let selected = if ending {
                source.flags & (STATEFUL | ACTIVE) == STATEFUL | ACTIVE
            } else {
                match trigger {
                    Selection::Expired(at) => source.flags & STATEFUL == STATEFUL && (source.status
                        == SourceStatus::Connected || source.status == SourceStatus::Exact) && at
                        >= source.last_seen.saturating_add(15000),
                    Selection::Conn(conn) => source.binding.conn == conn,
                }
            };
            if selected {
                let ghost prior = self.sources@;
                let mut taken = take_source(&mut self.sources, i);
                let change = transition_source(&self.sources[i].name, &mut taken, status, reason);
                replace_source(&mut self.sources, i, taken);
                proof {
                    assert(self.sources@[i as int].source.binding == prior[i as int].source.binding);
                    assert forall|k: int| 0 <= k < prior.len() implies #[trigger] self.sources@[k].name == old(self).sources@[k].name
                        && self.sources@[k].source.binding == old(self).sources@[k].source.binding by {
                        assert(prior[k].name == old(self).sources@[k].name);
                        assert(prior[k].source.binding == old(self).sources@[k].source.binding);
                        if k != i {
                            assert(self.sources@[k] == prior[k]);
                        }
                    }
                }
                if let Some(effect) = change {
                    changes.push(SemanticChange::Source(effect));
                }
            }
            i = i + 1;
        }
        self.sweep_applications(now, &mut changes);
        self.persist_sources(changes, fx);
    }

    /// Reports, once each, written applications whose source was lost or
    /// whose deadline passed, and forgets them when their retention ends.
    fn sweep_applications(&mut self, now: Option<u64>, changes: &mut Vec<SemanticChange>)
        requires
            old(self).wf(),
        ensures
            final(self).wf(),
            same_policy(&*final(self), &*old(self)),
            same_semantics(&*final(self), &*old(self)),
            final(self).peers == old(self).peers && final(self).pending == old(self).pending
                && final(self).next_ticket == old(self).next_ticket,
            old(self).applications@.len() == 0 ==> final(changes)@ == old(changes)@
                && *final(self) == *old(self),
    {
        let mut i: usize = 0;
        while i < self.applications.len()
            invariant
                i <= self.applications@.len(),
                self.wf(),
                same_policy(&*self, &*old(self)),
                same_semantics(&*self, &*old(self)),
                self.peers == old(self).peers && self.pending == old(self).pending
                    && self.next_ticket == old(self).next_ticket,
                old(self).applications@.len() == 0 ==> changes@ == old(changes)@ && *self == *old(self),
            decreases self.applications@.len() - i, self.applications@.len(),
        {
            let written = match self.applications[i].state {
                AppState::Written => true,
                _ => false,
            };
            if !written {
                i = i + 1;
                continue;
            }
            let current = self.current_source(&self.applications[i]);
            let mut emitted = self.applications[i].emitted;
            if !current && emitted & 2 == 0 {
                emitted = emitted | 2;
                changes.push(SemanticChange::Missing(missing_effect(&self.applications[i], MissingReason::SourceLost)));
            }
            let mut remove = false;
            if let Some(at) = now {
                let deadline = self.applications[i].deadline;
                if at >= deadline && emitted & 1 == 0 {
                    emitted = emitted | 1;
                    changes.push(SemanticChange::Missing(missing_effect(&self.applications[i], MissingReason::Deadline)));
                }
                if at >= deadline.saturating_add(540000) {
                    changes.push(SemanticChange::Missing(missing_effect(&self.applications[i], MissingReason::RetentionExpired)));
                    remove = true;
                }
            }
            let ghost apps = self.applications@;
            proof { assert(application_ok(apps[i as int])); }
            if remove {
                let _ = Self::remove_application(&mut self.applications, i);
                proof {
                    let a = self.applications@;
                    assert forall|k: int| 0 <= k < a.len() implies application_ok(#[trigger] a[k]) by {
                        let j = if k < i { k } else { k + 1 };
                        assert(a[k] == apps[j]);
                        assert(application_ok(apps[j]));
                    }
                }
            } else {
                set_emitted(&mut self.applications, i, emitted);
                proof {
                    let a = self.applications@;
                    assert forall|k: int| 0 <= k < a.len() implies application_ok(#[trigger] a[k]) by {
                        if k != i {
                            assert(a[k] == apps[k]);
                        }
                        assert(application_ok(apps[k]));
                    }
                }
                i = i + 1;
            }
        }
    }
}


/// Whether a retained event is the same event as `event`.
fn retained_matches(prior: &Retained, event: &SemanticEvent) -> bool {
    let digest = sha256(event.exact_payload.as_slice());
    same16(&prior.id, &event.id) && prior.sequence == event.sequence && prior.kind == event.kind
        && crate::bytes::same_bytes(prior.digest.as_slice(), digest.as_slice())
}

/// Whether a source can take `event`: an acknowledgement when it already
/// holds it, nothing when it is the next one, and the refusal otherwise.
/// `object` says whether the payload is a bounded JSON object, and
/// `application` whether the receipt it carries names a written
/// application of this producer.
fn source_admit(
    source: &Source,
    event: &SemanticEvent,
    receipt: Option<ApplicationReceipt>,
    writable: bool,
    object: bool,
    application: Result<(), SemanticRefusal>,
) -> (r: Result<Option<SemanticAck>, SemanticRefusal>)
    ensures
        !writable ==> r == Err::<Option<SemanticAck>, SemanticRefusal>(SemanticRefusal::ResourceExhausted),
        writable && (receipt is Some) != (event.kind == SemanticEventKind::ApplicationReceipt)
            ==> r == Err::<Option<SemanticAck>, SemanticRefusal>(SemanticRefusal::InvalidPayload),
        r matches Ok(Some(ack)) ==> ack.status == SemanticAckStatus::Duplicate && ack.id == event.id
            && ack.sequence == event.sequence,
{
    if !writable {
        return Err(SemanticRefusal::ResourceExhausted);
    }
    let is_receipt = match event.kind {
        SemanticEventKind::ApplicationReceipt => true,
        _ => false,
    };
    if receipt.is_some() != is_receipt {
        return Err(SemanticRefusal::InvalidPayload);
    }
    let needed: u8 = if receipt.is_some() {
        2
    } else {
        1
    };
    if source.capabilities & needed == 0 {
        return Err(SemanticRefusal::CapabilityAbsent);
    }
    let stateful = source.flags & STATEFUL == STATEFUL;
    let transition = match event.kind {
        SemanticEventKind::Transition => true,
        _ => false,
    };
    if !stateful && !transition {
        return Err(SemanticRefusal::InvalidPayload);
    }
    let mut i: usize = 0;
    while i < source.entries.len()
        invariant
            i <= source.entries@.len(),
            writable,
            (receipt is Some) == (event.kind == SemanticEventKind::ApplicationReceipt),
        decreases source.entries@.len() - i,
    {
        let prior = &source.entries[i];
        if same16(&prior.id, &event.id) || prior.sequence == event.sequence {
            if !retained_matches(prior, event) {
                return Err(SemanticRefusal::EventConflict);
            }
            return Ok(
                Some(
                    SemanticAck {
                        id: event.id,
                        sequence: event.sequence,
                        status: SemanticAckStatus::Duplicate,
                        position: Some(prior.position),
                    },
                ),
            );
        }
        i = i + 1;
    }
    let snapshot = match event.kind {
        SemanticEventKind::Snapshot => true,
        _ => false,
    };
    if stateful && source.flags & EXACT != EXACT && !snapshot {
        return Err(SemanticRefusal::SnapshotRequired);
    }
    if event.exact_payload.len() > 32768 || event.sequence == 0 || (!is_receipt && !object) {
        return Err(SemanticRefusal::InvalidPayload);
    }
    let n = source.entries.len();
    let high: u64 = if n > 0 {
        source.entries[n - 1].sequence
    } else {
        0
    };
    if event.sequence <= high {
        return Err(
            if high == u64::MAX {
                SemanticRefusal::ResourceExhausted
            } else {
                SemanticRefusal::BadSequence
            },
        );
    }
    if source.pending != 0 {
        return Err(SemanticRefusal::BadSequence);
    }
    let next = match next_semantic_sequence(high) {
        Ok(next) => next,
        Err(e) => {
            return Err(e);
        },
    };
    if next != event.sequence {
        return Err(SemanticRefusal::BadSequence);
    }
    if receipt.is_some() {
        if let Err(e) = application {
            return Err(e);
        }
    }
    Ok(None)
}

/// Why a producer's hello on `conn` is refused, if it is: the session
/// offers no semantic capability; it cannot store events; the token is not
/// the session's; the generation is neither the session's nor the first
/// one's zero; the capabilities or source name are not valid; a
/// registration for the connection or the source already awaits the store;
/// the source is filed in the other mode, awaits the store or spent its
/// epochs; or, for a new source, no room is left for one.
pub open spec fn hello_refusal(m: Machine, conn: ConnId, hello: SemanticHello) -> Option<SemanticRefusal> {
    let name = hello.source@;
    if !nonzero(m.spec_semantic_token()) {
        Some(SemanticRefusal::CapabilityAbsent)
    } else if !m.spec_writable() {
        Some(SemanticRefusal::ResourceExhausted)
    } else if hello.token@ != m.spec_semantic_token() {
        Some(SemanticRefusal::StaleToken)
    } else if hello.generation != m.spec_generation() && !(m.spec_generation() == 1 && hello.generation == 0) {
        Some(SemanticRefusal::Generation)
    } else if hello.capabilities & 0xf8 != 0 || !spec_valid_source_id(name) {
        Some(SemanticRefusal::InvalidPayload)
    } else if m.spec_hello_clash(conn, name) {
        Some(SemanticRefusal::ResourceExhausted)
    } else {
        match m.spec_source_binding(name) {
            Some(b) => if m.spec_source_stateful(name) != (hello.mode == SemanticMode::Stateful) {
                Some(SemanticRefusal::SourceConflict)
            } else if m.spec_source_busy(name) || b.1 == u32::MAX {
                Some(SemanticRefusal::ResourceExhausted)
            } else {
                None
            },
            None => if !m.spec_source_room() {
                Some(SemanticRefusal::ResourceExhausted)
            } else {
                None
            },
        }
    }
}

/// The epoch an accepted hello binds its source under: one past the epoch
/// of the source filed under its name, or the first.
pub open spec fn hello_epoch(m: Machine, hello: SemanticHello) -> u32 {
    match m.spec_source_binding(hello.source@) {
        Some(b) => (b.1 + 1) as u32,
        None => 1,
    }
}

/// The acknowledgement of an accepted hello on `conn`.
pub open spec fn hello_ack(m: Machine, conn: ConnId, hello: SemanticHello) -> Effect {
    Effect::Send(
        conn,
        Reply::SemanticHello(
            SemanticHelloAck {
                epoch: hello_epoch(m, hello),
                snapshot_required: hello.mode == SemanticMode::Stateful,
            },
        ),
    )
}

/// How an accepted hello on `conn` is answered: an edge producer that
/// supersedes no producer with unreported applications is acknowledged at
/// once, and with nothing else when no source was filed under its name; a
/// stateful producer has its source changes filed for the store under the
/// next ticket while tickets remain.
pub open spec fn hello_answer(old: Machine, before: Seq<Effect>, after: Seq<Effect>, conn: ConnId, hello: SemanticHello) -> bool {
    &&& hello.mode == SemanticMode::Edge && !old.spec_hello_loses(hello.source@) ==> after.len() > before.len()
        && after.last() == hello_ack(old, conn, hello)
    &&& hello.mode == SemanticMode::Edge && old.spec_source_binding(hello.source@) is None ==> after == before.push(
        hello_ack(old, conn, hello),
    )
    &&& hello.mode == SemanticMode::Stateful && old.spec_next_ticket() != 0 ==> after.len() == before.len() + 1
        && after.take(before.len() as int) == before && commits_sources(after.last(), old.spec_next_ticket())
}

/// A filing of source changes for the store under `ticket`, not mandatory.
pub open spec fn commits_sources(e: Effect, ticket: u64) -> bool {
    e matches Effect::CommitSources(t, _, mandatory) && t.value() == ticket && !mandatory
}

/// The source filed at `i` is the one its name finds.
proof fn lemma_source_at(s: Seq<SourceEntry>, i: int, name: Seq<u8>)
    requires
        sources_sorted(s),
        0 <= i < s.len(),
        s[i].name@ == name,
    ensures
        source_of(s, name) == Some(s[i].source),
{
    assert(exists|k: int| 0 <= k < s.len() && #[trigger] s[k].name@ == name) by {
        assert(s[i].name@ == name);
    }
    let j = source_index(s, name);
    assert(0 <= j < s.len() && s[j].name@ == name);
    if j != i {
        assert(source_keys(s)[i] == name);
        assert(source_keys(s)[j] == name);
        lemma_sorted_distinct(source_keys(s), i, j);
    }
    assert(j == i);
    assert(source_of(s, name) == Some(s[j].source));
}

/// A fresh source record for a producer's binding.
fn new_source(binding: Binding, mode: SemanticMode, capabilities: u8) -> (r: Source)
    ensures
        r.binding == binding,
        r.flags == (match mode {
            SemanticMode::Edge => ACTIVE,
            SemanticMode::Stateful => STATEFUL | ACTIVE,
        }),
{
    Source {
        binding,
        flags: match mode {
            SemanticMode::Edge => ACTIVE,
            SemanticMode::Stateful => STATEFUL | ACTIVE,
        },
        capabilities,
        status: SourceStatus::Connected,
        entries: Vec::new(),
        pending: 0,
        last_seen: 0,
    }
}

impl Machine {
    /// Sets the commit state of the source named `name`, if there is one.
    fn mark_source(&mut self, name: &[u8], pending: u8)
        requires
            old(self).wf(),
        ensures
            final(self).wf(),
            same_policy(&*final(self), &*old(self)),
            final(self).peers == old(self).peers && final(self).applications == old(self).applications
                && final(self).pending == old(self).pending && final(self).next_ticket == old(self).next_ticket
                && final(self).writable == old(self).writable && final(self).semantic_token == old(self).semantic_token,
    {
        if let Some(i) = self.find_source(name) {
            let mut taken = take_source(&mut self.sources, i);
            taken.pending = pending;
            replace_source(&mut self.sources, i, taken);
        }
    }

    /// Files a source under its name, in place of any record it had.
    fn store_source(&mut self, name: Vec<u8>, source: Source)
        requires
            old(self).wf(),
        ensures
            final(self).wf(),
            same_policy(&*final(self), &*old(self)),
            final(self).peers == old(self).peers && final(self).applications == old(self).applications
                && final(self).pending == old(self).pending && final(self).next_ticket == old(self).next_ticket
                && final(self).writable == old(self).writable && final(self).semantic_token == old(self).semantic_token,
    {
        match self.find_source(name.as_slice()) {
            Some(i) => replace_source(&mut self.sources, i, source),
            None => Self::insert_source(&mut self.sources, SourceEntry { name, source }),
        }
    }

    /// Completes a producer's registration: on success the source is filed,
    /// a superseded producer is replaced, and the producer is answered; on
    /// failure it is refused and closed.
    fn finish_hello(&mut self, pending: PendingHello, now: u64, success: bool, fx: &mut Vec<Effect>)
        requires
            old(self).wf(),
        ensures
            final(self).wf(),
            extends(final(fx)@, old(fx)@),
            final(self).allocated == old(self).allocated,
            final(self).lease.owner == old(self).lease.owner && final(self).lease.epoch == old(self).lease.epoch,
            final(self).query_next == old(self).query_next,
            final(self).query_exhaustion_pending == old(self).query_exhaustion_pending,
            final(self).replay == old(self).replay && final(self).next_sequence == old(self).next_sequence
                && final(self).next_offset == old(self).next_offset && final(self).lost == old(self).lost
                && final(self).termination == old(self).termination
                && final(self).generation == old(self).generation && final(self).incarnation == old(self).incarnation
                && final(self).identity == old(self).identity && final(self).replay_limit == old(self).replay_limit,
            final(self).writable == old(self).writable && final(self).semantic_token == old(self).semantic_token,
            success ==> final(fx)@.len() > old(fx)@.len() && final(fx)@.last() == Effect::Send(
                pending.source.binding.conn,
                Reply::SemanticHello(
                    SemanticHelloAck {
                        epoch: pending.source.binding.epoch,
                        snapshot_required: pending.source.flags & STATEFUL == STATEFUL,
                    },
                ),
            ),
            success && pending.superseded is None ==> final(fx)@ == old(fx)@.push(final(fx)@.last()),
            !success ==> final(fx)@ == old(fx)@ + seq![
                Effect::Send(pending.source.binding.conn, Reply::SemanticRefused(None, SemanticRefusal::ResourceExhausted)),
                Effect::Close(pending.source.binding.conn),
            ],
    {
        let PendingHello { name, source, superseded, missing } = pending;
        let conn = source.binding.conn;
        self.mark_source(name.as_slice(), 0);
        if !success {
            let _ = self.take_peer(conn);
            refuse_semantic(conn, None, SemanticRefusal::ResourceExhausted, fx);
            fx.push(Effect::Close(conn));
            proof {
                assert(fx@.take(old(fx)@.len() as int) =~= old(fx)@);
                assert(fx@ =~= old(fx)@ + seq![
                    Effect::Send(conn, Reply::SemanticRefused(None, SemanticRefusal::ResourceExhausted)),
                    Effect::Close(conn),
                ]);
            }
            return;
        }
        let snapshot_required = source.flags & STATEFUL == STATEFUL;
        let epoch = source.binding.epoch;
        let mut source = source;
        source.last_seen = now;
        let key = crate::bytes::to_vec(name.as_slice());
        self.store_source(key, source);
        proof { lemma_extends_self(fx@); }
        if let Some(old_conn) = superseded {
            let mut k: usize = 0;
            while k < missing.len()
                invariant
                    self.wf(),
                    same_policy(&*self, &*old(self)),
                    self.writable == old(self).writable && self.semantic_token == old(self).semantic_token,
                decreases missing@.len() - k,
            {
                if let Some(i) = self.find_application(&missing[k]) {
                    let ghost apps = self.applications@;
                    let emitted = self.applications[i].emitted | 2;
                    set_emitted(&mut self.applications, i, emitted);
                    proof {
                        let a = self.applications@;
                        assert forall|j: int| 0 <= j < a.len() implies application_ok(#[trigger] a[j]) by {
                            if j != i {
                                assert(a[j] == apps[j]);
                            }
                            assert(application_ok(apps[j]));
                        }
                    }
                }
                k = k + 1;
            }
            if old_conn != conn {
                let _ = self.take_peer(old_conn);
                let ghost mid = fx@;
                self.cancel_notice(17, Selection::Conn(old_conn), fx);
                let ghost mid2 = fx@;
                fx.push(Effect::Replaced(old_conn));
                proof {
                    assert(fx@.take(mid2.len() as int) =~= mid2);
                    lemma_extends_chain(mid, mid2, fx@);
                    lemma_extends_chain(old(fx)@, mid, fx@);
                }
            }
        }
        self.put_peer(conn, Peer::Semantic(name));
        let ghost mid3 = fx@;
        fx.push(Effect::Send(conn, Reply::SemanticHello(SemanticHelloAck { epoch, snapshot_required })));
        proof {
            assert(fx@.take(mid3.len() as int) =~= mid3);
            lemma_extends_chain(old(fx)@, mid3, fx@);
        }
    }

    /// Whether a registration is already pending for `conn` or for the
    /// source `name`, and how many pending registrations name a source not
    /// yet filed.
    fn hellos_pending(&self, conn: ConnId, name: &[u8]) -> (r: (bool, usize))
        ensures
            r.1 <= self.pending@.len(),
            r.0 == self.spec_hello_clash(conn, name@),
            r.1 == fresh_hellos(self.pending@, self.sources@),
    {
        let mut clash = false;
        let mut fresh: usize = 0;
        let mut i: usize = 0;
        while i < self.pending.len()
            invariant
                i <= self.pending@.len(),
                fresh <= i,
                clash == exists|j: int| 0 <= j < i && hello_for(#[trigger] self.pending@[j], conn, name@),
                fresh == fresh_hellos(self.pending@.take(i as int), self.sources@),
            decreases self.pending@.len() - i,
        {
            proof {
                assert(self.pending@.take(i + 1).drop_last() =~= self.pending@.take(i as int));
            }
            let ghost was = clash;
            if let Pending::Hello(h) = &self.pending[i].pending {
                if h.source.binding.conn == conn || crate::bytes::same_bytes(h.name.as_slice(), name) {
                    clash = true;
                }
                if self.find_source(h.name.as_slice()).is_none() {
                    fresh = fresh + 1;
                }
            }
            proof {
                if clash && !was {
                    assert(hello_for(self.pending@[i as int], conn, name@));
                }
                if !clash {
                    assert(!hello_for(self.pending@[i as int], conn, name@));
                }
            }
            i = i + 1;
        }
        proof {
            assert(self.pending@.take(i as int) =~= self.pending@);
        }
        (clash, fresh)
    }

    /// A producer's registration.
    fn semantic_hello(&mut self, conn: ConnId, now: u64, hello: SemanticHello, fx: &mut Vec<Effect>) -> (r: Result<(), SemanticRefusal>)
        requires
            old(self).wf(),
        ensures
            final(self).wf(),
            extends(final(fx)@, old(fx)@),
            r is Err ==> final(fx)@ == old(fx)@ && *final(self) == *old(self),
            !nonzero(old(self).semantic_token@) ==> r == Err::<(), SemanticRefusal>(SemanticRefusal::CapabilityAbsent),
            nonzero(old(self).semantic_token@) && !old(self).writable ==> r == Err::<(), SemanticRefusal>(SemanticRefusal::ResourceExhausted),
            nonzero(old(self).semantic_token@) && old(self).writable && hello.token@ != old(self).semantic_token@
                ==> r == Err::<(), SemanticRefusal>(SemanticRefusal::StaleToken),
            final(self).allocated == old(self).allocated,
            final(self).lease.owner == old(self).lease.owner && final(self).lease.epoch == old(self).lease.epoch,
            final(self).query_next == old(self).query_next,
            final(self).query_exhaustion_pending == old(self).query_exhaustion_pending,
            final(self).replay == old(self).replay && final(self).next_sequence == old(self).next_sequence
                && final(self).next_offset == old(self).next_offset && final(self).lost == old(self).lost
                && final(self).termination == old(self).termination
                && final(self).generation == old(self).generation && final(self).incarnation == old(self).incarnation
                && final(self).identity == old(self).identity && final(self).replay_limit == old(self).replay_limit,
            final(self).semantic_token == old(self).semantic_token,
            r == (match hello_refusal(*old(self), conn, hello) {
                Some(e) => Err::<(), SemanticRefusal>(e),
                None => Ok(()),
            }),
            r is Ok ==> hello_answer(*old(self), old(fx)@, final(fx)@, conn, hello),
    {
        proof {
            lemma_extends_self(fx@);
        }
        if !nonzero16(&self.semantic_token) {
            return Err(SemanticRefusal::CapabilityAbsent);
        }
        if !self.writable {
            return Err(SemanticRefusal::ResourceExhausted);
        }
        if !same16(&hello.token, &self.semantic_token) {
            return Err(SemanticRefusal::StaleToken);
        }
        if hello.generation != self.generation && !(self.generation == 1 && hello.generation == 0) {
            return Err(SemanticRefusal::Generation);
        }
        if hello.capabilities & 0xf8 != 0 || !valid_source_id(hello.source.as_slice()) {
            return Err(SemanticRefusal::InvalidPayload);
        }
        let (clash, fresh) = self.hellos_pending(conn, hello.source.as_slice());
        if clash {
            return Err(SemanticRefusal::ResourceExhausted);
        }
        let stateful = match hello.mode {
            SemanticMode::Stateful => true,
            SemanticMode::Edge => false,
        };
        let prior = self.find_source(hello.source.as_slice());
        proof {
            match prior {
                Some(i) => lemma_source_at(self.sources@, i as int, hello.source@),
                None => {},
            }
        }
        let epoch: u32 = match prior {
            Some(i) => {
                let source = &self.sources[i].source;
                if (source.flags & STATEFUL == STATEFUL) != stateful {
                    return Err(SemanticRefusal::SourceConflict);
                }
                if source.pending != 0 {
                    return Err(SemanticRefusal::ResourceExhausted);
                }
                if source.binding.epoch == u32::MAX {
                    return Err(SemanticRefusal::ResourceExhausted);
                }
                source.binding.epoch + 1
            },
            None => {
                if self.sources.len() >= SOURCE_LIMIT || fresh >= SOURCE_LIMIT - self.sources.len() {
                    return Err(SemanticRefusal::ResourceExhausted);
                }
                1
            },
        };
        let binding = Binding { conn, epoch, producer: hello.producer };
        let mut superseded: Option<ConnId> = None;
        let mut changes: Vec<SemanticChange> = Vec::new();
        if let Some(i) = prior {
            let source = &self.sources[i].source;
            if source.flags & ACTIVE == ACTIVE {
                superseded = Some(source.binding.conn);
            }
            if source.flags & STATEFUL == STATEFUL && source.status != SourceStatus::Disconnected {
                changes.push(
                    SemanticChange::Source(
                        SourceEffect {
                            source: crate::bytes::to_vec(hello.source.as_slice()),
                            producer: source.binding.producer,
                            source_epoch: source.binding.epoch,
                            status: SourceStatus::Disconnected,
                            reason: SourceReason::Superseded,
                        },
                    ),
                );
            }
        }
        let mut missing: Vec<[u8; 16]> = Vec::new();
        let ghost c0 = changes@.len();
        proof {
            if !stateful && prior is Some {
                assert(changes@.len() == 0);
            }
        }
        if let Some(old_conn) = superseded {
            let mut i: usize = 0;
            while i < self.applications.len()
                invariant
                    i <= self.applications@.len(),
                    changes@.len() >= c0,
                    changes@.len() == c0 <==> forall|j: int| 0 <= j < i ==> !lost_application(
                        #[trigger] self.applications@[j],
                        old_conn,
                    ),
                decreases self.applications@.len() - i,
            {
                let value = &self.applications[i];
                let written = match value.state {
                    AppState::Written => true,
                    _ => false,
                };
                if value.binding.conn == old_conn && written && value.emitted & 2 == 0 {
                    changes.push(SemanticChange::Missing(missing_effect(value, MissingReason::SourceLost)));
                    missing.push(value.receipt.application_id);
                }
                i = i + 1;
            }
        }
        if stateful {
            changes.push(
                SemanticChange::Source(
                    SourceEffect {
                        source: crate::bytes::to_vec(hello.source.as_slice()),
                        producer: hello.producer,
                        source_epoch: epoch,
                        status: SourceStatus::Connected,
                        reason: SourceReason::NoReason,
                    },
                ),
            );
        }
        let name = hello.source;
        let pending = PendingHello {
            name: crate::bytes::to_vec(name.as_slice()),
            missing,
            source: new_source(binding, hello.mode, hello.capabilities),
            superseded,
        };
        proof {
            let o = *old(self);
            assert(hello_epoch(o, hello) == epoch);
            assert(2u8 & 1u8 != 1u8) by (bit_vector);
            assert((1u8 | 2u8) & 1u8 == 1u8) by (bit_vector);
            if hello.mode == SemanticMode::Edge {
                assert(!stateful);
                if !o.spec_hello_loses(hello.source@) {
                    if let Some(c) = superseded {
                        assert forall|j: int| 0 <= j < self.applications@.len() implies !lost_application(
                            #[trigger] self.applications@[j],
                            c,
                        ) by {}
                    }
                    assert(changes@.len() == 0);
                }
            }
        }
        self.put_peer(conn, Peer::Semantic(crate::bytes::to_vec(name.as_slice())));
        if changes.len() == 0 {
            self.finish_hello(pending, now, true, fx);
            return Ok(());
        }
        if prior.is_some() {
            self.mark_source(name.as_slice(), COMMIT_PENDING);
        }
        if self.next_ticket == 0 {
            self.finish_hello(pending, now, false, fx);
            return Ok(());
        }
        let _ = self.commit_sources(Pending::Hello(pending), changes, false, fx);
        Ok(())
    }
}


impl Machine {
    /// Whether the written application a receipt event names belongs to
    /// this producer and this request.
    fn application_check(&self, conn: ConnId, receipt: &ApplicationReceipt) -> (r: Result<(), SemanticRefusal>) {
        match self.find_application(&receipt.application_id) {
            Some(i) => {
                let value = &self.applications[i];
                if value.binding.conn == conn && value.receipt.lease_epoch == receipt.lease_epoch
                    && value.receipt.request_id == receipt.request_id {
                    match value.state {
                        AppState::Written => Ok(()),
                        _ => Err(SemanticRefusal::NotWritten),
                    }
                } else {
                    Err(SemanticRefusal::UnknownApplication)
                }
            },
            None => Err(SemanticRefusal::UnknownApplication),
        }
    }

    /// A producer's event: refused, acknowledged as a duplicate, or filed
    /// for the store.
    fn semantic_event(
        &mut self,
        conn: ConnId,
        event: SemanticEvent,
        projection: Option<ReceiptProjection>,
        object: bool,
        fx: &mut Vec<Effect>,
    )
        requires
            old(self).wf(),
        ensures
            final(self).wf(),
            extends(final(fx)@, old(fx)@),
            same_policy(&*final(self), &*old(self)),
            final(self).peers == old(self).peers && final(self).applications == old(self).applications
                && final(self).writable == old(self).writable && final(self).semantic_token == old(self).semantic_token,
    {
        proof { lemma_extends_self(fx@); }
        let name = match self.find_peer(conn) {
            Some(i) => match &self.peers[i].peer {
                Peer::Semantic(name) => crate::bytes::to_vec(name.as_slice()),
                _ => {
                    refuse_semantic(conn, Some(event), SemanticRefusal::Superseded, fx);
                    proof { assert(fx@.take(old(fx)@.len() as int) =~= old(fx)@); }
                    return;
                },
            },
            None => {
                refuse_semantic(conn, Some(event), SemanticRefusal::Superseded, fx);
                proof { assert(fx@.take(old(fx)@.len() as int) =~= old(fx)@); }
                return;
            },
        };
        let index = match self.find_source(name.as_slice()) {
            Some(i) => {
                let source = &self.sources[i].source;
                if source.binding.conn == conn && source.flags & ACTIVE == ACTIVE {
                    i
                } else {
                    refuse_semantic(conn, Some(event), SemanticRefusal::Superseded, fx);
                    proof { assert(fx@.take(old(fx)@.len() as int) =~= old(fx)@); }
                    return;
                }
            },
            None => {
                refuse_semantic(conn, Some(event), SemanticRefusal::Superseded, fx);
                proof { assert(fx@.take(old(fx)@.len() as int) =~= old(fx)@); }
                return;
            },
        };
        if self.sources[index].source.pending == ACK_PENDING {
            refuse_semantic(conn, Some(event), SemanticRefusal::BadSequence, fx);
            fx.push(Effect::Close(conn));
            proof { assert(fx@.take(old(fx)@.len() as int) =~= old(fx)@); }
            return;
        }
        let binding = self.sources[index].source.binding;
        let receipt = match &projection {
            Some(p) => Some(p.receipt),
            None => None,
        };
        let check = match &receipt {
            Some(r) => self.application_check(conn, r),
            None => Ok(()),
        };
        match source_admit(&self.sources[index].source, &event, receipt, self.writable, object, check) {
            Err(error) => {
                refuse_semantic(conn, Some(event), error, fx);
                proof { assert(fx@.take(old(fx)@.len() as int) =~= old(fx)@); }
                return;
            },
            Ok(Some(ack)) => {
                fx.push(Effect::Send(conn, Reply::SemanticAck(ack)));
                proof { assert(fx@.take(old(fx)@.len() as int) =~= old(fx)@); }
                return;
            },
            Ok(None) => {},
        }
        if self.next_ticket == 0 {
            refuse_semantic(conn, Some(event), SemanticRefusal::ResourceExhausted, fx);
            proof { assert(fx@.take(old(fx)@.len() as int) =~= old(fx)@); }
            return;
        }
        let application = match &receipt {
            Some(r) => Some(r.application_id),
            None => None,
        };
        let filed = Pending::Semantic(
            crate::bytes::to_vec(name.as_slice()),
            binding,
            event.duplicate(),
            application,
        );
        let ticket = self.file_pending(filed);
        self.mark_source(name.as_slice(), COMMIT_PENDING);
        if let Some(t) = ticket {
            fx.push(
                Effect::CommitSemantic(Ticket(t), name, binding.epoch, binding.producer, event, projection),
            );
        }
        proof { assert(fx@.take(old(fx)@.len() as int) =~= old(fx)@); }
    }

    /// Finds and removes the pending operation filed under `ticket`.
    fn take_pending(&mut self, ticket: u64) -> (r: Option<Pending>)
        requires
            old(self).wf(),
        ensures
            final(self).wf(),
            r matches Some(p) ==> pending_ok(p),
            r is Some ==> ticket != 0 && (final(self).next_ticket != 0 ==> ticket < final(self).next_ticket)
                && forall|i: int| 0 <= i < final(self).pending@.len() ==> #[trigger] final(self).pending@[i].ticket != ticket,
            same_policy(&*final(self), &*old(self)), same_semantics(&*final(self), &*old(self)),
            final(self).peers == old(self).peers && final(self).applications == old(self).applications
                && final(self).next_ticket == old(self).next_ticket,
            r is None <==> pending_kind_of(old(self).pending@, ticket) is None,
            r is None ==> *final(self) == *old(self),
            r matches Some(p) ==> pending_kind_of(old(self).pending@, ticket) == Some(pending_kind(p))
                && pending_input_of(old(self).pending@, ticket) == input_of(p)
                && pending_of(old(self).pending@, ticket) == Some(p),
    {
        let mut i: usize = 0;
        while i < self.pending.len()
            invariant
                i <= self.pending@.len(),
                *self == *old(self),
                self.wf(),
                forall|j: int| 0 <= j < i ==> #[trigger] self.pending@[j].ticket != ticket,
            decreases self.pending@.len() - i,
        {
            if self.pending[i].ticket == ticket {
                let ghost before = self.pending@;
                proof {
                    assert(pending_ok(before[i as int].pending));
                }
                proof {
                    lemma_pending_at(before, self.next_ticket, i as int);
                }
                let entry = self.pending.remove(i);
                proof {
                    let p = self.pending@;
                    assert forall|a: int, b: int| 0 <= a < b < p.len() implies #[trigger] p[a].ticket != #[trigger] p[b].ticket by {
                        let a0 = if a < i { a } else { a + 1 };
                        let b0 = if b < i { b } else { b + 1 };
                        assert(before[a0].ticket != before[b0].ticket);
                    }
                    assert forall|a: int| 0 <= a < p.len() implies #[trigger] p[a].ticket != 0 && pending_ok(p[a].pending)
                        && (self.next_ticket != 0 ==> p[a].ticket < self.next_ticket) by {
                        let a0 = if a < i { a } else { a + 1 };
                        assert(before[a0].ticket != 0);
                        assert(pending_ok(before[a0].pending));
                    }
                    assert forall|a: int| 0 <= a < p.len() implies #[trigger] p[a].ticket != ticket by {
                        let a0 = if a < i { a } else { a + 1 };
                        assert(before[a0].ticket != before[i as int].ticket);
                    }
                }
                return Some(entry.pending);
            }
            i = i + 1;
        }
        None
    }

    /// Files a pending operation again under the ticket it had.
    fn restore_pending(&mut self, ticket: u64, pending: Pending)
        requires
            old(self).wf(),
            pending_ok(pending),
            ticket != 0,
            old(self).next_ticket != 0 ==> ticket < old(self).next_ticket,
            forall|i: int| 0 <= i < old(self).pending@.len() ==> #[trigger] old(self).pending@[i].ticket != ticket,
        ensures
            final(self).wf(),
            same_policy(&*final(self), &*old(self)), same_semantics(&*final(self), &*old(self)),
            final(self).peers == old(self).peers && final(self).applications == old(self).applications
                && final(self).next_ticket == old(self).next_ticket,
            pending_kind_of(final(self).pending@, ticket) == Some(pending_kind(pending)),
    {
        self.pending.push(PendingEntry { ticket, pending });
        proof {
            let p = self.pending@;
            let o = old(self).pending@;
            assert forall|a: int, b: int| 0 <= a < b < p.len() implies #[trigger] p[a].ticket != #[trigger] p[b].ticket by {
                if b < o.len() {
                    assert(o[a].ticket != o[b].ticket);
                }
            }
            assert forall|a: int| 0 <= a < p.len() implies #[trigger] p[a].ticket != 0 && pending_ok(p[a].pending)
                && (self.next_ticket != 0 ==> p[a].ticket < self.next_ticket) by {
                if a < o.len() {
                    assert(pending_ok(o[a].pending));
                }
            }
            lemma_pending_at(p, self.next_ticket, p.len() - 1);
        }
    }
}


impl Machine {
    /// A storage or terminal operation ended.
    fn complete(&mut self, ticket: Ticket, now: u64, completion: Completion, fx: &mut Vec<Effect>)
        requires
            old(self).wf(),
            completion matches Completion::Write(_, Some(c)) ==> 1 <= c <= 20,
        ensures
            final(self).wf(),
            extends(final(fx)@, old(fx)@),
            final(self).allocated == old(self).allocated,
            final(self).lease.owner == old(self).lease.owner && final(self).lease.epoch == old(self).lease.epoch,
            final(self).query_next == old(self).query_next,
            final(self).query_exhaustion_pending == old(self).query_exhaustion_pending,
            final(self).replay == old(self).replay && final(self).next_sequence == old(self).next_sequence
                && final(self).next_offset == old(self).next_offset && final(self).lost == old(self).lost
                && final(self).termination == old(self).termination
                && final(self).generation == old(self).generation && final(self).incarnation == old(self).incarnation
                && final(self).identity == old(self).identity && final(self).replay_limit == old(self).replay_limit,
            final(self).semantic_token == old(self).semantic_token,
            complete_answer(*old(self), *final(self), old(fx)@, final(fx)@, ticket, completion),
    {
        proof { lemma_extends_self(fx@); }
        let number = ticket.0;
        let pending = match self.take_pending(number) {
            Some(p) => p,
            None => {
                return;
            },
        };
        match pending {
            Pending::Input(conn, input) => match completion {
                Completion::Write(written, error) => {
                    let receipt = self.receipt(&input, written, error);
                    let ghost start = fx@;
                    self.finish_input(conn, input, receipt, fx);
                    proof {
                        let added = fx@.skip(start.len() as int);
                        assert(fx@.take(start.len() as int) == start);
                        if added.len() == 1 {
                            assert(added[0] == fx@.last());
                            assert(fx@ =~= start.push(fx@.last()));
                            assert(fx@ =~= start + added);
                        }
                        if added.len() == 0 {
                            assert(fx@ =~= start);
                        }
                    }
                },
                _ => {
                    self.restore_pending(number, Pending::Input(conn, input));
                },
            },
            Pending::Application(id, pending) => match completion {
                Completion::Write(written, error) => {
                    let failed = error.is_some() || written != pending.expected;
                    let failure: Option<u16> = if failed {
                        Some(20)
                    } else {
                        None
                    };
                    if let Some(i) = self.find_application(&id) {
                        let ghost apps = self.applications@;
                        let app = Self::remove_application(&mut self.applications, i);
                        proof {
                            let a = self.applications@;
                            assert forall|k: int| 0 <= k < a.len() implies application_ok(#[trigger] a[k]) by {
                                let j = if k < i { k } else { k + 1 };
                                assert(a[k] == apps[j]);
                                assert(application_ok(apps[j]));
                            }
                            assert forall|k: int| 0 <= k < a.len() implies #[trigger] a[k].receipt.application_id@ != id@ by {
                                let j = if k < i { k } else { k + 1 };
                                lemma_sorted_distinct(application_keys(apps), j, i as int);
                                assert(application_keys(apps)[j] == apps[j].receipt.application_id@);
                                assert(application_keys(apps)[i as int] == apps[i as int].receipt.application_id@);
                            }
                        }
                        if !failed {
                            let Application { receipt, source, binding, state: _, deadline: _, emitted } = app;
                            let written_app = Application {
                                receipt,
                                source,
                                binding,
                                state: AppState::Written,
                                deadline: now.saturating_add(60000),
                                emitted,
                            };
                            let ghost before = self.applications@;
                            Self::insert_application(&mut self.applications, written_app);
                            proof {
                                let a = self.applications@;
                                assert forall|k: int| 0 <= k < a.len() implies application_ok(#[trigger] a[k]) by {
                                    let p = choose|p: int| 0 <= p <= before.len() && a == before.insert(p, written_app);
                                    if k < p {
                                        assert(a[k] == before[k]);
                                    } else if k > p {
                                        assert(a[k] == before[k - 1]);
                                    }
                                }
                            }
                        } else {
                            let ghost mid = fx@;
                            fx.push(Effect::Send(app.binding.conn, Reply::NoticeCancel(app.receipt)));
                            proof {
                                assert(fx@.take(mid.len() as int) =~= mid);
                                lemma_extends_chain(old(fx)@, mid, fx@);
                            }
                        }
                    }
                    let receipt = self.receipt(&pending.input, written, failure);
                    let ghost mid = fx@;
                    self.finish_input(pending.controller, pending.input, receipt, fx);
                    proof { lemma_extends_chain(old(fx)@, mid, fx@); }
                },
                _ => {
                    self.restore_pending(number, Pending::Application(id, pending));
                },
            },
            Pending::Hello(hello) => match completion {
                Completion::Sources(success) => {
                    self.finish_hello(hello, now, success, fx);
                },
                _ => {
                    self.restore_pending(number, Pending::Hello(hello));
                },
            },
            Pending::Ack(name, ack) => match completion {
                Completion::Sources(success) => {
                    if let Some(i) = self.find_source(name.as_slice()) {
                        proof { lemma_source_at(self.sources@, i as int, name@); }
                        let conn = self.sources[i].source.binding.conn;
                        self.mark_source(name.as_slice(), 0);
                        if success {
                            fx.push(Effect::Send(conn, Reply::SemanticAck(ack)));
                            proof { assert(fx@.take(old(fx)@.len() as int) =~= old(fx)@); }
                        } else {
                            refuse_semantic(conn, None, SemanticRefusal::ResourceExhausted, fx);
                            proof { assert(fx@.take(old(fx)@.len() as int) =~= old(fx)@); }
                        }
                    }
                },
                _ => {
                    self.restore_pending(number, Pending::Ack(name, ack));
                },
            },
            Pending::Sources => match completion {
                Completion::Sources(success) => {
                    if !success {
                        self.set_writable(false, fx);
                    }
                },
                _ => {
                    self.restore_pending(number, Pending::Sources);
                },
            },
            Pending::Semantic(name, binding, event, application) => match completion {
                Completion::Semantic(position) => {
                    self.semantic_committed(name, binding, event, application, position, fx);
                },
                _ => {
                    self.restore_pending(number, Pending::Semantic(name, binding, event, application));
                },
            },
        }
    }

    /// The store committed, or refused, a producer's event.
    fn semantic_committed(
        &mut self,
        name: Vec<u8>,
        binding: Binding,
        event: SemanticEvent,
        application: Option<[u8; 16]>,
        position: Result<EventPosition, SemanticRefusal>,
        fx: &mut Vec<Effect>,
    )
        requires
            old(self).wf(),
        ensures
            final(self).wf(),
            extends(final(fx)@, old(fx)@),
            final(self).allocated == old(self).allocated && final(self).lease == old(self).lease,
            final(self).queries == old(self).queries && final(self).query_next == old(self).query_next,
            final(self).query_exhaustion_pending == old(self).query_exhaustion_pending,
            final(self).replay == old(self).replay && final(self).next_sequence == old(self).next_sequence
                && final(self).next_offset == old(self).next_offset && final(self).lost == old(self).lost
                && final(self).termination == old(self).termination
                && final(self).generation == old(self).generation && final(self).incarnation == old(self).incarnation
                && final(self).identity == old(self).identity && final(self).replay_limit == old(self).replay_limit,
            final(self).semantic_token == old(self).semantic_token,
            event_answer(*old(self), old(fx)@, final(fx)@, name@, binding.conn, event, position),
            !(position is Ok && event.kind == SemanticEventKind::Snapshot) ==> final(self).writable == old(self).writable,
    {
        proof { lemma_extends_self(fx@); }
        let index = match self.find_source(name.as_slice()) {
            Some(i) => i,
            None => {
                return;
            },
        };
        proof { lemma_source_at(self.sources@, index as int, name@); }
        let mut source = take_source(&mut self.sources, index);
        source.pending = 0;
        let position = match position {
            Ok(p) => p,
            Err(error) => {
                replace_source(&mut self.sources, index, source);
                refuse_semantic(binding.conn, Some(event), error, fx);
                proof { assert(fx@.take(old(fx)@.len() as int) =~= old(fx)@); }
                return;
            },
        };
        let snapshot = match event.kind {
            SemanticEventKind::Snapshot => true,
            _ => false,
        };
        let change = if snapshot && source.flags & ACTIVE == ACTIVE {
            transition_source(&name, &mut source, SourceStatus::Exact, SourceReason::NoReason)
        } else {
            None
        };
        let digest = sha256(event.exact_payload.as_slice());
        source.entries.push(
            Retained { id: event.id, sequence: event.sequence, kind: event.kind, digest, position },
        );
        if source.entries.len() > RETAINED_LIMIT {
            let _ = source.entries.remove(0);
        }
        let has_change = change.is_some();
        if has_change {
            source.pending = ACK_PENDING;
        }
        replace_source(&mut self.sources, index, source);
        if let Some(id) = application {
            if let Some(i) = self.find_application(&id) {
                let ghost apps = self.applications@;
                let _ = Self::remove_application(&mut self.applications, i);
                proof {
                    let a = self.applications@;
                    assert forall|k: int| 0 <= k < a.len() implies application_ok(#[trigger] a[k]) by {
                        let j = if k < i { k } else { k + 1 };
                        assert(a[k] == apps[j]);
                        assert(application_ok(apps[j]));
                    }
                }
            }
        }
        let ack = SemanticAck {
            id: event.id,
            sequence: event.sequence,
            status: SemanticAckStatus::Accepted,
            position: Some(position),
        };
        match change {
            Some(effect) => {
                let mut changes: Vec<SemanticChange> = Vec::new();
                changes.push(SemanticChange::Source(effect));
                let filed = self.commit_sources(Pending::Ack(name, ack), changes, false, fx);
                if !filed {
                    let ghost mid = fx@;
                    refuse_semantic(binding.conn, None, SemanticRefusal::ResourceExhausted, fx);
                    proof { assert(fx@.take(mid.len() as int) =~= mid); lemma_extends_chain(old(fx)@, mid, fx@); }
                    let ghost mid2 = fx@;
                    self.set_writable(false, fx);
                    proof { lemma_extends_chain(old(fx)@, mid2, fx@); }
                }
            },
            None => {
                fx.push(Effect::Send(binding.conn, Reply::SemanticAck(ack)));
                proof { assert(fx@.take(old(fx)@.len() as int) =~= old(fx)@); }
            },
        }
    }
}


/// `a + b`, or the largest value when that overflows.
pub open spec fn sat_add(a: u64, b: u64) -> u64 {
    if a + b > u64::MAX {
        u64::MAX
    } else {
        (a + b) as u64
    }
}

/// The code a terminal size is refused with, if it is.
pub open spec fn refused_geometry(columns: u16, rows: u16) -> Option<u16> {
    if (columns == 0) != (rows == 0) {
        Some(14)
    } else if columns > GEOMETRY_LIMIT || rows > GEOMETRY_LIMIT || columns * rows > GEOMETRY_CELLS {
        Some(5)
    } else {
        None
    }
}

impl Machine {
    /// Checks a terminal size; a bad one answers `conn` with an error and
    /// closes it.
    fn geometry(conn: ConnId, columns: u16, rows: u16, fx: &mut Vec<Effect>) -> (r: bool)
        ensures
            r == (refused_geometry(columns, rows) is None),
            r ==> final(fx)@ == old(fx)@,
            !r ==> final(fx)@.len() == old(fx)@.len() + 2 && extends(final(fx)@, old(fx)@)
                && is_controller_error(final(fx)@[old(fx)@.len() as int], conn, refused_geometry(columns, rows)->0)
                && final(fx)@[old(fx)@.len() + 1int] == Effect::Close(conn),
    {
        let (code, diagnostic): (u16, &'static str) = if (columns == 0) != (rows == 0) {
            (14, "geometry was half specified")
        } else if columns > GEOMETRY_LIMIT || rows > GEOMETRY_LIMIT {
            (5, "geometry exceeded its valid range")
        } else {
            assert((columns as u32) * (rows as u32) <= 32767 * 32767) by (nonlinear_arith)
                requires
                    columns <= 32767,
                    rows <= 32767,
            ;
            if (columns as u32) * (rows as u32) > GEOMETRY_CELLS {
                (5, "geometry exceeded its valid range")
            } else {
                return true;
            }
        };
        fx.push(Effect::Send(conn, Reply::ControllerError(code, diagnostic)));
        fx.push(Effect::Close(conn));
        proof { assert(fx@.take(old(fx)@.len() as int) =~= old(fx)@); }
        false
    }

    /// A viewer's reply to a delegated query: written to the terminal when
    /// it answers the query in time, its fallback written when late.
    fn query_reply(&mut self, conn: ConnId, now: u64, correlation: u64, epoch: u32, class: u8, bytes: Vec<u8>, fx: &mut Vec<Effect>)
        requires
            old(self).wf(),
        ensures
            final(self).wf(),
            extends(final(fx)@, old(fx)@),
            final(self).query_next == old(self).query_next,
            final(self).query_exhaustion_pending == old(self).query_exhaustion_pending,
            final(self).queries@.len() <= old(self).queries@.len(),
            final(self).lease.owner == old(self).lease.owner && final(self).lease.epoch == old(self).lease.epoch,
            final(self).peers == old(self).peers && final(self).allocated == old(self).allocated,
            final(self).replay == old(self).replay && final(self).next_sequence == old(self).next_sequence
                && final(self).next_offset == old(self).next_offset && final(self).lost == old(self).lost
                && final(self).termination == old(self).termination,
            final(self).generation == old(self).generation && final(self).incarnation == old(self).incarnation
                && final(self).identity == old(self).identity && final(self).replay_limit == old(self).replay_limit,
            same_semantics(&*final(self), &*old(self)),
    {
        proof { lemma_extends_self(fx@); }
        let mut i: usize = 0;
        while i < self.queries.len()
            invariant
                i <= self.queries@.len(),
                forall|j: int| 0 <= j < i ==> !(#[trigger] self.queries@[j].conn == conn && self.queries@[j].correlation == correlation),
            decreases self.queries@.len() - i,
        {
            if self.queries[i].conn == conn && self.queries[i].correlation == correlation {
                break;
            }
            i = i + 1;
        }
        if i >= self.queries.len() {
            return;
        }
        let query = &self.queries[i];
        if query.epoch != epoch || query.shape.class != class || !validate_query_reply(&query.shape, bytes.as_slice()) {
            return;
        }
        let query_epoch = query.epoch;
        let ghost q = self.queries@;
        if now >= query.deadline {
            let removed = self.queries.remove(i);
            proof { lemma_queries_remove(q, self.query_next, i as int); assert(self.queries@ =~= q.remove(i as int)); }
            Self::fallback(removed.fallback, fx);
            return;
        }
        if self.touch_lease(conn, query_epoch, None, now) {
            let ghost q2 = self.queries@;
            let _ = self.queries.remove(i);
            proof { lemma_queries_remove(q2, self.query_next, i as int); assert(self.queries@ =~= q2.remove(i as int)); }
            fx.push(Effect::Write(Ticket(0), bytes));
            proof { assert(fx@.take(old(fx)@.len() as int) =~= old(fx)@); }
        }
    }

    /// Time passes: the lease may lapse, a graceful termination escalates
    /// after five seconds and reports after ten, notices and queries past
    /// their deadlines are answered, and silent stateful sources degrade.
    fn tick(&mut self, now: u64, fx: &mut Vec<Effect>)
        requires
            old(self).wf(),
        ensures
            final(self).wf(),
            extends(final(fx)@, old(fx)@),
            final(self).allocated == old(self).allocated,
            final(self).query_next == old(self).query_next,
            final(self).query_exhaustion_pending == old(self).query_exhaustion_pending,
            final(self).replay == old(self).replay && final(self).next_sequence == old(self).next_sequence
                && final(self).next_offset == old(self).next_offset && final(self).lost == old(self).lost,
            final(self).peers == old(self).peers,
            final(self).generation == old(self).generation && final(self).incarnation == old(self).incarnation
                && final(self).identity == old(self).identity && final(self).replay_limit == old(self).replay_limit
                && final(self).semantic_token == old(self).semantic_token,
            termination_kept(&*old(self), &*final(self)),
            tick_step(*old(self), *final(self), now),
            tick_answer(*old(self), now, old(fx)@, final(fx)@),
            quiet(*old(self), now) ==> kept(*old(self), *final(self), true, true, true, false, true),
    {
        self.expire_lease(now, fx);
        let ghost m0 = fx@;
        let ghost marks = tick_marks(*old(self), now);
        let mut force = false;
        let mut report: Option<ConnId> = None;
        if let Some(state) = self.termination {
            let mut next = state;
            if next.method == 1 && now >= next.started.saturating_add(5000) {
                next.method = 2;
                next.containment = next.containment | 4;
                force = true;
            }
            if !next.expired && now >= next.started.saturating_add(10000) {
                next.expired = true;
                report = next.peer;
                next.peer = None;
            }
            self.termination = Some(next);
        }
        if force {
            fx.push(Effect::Terminate(true));
        }
        if let Some(peer) = report {
            fx.push(Effect::ReportTermination(peer));
        }
        proof {
            assert(fx@.take(m0.len() as int) =~= m0);
            lemma_extends_chain(old(fx)@, m0, fx@);
            assert(fx@ =~= m0 + marks);
        }
        let ghost m1 = fx@;
        self.cancel_notice(19, Selection::Expired(now), fx);
        proof { lemma_extends_chain(old(fx)@, m1, fx@); lemma_extends_self(m1); }
        let ghost m2 = fx@;
        self.update_sources(Selection::Expired(now), false, Some(now), fx);
        proof { lemma_extends_chain(old(fx)@, m2, fx@); lemma_extends_chain(m1, m2, fx@); }
        let ghost t = self.termination;
        let ghost m3 = fx@;
        let ghost q0 = self.queries@.len();
        let ghost settled = *self;
        while self.queries.len() > 0 && now >= self.queries[0].deadline
            invariant
                self.wf(),
                extends(fx@, old(fx)@),
                extends(fx@, m1),
                q0 == 0 ==> fx@ == m3 && self.queries@.len() == 0 && *self == settled,
                self.allocated == old(self).allocated,
                self.query_next == old(self).query_next,
                self.query_exhaustion_pending == old(self).query_exhaustion_pending,
                self.replay == old(self).replay && self.next_sequence == old(self).next_sequence
                    && self.next_offset == old(self).next_offset && self.lost == old(self).lost,
                self.peers == old(self).peers,
                self.termination == t,
                self.generation == old(self).generation && self.incarnation == old(self).incarnation
                    && self.identity == old(self).identity && self.replay_limit == old(self).replay_limit
                    && self.semantic_token == old(self).semantic_token,
            decreases self.queries@.len(),
        {
            let ghost q = self.queries@;
            let query = self.queries.remove(0);
            proof { lemma_queries_remove(q, self.query_next, 0); assert(self.queries@ =~= q.remove(0)); }
            let ghost m4 = fx@;
            Self::fallback(query.fallback, fx);
            proof { lemma_extends_chain(old(fx)@, m4, fx@); lemma_extends_chain(m1, m4, fx@); }
        }
        proof {
            let k = m0.len() as int;
            assert(fx@.take(m1.len() as int) == m1);
            assert(m1.subrange(k, k + marks.len()) =~= marks);
            assert(fx@.subrange(k, k + marks.len()) =~= m1.subrange(k, k + marks.len()));
            assert(marks_at(fx@, k, marks));
            if !old(self).spec_lease_lapsed(now) && old(self).spec_queries().len() == 0 && old(self).spec_semantic_idle() {
                assert(old(self).queries@.len() == 0);
                assert(fx@ == m1);
                assert(m0 == old(fx)@);
                lemma_kept(*old(self), *self, true, true, true, false, true);
            }
        }
    }

    /// A peer went away.
    fn disconnect(&mut self, conn: ConnId, fx: &mut Vec<Effect>)
        requires
            old(self).wf(),
        ensures
            final(self).wf(),
            extends(final(fx)@, old(fx)@),
            final(self).spec_controller(conn) is None && !final(self).spec_is_producer(conn),
            forall|c: ConnId| c != conn ==> final(self).spec_controller(c) == old(self).spec_controller(c),
            old(self).spec_controller(conn) is Some ==> {
                &&& final(self).lease.epoch == old(self).lease.epoch
                &&& final(self).lease.owner == (if old(self).lease.owner == Some(conn) { None } else { old(self).lease.owner })
                &&& writes(final(fx)@.skip(old(fx)@.len() as int), old(self).spec_gone(conn))
            },
            final(self).allocated == old(self).allocated,
            final(self).query_next == old(self).query_next,
            final(self).query_exhaustion_pending == old(self).query_exhaustion_pending,
            final(self).replay == old(self).replay && final(self).next_sequence == old(self).next_sequence
                && final(self).next_offset == old(self).next_offset && final(self).lost == old(self).lost
                && final(self).termination == old(self).termination,
            final(self).generation == old(self).generation && final(self).incarnation == old(self).incarnation
                && final(self).identity == old(self).identity && final(self).replay_limit == old(self).replay_limit
                && final(self).semantic_token == old(self).semantic_token,
            bound_producer(*old(self), conn) ==> sources_closed(*old(self), *final(self), conn),
    {
        proof { lemma_extends_self(fx@); }
        match self.take_peer(conn) {
            Some(Peer::Controller(_, _)) => {
                if self.owns(conn) {
                    self.lease.owner = None;
                }
                self.queries_gone(conn, fx);
            },
            Some(Peer::Semantic(name)) => {
                let found = self.find_source(name.as_slice());
                proof {
                    if let Some(i) = found {
                        lemma_source_at(self.sources@, i as int, name@);
                    }
                }
                let bound = match found {
                    Some(i) => self.sources[i].source.binding.conn == conn,
                    None => false,
                };
                if bound {
                    let ghost before = self.sources@;
                    self.update_sources(Selection::Conn(conn), false, None, fx);
                    let ghost mid = fx@;
                    let ghost after = self.sources@;
                    self.cancel_notice(17, Selection::Conn(conn), fx);
                    proof {
                        lemma_extends_chain(old(fx)@, mid, fx@);
                        assert forall|n: Seq<u8>| #[trigger] bound_to(old(self).spec_source_binding(n), conn)
                            implies self.spec_source_status(n) == Some(SourceStatus::Disconnected) by {
                            let k = source_index(before, n);
                            assert(exists|j: int| 0 <= j < before.len() && #[trigger] before[j].name@ == n);
                            assert(0 <= k < before.len() && before[k].name@ == n);
                            lemma_source_at(before, k, n);
                            assert(after[k].name == before[k].name);
                            lemma_source_at(after, k, n);
                            assert(closed_by(Selection::Conn(conn), false, before[k].source.binding.conn));
                        }
                    }
                } else {
                    self.drop_hellos(conn);
                }
            },
            None => {},
        }
    }

    /// Forgets the registrations pending for `conn`.
    fn drop_hellos(&mut self, conn: ConnId)
        requires
            old(self).wf(),
        ensures
            final(self).wf(),
            same_policy(&*final(self), &*old(self)), same_semantics(&*final(self), &*old(self)),
            final(self).peers == old(self).peers && final(self).applications == old(self).applications,
    {
        let mut i: usize = 0;
        while i < self.pending.len()
            invariant
                i <= self.pending@.len(),
                self.wf(),
                same_policy(&*self, &*old(self)), same_semantics(&*self, &*old(self)),
                self.peers == old(self).peers && self.applications == old(self).applications,
            decreases self.pending@.len() - i,
        {
            let drop = match &self.pending[i].pending {
                Pending::Hello(h) => h.source.binding.conn == conn,
                _ => false,
            };
            if drop {
                let ghost before = self.pending@;
                let _ = self.pending.remove(i);
                proof {
                    let p = self.pending@;
                    assert forall|a: int, b: int| 0 <= a < b < p.len() implies #[trigger] p[a].ticket != #[trigger] p[b].ticket by {
                        let a0 = if a < i { a } else { a + 1 };
                        let b0 = if b < i { b } else { b + 1 };
                        assert(before[a0].ticket != before[b0].ticket);
                    }
                    assert forall|a: int| 0 <= a < p.len() implies #[trigger] p[a].ticket != 0 && pending_ok(p[a].pending)
                        && (self.next_ticket != 0 ==> p[a].ticket < self.next_ticket) by {
                        let a0 = if a < i { a } else { a + 1 };
                        assert(before[a0].ticket != 0);
                        assert(pending_ok(before[a0].pending));
                    }
                }
            } else {
                i = i + 1;
            }
        }
    }
}

/// Removing a query keeps the queue ordered.
proof fn lemma_queries_remove(q: Seq<PendingQuery>, next: u64, i: int)
    requires
        queries_ordered(q, next),
        0 <= i < q.len(),
    ensures
        queries_ordered(q.remove(i), next),
{
    let r = q.remove(i);
    assert forall|a: int, b: int| 0 <= a < b < r.len() implies #[trigger] r[a].correlation < #[trigger] r[b].correlation by {
        let a0 = if a < i { a } else { a + 1 };
        let b0 = if b < i { b } else { b + 1 };
        assert(q[a0].correlation < q[b0].correlation);
    }
    assert forall|a: int| 0 <= a < r.len() implies #[trigger] r[a].correlation != 0 && (next != 0 ==> r[a].correlation < next) by {
        let a0 = if a < i { a } else { a + 1 };
        assert(q[a0].correlation != 0);
    }
}


/// Whether the runtime may hand the machine `t`: an input carries nonzero
/// coordinates and its 13-byte header, and a write failure carries a receipt
/// code.
pub open spec fn transition_ok(t: Transition) -> bool {
    match t {
        Transition::Peer(_, _, Request::Input(i, _)) => input_ok(i) && i.exact_payload@.len() >= 13,
        Transition::Complete(_, _, Completion::Write(_, Some(c))) => 1 <= c <= 20,
        _ => true,
    }
}

/// What every step keeps: epochs handed out never go back, correlations
/// and output sequences only move forward and stay spent once spent, output
/// offsets never go back, and the session's identity is fixed.
spec fn steps_forward(a: &Machine, b: &Machine) -> bool {
    &&& b.allocated >= a.allocated
    &&& a.query_next == 0 ==> b.query_next == 0
    &&& b.query_next == 0 || b.query_next >= a.query_next
    &&& b.next_offset >= a.next_offset
    &&& a.next_sequence == 0 ==> b.next_sequence == 0
    &&& b.next_sequence == 0 || b.next_sequence >= a.next_sequence
    &&& b.generation == a.generation && b.incarnation == a.incarnation && b.identity == a.identity
    &&& b.replay_limit == a.replay_limit && b.semantic_token == a.semantic_token
}

/// A termination once started keeps its start, and a forced one stays
/// forced.
spec fn termination_kept(a: &Machine, b: &Machine) -> bool {
    a.termination matches Some(t) ==> (b.termination matches Some(u) && u.started == t.started
        && (t.method == 2 ==> u.method == 2) && (t.expired ==> u.expired))
}

impl Machine {
    /// The lease request of `conn`, after the lease lapses if its deadline
    /// passed.
    fn request_lease(&mut self, conn: ConnId, request: &LeaseRequest, now: u64, token: Option<[u8; 16]>, fx: &mut Vec<Effect>) -> (r: LeaseResult)
        requires
            old(self).wf(),
        ensures
            final(self).wf(),
            extends(final(fx)@, old(fx)@),
            steps_forward(&*old(self), &*final(self)),
            final(self).peers == old(self).peers && final(self).termination == old(self).termination,
            final(self).query_next == old(self).query_next,
            final(self).query_exhaustion_pending == old(self).query_exhaustion_pending,
            final(self).replay == old(self).replay && final(self).next_sequence == old(self).next_sequence
                && final(self).next_offset == old(self).next_offset && final(self).lost == old(self).lost,
            !old(self).spec_lease_lapsed(now) ==> final(fx)@ == old(fx)@ && final(self).queries == old(self).queries,
            lease_answer(
                *old(self),
                *final(self),
                conn,
                request.operation == LeaseOperation::Fresh,
                request.role,
                lease_request_refusal(*old(self), now, *request),
                now,
                token,
                r,
            ),
            r.outcome == ResultOutcome::Granted ==> final(self).lease.owner == Some(conn)
                && final(self).allocated == r.epoch && r.epoch == old(self).allocated + 1,
    {
        self.expire_lease(now, fx);
        self.grant(conn, request, now, token)
    }

    #[verifier::spinoff_prover]
    #[verifier::rlimit(40)]
    fn peer_request(&mut self, now: u64, conn: ConnId, request: Request, fx: &mut Vec<Effect>) -> (r: Result<(), WireError>)
        requires
            old(self).wf(),
            transition_ok(Transition::Peer(now, conn, request)),
        ensures
            final(self).wf(),
            extends(final(fx)@, old(fx)@),
            steps_forward(&*old(self), &*final(self)),
            termination_kept(&*old(self), &*final(self)),
            final(self).query_next == old(self).query_next,
            final(self).query_exhaustion_pending == old(self).query_exhaustion_pending,
            final(self).replay == old(self).replay && final(self).next_sequence == old(self).next_sequence
                && final(self).next_offset == old(self).next_offset && final(self).lost == old(self).lost,
            peer_answer(*old(self), *final(self), old(fx)@, final(fx)@, now, conn, request, r),
    {
        proof { lemma_extends_self(fx@); }
        match request {
            Request::Attach(columns, rows, lease, non_vt, token) => {
                if !Self::geometry(conn, columns, rows, fx) {
                    return Ok(());
                }
                let phase = match self.phase(conn) {
                    Some(p) => p,
                    None => {
                        return Err(WireError::Malformed);
                    },
                };
                let resumed = phase == Phase::Resumed && !lease && self.owns(conn);
                if !(resumed || phase == Phase::Unattached && (columns == 0 || lease)) {
                    return Err(WireError::Malformed);
                }
                let result = if lease {
                    let fresh = LeaseRequest::fresh(LeaseRole::Viewer);
                    proof {
                        assert(!nonzero(fresh.incarnation@));
                        assert(!nonzero(fresh.token@));
                    }
                    Some(self.request_lease(conn, &fresh, now, token, fx))
                } else {
                    None
                };
                let granted = match &result {
                    Some(value) => value.outcome == ResultOutcome::Granted,
                    None => false,
                };
                let owns = resumed || granted;
                self.put_peer(conn, Peer::Controller(true, non_vt));
                let resize = if columns != 0 && owns {
                    Some((rows, columns))
                } else {
                    None
                };
                let ghost m0 = fx@;
                let ghost at = m0.len() as int;
                let ghost gap: int = if self.lost != 0 { 1 } else { 0 };
                proof {
                    assert(attach_effect(
                        Effect::Attached(conn, non_vt, result, resize),
                        *old(self),
                        *self,
                        conn,
                        non_vt,
                        lease,
                        resumed,
                        columns,
                        rows,
                        now,
                        token,
                    ));
                }
                fx.push(Effect::Attached(conn, non_vt, result, resize));
                if self.lost != 0 {
                    fx.push(Effect::Gap(conn, self.lost));
                }
                proof {
                    assert(fx@.take(m0.len() as int) =~= m0);
                    lemma_extends_chain(old(fx)@, m0, fx@);
                }
                let ghost fin = *self;
                let mut i: usize = 0;
                while i < self.replay.len()
                    invariant
                        *self == fin,
                        i <= self.replay@.len(),
                        extends(fx@, old(fx)@),
                        gap == (if self.lost != 0 { 1int } else { 0int }),
                        fx@.len() == at + 1 + gap + i,
                        at >= old(fx)@.len(),
                        (!lease || !old(self).spec_lease_lapsed(now)) ==> at == old(fx)@.len(),
                        fx@[at] == Effect::Attached(conn, non_vt, result, resize),
                        gap == 1 ==> fx@[at + 1] == Effect::Gap(conn, self.lost),
                        forall|j: int| 0 <= j < i ==> replays_to(#[trigger] fx@[at + 1 + gap + j], conn, self.replay@[j]),
                    decreases self.replay@.len() - i,
                {
                    let ghost m1 = fx@;
                    fx.push(Effect::Output(Some(conn), self.replay[i].duplicate()));
                    proof {
                        assert(fx@.take(m1.len() as int) =~= m1);
                        lemma_extends_chain(old(fx)@, m1, fx@);
                        assert(fx@[at] == m1[at]);
                        if gap == 1 {
                            assert(fx@[at + 1] == m1[at + 1]);
                        }
                        assert forall|j: int| 0 <= j < i implies replays_to(#[trigger] fx@[at + 1 + gap + j], conn, self.replay@[j]) by {
                            assert(fx@[at + 1 + gap + j] == m1[at + 1 + gap + j]);
                        }
                        assert(replays_to(fx@[at + 1 + gap + i], conn, self.replay@[i as int]));
                    }
                    i = i + 1;
                }
            },
            Request::Lease(request, token) => {
                let phase = match self.phase(conn) {
                    Some(p) => p,
                    None => {
                        return Err(WireError::Malformed);
                    },
                };
                let flags = crate::session::operation_ord(request.operation) | (crate::session::role_ord(request.role) << 1u8);
                if next_phase(phase, 0x15, flags).is_none() {
                    return Err(WireError::Malformed);
                }
                let result = self.request_lease(conn, &request, now, token, fx);
                let ghost m0 = fx@;
                fx.push(Effect::Send(conn, Reply::Lease(result)));
                proof { assert(fx@.take(m0.len() as int) =~= m0); lemma_extends_chain(old(fx)@, m0, fx@); }
            },
            Request::Release(epoch, token) => {
                self.expire_lease(now, fx);
                let result = self.release_lease(conn, epoch, token);
                if result.outcome == ResultOutcome::Released {
                    let ghost m0 = fx@;
                    self.queries_gone(conn, fx);
                    proof { lemma_extends_chain(old(fx)@, m0, fx@); }
                }
                let ghost m1 = fx@;
                fx.push(Effect::Send(conn, Reply::Lease(result)));
                proof { assert(fx@.take(m1.len() as int) =~= m1); lemma_extends_chain(old(fx)@, m1, fx@); }
            },
            Request::Keepalive(epoch, token) => {
                self.expire_lease(now, fx);
                if !self.touch_lease(conn, epoch, Some(token), now) {
                    let ghost m0 = fx@;
                    fx.push(Effect::Send(conn, Reply::ControllerError(15, "lease not held")));
                    fx.push(Effect::Close(conn));
                    proof {
                        assert(fx@.take(m0.len() as int) =~= m0);
                        lemma_extends_chain(old(fx)@, m0, fx@);
                        assert(is_controller_error(fx@[fx@.len() - 2], conn, 15));
                    }
                } else {
                    proof {
                        assert(!old(self).spec_lease_lapsed(now));
                        assert(fx@ == old(fx)@);
                    }
                }
            },
            Request::Touch(epoch) => {
                self.expire_lease(now, fx);
                if !self.touch_lease(conn, epoch, None, now) {
                    return Err(WireError::Malformed);
                }
                proof {
                    assert(!old(self).spec_lease_lapsed(now));
                }
            },
            Request::Resize(epoch, columns, rows) => {
                if !Self::geometry(conn, columns, rows, fx) {
                    return Ok(());
                }
                self.expire_lease(now, fx);
                if !self.touch_lease(conn, epoch, None, now) {
                    return Err(WireError::Malformed);
                }
                proof {
                    assert(!old(self).spec_lease_lapsed(now));
                    assert(fx@ == old(fx)@);
                }
                if columns != 0 {
                    let ghost m0 = fx@;
                    fx.push(Effect::Resize(rows, columns));
                    proof { assert(fx@.take(m0.len() as int) =~= m0); lemma_extends_chain(old(fx)@, m0, fx@); }
                    proof { assert(fx@ =~= old(fx)@ + seq![Effect::Resize(rows, columns)]); }
                } else {
                    proof { assert(fx@ =~= old(fx)@ + Seq::<Effect>::empty()); }
                }
            },
            Request::Input(input, application) => {
                self.input(conn, now, input, application, fx);
            },
            Request::NoticeAck(ack) => {
                self.notice_ack(conn, now, ack, fx);
            },
            Request::SemanticHello(hello) => {
                match self.semantic_hello(conn, now, hello, fx) {
                    Ok(()) => {},
                    Err(error) => {
                        refuse_semantic(conn, None, error, fx);
                        proof { assert(fx@.take(old(fx)@.len() as int) =~= old(fx)@); }
                    },
                }
            },
            Request::SemanticEvent(event, projection, object) => {
                self.semantic_event(conn, event, projection, object, fx);
            },
            Request::SemanticHeartbeat => {
                let mut found: Option<usize> = None;
                if let Some(i) = self.find_peer(conn) {
                    if let Peer::Semantic(name) = &self.peers[i].peer {
                        if let Some(k) = self.find_source(name.as_slice()) {
                            let source = &self.sources[k].source;
                            if source.binding.conn == conn && source.flags & ACTIVE == ACTIVE {
                                found = Some(k);
                            }
                        }
                    }
                }
                match found {
                    Some(k) => {
                        let mut taken = take_source(&mut self.sources, k);
                        taken.last_seen = now;
                        replace_source(&mut self.sources, k, taken);
                    },
                    None => {
                        refuse_semantic(conn, None, SemanticRefusal::Superseded, fx);
                        proof { assert(fx@.take(old(fx)@.len() as int) =~= old(fx)@); }
                    },
                }
            },
            Request::QueryReply(correlation, epoch, class, bytes) => {
                self.query_reply(conn, now, correlation, epoch, class, bytes, fx);
            },
            Request::OutputAck(acknowledged) => {
                let n = self.replay.len();
                let high = if n > 0 {
                    self.replay[n - 1].sequence
                } else {
                    self.lost
                };
                if acknowledged > high {
                    return Err(WireError::BadSequence);
                }
            },
            Request::Terminate(identity, generation, incarnation, force) => {
                if !crate::bytes::same_bytes(identity.as_slice(), self.identity.as_slice())
                    || generation != self.generation || !same16(&incarnation, &self.incarnation) {
                    fx.push(
                        Effect::Send(conn, Reply::Termination(2, 0, 0, "session identity did not match")),
                    );
                    proof { assert(fx@.take(old(fx)@.len() as int) =~= old(fx)@); }
                } else {
                    self.terminate(Some(conn), now, force, fx);
                }
            },
        }
        Ok(())
    }
}


impl Machine {
    /// Answers one transition with the effects the runtime is to perform,
    /// or refuses a peer's request that its phase does not allow; a refused
    /// request yields no effects.
    pub fn transition(&mut self, transition: Transition) -> (r: Result<Vec<Effect>, WireError>)
        requires
            old(self).wf(),
            transition_ok(transition),
        ensures
            final(self).wf(),
            r is Err ==> transition is Peer,
            final(self).spec_allocated() >= old(self).spec_allocated(),
            old(self).spec_query_next() == 0 ==> final(self).spec_query_next() == 0,
            final(self).spec_query_next() == 0 || final(self).spec_query_next() >= old(self).spec_query_next(),
            final(self).spec_output_end() >= old(self).spec_output_end(),
            old(self).spec_next_sequence() == 0 ==> final(self).spec_next_sequence() == 0,
            final(self).spec_generation() == old(self).spec_generation(),
            final(self).spec_identity() == old(self).spec_identity(),
            transition is Peer ==> final(self).spec_query_next() == old(self).spec_query_next()
                && final(self).spec_exhaustion_pending() == old(self).spec_exhaustion_pending(),
            !(transition is Retired) ==> (old(self).spec_termination() matches Some(t) ==> (final(self).spec_termination() matches Some(u)
                && u.0 == t.0 && (t.1 ==> u.1) && (t.2 ==> u.2))),
            match transition {
                Transition::Query(_, raw, shape, fallback) => r matches Ok(fx) && spec_query_step(
                    *old(self),
                    *final(self),
                    fx@,
                    raw@,
                    shape.class,
                    fallback,
                ),
                Transition::Output(_, bytes) => r matches Ok(fx) && spec_output_step(*old(self), *final(self), fx@, bytes@),
                Transition::Shutdown(now, force) => r matches Ok(fx) && spec_terminate_step(
                    *old(self),
                    *final(self),
                    fx@,
                    None,
                    now,
                    force,
                ) && kept(*old(self), *final(self), true, true, true, false, true),
                Transition::Disconnect(conn) => r matches Ok(fx) && final(self).spec_controller(conn) is None
                    && !final(self).spec_is_producer(conn) && (old(self).spec_controller(conn) is Some
                    ==> controller_gone(*old(self), *final(self), conn, fx@)) && (bound_producer(*old(self), conn)
                    ==> sources_closed(*old(self), *final(self), conn)),
                Transition::Writable(writable) => r matches Ok(fx) && final(self).spec_writable() == writable
                    && fx@ == if old(self).spec_writable() && !writable {
                    old(self).spec_producer_closes()
                } else {
                    Seq::empty()
                },
                Transition::Retired(_, _) => r is Ok && final(self).spec_termination() is None,
                Transition::Complete(_, ticket, completion) => r matches Ok(fx) && complete_answer(
                    *old(self),
                    *final(self),
                    Seq::empty(),
                    fx@,
                    ticket,
                    completion,
                ),
                Transition::Tick(now) => r matches Ok(fx) && tick_step(*old(self), *final(self), now)
                    && tick_answer(*old(self), now, Seq::empty(), fx@) && (quiet(*old(self), now) ==> kept(
                    *old(self),
                    *final(self),
                    true,
                    true,
                    true,
                    false,
                    true,
                )),
                Transition::Peer(now, conn, request) => peer_answer(
                    *old(self),
                    *final(self),
                    Seq::empty(),
                    match r {
                        Ok(fx) => fx@,
                        Err(_) => Seq::empty(),
                    },
                    now,
                    conn,
                    request,
                    match r {
                        Ok(_) => Ok(()),
                        Err(e) => Err(e),
                    },
                ),
                _ => r is Ok,
            },
    {
        let mut fx: Vec<Effect> = Vec::new();
        match transition {
            Transition::Peer(now, conn, request) => {
                match self.peer_request(now, conn, request, &mut fx) {
                    Ok(()) => {},
                    Err(error) => {
                        return Err(error);
                    },
                }
            },
            Transition::Complete(now, ticket, completion) => {
                self.complete(ticket, now, completion, &mut fx);
            },
            Transition::Query(now, raw, shape, fallback) => {
                self.query(now, raw, shape, fallback, &mut fx);
                proof { assert(fx@.skip(0) =~= fx@); }
            },
            Transition::Output(now, bytes) => {
                self.output(now, bytes, &mut fx);
                proof { assert(fx@.skip(0) =~= fx@); }
            },
            Transition::Shutdown(now, force) => {
                self.terminate(None, now, force, &mut fx);
                proof { assert(fx@.skip(0) =~= fx@); }
            },
            Transition::TerminationApplied(containment, forced) => {
                if let Some(state) = self.termination {
                    let mut next = state;
                    next.containment = next.containment | containment;
                    if forced {
                        next.method = 2;
                    }
                    self.termination = Some(next);
                }
            },
            Transition::ReportTermination(conn) => {
                if let Some(state) = self.termination {
                    fx.push(
                        Effect::Send(
                            conn,
                            Reply::Termination(
                                3,
                                state.containment,
                                state.method,
                                "termination outcome was not established within 10 seconds",
                            ),
                        ),
                    );
                }
            },
            Transition::Retired(unlinked, survivor) => {
                let taken = self.termination;
                self.termination = None;
                if let Some(state) = taken {
                    if !state.expired {
                        if let Some(peer) = state.peer {
                            let containment = state.containment | if survivor {
                                8u8
                            } else {
                                0u8
                            };
                            let (outcome, diagnostic): (u8, &'static str) = if unlinked {
                                (0, "")
                            } else {
                                (4, "session retirement did not complete")
                            };
                            fx.push(
                                Effect::Send(
                                    peer,
                                    Reply::Termination(outcome, containment, state.method, diagnostic),
                                ),
                            );
                            fx.push(Effect::Flush(peer, state.started.saturating_add(10000)));
                        }
                    }
                }
            },
            Transition::Tick(now) => {
                self.tick(now, &mut fx);
            },
            Transition::Disconnect(conn) => {
                self.disconnect(conn, &mut fx);
                proof { assert(fx@.skip(0) =~= fx@); }
            },
            Transition::Writable(writable) => {
                let ghost start = fx@;
                self.set_writable(writable, &mut fx);
                proof {
                    assert(start.len() == 0);
                    assert(fx@ =~= (if old(self).spec_writable() && !writable {
                        old(self).spec_producer_closes()
                    } else {
                        Seq::empty()
                    }));
                }
            },
            Transition::Ending => {
                self.update_sources(Selection::Conn(0), true, None, &mut fx);
            },
        }
        Ok(fx)
    }
}


/// Whether the lease is held by `conn`.
pub open spec fn owned_by(owner: Option<(ConnId, u32)>, conn: ConnId) -> bool {
    match owner {
        Some((o, _)) => o == conn,
        None => false,
    }
}

/// How an attach of `conn` is answered: after what a lapsed lease's end
/// writes, if it asked for the lease, comes the attach answer, then the gap
/// when output was lost, then each record kept for replay, in order.
pub open spec fn attach_answer(
    old: Machine,
    new: Machine,
    before: Seq<Effect>,
    after: Seq<Effect>,
    conn: ConnId,
    non_vt: bool,
    lease: bool,
    resumed: bool,
    columns: u16,
    rows: u16,
    now: u64,
    token: Option<[u8; 16]>,
) -> bool {
    let gap: int = if old.spec_lost() != 0 {
        1
    } else {
        0
    };
    let at = after.len() - 1 - gap - old.spec_replay().len();
    &&& before.len() <= at && after.take(before.len() as int) == before
    &&& !lease || !old.spec_lease_lapsed(now) ==> at == before.len()
    &&& attach_effect(after[at], old, new, conn, non_vt, lease, resumed, columns, rows, now, token)
    &&& old.spec_lost() != 0 ==> after[at + 1] == Effect::Gap(conn, old.spec_lost())
    &&& forall|i: int|
        #![trigger old.spec_replay()[i]]
        0 <= i < old.spec_replay().len() ==> replays_to(after[at + 1 + gap + i], conn, old.spec_replay()[i])
}


/// What the holder answers to some requests at `now`: input on a lease the
/// connection does not hold under its epoch, or that ran past its deadline,
/// is answered by a receipt refusing it as not held; an attach with a bad
/// geometry is answered with an error and closes the connection; one its
/// phase does not allow is malformed; any other attaches the connection
/// and tells the runtime so. A lease request its
/// phase does not allow is malformed, and any other is answered by the
/// lease result; a release of the lease the connection holds under that
/// epoch and token, before its deadline, releases it, and any other is
/// refused as not held; a touch, resize or
/// keepalive of a lease the connection does not hold under that epoch (and
/// token), or that ran past its deadline, is refused (a keepalive by an
/// error and closing the connection); a resize to a bad geometry is
/// answered with an error and closes the connection, a good one of a held
/// lease resizes the child; an output acknowledgement past the highest
/// sequence sent is out of sequence, and any other is taken without effect;
/// a termination of this session starts or joins its termination, and one
/// for another session is answered as such and changes nothing. A
/// producer's hello is refused when the session offers no semantic
/// capability, cannot store events, or the token is not the session's, and
/// as `hello_refusal` says otherwise; an accepted one is answered as
/// `hello_answer` says. The lease holder's input is answered as
/// `held_input_answer` says.
pub open spec fn peer_answer(
    old: Machine,
    new: Machine,
    before: Seq<Effect>,
    after: Seq<Effect>,
    now: u64,
    conn: ConnId,
    request: Request,
    r: Result<(), WireError>,
) -> bool {
    match request {
        Request::OutputAck(acknowledged) => {
            &&& (acknowledged > old.spec_replay_high()) == (r == Err::<(), WireError>(WireError::BadSequence))
            &&& r is Ok || r == Err::<(), WireError>(WireError::BadSequence)
            &&& after == before && new == old
        },
        Request::Attach(columns, rows, lease, non_vt, token) => match refused_geometry(columns, rows) {
            Some(code) => r is Ok && after.len() == before.len() + 2 && after.take(before.len() as int) == before
                && is_controller_error(after[before.len() as int], conn, code) && after[before.len() + 1int]
                == Effect::Close(conn),
            None => match old.spec_phase(conn) {
                None => r == Err::<(), WireError>(WireError::Malformed),
                Some(phase) => {
                    let resumed = phase == Phase::Resumed && !lease && owned_by(old.spec_owner(), conn);
                    if !(resumed || phase == Phase::Unattached && (columns == 0 || lease)) {
                        r == Err::<(), WireError>(WireError::Malformed)
                    } else {
                        &&& r is Ok
                        &&& new.spec_controller(conn) == Some((true, non_vt))
                        &&& !lease || !old.spec_lease_lapsed(now) ==> new.spec_queries() == old.spec_queries()
                        &&& attach_answer(old, new, before, after, conn, non_vt, lease, resumed, columns, rows, now, token)
                    }
                },
            },
        },
        Request::Lease(lease, token) => match old.spec_phase(conn) {
            None => r == Err::<(), WireError>(WireError::Malformed),
            Some(phase) => if crate::session::spec_next_phase(
                phase,
                0x15,
                (crate::session::operation_ordinal(lease.operation) | (crate::session::role_ordinal(lease.role) << 1u8))
                    as u8,
            ) is None {
                r == Err::<(), WireError>(WireError::Malformed)
            } else {
                &&& r is Ok && after.len() > before.len()
                &&& answers_lease(after.last(), conn, old, new, lease, now, token)
            },
        },
        Request::Release(epoch, token) => {
            let held = old.spec_owner() == Some((conn, epoch)) && old.spec_lease_token() == token@
                && !old.spec_lease_lapsed(now);
            &&& r is Ok && after.len() > before.len()
            &&& after.last() matches Effect::Send(c, Reply::Lease(result)) && c == conn && if held {
                result.outcome == ResultOutcome::Released && result.epoch == epoch && new.spec_owner() is None
            } else {
                result.outcome == ResultOutcome::Refused && result.reason == ResultReason::NotHeld
            }
        },
        Request::SemanticHello(hello) => {
            &&& r is Ok
            &&& match hello_refusal(old, conn, hello) {
                Some(e) => after == before.push(Effect::Send(conn, Reply::SemanticRefused(None, e))) && new == old,
                None => hello_answer(old, before, after, conn, hello),
            }
        },
        Request::Input(input, application) => {
            let held = old.spec_owner() == Some((conn, input.epoch)) && !old.spec_lease_lapsed(now);
            &&& r is Ok
            &&& held ==> held_input_answer(old, new, before, after, conn, input, application is None)
            &&& !held ==> after.len() > before.len() && is_input_reply(
                after.last(),
                conn,
                receipt_layout(input, old.spec_generation(), old.spec_incarnation_bytes(), 0, Some(15u16)),
            )
        },
        Request::Touch(epoch) => {
            let held = old.spec_owner() == Some((conn, epoch)) && !old.spec_lease_lapsed(now);
            &&& held ==> r is Ok && after == before
            &&& !held ==> r == Err::<(), WireError>(WireError::Malformed)
        },
        Request::Resize(epoch, columns, rows) => match refused_geometry(columns, rows) {
            Some(code) => r is Ok && after.len() == before.len() + 2 && after.take(before.len() as int) == before
                && is_controller_error(after[before.len() as int], conn, code) && after[before.len() + 1int]
                == Effect::Close(conn),
            None => {
                let held = old.spec_owner() == Some((conn, epoch)) && !old.spec_lease_lapsed(now);
                &&& held ==> r is Ok && after == before + if columns != 0 {
                    seq![Effect::Resize(rows, columns)]
                } else {
                    Seq::empty()
                }
                &&& !held ==> r == Err::<(), WireError>(WireError::Malformed)
            },
        },
        Request::Keepalive(epoch, token) => {
            let held = old.spec_owner() == Some((conn, epoch)) && old.spec_lease_token() == token@
                && !old.spec_lease_lapsed(now);
            &&& r is Ok
            &&& held ==> after == before
            &&& !held ==> after.len() >= before.len() + 2 && is_controller_error(after[after.len() - 2], conn, 15)
                && after.last() == Effect::Close(conn)
        },
        Request::Terminate(identity, generation, incarnation, force) => if identity@ == old.spec_identity()
            && generation == old.spec_generation() && incarnation@ == old.spec_incarnation() {
            r is Ok && after.len() >= before.len() && spec_terminate_step(
                old,
                new,
                after.skip(before.len() as int),
                Some(conn),
                now,
                force,
            ) && kept(old, new, true, true, true, false, true)
        } else {
            r is Ok && after == before.push(
                Effect::Send(conn, Reply::Termination(2, 0, 0, "session identity did not match")),
            ) && new == old
        },
        _ => true,
    }
}

} // verus!
