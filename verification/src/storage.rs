//! What the holder's storage lanes are for: the output log, the event log
//! and the lifecycle record, each a lane that may be absent or unwritable.
use crate::bytes::{lemma_seq_lt_asymmetric, lemma_seq_lt_total, lemma_seq_lt_transitive, lex_order, seq_lt};
use crate::events::{
    canonical_event, canonical_line, event_views, header_text, push_header, transaction, Axis, Cursor,
    Event, EventKind, EventStream, EventView, STORE_EVENT_END,
};
use crate::bytes::same_bytes;
use crate::lifecycle::find_from;
use crate::store::Commit;
use crate::terminal::Observation;
use vstd::prelude::*;
use vstd::string::StringSliceAdditionalSpecFns;

verus! {

/// Why a lane was given work: background output or observations, a log
/// clear for a controller (its connection and the index it observed), the
/// lifecycle record, a semantic event (its ticket and whether its stream ran
/// out), a batch of source changes (its ticket and whether it was
/// mandatory), or the final records.
#[derive(Clone, Copy, Debug, PartialEq, Eq, Structural)]
pub enum Purpose {
    Background,
    Clear(u64, u64),
    Lifecycle,
    Semantic(u64, bool),
    Sources(u64, bool),
    Final,
}

/// Why work could not be submitted: the lane or log is not configured, or
/// it is full.
#[derive(Clone, Copy, Debug, PartialEq, Eq, Structural)]
pub enum StorageError {
    Disabled,
    Busy,
}

/// The lane that holds the event log.
pub const EVENT_LANE: usize = 1;

/// The health bits of the lanes: bit `i` when lane `i` is configured and
/// writable, the event lane's bit only while its stream also takes
/// transactions.
pub open spec fn spec_health(log: Option<bool>, event: Option<bool>, lifecycle: Option<bool>, stream: bool) -> u8 {
    let bit = |lane: Option<bool>, value: u8| if lane == Some(true) { value } else { 0u8 };
    (bit(log, 1) + if stream { bit(event, 2) } else { 0u8 } + bit(lifecycle, 4)) as u8
}

/// Computes the health bits from whether each lane is configured (`Some`)
/// and writable, and whether the event stream takes transactions.
pub fn health(log: Option<bool>, event: Option<bool>, lifecycle: Option<bool>, stream: bool) -> (r: u8)
    ensures
        r == spec_health(log, event, lifecycle, stream),
        r & 1 != 0 <==> log == Some(true),
        r & 2 != 0 <==> (event == Some(true) && stream),
        r & 4 != 0 <==> lifecycle == Some(true),
        r < 8,
{
    let a: u8 = match log {
        Some(true) => 1,
        _ => 0,
    };
    let b: u8 = match event {
        Some(true) => if stream { 2 } else { 0 },
        _ => 0,
    };
    let c: u8 = match lifecycle {
        Some(true) => 4,
        _ => 0,
    };
    assert(a + b + c < 8);
    assert((a == 0 || a == 1) && (b == 0 || b == 2) && (c == 0 || c == 4) ==> {
        &&& ((a + b + c) as u8 & 1 != 0) == (a == 1)
        &&& ((a + b + c) as u8 & 2 != 0) == (b == 2)
        &&& ((a + b + c) as u8 & 4 != 0) == (c == 4)
    }) by (bit_vector);
    a + b + c
}


/// Room kept in a body for the records a terminal transaction may add.
pub const TERMINAL_RESERVATION: usize = 14210;

/// A body past this many bytes is compacted, and past it after compaction
/// no retained state may grow.
pub const EVENT_CAP: usize = 262144;

/// No body may pass this many bytes.
pub const EVENT_HARD_CAP: usize = 327680;

/// A retained record: the class (0 source status, 1 semantic snapshot)
/// and source it is kept under, the event, and the room it reserves.
pub struct Retained {
    pub class: usize,
    pub source: Vec<u8>,
    pub event: Event,
    pub size: usize,
}

pub struct RetainedView {
    pub class: usize,
    pub source: Seq<u8>,
    pub event: EventView,
    pub size: usize,
}

impl View for Retained {
    type V = RetainedView;

    open spec fn view(&self) -> RetainedView {
        RetainedView { class: self.class, source: self.source@, event: self.event@, size: self.size }
    }
}

pub open spec fn retained_views(s: Seq<Retained>) -> Seq<RetainedView> {
    s.map_values(|e: Retained| e@)
}

pub open spec fn key_of(e: RetainedView) -> (usize, Seq<u8>) {
    (e.class, e.source)
}

/// Retained records are ordered by class, then by source.
pub open spec fn key_lt(a: (usize, Seq<u8>), b: (usize, Seq<u8>)) -> bool {
    a.0 < b.0 || (a.0 == b.0 && seq_lt(a.1, b.1))
}

/// `s` with `e` in its place: replacing the record under the same key, or
/// before the first that orders after it.
pub open spec fn insert_entry(s: Seq<RetainedView>, e: RetainedView) -> Seq<RetainedView>
    decreases s.len(),
{
    if s.len() == 0 {
        seq![e]
    } else if key_of(s[0]) == key_of(e) {
        seq![e] + s.drop_first()
    } else if key_lt(key_of(e), key_of(s[0])) {
        seq![e] + s
    } else {
        seq![s[0]] + insert_entry(s.drop_first(), e)
    }
}

/// Whether a record is kept under `key`.
pub open spec fn holds_key(s: Seq<RetainedView>, key: (usize, Seq<u8>)) -> bool {
    exists|j: int| 0 <= j < s.len() && key_of(#[trigger] s[j]) == key
}

/// The records of `s` kept under no key of `r`, in order.
pub open spec fn outside(s: Seq<RetainedView>, r: Seq<RetainedView>) -> Seq<RetainedView>
    decreases s.len(),
{
    if s.len() == 0 {
        Seq::empty()
    } else if holds_key(r, key_of(s.last())) {
        outside(s.drop_last(), r)
    } else {
        outside(s.drop_last(), r).push(s.last())
    }
}

/// The room the records reserve.
pub open spec fn total(s: Seq<RetainedView>) -> int
    decreases s.len(),
{
    if s.len() == 0 {
        0
    } else {
        total(s.drop_last()) + s.last().size
    }
}

/// Records kept in strictly increasing key order.
pub open spec fn sorted(s: Seq<RetainedView>) -> bool {
    forall|i: int, j: int| 0 <= i < j < s.len() ==> key_lt(key_of(#[trigger] s[i]), key_of(#[trigger] s[j]))
}

/// The room an event reserves: its snapshot record at the largest epoch
/// and sequence; for a source status (class 0), up to its status, then the
/// longest status and reason it may come to have. A source status record
/// without a status cannot be kept.
pub open spec fn reservation(class: usize, event: EventView) -> Option<int> {
    let record = canonical_line(u32::MAX, u64::MAX as nat, EventKind::Snapshot, event);
    if class != 0 {
        Some(record.len() as int)
    } else {
        match find_from(record, ",\"status\":".spec_bytes(), 0) {
            Some(at) => Some(if at + 54 > usize::MAX {
                usize::MAX as int
            } else {
                at + 54
            }),
            None => None,
        }
    }
}

/// The records a transaction keeps, read front to back: each event with a
/// retention class replaces the record under its key.
pub open spec fn retain_from(transitions: Seq<EventView>, i: int, r: Seq<RetainedView>) -> Option<Seq<RetainedView>>
    decreases transitions.len() - i,
{
    if i < 0 || i >= transitions.len() {
        Some(r)
    } else {
        match transitions[i].retention {
            None => retain_from(transitions, i + 1, r),
            Some((class, source)) => match reservation(class, transitions[i]) {
                None => None,
                Some(size) => retain_from(
                    transitions,
                    i + 1,
                    insert_entry(r, RetainedView { class, source, event: transitions[i], size: size as usize }),
                ),
            },
        }
    }
}

/// The events a compaction writes first: the remembered observations, in
/// slot order, then the retained records the transaction does not replace.
pub open spec fn compaction_events(slots: Seq<Option<EventView>>, kept: Seq<RetainedView>) -> Seq<EventView> {
    slot_events(slots) + kept.map_values(|e: RetainedView| e.event)
}

pub open spec fn slot_views(slots: Seq<Option<Event>>) -> Seq<Option<EventView>> {
    slots.map_values(|o: Option<Event>| match o {
        Some(e) => Some(e@),
        None => None,
    })
}

pub open spec fn slot_events(slots: Seq<Option<EventView>>) -> Seq<EventView>
    decreases slots.len(),
{
    if slots.len() == 0 {
        Seq::empty()
    } else {
        match slots.last() {
            Some(e) => slot_events(slots.drop_last()).push(e),
            None => slot_events(slots.drop_last()),
        }
    }
}

/// What the lane is asked to store: the whole body, and the commit's epoch,
/// first retained and next sequence.
pub struct Replacement {
    pub purpose: Purpose,
    pub body: Vec<u8>,
    pub epoch: u32,
    pub first: u64,
    pub next: u64,
}

/// The event log's own state: its stream, the records of the current epoch,
/// the creation time, session and generation its header names, the room
/// its header and terminal records take, the last record of each kind of
/// observation, and the retained records.
pub struct EventLog {
    stream: EventStream,
    records: Vec<u8>,
    created: u64,
    session: Vec<u8>,
    generation: Option<u32>,
    base: usize,
    snapshots: Vec<Option<Event>>,
    semantic: Vec<Retained>,
}

/// A planned commit and what the log becomes once the lane takes it.
pub struct Planned {
    pub replacement: Replacement,
    stream: EventStream,
    records: Vec<u8>,
    accepted: bool,
    retained: Vec<Retained>,
    remember: Option<(usize, Event)>,
}

impl EventLog {
    pub closed spec fn wf(&self) -> bool {
        &&& self.snapshots@.len() == 3
        &&& sorted(retained_views(self.semantic@))
    }

    pub closed spec fn spec_stream(&self) -> Option<Cursor> {
        self.stream.spec_cursor()
    }

    pub closed spec fn spec_records(&self) -> Seq<u8> {
        self.records@
    }

    pub closed spec fn spec_base(&self) -> int {
        self.base as int
    }

    pub closed spec fn spec_header(&self, c: Cursor) -> Seq<u8> {
        header_text(self.created, self.session@, self.generation, c)
    }

    pub closed spec fn spec_slots(&self) -> Seq<Option<EventView>> {
        slot_views(self.snapshots@)
    }

    pub closed spec fn spec_semantic(&self) -> Seq<RetainedView> {
        retained_views(self.semantic@)
    }

    /// A log over `stream` whose header names `created`, `session` and
    /// `generation`; its header and terminal records reserve their room.
    pub fn new(stream: EventStream, created: u64, session: Vec<u8>, generation: Option<u32>) -> (r: Self)
        ensures
            r.wf(),
            r.spec_stream() == stream.spec_cursor(),
            r.spec_records().len() == 0,
            r.spec_semantic().len() == 0,
            r.spec_slots() == seq![None::<EventView>, None, None],
            r.spec_base() == (if header_text(created, session@, generation, Cursor(u32::MAX, u64::MAX, u64::MAX, 1)).len()
                + TERMINAL_RESERVATION > usize::MAX {
                usize::MAX as int
            } else {
                header_text(created, session@, generation, Cursor(u32::MAX, u64::MAX, u64::MAX, 1)).len()
                    + TERMINAL_RESERVATION
            }),
            forall|c: Cursor| #[trigger] r.spec_header(c) == header_text(created, session@, generation, c),
    {
        let mut header: Vec<u8> = Vec::new();
        push_header(&mut header, created, session.as_slice(), generation, Cursor(u32::MAX, u64::MAX, u64::MAX, 1));
        let base = header.len().saturating_add(TERMINAL_RESERVATION);
        let mut snapshots: Vec<Option<Event>> = Vec::new();
        snapshots.push(None);
        snapshots.push(None);
        snapshots.push(None);
        let r = EventLog {
            stream,
            records: Vec::new(),
            created,
            session,
            generation,
            base,
            snapshots,
            semantic: Vec::new(),
        };
        assert(slot_views(r.snapshots@) =~= seq![None::<EventView>, None, None]);
        assert(retained_views(r.semantic@) =~= Seq::<RetainedView>::empty());
        r
    }

    /// Whether the stream still takes transactions.
    pub fn writable(&self) -> (r: bool)
        ensures
            r == self.spec_stream() is Some,
    {
        self.stream.writable()
    }
}


proof fn lemma_key_lt_asymmetric(a: (usize, Seq<u8>), b: (usize, Seq<u8>))
    ensures
        !(key_lt(a, b) && key_lt(b, a)),
        !key_lt(a, a),
        key_lt(a, b) ==> a != b,
{
    lemma_seq_lt_asymmetric(a.1, b.1);
    lemma_seq_lt_asymmetric(a.1, a.1);
}

proof fn lemma_key_lt_transitive(a: (usize, Seq<u8>), b: (usize, Seq<u8>), c: (usize, Seq<u8>))
    requires
        key_lt(a, b),
        key_lt(b, c),
    ensures
        key_lt(a, c),
{
    if a.0 == b.0 && b.0 == c.0 {
        lemma_seq_lt_transitive(a.1, b.1, c.1);
    }
}

/// Orders two keys: negative, zero or positive.
fn key_order(class: usize, source: &[u8], other_class: usize, other_source: &[u8]) -> (r: i8)
    ensures
        r < 0 <==> key_lt((class, source@), (other_class, other_source@)),
        r == 0 <==> (class, source@) == (other_class, other_source@),
        r > 0 <==> key_lt((other_class, other_source@), (class, source@)),
{
    proof {
        lemma_seq_lt_asymmetric(source@, other_source@);
    }
    if class < other_class {
        -1
    } else if class > other_class {
        1
    } else {
        lex_order(source, other_source)
    }
}

proof fn lemma_insert_step(s: Seq<RetainedView>, e: RetainedView, i: int)
    requires
        0 <= i < s.len(),
        key_lt(key_of(s[i]), key_of(e)),
    ensures
        insert_entry(s.subrange(i, s.len() as int), e) == seq![s[i]] + insert_entry(
            s.subrange(i + 1, s.len() as int),
            e,
        ),
{
    lemma_key_lt_asymmetric(key_of(s[i]), key_of(e));
    let t = s.subrange(i, s.len() as int);
    assert(t[0] == s[i]);
    assert(t.drop_first() =~= s.subrange(i + 1, s.len() as int));
}

/// Puts `e` in its place among retained records kept in key order.
fn insert_sorted(v: &mut Vec<Retained>, e: Retained)
    ensures
        retained_views(final(v)@) == insert_entry(retained_views(old(v)@), e@),
{
    let ghost s = retained_views(v@);
    proof {
        assert(s.subrange(0, 0) =~= Seq::<RetainedView>::empty());
        assert(s.subrange(0, s.len() as int) =~= s);
    }
    let mut i: usize = 0;
    while i < v.len() && key_order(v[i].class, v[i].source.as_slice(), e.class, e.source.as_slice()) < 0
        invariant
            i <= v@.len(),
            s == retained_views(v@),
            insert_entry(s, e@) == s.subrange(0, i as int) + insert_entry(s.subrange(i as int, s.len() as int), e@),
        decreases v.len() - i,
    {
        proof {
            lemma_insert_step(s, e@, i as int);
            assert(s.subrange(0, i + 1) =~= s.subrange(0, i as int).push(s[i as int]));
            assert(s.subrange(0, i as int) + (seq![s[i as int]] + insert_entry(s.subrange(i + 1, s.len() as int), e@))
                =~= s.subrange(0, i + 1) + insert_entry(s.subrange(i + 1, s.len() as int), e@));
        }
        i = i + 1;
    }
    if i < v.len() && key_order(v[i].class, v[i].source.as_slice(), e.class, e.source.as_slice()) == 0 {
        proof {
            let t = s.subrange(i as int, s.len() as int);
            assert(t[0] == s[i as int]);
            assert(t.drop_first() =~= s.subrange(i + 1, s.len() as int));
        }
        let _ = v.remove(i);
        v.insert(i, e);
        proof {
            assert(retained_views(v@) =~= s.subrange(0, i as int) + (seq![e@] + s.subrange(i + 1, s.len() as int)));
        }
    } else {
        proof {
            let t = s.subrange(i as int, s.len() as int);
            if i < s.len() {
                assert(t[0] == s[i as int]);
                lemma_key_lt_asymmetric(key_of(s[i as int]), key_of(e@));
            } else {
                assert(t =~= Seq::<RetainedView>::empty());
            }
        }
        v.insert(i, e);
        proof {
            assert(retained_views(v@) =~= s.subrange(0, i as int) + (seq![e@] + s.subrange(i as int, s.len() as int)));
        }
    }
}


proof fn lemma_key_lt_total(a: (usize, Seq<u8>), b: (usize, Seq<u8>))
    ensures
        a == b || key_lt(a, b) || key_lt(b, a),
{
    lemma_seq_lt_total(a.1, b.1);
}

/// Putting a record in its place keeps records in strictly increasing key
/// order, and every record after it is the new one or one that was there.
pub proof fn lemma_insert_sorted(s: Seq<RetainedView>, e: RetainedView)
    requires
        sorted(s),
    ensures
        sorted(insert_entry(s, e)),
        forall|j: int| 0 <= j < insert_entry(s, e).len() ==> (#[trigger] insert_entry(s, e)[j] == e
            || s.contains(insert_entry(s, e)[j])),
    decreases s.len(),
{
    let r = insert_entry(s, e);
    if s.len() == 0 {
    } else if key_of(s[0]) == key_of(e) {
        assert forall|i: int, j: int| 0 <= i < j < r.len() implies key_lt(key_of(#[trigger] r[i]), key_of(#[trigger] r[j])) by {
            if i == 0 {
                assert(key_lt(key_of(s[0]), key_of(s[j])));
            } else {
                assert(key_lt(key_of(s[i]), key_of(s[j])));
            }
        }
        assert forall|j: int| 0 <= j < r.len() implies (#[trigger] r[j] == e || s.contains(r[j])) by {
            if j > 0 {
                assert(r[j] == s[j]);
            }
        }
    } else if key_lt(key_of(e), key_of(s[0])) {
        assert forall|i: int, j: int| 0 <= i < j < r.len() implies key_lt(key_of(#[trigger] r[i]), key_of(#[trigger] r[j])) by {
            if i == 0 {
                if j > 1 {
                    assert(key_lt(key_of(s[0]), key_of(s[j - 1])));
                    lemma_key_lt_transitive(key_of(e), key_of(s[0]), key_of(s[j - 1]));
                }
            } else {
                assert(key_lt(key_of(s[i - 1]), key_of(s[j - 1])));
            }
        }
        assert forall|j: int| 0 <= j < r.len() implies (#[trigger] r[j] == e || s.contains(r[j])) by {
            if j > 0 {
                assert(r[j] == s[j - 1]);
            }
        }
    } else {
        lemma_key_lt_total(key_of(s[0]), key_of(e));
        let rest = s.drop_first();
        assert(sorted(rest)) by {
            assert forall|i: int, j: int| 0 <= i < j < rest.len() implies key_lt(key_of(#[trigger] rest[i]), key_of(#[trigger] rest[j])) by {
                assert(key_lt(key_of(s[i + 1]), key_of(s[j + 1])));
            }
        }
        lemma_insert_sorted(rest, e);
        let t = insert_entry(rest, e);
        assert(r == seq![s[0]] + t);
        assert forall|j: int| 0 <= j < t.len() implies key_lt(key_of(s[0]), key_of(#[trigger] t[j])) by {
            if t[j] != e {
                assert(rest.contains(t[j]));
                let k = choose|k: int| 0 <= k < rest.len() && rest[k] == t[j];
                assert(key_lt(key_of(s[0]), key_of(s[k + 1])));
            }
        }
        assert forall|i: int, j: int| 0 <= i < j < r.len() implies key_lt(key_of(#[trigger] r[i]), key_of(#[trigger] r[j])) by {
            if i == 0 {
                assert(r[j] == t[j - 1]);
            } else {
                assert(r[i] == t[i - 1] && r[j] == t[j - 1]);
            }
        }
        assert forall|j: int| 0 <= j < r.len() implies (#[trigger] r[j] == e || s.contains(r[j])) by {
            if j == 0 {
                assert(s.contains(s[0]));
            } else {
                assert(r[j] == t[j - 1]);
                if t[j - 1] != e {
                    let k = choose|k: int| 0 <= k < rest.len() && rest[k] == t[j - 1];
                    assert(s[k + 1] == t[j - 1]);
                }
            }
        }
    }
}

/// The retained records after a commit: each record the transaction kept,
/// in turn, put in its place.
pub open spec fn merge_entries(s: Seq<RetainedView>, r: Seq<RetainedView>) -> Seq<RetainedView>
    decreases r.len(),
{
    if r.len() == 0 {
        s
    } else {
        insert_entry(merge_entries(s, r.drop_last()), r.last())
    }
}

proof fn lemma_merge_sorted(s: Seq<RetainedView>, r: Seq<RetainedView>)
    requires
        sorted(s),
    ensures
        sorted(merge_entries(s, r)),
    decreases r.len(),
{
    if r.len() > 0 {
        lemma_merge_sorted(s, r.drop_last());
        lemma_insert_sorted(merge_entries(s, r.drop_last()), r.last());
    }
}


/// What a planned commit comes to: the purpose the lane reports it under,
/// the body and commit coordinates it stores, and the stream, records and
/// retained records of the log once it is taken, and whether the stream
/// accepted the transitions.
pub struct PlanView {
    pub purpose: Purpose,
    pub body: Seq<u8>,
    pub epoch: u32,
    pub first: u64,
    pub next: u64,
    pub stream: Option<Cursor>,
    pub records: Seq<u8>,
    pub accepted: bool,
    pub retained: Seq<RetainedView>,
}

impl EventLog {
    /// The commit a transaction plans, given the transaction `t` it writes
    /// (its lines, cursor and exhausted counter), whether it compacted,
    /// the body's length, and whether it changes retained records. A body
    /// past the hard cap is busy, and so is one past the cap that changes
    /// retained records while the stream goes on. A semantic commit records
    /// whether the stream ran out; a transaction whose sequence ran out was
    /// not accepted and is reported as background work.
    pub open spec fn planned(
        &self,
        purpose: Purpose,
        t: (Seq<u8>, Cursor, Option<Axis>),
        compacted: bool,
        length: int,
        changes: bool,
        retained: Seq<RetainedView>,
    ) -> Result<PlanView, StorageError> {
        if length > EVENT_HARD_CAP || (length > EVENT_CAP && changes && t.2 is None) {
            Err(StorageError::Busy)
        } else {
            let accepted = t.2 != Some(Axis::Sequence);
            let tagged = match purpose {
                Purpose::Semantic(tag, _) => Purpose::Semantic(tag, t.2 is Some),
                p => p,
            };
            Ok(
                PlanView {
                    purpose: if accepted {
                        tagged
                    } else {
                        Purpose::Background
                    },
                    body: self.spec_header(t.1) + (if compacted {
                        Seq::empty()
                    } else {
                        self.spec_records()
                    }) + t.0,
                    epoch: t.1.0,
                    first: t.1.2,
                    next: t.1.1,
                    stream: if t.2 is None {
                        Some(t.1)
                    } else {
                        None
                    },
                    records: if compacted {
                        t.0
                    } else {
                        self.spec_records() + t.0
                    },
                    accepted,
                    retained,
                },
            )
        }
    }

    /// Planning a transaction of `transitions`. Each event with a retention
    /// class reserves room under its key (a source status that cannot be
    /// kept disables the commit); a change to retained records that takes the
    /// reservation past the cap is busy. The transaction is written after
    /// the records of the epoch; when that body passes the cap, it is written
    /// instead as a compaction into a new epoch that starts with the
    /// remembered observations and the retained records it does not replace.
    /// A stream that cannot take the transaction disables it.
    pub open spec fn plan_spec(&self, purpose: Purpose, transitions: Seq<EventView>) -> Result<
        PlanView,
        StorageError,
    > {
        match retain_from(transitions, 0, Seq::empty()) {
            None => Err(StorageError::Disabled),
            Some(retained) => {
                let changes = retained.len() > 0;
                let kept = outside(self.spec_semantic(), retained);
                if changes && self.spec_base() + total(kept) + total(retained) > EVENT_CAP {
                    Err(StorageError::Busy)
                } else {
                    match self.spec_stream() {
                        None => Err(StorageError::Disabled),
                        Some(c) => if transitions.len() == 0 || c.1 >= STORE_EVENT_END || c.3 == 0 || c.3
                            == u64::MAX {
                            Err(StorageError::Disabled)
                        } else {
                            let plain = transaction(c, Seq::empty(), transitions, false);
                            let plain_len = self.spec_header(plain.1).len() + self.spec_records().len()
                                + plain.0.len();
                            if plain_len > EVENT_CAP {
                                let dense = transaction(
                                    c,
                                    compaction_events(self.spec_slots(), kept),
                                    transitions,
                                    true,
                                );
                                let compacted = !(dense.2 == Some(Axis::Sequence) || dense.2 == Some(
                                    Axis::Epoch,
                                ));
                                let dense_len = self.spec_header(dense.1).len() + dense.0.len() + if compacted {
                                    0
                                } else {
                                    self.spec_records().len()
                                };
                                self.planned(purpose, dense, compacted, dense_len as int, changes, retained)
                            } else {
                                self.planned(purpose, plain, false, plain_len as int, changes, retained)
                            }
                        },
                    }
                }
            },
        }
    }
}


fn reservation_size(class: usize, event: &Event) -> (r: Option<usize>)
    ensures
        match reservation(class, event@) {
            Some(n) => r == Some(n as usize) && n <= usize::MAX,
            None => r is None,
        },
{
    let record = canonical_event(0xffff_ffff, 0xffff_ffff_ffff_ffff, EventKind::Snapshot, event);
    if class != 0 {
        return Some(record.len());
    }
    match crate::lifecycle::find(record.as_slice(), ",\"status\":".as_bytes()) {
        Some(at) => Some(at.saturating_add(54)),
        None => None,
    }
}

proof fn lemma_total_prefix(s: Seq<RetainedView>, i: int)
    requires
        0 <= i <= s.len(),
    ensures
        0 <= total(s.take(i)) <= total(s),
    decreases s.len() - i,
{
    if i < s.len() {
        lemma_total_prefix(s, i + 1);
        assert(s.take(i + 1).drop_last() =~= s.take(i));
    } else {
        assert(s.take(i) =~= s);
    }
    lemma_total_nonnegative(s.take(i));
}

proof fn lemma_total_nonnegative(s: Seq<RetainedView>)
    ensures
        total(s) >= 0,
    decreases s.len(),
{
    if s.len() > 0 {
        lemma_total_nonnegative(s.drop_last());
    }
}

/// Adds the room the records reserve to `sum`; none when that passes
/// `usize::MAX`.
fn add_total(sum: usize, s: &Vec<Retained>) -> (r: Option<usize>)
    ensures
        match r {
            Some(v) => v == sum + total(retained_views(s@)),
            None => sum + total(retained_views(s@)) > usize::MAX,
        },
{
    let ghost all = retained_views(s@);
    let mut acc = sum;
    let mut i: usize = 0;
    while i < s.len()
        invariant
            i <= s@.len(),
            all == retained_views(s@),
            acc == sum + total(all.take(i as int)),
        decreases s.len() - i,
    {
        proof {
            assert(all.take(i + 1).drop_last() =~= all.take(i as int));
        }
        match acc.checked_add(s[i].size) {
            Some(v) => acc = v,
            None => {
                proof {
                    lemma_total_prefix(all, i + 1);
                }
                return None;
            },
        }
        i = i + 1;
    }
    assert(all.take(s@.len() as int) =~= all);
    Some(acc)
}

fn holds(r: &Vec<Retained>, class: usize, source: &[u8]) -> (b: bool)
    ensures
        b == holds_key(retained_views(r@), (class, source@)),
{
    let mut j: usize = 0;
    while j < r.len()
        invariant
            j <= r@.len(),
            forall|k: int| 0 <= k < j ==> key_of(retained_views(r@)[k]) != (class, source@),
        decreases r.len() - j,
    {
        if key_order(r[j].class, r[j].source.as_slice(), class, source) == 0 {
            assert(key_of(retained_views(r@)[j as int]) == (class, source@));
            return true;
        }
        j = j + 1;
    }
    false
}

fn duplicate_entry(e: &Retained) -> (r: Retained)
    ensures
        r@ == e@,
{
    Retained {
        class: e.class,
        source: crate::bytes::to_vec(e.source.as_slice()),
        event: e.event.duplicate(),
        size: e.size,
    }
}

impl Planned {
    /// The replacement the plan hands to the event lane.
    pub fn replacement(&self) -> (r: &Replacement)
        ensures
            r.purpose == self.plan_view().purpose && r.body@ == self.plan_view().body,
            r.epoch == self.plan_view().epoch && r.first == self.plan_view().first && r.next == self.plan_view().next,
    {
        &self.replacement
    }

    pub closed spec fn plan_view(&self) -> PlanView {
        PlanView {
            purpose: self.replacement.purpose,
            body: self.replacement.body@,
            epoch: self.replacement.epoch,
            first: self.replacement.first,
            next: self.replacement.next,
            stream: self.stream.spec_cursor(),
            records: self.records@,
            accepted: self.accepted,
            retained: retained_views(self.retained@),
        }
    }

    pub closed spec fn spec_remember(&self) -> Option<(usize, Option<EventView>)> {
        match self.remember {
            Some((slot, e)) => Some((slot, Some(e@))),
            None => None,
        }
    }
}

impl EventLog {
    /// The records a commit of `transitions` keeps.
    fn retain(transitions: &[Event]) -> (r: Option<Vec<Retained>>)
        ensures
            match retain_from(event_views(transitions@), 0, Seq::empty()) {
                Some(v) => r matches Some(x) && retained_views(x@) == v,
                None => r is None,
            },
    {
        let ghost all = event_views(transitions@);
        let mut retained: Vec<Retained> = Vec::new();
        assert(retained_views(retained@) =~= Seq::<RetainedView>::empty());
        let mut i: usize = 0;
        while i < transitions.len()
            invariant
                i <= transitions@.len(),
                all == event_views(transitions@),
                retain_from(all, 0, Seq::empty()) == retain_from(all, i as int, retained_views(retained@)),
            decreases transitions.len() - i,
        {
            let event = &transitions[i];
            assert(all[i as int] == event@);
            match event.retention() {
                None => {},
                Some((class, source)) => {
                    match reservation_size(class, event) {
                        None => {
                            return None;
                        },
                        Some(size) => {
                            let entry = Retained {
                                class,
                                source: crate::bytes::to_vec(source),
                                event: event.duplicate(),
                                size,
                            };
                            insert_sorted(&mut retained, entry);
                        },
                    }
                },
            }
            i = i + 1;
        }
        Some(retained)
    }

    /// The retained records the transaction does not replace.
    fn kept_entries(&self, retained: &Vec<Retained>) -> (kept: Vec<Retained>)
        ensures
            retained_views(kept@) == outside(self.spec_semantic(), retained_views(retained@)),
    {
        let ghost semantic = retained_views(self.semantic@);
        let mut kept: Vec<Retained> = Vec::new();
        let mut j: usize = 0;
        assert(retained_views(kept@) =~= outside(semantic.take(0), retained_views(retained@)));
        while j < self.semantic.len()
            invariant
                j <= self.semantic@.len(),
                semantic == retained_views(self.semantic@),
                retained_views(kept@) == outside(semantic.take(j as int), retained_views(retained@)),
            decreases self.semantic.len() - j,
        {
            let entry = &self.semantic[j];
            proof {
                assert(semantic.take(j + 1).drop_last() =~= semantic.take(j as int));
                assert(semantic.take(j + 1).last() == entry@);
            }
            if !holds(retained, entry.class, entry.source.as_slice()) {
                let ghost before = retained_views(kept@);
                kept.push(duplicate_entry(entry));
                assert(retained_views(kept@) =~= before.push(entry@));
            }
            j = j + 1;
        }
        assert(semantic.take(self.semantic@.len() as int) =~= semantic);
        kept
    }

    /// Whether the room reserved with these records passes the cap.
    fn over_reservation(&self, kept: &Vec<Retained>, retained: &Vec<Retained>) -> (r: bool)
        ensures
            r == (self.spec_base() + total(retained_views(kept@)) + total(retained_views(retained@)) > EVENT_CAP),
    {
        proof {
            lemma_total_nonnegative(retained_views(kept@));
            lemma_total_nonnegative(retained_views(retained@));
        }
        match add_total(self.base, kept) {
            None => true,
            Some(partial) => match add_total(partial, retained) {
                None => true,
                Some(reserved) => reserved > EVENT_CAP,
            },
        }
    }

    /// The events a compaction starts the new epoch with.
    fn compaction(&self, kept: &Vec<Retained>) -> (r: Vec<Event>)
        ensures
            event_views(r@) == compaction_events(self.spec_slots(), retained_views(kept@)),
    {
        let mut snapshots: Vec<Event> = Vec::new();
        let mut k: usize = 0;
        assert(event_views(snapshots@) =~= slot_events(slot_views(self.snapshots@).take(0)));
        while k < self.snapshots.len()
            invariant
                k <= self.snapshots@.len(),
                event_views(snapshots@) == slot_events(slot_views(self.snapshots@).take(k as int)),
            decreases self.snapshots.len() - k,
        {
            proof {
                assert(slot_views(self.snapshots@).take(k + 1).drop_last() =~= slot_views(self.snapshots@).take(
                    k as int,
                ));
            }
            match &self.snapshots[k] {
                Some(e) => {
                    let ghost before = event_views(snapshots@);
                    snapshots.push(e.duplicate());
                    assert(event_views(snapshots@) =~= before.push(e@));
                },
                None => {},
            }
            k = k + 1;
        }
        assert(slot_views(self.snapshots@).take(self.snapshots@.len() as int) =~= slot_views(self.snapshots@));
        let ghost slot_part = event_views(snapshots@);
        let mut m: usize = 0;
        assert(event_views(snapshots@) =~= slot_part + retained_views(kept@).take(0).map_values(
            |e: RetainedView| e.event,
        ));
        while m < kept.len()
            invariant
                m <= kept@.len(),
                event_views(snapshots@) == slot_part + retained_views(kept@).take(m as int).map_values(
                    |e: RetainedView| e.event,
                ),
            decreases kept.len() - m,
        {
            let ghost before = event_views(snapshots@);
            snapshots.push(kept[m].event.duplicate());
            proof {
                assert(retained_views(kept@).take(m + 1).map_values(|e: RetainedView| e.event) =~= retained_views(
                    kept@,
                ).take(m as int).map_values(|e: RetainedView| e.event).push(kept@[m as int].event@));
                assert(event_views(snapshots@) =~= before.push(kept@[m as int].event@));
            }
            m = m + 1;
        }
        assert(retained_views(kept@).take(kept@.len() as int) =~= retained_views(kept@));
        snapshots
    }

    /// Assembles the planned commit from the transaction written.
    fn assemble(
        &self,
        purpose: Purpose,
        records: Vec<u8>,
        cursor: Cursor,
        axis: Option<Axis>,
        stream: EventStream,
        compacted: bool,
        header: Vec<u8>,
        length: u128,
        changes: bool,
        retained: Vec<Retained>,
        remember: Option<(usize, Event)>,
    ) -> (r: Result<Planned, StorageError>)
        requires
            header@ == self.spec_header(cursor),
            stream.spec_cursor() == (if axis is None {
                Some(cursor)
            } else {
                None
            }),
        ensures
            match self.planned(purpose, (records@, cursor, axis), compacted, length as int, changes, retained_views(retained@)) {
                Ok(p) => r matches Ok(x) && x.plan_view() == p && x.spec_remember() == match remember {
                    Some((slot, e)) => Some((slot, Some(e@))),
                    None => None,
                },
                Err(e) => r == Err::<Planned, StorageError>(e),
            },
    {
        if length > EVENT_HARD_CAP as u128 || (length > EVENT_CAP as u128 && changes && axis.is_none()) {
            return Err(StorageError::Busy);
        }
        let accepted = match axis {
            Some(Axis::Sequence) => false,
            _ => true,
        };
        let tagged = match purpose {
            Purpose::Semantic(tag, _) => Purpose::Semantic(tag, axis.is_some()),
            p => p,
        };
        let mut body: Vec<u8> = header;
        if !compacted {
            crate::bytes::push_all(&mut body, self.records.as_slice());
        }
        crate::bytes::push_all(&mut body, records.as_slice());
        let mut kept_records: Vec<u8> = Vec::new();
        if !compacted {
            crate::bytes::push_all(&mut kept_records, self.records.as_slice());
        }
        crate::bytes::push_all(&mut kept_records, records.as_slice());
        proof {
            assert(body@ =~= self.spec_header(cursor) + (if compacted {
                Seq::empty()
            } else {
                self.spec_records()
            }) + records@);
            assert(kept_records@ =~= (if compacted {
                records@
            } else {
                self.records@ + records@
            }));
        }
        Ok(
            Planned {
                replacement: Replacement {
                    purpose: if accepted {
                        tagged
                    } else {
                        Purpose::Background
                    },
                    body,
                    epoch: cursor.0,
                    first: cursor.2,
                    next: cursor.1,
                },
                stream,
                records: kept_records,
                accepted,
                retained,
                remember,
            },
        )
    }

    /// Plans a commit of `transitions`, to remember the first of them in
    /// observation slot `remember_after` once it is taken.
    pub fn plan(&self, purpose: Purpose, transitions: &[Event], remember_after: Option<usize>) -> (r: Result<
        Planned,
        StorageError,
    >)
        requires
            self.wf(),
            remember_after matches Some(slot) ==> slot < 3,
        ensures
            match self.plan_spec(purpose, event_views(transitions@)) {
                Ok(p) => r matches Ok(x) && x.plan_view() == p && x.spec_remember() == match remember_after {
                    Some(slot) => Some((slot, Some(transitions@[0]@))),
                    None => None,
                },
                Err(e) => r == Err::<Planned, StorageError>(e),
            },
    {
        let retained = match Self::retain(transitions) {
            Some(v) => v,
            None => {
                return Err(StorageError::Disabled);
            },
        };
        let changes = retained.len() > 0;
        let kept = self.kept_entries(&retained);
        if changes && self.over_reservation(&kept, &retained) {
            return Err(StorageError::Busy);
        }
        let empty: Vec<Event> = Vec::new();
        assert(event_views(empty@) =~= Seq::<EventView>::empty());
        let mut plain_stream = self.stream;
        let (plain_records, plain_cursor, plain_axis) = match plain_stream.transact(
            empty.as_slice(),
            transitions,
            false,
        ) {
            Ok(v) => v,
            Err(_) => {
                return Err(StorageError::Disabled);
            },
        };
        let remember = match remember_after {
            Some(slot) => Some((slot, transitions[0].duplicate())),
            None => None,
        };
        let mut header: Vec<u8> = Vec::new();
        push_header(&mut header, self.created, self.session.as_slice(), self.generation, plain_cursor);
        let plain_len = (header.len() as u128) + (self.records.len() as u128) + (plain_records.len() as u128);
        if plain_len <= EVENT_CAP as u128 {
            return self.assemble(
                purpose,
                plain_records,
                plain_cursor,
                plain_axis,
                plain_stream,
                false,
                header,
                plain_len,
                changes,
                retained,
                remember,
            );
        }
        let snapshots = self.compaction(&kept);
        let mut dense_stream = self.stream;
        let (dense_records, dense_cursor, dense_axis) = match dense_stream.transact(
            snapshots.as_slice(),
            transitions,
            true,
        ) {
            Ok(v) => v,
            Err(_) => {
                return Err(StorageError::Disabled);
            },
        };
        let compacted = match dense_axis {
            Some(Axis::Sequence) | Some(Axis::Epoch) => false,
            _ => true,
        };
        let mut dense_header: Vec<u8> = Vec::new();
        push_header(&mut dense_header, self.created, self.session.as_slice(), self.generation, dense_cursor);
        let length = (dense_header.len() as u128) + (dense_records.len() as u128) + if compacted {
            0
        } else {
            self.records.len() as u128
        };
        self.assemble(
            purpose,
            dense_records,
            dense_cursor,
            dense_axis,
            dense_stream,
            compacted,
            dense_header,
            length,
            changes,
            retained,
            remember,
        )
    }
}


impl EventLog {
    /// Takes a planned commit once its lane accepted the work: the stream
    /// and records move on; if the stream accepted the transitions, the
    /// observation is remembered in its slot and the retained records the
    /// transaction kept replace those under the same keys. A transaction
    /// the stream did not accept is reported as disabled.
    pub fn commit(&mut self, planned: Planned) -> (r: Result<(), StorageError>)
        requires
            old(self).wf(),
            planned.spec_remember() matches Some((slot, _)) ==> slot < 3,
        ensures
            final(self).wf(),
            final(self).spec_stream() == planned.plan_view().stream,
            final(self).spec_records() == planned.plan_view().records,
            final(self).spec_base() == old(self).spec_base(),
            forall|c: Cursor| #[trigger] final(self).spec_header(c) == old(self).spec_header(c),
            !planned.plan_view().accepted ==> r == Err::<(), StorageError>(StorageError::Disabled)
                && final(self).spec_slots() == old(self).spec_slots() && final(self).spec_semantic()
                == old(self).spec_semantic(),
            planned.plan_view().accepted ==> r is Ok && final(self).spec_semantic() == merge_entries(
                old(self).spec_semantic(),
                planned.plan_view().retained,
            ) && final(self).spec_slots() == match planned.spec_remember() {
                Some((slot, e)) => old(self).spec_slots().update(slot as int, e),
                None => old(self).spec_slots(),
            },
    {
        let Planned { replacement: _, stream, records, accepted, retained, remember } = planned;
        self.stream = stream;
        self.records = records;
        if !accepted {
            return Err(StorageError::Disabled);
        }
        match remember {
            Some((slot, event)) => {
                let ghost before = self.snapshots@;
                let _ = self.snapshots.remove(slot);
                self.snapshots.insert(slot, Some(event));
                proof {
                    assert(self.snapshots@ =~= before.update(slot as int, Some(event)));
                    assert(slot_views(self.snapshots@) =~= slot_views(before).update(slot as int, Some(event@)));
                }
            },
            None => {},
        }
        let ghost start = retained_views(self.semantic@);
        let ghost incoming = retained_views(retained@);
        let mut pending = retained;
        let mut taken: usize = 0;
        proof {
            assert(incoming.take(0) =~= Seq::<RetainedView>::empty());
            assert(pending@ =~= retained@.subrange(0, retained@.len() as int));
        }
        let count = pending.len();
        let ghost after_stream = self.stream.spec_cursor();
        let ghost after_records = self.records@;
        let ghost after_slots = slot_views(self.snapshots@);
        while pending.len() > 0
            invariant
                self.stream.spec_cursor() == after_stream,
                self.records@ == after_records,
                slot_views(self.snapshots@) == after_slots,
                self.created == old(self).created,
                self.session@ == old(self).session@,
                self.generation == old(self).generation,
                self.base == old(self).base,
                taken + pending@.len() == incoming.len(),
                incoming.len() == count,
                retained_views(pending@) == incoming.subrange(taken as int, incoming.len() as int),
                retained_views(self.semantic@) == merge_entries(start, incoming.take(taken as int)),
                sorted(retained_views(self.semantic@)),
                self.snapshots@.len() == 3,
            decreases pending.len(),
        {
            let ghost before = retained_views(self.semantic@);
            let ghost pv = pending@;
            let entry = pending.remove(0);
            proof {
                assert(retained_views(pv)[0] == incoming[taken as int]);
                assert(retained_views(pv)[0] == pv[0]@);
                assert(entry@ == incoming[taken as int]);
                assert(retained_views(pending@) =~= retained_views(pv).drop_first());
                lemma_insert_sorted(before, entry@);
                assert(incoming.take(taken + 1).drop_last() =~= incoming.take(taken as int));
                assert(incoming.take(taken + 1).last() == entry@);
                assert(retained_views(pending@) =~= incoming.subrange(taken + 1, incoming.len() as int));
            }
            insert_sorted(&mut self.semantic, entry);
            taken = taken + 1;
        }
        assert(incoming.take(taken as int) =~= incoming);
        Ok(())
    }
}


pub open spec fn bool_text(b: bool) -> Seq<u8> {
    if b {
        "true".spec_bytes()
    } else {
        "false".spec_bytes()
    }
}

/// A field as it follows an event's fixed fields: comma, quoted key, colon
/// and value text.
pub open spec fn field_text(key: &str, value: Seq<u8>) -> Seq<u8> {
    ",\"".spec_bytes() + key.spec_bytes() + "\":".spec_bytes() + value
}

fn push_field(out: &mut Vec<u8>, key: &str, value: &[u8])
    ensures
        final(out)@ == old(out)@ + field_text(key, value@),
{
    crate::events::push_str(out, ",\"");
    crate::events::push_str(out, key);
    crate::events::push_str(out, "\":");
    crate::bytes::push_all(out, value);
}

fn quote(bytes: &[u8]) -> (r: Vec<u8>)
    ensures
        r@ == crate::events::quoted(bytes@),
{
    let mut out: Vec<u8> = Vec::new();
    crate::events::push_quoted(&mut out, bytes);
    out
}

fn boolean(b: bool) -> (r: Vec<u8>)
    ensures
        r@ == bool_text(b),
{
    let mut out: Vec<u8> = Vec::new();
    if b {
        crate::events::push_str(&mut out, "true");
    } else {
        crate::events::push_str(&mut out, "false");
    }
    out
}

/// The event an observation records and the slot that remembers the last
/// one of its kind: ready (slot 0), the child's state and title (slot 1),
/// a link (slot 2), a degraded scanner (not remembered). A query is not
/// recorded.
pub open spec fn spec_observed(observation: Observation, ts: u64) -> Option<(EventView, Option<usize>)> {
    let view = |name: &'static str, tail: Seq<u8>| EventView { name, ts, tail, retention: None };
    match observation {
        Observation::Ready => Some((view("ready", Seq::empty()), Some(0usize))),
        Observation::State(state, title, truncated) => Some(
            (
                view(
                    "state",
                    field_text("state", crate::events::quoted(state.spec_bytes())) + field_text(
                        "title",
                        crate::events::quoted(title@),
                    ) + field_text("truncated", bool_text(truncated)),
                ),
                Some(1usize),
            ),
        ),
        Observation::Link(uri, truncated) => Some(
            (
                view(
                    "link",
                    field_text("uri", crate::events::quoted(uri@)) + field_text("truncated", bool_text(truncated)),
                ),
                Some(2usize),
            ),
        ),
        Observation::Degraded(scanner, reason) => Some(
            (
                view(
                    "observer-degraded",
                    field_text("scanner", crate::events::quoted(scanner.spec_bytes())) + field_text(
                        "reason",
                        crate::events::quoted(reason.spec_bytes()),
                    ),
                ),
                None,
            ),
        ),
        Observation::Query(..) => None,
    }
}

pub fn observed_event(observation: &Observation, ts: u64) -> (r: Option<(Event, Option<usize>)>)
    ensures
        match spec_observed(*observation, ts) {
            Some((e, slot)) => r matches Some((x, s)) && x@ == e && s == slot,
            None => r is None,
        },
{
    match observation {
        Observation::Ready => Some((Event("ready", ts, Vec::new(), None), Some(0))),
        Observation::State(state, title, truncated) => {
            let mut tail: Vec<u8> = Vec::new();
            push_field(&mut tail, "state", quote(state.as_bytes()).as_slice());
            push_field(&mut tail, "title", quote(title.as_slice()).as_slice());
            push_field(&mut tail, "truncated", boolean(*truncated).as_slice());
            Some((Event("state", ts, tail, None), Some(1)))
        },
        Observation::Link(uri, truncated) => {
            let mut tail: Vec<u8> = Vec::new();
            push_field(&mut tail, "uri", quote(uri.as_slice()).as_slice());
            push_field(&mut tail, "truncated", boolean(*truncated).as_slice());
            Some((Event("link", ts, tail, None), Some(2)))
        },
        Observation::Degraded(scanner, reason) => {
            let mut tail: Vec<u8> = Vec::new();
            push_field(&mut tail, "scanner", quote(scanner.as_bytes()).as_slice());
            push_field(&mut tail, "reason", quote(reason.as_bytes()).as_slice());
            Some((Event("observer-degraded", ts, tail, None), None))
        },
        Observation::Query(..) => None,
    }
}

/// How far the lines of a stored event commit ran, from the flags of its
/// lines, one per line (bit 0 a snapshot, bit 1 the stream's exhaustion,
/// bit 2 a retained state, bits 3 to 5 the exhausted axis: sequence, epoch,
/// commit): the transitions counted, the flags of the last one, whether a
/// retained state was stated, and whether the order held, snapshots coming
/// before any transition and nothing following the exhaustion.
pub open spec fn tally(flags: Seq<u8>) -> (nat, u8, bool, bool)
    decreases flags.len(),
{
    if flags.len() == 0 {
        (0, 0, false, true)
    } else {
        let t = tally(flags.drop_last());
        let f = flags.last();
        if !t.3 || t.1 & 2 != 0 {
            (t.0, t.1, t.2, false)
        } else if f & 1 != 0 {
            (t.0, t.1, t.2, t.0 == 0)
        } else {
            (t.0 + 1, f, t.2 || f & 4 != 0, true)
        }
    }
}

/// The most bytes a stored event commit holds, unless it is the commit
/// that states the stream's exhaustion or the one transition of an epoch
/// after the first.
pub const STORE_EVENT_CAP: u64 = 262144;

/// Whether a stored event commit is laid out as its commit record says:
/// its header's epoch, first retained sequence and next sequence are the
/// record's, its lines are numbered from the first retained one up to the
/// next, in order (snapshots first, nothing after the exhaustion), it stays
/// under the size cap unless it overran for the exhaustion or an epoch's
/// one transition without retained state, and where it ends is where its
/// last transition says the stream stopped.
pub open spec fn spec_stored_sequence(header: (u32, u64, u64), flags: Seq<u8>, body_len: nat, commit: Commit) -> bool {
    let (epoch, first, end) = header;
    let (transitions, last, retained, ordered) = tally(flags);
    let overage = last & 2 != 0 || (epoch != 0 && !retained && transitions == 1);
    let frontier = if last & 56 == 8 {
        end <= STORE_EVENT_END
    } else if last & 56 == 16 {
        epoch == u32::MAX && end < STORE_EVENT_END
    } else if last & 56 == 32 {
        commit.index == u64::MAX && end < STORE_EVENT_END
    } else if last & 56 == 0 {
        end < STORE_EVENT_END
    } else {
        false
    };
    &&& ordered
    &&& first + flags.len() <= u64::MAX
    &&& epoch == commit.epoch && first == commit.start && end == commit.end && first + flags.len() == end
    &&& body_len < STORE_EVENT_CAP || overage
    &&& frontier
}

/// Checks the layout of a stored event commit from its header, the flags
/// of its lines and its length.
pub fn stored_sequence(header: (u32, u64, u64), flags: &[u8], body_len: usize, commit: &Commit) -> (r: bool)
    ensures
        r == spec_stored_sequence(header, flags@, body_len as nat, *commit),
{
    let (epoch, first, end) = header;
    let mut transitions: usize = 0;
    let mut last: u8 = 0;
    let mut retained = false;
    let mut ordered = true;
    let mut i: usize = 0;
    while i < flags.len()
        invariant
            i <= flags@.len(),
            transitions <= i,
            tally(flags@.take(i as int)) == (transitions as nat, last, retained, ordered),
        decreases flags@.len() - i,
    {
        proof {
            assert(flags@.take(i + 1).drop_last() =~= flags@.take(i as int));
        }
        let f = flags[i];
        if !ordered || last & 2 != 0 {
            ordered = false;
        } else if f & 1 != 0 {
            ordered = transitions == 0;
        } else {
            transitions = transitions + 1;
            last = f;
            retained = retained || f & 4 != 0;
        }
        i = i + 1;
    }
    proof {
        assert(flags@.take(flags@.len() as int) =~= flags@);
    }
    if !ordered || first > u64::MAX - (flags.len() as u64) {
        return false;
    }
    let overage = last & 2 != 0 || (epoch != 0 && !retained && transitions == 1);
    let frontier = if last & 56 == 8 {
        end <= STORE_EVENT_END
    } else if last & 56 == 16 {
        epoch == u32::MAX && end < STORE_EVENT_END
    } else if last & 56 == 32 {
        commit.index == u64::MAX && end < STORE_EVENT_END
    } else if last & 56 == 0 {
        end < STORE_EVENT_END
    } else {
        false
    };
    epoch == commit.epoch && first == commit.start && end == commit.end && first + flags.len() as u64 == end && (
    (body_len as u64) < STORE_EVENT_CAP || overage) && frontier
}

/// The flags a stored event line contributes to the layout check: bit 0 a
/// snapshot, bit 1 the stream's exhaustion, bit 2 retained state (a
/// source's status, or a snapshot assertion), and bits 3 to 5 which axis
/// ran out: sequences, epochs or commits.
pub open spec fn spec_line_flags(kind: Seq<u8>, snapshot: bool, assertion_snapshot: bool, axis: Seq<u8>) -> u8 {
    let exhausted = kind == "stream-exhausted".spec_bytes();
    let retained = kind == "semantic-source".spec_bytes() || (kind == "semantic-assertion".spec_bytes()
        && assertion_snapshot);
    ((if snapshot { 1int } else { 0int }) + (if exhausted { 2int } else { 0int }) + (if retained { 4int } else { 0int })
        + (if exhausted && axis == "seq".spec_bytes() { 8int } else { 0int })
        + (if exhausted && axis == "epoch".spec_bytes() { 16int } else { 0int })
        + (if exhausted && axis == "commit".spec_bytes() { 32int } else { 0int })) as u8
}

pub fn line_flags(kind: &[u8], snapshot: bool, assertion_snapshot: bool, axis: &[u8]) -> (r: u8)
    ensures
        r == spec_line_flags(kind@, snapshot, assertion_snapshot, axis@),
{
    let exhausted = same_bytes(kind, "stream-exhausted".as_bytes());
    let retained = same_bytes(kind, "semantic-source".as_bytes()) || (same_bytes(
        kind,
        "semantic-assertion".as_bytes(),
    ) && assertion_snapshot);
    let mut flags: u8 = 0;
    if snapshot {
        flags = flags + 1;
    }
    if exhausted {
        flags = flags + 2;
    }
    if retained {
        flags = flags + 4;
    }
    if exhausted && same_bytes(axis, "seq".as_bytes()) {
        flags = flags + 8;
    }
    if exhausted && same_bytes(axis, "epoch".as_bytes()) {
        flags = flags + 16;
    }
    if exhausted && same_bytes(axis, "commit".as_bytes()) {
        flags = flags + 32;
    }
    flags
}

/// How a stored record names its generation: the first generation as
/// null, every later one as its number.
pub open spec fn spec_generation_field(null: bool, number: Option<u64>, generation: u32) -> bool {
    (generation == 1 && null) || (generation != 1 && number == Some(generation as u64))
}

pub fn generation_field(null: bool, number: Option<u64>, generation: u32) -> (r: bool)
    ensures
        r == spec_generation_field(null, number, generation),
{
    if generation == 1 {
        null
    } else {
        match number {
            Some(n) => n == generation as u64,
            None => false,
        }
    }
}

/// Whether a stored session path is of its encoding: a POSIX path is an
/// absolute one behind the tag 1, a Windows one 24 bytes behind the tag 2.
pub open spec fn spec_session_path(bytes: Seq<u8>, windows: bool) -> bool {
    if windows {
        bytes.len() == 25 && bytes[0] == 2
    } else {
        bytes.len() >= 2 && bytes[0] == 1 && bytes[1] == 0x2f
    }
}

pub fn session_path(bytes: &[u8], windows: bool) -> (r: bool)
    ensures
        r == spec_session_path(bytes@, windows),
{
    if windows {
        bytes.len() == 25 && bytes[0] == 2
    } else {
        bytes.len() >= 2 && bytes[0] == 1 && bytes[1] == 0x2f
    }
}

/// Which phase a stored lifecycle record may be in for its commit: the
/// running record is the first commit and holds no output range; an exit
/// record is the second, closes the output where the commit does, and ends
/// as its platform can: by an exit code of at most 255 or a signal on POSIX,
/// by any exit code or a termination on Windows.
pub open spec fn spec_lifecycle_phase(
    running: bool,
    ended: Option<u8>,
    index: u64,
    start: u64,
    end: u64,
    output_end: Option<u64>,
    code: Option<u64>,
    windows: bool,
) -> bool {
    let closed = index == 2 && output_end == Some(end);
    if running {
        ended is None && index == 1 && start == 0 && end == 0
    } else {
        match ended {
            Some(0) => closed && (code matches Some(c) && (windows || c <= 255)),
            Some(1) => closed && !windows,
            Some(2) => closed && windows,
            _ => false,
        }
    }
}

/// Checks a stored lifecycle record's phase; `ended` is 0 for an exit, 1
/// for a signal and 2 for a termination, and `running` whether the phase
/// is "running" rather than "exited".
pub fn lifecycle_phase(
    running: bool,
    ended: Option<u8>,
    index: u64,
    start: u64,
    end: u64,
    output_end: Option<u64>,
    code: Option<u64>,
    windows: bool,
) -> (r: bool)
    ensures
        r == spec_lifecycle_phase(running, ended, index, start, end, output_end, code, windows),
{
    let closed = index == 2 && match output_end {
        Some(o) => o == end,
        None => false,
    };
    if running {
        ended.is_none() && index == 1 && start == 0 && end == 0
    } else {
        match ended {
            Some(0) => closed && match code {
                Some(c) => windows || c <= 255,
                None => false,
            },
            Some(1) => closed && !windows,
            Some(2) => closed && windows,
            _ => false,
        }
    }
}

} // verus!
