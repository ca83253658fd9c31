//! The semantic event log's records: each event is one JSON object on a
//! line, numbered by epoch and sequence, written in transactions that keep
//! the cursor of the stream.
use crate::session::{
    ReceiptProjection, SemanticEvent, SemanticEventKind, MissingReason, SemanticChange, SemanticEffect, SourceEffect, SourceReason, SourceStatus,
};
use base64::Engine;
use vstd::prelude::*;
use vstd::string::StringSliceAdditionalSpecFns;

verus! {

/// The standard base64 encoding of `bytes`, with padding.
pub uninterp spec fn spec_base64(bytes: Seq<u8>) -> Seq<u8>;

/// A byte of the standard base64 alphabet, or its padding `=`.
pub open spec fn base64_symbol(b: u8) -> bool {
    (0x41 <= b <= 0x5a) || (0x61 <= b <= 0x7a) || (0x30 <= b <= 0x39) || b == 0x2b || b == 0x2f || b == 0x3d
}

/// Encodes `bytes` with `base64::engine::general_purpose::STANDARD`; the
/// text depends on the bytes alone, is made of the standard alphabet and
/// padding, is empty only for no bytes, and decodes with the same engine
/// to the bytes again.
#[verifier::external_body]
pub(crate) fn base64(bytes: &[u8]) -> (r: Vec<u8>)
    requires
        bytes@.len() <= 0x3fff_ffff,
    ensures
        r@ == spec_base64(bytes@),
        forall|i: int| 0 <= i < r@.len() ==> base64_symbol(#[trigger] r@[i]),
        bytes@.len() > 0 ==> r@.len() > 0,
        crate::ancestry::spec_base64_decoded(r@) == Some(bytes@),
{
    base64::engine::general_purpose::STANDARD.encode(bytes).into_bytes()
}

/// Whether `bytes` are well-formed UTF-8.
pub uninterp spec fn spec_utf8(bytes: Seq<u8>) -> bool;

/// Checks `bytes` with `std::str::from_utf8`.
#[verifier::external_body]
pub(crate) fn utf8(bytes: &[u8]) -> (r: bool)
    ensures
        r == spec_utf8(bytes@),
{
    std::str::from_utf8(bytes).is_ok()
}

/// A field value of an event.
pub enum Json<'a> {
    String(&'a str),
    Bool(bool),
    Number(u64),
}

/// An event: its type, its time in milliseconds, the text of its further
/// fields (each led by a comma), and the retention class and source it
/// belongs to, if any.
#[derive(Debug)]
pub struct Event(pub &'static str, pub u64, pub Vec<u8>, pub Option<(usize, Vec<u8>)>);

/// An event as values: its type, time, further fields and retention.
pub struct EventView {
    pub name: &'static str,
    pub ts: u64,
    pub tail: Seq<u8>,
    pub retention: Option<(usize, Seq<u8>)>,
}

impl View for Event {
    type V = EventView;

    open spec fn view(&self) -> EventView {
        EventView {
            name: self.0,
            ts: self.1,
            tail: self.2@,
            retention: match self.3 {
                Some((class, source)) => Some((class, source@)),
                None => None,
            },
        }
    }
}

/// The views of events, in order.
pub open spec fn event_views(events: Seq<Event>) -> Seq<EventView> {
    events.map_values(|e: Event| e@)
}

#[derive(Clone, Copy, Debug, PartialEq, Eq, Structural)]
pub enum EventKind {
    Transition,
    Snapshot,
}

/// Which counter of the stream ran out.
#[derive(Clone, Copy, Debug, PartialEq, Eq, Structural)]
pub enum Axis {
    Sequence,
    Epoch,
    Commit,
}

#[derive(Clone, Copy, Debug, PartialEq, Eq, Structural)]
pub enum EventError {
    Closed,
    EmptyTransaction,
    InvalidState,
    InvalidEvent,
}

/// The stream's position: epoch, next sequence, first retained sequence
/// and commit index.
#[derive(Clone, Copy, Debug, PartialEq, Eq, Structural)]
pub struct Cursor(pub u32, pub u64, pub u64, pub u64);

/// The decimal digits of `n`.
pub open spec fn decimal_text(n: nat) -> Seq<u8>
    decreases n,
{
    if n < 10 {
        seq![(48 + n) as u8]
    } else {
        decimal_text(n / 10).push((48 + n % 10) as u8)
    }
}

pub(crate) fn push_decimal(out: &mut Vec<u8>, n: u64)
    ensures
        final(out)@ == old(out)@ + decimal_text(n as nat),
    decreases n,
{
    if n >= 10 {
        push_decimal(out, n / 10);
    }
    out.push(48 + (n % 10) as u8);
    proof {
        if n >= 10 {
            assert(decimal_text(n as nat) == decimal_text((n / 10) as nat).push((48 + n % 10) as u8));
        }
    }
}

/// A time in milliseconds as seconds, with a three-digit fraction when it
/// is not whole.
pub open spec fn timestamp_text(ms: u64) -> Seq<u8> {
    let whole = decimal_text((ms / 1000) as nat);
    let f = ms % 1000;
    if f == 0 {
        whole
    } else {
        whole + seq![0x2eu8, (48 + f / 100) as u8, (48 + (f / 10) % 10) as u8, (48 + f % 10) as u8]
    }
}

pub(crate) fn push_timestamp(out: &mut Vec<u8>, ms: u64)
    ensures
        final(out)@ == old(out)@ + timestamp_text(ms),
{
    push_decimal(out, ms / 1000);
    let f = ms % 1000;
    if f != 0 {
        out.push(0x2e);
        out.push(48 + (f / 100) as u8);
        out.push(48 + ((f / 10) % 10) as u8);
        out.push(48 + (f % 10) as u8);
    }
    proof {
        assert(out@ =~= old(out)@ + timestamp_text(ms));
    }
}

/// An uppercase hexadecimal digit.
pub open spec fn hex_digit(v: u8) -> u8 {
    if v < 10 {
        (48 + v) as u8
    } else {
        (55 + v) as u8
    }
}

/// How a byte stands inside a JSON string: quote, backslash and the control
/// characters escaped, control characters without a short form as `\u00`
/// and two uppercase hexadecimal digits, every other byte as itself.
pub open spec fn escape_byte(b: u8) -> Seq<u8> {
    if b == 0x22 {
        seq![0x5cu8, 0x22u8]
    } else if b == 0x5c {
        seq![0x5cu8, 0x5cu8]
    } else if b == 0x08 {
        seq![0x5cu8, 0x62u8]
    } else if b == 0x0c {
        seq![0x5cu8, 0x66u8]
    } else if b == 0x0a {
        seq![0x5cu8, 0x6eu8]
    } else if b == 0x0d {
        seq![0x5cu8, 0x72u8]
    } else if b == 0x09 {
        seq![0x5cu8, 0x74u8]
    } else if b < 0x20 {
        seq![0x5cu8, 0x75u8, 0x30u8, 0x30u8, hex_digit(b / 16), hex_digit(b % 16)]
    } else {
        seq![b]
    }
}

pub open spec fn escaped(s: Seq<u8>) -> Seq<u8>
    decreases s.len(),
{
    if s.len() == 0 {
        Seq::empty()
    } else {
        escaped(s.drop_last()) + escape_byte(s.last())
    }
}

/// A JSON string holding `s`.
pub open spec fn quoted(s: Seq<u8>) -> Seq<u8> {
    seq![0x22u8] + escaped(s) + seq![0x22u8]
}

pub(crate) fn push_quoted(out: &mut Vec<u8>, s: &[u8])
    ensures
        final(out)@ == old(out)@ + quoted(s@),
{
    out.push(0x22);
    let ghost start = out@;
    let mut i: usize = 0;
    while i < s.len()
        invariant
            i <= s@.len(),
            out@ == start + escaped(s@.take(i as int)),
        decreases s@.len() - i,
    {
        let b = s[i];
        let ghost before = out@;
        if b == 0x22 || b == 0x5c {
            out.push(0x5c);
            out.push(b);
        } else if b == 0x08 {
            out.push(0x5c);
            out.push(0x62);
        } else if b == 0x0c {
            out.push(0x5c);
            out.push(0x66);
        } else if b == 0x0a {
            out.push(0x5c);
            out.push(0x6e);
        } else if b == 0x0d {
            out.push(0x5c);
            out.push(0x72);
        } else if b == 0x09 {
            out.push(0x5c);
            out.push(0x74);
        } else if b < 0x20 {
            out.push(0x5c);
            out.push(0x75);
            out.push(0x30);
            out.push(0x30);
            let high = b / 16;
            let low = b % 16;
            out.push(if high < 10 { 48 + high } else { 55 + high });
            out.push(if low < 10 { 48 + low } else { 55 + low });
        } else {
            out.push(b);
        }
        proof {
            assert(s@.take(i + 1).drop_last() =~= s@.take(i as int));
            assert(s@.take(i + 1).last() == b);
            assert(out@ =~= before + escape_byte(b));
        }
        i = i + 1;
    }
    out.push(0x22);
    proof {
        assert(s@.take(s@.len() as int) =~= s@);
        assert(out@ =~= old(out)@ + quoted(s@));
    }
}

pub(crate) fn push_str(out: &mut Vec<u8>, s: &str)
    ensures
        final(out)@ == old(out)@ + s.spec_bytes(),
{
    crate::bytes::push_all(out, s.as_bytes());
}

/// The text of a field value.
pub open spec fn value_text(value: Json) -> Seq<u8> {
    match value {
        Json::String(s) => quoted(s.spec_bytes()),
        Json::Bool(b) => if b {
            seq![0x74u8, 0x72u8, 0x75u8, 0x65u8]
        } else {
            seq![0x66u8, 0x61u8, 0x6cu8, 0x73u8, 0x65u8]
        },
        Json::Number(n) => decimal_text(n as nat),
    }
}

/// The text of further fields: each as a comma, its quoted key, a colon and
/// its value.
pub open spec fn fields_text(fields: Seq<(&str, Json)>) -> Seq<u8>
    decreases fields.len(),
{
    if fields.len() == 0 {
        Seq::empty()
    } else {
        let (key, value) = fields.last();
        fields_text(fields.drop_last()) + seq![0x2cu8, 0x22u8] + key.spec_bytes() + seq![0x22u8, 0x3au8]
            + value_text(value)
    }
}

/// An event of type `name` at `ts` with `fields`.
pub fn event(name: &'static str, ts: u64, fields: &[(&str, Json)]) -> (r: Event)
    ensures
        r.0 == name && r.1 == ts && r.2@ == fields_text(fields@) && r.3 is None,
{
    let mut tail: Vec<u8> = Vec::new();
    let mut i: usize = 0;
    while i < fields.len()
        invariant
            i <= fields@.len(),
            tail@ == fields_text(fields@.take(i as int)),
        decreases fields@.len() - i,
    {
        let (key, value) = &fields[i];
        let ghost before = tail@;
        tail.push(0x2c);
        tail.push(0x22);
        push_str(&mut tail, key);
        tail.push(0x22);
        tail.push(0x3a);
        match value {
            Json::String(text) => push_quoted(&mut tail, text.as_bytes()),
            Json::Bool(b) => {
                if *b {
                    tail.push(0x74);
                    tail.push(0x72);
                    tail.push(0x75);
                    tail.push(0x65);
                } else {
                    tail.push(0x66);
                    tail.push(0x61);
                    tail.push(0x6c);
                    tail.push(0x73);
                    tail.push(0x65);
                }
            },
            Json::Number(n) => push_decimal(&mut tail, *n),
        }
        proof {
            assert(fields@.take(i + 1).drop_last() =~= fields@.take(i as int));
            assert(fields@.take(i + 1).last() == fields@[i as int]);
            assert(tail@ =~= before + seq![0x2cu8, 0x22u8] + key.spec_bytes() + seq![0x22u8, 0x3au8]
                + value_text(*value));
        }
        i = i + 1;
    }
    proof {
        assert(fields@.take(fields@.len() as int) =~= fields@);
    }
    Event(name, ts, tail, None)
}


pub open spec fn kind_text(kind: EventKind) -> Seq<u8> {
    match kind {
        EventKind::Transition => "transition".spec_bytes(),
        EventKind::Snapshot => "snapshot".spec_bytes(),
    }
}

/// The line recording an event of type `name` at `ts` with the further
/// fields `tail`, at `epoch` and `seq`.
pub open spec fn line_text(epoch: u32, seq: nat, kind: EventKind, name: &str, ts: u64, tail: Seq<u8>) -> Seq<u8> {
    "{\"type\":\"".spec_bytes() + name.spec_bytes() + "\",\"ts\":".spec_bytes() + timestamp_text(ts)
        + ",\"epoch\":".spec_bytes() + decimal_text(epoch as nat) + ",\"seq\":".spec_bytes()
        + decimal_text(seq) + ",\"kind\":\"".spec_bytes() + kind_text(kind) + "\"".spec_bytes() + tail
        + "}\n".spec_bytes()
}

/// The line recording `e` at `epoch` and `seq`.
pub open spec fn canonical_line(epoch: u32, seq: nat, kind: EventKind, e: EventView) -> Seq<u8> {
    line_text(epoch, seq, kind, e.name, e.ts, e.tail)
}

/// The lines recording `events` in turn from sequence `first`.
pub open spec fn lines(epoch: u32, first: nat, kind: EventKind, events: Seq<EventView>) -> Seq<u8>
    decreases events.len(),
{
    if events.len() == 0 {
        Seq::empty()
    } else {
        lines(epoch, first, kind, events.drop_last()) + canonical_line(
            epoch,
            (first + events.len() - 1) as nat,
            kind,
            events.last(),
        )
    }
}

fn push_line(out: &mut Vec<u8>, epoch: u32, seq: u64, kind: EventKind, event: &Event)
    ensures
        final(out)@ == old(out)@ + canonical_line(epoch, seq as nat, kind, event@),
{
    let mut line: Vec<u8> = Vec::new();
    push_str(&mut line, "{\"type\":\"");
    push_str(&mut line, event.0);
    push_str(&mut line, "\",\"ts\":");
    push_timestamp(&mut line, event.1);
    push_str(&mut line, ",\"epoch\":");
    push_decimal(&mut line, epoch as u64);
    push_str(&mut line, ",\"seq\":");
    push_decimal(&mut line, seq);
    push_str(&mut line, ",\"kind\":\"");
    match kind {
        EventKind::Transition => push_str(&mut line, "transition"),
        EventKind::Snapshot => push_str(&mut line, "snapshot"),
    }
    push_str(&mut line, "\"");
    crate::bytes::push_all(&mut line, event.2.as_slice());
    push_str(&mut line, "}\n");
    proof {
        assert(line@ =~= canonical_line(epoch, seq as nat, kind, event@));
    }
    crate::bytes::push_all(out, line.as_slice());
}

/// The line recording `event` at `epoch` and `seq`.
pub fn canonical_event(epoch: u32, seq: u64, kind: EventKind, event: &Event) -> (r: Vec<u8>)
    ensures
        r@ == canonical_line(epoch, seq as nat, kind, event@),
{
    let mut out = Vec::new();
    push_line(&mut out, epoch, seq, kind, event);
    out
}

fn push_lines(out: &mut Vec<u8>, epoch: u32, first: u64, kind: EventKind, events: &[Event])
    requires
        first + events@.len() <= u64::MAX,
    ensures
        final(out)@ == old(out)@ + lines(epoch, first as nat, kind, event_views(events@)),
{
    let mut i: usize = 0;
    while i < events.len()
        invariant
            i <= events@.len(),
            first + events@.len() <= u64::MAX,
            out@ == old(out)@ + lines(epoch, first as nat, kind, event_views(events@).take(i as int)),
        decreases events@.len() - i,
    {
        let ghost before = out@;
        push_line(out, epoch, first + i as u64, kind, &events[i]);
        proof {
            let t = event_views(events@).take(i + 1);
            assert(t.drop_last() =~= event_views(events@).take(i as int));
            assert(t.last() == events@[i as int]@);
            assert(lines(epoch, first as nat, kind, t) == lines(epoch, first as nat, kind, event_views(events@).take(i as int))
                + canonical_line(epoch, (first + i) as nat, kind, events@[i as int]@));
            assert(out@ =~= old(out)@ + lines(epoch, first as nat, kind, t));
        }
        i = i + 1;
    }
    proof {
        assert(event_views(events@).take(events@.len() as int) =~= event_views(events@));
    }
}

pub open spec fn axis_name(axis: Axis) -> &'static str {
    match axis {
        Axis::Sequence => "seq",
        Axis::Epoch => "epoch",
        Axis::Commit => "commit",
    }
}

/// The event that records a counter running out.
fn exhausted(axis: Axis, ts: u64) -> (r: Event)
    ensures
        r.0 == "stream-exhausted" && r.1 == ts && r.3 is None,
        r.2@ == fields_text(seq![("axis", Json::String(axis_name(axis)))]),
{
    let name: &'static str = match axis {
        Axis::Sequence => "seq",
        Axis::Epoch => "epoch",
        Axis::Commit => "commit",
    };
    let fields = [("axis", Json::String(name))];
    proof {
        assert(fields@ =~= seq![("axis", Json::String(axis_name(axis)))]);
    }
    event("stream-exhausted", ts, fields.as_slice())
}


/// The stream's cursor while it can take transactions.
#[derive(Clone, Copy)]
pub struct EventStream(Option<Cursor>);

/// Sequences stop short of two to the fifty-third.
pub const STORE_EVENT_END: u64 = 0x20_0000_0000_0000;

/// Which counter a transaction adding `added` events to `c` runs out of.
pub open spec fn transact_axis(c: Cursor, added: int, compact: bool) -> Option<Axis> {
    if c.1 + added >= STORE_EVENT_END {
        Some(Axis::Sequence)
    } else if compact && c.0 == u32::MAX {
        Some(Axis::Epoch)
    } else if c.3 + 1 == u64::MAX {
        Some(Axis::Commit)
    } else {
        None
    }
}

/// The text and cursor of a transaction: with `compact`, a new epoch that
/// starts at the snapshots; then the transitions; then, when a counter runs
/// out, the event that records it, after which the stream takes no more.
pub open spec fn transaction(
    c: Cursor,
    snapshots: Seq<EventView>,
    transitions: Seq<EventView>,
    compact: bool,
) -> (Seq<u8>, Cursor, Option<Axis>) {
    let added = transitions.len() + if compact {
        snapshots.len()
    } else {
        0
    };
    let axis = transact_axis(c, added as int, compact);
    let bump = compact && (axis is None || axis == Some(Axis::Commit));
    let epoch: u32 = if bump {
        (c.0 + 1) as u32
    } else {
        c.0
    };
    let first = if bump {
        c.1
    } else {
        c.2
    };
    let snaps = if compact && (axis is None || axis == Some(Axis::Commit)) {
        snapshots
    } else {
        Seq::empty()
    };
    let trans = if axis != Some(Axis::Sequence) {
        transitions
    } else {
        Seq::empty()
    };
    let at = c.1 + snaps.len() + trans.len();
    let diagnostic = match axis {
        Some(a) => line_text(
            epoch,
            at as nat,
            EventKind::Transition,
            "stream-exhausted",
            transitions.last().ts,
            fields_text(seq![("axis", Json::String(axis_name(a)))]),
        ),
        None => Seq::empty(),
    };
    let text = lines(epoch, c.1 as nat, EventKind::Snapshot, snaps) + lines(
        epoch,
        (c.1 + snaps.len()) as nat,
        EventKind::Transition,
        trans,
    ) + diagnostic;
    let next = at + if axis is Some {
        1int
    } else {
        0int
    };
    (text, Cursor(epoch, next as u64, first, (c.3 + 1) as u64), axis)
}

impl EventStream {
    /// Where the stream stands, while it can take transactions.
    pub closed spec fn spec_cursor(&self) -> Option<Cursor> {
        self.0
    }

    /// A stream at epoch zero, sequence zero, commit one.
    pub fn new() -> (r: Self)
        ensures
            r.spec_cursor() == Some(Cursor(0, 0, 0, 1)),
    {
        Self::at(Cursor(0, 0, 0, 1))
    }

    pub fn at(cursor: Cursor) -> (r: Self)
        ensures
            r.spec_cursor() == Some(cursor),
    {
        EventStream(Some(cursor))
    }

    /// Whether the stream takes transactions.
    pub fn writable(&self) -> (r: bool)
        ensures
            r == self.spec_cursor() is Some,
    {
        self.0.is_some()
    }

    /// Writes a transaction: the text of its lines, the cursor after it and
    /// the counter that ran out, if one did.
    pub fn transact(&mut self, snapshots: &[Event], transitions: &[Event], compact: bool) -> (r: Result<
        (Vec<u8>, Cursor, Option<Axis>),
        EventError,
    >)
        ensures
            transitions@.len() == 0 ==> r == Err::<(Vec<u8>, Cursor, Option<Axis>), EventError>(EventError::EmptyTransaction),
            transitions@.len() > 0 && old(self).spec_cursor() is None ==> r == Err::<(Vec<u8>, Cursor, Option<Axis>), EventError>(EventError::Closed),
            (old(self).spec_cursor() matches Some(c) && transitions@.len() > 0 && (c.1 >= STORE_EVENT_END || c.3 == 0
                || c.3 == u64::MAX)) ==> r == Err::<(Vec<u8>, Cursor, Option<Axis>), EventError>(EventError::InvalidState),
            r is Err ==> final(self).spec_cursor() == old(self).spec_cursor(),
            r matches Ok(v) ==> (old(self).spec_cursor() matches Some(c) && (v.0@, v.1, v.2) == transaction(
                c,
                event_views(snapshots@),
                event_views(transitions@),
                compact,
            ) && final(self).spec_cursor() == (if v.2 is None {
                Some(v.1)
            } else {
                None
            })),
            (old(self).spec_cursor() matches Some(c) && transitions@.len() > 0 && !(c.1 >= STORE_EVENT_END || c.3 == 0
                || c.3 == u64::MAX)) ==> r is Ok,
    {
        let n = transitions.len();
        if n == 0 {
            return Err(EventError::EmptyTransaction);
        }
        let observed = transitions[n - 1].1;
        let c = match self.0 {
            Some(c) => c,
            None => {
                return Err(EventError::Closed);
            },
        };
        let Cursor(epoch, next, first, index) = c;
        if next >= STORE_EVENT_END || index == 0 || index == u64::MAX {
            return Err(EventError::InvalidState);
        }
        let commit = index + 1;
        let added: u128 = n as u128 + if compact {
            snapshots.len() as u128
        } else {
            0
        };
        let axis = if next as u128 + added >= STORE_EVENT_END as u128 {
            Some(Axis::Sequence)
        } else if compact && epoch == u32::MAX {
            Some(Axis::Epoch)
        } else if commit == u64::MAX {
            Some(Axis::Commit)
        } else {
            None
        };
        let bump = compact && (axis.is_none() || axis == Some(Axis::Commit));
        let epoch = if bump {
            epoch + 1
        } else {
            epoch
        };
        let first = if bump {
            next
        } else {
            first
        };
        let mut records: Vec<u8> = Vec::new();
        let mut sequence = next;
        let ghost empty_events: Seq<EventView> = Seq::empty();
        if bump {
            push_lines(&mut records, epoch, sequence, EventKind::Snapshot, snapshots);
            sequence = sequence + snapshots.len() as u64;
        } else {
            proof {
                assert(lines(epoch, next as nat, EventKind::Snapshot, empty_events) =~= Seq::empty());
                assert(records@ =~= lines(epoch, next as nat, EventKind::Snapshot, empty_events));
            }
        }
        let ghost after_snaps = records@;
        if axis != Some(Axis::Sequence) {
            push_lines(&mut records, epoch, sequence, EventKind::Transition, transitions);
            sequence = sequence + n as u64;
        } else {
            proof {
                assert(records@ =~= after_snaps + lines(epoch, sequence as nat, EventKind::Transition, empty_events));
            }
        }
        let ghost after_trans = records@;
        if let Some(a) = axis {
            let diagnostic = exhausted(a, observed);
            push_line(&mut records, epoch, sequence, EventKind::Transition, &diagnostic);
            sequence = sequence + 1;
        }
        let cursor = Cursor(epoch, sequence, first, commit);
        self.0 = if axis.is_none() {
            Some(cursor)
        } else {
            None
        };
        proof {
            let t = transaction(c, event_views(snapshots@), event_views(transitions@), compact);
            assert(axis == t.2);
            if axis is None {
                assert(records@ =~= after_trans);
            }
            assert(records@ =~= t.0);
        }
        Ok((records, cursor, axis))
    }
}


pub open spec fn status_text(status: SourceStatus) -> &'static str {
    match status {
        SourceStatus::Connected => "connected",
        SourceStatus::Exact => "exact",
        SourceStatus::Degraded => "degraded",
        SourceStatus::Disconnected => "disconnected",
    }
}

pub open spec fn reason_text(reason: SourceReason) -> &'static str {
    match reason {
        SourceReason::NoReason => "",
        SourceReason::HeartbeatTimeout => "heartbeat-timeout",
        SourceReason::TransportClosed => "transport-closed",
        SourceReason::Superseded => "superseded",
        SourceReason::SessionEnding => "session-ending",
    }
}

pub open spec fn missing_text(reason: MissingReason) -> &'static str {
    match reason {
        MissingReason::Deadline => "deadline",
        MissingReason::SourceLost => "source-lost",
        MissingReason::RetentionExpired => "retention-expired",
    }
}

/// The fields every semantic record leads with: its source, producer and
/// source epoch.
pub open spec fn semantic_head(source: Seq<u8>, producer: Seq<u8>, epoch: u32) -> Seq<u8> {
    ",\"source\":".spec_bytes() + quoted(source) + ",\"producer\":\"".spec_bytes() + spec_base64(producer)
        + "\",\"source_epoch\":".spec_bytes() + decimal_text(epoch as nat)
}

fn push_semantic_head(out: &mut Vec<u8>, source: &[u8], producer: &[u8; 16], epoch: u32)
    ensures
        final(out)@ == old(out)@ + semantic_head(source@, producer@, epoch),
{
    let mut head: Vec<u8> = Vec::new();
    push_str(&mut head, ",\"source\":");
    push_quoted(&mut head, source);
    push_str(&mut head, ",\"producer\":\"");
    let encoded = base64(producer.as_slice());
    crate::bytes::push_all(&mut head, encoded.as_slice());
    push_str(&mut head, "\",\"source_epoch\":");
    push_decimal(&mut head, epoch as u64);
    proof {
        assert(head@ =~= semantic_head(source@, producer@, epoch));
    }
    crate::bytes::push_all(out, head.as_slice());
}

/// The record of a source's status change.
pub fn semantic_source(ts: u64, effect: &SourceEffect) -> (r: Result<Event, EventError>)
    ensures
        !spec_utf8(effect.source@) ==> r == Err::<Event, EventError>(EventError::InvalidEvent),
        spec_utf8(effect.source@) ==> (r matches Ok(e) && e.0 == "semantic-source" && e.1 == ts
            && e.2@ == semantic_head(effect.source@, effect.producer@, effect.source_epoch)
            + ",\"status\":\"".spec_bytes() + status_text(effect.status).spec_bytes()
            + "\",\"reason\":\"".spec_bytes() + reason_text(effect.reason).spec_bytes() + "\"".spec_bytes()
            && (e.3 matches Some((class, source)) && class == 0 && source@ == effect.source@)),
{
    if !utf8(effect.source.as_slice()) {
        return Err(EventError::InvalidEvent);
    }
    let mut tail: Vec<u8> = Vec::new();
    push_semantic_head(&mut tail, effect.source.as_slice(), &effect.producer, effect.source_epoch);
    let ghost head = tail@;
    push_str(&mut tail, ",\"status\":\"");
    match effect.status {
        SourceStatus::Connected => push_str(&mut tail, "connected"),
        SourceStatus::Exact => push_str(&mut tail, "exact"),
        SourceStatus::Degraded => push_str(&mut tail, "degraded"),
        SourceStatus::Disconnected => push_str(&mut tail, "disconnected"),
    }
    push_str(&mut tail, "\",\"reason\":\"");
    match effect.reason {
        SourceReason::NoReason => push_str(&mut tail, ""),
        SourceReason::HeartbeatTimeout => push_str(&mut tail, "heartbeat-timeout"),
        SourceReason::TransportClosed => push_str(&mut tail, "transport-closed"),
        SourceReason::Superseded => push_str(&mut tail, "superseded"),
        SourceReason::SessionEnding => push_str(&mut tail, "session-ending"),
    }
    push_str(&mut tail, "\"");
    proof {
        assert(tail@ =~= semantic_head(effect.source@, effect.producer@, effect.source_epoch)
            + ",\"status\":\"".spec_bytes() + status_text(effect.status).spec_bytes()
            + "\",\"reason\":\"".spec_bytes() + reason_text(effect.reason).spec_bytes() + "\"".spec_bytes());
    }
    Ok(Event("semantic-source", ts, tail, Some((0, crate::bytes::to_vec(effect.source.as_slice())))))
}

/// The record of a written application input whose receipt did not come.
pub fn application_missing(ts: u64, effect: &SemanticEffect) -> (r: Result<Event, EventError>)
    ensures
        !spec_utf8(effect.source@) ==> r == Err::<Event, EventError>(EventError::InvalidEvent),
        spec_utf8(effect.source@) ==> (r matches Ok(e) && e.0 == "application-receipt-missing" && e.1 == ts
            && e.2@ == semantic_head(effect.source@, effect.producer@, effect.source_epoch)
            + ",\"application_request_id\":\"".spec_bytes() + spec_base64(effect.receipt.application_id@)
            + "\",\"lease_epoch\":".spec_bytes() + decimal_text(effect.receipt.lease_epoch as nat)
            + ",\"request_id\":\"".spec_bytes() + decimal_text(effect.receipt.request_id as nat)
            + "\",\"reason\":\"".spec_bytes() + missing_text(effect.reason).spec_bytes() + "\"".spec_bytes()
            && e.3 is None),
{
    if !utf8(effect.source.as_slice()) {
        return Err(EventError::InvalidEvent);
    }
    let mut tail: Vec<u8> = Vec::new();
    push_semantic_head(&mut tail, effect.source.as_slice(), &effect.producer, effect.source_epoch);
    push_str(&mut tail, ",\"application_request_id\":\"");
    let encoded = base64(effect.receipt.application_id.as_slice());
    crate::bytes::push_all(&mut tail, encoded.as_slice());
    push_str(&mut tail, "\",\"lease_epoch\":");
    push_decimal(&mut tail, effect.receipt.lease_epoch as u64);
    push_str(&mut tail, ",\"request_id\":\"");
    push_decimal(&mut tail, effect.receipt.request_id);
    push_str(&mut tail, "\",\"reason\":\"");
    match effect.reason {
        MissingReason::Deadline => push_str(&mut tail, "deadline"),
        MissingReason::SourceLost => push_str(&mut tail, "source-lost"),
        MissingReason::RetentionExpired => push_str(&mut tail, "retention-expired"),
    }
    push_str(&mut tail, "\"");
    proof {
        assert(tail@ =~= semantic_head(effect.source@, effect.producer@, effect.source_epoch)
            + ",\"application_request_id\":\"".spec_bytes() + spec_base64(effect.receipt.application_id@)
            + "\",\"lease_epoch\":".spec_bytes() + decimal_text(effect.receipt.lease_epoch as nat)
            + ",\"request_id\":\"".spec_bytes() + decimal_text(effect.receipt.request_id as nat)
            + "\",\"reason\":\"".spec_bytes() + missing_text(effect.reason).spec_bytes() + "\"".spec_bytes());
    }
    Ok(Event("application-receipt-missing", ts, tail, None))
}

/// The source of a change.
pub open spec fn change_source(c: SemanticChange) -> Seq<u8> {
    match c {
        SemanticChange::Source(e) => e.source@,
        SemanticChange::Missing(e) => e.source@,
    }
}

/// The records of source changes, in order; the first change whose source
/// is not UTF-8 refuses the whole batch.
pub fn semantic_changes(ts: u64, changes: Vec<SemanticChange>) -> (r: Result<Vec<Event>, EventError>)
    ensures
        (forall|i: int| 0 <= i < changes@.len() ==> spec_utf8(#[trigger] change_source(changes@[i])))
            <==> r is Ok,
        r is Err ==> r == Err::<Vec<Event>, EventError>(EventError::InvalidEvent),
        r matches Ok(events) ==> events@.len() == changes@.len() && forall|i: int| 0 <= i < changes@.len()
            ==> (#[trigger] events@[i]).1 == ts && (changes@[i] is Source <==> events@[i].0 == "semantic-source"),
{
    let mut events: Vec<Event> = Vec::new();
    let mut i: usize = 0;
    while i < changes.len()
        invariant
            i <= changes@.len(),
            events@.len() == i,
            forall|j: int| 0 <= j < i ==> spec_utf8(#[trigger] change_source(changes@[j])),
            forall|j: int| 0 <= j < i ==> (#[trigger] events@[j]).1 == ts && (changes@[j] is Source <==> events@[j].0
                == "semantic-source"),
        decreases changes@.len() - i,
    {
        let made = match &changes[i] {
            SemanticChange::Source(effect) => semantic_source(ts, effect),
            SemanticChange::Missing(effect) => application_missing(ts, effect),
        };
        match made {
            Ok(event) => {
                proof {
                    reveal_strlit("semantic-source");
                    reveal_strlit("application-receipt-missing");
                }
                events.push(event);
            },
            Err(e) => {
                proof {
                    assert(!spec_utf8(change_source(changes@[i as int])));
                }
                return Err(e);
            },
        }
        i = i + 1;
    }
    Ok(events)
}


impl Event {
    /// A copy of the event.
    pub fn duplicate(&self) -> (r: Event)
        ensures
            r.0 == self.0 && r.1 == self.1 && r.2@ == self.2@,
            match self.3 {
                Some((class, source)) => r.3 matches Some((c, s)) && c == class && s@ == source@,
                None => r.3 is None,
            },
    {
        let retention = match &self.3 {
            Some((class, source)) => Some((*class, crate::bytes::to_vec(source.as_slice()))),
            None => None,
        };
        Event(self.0, self.1, crate::bytes::to_vec(self.2.as_slice()), retention)
    }

    /// The retention class and source of an event that a compaction keeps.
    pub fn retention(&self) -> (r: Option<(usize, &[u8])>)
        ensures
            match self.3 {
                Some((class, source)) => r matches Some((c, s)) && c == class && s@ == source@,
                None => r is None,
            },
    {
        match &self.3 {
            Some((class, source)) => Some((*class, source.as_slice())),
            None => None,
        }
    }
}

/// The header line of a stored event body: the stream's creation time,
/// the session, its generation (null when absent), and the cursor's epoch,
/// next sequence and first retained sequence.
pub open spec fn header_text(created: u64, session: Seq<u8>, generation: Option<u32>, c: Cursor) -> Seq<u8> {
    "{\"v\":2,\"type\":\"header\",\"ts\":".spec_bytes() + timestamp_text(created)
        + ",\"session\":".spec_bytes() + quoted(session) + ",\"generation\":".spec_bytes() + match generation {
        Some(g) => decimal_text(g as nat),
        None => "null".spec_bytes(),
    } + ",\"epoch\":".spec_bytes() + decimal_text(c.0 as nat) + ",\"next_seq\":".spec_bytes() + decimal_text(
        c.1 as nat,
    ) + ",\"first_retained\":".spec_bytes() + decimal_text(c.2 as nat) + "}\n".spec_bytes()
}

pub fn canonical_header(created: u64, session: &str, generation: Option<u32>, c: Cursor) -> (r: Vec<u8>)
    ensures
        r@ == header_text(created, session.spec_bytes(), generation, c),
{
    let mut out: Vec<u8> = Vec::new();
    push_header(&mut out, created, session.as_bytes(), generation, c);
    out
}

/// Appends the header line for a session given as bytes.
pub fn push_header(out: &mut Vec<u8>, created: u64, session: &[u8], generation: Option<u32>, c: Cursor)
    ensures
        final(out)@ == old(out)@ + header_text(created, session@, generation, c),
{
    let mut line: Vec<u8> = Vec::new();
    push_str(&mut line, "{\"v\":2,\"type\":\"header\",\"ts\":");
    push_timestamp(&mut line, created);
    push_str(&mut line, ",\"session\":");
    push_quoted(&mut line, session);
    push_str(&mut line, ",\"generation\":");
    match generation {
        Some(g) => push_decimal(&mut line, g as u64),
        None => push_str(&mut line, "null"),
    }
    push_str(&mut line, ",\"epoch\":");
    push_decimal(&mut line, c.0 as u64);
    push_str(&mut line, ",\"next_seq\":");
    push_decimal(&mut line, c.1);
    push_str(&mut line, ",\"first_retained\":");
    push_decimal(&mut line, c.2);
    push_str(&mut line, "}\n");
    proof {
        assert(line@ =~= header_text(created, session@, generation, c));
    }
    crate::bytes::push_all(out, line.as_slice());
}

/// The fields of a semantic assertion after its head: the source sequence,
/// the event id, whether it asserts a snapshot, and the payload.
pub open spec fn assertion_tail(event: SemanticEvent) -> Seq<u8> {
    ",\"source_seq\":\"".spec_bytes() + decimal_text(event.sequence as nat) + "\",\"event_id\":\"".spec_bytes()
        + spec_base64(event.id@) + "\",\"assertion_kind\":\"".spec_bytes() + (if event.kind
        == SemanticEventKind::Snapshot {
        "snapshot".spec_bytes()
    } else {
        "transition".spec_bytes()
    }) + "\",\"payload\":\"".spec_bytes() + spec_base64(event.exact_payload@) + "\"".spec_bytes()
}

/// The record of a semantic event a producer asserted; `object` says whether
/// its payload is a bounded JSON object. A payload above 32768 bytes, one that
/// is not such an object, or a source that is not UTF-8 is refused. A
/// snapshot is kept by compaction under its source.
#[verifier::spinoff_prover]
pub fn semantic_assertion(
    ts: u64,
    source: &[u8],
    producer: [u8; 16],
    source_epoch: u32,
    event: &SemanticEvent,
    object: bool,
) -> (r: Result<Event, EventError>)
    ensures
        !(event.exact_payload@.len() <= 32768 && object && spec_utf8(source@)) ==> r == Err::<
            Event,
            EventError,
        >(EventError::InvalidEvent),
        event.exact_payload@.len() <= 32768 && object && spec_utf8(source@) ==> (r matches Ok(e)
            && e.0 == "semantic-assertion" && e.1 == ts && e.2@ == semantic_head(
            source@,
            producer@,
            source_epoch,
        ) + assertion_tail(*event) && if event.kind == SemanticEventKind::Snapshot {
            e.3 matches Some((class, s)) && class == 1 && s@ == source@
        } else {
            e.3 is None
        }),
{
    if !(event.exact_payload.len() <= 32768 && object) || !utf8(source) {
        return Err(EventError::InvalidEvent);
    }
    let snapshot = match event.kind {
        SemanticEventKind::Snapshot => true,
        _ => false,
    };
    let mut tail: Vec<u8> = Vec::new();
    push_semantic_head(&mut tail, source, &producer, source_epoch);
    let ghost head = tail@;
    push_str(&mut tail, ",\"source_seq\":\"");
    push_decimal(&mut tail, event.sequence);
    push_str(&mut tail, "\",\"event_id\":\"");
    let id = base64(event.id.as_slice());
    crate::bytes::push_all(&mut tail, id.as_slice());
    push_str(&mut tail, "\",\"assertion_kind\":\"");
    if snapshot {
        push_str(&mut tail, "snapshot");
    } else {
        push_str(&mut tail, "transition");
    }
    push_str(&mut tail, "\",\"payload\":\"");
    let payload = base64(event.exact_payload.as_slice());
    crate::bytes::push_all(&mut tail, payload.as_slice());
    push_str(&mut tail, "\"");
    proof {
        assert(tail@ =~= head + assertion_tail(*event));
    }
    let retention = if snapshot {
        Some((1usize, crate::bytes::to_vec(source)))
    } else {
        None
    };
    Ok(Event("semantic-assertion", ts, tail, retention))
}

/// The provider session and turn a receipt projects out of its payload,
/// when both ranges lie within it.
pub open spec fn providers(payload: Seq<u8>, p: ReceiptProjection) -> Option<(Seq<u8>, Seq<u8>)> {
    let (a, b) = p.provider_session;
    let (c, d) = p.provider_turn;
    if a <= b <= payload.len() && c <= d <= payload.len() {
        Some((payload.subrange(a as int, b as int), payload.subrange(c as int, d as int)))
    } else {
        None
    }
}

/// The fields of an application receipt after its head.
pub open spec fn receipt_tail(event: SemanticEvent, p: ReceiptProjection, session: Seq<u8>, turn: Seq<u8>) -> Seq<u8> {
    ",\"source_seq\":\"".spec_bytes() + decimal_text(event.sequence as nat) + "\",\"event_id\":\"".spec_bytes()
        + spec_base64(event.id@) + "\",\"application_request_id\":\"".spec_bytes() + spec_base64(
        p.receipt.application_id@,
    ) + "\",\"lease_epoch\":".spec_bytes() + decimal_text(p.receipt.lease_epoch as nat)
        + ",\"request_id\":\"".spec_bytes() + decimal_text(p.receipt.request_id as nat)
        + "\",\"status\":\"".spec_bytes() + (if p.status == 0 {
        "accepted".spec_bytes()
    } else {
        "refused".spec_bytes()
    }) + "\",\"provider_session\":\"".spec_bytes() + spec_base64(session)
        + "\",\"provider_turn\":\"".spec_bytes() + spec_base64(turn) + "\"".spec_bytes()
}

fn push_receipt_tail(
    out: &mut Vec<u8>,
    semantic: &SemanticEvent,
    projection: &ReceiptProjection,
    session: &[u8],
    turn: &[u8],
)
    requires
        session@.len() <= 4096,
        turn@.len() <= 4096,
    ensures
        final(out)@ == old(out)@ + receipt_tail(*semantic, *projection, session@, turn@),
{
    let mut tail: Vec<u8> = Vec::new();
    push_str(&mut tail, ",\"source_seq\":\"");
    push_decimal(&mut tail, semantic.sequence);
    push_str(&mut tail, "\",\"event_id\":\"");
    let id = base64(semantic.id.as_slice());
    crate::bytes::push_all(&mut tail, id.as_slice());
    push_str(&mut tail, "\",\"application_request_id\":\"");
    let application = base64(projection.receipt.application_id.as_slice());
    crate::bytes::push_all(&mut tail, application.as_slice());
    push_str(&mut tail, "\",\"lease_epoch\":");
    push_decimal(&mut tail, projection.receipt.lease_epoch as u64);
    push_str(&mut tail, ",\"request_id\":\"");
    push_decimal(&mut tail, projection.receipt.request_id);
    push_str(&mut tail, "\",\"status\":\"");
    if projection.status == 0 {
        push_str(&mut tail, "accepted");
    } else {
        push_str(&mut tail, "refused");
    }
    push_str(&mut tail, "\",\"provider_session\":\"");
    let session_text = base64(session);
    crate::bytes::push_all(&mut tail, session_text.as_slice());
    push_str(&mut tail, "\",\"provider_turn\":\"");
    let turn_text = base64(turn);
    crate::bytes::push_all(&mut tail, turn_text.as_slice());
    push_str(&mut tail, "\"");
    proof {
        assert(tail@ =~= receipt_tail(*semantic, *projection, session@, turn@));
    }
    crate::bytes::push_all(out, tail.as_slice());
}

/// The record of a producer's receipt for an application input: the
/// provider ranges must lie within the payload and hold at most 4096 bytes
/// each, the status must be 0 or 1 and the source UTF-8.
pub fn application_receipt(
    ts: u64,
    source: &[u8],
    producer: [u8; 16],
    epoch: u32,
    semantic: &SemanticEvent,
    projection: &ReceiptProjection,
) -> (r: Result<Event, EventError>)
    ensures
        match providers(semantic.exact_payload@, *projection) {
            Some((session, turn)) => if projection.status <= 1 && session.len() <= 4096 && turn.len()
                <= 4096 && spec_utf8(source@) {
                r matches Ok(e) && e.0 == "application-receipt" && e.1 == ts && e.3 is None && e.2@
                    == semantic_head(source@, producer@, epoch) + receipt_tail(
                    *semantic,
                    *projection,
                    session,
                    turn,
                )
            } else {
                r == Err::<Event, EventError>(EventError::InvalidEvent)
            },
            None => r == Err::<Event, EventError>(EventError::InvalidEvent),
        },
{
    let payload = semantic.exact_payload.as_slice();
    let (a, b) = projection.provider_session;
    let (c, d) = projection.provider_turn;
    if !(a <= b && b <= payload.len() && c <= d && d <= payload.len()) {
        return Err(EventError::InvalidEvent);
    }
    let session = &payload[a..b];
    let turn = &payload[c..d];
    if !(projection.status <= 1 && session.len() <= 4096 && turn.len() <= 4096) || !utf8(source) {
        return Err(EventError::InvalidEvent);
    }
    let mut tail: Vec<u8> = Vec::new();
    push_semantic_head(&mut tail, source, &producer, epoch);
    push_receipt_tail(&mut tail, semantic, projection, session, turn);
    Ok(Event("application-receipt", ts, tail, None))
}

} // verus!
