//! The viewer's side of an attachment: the order in which a holder's status,
//! terminal state, replayed and live output, receipts, queries and lease
//! results may arrive, and the delegated query replies found in keyboard
//! input.
use crate::bytes::{read_u16, read_u64, u16_le, u64_le};
use crate::session::LeaseResult;
use crate::wire::status::spec_decode_status;
use crate::wire::text::{
    recognize_query, spec_recognize_query, spec_validate_query_reply, validate_query_reply,
    QueryShape,
};
use crate::wire::{
    decode_query, spec_read_query, InputReceipt, Message, Query, ReplayDescriptor, StatusTail,
    WireError,
};
use vstd::prelude::*;

verus! {

/// What a viewer received from the holder it is attached to.
#[derive(Debug)]
pub enum ViewerEvent<'a> {
    Terminal(&'a [u8]),
    Output(u64, bool, &'a [u8]),
    Receipt(InputReceipt),
    Lease(LeaseResult),
}

/// The viewer's record of an attachment: whether the child is not a VT,
/// whether terminal state arrived, the announced replay window, the next
/// output to apply and the next to receive (sequence and offset), the lease
/// epoch it holds, the queries delegated to it and the partial reply it is
/// reading from the keyboard.
#[derive(Debug)]
pub struct ViewerStream {
    pub non_vt: bool,
    pub terminal: bool,
    pub replay: Option<ReplayDescriptor>,
    pub next: Option<(u64, u64)>,
    pub received: Option<(u64, u64)>,
    pub lease_epoch: Option<u32>,
    pub queries: Vec<(Query, QueryShape)>,
    pub probe: Vec<u8>,
}

impl Default for ViewerStream {
    fn default() -> (r: Self)
        ensures
            !r.non_vt && !r.terminal && r.replay is None && r.next is None && r.received is None
                && r.lease_epoch is None && r.queries@.len() == 0 && r.probe@.len() == 0,
    {
        ViewerStream {
            non_vt: false,
            terminal: false,
            replay: None,
            next: None,
            received: None,
            lease_epoch: None,
            queries: Vec::new(),
            probe: Vec::new(),
        }
    }
}

/// The part of a viewer's record that the holder's messages move.
pub struct ViewerCursor {
    pub terminal: bool,
    pub replay: Option<ReplayDescriptor>,
    pub next: Option<(u64, u64)>,
    pub received: Option<(u64, u64)>,
}

impl ViewerStream {
    pub open spec fn cursor(&self) -> ViewerCursor {
        ViewerCursor {
            terminal: self.terminal,
            replay: self.replay,
            next: self.next,
            received: self.received,
        }
    }
}

/// What one message gives the viewer: nothing, terminal state, an output
/// record, a receipt, a lease result, or a query to answer.
pub enum ViewerOut {
    Nothing,
    Terminal(Seq<u8>),
    Output(u64, bool, Seq<u8>),
    Receipt,
    Lease,
    Query(u64, u32, u8, Seq<u8>, QueryShape),
}

pub open spec fn after_last(last: u64) -> u64 {
    if last == u64::MAX {
        last
    } else {
        (last + 1) as u64
    }
}

/// A window announced after output was already applied must agree with the
/// position the viewer reached: at its end when it is empty, else within it
/// and at a record boundary of it.
pub open spec fn replay_consistent(next: Option<(u64, u64)>, replay: ReplayDescriptor) -> bool {
    match next {
        None => true,
        Some((sequence, offset)) => if replay.first == 0 {
            offset == replay.end
        } else {
            replay.first <= sequence <= after_last(replay.last) && (sequence != replay.first
                || offset == replay.start) && (sequence != after_last(replay.last) || offset
                == replay.end)
        },
    }
}

/// The status descriptor comes first, once; it fixes the window and where
/// receiving starts, and where applying starts if nothing was applied yet
/// and the window begins at the first record.
pub open spec fn after_status(c: ViewerCursor, replay: ReplayDescriptor) -> Option<ViewerCursor> {
    if c.replay is Some || c.received is Some || c.terminal || !replay_consistent(c.next, replay) {
        None
    } else {
        let start = if replay.first == 0 {
            replay.end
        } else {
            replay.start
        };
        Some(
            ViewerCursor {
                terminal: false,
                replay: Some(replay),
                next: if c.next is None && replay.first <= 1 {
                    Some((1u64, start))
                } else {
                    c.next
                },
                received: Some(
                    if replay.first == 0 {
                        (1u64, replay.end)
                    } else {
                        (replay.first, replay.start)
                    },
                ),
            },
        )
    }
}

/// An output record of `length` bytes at `sequence` and `offset`: after
/// terminal state, 1 to 65536 bytes, exactly where receiving stands, either
/// inside the window on its record boundaries or live beyond it; it is
/// applied when it is the next to apply and skipped when it ends before
/// that. Whether it was applied comes back with the new cursor.
pub open spec fn after_output(c: ViewerCursor, sequence: u64, offset: u64, length: nat) -> Option<
    (ViewerCursor, bool),
> {
    if !c.terminal || !(1 <= length <= 65536) || offset + length > u64::MAX {
        None
    } else {
        match (c.replay, c.next, c.received) {
            (Some(r), Some((e, eo)), Some((rs, ro))) => {
                let end = offset + length;
                let apply = sequence >= e;
                let baseline = r.first <= sequence <= r.last && offset >= r.start && end <= r.end
                    && (sequence != r.first || offset == r.start) && (sequence != r.last || end
                    == r.end);
                let live = apply && sequence > r.last && offset >= r.end;
                let contiguous = sequence == rs && offset == ro;
                let applicable = if apply {
                    sequence == e && offset == eo
                } else {
                    sequence < e && end <= eo
                };
                if (baseline || live) && contiguous && applicable {
                    let following = if sequence < u64::MAX {
                        Some(((sequence + 1) as u64, end as u64))
                    } else {
                        None
                    };
                    Some(
                        (
                            ViewerCursor {
                                received: following,
                                next: if apply {
                                    following
                                } else {
                                    c.next
                                },
                                ..c
                            },
                            apply,
                        ),
                    )
                } else {
                    None
                }
            },
            _ => None,
        }
    }
}

/// A gap notice: after terminal state, naming the records from the first
/// up to just before the window as lost, while applying has not passed the
/// window's start; applying then starts at the window if it had not begun.
pub open spec fn after_gap(c: ViewerCursor, first: u64, last: u64) -> Option<ViewerCursor> {
    match c.replay {
        None => None,
        Some(r) => if c.terminal && first == 1 && r.first >= 1 && r.first - 1 == last && match c.next {
            None => true,
            Some((sequence, _)) => sequence >= r.first,
        } {
            Some(
                ViewerCursor {
                    next: if c.next is None {
                        Some((r.first, r.start))
                    } else {
                        c.next
                    },
                    ..c
                },
            )
        } else {
            None
        },
    }
}

/// What a message of `kind` does to a viewer at cursor `c`, holding lease
/// `lease_epoch`, expecting the holder `expected`; every refusal is
/// malformed except what decoding the status descriptor reports. Unknown
/// kinds are ignored.
pub open spec fn spec_viewer(
    c: ViewerCursor,
    non_vt: bool,
    lease_epoch: Option<u32>,
    kind: u8,
    s: Seq<u8>,
    expected: (Seq<u8>, u32, Seq<u8>),
) -> Result<(ViewerCursor, ViewerOut), WireError> {
    let malformed = Err::<(ViewerCursor, ViewerOut), WireError>(WireError::Malformed);
    if kind == 4 {
        match spec_decode_status(s, expected.0, expected.1, expected.2) {
            Err(e) => Err(e),
            Ok(tail) => match after_status(c, tail.replay) {
                Some(n) => Ok((n, ViewerOut::Nothing)),
                None => malformed,
            },
        }
    } else if kind == 5 {
        if s.len() < 2 {
            malformed
        } else {
            let bytes = s.subrange(2, s.len() as int);
            if !c.terminal && c.replay is Some && bytes.len() == u16_le(s.subrange(0, 2))
                && bytes.len() <= 4096 && (!non_vt || bytes.len() == 0) {
                Ok((ViewerCursor { terminal: true, ..c }, ViewerOut::Terminal(bytes)))
            } else {
                malformed
            }
        }
    } else if kind == 6 {
        if s.len() < 16 {
            malformed
        } else {
            let sequence = u64_le(s.subrange(0, 8));
            let bytes = s.subrange(16, s.len() as int);
            match after_output(c, sequence, u64_le(s.subrange(8, 16)), bytes.len()) {
                Some((n, apply)) => Ok((n, ViewerOut::Output(sequence, apply, bytes))),
                None => malformed,
            }
        }
    } else if kind == 8 {
        if s.len() != 16 {
            malformed
        } else {
            match after_gap(c, u64_le(s.subrange(0, 8)), u64_le(s.subrange(8, 16))) {
                Some(n) => Ok((n, ViewerOut::Nothing)),
                None => malformed,
            }
        }
    } else if kind == 10 {
        if (c.replay is None || c.terminal) && s.len() == 43 && exists|x: InputReceipt|
            x.layout() == s && #[trigger] x.valid() {
            Ok((c, ViewerOut::Receipt))
        } else {
            malformed
        }
    } else if kind == 0x14 {
        if !(c.replay is None || c.terminal) {
            malformed
        } else {
            match spec_read_query(s) {
                Some(q) => if q.4 == s.len() {
                    match spec_recognize_query(q.3) {
                        Some(shape) => if q.2 == shape.class && lease_epoch == Some(q.1) {
                            Ok((c, ViewerOut::Query(q.0, q.1, q.2, q.3, shape)))
                        } else {
                            malformed
                        },
                        None => malformed,
                    }
                } else {
                    malformed
                },
                None => malformed,
            }
        }
    } else if kind == 0x16 {
        if c.replay is Some && c.terminal && exists|x: LeaseResult|
            x.layout() == s && #[trigger] x.valid_wire() {
            Ok((c, ViewerOut::Lease))
        } else {
            malformed
        }
    } else {
        Ok((c, ViewerOut::Nothing))
    }
}

/// The event a message gives back for what `spec_viewer` says it gives.
pub open spec fn viewer_event(out: ViewerOut, s: Seq<u8>, event: Option<ViewerEvent>) -> bool {
    match out {
        ViewerOut::Terminal(bytes) => event matches Some(ViewerEvent::Terminal(b)) && b@ == bytes,
        ViewerOut::Output(sequence, apply, bytes) => event matches Some(
            ViewerEvent::Output(q, a, b),
        ) && q == sequence && a == apply && b@ == bytes,
        ViewerOut::Receipt => event matches Some(ViewerEvent::Receipt(x)) && x.layout() == s
            && x.valid(),
        ViewerOut::Lease => event matches Some(ViewerEvent::Lease(x)) && x.layout() == s
            && x.valid_wire(),
        _ => event is None,
    }
}

/// The queries after a message: one more at the end when it delegated one.
pub open spec fn queries_after(
    out: ViewerOut,
    before: Seq<(Query, QueryShape)>,
    after: Seq<(Query, QueryShape)>,
) -> bool {
    match out {
        ViewerOut::Query(correlation, epoch, class, bytes, shape) => {
            &&& after.len() == before.len() + 1
            &&& after.subrange(0, before.len() as int) == before
            &&& after.last().0.correlation == correlation
            &&& after.last().0.epoch == epoch
            &&& after.last().0.class == class
            &&& after.last().0.bytes@ == bytes
            &&& after.last().1 == shape
        },
        _ => after == before,
    }
}

/// What reading one message does: the result and the viewer's record after
/// it, as `spec_viewer` says; a refused message leaves the record as it was.
pub open spec fn viewer_stepped<'a>(
    before: ViewerStream,
    after: ViewerStream,
    kind: u8,
    s: Seq<u8>,
    expected: (Seq<u8>, u32, Seq<u8>),
    r: Result<Option<ViewerEvent<'a>>, WireError>,
) -> bool {
    match spec_viewer(before.cursor(), before.non_vt, before.lease_epoch, kind, s, expected) {
        Err(e) => r == Err::<Option<ViewerEvent<'a>>, WireError>(e) && after == before,
        Ok((c, out)) => {
            &&& r matches Ok(event)
            &&& viewer_event(out, s, event)
            &&& after.cursor() == c
            &&& after.non_vt == before.non_vt
            &&& after.lease_epoch == before.lease_epoch
            &&& after.probe == before.probe
            &&& queries_after(out, before.queries@, after.queries@)
        },
    }
}

fn viewer_status<'a>(stream: &mut ViewerStream, s: &'a [u8], expected: (&[u8], u32, [u8; 16])) -> (r:
    Result<Option<ViewerEvent<'a>>, WireError>)
    ensures
        viewer_stepped(*old(stream), *final(stream), 4, s@, (expected.0@, expected.1, expected.2@), r),
{
    let tail = StatusTail::decode_for(s, expected.0, expected.1, expected.2)?;
    let replay = tail.replay;
    let consistent = match stream.next {
        None => true,
        Some((sequence, offset)) => if replay.first == 0 {
            offset == replay.end
        } else {
            let following = if replay.last == u64::MAX {
                replay.last
            } else {
                replay.last + 1
            };
            replay.first <= sequence && sequence <= following && (sequence != replay.first
                || offset == replay.start) && (sequence != following || offset == replay.end)
        },
    };
    if stream.replay.is_some() || stream.received.is_some() || stream.terminal || !consistent {
        return Err(WireError::Malformed);
    }
    if stream.next.is_none() && replay.first <= 1 {
        stream.next = Some(
            (
                1,
                if replay.first == 0 {
                    replay.end
                } else {
                    replay.start
                },
            ),
        );
    }
    stream.received = Some(
        if replay.first == 0 {
            (1, replay.end)
        } else {
            (replay.first, replay.start)
        },
    );
    stream.replay = Some(replay);
    Ok(None)
}

fn viewer_terminal<'a>(stream: &mut ViewerStream, s: &'a [u8], Ghost(expected): Ghost<(Seq<u8>, u32, Seq<u8>)>) -> (r:
    Result<Option<ViewerEvent<'a>>, WireError>)
    ensures
        viewer_stepped(*old(stream), *final(stream), 5, s@, expected, r),
{
    if s.len() < 2 {
        return Err(WireError::Malformed);
    }
    let length = read_u16(s, 0) as usize;
    let bytes = &s[2..s.len()];
    if !(!stream.terminal && stream.replay.is_some() && bytes.len() == length && length <= 4096
        && (!stream.non_vt || bytes.len() == 0)) {
        return Err(WireError::Malformed);
    }
    stream.terminal = true;
    Ok(Some(ViewerEvent::Terminal(bytes)))
}

fn viewer_output<'a>(stream: &mut ViewerStream, s: &'a [u8], Ghost(expected): Ghost<(Seq<u8>, u32, Seq<u8>)>) -> (r:
    Result<Option<ViewerEvent<'a>>, WireError>)
    ensures
        viewer_stepped(*old(stream), *final(stream), 6, s@, expected, r),
{
    if s.len() < 16 {
        return Err(WireError::Malformed);
    }
    let sequence = read_u64(s, 0);
    let offset = read_u64(s, 8);
    let bytes = &s[16..s.len()];
    let length = bytes.len();
    if !stream.terminal || length < 1 || length > 65536 || offset > u64::MAX - length as u64 {
        return Err(WireError::Malformed);
    }
    let end = offset + length as u64;
    let (r, (e, eo), (rs, ro)) = match (stream.replay, stream.next, stream.received) {
        (Some(r), Some(n), Some(v)) => (r, n, v),
        _ => {
            return Err(WireError::Malformed);
        },
    };
    let apply = sequence >= e;
    let baseline = r.first <= sequence && sequence <= r.last && offset >= r.start && end <= r.end
        && (sequence != r.first || offset == r.start) && (sequence != r.last || end == r.end);
    let live = apply && sequence > r.last && offset >= r.end;
    let contiguous = sequence == rs && offset == ro;
    let applicable = if apply {
        sequence == e && offset == eo
    } else {
        sequence < e && end <= eo
    };
    if !((baseline || live) && contiguous && applicable) {
        return Err(WireError::Malformed);
    }
    let following = if sequence < u64::MAX {
        Some((sequence + 1, end))
    } else {
        None
    };
    stream.received = following;
    if apply {
        stream.next = following;
    }
    Ok(Some(ViewerEvent::Output(sequence, apply, bytes)))
}

fn viewer_gap<'a>(stream: &mut ViewerStream, s: &'a [u8], Ghost(expected): Ghost<(Seq<u8>, u32, Seq<u8>)>) -> (r:
    Result<Option<ViewerEvent<'a>>, WireError>)
    ensures
        viewer_stepped(*old(stream), *final(stream), 8, s@, expected, r),
{
    if s.len() != 16 {
        return Err(WireError::Malformed);
    }
    let first = read_u64(s, 0);
    let last = read_u64(s, 8);
    let r = match stream.replay {
        Some(r) => r,
        None => {
            return Err(WireError::Malformed);
        },
    };
    let reached = match stream.next {
        None => true,
        Some((sequence, _)) => sequence >= r.first,
    };
    if !(stream.terminal && first == 1 && r.first >= 1 && r.first - 1 == last && reached) {
        return Err(WireError::Malformed);
    }
    if stream.next.is_none() {
        stream.next = Some((r.first, r.start));
    }
    Ok(None)
}

fn viewer_query<'a>(stream: &mut ViewerStream, s: &'a [u8], Ghost(expected): Ghost<(Seq<u8>, u32, Seq<u8>)>) -> (r:
    Result<Option<ViewerEvent<'a>>, WireError>)
    ensures
        viewer_stepped(*old(stream), *final(stream), 0x14, s@, expected, r),
{
    if !(stream.replay.is_none() || stream.terminal) {
        return Err(WireError::Malformed);
    }
    let query = decode_query(s)?;
    let shape = match recognize_query(query.bytes.as_slice()) {
        Some(shape) => shape,
        None => {
            return Err(WireError::Malformed);
        },
    };
    let held = match stream.lease_epoch {
        Some(epoch) => epoch == query.epoch,
        None => false,
    };
    if !(query.class == shape.class && held) {
        return Err(WireError::Malformed);
    }
    stream.queries.push((query, shape));
    assert(stream.queries@.subrange(0, old(stream).queries@.len() as int) =~= old(stream).queries@);
    Ok(None)
}

/// Reads one message from the holder the viewer is attached to, expecting
/// the holder `expected` (identity, generation, incarnation).
pub fn decode_viewer<'a>(
    stream: &mut ViewerStream,
    message: &'a Message,
    expected: (&[u8], u32, [u8; 16]),
) -> (r: Result<Option<ViewerEvent<'a>>, WireError>)
    ensures
        viewer_stepped(
            *old(stream),
            *final(stream),
            message.kind,
            message.payload@,
            (expected.0@, expected.1, expected.2@),
            r,
        ),
{
    let s = message.payload.as_slice();
    let kind = message.kind;
    let ghost wanted = (expected.0@, expected.1, expected.2@);
    if kind == 4 {
        viewer_status(stream, s, expected)
    } else if kind == 5 {
        viewer_terminal(stream, s, Ghost(wanted))
    } else if kind == 6 {
        viewer_output(stream, s, Ghost(wanted))
    } else if kind == 8 {
        viewer_gap(stream, s, Ghost(wanted))
    } else if kind == 10 {
        if !(stream.replay.is_none() || stream.terminal) {
            return Err(WireError::Malformed);
        }
        let receipt = InputReceipt::decode(s)?;
        Ok(Some(ViewerEvent::Receipt(receipt)))
    } else if kind == 0x14 {
        viewer_query(stream, s, Ghost(wanted))
    } else if kind == 0x16 {
        if !(stream.replay.is_some() && stream.terminal) {
            return Err(WireError::Malformed);
        }
        let result = LeaseResult::decode_wire(s)?;
        Ok(Some(ViewerEvent::Lease(result)))
    } else {
        Ok(None)
    }
}

/// Whether the bytes end with a string terminator, 7-bit or 8-bit.
pub open spec fn ends_with_st(s: Seq<u8>) -> bool {
    (s.len() >= 2 && s[s.len() - 2] == 0x1b && s[s.len() - 1] == 0x5c) || (s.len() >= 1 && s[s.len()
        - 1] == 0x9c)
}

/// How far the keyboard bytes `s` read as a reply: 1 complete, 0 still open,
/// -1 not a reply. A device control string completes at its terminator and
/// stays open up to 256 bytes; a control sequence completes at a final byte
/// and stays open through parameter and intermediate bytes up to 256 bytes;
/// a lone escape is open.
pub open spec fn spec_reply_state(s: Seq<u8>) -> i8 {
    if s.len() == 1 && s[0] == 0x1b {
        0
    } else if (s.len() >= 2 && s[0] == 0x1b && s[1] == 0x50) || (s.len() >= 1 && s[0] == 0x90) {
        if ends_with_st(s) {
            1i8
        } else if s.len() <= 256 {
            0i8
        } else {
            -1i8
        }
    } else if (s.len() >= 2 && s[0] == 0x1b && s[1] == 0x5b) || (s.len() >= 1 && s[0] == 0x9b) {
        let body = if s[0] == 0x9b {
            s.len() - 1
        } else {
            s.len() - 2
        };
        if body > 0 && 0x40 <= s[s.len() - 1] <= 0x7e {
            1i8
        } else if (body == 0 || 0x20 <= s[s.len() - 1] <= 0x3f) && s.len() <= 256 {
            0i8
        } else {
            -1i8
        }
    } else {
        -1i8
    }
}

pub fn reply_state(s: &[u8]) -> (r: i8)
    ensures
        r == spec_reply_state(s@),
{
    let n = s.len();
    if n == 1 && s[0] == 0x1b {
        0
    } else if (n >= 2 && s[0] == 0x1b && s[1] == 0x50) || (n >= 1 && s[0] == 0x90) {
        if (n >= 2 && s[n - 2] == 0x1b && s[n - 1] == 0x5c) || (n >= 1 && s[n - 1] == 0x9c) {
            1
        } else if n <= 256 {
            0
        } else {
            -1
        }
    } else if (n >= 2 && s[0] == 0x1b && s[1] == 0x5b) || (n >= 1 && s[0] == 0x9b) {
        let body = if s[0] == 0x9b {
            n - 1
        } else {
            n - 2
        };
        if body > 0 && 0x40 <= s[n - 1] && s[n - 1] <= 0x7e {
            1
        } else if (body == 0 || (0x20 <= s[n - 1] && s[n - 1] <= 0x3f)) && n <= 256 {
            0
        } else {
            -1
        }
    } else {
        -1
    }
}

/// The first delegated query, from `i` on, that `reply` answers.
pub open spec fn match_from(queries: Seq<(Query, QueryShape)>, reply: Seq<u8>, i: int) -> Option<int>
    decreases queries.len() - i,
{
    if i < 0 || i >= queries.len() {
        None
    } else if spec_validate_query_reply(queries[i].1, reply) {
        Some(i)
    } else {
        match_from(queries, reply, i + 1)
    }
}

/// Where reading keyboard input stands: the queries still delegated, the
/// partial reply, the ordinary input passed on and the replies found (each
/// the query's correlation, epoch and class with the reply's bytes).
pub struct InputState {
    pub queries: Seq<(Query, QueryShape)>,
    pub probe: Seq<u8>,
    pub ordinary: Seq<u8>,
    pub replies: Seq<(u64, u32, u8, Seq<u8>)>,
}

/// One keyboard byte. With no partial reply, a byte passes on unless a
/// query is delegated and the byte can open a reply. Otherwise it joins the
/// partial reply: a complete reply answers the first query it fits, or
/// passes on if it fits none; a sequence that is not a reply passes on.
pub open spec fn input_step(st: InputState, byte: u8) -> InputState {
    if st.probe.len() == 0 && (st.queries.len() == 0 || !(byte == 0x1b || byte == 0x90 || byte
        == 0x9b)) {
        InputState { ordinary: st.ordinary.push(byte), ..st }
    } else {
        let probe = st.probe.push(byte);
        let state = spec_reply_state(probe);
        if state == 1 {
            match match_from(st.queries, probe, 0) {
                Some(i) => InputState {
                    queries: st.queries.remove(i),
                    probe: Seq::empty(),
                    ordinary: st.ordinary,
                    replies: st.replies.push(
                        (st.queries[i].0.correlation, st.queries[i].0.epoch, st.queries[i].0.class, probe),
                    ),
                },
                None => InputState { probe: Seq::empty(), ordinary: st.ordinary + probe, ..st },
            }
        } else if state == -1 {
            InputState { probe: Seq::empty(), ordinary: st.ordinary + probe, ..st }
        } else {
            InputState { probe, ..st }
        }
    }
}

pub open spec fn input_fold(st: InputState, bytes: Seq<u8>) -> InputState
    decreases bytes.len(),
{
    if bytes.len() == 0 {
        st
    } else {
        input_step(input_fold(st, bytes.drop_last()), bytes.last())
    }
}

/// Reading starts from the delegated queries and the partial reply; with no
/// query delegated, a partial reply left over passes on first.
pub open spec fn input_start(queries: Seq<(Query, QueryShape)>, probe: Seq<u8>) -> InputState {
    if queries.len() == 0 {
        InputState { queries, probe: Seq::empty(), ordinary: probe, replies: Seq::empty() }
    } else {
        InputState { queries, probe, ordinary: Seq::empty(), replies: Seq::empty() }
    }
}

proof fn lemma_match_from(queries: Seq<(Query, QueryShape)>, reply: Seq<u8>, i: int)
    ensures
        match_from(queries, reply, i) matches Some(k) ==> i <= k < queries.len()
            && spec_validate_query_reply(queries[k].1, reply),
    decreases queries.len() - i,
{
    if 0 <= i < queries.len() && !spec_validate_query_reply(queries[i].1, reply) {
        lemma_match_from(queries, reply, i + 1);
    }
}

pub open spec fn reply_view(q: Query) -> (u64, u32, u8, Seq<u8>) {
    (q.correlation, q.epoch, q.class, q.bytes@)
}

fn first_answered(queries: &Vec<(Query, QueryShape)>, reply: &[u8]) -> (r: Option<usize>)
    ensures
        r matches Some(i) ==> match_from(queries@, reply@, 0) == Some(i as int) && i < queries@.len(),
        r is None ==> match_from(queries@, reply@, 0) is None,
{
    proof {
        lemma_match_from(queries@, reply@, 0);
    }
    let mut i: usize = 0;
    while i < queries.len()
        invariant
            i <= queries@.len(),
            match_from(queries@, reply@, 0) == match_from(queries@, reply@, i as int),
        decreases queries.len() - i,
    {
        if validate_query_reply(&queries[i].1, reply) {
            return Some(i);
        }
        i = i + 1;
    }
    None
}

impl ViewerStream {
    /// Splits keyboard input into what passes on to the holder and the
    /// replies to delegated queries, keeping a partial reply for later.
    pub fn input(&mut self, bytes: Vec<u8>) -> (r: (Vec<u8>, Vec<Query>))
        ensures
            ({
                let st = input_fold(input_start(old(self).queries@, old(self).probe@), bytes@);
                &&& final(self).queries@ == st.queries
                &&& final(self).probe@ == st.probe
                &&& r.0@ == st.ordinary
                &&& r.1@.map_values(|q: Query| reply_view(q)) == st.replies
                &&& final(self).cursor() == old(self).cursor()
                &&& final(self).non_vt == old(self).non_vt
                &&& final(self).lease_epoch == old(self).lease_epoch
            }),
    {
        let mut ordinary: Vec<u8> = Vec::new();
        let mut replies: Vec<Query> = Vec::new();
        if self.queries.len() == 0 {
            ordinary.append(&mut self.probe);
        }
        let ghost start = input_start(old(self).queries@, old(self).probe@);
        assert(ordinary@ =~= start.ordinary);
        let mut i: usize = 0;
        while i < bytes.len()
            invariant
                i <= bytes@.len(),
                ({
                    let st = input_fold(start, bytes@.take(i as int));
                    &&& self.queries@ == st.queries
                    &&& self.probe@ == st.probe
                    &&& ordinary@ == st.ordinary
                    &&& replies@.map_values(|q: Query| reply_view(q)) == st.replies
                }),
                self.cursor() == old(self).cursor(),
                self.non_vt == old(self).non_vt,
                self.lease_epoch == old(self).lease_epoch,
            decreases bytes.len() - i,
        {
            let byte = bytes[i];
            proof {
                assert(bytes@.take(i + 1).drop_last() =~= bytes@.take(i as int));
                assert(bytes@.take(i + 1).last() == byte);
            }
            let ghost before = input_fold(start, bytes@.take(i as int));
            if self.probe.len() == 0 && (self.queries.len() == 0 || !(byte == 0x1b || byte == 0x90
                || byte == 0x9b)) {
                ordinary.push(byte);
            } else {
                self.probe.push(byte);
                let state = reply_state(self.probe.as_slice());
                if state == 1 {
                    let mut reply: Vec<u8> = Vec::new();
                    std::mem::swap(&mut reply, &mut self.probe);
                    match first_answered(&self.queries, reply.as_slice()) {
                        Some(at) => {
                            let (mut query, _shape) = self.queries.remove(at);
                            query.bytes = reply;
                            let ghost prior = replies@;
                            replies.push(query);
                            proof {
                                assert(replies@.map_values(|q: Query| reply_view(q)) =~= prior.map_values(
                                    |q: Query| reply_view(q),
                                ).push(reply_view(query)));
                            }
                        },
                        None => {
                            ordinary.append(&mut reply);
                        },
                    }
                } else if state == -1 {
                    ordinary.append(&mut self.probe);
                }
            }
            i = i + 1;
            proof {
                let after = input_fold(start, bytes@.take(i as int));
                assert(after == input_step(before, byte));
                assert(self.probe@ =~= after.probe);
                assert(ordinary@ =~= after.ordinary);
                assert(self.queries@ =~= after.queries);
            }
        }
        assert(bytes@.take(bytes@.len() as int) =~= bytes@);
        (ordinary, replies)
    }

    /// Hands back the partial reply, when input goes quiet.
    pub fn flush_input(&mut self) -> (r: Vec<u8>)
        ensures
            r@ == old(self).probe@,
            final(self).probe@.len() == 0,
            final(self).queries == old(self).queries,
            final(self).cursor() == old(self).cursor(),
            final(self).non_vt == old(self).non_vt,
            final(self).lease_epoch == old(self).lease_epoch,
    {
        let mut out: Vec<u8> = Vec::new();
        std::mem::swap(&mut out, &mut self.probe);
        out
    }

    /// Forgets the attachment: its queries, terminal state, window and
    /// receiving position; where applying stands and the lease epoch stay.
    pub fn disconnected(&mut self)
        ensures
            final(self).queries@.len() == 0,
            !final(self).terminal,
            final(self).replay is None,
            final(self).received is None,
            final(self).next == old(self).next,
            final(self).non_vt == old(self).non_vt,
            final(self).lease_epoch == old(self).lease_epoch,
            final(self).probe == old(self).probe,
    {
        self.queries.clear();
        self.terminal = false;
        self.replay = None;
        self.received = None;
    }
}

} // verus!
