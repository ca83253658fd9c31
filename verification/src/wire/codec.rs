//! Framing: a message is cut into checksummed frames of at most one frame
//! bound each, and frames are reassembled into messages on the way in.
use super::{require, Profile, WireError};
use crate::bytes::{le32, push_all, push_u32, read_u32, u32_le};
use vstd::prelude::*;

verus! {

/// What the CRC-32C of `bytes` is: the `crc32c` crate's checksum,
/// a function of the bytes alone.
pub uninterp spec fn spec_crc32c(bytes: Seq<u8>) -> u32;

/// Calls `crc32c::crc32c`; its result is the CRC-32C (Castagnoli) checksum
/// of the bytes, which depends on nothing but the bytes.
#[verifier::external_body]
pub(crate) fn crc32c(bytes: &[u8]) -> (r: u32)
    ensures
        r == spec_crc32c(bytes@),
{
    crc32c::crc32c(bytes)
}

/// A reassembled message: its scope, kind and payload.
#[derive(Clone, Debug)]
pub struct Message {
    pub scope: u32,
    pub kind: u8,
    pub payload: Vec<u8>,
}

impl View for Message {
    type V = (u32, u8, Seq<u8>);

    open spec fn view(&self) -> (u32, u8, Seq<u8>) {
        (self.scope, self.kind, self.payload@)
    }
}

pub open spec fn magic(profile: Profile) -> Seq<u8> {
    match profile {
        Profile::Controller => seq![0x4du8, 0x4f, 0x4f, 0x52],
        Profile::Semantic => seq![0x4du8, 0x4f, 0x4f, 0x53],
    }
}

pub open spec fn version(profile: Profile) -> u8 {
    match profile {
        Profile::Controller => 4,
        Profile::Semantic => 1,
    }
}

pub open spec fn frame_max(profile: Profile) -> nat {
    match profile {
        Profile::Controller => 1048576,
        Profile::Semantic => 65536,
    }
}

pub open spec fn message_max(profile: Profile) -> nat {
    match profile {
        Profile::Controller => 16777216,
        Profile::Semantic => 1048576,
    }
}

pub open spec fn max_kind(profile: Profile) -> u8 {
    match profile {
        Profile::Controller => 0x1a,
        Profile::Semantic => 0x0a,
    }
}

/// The kinds that may travel with scope zero: the hello of each profile and
/// the semantic heartbeat.
pub open spec fn zero_scope(profile: Profile, kind: u8) -> bool {
    kind == 1 || (profile == Profile::Semantic && kind == 9)
}

/// The frozen payload size of a fixed-size controller kind.
pub open spec fn fixed_size(profile: Profile, kind: u8) -> Option<nat> {
    if profile == Profile::Semantic {
        None
    } else if kind == 10 {
        Some(43)
    } else if kind == 0x11 {
        Some(0)
    } else if kind == 0x15 {
        Some(40)
    } else if kind == 0x16 {
        Some(24)
    } else if kind == 0x17 || kind == 0x18 {
        Some(20)
    } else if kind == 0x19 {
        Some(24)
    } else if kind == 0x1a {
        Some(32)
    } else {
        None
    }
}

/// Whether a message of `kind` may travel in `scope`, and the size its
/// payload must have if the kind is fixed.
pub open spec fn spec_message_size(profile: Profile, scope: u32, kind: u8) -> Result<
    Option<nat>,
    WireError,
> {
    if kind == 0 || kind > max_kind(profile) {
        Err(WireError::UnknownType)
    } else if scope == 0 && !zero_scope(profile, kind) {
        Err(
            match profile {
                Profile::Controller => WireError::GenerationMismatch,
                Profile::Semantic => WireError::Malformed,
            },
        )
    } else {
        Ok(fixed_size(profile, kind))
    }
}

fn fixed(profile: Profile, kind: u8) -> (r: Option<usize>)
    ensures
        match fixed_size(profile, kind) {
            Some(n) => r == Some(n as usize),
            None => r is None,
        },
{
    match profile {
        Profile::Semantic => None,
        Profile::Controller => if kind == 10 {
            Some(43)
        } else if kind == 0x11 {
            Some(0)
        } else if kind == 0x15 {
            Some(40)
        } else if kind == 0x16 {
            Some(24)
        } else if kind == 0x17 || kind == 0x18 {
            Some(20)
        } else if kind == 0x19 {
            Some(24)
        } else if kind == 0x1a {
            Some(32)
        } else {
            None
        },
    }
}

fn message_size(profile: Profile, scope: u32, kind: u8) -> (r: Result<Option<usize>, WireError>)
    ensures
        match spec_message_size(profile, scope, kind) {
            Ok(Some(n)) => r == Ok::<Option<usize>, WireError>(Some(n as usize)),
            Ok(None) => r == Ok::<Option<usize>, WireError>(None),
            Err(e) => r == Err::<Option<usize>, WireError>(e),
        },
{
    let max = match profile {
        Profile::Controller => 0x1a,
        Profile::Semantic => 0x0a,
    };
    if kind == 0 || kind > max {
        return Err(WireError::UnknownType);
    }
    let zero = kind == 1 || (profile == Profile::Semantic && kind == 9);
    if scope == 0 && !zero {
        return Err(
            match profile {
                Profile::Controller => WireError::GenerationMismatch,
                Profile::Semantic => WireError::Malformed,
            },
        );
    }
    Ok(fixed(profile, kind))
}

/// A frame header that passed every check.
#[derive(Clone, Copy, Debug)]
pub struct FrameHeader {
    pub kind: u8,
    pub more: u8,
    pub scope: u32,
    pub sequence: u32,
    pub length: u32,
}

/// The first 20 header bytes, before the checksum.
pub open spec fn header_body(
    profile: Profile,
    kind: u8,
    more: u8,
    scope: u32,
    sequence: u32,
    length: u32,
) -> Seq<u8> {
    magic(profile) + seq![version(profile), kind, more, 0u8] + le32(scope) + le32(sequence) + le32(
        length,
    )
}

/// One frame as it travels: header, checksum of the header, payload.
pub open spec fn frame(
    profile: Profile,
    kind: u8,
    more: u8,
    scope: u32,
    sequence: u32,
    chunk: Seq<u8>,
) -> Seq<u8> {
    let body = header_body(profile, kind, more, scope, sequence, chunk.len() as u32);
    body + le32(spec_crc32c(body)) + chunk
}

/// The frames of a message, numbered from `sequence`: frames of one frame
/// bound each, every one but the last marked as having a successor.
pub open spec fn frames(
    profile: Profile,
    kind: u8,
    scope: u32,
    sequence: int,
    payload: Seq<u8>,
) -> Seq<u8>
    decreases payload.len(),
{
    if payload.len() <= frame_max(profile) {
        frame(profile, kind, 0, scope, sequence as u32, payload)
    } else {
        frame(
            profile,
            kind,
            1,
            scope,
            sequence as u32,
            payload.subrange(0, frame_max(profile) as int),
        ) + frames(
            profile,
            kind,
            scope,
            sequence + 1,
            payload.subrange(frame_max(profile) as int, payload.len() as int),
        )
    }
}

/// How many frames a payload of `length` bytes takes.
pub open spec fn chunk_count(profile: Profile, length: nat) -> nat
    decreases length,
{
    if length <= frame_max(profile) {
        1
    } else {
        1 + chunk_count(profile, (length - frame_max(profile)) as nat)
    }
}

/// The header at the front of `s`, as the decoder that expects sequence
/// `next` reads it: `Ok(None)` while the header or its payload is still
/// incomplete.
#[verifier::opaque]
pub open spec fn spec_header(profile: Profile, next: u32, s: Seq<u8>) -> Result<
    Option<FrameHeader>,
    WireError,
> {
    if s.len() < 24 {
        Ok(None)
    } else {
        let kind = s[5];
        let more = s[6];
        let scope = u32_le(s.subrange(8, 12));
        let sequence = u32_le(s.subrange(12, 16));
        let length = u32_le(s.subrange(16, 20));
        if s.subrange(0, 4) != magic(profile) {
            Err(WireError::Malformed)
        } else if s[4] != version(profile) {
            Err(WireError::UnknownVersion)
        } else {
            match spec_message_size(profile, scope, kind) {
                Err(e) => Err(e),
                Ok(fixed) => if !(more <= 1 && s[7] == 0) || !(more == 0 || fixed is None) {
                    Err(WireError::Malformed)
                } else if !(sequence == next && next != 0 && next != u32::MAX) {
                    Err(
                        if next == u32::MAX {
                            WireError::ResourceExhausted
                        } else {
                            WireError::BadSequence
                        },
                    )
                } else if length > frame_max(profile) {
                    Err(WireError::OversizedFrame)
                } else if (fixed matches Some(n) && length != n) {
                    Err(WireError::Malformed)
                } else if u32_le(s.subrange(20, 24)) != spec_crc32c(s.subrange(0, 20)) {
                    Err(WireError::Malformed)
                } else if s.len() >= 24 + length {
                    Ok(Some(FrameHeader { kind, more, scope, sequence, length }))
                } else {
                    Ok(None)
                },
            }
        }
    }
}

fn frame_header(profile: Profile, next: u32, bytes: &[u8]) -> (r: Result<
    Option<FrameHeader>,
    WireError,
>)
    ensures
        r == spec_header(profile, next, bytes@),
{
    reveal(spec_header);
    if bytes.len() < 24 {
        return Ok(None);
    }
    let (m0, m1, m2, m3, v) = match profile {
        Profile::Controller => (0x4du8, 0x4fu8, 0x4fu8, 0x52u8, 4u8),
        Profile::Semantic => (0x4du8, 0x4fu8, 0x4fu8, 0x53u8, 1u8),
    };
    let kind = bytes[5];
    let more = bytes[6];
    let scope = read_u32(bytes, 8);
    let sequence = read_u32(bytes, 12);
    let length = read_u32(bytes, 16);
    let same_magic = bytes[0] == m0 && bytes[1] == m1 && bytes[2] == m2 && bytes[3] == m3;
    assert(same_magic == (bytes@.subrange(0, 4) == magic(profile))) by {
        if same_magic {
            assert(bytes@.subrange(0, 4) =~= magic(profile));
        }
    }
    if !same_magic {
        return Err(WireError::Malformed);
    }
    if bytes[4] != v {
        return Err(WireError::UnknownVersion);
    }
    let fixed = message_size(profile, scope, kind)?;
    if !(more <= 1 && bytes[7] == 0) || !(more == 0 || fixed.is_none()) {
        return Err(WireError::Malformed);
    }
    if !(sequence == next && next != 0 && next != u32::MAX) {
        return Err(
            if next == u32::MAX {
                WireError::ResourceExhausted
            } else {
                WireError::BadSequence
            },
        );
    }
    let bound: u32 = match profile {
        Profile::Controller => 1048576,
        Profile::Semantic => 65536,
    };
    if length > bound {
        return Err(WireError::OversizedFrame);
    }
    if let Some(n) = fixed {
        if length as usize != n {
            return Err(WireError::Malformed);
        }
    }
    if read_u32(bytes, 20) != crc32c(&bytes[0..20]) {
        return Err(WireError::Malformed);
    }
    if bytes.len() - 24 >= length as usize {
        Ok(Some(FrameHeader { kind, more, scope, sequence, length }))
    } else {
        Ok(None)
    }
}

/// What the decoder holds: buffered bytes, the next expected frame
/// sequence, a partly reassembled message, and when the partial input
/// expires.
pub struct CodecState {
    pub profile: Profile,
    pub buffer: Seq<u8>,
    pub next_in: u32,
    pub next_out: u32,
    pub run: Option<(u32, u8, Seq<u8>)>,
    pub deadline: Option<u64>,
}

/// What an accepted header guarantees about the bytes it heads.
pub proof fn lemma_header_facts(profile: Profile, next: u32, s: Seq<u8>)
    ensures
        spec_header(profile, next, s) matches Ok(Some(h)) ==> s.len() >= 24 + h.length && next
            != u32::MAX && h.sequence == next && h.length <= frame_max(profile),
{
    reveal(spec_header);
}

/// The decoder after it consumed every complete frame it could.
pub struct Drained {
    pub next_in: u32,
    pub run: Option<(u32, u8, Seq<u8>)>,
    pub buffer: Seq<u8>,
    pub messages: Seq<(u32, u8, Seq<u8>)>,
    pub result: Result<(), WireError>,
}

/// Consumes complete frames from the front of `buffer`: each is appended to
/// the message being reassembled, which is delivered with its last frame.
/// A frame that changes kind or scope in the middle of a message, or makes
/// the message exceed its bound, ends the run with an error.
pub open spec fn drain(
    profile: Profile,
    next_in: u32,
    run: Option<(u32, u8, Seq<u8>)>,
    buffer: Seq<u8>,
) -> Drained
    decreases buffer.len(),
{
    match spec_header(profile, next_in, buffer) {
        Err(e) => Drained { next_in, run, buffer, messages: Seq::empty(), result: Err(e) },
        Ok(None) => Drained { next_in, run, buffer, messages: Seq::empty(), result: Ok(()) },
        Ok(Some(h)) => {
            proof {
                lemma_header_facts(profile, next_in, buffer);
            }
            let end = 24 + h.length;
            let chunk = buffer.subrange(24, end as int);
            let rest = buffer.subrange(end as int, buffer.len() as int);
            let next = (next_in + 1) as u32;
            let joined: Result<(u32, u8, Seq<u8>), WireError> = match run {
                None => Ok((h.scope, h.kind, chunk)),
                Some(m) => if m.1 != h.kind || m.0 != h.scope {
                    Err(WireError::ReassemblyAborted)
                } else if m.2.len() + h.length > message_max(profile) {
                    Err(WireError::OversizedMessage)
                } else {
                    Ok((m.0, m.1, m.2 + chunk))
                },
            };
            match joined {
                Err(e) => Drained {
                    next_in: next,
                    run: None,
                    buffer: rest,
                    messages: Seq::empty(),
                    result: Err(e),
                },
                Ok(message) => if h.more != 0 {
                    drain(profile, next, Some(message), rest)
                } else {
                    let tail = drain(profile, next, None, rest);
                    Drained { messages: seq![message] + tail.messages, ..tail }
                },
            }
        },
    }
}

/// The outcome of feeding bytes to a decoder.
pub struct Fed {
    pub state: CodecState,
    pub messages: Seq<(u32, u8, Seq<u8>)>,
    pub result: Result<(), WireError>,
}

/// Feeding at `now`: an expired partial input is discarded with a timeout
/// error before anything else; otherwise the bytes are buffered and every
/// complete frame consumed. The five-second reassembly deadline starts with
/// the first byte of partial input and ends when a message is delivered or
/// nothing partial is left.
pub open spec fn spec_feed(c: CodecState, now: u64, bytes: Seq<u8>) -> Fed {
    if c.deadline matches Some(d) && now >= d {
        Fed {
            state: CodecState { buffer: Seq::empty(), run: None, deadline: None, ..c },
            messages: Seq::empty(),
            result: Err(WireError::ReassemblyTimeout),
        }
    } else {
        let d = drain(c.profile, c.next_in, c.run, c.buffer + bytes);
        let kept = if d.messages.len() > 0 {
            None
        } else {
            c.deadline
        };
        let deadline = if d.result is Err {
            kept
        } else if d.buffer.len() > 0 || d.run is Some {
            Some(
                match kept {
                    Some(x) => x,
                    None => if now + 5000 > u64::MAX {
                        u64::MAX
                    } else {
                        (now + 5000) as u64
                    },
                },
            )
        } else {
            None
        };
        Fed {
            state: CodecState {
                buffer: d.buffer,
                next_in: d.next_in,
                run: d.run,
                deadline,
                ..c
            },
            messages: d.messages,
            result: d.result,
        }
    }
}

/// Encoding: the kind must be legal in the scope, the payload within the
/// message bound and of the kind's fixed size, and the outgoing sequence
/// numbers must not run out.
pub open spec fn spec_encode_check(c: CodecState, scope: u32, kind: u8, length: nat) -> Result<
    (),
    WireError,
> {
    match spec_message_size(c.profile, scope, kind) {
        Err(e) => Err(e),
        Ok(fixed) => if length > message_max(c.profile) {
            Err(WireError::OversizedMessage)
        } else if fixed matches Some(n) && length != n {
            Err(WireError::Malformed)
        } else if !(c.next_out != 0 && c.next_out != u32::MAX && chunk_count(c.profile, length)
            <= u32::MAX - c.next_out) {
            Err(WireError::ResourceExhausted)
        } else {
            Ok(())
        },
    }
}


/// A frame the encoder wrote passes every check of the decoder that expects
/// its sequence, whatever follows it.
proof fn lemma_frame_header(
    profile: Profile,
    kind: u8,
    more: u8,
    scope: u32,
    sequence: u32,
    chunk: Seq<u8>,
    tail: Seq<u8>,
)
    requires
        spec_message_size(profile, scope, kind) is Ok,
        more <= 1,
        more == 1 ==> fixed_size(profile, kind) is None,
        fixed_size(profile, kind) matches Some(n) ==> chunk.len() == n,
        chunk.len() <= frame_max(profile),
        sequence != 0,
        sequence != u32::MAX,
    ensures
        spec_header(profile, sequence, frame(profile, kind, more, scope, sequence, chunk) + tail)
            == Ok::<Option<FrameHeader>, WireError>(
            Some(FrameHeader { kind, more, scope, sequence, length: chunk.len() as u32 }),
        ),
{
    reveal(spec_header);
    let body = header_body(profile, kind, more, scope, sequence, chunk.len() as u32);
    let s = frame(profile, kind, more, scope, sequence, chunk) + tail;
    crate::bytes::lemma_le32(scope);
    crate::bytes::lemma_le32(sequence);
    crate::bytes::lemma_le32(chunk.len() as u32);
    crate::bytes::lemma_le32(spec_crc32c(body));
    assert(s.subrange(0, 4) =~= magic(profile));
    assert(s.subrange(8, 12) =~= le32(scope));
    assert(s.subrange(12, 16) =~= le32(sequence));
    assert(s.subrange(16, 20) =~= le32(chunk.len() as u32));
    assert(s.subrange(0, 20) =~= body);
    assert(s.subrange(20, 24) =~= le32(spec_crc32c(body)));
    assert(s[4] == version(profile) && s[5] == kind && s[6] == more && s[7] == 0);
}

/// Reassembly of the frames of one message, continuing a message whose
/// first part `prefix` is already held.
#[verifier::rlimit(60)]
#[verifier::spinoff_prover]
proof fn lemma_drain_frames(
    profile: Profile,
    kind: u8,
    scope: u32,
    sequence: u32,
    prefix: Option<Seq<u8>>,
    payload: Seq<u8>,
)
    requires
        spec_message_size(profile, scope, kind) is Ok,
        fixed_size(profile, kind) matches Some(n) ==> payload.len() == n && prefix is None,
        (match prefix {
            Some(p) => p.len(),
            None => 0,
        }) + payload.len() <= message_max(profile),
        sequence != 0,
        sequence + chunk_count(profile, payload.len()) <= u32::MAX,
    ensures
        drain(
            profile,
            sequence,
            match prefix {
                Some(p) => Some((scope, kind, p)),
                None => None,
            },
            frames(profile, kind, scope, sequence as int, payload),
        ) == (Drained {
            next_in: (sequence + chunk_count(profile, payload.len())) as u32,
            run: None,
            buffer: Seq::empty(),
            messages: seq![
                (scope, kind, match prefix {
                    Some(p) => p + payload,
                    None => payload,
                }),
            ],
            result: Ok(()),
        }),
    decreases payload.len(),
{
    let fmax = frame_max(profile);
    let run = match prefix {
        Some(p) => Some((scope, kind, p)),
        None => None,
    };
    let whole = match prefix {
        Some(p) => p + payload,
        None => payload,
    };
    let buffer = frames(profile, kind, scope, sequence as int, payload);
    if payload.len() <= fmax {
        lemma_frame_header(profile, kind, 0, scope, sequence, payload, Seq::empty());
        assert(buffer + Seq::<u8>::empty() =~= buffer);
        let end = 24 + payload.len();
        assert(buffer.subrange(24, end as int) =~= payload);
        assert(buffer.subrange(end as int, buffer.len() as int) =~= Seq::<u8>::empty());
        let tail = drain(profile, (sequence + 1) as u32, None, Seq::empty());
        assert(spec_header(profile, (sequence + 1) as u32, Seq::<u8>::empty()) == Ok::<Option<FrameHeader>, WireError>(None)) by {
            reveal(spec_header);
        }
        assert(tail.messages =~= Seq::<(u32, u8, Seq<u8>)>::empty());
        assert(seq![(scope, kind, whole)] + tail.messages =~= seq![(scope, kind, whole)]);
    } else {
        let chunk = payload.subrange(0, fmax as int);
        let rest = payload.subrange(fmax as int, payload.len() as int);
        let first = frame(profile, kind, 1, scope, sequence, chunk);
        let later = frames(profile, kind, scope, sequence + 1, rest);
        lemma_frame_header(profile, kind, 1, scope, sequence, chunk, later);
        let end = 24 + fmax;
        assert(buffer.subrange(24, end as int) =~= chunk);
        assert(buffer.subrange(end as int, buffer.len() as int) =~= later);
        let next_prefix = match prefix {
            Some(p) => p + chunk,
            None => chunk,
        };
        lemma_drain_frames(profile, kind, scope, (sequence + 1) as u32, Some(next_prefix), rest);
        assert(next_prefix + rest =~= whole);
    }
}

/// What is written is what is read: fed the frames an encoder wrote for one
/// message, a decoder that expects the encoder's next sequence, holds no
/// partial input and whose reassembly deadline, if it kept one, has not
/// passed delivers exactly that message, holds nothing afterwards, keeps
/// no deadline, and expects the encoder's following sequence next.
pub proof fn lemma_encode_feed_roundtrip(
    encoder: CodecState,
    decoder: CodecState,
    now: u64,
    scope: u32,
    kind: u8,
    payload: Seq<u8>,
)
    requires
        spec_encode_check(encoder, scope, kind, payload.len()) is Ok,
        decoder.profile == encoder.profile,
        decoder.next_in == encoder.next_out,
        decoder.buffer.len() == 0,
        decoder.run is None,
        !expired(decoder, now),
    ensures
        ({
            let fed = spec_feed(
                decoder,
                now,
                frames(encoder.profile, kind, scope, encoder.next_out as int, payload),
            );
            &&& fed.result == Ok::<(), WireError>(())
            &&& fed.messages == seq![(scope, kind, payload)]
            &&& fed.state.buffer.len() == 0
            &&& fed.state.run is None
            &&& fed.state.deadline is None
            &&& fed.state.next_in == encoder.next_out + chunk_count(encoder.profile, payload.len())
        }),
{
    let bytes = frames(encoder.profile, kind, scope, encoder.next_out as int, payload);
    assert(decoder.buffer + bytes =~= bytes);
    lemma_drain_frames(encoder.profile, kind, scope, encoder.next_out, None, payload);
}

/// Whether the reassembly deadline a codec keeps has passed at `now`.
pub open spec fn expired(c: CodecState, now: u64) -> bool {
    c.deadline matches Some(d) && now >= d
}

/// Five seconds after `now`, or the end of time where that overflows.
pub open spec fn five_seconds_after(now: u64) -> u64 {
    if now + 5000 > u64::MAX {
        u64::MAX
    } else {
        (now + 5000) as u64
    }
}

/// The reassembly deadline counts from the first partial input and is not
/// moved by later partial input: bytes fed before the deadline that deliver
/// no message and leave something partial keep the deadline the decoder
/// had, or start one five seconds after `now` where it had none. Input that
/// delivers a message and leaves nothing partial clears it. Once it has
/// passed, feeding discards all partial input with a timeout and leaves no
/// deadline, so that nothing can expire again until new partial input comes.
pub proof fn lemma_reassembly_deadline(c: CodecState, now: u64, bytes: Seq<u8>)
    ensures
        ({
            let fed = spec_feed(c, now, bytes);
            let partial = fed.state.buffer.len() > 0 || fed.state.run is Some;
            &&& !expired(c, now) && fed.result is Ok && fed.messages.len() == 0 && partial
                ==> fed.state.deadline == Some(
                match c.deadline {
                    Some(d) => d,
                    None => five_seconds_after(now),
                },
            )
            &&& !expired(c, now) && fed.result is Ok && fed.messages.len() > 0 && partial
                ==> fed.state.deadline == Some(five_seconds_after(now))
            &&& !expired(c, now) && fed.result is Ok && !partial ==> fed.state.deadline is None
            &&& expired(c, now) ==> fed.result == Err::<(), WireError>(
                WireError::ReassemblyTimeout,
            ) && fed.messages.len() == 0 && fed.state.buffer.len() == 0 && fed.state.run is None
                && fed.state.deadline is None
            &&& fed.state.profile == c.profile && fed.state.next_out == c.next_out
        }),
{
}

/// A framing codec for one connection.
pub struct Codec {
    profile: Profile,
    buffer: Vec<u8>,
    next_in: u32,
    next_out: u32,
    run: Option<Message>,
    deadline: Option<u64>,
}

impl View for Codec {
    type V = CodecState;

    closed spec fn view(&self) -> CodecState {
        CodecState {
            profile: self.profile,
            buffer: self.buffer@,
            next_in: self.next_in,
            next_out: self.next_out,
            run: match self.run {
                Some(m) => Some(m@),
                None => None,
            },
            deadline: self.deadline,
        }
    }
}

pub open spec fn run_len(c: CodecState) -> nat {
    match c.run {
        Some(m) => m.2.len(),
        None => 0,
    }
}

impl Codec {
    /// Room to account for everything buffered in one `usize`.
    pub closed spec fn wf(&self) -> bool {
        self.buffer@.len() + run_len(self@) <= usize::MAX
    }

    pub fn new(profile: Profile) -> (r: Self)
        ensures
            r@ == (CodecState {
                profile,
                buffer: Seq::empty(),
                next_in: 1,
                next_out: 1,
                run: None,
                deadline: None,
            }),
            r.wf(),
    {
        Codec { profile, buffer: Vec::new(), next_in: 1, next_out: 1, run: None, deadline: None }
    }

    pub fn profile(&self) -> (r: Profile)
        ensures
            r == self@.profile,
    {
        self.profile
    }

    /// Bytes held: buffered input and the partial message.
    pub fn buffered_len(&self) -> (r: usize)
        requires
            self.wf(),
        ensures
            r == self@.buffer.len() + run_len(self@),
    {
        match &self.run {
            Some(m) => self.buffer.len() + m.payload.len(),
            None => self.buffer.len(),
        }
    }

    /// What `buffered_len` would become after `incoming` more bytes, unless
    /// that overflows.
    pub fn projected_len(&self, incoming: usize) -> (r: Option<usize>)
        requires
            self.wf(),
        ensures
            match r {
                Some(n) => n == self@.buffer.len() + run_len(self@) + incoming,
                None => self@.buffer.len() + run_len(self@) + incoming > usize::MAX,
            },
    {
        let held = self.buffered_len();
        held.checked_add(incoming)
    }

    /// Discards partial input whose reassembly deadline has passed.
    pub fn expire(&mut self, now_ms: u64) -> (r: Result<(), WireError>)
        requires
            old(self).wf(),
        ensures
            final(self).wf(),
            old(self)@.deadline matches Some(d) && now_ms >= d ==> r == Err::<(), WireError>(
                WireError::ReassemblyTimeout,
            ) && final(self)@ == (CodecState {
                buffer: Seq::empty(),
                run: None,
                deadline: None,
                ..old(self)@
            }),
            !(old(self)@.deadline matches Some(d) && now_ms >= d) ==> r is Ok && final(self)@
                == old(self)@,
    {
        match self.deadline {
            Some(d) => {
                if now_ms >= d {
                    self.deadline = None;
                    self.buffer = Vec::new();
                    self.run = None;
                    return Err(WireError::ReassemblyTimeout);
                }
                Ok(())
            },
            None => Ok(()),
        }
    }

    /// Buffers `bytes` and appends to `out` every message they complete.
    pub fn feed(&mut self, now_ms: u64, bytes: &[u8], out: &mut Vec<Message>) -> (r: Result<
        (),
        WireError,
    >)
        requires
            old(self).wf(),
            old(self)@.buffer.len() + run_len(old(self)@) + bytes@.len() <= usize::MAX,
        ensures
            final(self).wf(),
            final(self)@ == spec_feed(old(self)@, now_ms, bytes@).state,
            final(out)@.map_values(|m: Message| m@) == old(out)@.map_values(|m: Message| m@)
                + spec_feed(old(self)@, now_ms, bytes@).messages,
            r == spec_feed(old(self)@, now_ms, bytes@).result,
    {
        let expired = self.expire(now_ms);
        if expired.is_err() {
            proof {
                assert(out@.map_values(|m: Message| m@) =~= out@.map_values(|m: Message| m@)
                    + Seq::<(u32, u8, Seq<u8>)>::empty());
            }
            return expired;
        }
        let ghost start = self@;
        let ghost out0 = out@.map_values(|m: Message| m@);
        push_all(&mut self.buffer, bytes);
        let ghost whole = drain(start.profile, start.next_in, start.run, self.buffer@);
        let ghost mut added: Seq<(u32, u8, Seq<u8>)> = Seq::empty();
        let mut delivered = false;
        proof {
            assert(out0 + added =~= out0);
        }
        loop
            invariant_except_break
                self.profile == start.profile,
                self.next_out == start.next_out,
                self.deadline == (if delivered {
                    None
                } else {
                    start.deadline
                }),
                self.buffer@.len() + run_len(self@) <= usize::MAX,
                out@.map_values(|m: Message| m@) == out0 + added,
                delivered <==> added.len() > 0,
                start == old(self)@,
                !(start.deadline matches Some(d) && now_ms >= d),
                out0 == old(out)@.map_values(|m: Message| m@),
                whole == drain(start.profile, start.next_in, start.run, start.buffer + bytes@),
                ({
                    let d = drain(self.profile, self.next_in, self@.run, self.buffer@);
                    &&& whole.next_in == d.next_in
                    &&& whole.run == d.run
                    &&& whole.buffer == d.buffer
                    &&& whole.result == d.result
                    &&& whole.messages == added + d.messages
                }),
            ensures
                self.profile == start.profile,
                self.next_out == start.next_out,
                self.deadline == (if delivered {
                    None
                } else {
                    start.deadline
                }),
                self.buffer@.len() + run_len(self@) <= usize::MAX,
                out@.map_values(|m: Message| m@) == out0 + added,
                delivered <==> added.len() > 0,
                start == old(self)@,
                !(start.deadline matches Some(d) && now_ms >= d),
                out0 == old(out)@.map_values(|m: Message| m@),
                whole == drain(start.profile, start.next_in, start.run, start.buffer + bytes@),
                whole.next_in == self.next_in,
                whole.run == self@.run,
                whole.buffer == self.buffer@,
                whole.result == Ok::<(), WireError>(()),
                whole.messages == added,
                start == old(self)@,
                !(start.deadline matches Some(d) && now_ms >= d),
                out0 == old(out)@.map_values(|m: Message| m@),
                whole == drain(start.profile, start.next_in, start.run, start.buffer + bytes@),
            decreases self.buffer@.len(),
        {
            let header = match frame_header(self.profile, self.next_in, self.buffer.as_slice()) {
                Ok(Some(h)) => h,
                Ok(None) => {
                    proof {
                        assert(added + Seq::<(u32, u8, Seq<u8>)>::empty() =~= added);
                    }
                    break ;
                },
                Err(e) => {
                    proof {
                        assert(added + Seq::<(u32, u8, Seq<u8>)>::empty() =~= added);
                    }
                    return Err(e);
                },
            };
            let ghost old_buffer = self.buffer@;
            proof {
                lemma_header_facts(self.profile, self.next_in, old_buffer);
            }
            let length = header.length as usize;
            let mut frame_bytes = self.buffer.split_off(24 + length);
            std::mem::swap(&mut frame_bytes, &mut self.buffer);
            let mut payload = frame_bytes.split_off(24);
            assert(payload@ == old_buffer.subrange(24, 24 + length as int));
            assert(self.buffer@ == old_buffer.subrange(24 + length as int, old_buffer.len() as int));
            self.next_in = self.next_in + 1;
            let taken = self.run.take();
            let message = match taken {
                None => Message { scope: header.scope, kind: header.kind, payload },
                Some(mut m) => {
                    if !(m.kind == header.kind && m.scope == header.scope) {
                        proof {
                            assert(added + Seq::<(u32, u8, Seq<u8>)>::empty() =~= added);
                        }
                        return Err(WireError::ReassemblyAborted);
                    }
                    let bound: usize = match self.profile {
                        Profile::Controller => 16777216,
                        Profile::Semantic => 1048576,
                    };
                    if m.payload.len() > bound || length > bound - m.payload.len() {
                        proof {
                            assert(added + Seq::<(u32, u8, Seq<u8>)>::empty() =~= added);
                        }
                        return Err(WireError::OversizedMessage);
                    }
                    m.payload.append(&mut payload);
                    m
                },
            };
            if header.more != 0 {
                self.run = Some(message);
            } else {
                let ghost delivered_view = message@;
                let ghost before_out = out@.map_values(|m: Message| m@);
                out.push(message);
                self.deadline = None;
                delivered = true;
                proof {
                    let tail = drain(self.profile, self.next_in, None, self.buffer@);
                    assert(out@.map_values(|m: Message| m@) =~= before_out.push(delivered_view));
                    assert(out0 + added.push(delivered_view) =~= (out0 + added).push(delivered_view));
                    assert(added + (seq![delivered_view] + tail.messages) =~= added.push(
                        delivered_view,
                    ) + tail.messages);
                    added = added.push(delivered_view);
                }
            }
        }
        let fallback = if now_ms > u64::MAX - 5000 {
            u64::MAX
        } else {
            now_ms + 5000
        };
        let deadline = match self.deadline {
            Some(d) => d,
            None => fallback,
        };
        self.deadline = if self.buffer.len() > 0 || self.run.is_some() {
            Some(deadline)
        } else {
            None
        };
        Ok(())
    }

    /// Appends the frames of one message to `out`.
    pub fn encode(&mut self, scope: u32, kind: u8, payload: &[u8], out: &mut Vec<u8>) -> (r: Result<
        (),
        WireError,
    >)
        ensures
            r == spec_encode_check(old(self)@, scope, kind, payload@.len()),
            r is Ok ==> final(out)@ == old(out)@ + frames(
                old(self)@.profile,
                kind,
                scope,
                old(self)@.next_out as int,
                payload@,
            ) && final(self)@ == (CodecState {
                next_out: (old(self)@.next_out + chunk_count(old(self)@.profile, payload@.len()))
                    as u32,
                ..old(self)@
            }),
            r is Err ==> final(out)@ == old(out)@ && final(self)@ == old(self)@,
    {
        let fixed = message_size(self.profile, scope, kind)?;
        let (bound, message_bound): (usize, usize) = match self.profile {
            Profile::Controller => (1048576, 16777216),
            Profile::Semantic => (65536, 1048576),
        };
        if payload.len() > message_bound {
            return Err(WireError::OversizedMessage);
        }
        if let Some(n) = fixed {
            if payload.len() != n {
                return Err(WireError::Malformed);
            }
        }
        // Count the frames without dividing: one per frame bound, at least one.
        let mut chunks: u32 = 1;
        let mut left: usize = payload.len();
        while left > bound
            invariant
                chunks as nat + chunk_count(self.profile, left as nat) == 1 + chunk_count(
                    self.profile,
                    payload@.len(),
                ),
                chunks <= 1 + payload.len() - left,
                payload.len() <= 16777216,
                bound == frame_max(self.profile),
                left <= payload.len(),
            decreases left,
        {
            left = left - bound;
            chunks = chunks + 1;
        }
        proof {
            assert(chunk_count(self.profile, left as nat) == 1);
        }
        if !(self.next_out != 0 && self.next_out != u32::MAX && chunks <= u32::MAX - self.next_out) {
            return Err(WireError::ResourceExhausted);
        }
        let (m3, v): (u8, u8) = match self.profile {
            Profile::Controller => (0x52, 4),
            Profile::Semantic => (0x53, 1),
        };
        let ghost out0 = out@;
        let ghost seq0 = self.next_out;
        proof {
            assert(payload@.subrange(0, payload.len() as int) =~= payload@);
        }
        let mut at: usize = 0;
        let mut sent: u32 = 0;
        loop
            invariant_except_break
                at <= payload.len(),
                bound == frame_max(self.profile),
                self.profile == old(self)@.profile,
                m3 == magic(self.profile)[3],
                v == version(self.profile),
                sent as nat + chunk_count(self.profile, (payload.len() - at) as nat) == chunks,
                self.next_out == seq0 + sent,
                seq0 + chunks <= u32::MAX,
                seq0 != 0,
                out0 + frames(self.profile, kind, scope, seq0 as int, payload@) == out@ + frames(
                    self.profile,
                    kind,
                    scope,
                    self.next_out as int,
                    payload@.subrange(at as int, payload.len() as int),
                ),
                self.buffer == old(self).buffer,
                self.next_in == old(self).next_in,
                self.run == old(self).run,
                self.deadline == old(self).deadline,
            ensures
                self.profile == old(self)@.profile,
                self.next_out == seq0 + chunks,
                out@ == out0 + frames(self.profile, kind, scope, seq0 as int, payload@),
                self.buffer == old(self).buffer,
                self.next_in == old(self).next_in,
                self.run == old(self).run,
                self.deadline == old(self).deadline,
            decreases payload.len() - at,
        {
            let rest = payload.len() - at;
            let last = rest <= bound;
            let length = if last {
                rest
            } else {
                bound
            };
            let ghost chunk = payload@.subrange(at as int, at + length);
            let ghost remaining = payload@.subrange(at as int, payload.len() as int);
            let ghost before = out@;
            let more: u8 = if last {
                0
            } else {
                1
            };
            let mut header: Vec<u8> = Vec::new();
            header.push(0x4d);
            header.push(0x4f);
            header.push(0x4f);
            header.push(m3);
            header.push(v);
            header.push(kind);
            header.push(more);
            header.push(0);
            push_u32(&mut header, scope);
            push_u32(&mut header, self.next_out);
            push_u32(&mut header, length as u32);
            proof {
                assert(header@ =~= header_body(
                    self.profile,
                    kind,
                    more,
                    scope,
                    self.next_out,
                    chunk.len() as u32,
                ));
            }
            let checksum = crc32c(header.as_slice());
            push_u32(&mut header, checksum);
            push_all(out, header.as_slice());
            push_all(out, &payload[at..at + length]);
            proof {
                let f = frame(self.profile, kind, more, scope, self.next_out, chunk);
                assert(out@ =~= before + f);
                if last {
                    assert(remaining =~= chunk);
                    assert(frames(self.profile, kind, scope, self.next_out as int, remaining) == f);
                } else {
                    assert(remaining.subrange(0, frame_max(self.profile) as int) =~= chunk);
                    assert(remaining.subrange(frame_max(self.profile) as int, remaining.len() as int)
                        =~= payload@.subrange(at + length, payload.len() as int));
                    assert(frames(self.profile, kind, scope, self.next_out as int, remaining) == f
                        + frames(
                        self.profile,
                        kind,
                        scope,
                        self.next_out + 1,
                        payload@.subrange(at + length, payload.len() as int),
                    ));
                    assert(before + (f + frames(
                        self.profile,
                        kind,
                        scope,
                        self.next_out + 1,
                        payload@.subrange(at + length, payload.len() as int),
                    )) =~= (before + f) + frames(
                        self.profile,
                        kind,
                        scope,
                        self.next_out + 1,
                        payload@.subrange(at + length, payload.len() as int),
                    ));
                }
            }
            at = at + length;
            sent = sent + 1;
            self.next_out = self.next_out + 1;
            if last {
                proof {
                    assert(out0 + frames(self.profile, kind, scope, seq0 as int, payload@) =~= out@);
                }
                break ;
            }
        }
        proof {
            assert(out@ =~= out0 + frames(self.profile, kind, scope, seq0 as int, payload@));
        }
        Ok(())
    }
}

} // verus!
