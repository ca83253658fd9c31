//! Decoding the status descriptor that a holder announces to a viewer: who
//! it is, where its event log stands, and the state of its session.
use crate::bytes::{nonzero, read_u16, read_u32, read_u64, u16_le, u32_le, u64_le};
use crate::wire::requests::{read_wide, wide_field};
use crate::wire::text::{spec_valid_size, valid_size};
use crate::wire::{ReplayDescriptor, StatusExtension, StatusTail, WireError};
use vstd::prelude::*;

verus! {

/// The fields of a descriptor before its tail, and where they end.
pub struct StatusBase {
    pub identity: Seq<u8>,
    pub generation: u32,
    pub incarnation: Seq<u8>,
    pub layout: u8,
    pub event_identity: Seq<u8>,
    pub slot: u8,
    pub commit: u64,
    pub body_length: u64,
    pub body_hash: Seq<u8>,
    pub directory: Seq<u8>,
    pub columns: u16,
    pub rows: u16,
    pub end: int,
}

/// Reads the fields before the tail, front to back: the identity, a
/// nonzero generation, a nonzero incarnation, the log layout, the event
/// identity, the commit slot, sequence, body length and hash, a reserved
/// hash, the working directory, nonzero process and containment ids, a
/// nonzero birth stamp and the geometry. A wide field announced above 1 MiB
/// is oversized, every other defect malformed.
pub open spec fn read_status_base(s: Seq<u8>) -> Result<StatusBase, WireError> {
    let malformed = Err::<StatusBase, WireError>(WireError::Malformed);
    match wide_field(s, 0) {
        Err(e) => Err(e),
        Ok(identity) => {
            let a = identity.1;
            if a + 21 > s.len() || u32_le(s.subrange(a, a + 4)) == 0 || !nonzero(
                s.subrange(a + 4, a + 20),
            ) {
                malformed
            } else {
                match wide_field(s, a + 21) {
                    Err(e) => Err(e),
                    Ok(event_identity) => {
                        let d = event_identity.1;
                        if d + 81 > s.len() {
                            malformed
                        } else {
                            match wide_field(s, d + 81) {
                                Err(e) => Err(e),
                                Ok(directory) => {
                                    let f = directory.1;
                                    if f + 28 > s.len() || u32_le(s.subrange(f, f + 4)) == 0
                                        || u32_le(s.subrange(f + 4, f + 8)) == 0 || !nonzero(
                                        s.subrange(f + 8, f + 24),
                                    ) {
                                        malformed
                                    } else {
                                        Ok(
                                            StatusBase {
                                                identity: identity.0,
                                                generation: u32_le(s.subrange(a, a + 4)),
                                                incarnation: s.subrange(a + 4, a + 20),
                                                layout: s[a + 20],
                                                event_identity: event_identity.0,
                                                slot: s[d],
                                                commit: u64_le(s.subrange(d + 1, d + 9)),
                                                body_length: u64_le(s.subrange(d + 9, d + 17)),
                                                body_hash: s.subrange(d + 17, d + 49),
                                                directory: directory.0,
                                                columns: u16_le(s.subrange(f + 24, f + 26)),
                                                rows: u16_le(s.subrange(f + 26, f + 28)),
                                                end: f + 28,
                                            },
                                        )
                                    }
                                },
                            }
                        }
                    },
                }
            }
        },
    }
}

/// The base names the expected holder under a local identity; the log
/// layout is absent (0) with no event identity and an empty commit, or
/// present (2) with an event identity and a committed slot; the directory
/// is named and the geometry valid.
pub open spec fn base_ok(b: StatusBase, identity: Seq<u8>, generation: u32, incarnation: Seq<u8>) -> bool {
    &&& b.identity.len() >= 2 && b.identity[0] == 1 && b.identity[1] == 0x2f
    &&& b.identity == identity && b.generation == generation && b.incarnation == incarnation
    &&& b.layout == 0 || b.layout == 2
    &&& (b.event_identity.len() == 0) == (b.layout == 0)
    &&& if b.layout == 2 {
        b.slot <= 1 && b.commit != 0 && b.body_length != 0 && nonzero(b.body_hash)
    } else {
        b.slot == 0xff && b.commit == 0 && b.body_length == 0 && !nonzero(b.body_hash)
    }
    &&& b.directory.len() != 0
    &&& spec_valid_size(b.rows, b.columns)
}

/// The tail that the 69 bytes `t` spell, with the base's geometry.
pub open spec fn spec_status_tail(columns: u16, rows: u16, t: Seq<u8>) -> StatusTail {
    let flags = t[32];
    StatusTail {
        columns,
        rows,
        replay: ReplayDescriptor {
            first: u64_le(t.subrange(0, 8)),
            last: u64_le(t.subrange(8, 16)),
            start: u64_le(t.subrange(16, 24)),
            end: u64_le(t.subrange(24, 32)),
            complete: flags & 1 != 0,
            modes_exact: flags & 2 != 0,
        },
        owns_lease: flags & 16 != 0,
        viewers: flags & 32 != 0,
        running: flags & 64 != 0,
        event_writable: flags & 128 != 0,
        lease_epoch: u32_le(t.subrange(33, 37)),
        semantic_flags: t[37],
        semantic_pending: u16_le(t.subrange(38, 40)),
        extension: StatusExtension {
            health: t[40],
            log_epoch: u32_le(t.subrange(41, 45)),
            log_index: u64_le(t.subrange(45, 53)),
            retained_start: u64_le(t.subrange(53, 61)),
            retained_end: u64_le(t.subrange(61, 69)),
        },
    }
}

/// Decoding a descriptor expected from the holder `identity`, `generation`,
/// `incarnation`: the base must read and match, exactly 69 tail bytes must
/// follow, the reserved flag bits must be clear and the tail and its
/// extension valid.
pub open spec fn spec_decode_status(
    s: Seq<u8>,
    identity: Seq<u8>,
    generation: u32,
    incarnation: Seq<u8>,
) -> Result<StatusTail, WireError> {
    match read_status_base(s) {
        Err(e) => Err(e),
        Ok(b) => {
            if !base_ok(b, identity, generation, incarnation) || s.len() != b.end + 69 {
                Err(WireError::Malformed)
            } else {
                let t = s.subrange(b.end, s.len() as int);
                let tail = spec_status_tail(b.columns, b.rows, t);
                if t[32] & 0x0c != 0 || !tail.extension.valid(tail.extension.logging())
                    || !tail.valid() {
                    Err(WireError::Malformed)
                } else {
                    Ok(tail)
                }
            }
        },
    }
}

fn valid_extension(e: &StatusExtension) -> (r: bool)
    ensures
        r == e.valid(e.logging()),
{
    let logs = e.log_epoch != 0 || e.log_index != 0 || e.retained_start != 0 || e.retained_end
        != 0;
    e.health & 0xf0 == 0 && e.retained_start <= e.retained_end && if logs {
        e.log_epoch != 0 && e.log_index != 0
    } else {
        e.health & 1 == 0
    }
}

fn valid_tail(t: &StatusTail) -> (r: bool)
    ensures
        r == t.valid(),
{
    let r = t.replay;
    let range = (r.first == 0 && r.last == 0 && r.start == r.end) || (r.first != 0 && r.first
        <= r.last && r.start < r.end);
    range && r.complete == (r.first <= 1 && r.start == 0) && t.semantic_flags & 0xf8 == 0
        && t.semantic_pending <= 512 && (!t.owns_lease || t.lease_epoch != 0) && valid_size(
        (t.rows, t.columns),
    )
}

impl StatusTail {
    /// Decodes the status descriptor of the expected holder.
    pub fn decode_for(payload: &[u8], identity: &[u8], generation: u32, incarnation: [u8; 16]) -> (r:
        Result<StatusTail, WireError>)
        ensures
            r == spec_decode_status(payload@, identity@, generation, incarnation@),
    {
        let s = payload;
        let (id, a) = read_wide(s, 0)?;
        if s.len() - a < 21 {
            return Err(WireError::Malformed);
        }
        let holder_generation = read_u32(s, a);
        if holder_generation == 0 || !crate::bytes::any_nonzero(&s[a + 4..a + 20]) {
            return Err(WireError::Malformed);
        }
        let layout = s[a + 20];
        let (event_identity, d) = read_wide(s, a + 21)?;
        if s.len() - d < 81 {
            return Err(WireError::Malformed);
        }
        let slot = s[d];
        let commit = read_u64(s, d + 1);
        let body_length = read_u64(s, d + 9);
        let hashed = crate::bytes::any_nonzero(&s[d + 17..d + 49]);
        let (directory, f) = read_wide(s, d + 81)?;
        if s.len() - f < 28 || read_u32(s, f) == 0 || read_u32(s, f + 4) == 0
            || !crate::bytes::any_nonzero(&s[f + 8..f + 24]) {
            return Err(WireError::Malformed);
        }
        let columns = read_u16(s, f + 24);
        let rows = read_u16(s, f + 26);
        let end = f + 28;
        let ghost base = read_status_base(s@);
        assert(base matches Ok(b) && b.end == end && b.columns == columns && b.rows == rows);
        let identity_ok = id.len() >= 2 && id[0] == 1 && id[1] == 0x2f;
        let commit_ok = if layout == 2 {
            slot <= 1 && commit != 0 && body_length != 0 && hashed
        } else {
            slot == 0xff && commit == 0 && body_length == 0 && !hashed
        };
        if !(identity_ok && crate::bytes::same_bytes(id, identity) && holder_generation == generation
            && crate::bytes::same_bytes(&s[a + 4..a + 20], &incarnation) && (layout == 0 || layout
            == 2) && (event_identity.len() == 0) == (layout == 0) && commit_ok && directory.len()
            != 0 && valid_size((rows, columns))) || s.len() - end != 69 {
            return Err(WireError::Malformed);
        }
        let t = &s[end..s.len()];
        let flags = t[32];
        let tail = StatusTail {
            columns,
            rows,
            replay: ReplayDescriptor {
                first: read_u64(t, 0),
                last: read_u64(t, 8),
                start: read_u64(t, 16),
                end: read_u64(t, 24),
                complete: flags & 1 != 0,
                modes_exact: flags & 2 != 0,
            },
            owns_lease: flags & 16 != 0,
            viewers: flags & 32 != 0,
            running: flags & 64 != 0,
            event_writable: flags & 128 != 0,
            lease_epoch: read_u32(t, 33),
            semantic_flags: t[37],
            semantic_pending: read_u16(t, 38),
            extension: StatusExtension {
                health: t[40],
                log_epoch: read_u32(t, 41),
                log_index: read_u64(t, 45),
                retained_start: read_u64(t, 53),
                retained_end: read_u64(t, 61),
            },
        };
        proof {
            assert(t@ =~= s@.subrange(end as int, s@.len() as int));
            assert(tail == spec_status_tail(columns, rows, t@));
        }
        if flags & 0x0c != 0 || !valid_extension(&tail.extension) || !valid_tail(&tail) {
            return Err(WireError::Malformed);
        }
        Ok(tail)
    }
}

proof fn lemma_flag_bits(c: bool, m: bool, o: bool, v: bool, r: bool, w: bool)
    ensures
        ({
            let f = (crate::wire::bit(c, 1) + crate::wire::bit(m, 2) + crate::wire::bit(o, 16)
                + crate::wire::bit(v, 32) + crate::wire::bit(r, 64) + crate::wire::bit(w, 128)) as u8;
            &&& (f & 1 != 0) == c
            &&& (f & 2 != 0) == m
            &&& (f & 16 != 0) == o
            &&& (f & 32 != 0) == v
            &&& (f & 64 != 0) == r
            &&& (f & 128 != 0) == w
            &&& f & 0x0c == 0
        }),
{
    let c1: u8 = if c { 1 } else { 0 };
    let m1: u8 = if m { 2 } else { 0 };
    let o1: u8 = if o { 16 } else { 0 };
    let v1: u8 = if v { 32 } else { 0 };
    let r1: u8 = if r { 64 } else { 0 };
    let w1: u8 = if w { 128 } else { 0 };
    let f: u8 = (c1 + m1 + o1 + v1 + r1 + w1) as u8;
    assert(f == (crate::wire::bit(c, 1) + crate::wire::bit(m, 2) + crate::wire::bit(o, 16)
        + crate::wire::bit(v, 32) + crate::wire::bit(r, 64) + crate::wire::bit(w, 128)) as u8);
    assert({
        &&& (f & 1 != 0) == c
        &&& (f & 2 != 0) == m
        &&& (f & 16 != 0) == o
        &&& (f & 32 != 0) == v
        &&& (f & 64 != 0) == r
        &&& (f & 128 != 0) == w
        &&& f & 0x0c == 0
    }) by (bit_vector)
        requires
            c1 == (if c { 1u8 } else { 0u8 }),
            m1 == (if m { 2u8 } else { 0u8 }),
            o1 == (if o { 16u8 } else { 0u8 }),
            v1 == (if v { 32u8 } else { 0u8 }),
            r1 == (if r { 64u8 } else { 0u8 }),
            w1 == (if w { 128u8 } else { 0u8 }),
            f == (c1 + m1 + o1 + v1 + r1 + w1) as u8,
    ;
}

/// Reading the tail bytes that a valid tail encodes to gives that tail back,
/// with the reserved flag bits clear.
pub proof fn lemma_status_tail_roundtrip(t: StatusTail)
    ensures
        spec_status_tail(t.columns, t.rows, t.layout()) == t,
        t.layout().len() == 69,
        t.layout()[32] & 0x0c == 0,
{
    let l = t.layout();
    let r = t.replay;
    let e = t.extension;
    crate::bytes::lemma_le64(r.first);
    crate::bytes::lemma_le64(r.last);
    crate::bytes::lemma_le64(r.start);
    crate::bytes::lemma_le64(r.end);
    crate::bytes::lemma_le32(t.lease_epoch);
    crate::bytes::lemma_le16(t.semantic_pending);
    crate::bytes::lemma_le32(e.log_epoch);
    crate::bytes::lemma_le64(e.log_index);
    crate::bytes::lemma_le64(e.retained_start);
    crate::bytes::lemma_le64(e.retained_end);
    lemma_flag_bits(r.complete, r.modes_exact, t.owns_lease, t.viewers, t.running, t.event_writable);
    assert(l.subrange(0, 8) =~= crate::bytes::le64(r.first));
    assert(l.subrange(8, 16) =~= crate::bytes::le64(r.last));
    assert(l.subrange(16, 24) =~= crate::bytes::le64(r.start));
    assert(l.subrange(24, 32) =~= crate::bytes::le64(r.end));
    assert(l[32] == t.flags());
    assert(l.subrange(33, 37) =~= crate::bytes::le32(t.lease_epoch));
    assert(l[37] == t.semantic_flags);
    assert(l.subrange(38, 40) =~= crate::bytes::le16(t.semantic_pending));
    assert(l[40] == e.health);
    assert(l.subrange(41, 45) =~= crate::bytes::le32(e.log_epoch));
    assert(l.subrange(45, 53) =~= crate::bytes::le64(e.log_index));
    assert(l.subrange(53, 61) =~= crate::bytes::le64(e.retained_start));
    assert(l.subrange(61, 69) =~= crate::bytes::le64(e.retained_end));
}

} // verus!
