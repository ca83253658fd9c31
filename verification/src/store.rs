//! The two-slot commit store: each commit record names the body slot that
//! holds the store's current contents, and of two valid records the one
//! with the higher index stands.
use crate::bytes::{le32, le64, push_all, push_u32, push_u64, read_u32, read_u64, u32_le, u64_le};
use crate::session::machine::spec_sha256;
use crate::wire::codec::spec_crc32c;
use vstd::prelude::*;

verus! {

/// What a store holds.
#[derive(Clone, Copy, Debug, PartialEq, Eq, Structural)]
pub enum Kind {
    Event,
    Log,
    Exit,
}

#[derive(Clone, Copy, Debug, PartialEq, Eq, Structural)]
pub enum StoreError {
    Corrupt,
    Exhausted,
}

pub open spec fn kind_ordinal(kind: Kind) -> u8 {
    match kind {
        Kind::Event => 1,
        Kind::Log => 2,
        Kind::Exit => 3,
    }
}

fn kind_byte(kind: Kind) -> (r: u8)
    ensures
        r == kind_ordinal(kind),
{
    match kind {
        Kind::Event => 1,
        Kind::Log => 2,
        Kind::Exit => 3,
    }
}

/// The largest body a store of each kind may hold.
pub open spec fn limit(kind: Kind) -> u64 {
    match kind {
        Kind::Event => 327680,
        Kind::Log => u64::MAX,
        Kind::Exit => 4194304,
    }
}

/// A commit record.
#[derive(Clone, Copy, Debug)]
pub struct Commit {
    pub slot: u8,
    pub body: u8,
    pub kind: Kind,
    pub generation: u32,
    pub epoch: u32,
    pub index: u64,
    pub length: u64,
    pub start: u64,
    pub end: u64,
    pub hash: [u8; 32],
}

/// The record's magic, then its version.
pub open spec fn commit_magic() -> Seq<u8> {
    seq![0x4du8, 0x4fu8, 0x4fu8, 0x52u8, 0x43u8, 0x4du8, 0x54u8, 0x31u8, 0x01u8]
}

impl Commit {
    /// A record names slots 0 or 1, a nonzero generation and index, a range
    /// that does not run backwards, and a body within its kind's limit.
    pub open spec fn valid(&self) -> bool {
        self.slot <= 1 && self.body <= 1 && self.generation != 0 && self.index != 0 && self.start
            <= self.end && self.length <= limit(self.kind)
    }

    /// The 88 bytes the checksum covers.
    pub open spec fn fields(&self) -> Seq<u8> {
        commit_magic() + seq![self.slot, self.body, kind_ordinal(self.kind)] + le32(self.generation)
            + le32(self.epoch) + seq![0u8, 0u8, 0u8, 0u8] + le64(self.index) + le64(self.length)
            + le64(self.start) + le64(self.end) + self.hash@
    }

    /// The 92-byte record: the fields and their CRC-32C.
    pub open spec fn layout(&self) -> Seq<u8> {
        self.fields() + le32(spec_crc32c(self.fields()))
    }

    fn is_valid(&self) -> (r: bool)
        ensures
            r == self.valid(),
    {
        let limit: u64 = match self.kind {
            Kind::Event => 327680,
            Kind::Log => u64::MAX,
            Kind::Exit => 4194304,
        };
        self.slot <= 1 && self.body <= 1 && self.generation != 0 && self.index != 0 && self.start
            <= self.end && self.length <= limit
    }

    /// Whether `body` is what the record names: as long as the record says,
    /// with the digest it holds; a log body spans the record's range under a
    /// nonzero epoch, and an event or exit body holds valid records
    /// (`records_valid`).
    pub fn holds(&self, body: &[u8], records_valid: bool) -> (r: bool)
        ensures
            r == (body@.len() == self.length && spec_sha256(body@) == self.hash@ && match self.kind {
                Kind::Log => self.epoch != 0 && self.start <= self.end && body@.len() == self.end - self.start,
                _ => records_valid,
            }),
    {
        if body.len() as u64 != self.length {
            return false;
        }
        let digest = crate::session::machine::sha256(body);
        if !crate::bytes::same_bytes(&digest, &self.hash) {
            return false;
        }
        match self.kind {
            Kind::Log => self.epoch != 0 && self.start <= self.end && body.len() as u64 == self.end - self.start,
            _ => records_valid,
        }
    }

    /// The record's bytes.
    pub fn encode(&self) -> (r: Vec<u8>)
        ensures
            r@ == self.layout(),
            r@.len() == 92,
    {
        let magic: [u8; 9] = [0x4d, 0x4f, 0x4f, 0x52, 0x43, 0x4d, 0x54, 0x31, 0x01];
        let mut out: Vec<u8> = Vec::new();
        push_all(&mut out, magic.as_slice());
        out.push(self.slot);
        out.push(self.body);
        out.push(kind_byte(self.kind));
        push_u32(&mut out, self.generation);
        push_u32(&mut out, self.epoch);
        out.push(0);
        out.push(0);
        out.push(0);
        out.push(0);
        push_u64(&mut out, self.index);
        push_u64(&mut out, self.length);
        push_u64(&mut out, self.start);
        push_u64(&mut out, self.end);
        push_all(&mut out, self.hash.as_slice());
        proof {
            assert(magic@ =~= commit_magic());
            assert(out@ =~= self.fields());
        }
        let checksum = crate::wire::codec::crc32c(out.as_slice());
        push_u32(&mut out, checksum);
        out
    }

    /// Reads the record of `slot` for a store of `kind`, of `generation`
    /// when one is expected: the magic, slot, kind, reserved bytes,
    /// generation and checksum must match, and the record must be valid.
    #[verifier::spinoff_prover]
    #[verifier::rlimit(50)]
    pub fn decode(bytes: &[u8], slot: u8, kind: Kind, generation: Option<u32>) -> (r: Option<Self>)
        requires
            bytes@.len() >= 92,
        ensures
            decodes_to(bytes@, slot, kind, generation, r),
    {
        let value = Commit {
            slot: bytes[9],
            body: bytes[10],
            kind,
            generation: read_u32(bytes, 12),
            epoch: read_u32(bytes, 16),
            index: read_u64(bytes, 24),
            length: read_u64(bytes, 32),
            start: read_u64(bytes, 40),
            end: read_u64(bytes, 48),
            hash: crate::bytes::array32(bytes, 56),
        };
        let magic: [u8; 9] = [0x4d, 0x4f, 0x4f, 0x52, 0x43, 0x4d, 0x54, 0x31, 0x01];
        let checksum = crate::wire::codec::crc32c(&bytes[0..88]);
        let matches = crate::bytes::same_bytes(&bytes[0..9], magic.as_slice()) && bytes[9] == slot
            && bytes[11] == kind_byte(kind) && bytes[20] == 0 && bytes[21] == 0 && bytes[22] == 0
            && bytes[23] == 0 && match generation {
            Some(g) => g == value.generation,
            None => true,
        } && read_u32(bytes, 88) == checksum;
        proof {
            let t = bytes@.take(92);
            crate::bytes::lemma_u32_le(bytes@.subrange(12, 16));
            crate::bytes::lemma_u32_le(bytes@.subrange(16, 20));
            crate::bytes::lemma_u64_le(bytes@.subrange(24, 32));
            crate::bytes::lemma_u64_le(bytes@.subrange(32, 40));
            crate::bytes::lemma_u64_le(bytes@.subrange(40, 48));
            crate::bytes::lemma_u64_le(bytes@.subrange(48, 56));
            crate::bytes::lemma_u32_le(bytes@.subrange(88, 92));
            assert(magic@ =~= commit_magic());
            if matches {
                assert(bytes@.subrange(0, 9) =~= commit_magic());
                assert(value.fields() =~= bytes@.subrange(0, 88));
                assert(value.layout() =~= t);
            }
            assert forall|c: Commit| #[trigger] c.layout() == t && c.valid() && c.slot == slot
                && c.kind == kind && (generation matches Some(g) ==> c.generation == g) implies matches && value.valid() by {
                lemma_commit_layout(c);
                assert(bytes@.subrange(0, 9) =~= t.subrange(0, 9));
                assert(bytes@.subrange(0, 88) =~= t.subrange(0, 88));
                assert(bytes@.subrange(12, 16) =~= t.subrange(12, 16));
                assert(bytes@.subrange(16, 20) =~= t.subrange(16, 20));
                assert(bytes@.subrange(24, 32) =~= t.subrange(24, 32));
                assert(bytes@.subrange(32, 40) =~= t.subrange(32, 40));
                assert(bytes@.subrange(40, 48) =~= t.subrange(40, 48));
                assert(bytes@.subrange(48, 56) =~= t.subrange(48, 56));
                assert(bytes@.subrange(88, 92) =~= t.subrange(88, 92));
                assert(bytes@[9] == t[9] && bytes@[10] == t[10] && bytes@[11] == t[11]);
                assert(bytes@[20] == t[20] && bytes@[21] == t[21] && bytes@[22] == t[22] && bytes@[23] == t[23]);
            }
        }
        if matches && value.is_valid() {
            Some(value)
        } else {
            None
        }
    }
}

/// What reading the record of `slot` for a store of `kind` from `bytes`
/// gives: a valid record of that slot and kind (and generation, when one
/// is expected) whose layout is the first 92 bytes, and one whenever such a
/// record exists.
pub open spec fn decodes_to(bytes: Seq<u8>, slot: u8, kind: Kind, generation: Option<u32>, r: Option<Commit>) -> bool {
    &&& r matches Some(c) ==> c.valid() && c.layout() == bytes.take(92) && c.slot == slot && c.kind == kind
        && (generation matches Some(g) ==> c.generation == g)
    &&& forall|c: Commit| #[trigger] c.layout() == bytes.take(92) && c.valid() && c.slot == slot && c.kind == kind
        && (generation matches Some(g) ==> c.generation == g) ==> r is Some
}

/// What is written is what is read: reading a valid record's bytes for
/// its own slot and kind, with its generation expected or none, gives the
/// record back; for another slot or kind it gives nothing.
pub proof fn lemma_commit_roundtrip(c: Commit, slot: u8, kind: Kind, generation: Option<u32>, r: Option<Commit>)
    requires
        c.valid(),
        decodes_to(c.layout(), slot, kind, generation, r),
        generation matches Some(g) ==> g == c.generation,
    ensures
        slot == c.slot && kind == c.kind ==> r == Some(c),
        slot != c.slot || kind != c.kind ==> r is None,
{
    lemma_commit_layout(c);
    assert(c.layout().take(92) =~= c.layout());
    if let Some(d) = r {
        lemma_commit_layout_determines(c, d);
        assert(d.hash =~= c.hash);
    }
}

/// Where a record's layout holds each of its fields.
pub proof fn lemma_commit_layout(c: Commit)
    ensures
        c.layout().len() == 92,
        c.layout().subrange(0, 9) == commit_magic(),
        c.layout()[9] == c.slot && c.layout()[10] == c.body && c.layout()[11] == kind_ordinal(c.kind),
        c.layout()[20] == 0 && c.layout()[21] == 0 && c.layout()[22] == 0 && c.layout()[23] == 0,
        u32_le(c.layout().subrange(12, 16)) == c.generation,
        u32_le(c.layout().subrange(16, 20)) == c.epoch,
        u64_le(c.layout().subrange(24, 32)) == c.index,
        u64_le(c.layout().subrange(32, 40)) == c.length,
        u64_le(c.layout().subrange(40, 48)) == c.start,
        u64_le(c.layout().subrange(48, 56)) == c.end,
        c.layout().subrange(56, 88) == c.hash@,
        c.layout().subrange(0, 88) == c.fields(),
        u32_le(c.layout().subrange(88, 92)) == spec_crc32c(c.fields()),
{
    let l = c.layout();
    crate::bytes::lemma_le32(c.generation);
    crate::bytes::lemma_le32(c.epoch);
    crate::bytes::lemma_le64(c.index);
    crate::bytes::lemma_le64(c.length);
    crate::bytes::lemma_le64(c.start);
    crate::bytes::lemma_le64(c.end);
    crate::bytes::lemma_le32(spec_crc32c(c.fields()));
    assert(l.subrange(0, 9) =~= commit_magic());
    assert(l.subrange(12, 16) =~= le32(c.generation));
    assert(l.subrange(16, 20) =~= le32(c.epoch));
    assert(l.subrange(24, 32) =~= le64(c.index));
    assert(l.subrange(32, 40) =~= le64(c.length));
    assert(l.subrange(40, 48) =~= le64(c.start));
    assert(l.subrange(48, 56) =~= le64(c.end));
    assert(l.subrange(56, 88) =~= c.hash@);
    assert(l.subrange(0, 88) =~= c.fields());
    assert(l.subrange(88, 92) =~= le32(spec_crc32c(c.fields())));
}

/// A record's bytes determine it: two records with the same layout agree in
/// every field, so decoding what `encode` wrote gives the record back.
pub proof fn lemma_commit_layout_determines(a: Commit, b: Commit)
    requires
        a.layout() == b.layout(),
    ensures
        a.slot == b.slot && a.body == b.body && a.kind == b.kind && a.generation == b.generation,
        a.epoch == b.epoch && a.index == b.index && a.length == b.length,
        a.start == b.start && a.end == b.end && a.hash@ == b.hash@,
{
    lemma_commit_layout(a);
    lemma_commit_layout(b);
    assert(a.layout()[11] == b.layout()[11]);
}

/// Of two commit candidates the one with the higher index, or the only
/// one; two with the same index or of different generations, or none at
/// all, mean the store is corrupt.
pub fn select_candidates<T>(left: Option<(Commit, T)>, right: Option<(Commit, T)>) -> (r: Result<
    (Commit, T),
    StoreError,
>)
    ensures
        match (left, right) {
            (Some(a), Some(b)) => if a.0.index == b.0.index || a.0.generation != b.0.generation {
                r == Err::<(Commit, T), StoreError>(StoreError::Corrupt)
            } else if a.0.index > b.0.index {
                r == Ok::<(Commit, T), StoreError>(a)
            } else {
                r == Ok::<(Commit, T), StoreError>(b)
            },
            (Some(a), None) => r == Ok::<(Commit, T), StoreError>(a),
            (None, Some(b)) => r == Ok::<(Commit, T), StoreError>(b),
            (None, None) => r == Err::<(Commit, T), StoreError>(StoreError::Corrupt),
        },
{
    match (left, right) {
        (Some(a), Some(b)) => {
            if a.0.index == b.0.index || a.0.generation != b.0.generation {
                Err(StoreError::Corrupt)
            } else if a.0.index > b.0.index {
                Ok(a)
            } else {
                Ok(b)
            }
        },
        (Some(a), None) => Ok(a),
        (None, Some(b)) => Ok(b),
        (None, None) => Err(StoreError::Corrupt),
    }
}

/// The epoch a replacement of `prior` must carry under `epoch`, and the
/// index it takes.
pub open spec fn expected_epoch(prior: Commit, epoch: u32) -> Option<u32> {
    let index = prior.index + 1;
    match prior.kind {
        Kind::Event => if epoch == prior.epoch {
            Some(epoch)
        } else if prior.epoch < u32::MAX {
            Some((prior.epoch + 1) as u32)
        } else {
            None
        },
        Kind::Log => if prior.epoch < u32::MAX {
            Some((prior.epoch + 1) as u32)
        } else {
            None
        },
        Kind::Exit => if index == 2 {
            Some(1u32)
        } else {
            None
        },
    }
}

/// The store's committed state: the record that stands.
pub struct Store {
    selected: Commit,
}

impl Store {
    pub closed spec fn spec_selected(&self) -> Commit {
        self.selected
    }

    /// The state of a store whose standing record is `selected`.
    pub fn from_commit(selected: Commit) -> (r: Self)
        requires
            selected.valid(),
        ensures
            r.spec_selected() == selected,
    {
        Store { selected }
    }

    /// The record that stands.
    pub fn selected(&self) -> (r: &Commit)
        ensures
            *r == self.spec_selected(),
    {
        &self.selected
    }

    /// Replaces the store's contents with `bytes` under `epoch`, for the
    /// event range `start` to `end`: the record goes to the other slots with
    /// the next index. `records_valid` says whether `bytes` hold valid event
    /// or lifecycle records for the new record, for stores of those kinds; a
    /// log body must be as long as its range. The record is taken once the
    /// runtime has written the body and the record.
    pub fn replace_with(&mut self, bytes: &[u8], epoch: u32, start: u64, end: u64, records_valid: bool) -> (r:
        Result<Commit, StoreError>)
        requires
            old(self).spec_selected().valid(),
        ensures
            final(self).spec_selected().valid(),
            ({
                let prior = old(self).spec_selected();
                if prior.index == u64::MAX || expected_epoch(prior, epoch) is None {
                    r == Err::<Commit, StoreError>(StoreError::Exhausted)
                } else if expected_epoch(prior, epoch) != Some(epoch) {
                    r == Err::<Commit, StoreError>(StoreError::Corrupt)
                } else {
                    let next = Commit {
                        slot: (1 - prior.slot) as u8,
                        body: (1 - prior.body) as u8,
                        kind: prior.kind,
                        generation: prior.generation,
                        epoch,
                        index: (prior.index + 1) as u64,
                        length: bytes@.len() as u64,
                        start,
                        end,
                        hash: r->Ok_0.hash,
                    };
                    let body_ok = match prior.kind {
                        Kind::Log => epoch != 0 && bytes@.len() == end - start,
                        _ => records_valid,
                    };
                    if next.valid() && body_ok {
                        r matches Ok(c) && c == next && c.hash@ == spec_sha256(bytes@)
                            && final(self).spec_selected() == c
                    } else {
                        r == Err::<Commit, StoreError>(StoreError::Corrupt)
                    }
                }
            }),
            r is Err ==> final(self).spec_selected() == old(self).spec_selected(),
    {
        let prior = self.selected;
        if prior.index == u64::MAX {
            return Err(StoreError::Exhausted);
        }
        let index = prior.index + 1;
        let expected = match prior.kind {
            Kind::Event => {
                if epoch == prior.epoch {
                    epoch
                } else if prior.epoch < u32::MAX {
                    prior.epoch + 1
                } else {
                    return Err(StoreError::Exhausted);
                }
            },
            Kind::Log => {
                if prior.epoch < u32::MAX {
                    prior.epoch + 1
                } else {
                    return Err(StoreError::Exhausted);
                }
            },
            Kind::Exit => {
                if index == 2 {
                    1
                } else {
                    return Err(StoreError::Exhausted);
                }
            },
        };
        if epoch != expected {
            return Err(StoreError::Corrupt);
        }
        let hash = crate::session::machine::sha256(bytes);
        let next = Commit {
            slot: 1 - prior.slot,
            body: 1 - prior.body,
            kind: prior.kind,
            generation: prior.generation,
            epoch,
            index,
            length: bytes.len() as u64,
            start,
            end,
            hash,
        };
        let body_ok = match prior.kind {
            Kind::Log => epoch != 0 && start <= end && bytes.len() as u64 == end - start,
            _ => records_valid,
        };
        if !(next.is_valid() && body_ok) {
            return Err(StoreError::Corrupt);
        }
        self.selected = next;
        Ok(next)
    }
}

/// What storing an append writes: `bytes` at `offset` in the body slot the
/// commit names (cutting the slot there when `truncate`), then the commit
/// record in its slot.
pub struct BodyWrite {
    pub commit: Commit,
    pub offset: u64,
    pub bytes: Vec<u8>,
    pub truncate: bool,
}

/// How many bytes a log capped at `cap` keeps of `length`.
pub open spec fn kept(length: int, cap: u64) -> int {
    if length <= cap {
        length
    } else {
        cap as int
    }
}

impl Store {
    /// Appends `bytes` of child output, ending at output offset `end`, to a
    /// log whose standing body is `body`, keeping at most `cap` bytes. While
    /// the log fits, the bytes are added after the body under the same
    /// epoch; otherwise the log is rewritten, under the next epoch, as the
    /// last `cap` bytes of the body and the bytes. Either way the log then
    /// holds the last bytes of the output it was given, up to `end`. The
    /// record is taken once the runtime has written the body and the record.
    pub fn append_capped(&mut self, body: &[u8], bytes: &[u8], cap: u64, end: u64) -> (r: Result<
        BodyWrite,
        StoreError,
    >)
        requires
            old(self).spec_selected().valid(),
            body@.len() == old(self).spec_selected().length,
            old(self).spec_selected().kind == Kind::Log ==> old(self).spec_selected().length
                == old(self).spec_selected().end - old(self).spec_selected().start,
        ensures
            final(self).spec_selected().valid(),
            final(self).spec_selected().kind == Kind::Log ==> final(self).spec_selected().length
                == final(self).spec_selected().end - final(self).spec_selected().start,
            r is Err ==> final(self).spec_selected() == old(self).spec_selected(),
            ({
                let prior = old(self).spec_selected();
                let length = prior.length + bytes@.len();
                let keep = kept(length, cap);
                let whole = body@ + bytes@;
                if prior.kind != Kind::Log || prior.end + bytes@.len() != end {
                    r == Err::<BodyWrite, StoreError>(StoreError::Corrupt)
                } else if length > u64::MAX || prior.index == u64::MAX || (length > cap && prior.epoch
                    == u32::MAX) {
                    r == Err::<BodyWrite, StoreError>(StoreError::Exhausted)
                } else {
                    r matches Ok(w) && w.commit == final(self).spec_selected() && w.commit.index == prior.index + 1
                        && w.commit.kind == Kind::Log && w.commit.generation == prior.generation
                        && w.commit.slot == 1 - prior.slot && w.commit.end == end && w.commit.length == keep
                        && w.commit.start == end - keep && w.commit.hash@ == spec_sha256(whole.skip(length - keep))
                        && if length <= cap {
                        &&& w.commit.body == prior.body && w.commit.epoch == prior.epoch
                        &&& w.offset == prior.length && w.bytes@ == bytes@ && !w.truncate
                    } else {
                        &&& w.commit.body == 1 - prior.body && w.commit.epoch == prior.epoch + 1
                        &&& w.offset == 0 && w.bytes@ == whole.skip(length - keep) && w.truncate
                    }
                }
            }),
    {
        let prior = self.selected;
        let added = bytes.len() as u64;
        match prior.kind {
            Kind::Log => {},
            _ => {
                return Err(StoreError::Corrupt);
            },
        }
        if prior.end > u64::MAX - added || prior.end + added != end {
            return Err(StoreError::Corrupt);
        }
        if prior.length > u64::MAX - added {
            return Err(StoreError::Exhausted);
        }
        let length = prior.length + added;
        if prior.index == u64::MAX {
            return Err(StoreError::Exhausted);
        }
        if length <= cap {
            let mut whole: Vec<u8> = crate::bytes::to_vec(body);
            crate::bytes::push_all(&mut whole, bytes);
            let hash = crate::session::machine::sha256(whole.as_slice());
            let next = Commit { slot: 1 - prior.slot, index: prior.index + 1, length, end, hash, ..prior };
            proof {
                assert(whole@ =~= (body@ + bytes@).skip(0));
            }
            self.selected = next;
            return Ok(BodyWrite { commit: next, offset: prior.length, bytes: crate::bytes::to_vec(bytes), truncate: false });
        }
        if prior.epoch == u32::MAX {
            return Err(StoreError::Exhausted);
        }
        let keep = cap;
        let fresh = if added < keep { added } else { keep };
        let old = keep - fresh;
        let mut retained: Vec<u8> = Vec::new();
        let from = (prior.length - old) as usize;
        let mut i: usize = from;
        while i < body.len()
            invariant
                from <= i <= body@.len(),
                retained@ == body@.subrange(from as int, i as int),
            decreases body.len() - i,
        {
            retained.push(body[i]);
            i = i + 1;
            proof {
                assert(retained@ =~= body@.subrange(from as int, i as int));
            }
        }
        let tail_from = bytes.len() - fresh as usize;
        let mut j: usize = tail_from;
        let ghost base = retained@;
        while j < bytes.len()
            invariant
                tail_from <= j <= bytes@.len(),
                retained@ == base + bytes@.subrange(tail_from as int, j as int),
            decreases bytes.len() - j,
        {
            retained.push(bytes[j]);
            j = j + 1;
            proof {
                assert(retained@ =~= base + bytes@.subrange(tail_from as int, j as int));
            }
        }
        proof {
            let whole = body@ + bytes@;
            assert(retained@ =~= whole.skip(length - keep));
        }
        let hash = crate::session::machine::sha256(retained.as_slice());
        let next = Commit {
            slot: 1 - prior.slot,
            body: 1 - prior.body,
            kind: Kind::Log,
            generation: prior.generation,
            epoch: prior.epoch + 1,
            index: prior.index + 1,
            length: keep,
            start: end - keep,
            end,
            hash,
        };
        self.selected = next;
        Ok(BodyWrite { commit: next, offset: 0, bytes: retained, truncate: true })
    }
}

} // verus!
