//! Little-endian integer layouts and small byte-sequence helpers shared by
//! every wire and record format of the library.
use vstd::prelude::*;

verus! {

/// The two little-endian bytes of `v`.
pub open spec fn le16(v: u16) -> Seq<u8> {
    seq![(v & 0xff) as u8, (v >> 8) as u8]
}

/// The four little-endian bytes of `v`.
pub open spec fn le32(v: u32) -> Seq<u8> {
    seq![(v & 0xff) as u8, ((v >> 8) & 0xff) as u8, ((v >> 16) & 0xff) as u8, (v >> 24) as u8]
}

/// The eight little-endian bytes of `v`.
pub open spec fn le64(v: u64) -> Seq<u8> {
    seq![
        (v & 0xff) as u8,
        ((v >> 8) & 0xff) as u8,
        ((v >> 16) & 0xff) as u8,
        ((v >> 24) & 0xff) as u8,
        ((v >> 32) & 0xff) as u8,
        ((v >> 40) & 0xff) as u8,
        ((v >> 48) & 0xff) as u8,
        (v >> 56) as u8,
    ]
}

/// The integer whose little-endian bytes start `s`.
pub open spec fn u16_le(s: Seq<u8>) -> u16 {
    (s[0] as u16) | ((s[1] as u16) << 8u16)
}

pub open spec fn u32_le(s: Seq<u8>) -> u32 {
    (s[0] as u32) | ((s[1] as u32) << 8u32) | ((s[2] as u32) << 16u32) | ((s[3] as u32) << 24u32)
}

pub open spec fn u64_le(s: Seq<u8>) -> u64 {
    (s[0] as u64) | ((s[1] as u64) << 8u64) | ((s[2] as u64) << 16u64) | ((s[3] as u64) << 24u64)
        | ((s[4] as u64) << 32u64) | ((s[5] as u64) << 40u64) | ((s[6] as u64) << 48u64) | ((
    s[7] as u64) << 56u64)
}

/// Some byte of `s` is not zero.
pub open spec fn nonzero(s: Seq<u8>) -> bool {
    exists|i: int| 0 <= i < s.len() && s[i] != 0
}

pub proof fn lemma_le16(v: u16)
    ensures
        u16_le(le16(v)) == v,
        le16(v).len() == 2,
{
    assert(((v & 0xff) as u8 as u16) | ((((v >> 8) as u8) as u16) << 8u16) == v) by (bit_vector);
}

pub proof fn lemma_le32(v: u32)
    ensures
        u32_le(le32(v)) == v,
        le32(v).len() == 4,
{
    assert(((v & 0xff) as u8 as u32) | ((((v >> 8) & 0xff) as u8 as u32) << 8u32) | ((((v >> 16)
        & 0xff) as u8 as u32) << 16u32) | ((((v >> 24) as u8) as u32) << 24u32) == v)
        by (bit_vector);
}

pub proof fn lemma_le64(v: u64)
    ensures
        u64_le(le64(v)) == v,
        le64(v).len() == 8,
{
    assert(((v & 0xff) as u8 as u64) | ((((v >> 8) & 0xff) as u8 as u64) << 8u64) | ((((v >> 16)
        & 0xff) as u8 as u64) << 16u64) | ((((v >> 24) & 0xff) as u8 as u64) << 24u64) | ((((v
        >> 32) & 0xff) as u8 as u64) << 32u64) | ((((v >> 40) & 0xff) as u8 as u64) << 40u64) | ((((
    v >> 48) & 0xff) as u8 as u64) << 48u64) | ((((v >> 56) as u8) as u64) << 56u64) == v)
        by (bit_vector);
}

pub proof fn lemma_u16_le(s: Seq<u8>)
    requires
        s.len() == 2,
    ensures
        le16(u16_le(s)) == s,
{
    let (a, b) = (s[0], s[1]);
    assert((((a as u16) | ((b as u16) << 8u16)) & 0xff) as u8 == a && (((a as u16) | ((b as u16)
        << 8u16)) >> 8u16) as u8 == b) by (bit_vector);
    assert(le16(u16_le(s)) =~= s);
}

pub proof fn lemma_u32_le(s: Seq<u8>)
    requires
        s.len() == 4,
    ensures
        le32(u32_le(s)) == s,
{
    let (a, b, c, d) = (s[0], s[1], s[2], s[3]);
    let v = u32_le(s);
    assert(v == (a as u32) | ((b as u32) << 8u32) | ((c as u32) << 16u32) | ((d as u32) << 24u32));
    assert(v == (a as u32) | ((b as u32) << 8u32) | ((c as u32) << 16u32) | ((d as u32) << 24u32)
        ==> (v & 0xff) as u8 == a && ((v >> 8) & 0xff) as u8 == b && ((v >> 16) & 0xff) as u8 == c
        && (v >> 24) as u8 == d) by (bit_vector);
    assert(le32(u32_le(s)) =~= s);
}

pub proof fn lemma_u64_le(s: Seq<u8>)
    requires
        s.len() == 8,
    ensures
        le64(u64_le(s)) == s,
{
    let (a, b, c, d, e, f, g, h) = (s[0], s[1], s[2], s[3], s[4], s[5], s[6], s[7]);
    let v = u64_le(s);
    assert(v == (a as u64) | ((b as u64) << 8u64) | ((c as u64) << 16u64) | ((d as u64) << 24u64)
        | ((e as u64) << 32u64) | ((f as u64) << 40u64) | ((g as u64) << 48u64) | ((h as u64)
        << 56u64));
    assert(v == (a as u64) | ((b as u64) << 8u64) | ((c as u64) << 16u64) | ((d as u64) << 24u64)
        | ((e as u64) << 32u64) | ((f as u64) << 40u64) | ((g as u64) << 48u64) | ((h as u64)
        << 56u64) ==> (v & 0xff) as u8 == a && ((v >> 8) & 0xff) as u8 == b && ((v >> 16) & 0xff)
        as u8 == c && ((v >> 24) & 0xff) as u8 == d && ((v >> 32) & 0xff) as u8 == e && ((v >> 40)
        & 0xff) as u8 == f && ((v >> 48) & 0xff) as u8 == g && (v >> 56) as u8 == h)
        by (bit_vector);
    assert(le64(u64_le(s)) =~= s);
}

/// Appends the little-endian bytes of `v`.
pub fn push_u16(out: &mut Vec<u8>, v: u16)
    ensures
        final(out)@ == old(out)@ + le16(v),
{
    out.push((v & 0xff) as u8);
    out.push((v >> 8) as u8);
    assert(final(out)@ =~= old(out)@ + le16(v));
}

pub fn push_u32(out: &mut Vec<u8>, v: u32)
    ensures
        final(out)@ == old(out)@ + le32(v),
{
    out.push((v & 0xff) as u8);
    out.push(((v >> 8) & 0xff) as u8);
    out.push(((v >> 16) & 0xff) as u8);
    out.push((v >> 24) as u8);
    assert(final(out)@ =~= old(out)@ + le32(v));
}

pub fn push_u64(out: &mut Vec<u8>, v: u64)
    ensures
        final(out)@ == old(out)@ + le64(v),
{
    out.push((v & 0xff) as u8);
    out.push(((v >> 8) & 0xff) as u8);
    out.push(((v >> 16) & 0xff) as u8);
    out.push(((v >> 24) & 0xff) as u8);
    out.push(((v >> 32) & 0xff) as u8);
    out.push(((v >> 40) & 0xff) as u8);
    out.push(((v >> 48) & 0xff) as u8);
    out.push((v >> 56) as u8);
    assert(final(out)@ =~= old(out)@ + le64(v));
}

/// Appends every byte of `bytes`.
pub fn push_all(out: &mut Vec<u8>, bytes: &[u8])
    ensures
        final(out)@ == old(out)@ + bytes@,
{
    let ghost start = out@;
    let mut i: usize = 0;
    while i < bytes.len()
        invariant
            i <= bytes.len(),
            out@ == start + bytes@.subrange(0, i as int),
        decreases bytes.len() - i,
    {
        out.push(bytes[i]);
        i = i + 1;
        assert(out@ =~= start + bytes@.subrange(0, i as int));
    }
    assert(bytes@.subrange(0, bytes.len() as int) =~= bytes@);
}

/// Reads the little-endian integer at `at`.
pub fn read_u16(bytes: &[u8], at: usize) -> (r: u16)
    requires
        at + 2 <= bytes.len(),
    ensures
        r == u16_le(bytes@.subrange(at as int, at + 2)),
{
    (bytes[at] as u16) | ((bytes[at + 1] as u16) << 8u16)
}

pub fn read_u32(bytes: &[u8], at: usize) -> (r: u32)
    requires
        at + 4 <= bytes.len(),
    ensures
        r == u32_le(bytes@.subrange(at as int, at + 4)),
{
    (bytes[at] as u32) | ((bytes[at + 1] as u32) << 8u32) | ((bytes[at + 2] as u32) << 16u32) | ((
    bytes[at + 3] as u32) << 24u32)
}

pub fn read_u64(bytes: &[u8], at: usize) -> (r: u64)
    requires
        at + 8 <= bytes.len(),
    ensures
        r == u64_le(bytes@.subrange(at as int, at + 8)),
{
    (bytes[at] as u64) | ((bytes[at + 1] as u64) << 8u64) | ((bytes[at + 2] as u64) << 16u64) | ((
    bytes[at + 3] as u64) << 24u64) | ((bytes[at + 4] as u64) << 32u64) | ((bytes[at + 5] as u64)
        << 40u64) | ((bytes[at + 6] as u64) << 48u64) | ((bytes[at + 7] as u64) << 56u64)
}

/// Whether some byte of `bytes` is not zero.
pub fn any_nonzero(bytes: &[u8]) -> (r: bool)
    ensures
        r == nonzero(bytes@),
{
    let mut i: usize = 0;
    while i < bytes.len()
        invariant
            i <= bytes.len(),
            forall|j: int| 0 <= j < i ==> bytes@[j] == 0,
        decreases bytes.len() - i,
    {
        if bytes[i] != 0 {
            return true;
        }
        i = i + 1;
    }
    false
}

/// Whether two byte sequences are equal.
pub fn same_bytes(a: &[u8], b: &[u8]) -> (r: bool)
    ensures
        r == (a@ == b@),
{
    if a.len() != b.len() {
        return false;
    }
    let mut i: usize = 0;
    while i < a.len()
        invariant
            i <= a.len(),
            a.len() == b.len(),
            forall|j: int| 0 <= j < i ==> a@[j] == b@[j],
        decreases a.len() - i,
    {
        if a[i] != b[i] {
            return false;
        }
        i = i + 1;
    }
    assert(a@ =~= b@);
    true
}

/// Copies `bytes` into a new vector.
pub fn to_vec(bytes: &[u8]) -> (r: Vec<u8>)
    ensures
        r@ == bytes@,
{
    let mut out = Vec::new();
    push_all(&mut out, bytes);
    out
}

/// Copies the 16 bytes at `at` into an identifier array.
pub fn array16(bytes: &[u8], at: usize) -> (r: [u8; 16])
    requires
        at + 16 <= bytes.len(),
    ensures
        r@ == bytes@.subrange(at as int, at + 16),
{
    let mut out = [0u8; 16];
    let mut i: usize = 0;
    while i < 16
        invariant
            i <= 16,
            at + 16 <= bytes.len(),
            forall|j: int| 0 <= j < i ==> out@[j] == bytes@[at + j],
        decreases 16 - i,
    {
        out[i] = bytes[at + i];
        i = i + 1;
    }
    assert(out@ =~= bytes@.subrange(at as int, at + 16));
    out
}


/// `a` orders strictly before `b` byte by byte, a proper prefix first.
pub open spec fn seq_lt(a: Seq<u8>, b: Seq<u8>) -> bool {
    exists|k: int| #[trigger] differs_at(a, b, k)
}

/// `a` and `b` agree before `k`, and at `k` either `a` has ended while `b`
/// goes on or `a` holds the smaller byte.
pub open spec fn differs_at(a: Seq<u8>, b: Seq<u8>, k: int) -> bool {
    &&& 0 <= k <= a.len()
    &&& k < b.len()
    &&& forall|j: int| 0 <= j < k ==> a[j] == b[j]
    &&& (k == a.len() || a[k] < b[k])
}

/// No sequence orders before itself, and of two that do order, exactly one
/// comes first.
pub proof fn lemma_seq_lt_asymmetric(a: Seq<u8>, b: Seq<u8>)
    ensures
        !(seq_lt(a, b) && seq_lt(b, a)),
        !seq_lt(a, a),
{
    if seq_lt(a, b) && seq_lt(b, a) {
        let k1 = choose|k: int| differs_at(a, b, k);
        let k2 = choose|k: int| differs_at(b, a, k);
        if k1 < k2 {
            assert(a[k1] == b[k1]);
        } else if k2 < k1 {
            assert(b[k2] == a[k2]);
        }
    }
    if seq_lt(a, a) {
        let k = choose|k: int| differs_at(a, a, k);
    }
}

/// The order is transitive.
pub proof fn lemma_seq_lt_transitive(a: Seq<u8>, b: Seq<u8>, c: Seq<u8>)
    requires
        seq_lt(a, b),
        seq_lt(b, c),
    ensures
        seq_lt(a, c),
{
    let k1 = choose|k: int| differs_at(a, b, k);
    let k2 = choose|k: int| differs_at(b, c, k);
    if k1 <= k2 {
        assert(differs_at(a, c, k1));
    } else {
        assert(differs_at(a, c, k2));
    }
}

/// Compares two byte strings in that order: negative, zero or positive.
pub fn lex_order(a: &[u8], b: &[u8]) -> (r: i8)
    ensures
        r < 0 <==> seq_lt(a@, b@),
        r == 0 <==> a@ == b@,
        r > 0 <==> seq_lt(b@, a@),
{
    let mut i: usize = 0;
    while i < a.len() && i < b.len() && a[i] == b[i]
        invariant
            i <= a.len() && i <= b.len(),
            forall|j: int| 0 <= j < i ==> a@[j] == b@[j],
        decreases a.len() - i,
    {
        i = i + 1;
    }
    proof {
        lemma_seq_lt_asymmetric(a@, b@);
    }
    if i < a.len() && i < b.len() {
        if a[i] < b[i] {
            assert(differs_at(a@, b@, i as int));
            return -1;
        } else {
            assert(differs_at(b@, a@, i as int));
            return 1;
        }
    }
    if i < b.len() {
        assert(differs_at(a@, b@, i as int));
        -1
    } else if i < a.len() {
        assert(differs_at(b@, a@, i as int));
        1
    } else {
        assert(a@ =~= b@);
        0
    }
}

pub fn array32(bytes: &[u8], at: usize) -> (r: [u8; 32])
    requires
        at + 32 <= bytes.len(),
    ensures
        r@ == bytes@.subrange(at as int, at + 32),
{
    let mut out = [0u8; 32];
    let mut i: usize = 0;
    while i < 32
        invariant
            i <= 32,
            at + 32 <= bytes.len(),
            forall|j: int| 0 <= j < i ==> out@[j] == bytes@[at + j],
        decreases 32 - i,
    {
        out[i] = bytes[at + i];
        i = i + 1;
    }
    assert(out@ =~= bytes@.subrange(at as int, at + 32));
    out
}


/// Of two different sequences, one orders before the other.
pub proof fn lemma_seq_lt_total(a: Seq<u8>, b: Seq<u8>)
    ensures
        a == b || seq_lt(a, b) || seq_lt(b, a),
    decreases a.len(),
{
    if a.len() == 0 {
        if b.len() > 0 {
            assert(differs_at(a, b, 0));
        } else {
            assert(a =~= b);
        }
    } else if b.len() == 0 {
        assert(differs_at(b, a, 0));
    } else if a[0] != b[0] {
        if a[0] < b[0] {
            assert(differs_at(a, b, 0));
        } else {
            assert(differs_at(b, a, 0));
        }
    } else {
        let (x, y) = (a.drop_first(), b.drop_first());
        lemma_seq_lt_total(x, y);
        if x == y {
            assert forall|j: int| 0 <= j < a.len() implies a[j] == b[j] by {
                if j > 0 {
                    assert(x[j - 1] == y[j - 1]);
                }
            }
            assert(a.len() == b.len());
            assert(a =~= b);
        } else if seq_lt(x, y) {
            let k = choose|k: int| differs_at(x, y, k);
            assert forall|j: int| 0 <= j < k + 1 implies a[j] == b[j] by {
                if j > 0 {
                    assert(x[j - 1] == y[j - 1]);
                }
            }
            assert(differs_at(a, b, k + 1));
        } else {
            let k = choose|k: int| differs_at(y, x, k);
            assert forall|j: int| 0 <= j < k + 1 implies b[j] == a[j] by {
                if j > 0 {
                    assert(y[j - 1] == x[j - 1]);
                }
            }
            assert(differs_at(b, a, k + 1));
        }
    }
}

} // verus!
