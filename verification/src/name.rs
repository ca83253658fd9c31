//! Session names: which byte strings name a session, and how a name or a
//! program path is shown to a user.
use vstd::prelude::*;

verus! {

/// A byte shown as itself: an ASCII letter or digit, `.`, `_`, `/` or `-`.
pub open spec fn plain_byte(b: u8) -> bool {
    (0x30 <= b <= 0x39) || (0x41 <= b <= 0x5a) || (0x61 <= b <= 0x7a) || b == 0x2e || b == 0x5f || b
        == 0x2f || b == 0x2d
}

/// An uppercase hexadecimal digit.
pub open spec fn upper_digit(v: u8) -> u8 {
    if v < 10 {
        (0x30 + v) as u8
    } else {
        (0x37 + v) as u8
    }
}

/// How a byte is shown: itself, or `\x` and two uppercase hex digits.
pub open spec fn shown(b: u8) -> Seq<u8> {
    if plain_byte(b) {
        seq![b]
    } else {
        seq![0x5cu8, 0x78u8, upper_digit(b / 16), upper_digit(b % 16)]
    }
}

pub open spec fn rendered(s: Seq<u8>) -> Seq<u8>
    decreases s.len(),
{
    if s.len() == 0 {
        Seq::empty()
    } else {
        rendered(s.drop_last()) + shown(s.last())
    }
}

fn is_plain(b: u8) -> (r: bool)
    ensures
        r == plain_byte(b),
{
    (0x30 <= b && b <= 0x39) || (0x41 <= b && b <= 0x5a) || (0x61 <= b && b <= 0x7a) || b == 0x2e || b
        == 0x5f || b == 0x2f || b == 0x2d
}

/// Appends how `raw` is shown.
pub fn push_rendered(out: &mut Vec<u8>, raw: &[u8])
    ensures
        final(out)@ == old(out)@ + rendered(raw@),
{
    let ghost start = out@;
    let mut i: usize = 0;
    while i < raw.len()
        invariant
            i <= raw@.len(),
            out@ == start + rendered(raw@.take(i as int)),
        decreases raw.len() - i,
    {
        let b = raw[i];
        if is_plain(b) {
            out.push(b);
        } else {
            let high = b / 16;
            let low = b % 16;
            out.push(0x5c);
            out.push(0x78);
            out.push(if high < 10 { 0x30 + high } else { 0x37 + high });
            out.push(if low < 10 { 0x30 + low } else { 0x37 + low });
        }
        proof {
            assert(raw@.take(i + 1).drop_last() =~= raw@.take(i as int));
            assert(raw@.take(i + 1).last() == b);
        }
        i = i + 1;
        assert(out@ =~= start + rendered(raw@.take(i as int)));
    }
    assert(raw@.take(raw@.len() as int) =~= raw@);
}

/// How a session name is shown: plain bytes as they are, others escaped.
pub fn render(value: &[u8]) -> (r: Vec<u8>)
    ensures
        r@ == rendered(value@),
{
    let mut out: Vec<u8> = Vec::new();
    push_rendered(&mut out, value);
    out
}

/// Where the last path component starts: after the last `/`.
pub open spec fn last_part_start(s: Seq<u8>, i: int) -> int
    decreases i,
{
    if i <= 0 {
        0
    } else if s[i - 1] == 0x2f {
        i
    } else {
        last_part_start(s, i - 1)
    }
}

pub open spec fn last_part(s: Seq<u8>) -> Seq<u8> {
    s.subrange(last_part_start(s, s.len() as int), s.len() as int)
}

proof fn lemma_last_part_start(s: Seq<u8>, i: int)
    requires
        0 <= i <= s.len(),
    ensures
        0 <= last_part_start(s, i) <= i,
    decreases i,
{
    if i > 0 && s[i - 1] != 0x2f {
        lemma_last_part_start(s, i - 1);
    }
}

fn last_part_at(raw: &[u8]) -> (r: usize)
    ensures
        r == last_part_start(raw@, raw@.len() as int),
        r <= raw@.len(),
{
    proof {
        lemma_last_part_start(raw@, raw@.len() as int);
    }
    let mut i: usize = raw.len();
    while i > 0 && raw[i - 1] != 0x2f
        invariant
            i <= raw@.len(),
            last_part_start(raw@, raw@.len() as int) == last_part_start(raw@, i as int),
        decreases i,
    {
        i = i - 1;
    }
    i
}

/// How the program is named in messages: the last component of the path it
/// was invoked by, shown as a name, or `moor` when that is empty.
pub open spec fn program_text(s: Seq<u8>) -> Seq<u8> {
    if last_part(s).len() == 0 {
        seq![0x6du8, 0x6f, 0x6f, 0x72]
    } else {
        rendered(last_part(s))
    }
}

pub fn program(value: &[u8]) -> (r: Vec<u8>)
    ensures
        r@ == program_text(value@),
{
    let at = last_part_at(value);
    let base = &value[at..value.len()];
    if base.len() == 0 {
        let mut out: Vec<u8> = Vec::new();
        out.push(0x6d);
        out.push(0x6f);
        out.push(0x6f);
        out.push(0x72);
        assert(out@ =~= seq![0x6du8, 0x6f, 0x6f, 0x72]);
        out
    } else {
        render(base)
    }
}

/// The suffixes that name a session's companion artifacts.
pub open spec fn artifact_suffixes() -> Seq<Seq<u8>> {
    seq![
        seq![0x2eu8, 0x6c, 0x6f, 0x67],
        seq![0x2eu8, 0x65, 0x76, 0x65, 0x6e, 0x74, 0x73],
        seq![0x2eu8, 0x65, 0x78, 0x69, 0x74],
        seq![0x2eu8, 0x69, 0x6e, 0x73, 0x74, 0x72, 0x75, 0x6d, 0x65, 0x6e, 0x74],
    ]
}

pub open spec fn ends_with(s: Seq<u8>, suffix: Seq<u8>) -> bool {
    s.len() >= suffix.len() && s.subrange(s.len() - suffix.len(), s.len() as int) == suffix
}

/// The length of the first artifact suffix that `raw` ends with.
pub open spec fn spec_artifact_suffix_len(s: Seq<u8>) -> Option<usize> {
    if ends_with(s, artifact_suffixes()[0]) {
        Some(4usize)
    } else if ends_with(s, artifact_suffixes()[1]) {
        Some(7usize)
    } else if ends_with(s, artifact_suffixes()[2]) {
        Some(5usize)
    } else if ends_with(s, artifact_suffixes()[3]) {
        Some(11usize)
    } else {
        None
    }
}

/// A suffix found fits in the name.
pub proof fn lemma_suffix_fits(s: Seq<u8>)
    ensures
        spec_artifact_suffix_len(s) matches Some(n) ==> n <= s.len(),
{
}

fn ends_with_bytes(s: &[u8], suffix: &[u8]) -> (r: bool)
    ensures
        r == ends_with(s@, suffix@),
{
    if s.len() < suffix.len() {
        return false;
    }
    let at = s.len() - suffix.len();
    let tail = &s[at..s.len()];
    crate::bytes::same_bytes(tail, suffix)
}

pub fn artifact_suffix_len(raw: &[u8]) -> (r: Option<usize>)
    ensures
        r == spec_artifact_suffix_len(raw@),
{
    let log: [u8; 4] = [0x2e, 0x6c, 0x6f, 0x67];
    let events: [u8; 7] = [0x2e, 0x65, 0x76, 0x65, 0x6e, 0x74, 0x73];
    let exit: [u8; 5] = [0x2e, 0x65, 0x78, 0x69, 0x74];
    let instrument: [u8; 11] = [0x2e, 0x69, 0x6e, 0x73, 0x74, 0x72, 0x75, 0x6d, 0x65, 0x6e, 0x74];
    proof {
        assert(log@ =~= artifact_suffixes()[0]);
        assert(events@ =~= artifact_suffixes()[1]);
        assert(exit@ =~= artifact_suffixes()[2]);
        assert(instrument@ =~= artifact_suffixes()[3]);
    }
    if ends_with_bytes(raw, &log) {
        Some(4)
    } else if ends_with_bytes(raw, &events) {
        Some(7)
    } else if ends_with_bytes(raw, &exit) {
        Some(5)
    } else if ends_with_bytes(raw, &instrument) {
        Some(11)
    } else {
        None
    }
}

/// A session name: not empty, no NUL byte, not ending in `/`, its last
/// component not `.` or `..`, and not ending in an artifact suffix.
pub open spec fn spec_valid_session(s: Seq<u8>) -> bool {
    &&& s.len() > 0
    &&& forall|i: int| 0 <= i < s.len() ==> #[trigger] s[i] != 0
    &&& s[s.len() - 1] != 0x2f
    &&& last_part(s) != seq![0x2eu8]
    &&& last_part(s) != seq![0x2eu8, 0x2eu8]
    &&& spec_artifact_suffix_len(last_part(s)) is None
}

/// Whether `part` ends in the characters of `tail`.
pub open spec fn ends_in(part: Seq<u8>, tail: Seq<char>) -> bool {
    part.len() >= tail.len() && forall|i: int|
        0 <= i < tail.len() ==> #[trigger] part[part.len() - tail.len() + i] == tail[i] as u8
}

proof fn lemma_ends_in(part: Seq<u8>, tail: Seq<char>, bytes: Seq<u8>)
    requires
        bytes.len() == tail.len(),
        forall|i: int| 0 <= i < tail.len() ==> bytes[i] == #[trigger] tail[i] as u8,
    ensures
        ends_with(part, bytes) == ends_in(part, tail),
{
    if part.len() >= tail.len() {
        let k = part.len() - tail.len();
        if ends_in(part, tail) {
            assert forall|i: int| 0 <= i < bytes.len() implies part.subrange(k, part.len() as int)[i] == bytes[i] by {
                assert(part[k + i] == tail[i] as u8);
            }
            assert(part.subrange(k, part.len() as int) =~= bytes);
        }
        if ends_with(part, bytes) {
            assert forall|i: int| 0 <= i < tail.len() implies #[trigger] part[part.len() - tail.len() + i]
                == tail[i] as u8 by {
                assert(part.subrange(k, part.len() as int)[i] == bytes[i]);
            }
        }
    }
}

/// A session name never names an artifact of another session: its last
/// path component ends in none of `.log`, `.events`, `.exit` and
/// `.instrument`.
pub proof fn lemma_session_is_no_artifact(s: Seq<u8>)
    requires
        spec_valid_session(s),
    ensures
        !ends_in(last_part(s), ".log"@),
        !ends_in(last_part(s), ".events"@),
        !ends_in(last_part(s), ".exit"@),
        !ends_in(last_part(s), ".instrument"@),
{
    lemma_session_names(s);
}

/// Which session names are accepted: exactly the nonempty ones without a
/// NUL byte or a trailing `/`, whose last path component is neither `.` nor
/// `..` and ends in none of the artifact suffixes.
pub proof fn lemma_session_names(s: Seq<u8>)
    ensures
        spec_valid_session(s) <==> {
            &&& s.len() > 0
            &&& forall|i: int| 0 <= i < s.len() ==> #[trigger] s[i] != 0
            &&& s.last() != '/' as u8
            &&& last_part(s) != seq!['.' as u8]
            &&& last_part(s) != seq!['.' as u8, '.' as u8]
            &&& !ends_in(last_part(s), ".log"@)
            &&& !ends_in(last_part(s), ".events"@)
            &&& !ends_in(last_part(s), ".exit"@)
            &&& !ends_in(last_part(s), ".instrument"@)
        },
{
    reveal_strlit(".log");
    reveal_strlit(".events");
    reveal_strlit(".exit");
    reveal_strlit(".instrument");
    let p = last_part(s);
    let t = artifact_suffixes();
    lemma_ends_in(p, ".log"@, t[0]);
    lemma_ends_in(p, ".events"@, t[1]);
    lemma_ends_in(p, ".exit"@, t[2]);
    lemma_ends_in(p, ".instrument"@, t[3]);
}

pub fn valid_session(value: &[u8]) -> (r: bool)
    ensures
        r == spec_valid_session(value@),
{
    let n = value.len();
    if n == 0 {
        return false;
    }
    let mut i: usize = 0;
    while i < n
        invariant
            i <= n == value@.len(),
            forall|j: int| 0 <= j < i ==> #[trigger] value@[j] != 0,
        decreases n - i,
    {
        if value[i] == 0 {
            return false;
        }
        i = i + 1;
    }
    if value[n - 1] == 0x2f {
        return false;
    }
    let at = last_part_at(value);
    let part = &value[at..n];
    assert(part@ == last_part(value@));
    if part.len() == 1 && part[0] == 0x2e {
        assert(part@ =~= seq![0x2eu8]);
        return false;
    }
    if part.len() == 2 && part[0] == 0x2e && part[1] == 0x2e {
        assert(part@ =~= seq![0x2eu8, 0x2eu8]);
        return false;
    }
    proof {
        if part@ == seq![0x2eu8] {
            assert(part@.len() == 1 && part@[0] == 0x2e);
        }
        if part@ == seq![0x2eu8, 0x2eu8] {
            assert(part@.len() == 2 && part@[0] == 0x2e && part@[1] == 0x2e);
        }
    }
    artifact_suffix_len(part).is_none()
}

} // verus!
