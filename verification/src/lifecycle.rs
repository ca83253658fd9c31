//! The texts that record a session's life: the lifecycle record written at
//! start and rewritten at exit, the exit event, the fixed prefix of the
//! status descriptor, and the tail of a log shown to a user.
use crate::bytes::{le32, le64, push_u32, push_u64};
use crate::events::{
    base64, decimal_text, event, fields_text, push_decimal, push_str, spec_base64, Event, Json,
};
use crate::store::Commit;
use crate::wire::{put_wide, wide, WireError, WIDE_MAX};
use vstd::prelude::*;
use vstd::string::StringSliceAdditionalSpecFns;

verus! {

/// The `k`-th newline (counting from 0) before position `i`, searching
/// backwards.
pub open spec fn back_newline(s: Seq<u8>, i: int, k: nat) -> Option<int>
    decreases i,
{
    if i <= 0 || i > s.len() {
        None
    } else if s[i - 1] == 0x0a {
        if k == 0 {
            Some(i - 1)
        } else {
            back_newline(s, i - 1, (k - 1) as nat)
        }
    } else {
        back_newline(s, i - 1, k)
    }
}

/// The last `lines` lines of `s`, a final newline not counting as a line
/// break; all of `s` when it has no more lines, nothing when none are asked.
pub open spec fn spec_last_lines(s: Seq<u8>, lines: u32) -> Seq<u8> {
    if lines == 0 {
        Seq::empty()
    } else {
        let end = if s.len() > 0 && s[s.len() - 1] == 0x0a {
            s.len() - 1
        } else {
            s.len() as int
        };
        match back_newline(s, end, (lines - 1) as nat) {
            Some(at) => s.subrange(at + 1, s.len() as int),
            None => s,
        }
    }
}

pub fn last_lines(bytes: &[u8], lines: u32) -> (r: &[u8])
    ensures
        r@ == spec_last_lines(bytes@, lines),
{
    if lines == 0 {
        return &bytes[0..0];
    }
    let n = bytes.len();
    let end = if n > 0 && bytes[n - 1] == 0x0a {
        n - 1
    } else {
        n
    };
    let mut i = end;
    let mut k: u32 = lines - 1;
    while i > 0
        invariant
            i <= end <= bytes@.len(),
            n == bytes@.len(),
            lines > 0,
            end == (if bytes@.len() > 0 && bytes@[bytes@.len() - 1] == 0x0a {
                bytes@.len() - 1
            } else {
                bytes@.len() as int
            }),
            back_newline(bytes@, end as int, (lines - 1) as nat) == back_newline(
                bytes@,
                i as int,
                k as nat,
            ),
        decreases i,
    {
        if bytes[i - 1] == 0x0a {
            if k == 0 {
                assert(back_newline(bytes@, i as int, k as nat) == Some(i - 1));
                return &bytes[i..n];
            }
            k = k - 1;
        }
        i = i - 1;
    }
    bytes
}

/// The first position at or after `i` where `n` occurs in `h`.
pub open spec fn find_from(h: Seq<u8>, n: Seq<u8>, i: int) -> Option<int>
    decreases h.len() + 1 - i,
{
    if i < 0 || i + n.len() > h.len() {
        None
    } else if h.subrange(i, i + n.len()) == n {
        Some(i)
    } else {
        find_from(h, n, i + 1)
    }
}

/// `s` with the first `from` replaced by `to`, if it has one.
pub open spec fn replace_first(s: Seq<u8>, from: Seq<u8>, to: Seq<u8>) -> Seq<u8> {
    match find_from(s, from, 0) {
        Some(at) => s.subrange(0, at) + to + s.subrange(at + from.len(), s.len() as int),
        None => s,
    }
}

fn occurs_at(h: &[u8], n: &[u8], at: usize) -> (r: bool)
    requires
        at + n@.len() <= h@.len(),
    ensures
        r == (h@.subrange(at as int, at + n@.len()) == n@),
{
    let hl = h.len();
    let mut j: usize = 0;
    while j < n.len()
        invariant
            j <= n@.len(),
            hl == h@.len(),
            at + n@.len() <= h@.len(),
            forall|k: int| 0 <= k < j ==> h@[at + k] == n@[k],
        decreases n.len() - j,
    {
        assert(at + j < hl);
        if h[at + j] != n[j] {
            assert(h@.subrange(at as int, at + n@.len())[j as int] != n@[j as int]);
            return false;
        }
        j = j + 1;
    }
    assert(h@.subrange(at as int, at + n@.len()) =~= n@);
    true
}

proof fn lemma_find_from(h: Seq<u8>, n: Seq<u8>, i: int)
    ensures
        find_from(h, n, i) matches Some(k) ==> i <= k && k + n.len() <= h.len() && h.subrange(
            k,
            k + n.len(),
        ) == n,
    decreases h.len() + 1 - i,
{
    if !(i < 0 || i + n.len() > h.len()) && h.subrange(i, i + n.len()) != n {
        lemma_find_from(h, n, i + 1);
    }
}

pub(crate) fn find(h: &[u8], n: &[u8]) -> (r: Option<usize>)
    ensures
        r matches Some(at) ==> find_from(h@, n@, 0) == Some(at as int) && at + n@.len() <= h@.len(),
        r is None ==> find_from(h@, n@, 0) is None,
{
    proof {
        lemma_find_from(h@, n@, 0);
    }
    if n.len() > h.len() {
        return None;
    }
    let last = h.len() - n.len();
    let mut i: usize = 0;
    loop
        invariant
            last == h@.len() - n@.len(),
            i <= last,
            find_from(h@, n@, 0) == find_from(h@, n@, i as int),
        decreases last - i,
    {
        if occurs_at(h, n, i) {
            return Some(i);
        }
        if i == last {
            assert(find_from(h@, n@, i + 1) is None);
            return None;
        }
        i = i + 1;
    }
}

/// The lifecycle record of a running session: its identity, allocated and
/// wire generations, incarnation, start times and boot, path encoding and
/// the event and instrumentation paths (each base64, or null).
pub open spec fn running_text(
    identity: Seq<u8>,
    generation: (Option<u32>, u32),
    incarnation: Seq<u8>,
    start: (u64, u64, Seq<u8>),
    encoding: Seq<u8>,
    event_path: Option<Seq<u8>>,
    instrument_path: Option<Seq<u8>>,
) -> Seq<u8> {
    "{\"v\":1,\"type\":\"lifecycle\",\"phase\":\"running\",\"session\":\"".spec_bytes() + spec_base64(
        identity,
    ) + "\",\"generation\":".spec_bytes() + optional_number(generation.0)
        + ",\"wire_generation\":".spec_bytes() + decimal_text(generation.1 as nat)
        + ",\"incarnation\":\"".spec_bytes() + spec_base64(incarnation) + "\",\"start_wall_ms\":\"".spec_bytes()
        + decimal_text(start.0 as nat) + "\",\"start_mono_ms\":\"".spec_bytes() + decimal_text(
        start.1 as nat,
    ) + "\",\"boot_id\":\"".spec_bytes() + spec_base64(start.2) + "\",\"path_encoding\":\"".spec_bytes()
        + encoding + "\",\"event_path\":".spec_bytes() + optional_text(event_path)
        + ",\"instrument_path\":".spec_bytes() + optional_text(instrument_path) + "}\n".spec_bytes()
}

pub open spec fn optional_number(value: Option<u32>) -> Seq<u8> {
    match value {
        Some(v) => decimal_text(v as nat),
        None => "null".spec_bytes(),
    }
}

pub open spec fn optional_text(value: Option<Seq<u8>>) -> Seq<u8> {
    match value {
        Some(v) => "\"".spec_bytes() + spec_base64(v) + "\"".spec_bytes(),
        None => "null".spec_bytes(),
    }
}

fn push_optional_text(out: &mut Vec<u8>, value: Option<&[u8]>)
    requires
        value matches Some(v) ==> v@.len() <= 0x3fff_ffff,
    ensures
        final(out)@ == old(out)@ + optional_text(
            match value {
                Some(v) => Some(v@),
                None => None,
            },
        ),
{
    match value {
        Some(v) => {
            push_str(out, "\"");
            let encoded = base64(v);
            crate::bytes::push_all(out, encoded.as_slice());
            push_str(out, "\"");
        },
        None => push_str(out, "null"),
    }
}

pub fn lifecycle_running(
    identity: &[u8],
    generation: (Option<u32>, u32),
    incarnation: [u8; 16],
    start: (u64, u64, [u8; 16]),
    paths: (&str, Option<&[u8]>, Option<&[u8]>),
) -> (r: Vec<u8>)
    requires
        identity@.len() <= 0x3fff_ffff,
        paths.1 matches Some(v) ==> v@.len() <= 0x3fff_ffff,
        paths.2 matches Some(v) ==> v@.len() <= 0x3fff_ffff,
    ensures
        r@ == running_text(
            identity@,
            generation,
            incarnation@,
            (start.0, start.1, start.2@),
            paths.0.spec_bytes(),
            match paths.1 {
                Some(v) => Some(v@),
                None => None,
            },
            match paths.2 {
                Some(v) => Some(v@),
                None => None,
            },
        ),
{
    let mut out: Vec<u8> = Vec::new();
    push_str(&mut out, "{\"v\":1,\"type\":\"lifecycle\",\"phase\":\"running\",\"session\":\"");
    let session = base64(identity);
    crate::bytes::push_all(&mut out, session.as_slice());
    push_str(&mut out, "\",\"generation\":");
    match generation.0 {
        Some(g) => push_decimal(&mut out, g as u64),
        None => push_str(&mut out, "null"),
    }
    push_str(&mut out, ",\"wire_generation\":");
    push_decimal(&mut out, generation.1 as u64);
    push_str(&mut out, ",\"incarnation\":\"");
    let encoded = base64(&incarnation);
    crate::bytes::push_all(&mut out, encoded.as_slice());
    push_str(&mut out, "\",\"start_wall_ms\":\"");
    push_decimal(&mut out, start.0);
    push_str(&mut out, "\",\"start_mono_ms\":\"");
    push_decimal(&mut out, start.1);
    push_str(&mut out, "\",\"boot_id\":\"");
    let boot = base64(&start.2);
    crate::bytes::push_all(&mut out, boot.as_slice());
    push_str(&mut out, "\",\"path_encoding\":\"");
    push_str(&mut out, paths.0);
    push_str(&mut out, "\",\"event_path\":");
    push_optional_text(&mut out, paths.1);
    push_str(&mut out, ",\"instrument_path\":");
    push_optional_text(&mut out, paths.2);
    push_str(&mut out, "}\n");
    proof {
        assert(out@ =~= running_text(
            identity@,
            generation,
            incarnation@,
            (start.0, start.1, start.2@),
            paths.0.spec_bytes(),
            match paths.1 {
                Some(v) => Some(v@),
                None => None,
            },
            match paths.2 {
                Some(v) => Some(v@),
                None => None,
            },
        ));
    }
    out
}

pub open spec fn ends_with_close(s: Seq<u8>) -> bool {
    s.len() >= 2 && s[s.len() - 2] == 0x7d && s[s.len() - 1] == 0x0a
}

/// The lifecycle record at exit: the running record without its closing
/// brace, its phase turned to exited, then the end time, the output end and
/// the outcome fields.
pub open spec fn exit_text(running: Seq<u8>, end_wall: u64, output_end: u64, outcome: Seq<u8>) -> Seq<u8> {
    replace_first(
        running.subrange(0, running.len() - 2),
        "\"phase\":\"running\"".spec_bytes(),
        "\"phase\":\"exited\"".spec_bytes(),
    ) + ",\"end_wall_ms\":\"".spec_bytes() + decimal_text(end_wall as nat)
        + "\",\"output_end\":\"".spec_bytes() + decimal_text(output_end as nat) + "\",".spec_bytes()
        + outcome + "}\n".spec_bytes()
}

pub fn lifecycle_exit(running: &str, end_wall: u64, output_end: u64, outcome: &[u8]) -> (r: Vec<u8>)
    requires
        ends_with_close(running.spec_bytes()),
    ensures
        r@ == exit_text(running.spec_bytes(), end_wall, output_end, outcome@),
{
    let bytes = running.as_bytes();
    let body = &bytes[0..bytes.len() - 2];
    let from = "\"phase\":\"running\"".as_bytes();
    let to = "\"phase\":\"exited\"".as_bytes();
    let mut out: Vec<u8> = Vec::new();
    match find(body, from) {
        Some(at) => {
            crate::bytes::push_all(&mut out, &body[0..at]);
            crate::bytes::push_all(&mut out, to);
            crate::bytes::push_all(&mut out, &body[at + from.len()..body.len()]);
        },
        None => {
            crate::bytes::push_all(&mut out, body);
        },
    }
    assert(out@ =~= replace_first(body@, from@, to@));
    push_str(&mut out, ",\"end_wall_ms\":\"");
    push_decimal(&mut out, end_wall);
    push_str(&mut out, "\",\"output_end\":\"");
    push_decimal(&mut out, output_end);
    push_str(&mut out, "\",");
    crate::bytes::push_all(&mut out, outcome);
    push_str(&mut out, "}\n");
    proof {
        assert(body@ =~= running.spec_bytes().subrange(0, running.spec_bytes().len() - 2));
    }
    out
}

/// The outcome fields of an exit: how it ended, the code or signal, and the
/// termination method when one was applied.
pub open spec fn outcome_text(outcome: (&str, &str, u64, Option<&str>)) -> Seq<u8> {
    "\"ended\":\"".spec_bytes() + outcome.0.spec_bytes() + "\",\"".spec_bytes() + outcome.1.spec_bytes()
        + "\":".spec_bytes() + decimal_text(outcome.2 as nat) + match outcome.3 {
        Some(method) => ",\"method\":\"".spec_bytes() + method.spec_bytes() + "\"".spec_bytes(),
        None => Seq::empty(),
    }
}

/// The exit event and the exit lifecycle record for an outcome.
pub fn exit_records(
    running: &str,
    ts: (u64, u64),
    end: u64,
    outcome: (&'static str, &'static str, u64, Option<&'static str>),
) -> (r: (Event, Vec<u8>))
    requires
        ends_with_close(running.spec_bytes()),
    ensures
        r.0.0 == "exit" && r.0.1 == ts.0 && r.0.3 is None,
        r.0.2@ == fields_text(
            seq![("ended", Json::String(outcome.0)), (outcome.1, Json::Number(outcome.2))]
                + match outcome.3 {
                Some(method) => seq![("method", Json::String(method))],
                None => Seq::empty(),
            },
        ),
        r.1@ == exit_text(running.spec_bytes(), ts.1, end, outcome_text(outcome)),
{
    let (ended, key, value, method) = outcome;
    let mut suffix: Vec<u8> = Vec::new();
    push_str(&mut suffix, "\"ended\":\"");
    push_str(&mut suffix, ended);
    push_str(&mut suffix, "\",\"");
    push_str(&mut suffix, key);
    push_str(&mut suffix, "\":");
    push_decimal(&mut suffix, value);
    let recorded = match method {
        Some(m) => {
            push_str(&mut suffix, ",\"method\":\"");
            push_str(&mut suffix, m);
            push_str(&mut suffix, "\"");
            let fields = [("ended", Json::String(ended)), (key, Json::Number(value)), ("method", Json::String(m))];
            proof {
                assert(fields@ =~= seq![("ended", Json::String(outcome.0)), (outcome.1, Json::Number(outcome.2))]
                    + seq![("method", Json::String(m))]);
            }
            event("exit", ts.0, fields.as_slice())
        },
        None => {
            let fields = [("ended", Json::String(ended)), (key, Json::Number(value))];
            proof {
                assert(fields@ =~= seq![("ended", Json::String(outcome.0)), (outcome.1, Json::Number(outcome.2))]
                    + Seq::<(&str, Json)>::empty());
            }
            event("exit", ts.0, fields.as_slice())
        },
    };
    assert(suffix@ =~= outcome_text(outcome));
    let lifecycle = lifecycle_exit(running, ts.1, end, suffix.as_slice());
    (recorded, lifecycle)
}

/// The fixed prefix of a status descriptor: the identity, the wire
/// generation, the incarnation, the event log layout, the event identity,
/// the selected event commit (its body slot, index, length and hash) when
/// the layout is 2 and one is selected, else an empty slot, then the start
/// times and boot identity.
pub open spec fn status_prefix_layout(
    identity: Seq<u8>,
    generation: u32,
    incarnation: Seq<u8>,
    layout: u8,
    event_identity: Seq<u8>,
    commit: Option<Commit>,
    start: (u64, u64, Seq<u8>),
) -> Seq<u8> {
    wide(identity) + le32(generation) + incarnation + seq![layout] + wide(event_identity)
        + commit_fields(layout, commit) + le64(start.0) + le64(start.1) + start.2
}

pub open spec fn commit_fields(layout: u8, commit: Option<Commit>) -> Seq<u8> {
    match commit {
        Some(c) if layout == 2 => seq![c.body] + le64(c.index) + le64(c.length) + c.hash@,
        _ => seq![0xffu8] + Seq::new(48, |i: int| 0u8),
    }
}

/// Builds the status prefix and where its commit fields start.
pub fn status_prefix(
    identity: &[u8],
    generation: u32,
    incarnation: [u8; 16],
    layout: u8,
    event_identity: &[u8],
    commit: Option<Commit>,
    start: (u64, u64, [u8; 16]),
) -> (r: Result<(Vec<u8>, usize), WireError>)
    ensures
        r is Ok <==> identity@.len() <= WIDE_MAX && event_identity@.len() <= WIDE_MAX,
        r is Err ==> r == Err::<(Vec<u8>, usize), WireError>(WireError::OversizedMessage),
        r matches Ok((v, at)) ==> v@ == status_prefix_layout(
            identity@,
            generation,
            incarnation@,
            layout,
            event_identity@,
            commit,
            (start.0, start.1, start.2@),
        ) && at == wide(identity@).len() + 21 + wide(event_identity@).len(),
{
    let mut out: Vec<u8> = Vec::new();
    put_wide(&mut out, identity)?;
    push_u32(&mut out, generation);
    crate::bytes::push_all(&mut out, &incarnation);
    out.push(layout);
    put_wide(&mut out, event_identity)?;
    let at = out.len();
    let ghost head = out@;
    match commit {
        Some(c) if layout == 2 => {
            out.push(c.body);
            push_u64(&mut out, c.index);
            push_u64(&mut out, c.length);
            crate::bytes::push_all(&mut out, &c.hash);
        },
        _ => {
            out.push(0xff);
            let ghost before = out@;
            let mut i: usize = 0;
            while i < 48
                invariant
                    i <= 48,
                    out@ == before + Seq::new(i as nat, |k: int| 0u8),
                decreases 48 - i,
            {
                out.push(0);
                i = i + 1;
                assert(out@ =~= before + Seq::new(i as nat, |k: int| 0u8));
            }
        },
    }
    assert(out@ =~= head + commit_fields(layout, commit));
    push_u64(&mut out, start.0);
    push_u64(&mut out, start.1);
    crate::bytes::push_all(&mut out, &start.2);
    proof {
        assert(out@ =~= status_prefix_layout(
            identity@,
            generation,
            incarnation@,
            layout,
            event_identity@,
            commit,
            (start.0, start.1, start.2@),
        ));
    }
    Ok((out, at))
}

/// The environment variable name for a program: its file name, at most
/// 127 bytes with the suffix, letters and digits uppercased and every other
/// byte an underscore, then the suffix.
pub open spec fn key_byte(b: u8) -> u8 {
    if 0x61 <= b <= 0x7a {
        (b - 32) as u8
    } else if (0x41 <= b <= 0x5a) || (0x30 <= b <= 0x39) {
        b
    } else {
        0x5fu8
    }
}

pub open spec fn spec_environment_key(name: Seq<u8>, suffix: Seq<u8>) -> Seq<u8> {
    let kept = if name.len() <= 127 - suffix.len() {
        name.len() as int
    } else {
        127 - suffix.len()
    };
    Seq::new(kept as nat, |i: int| key_byte(name[i])) + suffix
}

pub fn environment_key(name: &[u8], suffix: &str) -> (r: Vec<u8>)
    requires
        suffix.spec_bytes().len() <= 127,
    ensures
        r@ == spec_environment_key(name@, suffix.spec_bytes()),
{
    let tail = suffix.as_bytes();
    let room = 127 - tail.len();
    let kept = if name.len() <= room {
        name.len()
    } else {
        room
    };
    let mut out: Vec<u8> = Vec::new();
    let mut i: usize = 0;
    while i < kept
        invariant
            i <= kept <= name@.len(),
            out@ == Seq::new(i as nat, |k: int| key_byte(name@[k])),
        decreases kept - i,
    {
        let b = name[i];
        let mapped = if 0x61 <= b && b <= 0x7a {
            b - 32
        } else if (0x41 <= b && b <= 0x5a) || (0x30 <= b && b <= 0x39) {
            b
        } else {
            0x5f
        };
        out.push(mapped);
        i = i + 1;
        assert(out@ =~= Seq::new(i as nat, |k: int| key_byte(name@[k])));
    }
    crate::bytes::push_all(&mut out, tail);
    out
}

/// How long ago a session started, in the largest whole unit of days,
/// hours, minutes or seconds; unknown when the start is not known.
pub open spec fn age_text(seconds: Option<u64>) -> Seq<u8> {
    match seconds {
        None => "unknown".spec_bytes(),
        Some(s) => if s >= 86400 {
            decimal_text((s / 86400) as nat) + "d ago".spec_bytes()
        } else if s >= 3600 {
            decimal_text((s / 3600) as nat) + "h ago".spec_bytes()
        } else if s >= 60 {
            decimal_text((s / 60) as nat) + "m ago".spec_bytes()
        } else {
            decimal_text(s as nat) + "s ago".spec_bytes()
        },
    }
}

/// What the status descriptor ends with once the child runs: its working
/// directory as a wide field, its process id twice (as the process and as
/// the process group) and the connection nonce.
pub open spec fn running_tail(cwd: Seq<u8>, pid: u32, nonce: Seq<u8>) -> Seq<u8> {
    wide(cwd) + le32(pid) + le32(pid) + nonce
}

/// Completes the status descriptor for a running child; a working
/// directory too long for a wide field is refused and nothing is added.
pub fn finish_status(status: &mut Vec<u8>, cwd: &[u8], pid: u32, nonce: [u8; 16]) -> (r: Result<
    (),
    WireError,
>)
    ensures
        r is Ok <==> cwd@.len() <= WIDE_MAX,
        r is Ok ==> final(status)@ == old(status)@ + running_tail(cwd@, pid, nonce@),
        r is Err ==> r == Err::<(), WireError>(WireError::OversizedMessage) && final(status)@ == old(
            status,
        )@,
{
    put_wide(status, cwd)?;
    push_u32(status, pid);
    push_u32(status, pid);
    crate::bytes::push_all(status, nonce.as_slice());
    proof {
        assert(status@ =~= old(status)@ + running_tail(cwd@, pid, nonce@));
    }
    Ok(())
}

/// A lowercase hexadecimal digit.
pub open spec fn lower_hex(v: u8) -> u8 {
    if v < 10 {
        (48 + v) as u8
    } else {
        (87 + v) as u8
    }
}

/// `bytes` as lowercase hexadecimal, two digits a byte, most significant
/// byte first.
pub open spec fn hex_text(bytes: Seq<u8>) -> Seq<u8>
    decreases bytes.len(),
{
    if bytes.len() == 0 {
        Seq::empty()
    } else {
        hex_text(bytes.drop_last()) + seq![lower_hex(bytes.last() / 16), lower_hex(bytes.last() % 16)]
    }
}

/// The token as the child sees it: 32 lowercase hexadecimal digits.
pub fn token_text(token: [u8; 16]) -> (r: Vec<u8>)
    ensures
        r@ == hex_text(token@),
{
    let mut out: Vec<u8> = Vec::new();
    let mut i: usize = 0;
    while i < 16
        invariant
            i <= 16,
            token@.len() == 16,
            out@ == hex_text(token@.take(i as int)),
        decreases 16 - i,
    {
        let b = token[i];
        let high = b / 16;
        let low = b % 16;
        out.push(if high < 10 { 48 + high } else { 87 + high });
        out.push(if low < 10 { 48 + low } else { 87 + low });
        proof {
            assert(token@.take(i + 1).drop_last() =~= token@.take(i as int));
            assert(token@.take(i + 1).last() == b);
        }
        i = i + 1;
    }
    proof {
        assert(token@.take(16) =~= token@);
    }
    out
}

/// The variables the child must not inherit from whoever started the
/// holder: the program's own generation key and the session's generation,
/// semantic token and launch channel.
pub open spec fn inherited_removals(name: Seq<u8>) -> Seq<Seq<u8>> {
    seq![
        spec_environment_key(name, "_GENERATION".spec_bytes()),
        "DESK_SESSION_GENERATION".spec_bytes(),
        "DESK_SESSION_SEMANTIC_TOKEN".spec_bytes(),
        "DESK_MOOR_LAUNCH_CHANNEL".spec_bytes(),
    ]
}

/// What the child is given: a supervised child its generation, under the
/// program's key and the session's, and a child with a semantic token that
/// token in hexadecimal.
pub open spec fn child_settings(name: Seq<u8>, supervised: bool, generation: u32, token: Seq<u8>) -> Seq<
    (Seq<u8>, Seq<u8>),
> {
    let number = decimal_text(generation as nat);
    (if supervised {
        seq![
            (spec_environment_key(name, "_GENERATION".spec_bytes()), number),
            ("DESK_SESSION_GENERATION".spec_bytes(), number),
        ]
    } else {
        Seq::empty()
    }) + (if token != Seq::new(16, |i: int| 0u8) {
        seq![("DESK_SESSION_SEMANTIC_TOKEN".spec_bytes(), hex_text(token))]
    } else {
        Seq::empty()
    })
}

/// The child's environment for a program named `name`: the variables to
/// remove, then the variables to set, each a name and a value.
pub fn child_environment(name: &[u8], supervised: bool, generation: u32, token: [u8; 16]) -> (r: (
    Vec<Vec<u8>>,
    Vec<(Vec<u8>, Vec<u8>)>,
))
    ensures
        r.0@.map_values(|v: Vec<u8>| v@) == inherited_removals(name@),
        r.1@.map_values(|p: (Vec<u8>, Vec<u8>)| (p.0@, p.1@)) == child_settings(
            name@,
            supervised,
            generation,
            token@,
        ),
{
    proof {
        reveal_strlit("_GENERATION");
        broadcast use vstd::string::is_ascii_spec_bytes;
        assert(vstd::string::is_ascii("_GENERATION"));
        assert("_GENERATION".spec_bytes().len() == 11);
    }
    let key = environment_key(name, "_GENERATION");
    let mut removed: Vec<Vec<u8>> = Vec::new();
    removed.push(key.clone());
    removed.push(crate::bytes::to_vec("DESK_SESSION_GENERATION".as_bytes()));
    removed.push(crate::bytes::to_vec("DESK_SESSION_SEMANTIC_TOKEN".as_bytes()));
    removed.push(crate::bytes::to_vec("DESK_MOOR_LAUNCH_CHANNEL".as_bytes()));
    let mut set: Vec<(Vec<u8>, Vec<u8>)> = Vec::new();
    if supervised {
        let mut number: Vec<u8> = Vec::new();
        push_decimal(&mut number, generation as u64);
        set.push((key, number.clone()));
        set.push((crate::bytes::to_vec("DESK_SESSION_GENERATION".as_bytes()), number));
    }
    let ghost before = set@.map_values(|p: (Vec<u8>, Vec<u8>)| (p.0@, p.1@));
    let mut zero = true;
    let mut i: usize = 0;
    while i < 16
        invariant
            i <= 16,
            token@.len() == 16,
            zero == forall|k: int| 0 <= k < i ==> token@[k] == 0u8,
        decreases 16 - i,
    {
        if token[i] != 0 {
            zero = false;
        }
        i = i + 1;
    }
    proof {
        if zero {
            assert(token@ =~= Seq::new(16, |i: int| 0u8));
        } else {
            let k = choose|k: int| 0 <= k < 16 && token@[k] != 0u8;
            assert(token@[k] != Seq::new(16, |i: int| 0u8)[k]);
        }
    }
    if !zero {
        set.push((crate::bytes::to_vec("DESK_SESSION_SEMANTIC_TOKEN".as_bytes()), token_text(token)));
    }
    proof {
        assert(removed@.map_values(|v: Vec<u8>| v@) =~= inherited_removals(name@));
        assert(set@.map_values(|p: (Vec<u8>, Vec<u8>)| (p.0@, p.1@)) =~= child_settings(
            name@,
            supervised,
            generation,
            token@,
        ));
    }
    (removed, set)
}

pub fn age_label(seconds: Option<u64>) -> (r: Vec<u8>)
    ensures
        r@ == age_text(seconds),
{
    let mut out: Vec<u8> = Vec::new();
    match seconds {
        None => push_str(&mut out, "unknown"),
        Some(s) => {
            if s >= 86400 {
                push_decimal(&mut out, s / 86400);
                push_str(&mut out, "d ago");
            } else if s >= 3600 {
                push_decimal(&mut out, s / 3600);
                push_str(&mut out, "h ago");
            } else if s >= 60 {
                push_decimal(&mut out, s / 60);
                push_str(&mut out, "m ago");
            } else {
                push_decimal(&mut out, s);
                push_str(&mut out, "s ago");
            }
        },
    }
    out
}

} // verus!
