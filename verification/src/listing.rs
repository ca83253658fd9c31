//! What `list` and `rm -a` show: which directory entries name sessions,
//! the line for each session, and the messages of a removal.
use crate::client::{state_mark, SessionState};
use crate::events::{decimal_text, push_decimal};
use crate::bytes::{lex_order, seq_lt};
use crate::name::{push_rendered, render, rendered, spec_artifact_suffix_len, artifact_suffix_len};
use vstd::prelude::*;
use vstd::string::StringSliceAdditionalSpecFns;

verus! {

/// The session a directory entry stands for: an exit record stands for the
/// session it names, another artifact for none, anything else for itself.
pub open spec fn spec_session_name(entry: Seq<u8>) -> Option<Seq<u8>> {
    match spec_artifact_suffix_len(entry) {
        Some(n) => if n == 5 {
            Some(entry.take(entry.len() - 5))
        } else {
            None
        },
        None => Some(entry),
    }
}

pub fn session_name(entry: &[u8]) -> (r: Option<Vec<u8>>)
    ensures
        match spec_session_name(entry@) {
            Some(s) => r matches Some(v) && v@ == s,
            None => r is None,
        },
{
    match artifact_suffix_len(entry) {
        Some(n) => {
            if n == 5 {
                proof {
                    crate::name::lemma_suffix_fits(entry@);
                }
                let base = &entry[0..entry.len() - 5];
                Some(crate::bytes::to_vec(base))
            } else {
                None
            }
        },
        None => Some(crate::bytes::to_vec(entry)),
    }
}

/// `count` spaces.
pub open spec fn spaces(count: nat) -> Seq<u8> {
    Seq::new(count, |i: int| 0x20u8)
}

/// A listing line: the name shown and padded to 24 columns, how long ago
/// the session started, and the mark of its state.
pub open spec fn list_text(name: Seq<u8>, age: Seq<u8>, state: SessionState) -> Seq<u8> {
    let shown = rendered(name);
    let pad = if shown.len() < 24 {
        (24 - shown.len()) as nat
    } else {
        0
    };
    shown + spaces(pad) + " since ".spec_bytes() + age + state_mark_text(state).spec_bytes() + seq![0x0au8]
}

pub open spec fn state_mark_text(state: SessionState) -> &'static str {
    match state {
        SessionState::Exited => " [exited]",
        SessionState::Attached => " [attached]",
        SessionState::Stale => " [stale]",
        SessionState::Indeterminate => " [indeterminate]",
        _ => "",
    }
}

pub fn list_line(name: &[u8], age: &[u8], state: SessionState) -> (r: Vec<u8>)
    ensures
        r@ == list_text(name@, age@, state),
{
    let mut out: Vec<u8> = Vec::new();
    push_rendered(&mut out, name);
    proof {
        assert(out@ =~= rendered(name@));
    }
    let shown = out.len();
    let ghost base = out@;
    if shown < 24 {
        let mut k: usize = shown;
        while k < 24
            invariant
                shown <= k <= 24,
                out@ == base + spaces((k - shown) as nat),
            decreases 24 - k,
        {
            out.push(0x20);
            k = k + 1;
            proof {
                assert(out@ =~= base + spaces((k - shown) as nat));
            }
        }
    } else {
        proof {
            assert(out@ =~= base + spaces(0));
        }
    }
    crate::events::push_str(&mut out, " since ");
    crate::bytes::push_all(&mut out, age);
    let mark = state_mark(state);
    crate::events::push_str(&mut out, mark);
    out.push(0x0a);
    proof {
        assert(mark == state_mark_text(state));
        assert(out@ =~= list_text(name@, age@, state));
    }
    out
}

/// What removing every session says of one: removed (unless quiet),
/// skipped as running or as indeterminate, or nothing.
pub open spec fn removal_text(name: Seq<u8>, state: SessionState, quiet: bool) -> Seq<u8> {
    match state {
        SessionState::Stale | SessionState::Exited => if quiet {
            Seq::empty()
        } else {
            "removed ".spec_bytes() + rendered(name) + seq![0x0au8]
        },
        SessionState::Live | SessionState::Attached => "skipped ".spec_bytes() + rendered(name)
            + " (running)\n".spec_bytes(),
        SessionState::Indeterminate => "skipped ".spec_bytes() + rendered(name) + " (indeterminate)\n".spec_bytes(),
        SessionState::Missing => Seq::empty(),
    }
}

pub fn removal_line(name: &[u8], state: SessionState, quiet: bool) -> (r: Vec<u8>)
    ensures
        r@ == removal_text(name@, state, quiet),
{
    let mut out: Vec<u8> = Vec::new();
    match state {
        SessionState::Stale | SessionState::Exited => {
            if !quiet {
                crate::events::push_str(&mut out, "removed ");
                push_rendered(&mut out, name);
                out.push(0x0a);
            }
        },
        SessionState::Live | SessionState::Attached => {
            crate::events::push_str(&mut out, "skipped ");
            push_rendered(&mut out, name);
            crate::events::push_str(&mut out, " (running)\n");
        },
        SessionState::Indeterminate => {
            crate::events::push_str(&mut out, "skipped ");
            push_rendered(&mut out, name);
            crate::events::push_str(&mut out, " (indeterminate)\n");
        },
        SessionState::Missing => {},
    }
    proof {
        assert(out@ =~= removal_text(name@, state, quiet));
    }
    out
}

/// The closing line of a removal that was not quiet.
pub open spec fn removal_summary_text(count: u64) -> Seq<u8> {
    if count == 0 {
        "nothing to remove\n".spec_bytes()
    } else {
        decimal_text(count as nat) + " session(s) removed\n".spec_bytes()
    }
}

pub fn removal_summary(count: u64) -> (r: Vec<u8>)
    ensures
        r@ == removal_summary_text(count),
{
    let mut out: Vec<u8> = Vec::new();
    if count == 0 {
        crate::events::push_str(&mut out, "nothing to remove\n");
    } else {
        push_decimal(&mut out, count);
        crate::events::push_str(&mut out, " session(s) removed\n");
    }
    proof {
        assert(out@ =~= removal_summary_text(count));
    }
    out
}

/// A listed session: its name and state.
pub open spec fn entry_views(v: Seq<(Vec<u8>, SessionState)>) -> Seq<(Seq<u8>, SessionState)> {
    v.map_values(|e: (Vec<u8>, SessionState)| (e.0@, e.1))
}

/// Sessions in the order their shown names sort.
pub open spec fn shown_sorted(s: Seq<(Seq<u8>, SessionState)>) -> bool {
    forall|i: int, j: int| 0 <= i < j < s.len() ==> !seq_lt(rendered(#[trigger] s[j].0), rendered(#[trigger] s[i].0))
}

/// Inserting an entry after those it does not sort before and before one
/// it sorts before keeps the order.
proof fn lemma_sorted_insert(s: Seq<(Seq<u8>, SessionState)>, at: int, e: (Seq<u8>, SessionState))
    requires
        shown_sorted(s),
        0 <= at <= s.len(),
        forall|k: int| 0 <= k < at ==> !seq_lt(rendered(e.0), rendered(#[trigger] s[k].0)),
        at < s.len() ==> seq_lt(rendered(e.0), rendered(s[at].0)),
    ensures
        shown_sorted(s.insert(at, e)),
{
    let t = s.insert(at, e);
    assert forall|i: int, j: int| 0 <= i < j < t.len() implies !seq_lt(rendered(#[trigger] t[j].0), rendered(#[trigger] t[i].0)) by {
        if i == at {
            let x = s[j - 1];
            assert(t[j] == x);
            if seq_lt(rendered(x.0), rendered(e.0)) {
                crate::bytes::lemma_seq_lt_transitive(rendered(x.0), rendered(e.0), rendered(s[at].0));
                if j - 1 > at {
                    assert(!seq_lt(rendered(s[j - 1].0), rendered(s[at].0)));
                } else {
                    crate::bytes::lemma_seq_lt_asymmetric(rendered(x.0), rendered(x.0));
                }
            }
        } else if j == at {
            assert(t[i] == s[i]);
        } else {
            let si = if i < at { i } else { i - 1 };
            let sj = if j < at { j } else { j - 1 };
            assert(t[i] == s[si] && t[j] == s[sj]);
        }
    }
}

/// Orders sessions by their shown names, keeping every one.
pub fn sort_sessions(entries: Vec<(Vec<u8>, SessionState)>) -> (r: Vec<(Vec<u8>, SessionState)>)
    ensures
        shown_sorted(entry_views(r@)),
        entry_views(r@).to_multiset() == entry_views(entries@).to_multiset(),
{
    let mut out: Vec<(Vec<u8>, SessionState)> = Vec::new();
    let mut keys: Vec<Vec<u8>> = Vec::new();
    let mut i: usize = 0;
    proof {
        assert(entry_views(entries@).take(0) =~= Seq::<(Seq<u8>, SessionState)>::empty());
        assert(entry_views(out@) =~= Seq::<(Seq<u8>, SessionState)>::empty());
    }
    while i < entries.len()
        invariant
            i <= entries@.len(),
            out@.len() == keys@.len(),
            forall|k: int| 0 <= k < keys@.len() ==> (#[trigger] keys@[k])@ == rendered(out@[k].0@),
            shown_sorted(entry_views(out@)),
            entry_views(out@).to_multiset() == entry_views(entries@).take(i as int).to_multiset(),
        decreases entries.len() - i,
    {
        let (name, state) = (crate::bytes::to_vec(entries[i].0.as_slice()), entries[i].1);
        let key = render(name.as_slice());
        let mut at: usize = 0;
        while at < keys.len() && lex_order(keys[at].as_slice(), key.as_slice()) <= 0
            invariant
                at <= keys@.len(),
                out@.len() == keys@.len(),
                forall|k: int| 0 <= k < keys@.len() ==> (#[trigger] keys@[k])@ == rendered(out@[k].0@),
                forall|k: int| 0 <= k < at ==> !seq_lt(key@, rendered(#[trigger] out@[k].0@)),
            decreases keys.len() - at,
        {
            at = at + 1;
        }
        let ghost before = entry_views(out@);
        let ghost old_out = out@;
        let ghost old_keys = keys@;
        let ghost entry = (name@, state);
        proof {
            if at < keys@.len() {
                assert(seq_lt(key@, keys@[at as int]@));
            }
        }
        out.insert(at, (name, state));
        keys.insert(at, key);
        proof {
            broadcast use vstd::seq_lib::to_multiset_insert, vstd::seq_lib::to_multiset_build;
            assert(entry_views(out@) =~= before.insert(at as int, entry));
            assert forall|k: int| 0 <= k < keys@.len() implies (#[trigger] keys@[k])@ == rendered(out@[k].0@) by {
                if k < at {
                    assert(keys@[k] == old_keys[k] && out@[k] == old_out[k]);
                } else if k > at {
                    assert(keys@[k] == old_keys[k - 1] && out@[k] == old_out[k - 1]);
                }
            }
            lemma_sorted_insert(before, at as int, entry);
            assert(entry_views(entries@).take(i + 1) =~= entry_views(entries@).take(i as int).push(
                entry_views(entries@)[i as int],
            ));
            assert(entry_views(entries@)[i as int] == entry);
        }
        i = i + 1;
    }
    proof {
        assert(entry_views(entries@).take(entries@.len() as int) =~= entry_views(entries@));
    }
    out
}

} // verus!
