//! The chain of sessions a process runs inside, as its environment carries
//! it: a newer variable holds `v2:` and the base64 of each session path,
//! separated by colons; an older one holds the paths themselves, separated
//! by colons. `current` shows the chain by the sessions' names.
use crate::events::{base64, base64_symbol, spec_base64, spec_utf8, utf8};
use crate::name::{push_rendered, rendered};
use base64::Engine;
use vstd::prelude::*;

verus! {

/// What standard base64 decoding makes of `text`, if it is valid.
pub uninterp spec fn spec_base64_decoded(text: Seq<u8>) -> Option<Seq<u8>>;

/// Decodes `text` with `base64::engine::general_purpose::STANDARD`; the
/// result depends on the text alone.
#[verifier::external_body]
fn base64_decode(text: &[u8]) -> (r: Option<Vec<u8>>)
    ensures
        match r {
            Some(v) => spec_base64_decoded(text@) == Some(v@),
            None => spec_base64_decoded(text@) is None,
        },
{
    base64::engine::general_purpose::STANDARD.decode(text).ok()
}

/// The parts of `s` between colons, empty ones included.
pub open spec fn colon_parts(s: Seq<u8>) -> Seq<Seq<u8>>
    decreases s.len(),
{
    if s.len() == 0 {
        seq![Seq::empty()]
    } else {
        let p = colon_parts(s.drop_last());
        if s.last() == 0x3a {
            p.push(Seq::empty())
        } else {
            p.update(p.len() - 1, p.last().push(s.last()))
        }
    }
}

proof fn lemma_colon_parts_nonempty(s: Seq<u8>)
    ensures
        colon_parts(s).len() >= 1,
    decreases s.len(),
{
    if s.len() > 0 {
        lemma_colon_parts_nonempty(s.drop_last());
    }
}

pub open spec fn byte_views(v: Seq<Vec<u8>>) -> Seq<Seq<u8>> {
    v.map_values(|x: Vec<u8>| x@)
}

fn split_colons(s: &[u8]) -> (r: Vec<Vec<u8>>)
    ensures
        byte_views(r@) == colon_parts(s@),
{
    let mut parts: Vec<Vec<u8>> = Vec::new();
    let mut current: Vec<u8> = Vec::new();
    let mut i: usize = 0;
    proof {
        assert(s@.take(0) =~= Seq::<u8>::empty());
        assert(byte_views(parts@).push(current@) =~= seq![Seq::<u8>::empty()]);
    }
    while i < s.len()
        invariant
            i <= s@.len(),
            colon_parts(s@.take(i as int)) == byte_views(parts@).push(current@),
        decreases s.len() - i,
    {
        let b = s[i];
        proof {
            assert(s@.take(i + 1).drop_last() =~= s@.take(i as int));
        }
        if b == 0x3a {
            let done = current;
            current = Vec::new();
            parts.push(done);
            proof {
                assert(byte_views(parts@).push(current@) =~= colon_parts(s@.take(i as int)).push(
                    Seq::empty(),
                ));
            }
        } else {
            let ghost before = current@;
            current.push(b);
            proof {
                let p = colon_parts(s@.take(i as int));
                assert(p.last() == before);
                assert(byte_views(parts@).push(current@) =~= p.update(p.len() - 1, p.last().push(b)));
            }
        }
        i = i + 1;
    }
    parts.push(current);
    proof {
        assert(s@.take(s@.len() as int) =~= s@);
        assert(byte_views(parts@) =~= colon_parts(s@));
    }
    parts
}

/// The parts that are not empty, in order.
pub open spec fn nonempty_parts(parts: Seq<Seq<u8>>) -> Seq<Seq<u8>>
    decreases parts.len(),
{
    if parts.len() == 0 {
        Seq::empty()
    } else if parts.last().len() == 0 {
        nonempty_parts(parts.drop_last())
    } else {
        nonempty_parts(parts.drop_last()).push(parts.last())
    }
}

/// Each item decoded, in order; an empty item or one that is not base64
/// makes the whole malformed.
pub open spec fn decoded_items(items: Seq<Seq<u8>>) -> Option<Seq<Seq<u8>>>
    decreases items.len(),
{
    if items.len() == 0 {
        Some(Seq::empty())
    } else {
        match decoded_items(items.drop_last()) {
            None => None,
            Some(done) => if items.last().len() == 0 {
                None
            } else {
                match spec_base64_decoded(items.last()) {
                    None => None,
                    Some(b) => Some(done.push(b)),
                }
            },
        }
    }
}

/// The session paths the environment names: from the newer variable when
/// it is set (it must be UTF-8 and start with `v2:`), else from the older
/// one, else none. `None` means the newer variable is malformed.
pub open spec fn spec_ancestry(legacy: Option<Seq<u8>>, encoded: Option<Seq<u8>>) -> Option<Seq<Seq<u8>>> {
    match encoded {
        Some(text) => if spec_utf8(text) && text.len() >= 3 && text.take(3) == seq![0x76u8, 0x32u8, 0x3au8] {
            decoded_items(colon_parts(text.skip(3)))
        } else {
            None
        },
        None => match legacy {
            Some(text) => Some(nonempty_parts(colon_parts(text))),
            None => Some(Seq::empty()),
        },
    }
}

/// Reads the session paths from the values of the older (`legacy`) and
/// newer (`encoded`) variables; `None` when the newer one is malformed.
pub fn ancestry(legacy: Option<&[u8]>, encoded: Option<&[u8]>) -> (r: Option<Vec<Vec<u8>>>)
    ensures
        match spec_ancestry(
            match legacy {
                Some(v) => Some(v@),
                None => None,
            },
            match encoded {
                Some(v) => Some(v@),
                None => None,
            },
        ) {
            Some(paths) => r matches Some(v) && byte_views(v@) == paths,
            None => r is None,
        },
{
    match encoded {
        Some(text) => {
            if !(utf8(text) && text.len() >= 3 && text[0] == 0x76 && text[1] == 0x32 && text[2] == 0x3a) {
                proof {
                    if text@.len() >= 3 && text@.take(3) == seq![0x76u8, 0x32u8, 0x3au8] {
                        assert(text@[0] == text@.take(3)[0]);
                        assert(text@[1] == text@.take(3)[1]);
                        assert(text@[2] == text@.take(3)[2]);
                    }
                }
                return None;
            }
            proof {
                assert(text@.take(3) =~= seq![0x76u8, 0x32u8, 0x3au8]);
            }
            let rest = &text[3..text.len()];
            let items = split_colons(rest);
            let ghost goal = spec_ancestry(
                match legacy {
                    Some(v) => Some(v@),
                    None => None,
                },
                Some(text@),
            );
            proof {
                assert(rest@ =~= text@.skip(3));
                assert(goal == decoded_items(byte_views(items@)));
            }
            let mut out: Vec<Vec<u8>> = Vec::new();
            let mut i: usize = 0;
            proof {
                assert(byte_views(items@).take(0) =~= Seq::<Seq<u8>>::empty());
                assert(byte_views(out@) =~= Seq::<Seq<u8>>::empty());
            }
            while i < items.len()
                invariant
                    i <= items@.len(),
                    byte_views(items@) == colon_parts(rest@),
                    goal == decoded_items(byte_views(items@)),
                    goal == spec_ancestry(
                        match legacy {
                            Some(v) => Some(v@),
                            None => None,
                        },
                        Some(text@),
                    ),
                    encoded == Some(text),
                    decoded_items(byte_views(items@).take(i as int)) == Some(byte_views(out@)),
                decreases items.len() - i,
            {
                proof {
                    assert(byte_views(items@).take(i + 1).drop_last() =~= byte_views(items@).take(i as int));
                    assert(byte_views(items@).take(i + 1).last() == items@[i as int]@);
                }
                if items[i].len() == 0 {
                    proof {
                        lemma_decoded_prefix_none(byte_views(items@), i as int + 1);
                        assert(byte_views(items@).take(byte_views(items@).len() as int) =~= byte_views(items@));
                    }
                    return None;
                }
                match base64_decode(items[i].as_slice()) {
                    None => {
                        proof {
                            lemma_decoded_prefix_none(byte_views(items@), i as int + 1);
                            assert(byte_views(items@).take(byte_views(items@).len() as int) =~= byte_views(
                                items@,
                            ));
                        }
                        return None;
                    },
                    Some(bytes) => {
                        let ghost before = byte_views(out@);
                        out.push(bytes);
                        proof {
                            assert(byte_views(out@) =~= before.push(out@.last()@));
                        }
                    },
                }
                i = i + 1;
            }
            proof {
                assert(byte_views(items@).take(items@.len() as int) =~= byte_views(items@));
                assert(rest@ =~= text@.skip(3));
            }
            Some(out)
        },
        None => match legacy {
            Some(text) => {
                let parts = split_colons(text);
                let mut out: Vec<Vec<u8>> = Vec::new();
                let mut i: usize = 0;
                proof {
                    assert(byte_views(parts@).take(0) =~= Seq::<Seq<u8>>::empty());
                    assert(byte_views(out@) =~= Seq::<Seq<u8>>::empty());
                }
                while i < parts.len()
                    invariant
                        i <= parts@.len(),
                        byte_views(parts@) == colon_parts(text@),
                        nonempty_parts(byte_views(parts@).take(i as int)) == byte_views(out@),
                    decreases parts.len() - i,
                {
                    proof {
                        assert(byte_views(parts@).take(i + 1).drop_last() =~= byte_views(parts@).take(i as int));
                        assert(byte_views(parts@).take(i + 1).last() == parts@[i as int]@);
                    }
                    if parts[i].len() > 0 {
                        let ghost before = byte_views(out@);
                        out.push(parts[i].clone());
                        proof {
                            assert(byte_views(out@) =~= before.push(parts@[i as int]@));
                        }
                    }
                    i = i + 1;
                }
                proof {
                    assert(byte_views(parts@).take(parts@.len() as int) =~= byte_views(parts@));
                }
                Some(out)
            },
            None => {
                let out: Vec<Vec<u8>> = Vec::new();
                proof {
                    assert(byte_views(out@) =~= Seq::<Seq<u8>>::empty());
                }
                Some(out)
            },
        },
    }
}

/// Once a prefix of the items fails to decode, so does every longer one.
proof fn lemma_decoded_prefix_none(items: Seq<Seq<u8>>, n: int)
    requires
        0 <= n <= items.len(),
        decoded_items(items.take(n)) is None,
    ensures
        decoded_items(items) is None,
    decreases items.len() - n,
{
    if n < items.len() {
        assert(items.take(n + 1).drop_last() =~= items.take(n));
        lemma_decoded_prefix_none(items, n + 1);
    } else {
        assert(items.take(n) =~= items);
    }
}

/// The line `current` prints for the names of the sessions it runs
/// inside: each name shown, joined by ` > `.
pub open spec fn chain_text(names: Seq<Seq<u8>>) -> Seq<u8>
    decreases names.len(),
{
    if names.len() == 0 {
        Seq::empty()
    } else if names.len() == 1 {
        rendered(names[0])
    } else {
        chain_text(names.drop_last()) + seq![0x20u8, 0x3eu8, 0x20u8] + rendered(names.last())
    }
}

/// The line for the session names, with its newline; none outside any
/// session.
pub fn current_line(names: &[Vec<u8>]) -> (r: Option<Vec<u8>>)
    ensures
        names@.len() == 0 ==> r is None,
        names@.len() > 0 ==> (r matches Some(v) && v@ == chain_text(byte_views(names@)).push(0x0au8)),
{
    if names.len() == 0 {
        return None;
    }
    let mut out: Vec<u8> = Vec::new();
    let mut i: usize = 0;
    while i < names.len()
        invariant
            i <= names@.len(),
            out@ == chain_text(byte_views(names@).take(i as int)),
        decreases names.len() - i,
    {
        proof {
            assert(byte_views(names@).take(i + 1).drop_last() =~= byte_views(names@).take(i as int));
            assert(byte_views(names@).take(i + 1).last() == names@[i as int]@);
        }
        if i > 0 {
            out.push(0x20);
            out.push(0x3e);
            out.push(0x20);
        }
        push_rendered(&mut out, names[i].as_slice());
        proof {
            if i == 0 {
                assert(out@ =~= rendered(byte_views(names@).take(1)[0]));
            } else {
                assert(out@ =~= chain_text(byte_views(names@).take(i as int)) + seq![0x20u8, 0x3eu8, 0x20u8]
                    + rendered(names@[i as int]@));
            }
        }
        i = i + 1;
    }
    proof {
        assert(byte_views(names@).take(names@.len() as int) =~= byte_views(names@));
    }
    out.push(0x0a);
    Some(out)
}

/// The older variable's value for `paths`: the paths joined by colons.
pub open spec fn legacy_text(paths: Seq<Seq<u8>>) -> Seq<u8>
    decreases paths.len(),
{
    if paths.len() == 0 {
        Seq::empty()
    } else if paths.len() == 1 {
        paths[0]
    } else {
        legacy_text(paths.drop_last()) + seq![0x3au8] + paths.last()
    }
}

/// The newer variable's value for `paths`: `v2`, then a colon and the
/// base64 of each path.
pub open spec fn v2_text(paths: Seq<Seq<u8>>) -> Seq<u8>
    decreases paths.len(),
{
    if paths.len() == 0 {
        seq![0x76u8, 0x32u8]
    } else {
        v2_text(paths.drop_last()) + seq![0x3au8] + spec_base64(paths.last())
    }
}

/// The values of the older and newer variables that name the chain
/// `paths`, as a session started inside it passes them on. Reading the
/// newer value back gives the chain again when no path is empty (its text
/// is base64, and so UTF-8).
pub fn ancestry_values(paths: &[Vec<u8>]) -> (r: (Vec<u8>, Vec<u8>))
    requires
        forall|i: int| 0 <= i < paths@.len() ==> (#[trigger] paths@[i])@.len() <= 0x3fff_ffff,
    ensures
        r.0@ == legacy_text(byte_views(paths@)),
        r.1@ == v2_text(byte_views(paths@)),
        paths@.len() > 0 && (forall|i: int| 0 <= i < paths@.len() ==> (#[trigger] paths@[i])@.len() > 0)
            && spec_utf8(r.1@) ==> spec_ancestry(None, Some(r.1@)) == Some(byte_views(paths@)),
{
    let mut legacy: Vec<u8> = Vec::new();
    let mut v2: Vec<u8> = vec![0x76, 0x32];
    let mut i: usize = 0;
    proof {
        assert(byte_views(paths@).take(0) =~= Seq::<Seq<u8>>::empty());
        assert(v2@ =~= seq![0x76u8, 0x32u8]);
    }
    while i < paths.len()
        invariant
            i <= paths@.len(),
            forall|k: int| 0 <= k < paths@.len() ==> (#[trigger] paths@[k])@.len() <= 0x3fff_ffff,
            legacy@ == legacy_text(byte_views(paths@).take(i as int)),
            v2@ == v2_text(byte_views(paths@).take(i as int)),
            forall|k: int| 0 <= k < i ==> encodes(#[trigger] paths@[k]@),
        decreases paths.len() - i,
    {
        proof {
            assert(byte_views(paths@).take(i + 1).drop_last() =~= byte_views(paths@).take(i as int));
            assert(byte_views(paths@).take(i + 1).last() == paths@[i as int]@);
        }
        let ghost before = legacy@;
        if i > 0 {
            legacy.push(0x3a);
        }
        crate::bytes::push_all(&mut legacy, paths[i].as_slice());
        proof {
            if i == 0 {
                assert(legacy@ =~= legacy_text(byte_views(paths@).take(1)));
            } else {
                assert(legacy@ =~= before + seq![0x3au8] + paths@[i as int]@);
            }
        }
        v2.push(0x3a);
        let encoded = base64(paths[i].as_slice());
        proof {
            assert forall|j: int| 0 <= j < encoded@.len() implies #[trigger] encoded@[j] != 0x3a by {
                assert(base64_symbol(encoded@[j]));
            }
            assert(encodes(paths@[i as int]@));
        }
        crate::bytes::push_all(&mut v2, encoded.as_slice());
        i = i + 1;
    }
    proof {
        assert(byte_views(paths@).take(paths@.len() as int) =~= byte_views(paths@));
        let all = byte_views(paths@);
        if all.len() > 0 && (forall|i: int| 0 <= i < paths@.len() ==> (#[trigger] paths@[i])@.len() > 0) {
            assert forall|k: int| 0 <= k < all.len() implies encodes(#[trigger] all[k]) && all[k].len() > 0 by {
                assert(all[k] == paths@[k]@);
            }
            lemma_v2_reads_back(all);
        }
    }
    (legacy, v2)
}

/// Whether the base64 of `p` has no colon and decodes to `p` again.
pub open spec fn encodes(p: Seq<u8>) -> bool {
    &&& spec_base64_decoded(spec_base64(p)) == Some(p)
    &&& forall|j: int| 0 <= j < spec_base64(p).len() ==> #[trigger] spec_base64(p)[j] != 0x3a
    &&& p.len() > 0 ==> spec_base64(p).len() > 0
}

proof fn lemma_colon_parts_plain(y: Seq<u8>)
    requires
        forall|j: int| 0 <= j < y.len() ==> #[trigger] y[j] != 0x3a,
    ensures
        colon_parts(y) == seq![y],
    decreases y.len(),
{
    if y.len() == 0 {
        assert(y =~= Seq::<u8>::empty());
    } else {
        let init = y.drop_last();
        assert forall|j: int| 0 <= j < init.len() implies #[trigger] init[j] != 0x3a by {
            assert(init[j] == y[j]);
        }
        lemma_colon_parts_plain(init);
        assert(init.push(y.last()) =~= y);
        assert(seq![init].update(0, init.push(y.last())) =~= seq![y]);
    }
}

proof fn lemma_colon_parts_join(x: Seq<u8>, y: Seq<u8>)
    requires
        forall|j: int| 0 <= j < y.len() ==> #[trigger] y[j] != 0x3a,
    ensures
        colon_parts(x + seq![0x3au8] + y) == colon_parts(x).push(y),
    decreases y.len(),
{
    let z = x + seq![0x3au8] + y;
    if y.len() == 0 {
        assert(z.drop_last() =~= x);
        assert(y =~= Seq::<u8>::empty());
    } else {
        let init = y.drop_last();
        assert forall|j: int| 0 <= j < init.len() implies #[trigger] init[j] != 0x3a by {
            assert(init[j] == y[j]);
        }
        lemma_colon_parts_join(x, init);
        assert(z.drop_last() =~= x + seq![0x3au8] + init);
        assert(z.last() == y.last());
        let p = colon_parts(x).push(init);
        assert(p.update(p.len() - 1, p.last().push(y.last())) =~= colon_parts(x).push(y)) by {
            assert(init.push(y.last()) =~= y);
        }
    }
}

proof fn lemma_v2_prefix(paths: Seq<Seq<u8>>)
    requires
        paths.len() > 0,
    ensures
        v2_text(paths).len() >= 3,
        v2_text(paths).take(3) == seq![0x76u8, 0x32u8, 0x3au8],
    decreases paths.len(),
{
    if paths.len() == 1 {
        assert(paths.drop_last() =~= Seq::<Seq<u8>>::empty());
        assert(v2_text(paths).take(3) =~= seq![0x76u8, 0x32u8, 0x3au8]);
    } else {
        lemma_v2_prefix(paths.drop_last());
        assert(v2_text(paths).take(3) =~= v2_text(paths.drop_last()).take(3));
    }
}

proof fn lemma_v2_items(paths: Seq<Seq<u8>>)
    requires
        paths.len() > 0,
        forall|k: int| 0 <= k < paths.len() ==> encodes(#[trigger] paths[k]),
    ensures
        colon_parts(v2_text(paths).skip(3)) == paths.map_values(|p: Seq<u8>| spec_base64(p)),
    decreases paths.len(),
{
    let last = spec_base64(paths.last());
    assert(encodes(paths[paths.len() - 1]));
    if paths.len() == 1 {
        assert(paths.drop_last() =~= Seq::<Seq<u8>>::empty());
        assert(v2_text(paths).skip(3) =~= last);
        lemma_colon_parts_plain(last);
        assert(paths.map_values(|p: Seq<u8>| spec_base64(p)) =~= seq![last]);
    } else {
        let init = paths.drop_last();
        assert forall|k: int| 0 <= k < init.len() implies encodes(#[trigger] init[k]) by {
            assert(init[k] == paths[k]);
        }
        lemma_v2_items(init);
        lemma_v2_prefix(init);
        assert(v2_text(paths).skip(3) =~= v2_text(init).skip(3) + seq![0x3au8] + last);
        lemma_colon_parts_join(v2_text(init).skip(3), last);
        assert(paths.map_values(|p: Seq<u8>| spec_base64(p)) =~= init.map_values(|p: Seq<u8>| spec_base64(p)).push(
            last,
        ));
    }
}

proof fn lemma_decoded_items(paths: Seq<Seq<u8>>)
    requires
        forall|k: int| 0 <= k < paths.len() ==> encodes(#[trigger] paths[k]) && paths[k].len() > 0,
    ensures
        decoded_items(paths.map_values(|p: Seq<u8>| spec_base64(p))) == Some(paths),
    decreases paths.len(),
{
    let items = paths.map_values(|p: Seq<u8>| spec_base64(p));
    if paths.len() == 0 {
        assert(paths =~= Seq::<Seq<u8>>::empty());
    } else {
        let init = paths.drop_last();
        assert forall|k: int| 0 <= k < init.len() implies encodes(#[trigger] init[k]) && init[k].len() > 0 by {
            assert(init[k] == paths[k]);
        }
        lemma_decoded_items(init);
        assert(items.drop_last() =~= init.map_values(|p: Seq<u8>| spec_base64(p)));
        assert(encodes(paths[paths.len() - 1]) && paths[paths.len() - 1].len() > 0);
        assert(init.push(paths.last()) =~= paths);
    }
}

/// What a session passes on names its chain again: reading the newer
/// variable's value for a chain of paths, none of them empty, gives the
/// chain back, provided the value is UTF-8 (base64 text is).
proof fn lemma_v2_reads_back(paths: Seq<Seq<u8>>)
    requires
        paths.len() > 0,
        forall|k: int| 0 <= k < paths.len() ==> encodes(#[trigger] paths[k]) && paths[k].len() > 0,
    ensures
        spec_utf8(v2_text(paths)) ==> spec_ancestry(None, Some(v2_text(paths))) == Some(paths),
{
    lemma_v2_prefix(paths);
    lemma_v2_items(paths);
    lemma_decoded_items(paths);
}

} // verus!
