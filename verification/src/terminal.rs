//! The terminal output scanner: it passes the child's output through,
//! holding back only what may still become a sequence it watches, tracks
//! the terminal modes a reattaching viewer must be told, and reports titles,
//! links and queries.
use crate::events::{decimal_text, push_decimal};
use crate::wire::text::{csi, decimal, recognize_query, spec_csi, spec_decimal, spec_recognize_query};
use vstd::prelude::*;

verus! {

/// The private modes tracked, in increasing order.
pub open spec fn private_modes() -> Seq<u32> {
    seq![1u32, 6, 7, 25, 1000, 1002, 1003, 1004, 1005, 1006, 1049, 2004]
}

/// The bit a tracked private mode occupies.
pub open spec fn spec_mode_bit(mode: u32) -> Option<u16> {
    if private_modes().contains(mode) {
        Some((1u16 << (private_modes().index_of(mode) as u16)) as u16)
    } else {
        None
    }
}

fn mode_bit(mode: u32) -> (r: Option<u16>)
    ensures
        r == spec_mode_bit(mode),
{
    let modes: [u32; 12] = [1, 6, 7, 25, 1000, 1002, 1003, 1004, 1005, 1006, 1049, 2004];
    proof {
        assert(modes@ =~= private_modes());
    }
    let mut i: usize = 0;
    while i < 12
        invariant
            i <= 12,
            modes@ == private_modes(),
            forall|j: int| 0 <= j < i ==> modes@[j] != mode,
        decreases 12 - i,
    {
        if modes[i] == mode {
            proof {
                assert(private_modes().contains(mode));
                let k = private_modes().index_of(mode);
                assert(private_modes()[k] == mode);
                if k != i {
                    assert(k >= i);
                    assert(private_modes()[k] != private_modes()[i as int]);
                }
            }
            let bit: u16 = 1u16 << (i as u16);
            return Some(bit);
        }
        i = i + 1;
    }
    proof {
        if private_modes().contains(mode) {
            let k = private_modes().index_of(mode);
            assert(modes@[k] == mode);
        }
    }
    None
}

/// What the scanner observed.
#[derive(Clone, Debug)]
pub enum Observation {
    Ready,
    State(&'static str, Vec<u8>, bool),
    Link(Vec<u8>, bool),
    Query(u8, Vec<u8>),
    Degraded(&'static str, &'static str),
}

/// An observation, or output to pass on.
#[derive(Clone, Debug)]
pub enum Scan {
    Observation(Observation),
    Release(Vec<u8>),
}

/// The terminal modes a viewer must be brought to.
#[derive(Clone, Copy, Debug)]
pub struct Modes {
    inexact: bool,
    charset: (bool, bool),
    private: u16,
    scroll: Option<(u16, u16)>,
}

/// The sequence that sets or resets a private mode.
pub open spec fn flag_text(mode: u32, set: bool) -> Seq<u8> {
    seq![0x1bu8, 0x5bu8, 0x3fu8] + decimal_text(mode as nat) + seq![if set { 0x68u8 } else { 0x6cu8 }]
}

fn flag(out: &mut Vec<u8>, mode: u32, set: bool)
    ensures
        final(out)@ == old(out)@ + flag_text(mode, set),
{
    out.push(0x1b);
    out.push(0x5b);
    out.push(0x3f);
    push_decimal(out, mode as u64);
    out.push(if set { 0x68 } else { 0x6c });
    proof {
        assert(final(out)@ =~= old(out)@ + flag_text(mode, set));
    }
}

/// Resets of each of `modes`.
pub open spec fn resets(modes: Seq<u32>) -> Seq<u8>
    decreases modes.len(),
{
    if modes.len() == 0 {
        Seq::empty()
    } else {
        resets(modes.drop_last()) + flag_text(modes.last(), false)
    }
}

/// Sets of those of `modes` that are set.
pub open spec fn sets(m: Modes, modes: Seq<u32>) -> Seq<u8>
    decreases modes.len(),
{
    if modes.len() == 0 {
        Seq::empty()
    } else {
        sets(m, modes.drop_last()) + m.set_text(modes.last())
    }
}

/// The sequence that selects a character set for a group.
pub open spec fn charset_text(group: u8, line: bool) -> Seq<u8> {
    seq![0x1bu8, group, if line { 0x30u8 } else { 0x42u8 }]
}

/// The sequence that sets the scrolling region, or resets it.
pub open spec fn scroll_text(scroll: Option<(u16, u16)>) -> Seq<u8> {
    match scroll {
        Some((top, bottom)) => seq![0x1bu8, 0x5bu8] + decimal_text(top as nat) + seq![0x3bu8]
            + decimal_text(bottom as nat) + seq![0x72u8],
        None => seq![0x1bu8, 0x5bu8, 0x72u8],
    }
}

impl Modes {
    pub closed spec fn spec_inexact(&self) -> bool {
        self.inexact
    }

    pub closed spec fn spec_private(&self) -> u16 {
        self.private
    }

    pub closed spec fn spec_charset(&self) -> (bool, bool) {
        self.charset
    }

    pub closed spec fn spec_scroll(&self) -> Option<(u16, u16)> {
        self.scroll
    }

    /// The modes of a terminal just reset: exact, both character sets
    /// plain, modes 7 and 25 set, no scrolling region.
    pub fn reset() -> (r: Self)
        ensures
            !r.spec_inexact() && r.spec_charset() == (false, false) && r.spec_private() == 12
                && r.spec_scroll() is None,
    {
        Modes { inexact: false, charset: (false, false), private: 0b1100, scroll: None }
    }

    /// Whether the tracked modes are known exactly.
    pub fn exact(&self) -> (r: bool)
        ensures
            r == !self.spec_inexact(),
    {
        !self.inexact
    }

    fn has(&self, mode: u32) -> (r: bool)
        ensures
            r == (spec_mode_bit(mode) matches Some(bit) && self.spec_private() & bit != 0),
    {
        match mode_bit(mode) {
            Some(bit) => self.private & bit != 0,
            None => false,
        }
    }

    /// Whether a tracked mode is set.
    pub open spec fn has_mode(&self, mode: u32) -> bool {
        spec_mode_bit(mode) matches Some(bit) && self.spec_private() & bit != 0
    }

    /// The sequence that sets `mode` when it is set, and nothing otherwise.
    pub open spec fn set_text(&self, mode: u32) -> Seq<u8> {
        if self.has_mode(mode) {
            flag_text(mode, true)
        } else {
            Seq::empty()
        }
    }

    /// A group of modes of which at most one may stand: all are reset, then
    /// the ones set are set again.
    pub open spec fn group_text(&self, modes: Seq<u32>) -> Seq<u8> {
        resets(modes) + sets(*self, modes)
    }

    /// The sequences that bring a viewer to these modes.
    pub open spec fn preamble_text(&self) -> Seq<u8> {
        flag_text(1049, self.has_mode(1049)) + charset_text(0x28, self.spec_charset().0) + charset_text(
            0x29,
            self.spec_charset().1,
        ) + flag_text(7, self.has_mode(7)) + scroll_text(self.spec_scroll()) + flag_text(6, self.has_mode(6))
            + flag_text(1, self.has_mode(1)) + flag_text(2004, self.has_mode(2004)) + self.group_text(
            seq![1000u32, 1002, 1003],
        ) + self.group_text(seq![1005u32, 1006]) + flag_text(1004, self.has_mode(1004)) + flag_text(
            25,
            self.has_mode(25),
        )
    }

    fn push_group(&self, out: &mut Vec<u8>, modes: &[u32])
        ensures
            final(out)@ == old(out)@ + self.group_text(modes@),
    {
        let mut i: usize = 0;
        while i < modes.len()
            invariant
                i <= modes@.len(),
                out@ == old(out)@ + resets(modes@.take(i as int)),
            decreases modes@.len() - i,
        {
            flag(out, modes[i], false);
            proof {
                assert(modes@.take(i + 1).drop_last() =~= modes@.take(i as int));
            }
            i = i + 1;
        }
        let ghost mid = out@;
        let mut j: usize = 0;
        while j < modes.len()
            invariant
                j <= modes@.len(),
                out@ == mid + sets(*self, modes@.take(j as int)),
            decreases modes@.len() - j,
        {
            if self.has(modes[j]) {
                flag(out, modes[j], true);
            }
            proof {
                assert(modes@.take(j + 1).drop_last() =~= modes@.take(j as int));
            }
            j = j + 1;
        }
        proof {
            assert(modes@.take(modes@.len() as int) =~= modes@);
            assert(out@ =~= old(out)@ + self.group_text(modes@));
        }
    }

    /// The sequences that bring a viewer to these modes, when they are
    /// known exactly.
    #[verifier::spinoff_prover]
    #[verifier::rlimit(30)]
    pub fn preamble(&self) -> (r: Option<Vec<u8>>)
        ensures
            self.spec_inexact() ==> r is None,
            !self.spec_inexact() ==> (r matches Some(v) && v@ == self.preamble_text()),
    {
        if self.inexact {
            return None;
        }
        let mut out: Vec<u8> = Vec::new();
        flag(&mut out, 1049, self.has(1049));
        out.push(0x1b);
        out.push(0x28);
        out.push(if self.charset.0 { 0x30 } else { 0x42 });
        out.push(0x1b);
        out.push(0x29);
        out.push(if self.charset.1 { 0x30 } else { 0x42 });
        flag(&mut out, 7, self.has(7));
        match self.scroll {
            Some((top, bottom)) => {
                out.push(0x1b);
                out.push(0x5b);
                push_decimal(&mut out, top as u64);
                out.push(0x3b);
                push_decimal(&mut out, bottom as u64);
                out.push(0x72);
            },
            None => {
                out.push(0x1b);
                out.push(0x5b);
                out.push(0x72);
            },
        }
        let ghost head = out@;
        proof {
            assert(head =~= flag_text(1049, self.has_mode(1049)) + charset_text(0x28, self.charset.0)
                + charset_text(0x29, self.charset.1) + flag_text(7, self.has_mode(7)) + scroll_text(self.scroll));
        }
        let b6 = self.has(6);
        flag(&mut out, 6, b6);
        let b1 = self.has(1);
        flag(&mut out, 1, b1);
        let b2004 = self.has(2004);
        flag(&mut out, 2004, b2004);
        let ghost middle = out@;
        let mouse: [u32; 3] = [1000, 1002, 1003];
        let encoding: [u32; 2] = [1005, 1006];
        proof {
            assert(mouse@ =~= seq![1000u32, 1002, 1003]);
            assert(encoding@ =~= seq![1005u32, 1006]);
        }
        self.push_group(&mut out, mouse.as_slice());
        let ghost g1 = out@;
        self.push_group(&mut out, encoding.as_slice());
        let ghost g2 = out@;
        let b1004 = self.has(1004);
        flag(&mut out, 1004, b1004);
        let ghost g3 = out@;
        let b25 = self.has(25);
        flag(&mut out, 25, b25);
        proof {
            assert(middle == head + flag_text(6, self.has_mode(6)) + flag_text(1, self.has_mode(1)) + flag_text(
                2004,
                self.has_mode(2004),
            ));
            assert(g1 == middle + self.group_text(seq![1000u32, 1002, 1003]));
            assert(g2 == g1 + self.group_text(seq![1005u32, 1006]));
            assert(g3 == g2 + flag_text(1004, self.has_mode(1004)));
            assert(out@ == g3 + flag_text(25, self.has_mode(25)));
        }
        Some(out)
    }

    /// The answer to a mode query: 1 for a tracked mode that is set, 2 for
    /// one that is reset, 0 for a mode not tracked.
    pub open spec fn query_state(&self, mode: u32) -> u8 {
        match spec_mode_bit(mode) {
            Some(bit) => if self.spec_private() & bit == 0 {
                2
            } else {
                1
            },
            None => 0,
        }
    }

    /// The report of `mode`, introduced by the 8-bit control when `csi8`,
    /// when the modes are known exactly.
    pub fn query(&self, mode: u32, csi8: bool) -> (r: Option<Vec<u8>>)
        ensures
            self.spec_inexact() ==> r is None,
            !self.spec_inexact() ==> (r matches Some(v) && v@ == (if csi8 {
                seq![0x9bu8]
            } else {
                seq![0x1bu8, 0x5bu8]
            }) + seq![0x3fu8] + decimal_text(mode as nat) + seq![0x3bu8] + decimal_text(
                self.query_state(mode) as nat,
            ) + seq![0x24u8, 0x79u8]),
    {
        if self.inexact {
            return None;
        }
        let state: u8 = match mode_bit(mode) {
            Some(bit) => if self.private & bit == 0 {
                2
            } else {
                1
            },
            None => 0,
        };
        let mut out: Vec<u8> = Vec::new();
        if csi8 {
            out.push(0x9b);
        } else {
            out.push(0x1b);
            out.push(0x5b);
        }
        let ghost head = out@;
        out.push(0x3f);
        push_decimal(&mut out, mode as u64);
        out.push(0x3b);
        push_decimal(&mut out, state as u64);
        out.push(0x24);
        out.push(0x79);
        proof {
            assert(out@ =~= head + seq![0x3fu8] + decimal_text(mode as nat) + seq![0x3bu8] + decimal_text(
                self.query_state(mode) as nat,
            ) + seq![0x24u8, 0x79u8]);
        }
        Some(out)
    }
}


/// Whether `bytes[a..b]` is one of the `;`-separated fields of `bytes`.
pub open spec fn is_field(bytes: Seq<u8>, a: int, b: int) -> bool {
    &&& 0 <= a <= b <= bytes.len()
    &&& a == 0 || bytes[a - 1] == 0x3b
    &&& b == bytes.len() || bytes[b] == 0x3b
    &&& forall|k: int| a <= k < b ==> #[trigger] bytes[k] != 0x3b
}

/// Whether a nonempty field of `bytes` ending before `limit` is the
/// decimal number `mode`.
pub open spec fn names_mode_before(bytes: Seq<u8>, limit: int, mode: u32) -> bool {
    exists|a: int, b: int|
        #![trigger is_field(bytes, a, b)]
        is_field(bytes, a, b) && a < b && b < limit && spec_decimal(bytes.subrange(a, b), 0xffff_ffff, false)
            == Some(mode as u64)
}

/// Whether some field of a private mode sequence's parameters names `mode`.
pub open spec fn names_mode(bytes: Seq<u8>, mode: u32) -> bool {
    names_mode_before(bytes, bytes.len() + 1int, mode)
}

proof fn lemma_field_step(bytes: Seq<u8>, start: int, i: int, mode: u32)
    requires
        0 <= start <= i <= bytes.len(),
        start == 0 || bytes[start - 1] == 0x3b,
        forall|k: int| start <= k < i ==> #[trigger] bytes[k] != 0x3b,
        i == bytes.len() || bytes[i] == 0x3b,
    ensures
        names_mode_before(bytes, i + 1, mode) == (names_mode_before(bytes, start, mode) || (start < i
            && spec_decimal(bytes.subrange(start, i), 0xffff_ffff, false) == Some(mode as u64))),
{
    if names_mode_before(bytes, i + 1, mode) && !names_mode_before(bytes, start, mode) {
        let (a, b) = choose|a: int, b: int|
            #![trigger is_field(bytes, a, b)]
            is_field(bytes, a, b) && a < b && b < i + 1 && spec_decimal(bytes.subrange(a, b), 0xffff_ffff, false)
                == Some(mode as u64);
        assert(b >= start);
        if b < i {
            assert(bytes[b] != 0x3b);
        }
        assert(b == i);
        if a < start {
            assert(bytes[start - 1] != 0x3b);
        }
        if a > start {
            assert(bytes[a - 1] != 0x3b);
        }
        assert(a == start);
    }
    if start < i && spec_decimal(bytes.subrange(start, i), 0xffff_ffff, false) == Some(mode as u64) {
        assert(is_field(bytes, start, i));
    }
    if names_mode_before(bytes, start, mode) {
        let (a, b) = choose|a: int, b: int|
            #![trigger is_field(bytes, a, b)]
            is_field(bytes, a, b) && a < b && b < start && spec_decimal(bytes.subrange(a, b), 0xffff_ffff, false)
                == Some(mode as u64);
        assert(is_field(bytes, a, b));
    }
}

/// Where a tracked mode's bit sits.
proof fn lemma_mode_bit(mode: u32)
    ensures
        spec_mode_bit(mode) matches Some(bit) ==> private_modes().contains(mode) && 0
            <= private_modes().index_of(mode) < 12 && bit == (1u16 << (private_modes().index_of(
            mode,
        ) as u16)) as u16,
        spec_mode_bit(mode) is None ==> !private_modes().contains(mode),
{
    if private_modes().contains(mode) {
        let k = private_modes().index_of(mode);
        assert(private_modes()[k] == mode);
    }
}

/// Distinct tracked modes sit at distinct places.
proof fn lemma_mode_places(m: u32, f: u32)
    requires
        private_modes().contains(m),
        private_modes().contains(f),
        m != f,
    ensures
        private_modes().index_of(m) != private_modes().index_of(f),
{
    assert(private_modes()[private_modes().index_of(m)] == m);
    assert(private_modes()[private_modes().index_of(f)] == f);
}

proof fn lemma_bit_set(x: u16, i: u16, j: u16)
    requires
        i < 16,
        j < 16,
    ensures
        ((x | (1u16 << i)) & (1u16 << j) != 0) == (i == j || x & (1u16 << j) != 0),
{
    assert(((x | (1u16 << i)) & (1u16 << j) != 0) == (i == j || x & (1u16 << j) != 0)) by (bit_vector)
        requires
            i < 16,
            j < 16,
    ;
}

proof fn lemma_bit_clear(x: u16, i: u16, j: u16)
    requires
        i < 16,
        j < 16,
    ensures
        ((x & !(1u16 << i)) & (1u16 << j) != 0) == (i != j && x & (1u16 << j) != 0),
{
    assert(((x & !(1u16 << i)) & (1u16 << j) != 0) == (i != j && x & (1u16 << j) != 0)) by (bit_vector)
        requires
            i < 16,
            j < 16,
    ;
}

/// Whether tracked `mode` is set in the mode bits `x`.
pub open spec fn bit_on(x: u16, mode: u32) -> bool {
    spec_mode_bit(mode) matches Some(bit) && x & bit != 0
}

impl Modes {
    /// Sets or resets the tracked private modes a `?...h` or `?...l`
    /// sequence names; a field that is not a number, or names an alternate
    /// screen mode other than 1049, makes the modes inexact instead.
    fn private_modes(&mut self, bytes: &[u8], set: bool)
        ensures
            final(self).spec_scroll() == old(self).spec_scroll(),
            final(self).spec_charset() == old(self).spec_charset(),
            old(self).spec_inexact() ==> final(self).spec_inexact(),
            final(self).spec_inexact() != old(self).spec_inexact() ==> final(self).spec_private() == old(self).spec_private(),
            !final(self).spec_inexact() ==> forall|m: u32|
                private_modes().contains(m) ==> #[trigger] final(self).has_mode(m) == if names_mode(bytes@, m) {
                    set
                } else {
                    old(self).has_mode(m)
                },
    {
        let mut updated = self.private;
        let mut start: usize = 0;
        let mut i: usize = 0;
        while i <= bytes.len()
            invariant_except_break
                i <= bytes.len(),
                start == 0 || bytes@[start - 1] == 0x3b,
                forall|k: int| start <= k < i ==> #[trigger] bytes@[k] != 0x3b,
                forall|m: u32|
                    private_modes().contains(m) ==> #[trigger] bit_on(updated, m) == if names_mode_before(
                        bytes@,
                        start as int,
                        m,
                    ) {
                        set
                    } else {
                        bit_on(old(self).private, m)
                    },
            invariant
                start <= i,
                i <= bytes.len() + 1,
                start <= bytes.len(),
                self.private == old(self).private && self.scroll == old(self).scroll && self.charset == old(self).charset
                    && self.inexact == old(self).inexact,
            ensures
                i <= bytes.len(),
                forall|m: u32|
                    private_modes().contains(m) ==> #[trigger] bit_on(updated, m) == if names_mode(bytes@, m) {
                        set
                    } else {
                        bit_on(old(self).private, m)
                    },
            decreases bytes.len() + 1 - i,
        {
            if i == bytes.len() || bytes[i] == 0x3b {
                let ghost before = updated;
                if i > start {
                    let value = &bytes[start..i];
                    let mode = match decimal(value, 0xffff_ffff, false) {
                        Some(m) => m as u32,
                        None => {
                            self.inexact = true;
                            return;
                        },
                    };
                    if mode == 47 || mode == 1047 || mode == 1048 || mode == 1001 {
                        self.inexact = true;
                        return;
                    }
                    if let Some(bit) = mode_bit(mode) {
                        updated = if set {
                            updated | bit
                        } else {
                            updated & !bit
                        };
                    }
                    proof {
                        assert(value@ == bytes@.subrange(start as int, i as int));
                        lemma_mode_bit(mode);
                        assert forall|m: u32| private_modes().contains(m) implies #[trigger] bit_on(updated, m)
                            == if mode == m {
                            set
                        } else {
                            bit_on(before, m)
                        } by {
                            lemma_mode_bit(m);
                            let j = private_modes().index_of(m) as u16;
                            if let Some(b) = spec_mode_bit(mode) {
                                let k = private_modes().index_of(mode) as u16;
                                if mode != m {
                                    lemma_mode_places(m, mode);
                                }
                                if set {
                                    lemma_bit_set(before, k, j);
                                } else {
                                    lemma_bit_clear(before, k, j);
                                }
                            }
                        }
                    }
                }
                proof {
                    assert forall|m: u32| private_modes().contains(m) implies #[trigger] bit_on(updated, m)
                        == if names_mode_before(bytes@, i + 1, m) {
                        set
                    } else {
                        bit_on(old(self).private, m)
                    } by {
                        lemma_field_step(bytes@, start as int, i as int, m);
                        assert(bit_on(before, m) == if names_mode_before(bytes@, start as int, m) {
                            set
                        } else {
                            bit_on(old(self).private, m)
                        });
                    }
                }
                if i == bytes.len() {
                    break;
                }
                start = i + 1;
            }
            i = i + 1;
        }
        self.private = updated;
        proof {
            assert forall|m: u32| private_modes().contains(m) implies #[trigger] self.has_mode(m) == if names_mode(
                bytes@,
                m,
            ) {
                set
            } else {
                old(self).has_mode(m)
            } by {
                assert(bit_on(updated, m) == self.has_mode(m));
                assert(bit_on(old(self).private, m) == old(self).has_mode(m));
            }
        }
    }
}

/// Whether outputs `i` and `i + 1` both pass bytes on.
pub open spec fn release_pair(out: Seq<Scan>, i: int) -> bool {
    out[i] is Release && out[i + 1] is Release
}

/// Whether bytes passed on together come out as one run: no two releases
/// stand next to each other.
pub open spec fn runs_joined(out: Seq<Scan>) -> bool {
    forall|i: int| 0 <= i < out.len() - 1 ==> !#[trigger] release_pair(out, i)
}

/// The bytes a scan released, in order.
pub open spec fn released(out: Seq<Scan>) -> Seq<u8>
    decreases out.len(),
{
    if out.len() == 0 {
        Seq::empty()
    } else {
        released(out.drop_last()) + match out.last() {
            Scan::Release(b) => b@,
            _ => Seq::empty(),
        }
    }
}

/// What the observations among `out` make of the scanner's record of
/// whether the child is ready and whether it was last reported busy, when
/// they keep to its rules; `None` when they break them. Readiness is
/// reported once, and a state only when it differs from the last one
/// reported.
pub open spec fn obs_fold(ready: bool, busy: Option<bool>, out: Seq<Scan>) -> Option<(bool, Option<bool>)>
    decreases out.len(),
{
    if out.len() == 0 {
        Some((ready, busy))
    } else {
        match obs_fold(ready, busy, out.drop_last()) {
            None => None,
            Some((r, b)) => match out.last() {
                Scan::Observation(Observation::Ready) => if r {
                    None
                } else {
                    Some((true, b))
                },
                Scan::Observation(Observation::State(state, _, _)) => if b == Some(state == "busy") {
                    None
                } else {
                    Some((r, Some(state == "busy")))
                },
                _ => Some((r, b)),
            },
        }
    }
}

/// Whether `new` continues the record `old` kept, from any start.
pub open spec fn obs_kept(old: Seq<Scan>, new: Seq<Scan>, before: (bool, Option<bool>), after: (bool, Option<bool>)) -> bool {
    forall|r0: bool, b0: Option<bool>|
        #[trigger] obs_fold(r0, b0, old) == Some(before) ==> obs_fold(r0, b0, new) == Some(after)
}

/// Observations read in two parts read as a whole.
pub proof fn lemma_obs_fold_append(ready: bool, busy: Option<bool>, a: Seq<Scan>, b: Seq<Scan>)
    ensures
        obs_fold(ready, busy, a + b) == match obs_fold(ready, busy, a) {
            None => None,
            Some((r, x)) => obs_fold(r, x, b),
        },
    decreases b.len(),
{
    if b.len() == 0 {
        assert(a + b =~= a);
    } else {
        lemma_obs_fold_append(ready, busy, a, b.drop_last());
        assert((a + b).drop_last() =~= a + b.drop_last());
    }
}

/// Whether `x` reports the child ready.
pub open spec fn is_ready(x: Scan) -> bool {
    x matches Scan::Observation(Observation::Ready)
}

/// Whether a record says the child was reported ready.
pub open spec fn record_ready(record: Option<(bool, Option<bool>)>) -> bool {
    match record {
        Some((ready, _)) => ready,
        None => false,
    }
}

/// Once readiness is on the record it stays there.
proof fn lemma_ready_sticks(ready: bool, busy: Option<bool>, t: Seq<Scan>)
    requires
        obs_fold(ready, busy, t) is Some,
    ensures
        ready ==> record_ready(obs_fold(ready, busy, t)),
        forall|i: int| 0 <= i < t.len() && is_ready(#[trigger] t[i]) ==> record_ready(obs_fold(ready, busy, t)),
    decreases t.len(),
{
    if t.len() > 0 {
        lemma_ready_sticks(ready, busy, t.drop_last());
        assert forall|i: int| 0 <= i < t.len() && is_ready(#[trigger] t[i]) implies record_ready(obs_fold(ready, busy, t)) by {
            if i < t.len() - 1 {
                assert(t.drop_last()[i] == t[i]);
            }
        }
    }
}

/// Readiness is reported at most once in any output that keeps the
/// scanner's record, and not at all once the child was reported ready.
pub proof fn lemma_ready_at_most_once(ready: bool, busy: Option<bool>, s: Seq<Scan>, i: int, j: int)
    requires
        obs_fold(ready, busy, s) is Some,
        0 <= i < j < s.len(),
        is_ready(s[i]) || ready,
    ensures
        !is_ready(s[j]),
    decreases s.len(),
{
    if j < s.len() - 1 {
        assert(s.drop_last()[i] == s[i] && s.drop_last()[j] == s[j]);
        lemma_ready_at_most_once(ready, busy, s.drop_last(), i, j);
    } else {
        let t = s.drop_last();
        lemma_ready_sticks(ready, busy, t);
        if !ready {
            assert(t[i] == s[i]);
        }
    }
}

/// The busy-ness a state report gives, if `x` is one.
pub open spec fn reported_busy(x: Scan) -> Option<bool> {
    match x {
        Scan::Observation(Observation::State(state, _, _)) => Some(state == "busy"),
        _ => None,
    }
}

/// The state last reported in `t`, or `busy` when none is.
pub open spec fn last_state(busy: Option<bool>, t: Seq<Scan>) -> Option<bool>
    decreases t.len(),
{
    if t.len() == 0 {
        busy
    } else if reported_busy(t.last()) is Some {
        reported_busy(t.last())
    } else {
        last_state(busy, t.drop_last())
    }
}

pub open spec fn record_busy(record: Option<(bool, Option<bool>)>) -> Option<bool> {
    match record {
        Some((_, busy)) => busy,
        None => None,
    }
}

proof fn lemma_busy_tracks(ready: bool, busy: Option<bool>, t: Seq<Scan>)
    requires
        obs_fold(ready, busy, t) is Some,
    ensures
        record_busy(obs_fold(ready, busy, t)) == last_state(busy, t),
    decreases t.len(),
{
    if t.len() > 0 {
        lemma_busy_tracks(ready, busy, t.drop_last());
    }
}

/// The last state reported up to `j` is the one at `i` when none comes
/// between.
proof fn lemma_last_state_at(busy: Option<bool>, t: Seq<Scan>, i: int)
    requires
        0 <= i < t.len(),
        reported_busy(t[i]) is Some,
        forall|k: int| i < k < t.len() ==> reported_busy(#[trigger] t[k]) is None,
    ensures
        last_state(busy, t) == reported_busy(t[i]),
    decreases t.len(),
{
    if i < t.len() - 1 {
        assert forall|k: int| i < k < t.drop_last().len() implies reported_busy(#[trigger] t.drop_last()[k]) is None by {
            assert(t.drop_last()[k] == t[k]);
        }
        assert(t.drop_last()[i] == t[i]);
        lemma_last_state_at(busy, t.drop_last(), i);
    }
}

/// In any output that keeps the scanner's record, a state is reported only
/// when it differs from the one reported before it.
pub proof fn lemma_states_alternate(ready: bool, busy: Option<bool>, s: Seq<Scan>, i: int, j: int)
    requires
        obs_fold(ready, busy, s) is Some,
        0 <= i < j < s.len(),
        reported_busy(s[i]) is Some && reported_busy(s[j]) is Some,
        forall|k: int| i < k < j ==> reported_busy(#[trigger] s[k]) is None,
    ensures
        reported_busy(s[i]) != reported_busy(s[j]),
    decreases s.len(),
{
    if j < s.len() - 1 {
        assert forall|k: int| i < k < j implies reported_busy(#[trigger] s.drop_last()[k]) is None by {
            assert(s.drop_last()[k] == s[k]);
        }
        assert(s.drop_last()[i] == s[i] && s.drop_last()[j] == s[j]);
        lemma_states_alternate(ready, busy, s.drop_last(), i, j);
    } else {
        let t = s.drop_last();
        lemma_busy_tracks(ready, busy, t);
        assert forall|k: int| i < k < t.len() implies reported_busy(#[trigger] t[k]) is None by {
            assert(t[k] == s[k]);
        }
        assert(t[i] == s[i]);
        lemma_last_state_at(busy, t, i);
    }
}

/// Passes `bytes` on, joining them to output passed on just before.
fn release(out: &mut Vec<Scan>, bytes: &[u8])
    requires
        runs_joined(old(out)@),
    ensures
        runs_joined(final(out)@),
        released(final(out)@) == released(old(out)@) + bytes@,
        final(out)@.len() >= old(out)@.len(),
        forall|i: int| 0 <= i < old(out)@.len() && #[trigger] old(out)@[i] is Observation ==> final(out)@[i] == old(out)@[i],
        forall|r0: bool, b0: Option<bool>| #[trigger] obs_fold(r0, b0, final(out)@) == obs_fold(r0, b0, old(out)@),
{
    let n = out.len();
    let joins = n > 0 && match &out[n - 1] {
        Scan::Release(_) => true,
        _ => false,
    };
    if joins {
        let ghost before = out@;
        let last = out.pop().unwrap();
        proof {
            assert(out@ =~= before.drop_last());
        }
        match last {
            Scan::Release(prior) => {
                let mut joined = prior;
                crate::bytes::push_all(&mut joined, bytes);
                let ghost b = joined;
                out.push(Scan::Release(joined));
                proof {
                    assert(out@.drop_last() =~= before.drop_last());
                    assert forall|i: int| 0 <= i < out@.len() - 1 implies !#[trigger] release_pair(out@, i) by {
                        assert(out@[i] == before[i]);
                        if i < out@.len() - 2 {
                            assert(out@[i + 1] == before[i + 1]);
                            assert(!release_pair(before, i));
                        } else {
                            assert(!release_pair(before, i));
                        }
                    }
                }
            },
            Scan::Observation(o) => {
                out.push(Scan::Observation(o));
            },
        }
    } else if bytes.len() > 0 {
        out.push(Scan::Release(crate::bytes::to_vec(bytes)));
        proof {
            assert(out@.drop_last() =~= old(out)@);
            assert forall|i: int| 0 <= i < out@.len() - 1 implies !#[trigger] release_pair(out@, i) by {
                assert(out@[i] == old(out)@[i]);
                if i < out@.len() - 2 {
                    assert(out@[i + 1] == old(out)@[i + 1]);
                    assert(!release_pair(old(out)@, i));
                }
            }
        }
    } else {
        proof {
            assert(bytes@ =~= Seq::<u8>::empty());
            assert(released(old(out)@) + bytes@ =~= released(old(out)@));
        }
    }
}

fn observe(out: &mut Vec<Scan>, observation: Observation)
    requires
        runs_joined(old(out)@),
    ensures
        runs_joined(final(out)@),
        released(final(out)@) == released(old(out)@),
        final(out)@ == old(out)@.push(Scan::Observation(observation)),
        forall|r0: bool, b0: Option<bool>| #[trigger] obs_fold(r0, b0, final(out)@) == match obs_fold(r0, b0, old(out)@) {
            None => None,
            Some((r, b)) => match observation {
                Observation::Ready => if r {
                    None
                } else {
                    Some((true, b))
                },
                Observation::State(state, _, _) => if b == Some(state == "busy") {
                    None
                } else {
                    Some((r, Some(state == "busy")))
                },
                _ => Some((r, b)),
            },
        },
{
    out.push(Scan::Observation(observation));
    proof {
        assert(out@.drop_last() =~= old(out)@);
        assert forall|i: int| 0 <= i < out@.len() - 1 implies !#[trigger] release_pair(out@, i) by {
            assert(release_pair(old(out)@, i) == release_pair(out@, i) || i == out@.len() - 2);
        }
    }
}

/// An observation of a query of `class` carrying `sequence`.
pub open spec fn is_query_obs(e: Scan, class: u8, sequence: Seq<u8>) -> bool {
    e matches Scan::Observation(Observation::Query(c, q)) && c == class && q@ == sequence
}

/// Whether `out` reports a query of `class` carrying `sequence` past `from`.
pub open spec fn reports_query(out: Seq<Scan>, from: int, class: u8, sequence: Seq<u8>) -> bool {
    exists|i: int| from <= i < out.len() && is_query_obs(#[trigger] out[i], class, sequence)
}

/// Whether `byte` completes the control sequence `held` into a query the
/// scanner recognizes, within the bound on a control sequence's length.
pub open spec fn completes_query(held: Seq<u8>, byte: u8) -> bool {
    &&& 0 < held.len() < 32
    &&& !spec_is_osc(held)
    &&& spec_complete(held.push(byte))
    &&& spec_recognize_query(held.push(byte)) is Some
}

/// The bytes of a control sequence's tail before its final byte are
/// parameters and intermediates, below the final bytes.
pub open spec fn tail_open(t: Seq<u8>) -> bool {
    &&& t.len() > 0
    &&& forall|j: int| 0 <= j < t.len() - 1 ==> #[trigger] t[j] < 0x40
    &&& 0x40 <= t.last() <= 0x7e
}

/// Whether `q` is a query the scanner recognizes and can hold whole: one
/// within the bound on a control sequence's length.
pub open spec fn whole_query(q: Seq<u8>) -> bool {
    spec_recognize_query(q) is Some && q.len() <= 32
}

/// A recognized query starts with an introducer, is complete, and no
/// shorter part of it is complete or a command.
pub proof fn lemma_query_prefixes(q: Seq<u8>)
    requires
        spec_recognize_query(q) is Some,
    ensures
        q.len() >= 2,
        spec_is_intro(q[0]),
        !spec_is_osc(q),
        spec_complete(q),
        forall|k: int| 1 <= k < q.len() ==> !spec_complete(#[trigger] q.take(k)) && !spec_is_osc(q.take(k)),
{
    let (csi8, t) = spec_csi(q)->0;
    let d = if csi8 { 1int } else { 2int };
    assert(t == q.subrange(d, q.len() as int));
    assert(tail_open(t)) by {
        if t.len() >= 3 && t[0] == 0x3f && t[t.len() - 2] == 0x24 && t[t.len() - 1] == 0x70 {
            let m = t.subrange(1, t.len() - 2);
            if spec_decimal(m, u32::MAX as u64, true) is Some {
                assert forall|j: int| 0 <= j < t.len() - 1 implies #[trigger] t[j] < 0x40 by {
                    if 1 <= j < t.len() - 2 {
                        assert(m[j - 1] == t[j]);
                        assert(crate::wire::text::is_digit(m[j - 1]));
                    }
                }
            }
        }
    }
    assert forall|k: int| 1 <= k < q.len() implies !spec_complete(#[trigger] q.take(k)) && !spec_is_osc(q.take(k)) by {
        let p = q.take(k);
        if k >= d {
            assert(spec_csi(p) == Some((csi8, t.take(k - d))));
            if k - d > 0 {
                assert(t.take(k - d).last() == t[k - d - 1]);
            }
        }
    }
    assert(spec_csi(q) == Some((csi8, t)));
}

/// A byte that introduces a sequence the scanner watches.
pub open spec fn spec_is_intro(b: u8) -> bool {
    b == 0x1b || b == 0x9b || b == 0x9d
}

/// An operating system command, by its 7-bit or 8-bit introducer.
pub open spec fn spec_is_osc(s: Seq<u8>) -> bool {
    (s.len() >= 2 && s[0] == 0x1b && s[1] == 0x5d) || (s.len() >= 1 && s[0] == 0x9d)
}

fn is_osc(s: &[u8]) -> (r: bool)
    ensures
        r == spec_is_osc(s@),
{
    (s.len() >= 2 && s[0] == 0x1b && s[1] == 0x5d) || (s.len() >= 1 && s[0] == 0x9d)
}

/// Whether a watched sequence is complete: a command ends with BEL, ST or
/// ESC backslash; a control sequence with a final byte; an escape with its
/// character, or its set and character for a character set.
pub open spec fn spec_complete(s: Seq<u8>) -> bool {
    if spec_is_osc(s) {
        s.last() == 7 || s.last() == 0x9c || (s.len() >= 2 && s[s.len() - 2] == 0x1b && s.last() == 0x5c)
    } else if let Some((_, t)) = spec_csi(s) {
        t.len() > 0 && 0x40 <= t.last() <= 0x7e
    } else {
        s.len() >= 2 + if s.len() >= 2 && (s[1] == 0x28 || s[1] == 0x29) {
            1int
        } else {
            0int
        }
    }
}

fn complete(s: &[u8]) -> (r: bool)
    requires
        s@.len() > 0,
    ensures
        r == spec_complete(s@),
{
    let n = s.len();
    if is_osc(s) {
        s[n - 1] == 7 || s[n - 1] == 0x9c || (n >= 2 && s[n - 2] == 0x1b && s[n - 1] == 0x5c)
    } else {
        match csi(s) {
            Some((_, t)) => t.len() > 0 && 0x40 <= t[t.len() - 1] && t[t.len() - 1] <= 0x7e,
            None => {
                let set = n >= 2 && (s[1] == 0x28 || s[1] == 0x29);
                n >= if set {
                    3
                } else {
                    2
                }
            },
        }
    }
}

/// Whether a control sequence may still become a query the scanner
/// answers for, so that it must be held back.
pub open spec fn spec_possible_query(s: Seq<u8>) -> bool {
    match spec_csi(s) {
        None => false,
        Some((_, t)) => spec_recognize_query(s) is Some || t.len() == 0 || t == seq![0x30u8] || t
            == seq![0x3eu8] || t == seq![0x3eu8, 0x30u8] || t == seq![0x36u8] || t == seq![0x3fu8] || (
        t.len() >= 1 && t[0] == 0x3f && spec_decimal(
            if t.len() >= 2 && t.last() == 0x24 {
                t.subrange(1, t.len() - 1)
            } else {
                t.subrange(1, t.len() as int)
            },
            0xffff_ffff,
            true,
        ) is Some),
    }
}

fn possible_query(s: &[u8]) -> (r: bool)
    ensures
        r == spec_possible_query(s@),
{
    let t = match csi(s) {
        Some((_, t)) => t,
        None => {
            return false;
        },
    };
    if recognize_query(s).is_some() {
        return true;
    }
    let n = t.len();
    if n == 0 || (n == 1 && (t[0] == 0x30 || t[0] == 0x3e || t[0] == 0x36 || t[0] == 0x3f)) || (n == 2
        && t[0] == 0x3e && t[1] == 0x30) {
        proof {
            if n == 1 {
                if t[0] == 0x30 {
                    assert(t@ =~= seq![0x30u8]);
                } else if t[0] == 0x3e {
                    assert(t@ =~= seq![0x3eu8]);
                } else if t[0] == 0x36 {
                    assert(t@ =~= seq![0x36u8]);
                } else {
                    assert(t@ =~= seq![0x3fu8]);
                }
            } else if n == 2 {
                assert(t@ =~= seq![0x3eu8, 0x30u8]);
            }
        }
        return true;
    }
    proof {
        if n == 1 {
            assert(t@ != seq![0x3eu8, 0x30u8]);
        }
        assert(t@ != seq![0x30u8] || n != 1 || t@[0] == 0x30);
    }
    if t[0] != 0x3f {
        return false;
    }
    let digits = if n >= 2 && t[n - 1] == 0x24 {
        &t[1..n - 1]
    } else {
        &t[1..n]
    };
    decimal(digits, 0xffff_ffff, true).is_some()
}


/// The pieces `std` splits bytes into for lossy decoding: each a run of
/// valid UTF-8 and whether an invalid sequence follows it.
pub uninterp spec fn spec_utf8_chunks(bytes: Seq<u8>) -> Seq<(Seq<u8>, bool)>;

/// Splits `bytes` with `<[u8]>::utf8_chunks`, taking each chunk's valid
/// text and whether it ends in an invalid sequence; the split depends on
/// the bytes alone.
#[verifier::external_body]
fn utf8_chunks(bytes: &[u8]) -> (r: Vec<(Vec<u8>, bool)>)
    ensures
        r@.map_values(|c: (Vec<u8>, bool)| (c.0@, c.1)) == spec_utf8_chunks(bytes@),
{
    bytes.utf8_chunks().map(|c| (c.valid().as_bytes().to_vec(), !c.invalid().is_empty())).collect()
}

/// The length of the UTF-8 sequence a leading byte starts.
pub open spec fn utf8_width(b: u8) -> nat {
    if b < 0x80 {
        1
    } else if b < 0xe0 {
        2
    } else if b < 0xf0 {
        3
    } else {
        4
    }
}

/// The replacement character.
pub open spec fn replacement() -> Seq<u8> {
    seq![0xefu8, 0xbfu8, 0xbdu8]
}

/// The characters of valid text, NUL replaced.
pub open spec fn chars_of(s: Seq<u8>) -> Seq<Seq<u8>>
    decreases s.len(),
{
    if s.len() == 0 {
        Seq::empty()
    } else {
        let w = if utf8_width(s[0]) <= s.len() {
            utf8_width(s[0]) as int
        } else {
            s.len() as int
        };
        let c = if s[0] == 0 {
            replacement()
        } else {
            s.take(w)
        };
        seq![c] + chars_of(s.skip(w))
    }
}

/// The characters of decoded chunks: each invalid sequence becomes the
/// replacement character.
pub open spec fn chunk_chars(chunks: Seq<(Seq<u8>, bool)>) -> Seq<Seq<u8>>
    decreases chunks.len(),
{
    if chunks.len() == 0 {
        Seq::empty()
    } else {
        chunk_chars(chunks.drop_last()) + chars_of(chunks.last().0) + if chunks.last().1 {
            seq![replacement()]
        } else {
            Seq::empty()
        }
    }
}

/// The characters that fit within `cap` bytes, in order, and whether some
/// did not.
pub open spec fn fit(chars: Seq<Seq<u8>>, cap: int) -> (Seq<u8>, bool)
    decreases chars.len(),
{
    if chars.len() == 0 {
        (Seq::empty(), false)
    } else if chars[0].len() > cap {
        (Seq::empty(), true)
    } else {
        let rest = fit(chars.drop_first(), cap - chars[0].len());
        (chars[0] + rest.0, rest.1)
    }
}

proof fn lemma_chars_step(s: Seq<u8>, i: int, w: int)
    requires
        0 <= i < s.len(),
        w == (if utf8_width(s[i]) <= s.len() - i {
            utf8_width(s[i]) as int
        } else {
            s.len() - i
        }),
    ensures
        chars_of(s.skip(i)) == seq![if s[i] == 0 {
            replacement()
        } else {
            s.subrange(i, i + w)
        }] + chars_of(s.skip(i + w)),
{
    let t = s.skip(i);
    assert(t[0] == s[i]);
    assert(t.take(w) =~= s.subrange(i, i + w));
    assert(t.skip(w) =~= s.skip(i + w));
}

/// The bytes of characters, joined.
pub open spec fn flat(chars: Seq<Seq<u8>>) -> Seq<u8>
    decreases chars.len(),
{
    if chars.len() == 0 {
        Seq::empty()
    } else {
        flat(chars.drop_last()) + chars.last()
    }
}

/// Decodes `bytes` lossily, NUL replaced, keeping the characters that fit
/// within `cap` bytes; the flag says some did not.
fn text(bytes: &[u8], cap: usize) -> (r: (Vec<u8>, bool))
    ensures
        (r.0@, r.1) == fit(chunk_chars(spec_utf8_chunks(bytes@)), cap as int),
{
    let chunks = utf8_chunks(bytes);
    let ghost views = chunks@.map_values(|c: (Vec<u8>, bool)| (c.0@, c.1));
    let mut chars: Vec<Vec<u8>> = Vec::new();
    let mut k: usize = 0;
    while k < chunks.len()
        invariant
            k <= chunks@.len(),
            views == chunks@.map_values(|c: (Vec<u8>, bool)| (c.0@, c.1)),
            chars@.map_values(|c: Vec<u8>| c@) == chunk_chars(views.take(k as int)),
        decreases chunks@.len() - k,
    {
        let valid = &chunks[k].0;
        let ghost before = chars@.map_values(|c: Vec<u8>| c@);
        proof {
            assert(valid@.skip(0) =~= valid@);
        }
        let mut i: usize = 0;
        while i < valid.len()
            invariant
                i <= valid@.len(),
                before + chars_of(valid@) == chars@.map_values(|c: Vec<u8>| c@) + chars_of(valid@.skip(i as int)),
            decreases valid@.len() - i,
        {
            let lead = valid[i];
            let width: usize = if lead < 0x80 {
                1
            } else if lead < 0xe0 {
                2
            } else if lead < 0xf0 {
                3
            } else {
                4
            };
            let w = if width <= valid.len() - i {
                width
            } else {
                valid.len() - i
            };
            proof {
                lemma_chars_step(valid@, i as int, w as int);
            }
            let ghost old_chars = chars@.map_values(|c: Vec<u8>| c@);
            if lead == 0 {
                chars.push(crate::bytes::to_vec([0xefu8, 0xbfu8, 0xbdu8].as_slice()));
            } else {
                chars.push(crate::bytes::to_vec(&valid.as_slice()[i..i + w]));
            }
            proof {
                assert(chars@.map_values(|c: Vec<u8>| c@) =~= old_chars.push(if lead == 0 {
                    replacement()
                } else {
                    valid@.subrange(i as int, i + w)
                }));
                assert(seq![if lead == 0 { replacement() } else { valid@.subrange(i as int, i + w) }]
                    + chars_of(valid@.skip(i + w)) =~= seq![if lead == 0 { replacement() } else { valid@.subrange(i as int, i + w) }].add(chars_of(valid@.skip(i + w))));
                assert(old_chars + chars_of(valid@.skip(i as int)) =~= chars@.map_values(|c: Vec<u8>| c@)
                    + chars_of(valid@.skip(i + w)));
            }
            i = i + w;
        }
        if chunks[k].1 {
            chars.push(crate::bytes::to_vec([0xefu8, 0xbfu8, 0xbdu8].as_slice()));
        }
        proof {
            assert(valid@.skip(valid@.len() as int) =~= Seq::<u8>::empty());
            assert(views.take(k + 1).drop_last() =~= views.take(k as int));
            assert(views.take(k + 1).last() == views[k as int]);
            assert(chars@.map_values(|c: Vec<u8>| c@) =~= chunk_chars(views.take(k + 1)));
        }
        k = k + 1;
    }
    proof {
        assert(views.take(chunks@.len() as int) =~= views);
    }
    let ghost all = chars@.map_values(|c: Vec<u8>| c@);
    let mut clean: Vec<u8> = Vec::new();
    proof {
        assert(all.skip(0) =~= all);
        assert(clean@ + fit(all, cap as int).0 =~= fit(all, cap as int).0);
    }
    let mut j: usize = 0;
    while j < chars.len()
        invariant
            j <= chars@.len(),
            all == chars@.map_values(|c: Vec<u8>| c@),
            all == chunk_chars(spec_utf8_chunks(bytes@)),
            clean@.len() <= cap,
            fit(all, cap as int) == (clean@ + fit(all.skip(j as int), cap - clean@.len()).0, fit(
                all.skip(j as int),
                cap - clean@.len(),
            ).1),
        decreases chars@.len() - j,
    {
        let piece = &chars[j];
        proof {
            assert(all.skip(j as int)[0] == piece@);
            assert(all.skip(j as int).drop_first() =~= all.skip(j + 1));
        }
        if piece.len() > cap - clean.len() {
            proof {
                assert(fit(all.skip(j as int), cap - clean@.len()) == (Seq::<u8>::empty(), true));
                assert(clean@ + Seq::<u8>::empty() =~= clean@);
            }
            return (clean, true);
        }
        let ghost c0 = clean@;
        crate::bytes::push_all(&mut clean, piece.as_slice());
        proof {
            assert(c0 + (piece@ + fit(all.skip(j + 1), cap - c0.len() - piece@.len()).0) =~= clean@ + fit(
                all.skip(j + 1),
                cap - clean@.len(),
            ).0);
        }
        j = j + 1;
    }
    proof {
        assert(all.skip(chars@.len() as int) =~= Seq::<Seq<u8>>::empty());
        assert(clean@ + Seq::<u8>::empty() =~= clean@);
    }
    (clean, false)
}


/// The body of a complete operating system command, between its
/// introducer and its terminator.
pub open spec fn spec_osc_body(s: Seq<u8>) -> Option<Seq<u8>> {
    let body = if s.len() >= 2 && s[0] == 0x1b && s[1] == 0x5d {
        Some(s.skip(2))
    } else if s.len() >= 1 && s[0] == 0x9d {
        Some(s.skip(1))
    } else {
        None
    };
    match body {
        None => None,
        Some(b) => if b.len() >= 2 && b[b.len() - 2] == 0x1b && b.last() == 0x5c {
            Some(b.take(b.len() - 2))
        } else if b.len() >= 1 && (b.last() == 7 || b.last() == 0x9c) {
            Some(b.take(b.len() - 1))
        } else {
            None
        },
    }
}

fn osc_body(s: &[u8]) -> (r: Option<&[u8]>)
    ensures
        match spec_osc_body(s@) {
            Some(b) => r matches Some(v) && v@ == b,
            None => r is None,
        },
{
    let n = s.len();
    let start: usize = if n >= 2 && s[0] == 0x1b && s[1] == 0x5d {
        2
    } else if n >= 1 && s[0] == 0x9d {
        1
    } else {
        return None;
    };
    let m = n - start;
    if m >= 2 && s[n - 2] == 0x1b && s[n - 1] == 0x5c {
        proof {
            assert(s@.skip(start as int).take(m - 2) =~= s@.subrange(start as int, n - 2));
        }
        Some(&s[start..n - 2])
    } else if m >= 1 && (s[n - 1] == 7 || s[n - 1] == 0x9c) {
        proof {
            assert(s@.skip(start as int).take(m - 1) =~= s@.subrange(start as int, n - 1));
        }
        Some(&s[start..n - 1])
    } else {
        None
    }
}

/// A scroll-region parameter: the default when empty, its value when a
/// number that fits, and the largest value otherwise.
pub open spec fn parameter(s: Seq<u8>, default: u32) -> u32 {
    if s.len() == 0 {
        default
    } else {
        match spec_decimal(s, 0xffff_ffff, false) {
            Some(v) => v as u32,
            None => u32::MAX,
        }
    }
}

fn parameter_of(s: &[u8], default: u32) -> (r: u32)
    ensures
        r == parameter(s@, default),
{
    if s.len() == 0 {
        default
    } else {
        match decimal(s, 0xffff_ffff, false) {
            Some(v) => v as u32,
            None => u32::MAX,
        }
    }
}

/// The terminal output scanner.
pub struct Scanner {
    rows: u16,
    buf: Vec<u8>,
    sent: usize,
    since: u64,
    ready: bool,
    busy: Option<bool>,
    modes: Modes,
    episode: (bool, bool),
}

impl Scanner {
    /// The sequence under way, passed on or not.
    pub closed spec fn spec_sequence(&self) -> Seq<u8> {
        self.buf@
    }

    /// Whether the sequence under way has waited too long by `now`.
    pub closed spec fn spec_stale(&self, now: u64) -> bool {
        now >= if self.since > u64::MAX - 50 {
            u64::MAX
        } else {
            (self.since + 50) as u64
        }
    }

    /// What the scanner holds back: the part of the sequence under way not
    /// yet passed on.
    pub closed spec fn pending(&self) -> Seq<u8> {
        self.buf@.subrange(self.sent as int, self.buf@.len() as int)
    }

    /// The scanner's invariant: what was passed on is a prefix of the
    /// sequence under way; a command is passed on as it comes but for a
    /// trailing ESC, which waits for the byte after it to show whether it
    /// ends the command; any other sequence holds at most 32 bytes.
    pub closed spec fn wf(&self) -> bool {
        &&& self.sent <= self.buf@.len()
        &&& self.buf@.len() <= 65537
        &&& spec_is_osc(self.buf@) && self.buf@.last() == 0x1b ==> self.sent < self.buf@.len()
        &&& spec_is_osc(self.buf@) ==> self.sent + 1 >= self.buf@.len()
        &&& !spec_is_osc(self.buf@) ==> self.buf@.len() <= 32
        &&& self.buf@.len() > 0 ==> spec_is_intro(self.buf@[0])
    }

    pub closed spec fn spec_rows(&self) -> u16 {
        self.rows
    }

    pub closed spec fn spec_modes(&self) -> Modes {
        self.modes
    }

    pub closed spec fn spec_episode(&self) -> (bool, bool) {
        self.episode
    }

    /// Whether the child was reported ready.
    pub closed spec fn spec_ready(&self) -> bool {
        self.ready
    }

    /// The state last reported: busy or idle, none before the first.
    pub closed spec fn spec_busy(&self) -> Option<bool> {
        self.busy
    }

    /// A scanner for a terminal of `rows` rows, holding nothing back.
    pub fn new(rows: u16) -> (r: Self)
        ensures
            r.wf(),
            r.pending() == Seq::<u8>::empty(),
            r.spec_rows() == rows,
            r.spec_episode() == (false, false),
            !r.spec_modes().spec_inexact(),
    {
        let r = Scanner {
            rows,
            buf: Vec::new(),
            sent: 0,
            since: 0,
            ready: false,
            busy: None,
            modes: Modes::reset(),
            episode: (false, false),
        };
        assert(r.pending() =~= Seq::<u8>::empty());
        r
    }

    pub fn set_rows(&mut self, rows: u16)
        requires
            old(self).wf(),
        ensures
            final(self).wf(),
            final(self).spec_rows() == rows,
            final(self).pending() == old(self).pending(),
    {
        self.rows = rows;
    }

    /// The modes tracked so far.
    pub fn modes(&self) -> (r: &Modes)
        ensures
            *r == self.spec_modes(),
    {
        &self.modes
    }

    /// Whether neither scanner has degraded since its last good sequence.
    pub fn exact(&self) -> (r: bool)
        ensures
            r == (self.spec_episode() == (false, false)),
    {
        !self.episode.0 && !self.episode.1
    }

    /// Passes on the part of the sequence under way that cannot become
    /// a watched sequence's held part.
    fn emit_safe(&mut self, out: &mut Vec<Scan>)
        requires
            runs_joined(old(out)@),
            old(self).sent < old(self).buf@.len(),
        ensures
            runs_joined(final(out)@),
            released(final(out)@) + final(self).pending() == released(old(out)@) + old(self).pending(),
            final(self).buf == old(self).buf,
            final(self).sent <= final(self).buf@.len(),
            old(self).sent <= final(self).sent,
            spec_is_osc(final(self).buf@) && final(self).buf@.last() == 0x1b ==> final(self).sent < final(self).buf@.len(),
            spec_is_osc(final(self).buf@) && final(self).buf@.last() != 0x1b ==> final(self).sent == final(self).buf@.len(),
            spec_is_osc(final(self).buf@) ==> final(self).sent + 1 >= final(self).buf@.len(),
            final(self).rows == old(self).rows && final(self).since == old(self).since && final(self).ready == old(self).ready
                && final(self).busy == old(self).busy && final(self).modes == old(self).modes && final(self).episode == old(self).episode,
            forall|r0: bool, b0: Option<bool>| #[trigger] obs_fold(r0, b0, final(out)@) == obs_fold(r0, b0, old(out)@),
            final(out)@.len() >= old(out)@.len(),
    {
        let n = self.buf.len();
        let safe = if is_osc(self.buf.as_slice()) {
            if n > 0 && self.buf[n - 1] == 0x1b {
                n - 1
            } else {
                n
            }
        } else if n == 1 || possible_query(self.buf.as_slice()) {
            0
        } else {
            n
        };
        if safe > self.sent {
            let ghost p0 = self.pending();
            release(out, &self.buf.as_slice()[self.sent..safe]);
            self.sent = safe;
            proof {
                assert(p0 =~= self.buf@.subrange(old(self).sent as int, safe as int) + self.pending());
            }
        }
    }

    /// Reports a scanner degrading, once per episode.
    fn degraded(&mut self, osc: bool, reason: &'static str, out: &mut Vec<Scan>)
        requires
            runs_joined(old(out)@),
        ensures
            runs_joined(final(out)@),
            released(final(out)@) == released(old(out)@),
            final(self).buf == old(self).buf && final(self).sent == old(self).sent,
            final(self).rows == old(self).rows,
            final(self).ready == old(self).ready && final(self).busy == old(self).busy,
            forall|r0: bool, b0: Option<bool>| #[trigger] obs_fold(r0, b0, final(out)@) == obs_fold(r0, b0, old(out)@),
    {
        let scanner: &'static str = if osc {
            "osc"
        } else {
            "query"
        };
        let seen = if osc {
            self.episode.0
        } else {
            self.episode.1
        };
        if !seen {
            observe(out, Observation::Degraded(scanner, reason));
            if osc {
                self.episode.0 = true;
            } else {
                self.episode.1 = true;
            }
        }
    }

    /// Gives up the sequence under way: passes it on and reports the
    /// scanner degraded for `reason`.
    fn abandon(&mut self, reason: &'static str, out: &mut Vec<Scan>)
        requires
            runs_joined(old(out)@),
            old(self).sent <= old(self).buf@.len(),
        ensures
            runs_joined(final(out)@),
            released(final(out)@) == released(old(out)@) + old(self).pending(),
            final(self).buf@.len() == 0 && final(self).sent == 0,
            final(self).rows == old(self).rows,
            final(self).ready == old(self).ready && final(self).busy == old(self).busy,
            forall|r0: bool, b0: Option<bool>| #[trigger] obs_fold(r0, b0, final(out)@) == obs_fold(r0, b0, old(out)@),
    {
        let osc = is_osc(self.buf.as_slice());
        let n = self.buf.len();
        let charset = n >= 2 && self.buf[0] == 0x1b && (self.buf[1] == 0x28 || self.buf[1] == 0x29);
        if charset || csi(self.buf.as_slice()).is_some() {
            self.modes.inexact = true;
        }
        let sent = self.sent;
        if osc {
            release(out, &self.buf.as_slice()[sent..n]);
        }
        self.degraded(osc, reason, out);
        if !osc {
            release(out, &self.buf.as_slice()[sent..n]);
        }
        self.buf.clear();
        self.sent = 0;
    }

    /// Starts a sequence with `byte` when it introduces one.
    fn begin(&mut self, byte: u8, now: u64, out: &mut Vec<Scan>) -> (r: bool)
        requires
            runs_joined(old(out)@),
            old(self).buf@.len() == 0,
            old(self).sent == 0,
        ensures
            runs_joined(final(out)@),
            r == spec_is_intro(byte),
            !r ==> *final(self) == *old(self) && final(out)@ == old(out)@,
            r ==> released(final(out)@) + final(self).pending() == released(old(out)@) + seq![byte],
            r ==> final(self).buf@ == seq![byte] && final(self).sent <= 1 && final(self).since == now,
            final(self).rows == old(self).rows,
            final(self).ready == old(self).ready && final(self).busy == old(self).busy,
            forall|r0: bool, b0: Option<bool>| #[trigger] obs_fold(r0, b0, final(out)@) == obs_fold(r0, b0, old(out)@),
    {
        if !(byte == 0x1b || byte == 0x9b || byte == 0x9d) {
            return false;
        }
        self.buf.push(byte);
        self.sent = 0;
        self.since = now;
        proof {
            assert(self.buf@ =~= seq![byte]);
        }
        self.emit_safe(out);
        true
    }

    /// Acts on a complete sequence; false when it is malformed.
    fn process(&mut self, sequence: &[u8], out: &mut Vec<Scan>) -> (r: bool)
        requires
            runs_joined(old(out)@),
        ensures
            runs_joined(final(out)@),
            released(final(out)@) == released(old(out)@),
            final(self).buf == old(self).buf && final(self).sent == old(self).sent,
            final(self).rows == old(self).rows,
            obs_kept(old(out)@, final(out)@, (old(self).ready, old(self).busy), (final(self).ready, final(self).busy)),
            spec_recognize_query(sequence@) matches Some(shape) ==> r && final(out)@.len() > old(out)@.len()
                && is_query_obs(final(out)@.last(), shape.class, sequence@),
    {
        if let Some(shape) = recognize_query(sequence) {
            if !self.ready {
                self.ready = true;
                observe(out, Observation::Ready);
            }
            observe(out, Observation::Query(shape.class, crate::bytes::to_vec(sequence)));
            return true;
        }
        if is_osc(sequence) {
            return match osc_body(sequence) {
                Some(body) => self.osc(body, out),
                None => false,
            };
        }
        let n = sequence.len();
        if n == 2 && sequence[0] == 0x1b && sequence[1] == 0x63 {
            self.modes = Modes::reset();
        } else if n == 3 && sequence[0] == 0x1b && (sequence[1] == 0x28 || sequence[1] == 0x29) {
            let value = sequence[2];
            if value == 0x30 || value == 0x42 {
                if sequence[1] == 0x29 {
                    self.modes.charset.1 = value == 0x30;
                } else {
                    self.modes.charset.0 = value == 0x30;
                }
            } else {
                self.modes.inexact = true;
            }
        } else if let Some((_, tail)) = csi(sequence) {
            self.csi(tail);
        }
        true
    }

    /// An operating system command: a title (0 or 2) or a link (8) is
    /// reported; false when the command is malformed.
    fn osc(&mut self, body: &[u8], out: &mut Vec<Scan>) -> (r: bool)
        requires
            runs_joined(old(out)@),
        ensures
            runs_joined(final(out)@),
            released(final(out)@) == released(old(out)@),
            final(self).buf == old(self).buf && final(self).sent == old(self).sent,
            final(self).rows == old(self).rows,
            obs_kept(old(out)@, final(out)@, (old(self).ready, old(self).busy), (final(self).ready, final(self).busy)),
    {
        let mut split: usize = 0;
        while split < body.len() && body[split] != 0x3b
            invariant
                split <= body@.len(),
            decreases body@.len() - split,
        {
            split = split + 1;
        }
        if split == body.len() || split == 0 {
            return false;
        }
        let mut k: usize = 0;
        while k < split
            invariant
                k <= split,
                split < body@.len(),
                runs_joined(out@),
            decreases split - k,
        {
            if !(0x30 <= body[k] && body[k] <= 0x39) {
                return false;
            }
            k = k + 1;
        }
        let value = &body[split + 1..body.len()];
        if split == 1 && (body[0] == 0x30 || body[0] == 0x32) {
            let (title, truncated) = text(value, 255);
            let t = title.as_slice();
            let busy = t.len() >= 4 && t[0] == 0xe2 && 0xa0 <= t[1] && t[1] <= 0xa3 && t[3] == 0x20;
            let changed = match self.busy {
                Some(b) => b != busy,
                None => true,
            };
            if changed {
                self.busy = Some(busy);
                observe(
                    out,
                    Observation::State(
                        if busy {
                            "busy"
                        } else {
                            "idle"
                        },
                        title,
                        truncated,
                    ),
                );
            }
        } else if split == 1 && body[0] == 0x38 {
            let mut second: usize = 0;
            while second < value.len() && value[second] != 0x3b
                invariant
                    second <= value@.len(),
                decreases value@.len() - second,
            {
                second = second + 1;
            }
            if second == value.len() || second > 1024 {
                return false;
            }
            let mut q: usize = 0;
            while q < second
                invariant
                    q <= second,
                    second < value@.len(),
                    runs_joined(out@),
                decreases second - q,
            {
                let b = value[q];
                if b == 7 || b == 0x1b || b == 0x9c {
                    return false;
                }
                q = q + 1;
            }
            let (uri, truncated) = text(&value[second + 1..value.len()], 2048);
            observe(out, Observation::Link(uri, truncated));
        }
        true
    }

    /// A control sequence: private modes are tracked, and a scrolling
    /// region is kept when it is one the tracked modes can express.
    fn csi(&mut self, tail: &[u8])
        ensures
            final(self).buf == old(self).buf && final(self).sent == old(self).sent,
            final(self).rows == old(self).rows,
            final(self).ready == old(self).ready && final(self).busy == old(self).busy,
    {
        let n = tail.len();
        if n >= 2 && tail[0] == 0x3f && (tail[n - 1] == 0x68 || tail[n - 1] == 0x6c) {
            let set = tail[n - 1] == 0x68;
            self.modes.private_modes(&tail[1..n - 1], set);
            return;
        }
        if n == 0 || tail[n - 1] != 0x72 {
            return;
        }
        let values = &tail[0..n - 1];
        if values.len() == 0 {
            self.modes.scroll = None;
            return;
        }
        let mut first_end: usize = 0;
        while first_end < values.len() && values[first_end] != 0x3b
            invariant
                first_end <= values@.len(),
            decreases values@.len() - first_end,
        {
            first_end = first_end + 1;
        }
        let parsed_top = parameter_of(&values[0..first_end], 1);
        let top = if parsed_top < 1 {
            1
        } else {
            parsed_top
        };
        let rows = self.rows as u32;
        let mut extra = false;
        let bottom_text: &[u8] = if first_end < values.len() {
            let rest = &values[first_end + 1..values.len()];
            let mut second_end: usize = 0;
            while second_end < rest.len() && rest[second_end] != 0x3b
                invariant
                    second_end <= rest@.len(),
                decreases rest@.len() - second_end,
            {
                second_end = second_end + 1;
            }
            extra = second_end < rest.len();
            &rest[0..second_end]
        } else {
            &values[0..0]
        };
        let parsed_bottom = parameter_of(bottom_text, rows);
        let bottom = if parsed_bottom == 0 {
            rows
        } else {
            parsed_bottom
        };
        if extra || bottom > rows {
            self.modes.inexact = true;
        } else if top == 1 && bottom == rows {
            self.modes.scroll = None;
        } else if bottom > top {
            self.modes.scroll = Some((top as u16, bottom as u16));
        } else {
            self.modes.inexact = true;
        }
    }

    /// Gives up a sequence held past its deadline of 50 milliseconds.
    pub fn expire(&mut self, now: u64) -> (r: Vec<Scan>)
        requires
            old(self).wf(),
        ensures
            runs_joined(r@),
            final(self).wf(),
            released(r@) + final(self).pending() == old(self).pending(),
            final(self).spec_rows() == old(self).spec_rows(),
            obs_fold(old(self).spec_ready(), old(self).spec_busy(), r@) == Some((final(self).spec_ready(), final(self).spec_busy())),
            !old(self).spec_stale(now) ==> *final(self) == *old(self) && r@.len() == 0,
    {
        let mut out: Vec<Scan> = Vec::new();
        if now < self.since.saturating_add(50) {
            proof {
                assert(released(out@) + self.pending() =~= self.pending());
            }
            return out;
        }
        let n = self.buf.len();
        if is_osc(self.buf.as_slice()) && n > 0 && self.buf[n - 1] == 0x1b {
            let ghost p0 = self.pending();
            self.buf.pop();
            proof {
                assert(p0 =~= self.pending().push(0x1b));
            }
            self.abandon("deadline", &mut out);
            let _ = self.begin(0x1b, now, &mut out);
            proof {
                assert(released(out@) + self.pending() =~= p0);
            }
        } else if self.sent < n {
            self.abandon("deadline", &mut out);
            proof {
                assert(released(out@) + self.pending() =~= old(self).pending());
            }
        } else {
            proof {
                assert(released(out@) + self.pending() =~= self.pending());
            }
        }
        out
    }

    /// Scans `bytes` owned by the caller; output that holds no sequence
    /// introducer while nothing is held back passes on whole.
    pub fn scan_owned(&mut self, now: u64, bytes: Vec<u8>) -> (r: Vec<Scan>)
        requires
            old(self).wf(),
        ensures
            runs_joined(r@),
            final(self).wf(),
            released(r@) + final(self).pending() == old(self).pending() + bytes@,
            final(self).spec_rows() == old(self).spec_rows(),
            obs_fold(old(self).spec_ready(), old(self).spec_busy(), r@) == Some((final(self).spec_ready(), final(self).spec_busy())),
    {
        let mut plain = self.buf.len() == 0 && bytes.len() > 0;
        let mut i: usize = 0;
        while plain && i < bytes.len()
            invariant
                i <= bytes@.len(),
                plain ==> self.buf@.len() == 0 && bytes@.len() > 0,
            decreases bytes@.len() - i,
        {
            let b = bytes[i];
            if b == 0x1b || b == 0x9b || b == 0x9d {
                plain = false;
            }
            i = i + 1;
        }
        if plain {
            self.episode = (false, false);
            let mut out: Vec<Scan> = Vec::new();
            let ghost b = bytes@;
            out.push(Scan::Release(bytes));
            proof {
                assert(out@.drop_last() =~= Seq::<Scan>::empty());
                assert(released(Seq::<Scan>::empty()) =~= Seq::<u8>::empty());
                assert(released(out@) == released(out@.drop_last()) + b);
                assert(self.pending() =~= Seq::<u8>::empty());
                assert(released(out@) + self.pending() =~= old(self).pending() + b);
                assert(obs_fold(self.ready, self.busy, out@) == obs_fold(self.ready, self.busy, out@.drop_last()));
            }
            out
        } else {
            self.scan(now, bytes.as_slice())
        }
    }

    /// Takes one byte of output.
    #[verifier::spinoff_prover]
    #[verifier::rlimit(80)]
    fn feed(&mut self, byte: u8, now: u64, out: &mut Vec<Scan>)
        requires
            runs_joined(old(out)@),
            old(self).wf(),
        ensures
            runs_joined(final(out)@),
            final(self).wf(),
            released(final(out)@) + final(self).pending() == released(old(out)@) + old(self).pending() + seq![byte],
            final(self).rows == old(self).rows,
            obs_kept(old(out)@, final(out)@, (old(self).ready, old(self).busy), (final(self).ready, final(self).busy)),
            completes_query(old(self).buf@, byte) ==> reports_query(
                final(out)@,
                old(out)@.len() as int,
                spec_recognize_query(old(self).buf@.push(byte))->0.class,
                old(self).buf@.push(byte),
            ),
            old(self).buf@.len() == 0 && spec_is_intro(byte) ==> final(self).buf@ == seq![byte] && final(self).since == now,
            0 < old(self).buf@.len() < 32 && !spec_is_osc(old(self).buf@) && !spec_is_osc(old(self).buf@.push(byte))
                && !spec_complete(old(self).buf@.push(byte)) ==> final(self).buf@ == old(self).buf@.push(byte)
                && final(self).since == old(self).since,
    {
        let ghost before_out = released(out@);
        let ghost before_pending = self.pending();
        let ghost o_start = out@;
        let ghost start_record = (self.ready, self.busy);
        if self.buf.len() == 0 {
            if !self.begin(byte, now, out) {
                self.episode = (false, false);
                release(out, [byte].as_slice());
                proof {
                    assert([byte]@ =~= seq![byte]);
                }
            }
            proof {
                assert(before_pending =~= Seq::<u8>::empty());
                assert(released(out@) + self.pending() =~= before_out + seq![byte]);
            }
            return;
        }
        let osc = is_osc(self.buf.as_slice());
        let n = self.buf.len();
        let osc_escape = osc && self.buf[n - 1] == 0x1b;
        if osc && (byte == 0x18 || byte == 0x1a) {
            self.abandon("cancelled", out);
            release(out, [byte].as_slice());
            proof {
                assert([byte]@ =~= seq![byte]);
                assert(self.pending() =~= Seq::<u8>::empty());
                assert(released(out@) + self.pending() =~= before_out + before_pending + seq![byte]);
            }
            return;
        }
        if osc && (byte == 0x9b || byte == 0x9d) {
            self.abandon("malformed", out);
            let _ = self.begin(byte, now, out);
            proof {
                assert(released(out@) + self.pending() =~= before_out + before_pending + seq![byte]);
            }
            return;
        }
        if osc_escape && byte != 0x5c {
            let ghost p0 = self.pending();
            self.buf.pop();
            proof {
                assert(p0 =~= self.pending().push(0x1b));
            }
            self.abandon("malformed", out);
            let _ = self.begin(0x1b, now, out);
            proof {
                assert(released(out@) + self.pending() =~= before_out + before_pending);
            }
        }
        let ghost out_mid = released(out@);
        let ghost pending_mid = self.pending();
        let ghost o_mid = out@;
        proof {
            assert forall|r0: bool, b0: Option<bool>| #[trigger] obs_fold(r0, b0, o_start) == Some(start_record) implies obs_fold(r0, b0, o_mid) == Some(start_record) by {}
        }
        self.buf.push(byte);
        proof {
            assert(self.pending() =~= pending_mid.push(byte));
        }
        if byte == 0x1b && is_osc(self.buf.as_slice()) {
            self.since = now;
        }
        let osc_now = is_osc(self.buf.as_slice());
        let cap: usize = if osc_now {
            65536
        } else {
            32
        };
        if self.buf.len() > cap {
            let reprocess = byte == 0x1b || byte == 0x9b || byte == 0x9d;
            if reprocess {
                self.buf.pop();
                proof {
                    assert(pending_mid =~= self.pending());
                }
            }
            self.abandon("limit", out);
            if reprocess {
                let _ = self.begin(byte, now, out);
            }
            proof {
                assert(released(out@) + self.pending() =~= out_mid + pending_mid + seq![byte]);
            }
        } else {
            self.emit_safe(out);
            let ghost o_safe = out@;
            proof {
                assert forall|r0: bool, b0: Option<bool>| #[trigger] obs_fold(r0, b0, o_start) == Some(start_record) implies obs_fold(r0, b0, o_safe) == Some(start_record) by {
                    assert(obs_fold(r0, b0, o_mid) == Some(start_record));
                }
            }
            if complete(self.buf.as_slice()) {
                let mut sequence: Vec<u8> = Vec::new();
                std::mem::swap(&mut sequence, &mut self.buf);
                let emitted = self.sent;
                self.sent = 0;
                let sequence_osc = is_osc(sequence.as_slice());
                let ghost o_pre = out@;
                proof {
                    if completes_query(old(self).buf@, byte) {
                        assert(sequence@ == old(self).buf@.push(byte));
                    }
                }
                if self.process(sequence.as_slice(), out) {
                    if sequence_osc {
                        self.episode.0 = false;
                    } else {
                        self.episode.1 = false;
                    }
                } else {
                    self.degraded(sequence_osc, "malformed", out);
                }
                let ghost o_post = out@;
                let ghost record = (self.ready, self.busy);
                proof {
                    assert forall|r0: bool, b0: Option<bool>| #[trigger] obs_fold(r0, b0, o_start) == Some(start_record) implies obs_fold(r0, b0, o_post) == Some(record) by {
                        assert(obs_fold(r0, b0, o_safe) == Some(start_record));
                        assert(obs_fold(r0, b0, o_pre) == Some(start_record));
                    }
                }
                let ghost o_rel = out@;
                release(out, &sequence.as_slice()[emitted..sequence.len()]);
                proof {
                    if completes_query(old(self).buf@, byte) {
                        assert(o_safe.len() >= o_mid.len());
                        let k = o_rel.len() - 1;
                        assert(k >= o_start.len());
                        assert(o_rel[k] is Observation);
                        assert(out@[k] == o_rel[k]);
                        assert(reports_query(out@, o_start.len() as int, spec_recognize_query(old(self).buf@.push(byte))->0.class, old(self).buf@.push(byte)));
                    }
                    assert(self.pending() =~= Seq::<u8>::empty());
                    assert forall|r0: bool, b0: Option<bool>| #[trigger] obs_fold(r0, b0, o_start) == Some(start_record) implies obs_fold(r0, b0, out@) == Some(record) by {
                        assert(obs_fold(r0, b0, o_post) == Some(record));
                    }
                }
            }
            proof {
                assert(released(out@) + self.pending() =~= out_mid + pending_mid + seq![byte]);
            }
        }
    }

    /// Scans output: passes on every byte, in order, except what it holds
    /// back of a sequence under way, and reports what it observes; a
    /// recognized query that arrives whole while nothing is under way, or
    /// whose last byte completes it in time, is reported as that query.
    pub fn scan(&mut self, now: u64, bytes: &[u8]) -> (r: Vec<Scan>)
        requires
            old(self).wf(),
        ensures
            runs_joined(r@),
            final(self).wf(),
            released(r@) + final(self).pending() == old(self).pending() + bytes@,
            final(self).spec_rows() == old(self).spec_rows(),
            obs_fold(old(self).spec_ready(), old(self).spec_busy(), r@) == Some((final(self).spec_ready(), final(self).spec_busy())),
            bytes@.len() == 1 && !old(self).spec_stale(now) && completes_query(old(self).spec_sequence(), bytes@[0])
                ==> reports_query(
                r@,
                0,
                spec_recognize_query(old(self).spec_sequence().push(bytes@[0]))->0.class,
                old(self).spec_sequence().push(bytes@[0]),
            ),
            !old(self).spec_stale(now) && old(self).spec_sequence().len() == 0 && whole_query(bytes@) ==> reports_query(
                r@,
                0,
                spec_recognize_query(bytes@)->0.class,
                bytes@,
            ),
    {
        let mut out = self.expire(now);
        let ghost start = old(self).pending();
        let ghost cond = bytes@.len() == 1 && !old(self).spec_stale(now) && completes_query(old(self).buf@, bytes@[0]);
        let ghost whole = !old(self).spec_stale(now) && old(self).buf@.len() == 0 && whole_query(bytes@);
        proof {
            if whole {
                lemma_query_prefixes(bytes@);
            }
        }
        let mut i: usize = 0;
        while i < bytes.len()
            invariant
                i <= bytes@.len(),
                self.wf(),
                released(out@) + self.pending() == start + bytes@.take(i as int),
                runs_joined(out@),
                self.rows == old(self).rows,
                obs_fold(old(self).ready, old(self).busy, out@) == Some((self.ready, self.busy)),
                cond == (bytes@.len() == 1 && !old(self).spec_stale(now) && completes_query(old(self).buf@, bytes@[0])),
                cond && i == 0 ==> self.buf@ == old(self).buf@ && out@.len() == 0,
                cond && i >= 1 ==> reports_query(
                    out@,
                    0,
                    spec_recognize_query(old(self).buf@.push(bytes@[0]))->0.class,
                    old(self).buf@.push(bytes@[0]),
                ),
                whole == (!old(self).spec_stale(now) && old(self).buf@.len() == 0 && whole_query(bytes@)),
                whole ==> bytes@.len() >= 2 && spec_is_intro(bytes@[0]) && spec_complete(bytes@) && !spec_is_osc(bytes@)
                    && forall|k: int| 1 <= k < bytes@.len() ==> !spec_complete(#[trigger] bytes@.take(k)) && !spec_is_osc(bytes@.take(k)),
                whole && i == 0 ==> self.buf@.len() == 0,
                whole && 1 <= i < bytes@.len() ==> self.buf@ == bytes@.take(i as int),
                whole && i == bytes@.len() ==> reports_query(out@, 0, spec_recognize_query(bytes@)->0.class, bytes@),
            decreases bytes@.len() - i,
        {
            proof {
                if whole && 1 <= i < bytes@.len() {
                    assert(bytes@.take(i + 1) =~= bytes@.take(i as int).push(bytes@[i as int]));
                    assert(!spec_complete(bytes@.take(i as int)));
                    assert(!spec_is_osc(bytes@.take(i as int)));
                    if i + 1 < bytes@.len() {
                        assert(!spec_complete(bytes@.take(i + 1)));
                        assert(!spec_is_osc(bytes@.take(i + 1)));
                    } else {
                        assert(bytes@.take(i + 1) =~= bytes@);
                    }
                }
                if whole && i == 0 {
                    assert(bytes@.take(1) =~= seq![bytes@[0]]);
                }
            }
            let byte = bytes[i];
            proof {
                assert(bytes@.take(i + 1) =~= bytes@.take(i as int).push(byte));
            }
            self.feed(byte, now, &mut out);
            i = i + 1;
        }
        proof {
            assert(bytes@.take(bytes@.len() as int) =~= bytes@);
        }
        out
    }
}

/// The bytes of all `chunks`, in order.
pub open spec fn joined_bytes(chunks: Seq<Seq<u8>>) -> Seq<u8>
    decreases chunks.len(),
{
    if chunks.len() == 0 {
        Seq::empty()
    } else {
        joined_bytes(chunks.drop_last()) + chunks.last()
    }
}

/// The bytes released over a run of scans, in order.
pub open spec fn all_released(outs: Seq<Seq<Scan>>) -> Seq<u8>
    decreases outs.len(),
{
    if outs.len() == 0 {
        Seq::empty()
    } else {
        all_released(outs.drop_last()) + released(outs.last())
    }
}

/// One call of `scan`, `scan_owned` or `expire` (which takes no input), as
/// their contracts describe what it passes on.
pub open spec fn scan_step(before: Scanner, after: Scanner, out: Seq<Scan>, input: Seq<u8>) -> bool {
    released(out) + after.pending() == before.pending() + input
}

/// No byte is lost, repeated or reordered: over any run of calls from a
/// scanner holding nothing back, what the calls released, joined in order
/// and followed by what the scanner still holds back, is exactly the input
/// joined in order; at most 32 bytes, of a sequence under way, are held
/// back.
pub proof fn lemma_scans_pass_everything(
    scanners: Seq<Scanner>,
    outs: Seq<Seq<Scan>>,
    inputs: Seq<Seq<u8>>,
)
    requires
        scanners.len() == inputs.len() + 1,
        outs.len() == inputs.len(),
        scanners[0].pending() == Seq::<u8>::empty(),
        forall|k: int| 0 <= k < inputs.len() ==> #[trigger] scan_step(scanners[k], scanners[k + 1], outs[k], inputs[k]),
        scanners.last().wf(),
    ensures
        all_released(outs) + scanners.last().pending() == joined_bytes(inputs),
        scanners.last().pending().len() <= 32,
{
    let n = inputs.len();
    if n == 0 {
        assert(all_released(outs) + scanners.last().pending() =~= joined_bytes(inputs));
    } else {
        let k = n - 1;
        assert(scan_step(scanners[k], scanners[k + 1], outs[k], inputs[k]));
        lemma_scans_prefix(scanners, outs, inputs, k);
        assert(outs.drop_last().len() == k);
        assert(all_released(outs) =~= all_released(outs.drop_last()) + released(outs[k]));
        assert(joined_bytes(inputs) =~= joined_bytes(inputs.drop_last()) + inputs[k]);
        assert(scanners.last() == scanners[k + 1]);
        let a = all_released(outs.drop_last());
        let b = released(outs[k]);
        assert(outs.take(k) =~= outs.drop_last());
        assert(inputs.take(k) =~= inputs.drop_last());
        assert((a + b) + scanners[k + 1].pending() =~= a + (b + scanners[k + 1].pending()));
        assert(a + (scanners[k].pending() + inputs[k]) =~= (a + scanners[k].pending()) + inputs[k]);
    }
    assert(scanners.last().pending().len() <= 32) by {
        reveal(Scanner::wf);
    }
}

proof fn lemma_scans_prefix(scanners: Seq<Scanner>, outs: Seq<Seq<Scan>>, inputs: Seq<Seq<u8>>, i: int)
    requires
        scanners.len() == inputs.len() + 1,
        outs.len() == inputs.len(),
        scanners[0].pending() == Seq::<u8>::empty(),
        forall|k: int| 0 <= k < inputs.len() ==> #[trigger] scan_step(scanners[k], scanners[k + 1], outs[k], inputs[k]),
        0 <= i <= inputs.len(),
    ensures
        all_released(outs.take(i)) + scanners[i].pending() == joined_bytes(inputs.take(i)),
    decreases i,
{
    if i == 0 {
        assert(all_released(outs.take(0)) + scanners[0].pending() =~= joined_bytes(inputs.take(0)));
    } else {
        let k = i - 1;
        lemma_scans_prefix(scanners, outs, inputs, k);
        assert(scan_step(scanners[k], scanners[k + 1], outs[k], inputs[k]));
        assert(outs.take(i).drop_last() =~= outs.take(k));
        assert(inputs.take(i).drop_last() =~= inputs.take(k));
        assert(all_released(outs.take(i)) =~= all_released(outs.take(k)) + released(outs[k]));
        assert(joined_bytes(inputs.take(i)) =~= joined_bytes(inputs.take(k)) + inputs[k]);
        let a = all_released(outs.take(k));
        let b = released(outs[k]);
        assert((a + b) + scanners[i].pending() =~= a + (b + scanners[i].pending()));
        assert(a + (scanners[k].pending() + inputs[k]) =~= (a + scanners[k].pending()) + inputs[k]);
    }
}

} // verus!
