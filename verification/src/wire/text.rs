//! Decimal fields, control-sequence introducers and the terminal query
//! grammar that the holder delegates to a viewer.
use crate::events::decimal_text;
use vstd::prelude::*;

verus! {

pub open spec fn is_digit(b: u8) -> bool {
    48 <= b <= 57
}

pub open spec fn all_digits(s: Seq<u8>) -> bool {
    forall|i: int| 0 <= i < s.len() ==> is_digit(#[trigger] s[i])
}

pub open spec fn digit_of(b: u8) -> nat {
    if b >= 48 {
        (b - 48) as nat
    } else {
        0
    }
}

/// The number that the decimal digits `s` spell.
pub open spec fn digits_value(s: Seq<u8>) -> nat
    decreases s.len(),
{
    if s.len() == 0 {
        0
    } else {
        digits_value(s.drop_last()) * 10 + digit_of(s.last())
    }
}

/// A decimal field: nonempty, only digits, no larger than `max`, and, when
/// `canonical`, without a leading zero unless it is the single digit `0`.
pub open spec fn spec_decimal(s: Seq<u8>, max: u64, canonical: bool) -> Option<u64> {
    if s.len() == 0 || (canonical && s.len() > 1 && s[0] == 48) || !all_digits(s) || digits_value(
        s,
    ) > max {
        None
    } else {
        Some(digits_value(s) as u64)
    }
}

proof fn lemma_digits_prefix(s: Seq<u8>, i: int, j: int)
    requires
        0 <= i <= j <= s.len(),
    ensures
        digits_value(s.subrange(0, i)) <= digits_value(s.subrange(0, j)),
    decreases j - i,
{
    if i < j {
        lemma_digits_prefix(s, i, j - 1);
        assert(s.subrange(0, j).drop_last() =~= s.subrange(0, j - 1));
    }
}

/// Parses a decimal field.
pub fn decimal(bytes: &[u8], max: u64, canonical: bool) -> (r: Option<u64>)
    ensures
        r == spec_decimal(bytes@, max, canonical),
{
    if bytes.len() == 0 || (canonical && bytes.len() != 1 && bytes[0] == 48) {
        return None;
    }
    let mut value: u64 = 0;
    let mut i: usize = 0;
    while i < bytes.len()
        invariant
            i <= bytes.len(),
            all_digits(bytes@.subrange(0, i as int)),
            value == digits_value(bytes@.subrange(0, i as int)),
            value <= max,
        decreases bytes.len() - i,
    {
        let b = bytes[i];
        assert(bytes@.subrange(0, i + 1).drop_last() =~= bytes@.subrange(0, i as int));
        if b < 48 || b > 57 {
            assert(!is_digit(bytes@[i as int]));
            return None;
        }
        let digit = (b - 48) as u64;
        if value > u64::MAX / 10 || value * 10 > u64::MAX - digit || value * 10 + digit > max {
            proof {
                if all_digits(bytes@) {
                    lemma_digits_prefix(bytes@, i + 1, bytes.len() as int);
                    assert(bytes@.subrange(0, bytes.len() as int) =~= bytes@);
                }
            }
            return None;
        }
        value = value * 10 + digit;
        i = i + 1;
        assert(all_digits(bytes@.subrange(0, i as int)));
    }
    assert(bytes@.subrange(0, bytes.len() as int) =~= bytes@);
    Some(value)
}

/// A number's decimal digits read back as that number, canonically: they
/// are digits only, and begin with a zero only when the number is zero.
pub proof fn lemma_decimal_text_reads_back(n: nat)
    ensures
        decimal_text(n).len() >= 1,
        all_digits(decimal_text(n)),
        digits_value(decimal_text(n)) == n,
        n > 0 ==> decimal_text(n)[0] != 48,
    decreases n,
{
    let d = decimal_text(n);
    if n < 10 {
        assert(d.drop_last() =~= Seq::<u8>::empty());
        assert(digits_value(Seq::<u8>::empty()) == 0);
        assert(digit_of(d.last()) == n);
    } else {
        lemma_decimal_text_reads_back(n / 10);
        let h = decimal_text(n / 10);
        assert(d =~= h.push((48 + n % 10) as u8));
        assert(d.drop_last() =~= h);
        assert(d.last() == (48 + n % 10) as u8);
        assert(digit_of(d.last()) == n % 10);
        assert(digits_value(d) == digits_value(h) * 10 + n % 10);
        assert((n / 10) * 10 + n % 10 == n);
        assert(d[0] == h[0]);
    }
}

/// What a decimal field reads as, for the digits of a number: the number,
/// when it is within `max`.
pub proof fn lemma_decimal_of_text(n: nat, max: u64, canonical: bool)
    ensures
        spec_decimal(decimal_text(n), max, canonical) == if n <= max {
            Some(n as u64)
        } else {
            None::<u64>
        },
{
    lemma_decimal_text_reads_back(n);
}

/// The tail after a control-sequence introducer, 7-bit (`ESC [`) or 8-bit
/// (`0x9b`), with whether it was the 8-bit form.
pub open spec fn spec_csi(s: Seq<u8>) -> Option<(bool, Seq<u8>)> {
    if s.len() >= 2 && s[0] == 0x1b && s[1] == 0x5b {
        Some((false, s.subrange(2, s.len() as int)))
    } else if s.len() >= 1 && s[0] == 0x9b {
        Some((true, s.subrange(1, s.len() as int)))
    } else {
        None
    }
}

pub fn csi(bytes: &[u8]) -> (r: Option<(bool, &[u8])>)
    ensures
        match spec_csi(bytes@) {
            Some((csi8, tail)) => r matches Some(v) && v.0 == csi8 && v.1@ == tail,
            None => r is None,
        },
{
    if bytes.len() >= 2 && bytes[0] == 0x1b && bytes[1] == 0x5b {
        Some((false, &bytes[2..bytes.len()]))
    } else if bytes.len() >= 1 && bytes[0] == 0x9b {
        Some((true, &bytes[1..bytes.len()]))
    } else {
        None
    }
}

/// What a terminal query asks: its class (1 primary attributes, 2 secondary
/// attributes, 3 version, 4 private mode report, 5 cursor position), whether
/// it used the 8-bit introducer, and the mode a class-4 query names.
#[derive(Clone, Copy, Debug, PartialEq, Eq)]
pub struct QueryShape {
    pub class: u8,
    pub csi8: bool,
    pub mode: Option<u32>,
}

pub open spec fn is_pair(s: Seq<u8>, a: u8, b: u8) -> bool {
    s.len() == 2 && s[0] == a && s[1] == b
}

pub open spec fn shape(class: u8, csi8: bool, mode: Option<u32>) -> QueryShape {
    QueryShape { class, csi8, mode }
}

/// The terminal queries the holder recognizes in child output.
pub open spec fn spec_recognize_query(s: Seq<u8>) -> Option<QueryShape> {
    match spec_csi(s) {
        None => None,
        Some((csi8, t)) => if (t.len() == 1 && t[0] == 0x63) || is_pair(t, 0x30, 0x63) {
            Some(shape(1, csi8, None))
        } else if is_pair(t, 0x3e, 0x63) || (t.len() == 3 && t[0] == 0x3e && t[1] == 0x30 && t[2]
            == 0x63) {
            Some(shape(2, csi8, None))
        } else if t.len() == 3 && t[0] == 0x3e && t[1] == 0x30 && t[2] == 0x71 {
            Some(shape(3, csi8, None))
        } else if is_pair(t, 0x36, 0x6e) {
            Some(shape(5, csi8, None))
        } else if t.len() >= 3 && t[0] == 0x3f && t[t.len() - 2] == 0x24 && t[t.len() - 1]
            == 0x70 {
            match spec_decimal(t.subrange(1, t.len() - 2), u32::MAX as u64, true) {
                Some(mode) => Some(shape(4, csi8, Some(mode as u32))),
                None => None,
            }
        } else {
            None
        },
    }
}

pub fn recognize_query(bytes: &[u8]) -> (r: Option<QueryShape>)
    ensures
        r == spec_recognize_query(bytes@),
{
    let (csi8, t) = match csi(bytes) {
        Some(v) => v,
        None => return None,
    };
    let n = t.len();
    if (n == 1 && t[0] == 0x63) || (n == 2 && t[0] == 0x30 && t[1] == 0x63) {
        Some(QueryShape { class: 1, csi8, mode: None })
    } else if (n == 2 && t[0] == 0x3e && t[1] == 0x63) || (n == 3 && t[0] == 0x3e && t[1] == 0x30
        && t[2] == 0x63) {
        Some(QueryShape { class: 2, csi8, mode: None })
    } else if n == 3 && t[0] == 0x3e && t[1] == 0x30 && t[2] == 0x71 {
        Some(QueryShape { class: 3, csi8, mode: None })
    } else if n == 2 && t[0] == 0x36 && t[1] == 0x6e {
        Some(QueryShape { class: 5, csi8, mode: None })
    } else if n >= 3 && t[0] == 0x3f && t[n - 2] == 0x24 && t[n - 1] == 0x70 {
        match decimal(&t[1..n - 2], 0xffff_ffff, true) {
            Some(mode) => Some(QueryShape { class: 4, csi8, mode: Some(mode as u32) }),
            None => None,
        }
    } else {
        None
    }
}

/// The body of a control sequence between the introducer with `prefix` and
/// `suffix`, when the bytes have that shape.
pub open spec fn spec_csi_body(s: Seq<u8>, prefix: Seq<u8>, suffix: Seq<u8>) -> Option<Seq<u8>> {
    match spec_csi(s) {
        None => None,
        Some((_, t)) => if t.len() >= prefix.len() + suffix.len() && t.subrange(0, prefix.len() as int)
            == prefix && t.subrange(t.len() - suffix.len(), t.len() as int) == suffix {
            Some(t.subrange(prefix.len() as int, t.len() - suffix.len()))
        } else {
            None
        },
    }
}

fn csi_body<'a>(bytes: &'a [u8], prefix: &[u8], suffix: &[u8]) -> (r: Option<&'a [u8]>)
    ensures
        match spec_csi_body(bytes@, prefix@, suffix@) {
            Some(body) => r matches Some(v) && v@ == body,
            None => r is None,
        },
{
    let (_, t) = match csi(bytes) {
        Some(v) => v,
        None => return None,
    };
    if t.len() < prefix.len() || t.len() - prefix.len() < suffix.len() {
        return None;
    }
    let head = &t[0..prefix.len()];
    let tail = &t[t.len() - suffix.len()..t.len()];
    if crate::bytes::same_bytes(head, prefix) && crate::bytes::same_bytes(tail, suffix) {
        Some(&t[prefix.len()..t.len() - suffix.len()])
    } else {
        None
    }
}

/// One `;`-separated numeric field.
pub open spec fn field_ok(s: Seq<u8>, max: u64, nonzero: bool) -> bool {
    spec_decimal(s, max, true) matches Some(n) && (!nonzero || n != 0)
}

/// Counts the `;`-separated fields of `s` from the field that starts at
/// `start` (scanning at `i`), or `None` when some field is not a valid number.
pub open spec fn scan_fields(s: Seq<u8>, start: int, i: int, max: u64, nonzero: bool) -> Option<nat>
    decreases s.len() - i,
{
    if i >= s.len() || i < start || start < 0 {
        if 0 <= start <= s.len() && field_ok(s.subrange(start, s.len() as int), max, nonzero) {
            Some(1)
        } else {
            None
        }
    } else if s[i] == 0x3b {
        if field_ok(s.subrange(start, i), max, nonzero) {
            match scan_fields(s, i + 1, i + 1, max, nonzero) {
                Some(n) => Some(n + 1),
                None => None,
            }
        } else {
            None
        }
    } else {
        scan_fields(s, start, i + 1, max, nonzero)
    }
}

/// `s` is a list of between `low` and `high` numeric fields.
pub open spec fn spec_numbers(s: Seq<u8>, low: nat, high: nat, max: u64, nonzero: bool) -> bool {
    scan_fields(s, 0, 0, max, nonzero) matches Some(n) && low <= n <= high
}

fn field_valid(s: &[u8], max: u64, nonzero: bool) -> (r: bool)
    ensures
        r == field_ok(s@, max, nonzero),
{
    match decimal(s, max, true) {
        Some(n) => !nonzero || n != 0,
        None => false,
    }
}

fn numbers(bytes: &[u8], low: usize, high: usize, max: u64, nonzero: bool) -> (r: bool)
    ensures
        r == spec_numbers(bytes@, low as nat, high as nat, max, nonzero),
{
    let n = bytes.len();
    let mut start: usize = 0;
    let mut i: usize = 0;
    let mut count: usize = 0;
    while i < n
        invariant
            start <= i <= n,
            n == bytes.len(),
            count <= i,
            scan_fields(bytes@, 0, 0, max, nonzero) == match scan_fields(
                bytes@,
                start as int,
                i as int,
                max,
                nonzero,
            ) {
                Some(k) => Some((k + count) as nat),
                None => None::<nat>,
            },
        decreases n - i,
    {
        if bytes[i] == 0x3b {
            if !field_valid(&bytes[start..i], max, nonzero) {
                return false;
            }
            count = count + 1;
            start = i + 1;
        }
        i = i + 1;
    }
    if !field_valid(&bytes[start..n], max, nonzero) {
        return false;
    }
    (low == 0 || low - 1 <= count) && count < high
}

pub open spec fn printable_text(s: Seq<u8>) -> bool {
    s.len() != 0 && s.len() <= 128 && forall|i: int| 0 <= i < s.len() ==> 0x20 <= #[trigger] s[i]
        <= 0x7e
}

/// The body between `head` and `tail` when `s` starts and ends with them.
pub open spec fn spec_strip(s: Seq<u8>, head: Seq<u8>, tail: Seq<u8>) -> Option<Seq<u8>> {
    if s.len() >= head.len() + tail.len() && s.subrange(0, head.len() as int) == head && s.subrange(
        s.len() - tail.len(),
        s.len() as int,
    ) == tail {
        Some(s.subrange(head.len() as int, s.len() - tail.len()))
    } else {
        None
    }
}

fn strip<'a>(bytes: &'a [u8], head: &[u8], tail: &[u8]) -> (r: Option<&'a [u8]>)
    ensures
        match spec_strip(bytes@, head@, tail@) {
            Some(body) => r matches Some(v) && v@ == body,
            None => r is None,
        },
{
    if bytes.len() < head.len() || bytes.len() - head.len() < tail.len() {
        return None;
    }
    if crate::bytes::same_bytes(&bytes[0..head.len()], head) && crate::bytes::same_bytes(
        &bytes[bytes.len() - tail.len()..bytes.len()],
        tail,
    ) {
        Some(&bytes[head.len()..bytes.len() - tail.len()])
    } else {
        None
    }
}

pub open spec fn last_semicolon(s: Seq<u8>, i: int) -> int
    decreases i,
{
    if i <= 0 {
        -1
    } else if s[i - 1] == 0x3b {
        i - 1
    } else {
        last_semicolon(s, i - 1)
    }
}

/// A private-mode report names `mode` and gives one state digit 0 to 4.
pub open spec fn mode_report(body: Seq<u8>, mode: Option<u32>) -> bool {
    let split = last_semicolon(body, body.len() as int);
    split >= 0 && match spec_decimal(body.subrange(0, split), u32::MAX as u64, true) {
        Some(m) => mode == Some(m as u32),
        None => mode is None,
    } && body.len() == split + 2 && 0x30 <= body[split + 1] <= 0x34
}

/// The reply a viewer gives to a query of the class `query` records.
pub open spec fn spec_validate_query_reply(query: QueryShape, s: Seq<u8>) -> bool {
    if query.class == 1 {
        spec_csi_body(s, seq![0x3fu8], seq![0x63u8]) matches Some(b) && spec_numbers(
            b,
            1,
            16,
            u16::MAX as u64,
            false,
        )
    } else if query.class == 2 {
        spec_csi_body(s, seq![0x3eu8], seq![0x63u8]) matches Some(b) && spec_numbers(
            b,
            3,
            3,
            u32::MAX as u64,
            false,
        )
    } else if query.class == 3 {
        (spec_strip(s, seq![0x1bu8, 0x50, 0x3e, 0x7c], seq![0x1bu8, 0x5c]) matches Some(t)
            && printable_text(t)) || (spec_strip(s, seq![0x90u8, 0x3e, 0x7c], seq![0x9cu8])
            matches Some(t) && printable_text(t))
    } else if query.class == 4 {
        spec_csi_body(s, seq![0x3fu8], seq![0x24u8, 0x79]) matches Some(b) && mode_report(
            b,
            query.mode,
        )
    } else if query.class == 5 {
        spec_csi_body(s, Seq::<u8>::empty(), seq![0x52u8]) matches Some(b) && spec_numbers(
            b,
            2,
            2,
            u16::MAX as u64,
            true,
        )
    } else {
        false
    }
}

/// Numbers written as `;`-separated decimal fields.
pub open spec fn joined_fields(ns: Seq<nat>) -> Seq<u8>
    decreases ns.len(),
{
    if ns.len() == 0 {
        Seq::empty()
    } else if ns.len() == 1 {
        decimal_text(ns[0])
    } else {
        decimal_text(ns[0]) + seq![0x3bu8] + joined_fields(ns.drop_first())
    }
}

proof fn lemma_scan_skips_digits(s: Seq<u8>, start: int, i: int, j: int, max: u64, nonzero: bool)
    requires
        0 <= start <= i <= j <= s.len(),
        forall|k: int| i <= k < j ==> #[trigger] s[k] != 0x3b,
    ensures
        scan_fields(s, start, i, max, nonzero) == scan_fields(s, start, j, max, nonzero),
    decreases j - i,
{
    if i < j {
        lemma_scan_skips_digits(s, start, i + 1, j, max, nonzero);
    }
}

proof fn lemma_scan_joined(s: Seq<u8>, start: int, ns: Seq<nat>, max: u64)
    requires
        ns.len() >= 1,
        0 <= start <= s.len(),
        s.subrange(start, s.len() as int) == joined_fields(ns),
    ensures
        scan_fields(s, start, start, max, false) == if forall|k: int| 0 <= k < ns.len() ==> #[trigger] ns[k] <= max {
            Some(ns.len())
        } else {
            None::<nat>
        },
    decreases ns.len(),
{
    let d = decimal_text(ns[0]);
    lemma_decimal_text_reads_back(ns[0]);
    lemma_decimal_of_text(ns[0], max, true);
    let k = start + d.len();
    let rest = s.subrange(start, s.len() as int);
    assert(rest.subrange(0, d.len() as int) =~= d);
    assert forall|x: int| start <= x < k implies #[trigger] s[x] != 0x3b by {
        assert(s[x] == rest[x - start]);
        assert(rest[x - start] == d[x - start]);
        assert(is_digit(d[x - start]));
    }
    assert(s.subrange(start, k) =~= d);
    if ns.len() == 1 {
        assert(k == s.len());
        lemma_scan_skips_digits(s, start, start, k, max, false);
        if !(forall|x: int| 0 <= x < ns.len() ==> #[trigger] ns[x] <= max) {
            let x = choose|x: int| 0 <= x < ns.len() && !(#[trigger] ns[x] <= max);
            assert(x == 0);
        }
    } else {
        let tail = ns.drop_first();
        assert(rest =~= d + seq![0x3bu8] + joined_fields(tail));
        assert(k < s.len());
        assert(s[k] == rest[d.len() as int]);
        lemma_scan_skips_digits(s, start, start, k, max, false);
        assert forall|x: int| 0 <= x < s.len() - (k + 1) implies #[trigger] s.subrange(k + 1, s.len() as int)[x]
            == joined_fields(tail)[x] by {
            assert(s[k + 1 + x] == rest[d.len() + 1 + x]);
        }
        assert(s.subrange(k + 1, s.len() as int) =~= joined_fields(tail));
        lemma_scan_joined(s, k + 1, tail, max);
        if forall|x: int| 0 <= x < ns.len() ==> #[trigger] ns[x] <= max {
            assert forall|x: int| 0 <= x < tail.len() implies #[trigger] tail[x] <= max by {
                assert(tail[x] == ns[x + 1]);
            }
        } else {
            let x = choose|x: int| 0 <= x < ns.len() && !(#[trigger] ns[x] <= max);
            if x > 0 {
                assert(tail[x - 1] == ns[x]);
            }
        }
    }
}

/// A reply to a primary device attributes query is `CSI ? n1 ; ... ; nk c`:
/// it is accepted exactly when it has 1 to 16 fields, each a number of at
/// most 65535 written in decimal.
pub proof fn lemma_device_attributes_reply(query: QueryShape, ns: Seq<nat>)
    requires
        query.class == 1,
        ns.len() >= 1,
    ensures
        spec_validate_query_reply(query, seq![0x1bu8, 0x5bu8, 0x3fu8] + joined_fields(ns) + seq![0x63u8])
            <==> (ns.len() <= 16 && forall|k: int| 0 <= k < ns.len() ==> #[trigger] ns[k] <= 65535),
{
    let j = joined_fields(ns);
    let s = seq![0x1bu8, 0x5bu8, 0x3fu8] + j + seq![0x63u8];
    let t = s.subrange(2, s.len() as int);
    assert(t =~= seq![0x3fu8] + j + seq![0x63u8]);
    assert(t.subrange(0, 1) =~= seq![0x3fu8]);
    assert(t.subrange(t.len() - 1, t.len() as int) =~= seq![0x63u8]);
    assert(t.subrange(1, t.len() - 1) =~= j);
    assert(spec_csi_body(s, seq![0x3fu8], seq![0x63u8]) == Some(j));
    assert(j.subrange(0, j.len() as int) =~= j);
    lemma_scan_joined(j, 0, ns, 0xffff);
}

fn printable(t: &[u8]) -> (r: bool)
    ensures
        r == printable_text(t@),
{
    if t.len() == 0 || t.len() > 128 {
        return false;
    }
    let mut i: usize = 0;
    while i < t.len()
        invariant
            i <= t.len(),
            forall|j: int| 0 <= j < i ==> 0x20 <= #[trigger] t@[j] <= 0x7e,
        decreases t.len() - i,
    {
        if t[i] < 0x20 || t[i] > 0x7e {
            return false;
        }
        i = i + 1;
    }
    true
}

fn valid_mode_report(body: &[u8], mode: Option<u32>) -> (r: bool)
    ensures
        r == mode_report(body@, mode),
{
    let mut i: usize = body.len();
    while i > 0 && body[i - 1] != 0x3b
        invariant
            i <= body.len(),
            last_semicolon(body@, body.len() as int) == last_semicolon(body@, i as int),
        decreases i,
    {
        i = i - 1;
    }
    if i == 0 {
        return false;
    }
    let split = i - 1;
    let named = match decimal(&body[0..split], 0xffff_ffff, true) {
        Some(m) => match mode {
            Some(expected) => m as u32 == expected,
            None => false,
        },
        None => mode.is_none(),
    };
    named && body.len() - split == 2 && 0x30 <= body[split + 1] && body[split + 1] <= 0x34
}

pub fn validate_query_reply(query: &QueryShape, bytes: &[u8]) -> (r: bool)
    ensures
        r == spec_validate_query_reply(*query, bytes@),
{
    let question: [u8; 1] = [0x3f];
    let greater: [u8; 1] = [0x3e];
    let c: [u8; 1] = [0x63];
    let dcs: [u8; 4] = [0x1b, 0x50, 0x3e, 0x7c];
    let st: [u8; 2] = [0x1b, 0x5c];
    let dcs8: [u8; 3] = [0x90, 0x3e, 0x7c];
    let st8: [u8; 1] = [0x9c];
    let report: [u8; 2] = [0x24, 0x79];
    let none: [u8; 0] = [];
    let r_end: [u8; 1] = [0x52];
    proof {
        assert(question@ =~= seq![0x3fu8]);
        assert(greater@ =~= seq![0x3eu8]);
        assert(c@ =~= seq![0x63u8]);
        assert(dcs@ =~= seq![0x1bu8, 0x50, 0x3e, 0x7c]);
        assert(st@ =~= seq![0x1bu8, 0x5c]);
        assert(dcs8@ =~= seq![0x90u8, 0x3e, 0x7c]);
        assert(st8@ =~= seq![0x9cu8]);
        assert(report@ =~= seq![0x24u8, 0x79]);
        assert(none@ =~= Seq::<u8>::empty());
        assert(r_end@ =~= seq![0x52u8]);
    }
    if query.class == 1 {
        match csi_body(bytes, question.as_slice(), c.as_slice()) {
            Some(body) => numbers(body, 1, 16, 0xffff, false),
            None => false,
        }
    } else if query.class == 2 {
        match csi_body(bytes, greater.as_slice(), c.as_slice()) {
            Some(body) => numbers(body, 3, 3, 0xffff_ffff, false),
            None => false,
        }
    } else if query.class == 3 {
        let seven = match strip(bytes, dcs.as_slice(), st.as_slice()) {
            Some(text) => printable(text),
            None => false,
        };
        let eight = match strip(bytes, dcs8.as_slice(), st8.as_slice()) {
            Some(text) => printable(text),
            None => false,
        };
        seven || eight
    } else if query.class == 4 {
        match csi_body(bytes, question.as_slice(), report.as_slice()) {
            Some(body) => valid_mode_report(body, query.mode),
            None => false,
        }
    } else if query.class == 5 {
        match csi_body(bytes, none.as_slice(), r_end.as_slice()) {
            Some(body) => numbers(body, 2, 2, 0xffff, true),
            None => false,
        }
    } else {
        false
    }
}

/// A terminal geometry of nonzero rows and columns, each at most 32767,
/// covering at most two million cells.
pub open spec fn spec_valid_size(rows: u16, columns: u16) -> bool {
    rows != 0 && columns != 0 && rows <= 32767 && columns <= 32767 && rows * columns <= 2_000_000
}

pub fn valid_size(size: (u16, u16)) -> (r: bool)
    ensures
        r == spec_valid_size(size.0, size.1),
{
    let (a, b) = size;
    if a == 0 || b == 0 || a > 32767 || b > 32767 {
        return false;
    }
    proof {
        assert(a as u32 * b as u32 <= 32767 * 32767) by (nonlinear_arith)
            requires
                a <= 32767,
                b <= 32767,
        ;
    }
    let cells = (a as u32) * (b as u32);
    cells <= 2_000_000
}

} // verus!
