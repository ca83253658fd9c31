//! The command line: which subcommand, session, options and child command
//! the arguments name, and the message that refuses them when they do not.
//! Arguments are raw byte strings, as the operating system handed them over.
use crate::name::{push_rendered, rendered, spec_valid_session, valid_session};
use crate::events::decimal_text;
use crate::wire::text::{decimal, lemma_decimal_of_text, lemma_decimal_text_reads_back, spec_decimal};
use vstd::prelude::*;
use vstd::string::StringSliceAdditionalSpecFns;

verus! {

/// How a child is asked to redraw when a viewer attaches.
#[derive(Clone, Copy, Debug, PartialEq, Eq, Structural)]
pub enum Redraw {
    NoRedraw,
    CtrlL,
    Winch,
}

/// How a viewer's terminal is reset when it attaches.
#[derive(Clone, Copy, Debug, PartialEq, Eq, Structural)]
pub enum Reset {
    NoReset,
    Move,
}

/// How a session is created: named directly, or by `new`, `start` or `run`.
#[derive(Clone, Copy, Debug, PartialEq, Eq, Structural)]
pub enum CreateMode {
    Bare,
    New,
    Start,
    Run,
}

/// The options of attaching and creating: the detach byte (none when
/// disabled), redraw and reset, whether ^Z passes to the child, quiet
/// messages, a viewer that is not VT-compatible, the log cap, and the
/// paths for standard error, events, instrumentation and the working
/// directory.
#[derive(Debug)]
pub struct Options {
    pub detach: Option<u8>,
    pub redraw: Redraw,
    pub reset: Reset,
    pub pass_suspend: bool,
    pub quiet: bool,
    pub non_vt: bool,
    pub log_cap: u64,
    pub stderr: Option<Vec<u8>>,
    pub events: Option<Vec<u8>>,
    pub instrument: Option<Vec<u8>>,
    pub directory: Option<Vec<u8>>,
}

pub struct OptionsView {
    pub detach: Option<u8>,
    pub redraw: Redraw,
    pub reset: Reset,
    pub pass_suspend: bool,
    pub quiet: bool,
    pub non_vt: bool,
    pub log_cap: u64,
    pub stderr: Option<Seq<u8>>,
    pub events: Option<Seq<u8>>,
    pub instrument: Option<Seq<u8>>,
    pub directory: Option<Seq<u8>>,
}

pub open spec fn path_view(p: Option<Vec<u8>>) -> Option<Seq<u8>> {
    match p {
        Some(v) => Some(v@),
        None => None,
    }
}

impl View for Options {
    type V = OptionsView;

    open spec fn view(&self) -> OptionsView {
        OptionsView {
            detach: self.detach,
            redraw: self.redraw,
            reset: self.reset,
            pass_suspend: self.pass_suspend,
            quiet: self.quiet,
            non_vt: self.non_vt,
            log_cap: self.log_cap,
            stderr: path_view(self.stderr),
            events: path_view(self.events),
            instrument: path_view(self.instrument),
            directory: path_view(self.directory),
        }
    }
}

/// The defaults: detach on ^\, no redraw or reset, a 1 MiB log cap, nothing
/// else set.
pub open spec fn default_options() -> OptionsView {
    OptionsView {
        detach: Some(0x1cu8),
        redraw: Redraw::NoRedraw,
        reset: Reset::NoReset,
        pass_suspend: false,
        quiet: false,
        non_vt: false,
        log_cap: 1048576,
        stderr: None,
        events: None,
        instrument: None,
        directory: None,
    }
}

impl Default for Options {
    fn default() -> (r: Self)
        ensures
            r@ == default_options(),
    {
        Options {
            detach: Some(0x1c),
            redraw: Redraw::NoRedraw,
            reset: Reset::NoReset,
            pass_suspend: false,
            quiet: false,
            non_vt: false,
            log_cap: 1048576,
            stderr: None,
            events: None,
            instrument: None,
            directory: None,
        }
    }
}

/// What the command line asks for.
#[derive(Debug)]
pub enum Action {
    Help,
    Version,
    Create { mode: CreateMode, session: Vec<u8>, command: Vec<Vec<u8>>, options: Options },
    Attach { session: Vec<u8>, options: Options },
    Push(Vec<u8>),
    Kill { session: Vec<u8>, force: bool, quiet: bool },
    Remove { session: Option<Vec<u8>>, all: bool, quiet: bool },
    List { all: bool },
    Current,
    Tail { session: Vec<u8>, follow: bool, lines: u32 },
    Clear(Option<Vec<u8>>),
}

/// A refused command line and its message.
#[derive(Debug)]
pub struct Error(pub Vec<u8>);

/// The options, in the order of their bits.
pub open spec fn option_name(id: int) -> Seq<u8> {
    seq![0x2du8, option_letter(id)]
}

pub open spec fn option_letter(id: int) -> u8 {
    if id == 0 {
        0x65u8
    } else if id == 1 {
        0x45u8
    } else if id == 2 {
        0x72u8
    } else if id == 3 {
        0x52u8
    } else if id == 4 {
        0x7au8
    } else if id == 5 {
        0x71u8
    } else if id == 6 {
        0x74u8
    } else if id == 7 {
        0x43u8
    } else if id == 8 {
        0x32u8
    } else if id == 9 {
        0x54u8
    } else if id == 10 {
        0x53u8
    } else if id == 11 {
        0x64u8
    } else if id == 12 {
        0x66u8
    } else if id == 13 {
        0x61u8
    } else {
        0x6eu8
    }
}

/// The options of attaching: `-e -E -r -R -z -q -t`.
pub const VIEW: u16 = 0x7f;

/// The options of creating: those of attaching and `-C -2 -T -S -d`.
pub const CREATE: u16 = 0xfff;

/// `-f`.
pub const FORCE: u16 = 0x1000;

/// `-a`.
pub const ALL: u16 = 0x2000;

/// `-n`.
pub const NUMBER: u16 = 0x4000;

/// `-q`.
pub const QUIET: u16 = 0x20;

/// The options that take a value: `-e -r -R -C -2 -T -S -d -n`.
pub open spec fn takes_value(id: int) -> bool {
    id == 0 || id == 2 || id == 3 || (7 <= id <= 11) || id == 14
}

/// Which option an argument names exactly.
pub open spec fn option_index(arg: Seq<u8>) -> Option<int> {
    if arg.len() == 2 && arg[0] == 0x2d {
        if exists|id: int| 0 <= id < 15 && option_letter(id) == arg[1] {
            Some(choose|id: int| 0 <= id < 15 && option_letter(id) == arg[1])
        } else {
            None
        }
    } else {
        None
    }
}

proof fn lemma_letters_distinct(a: int, b: int)
    requires
        0 <= a < 15,
        0 <= b < 15,
        option_letter(a) == option_letter(b),
    ensures
        a == b,
{
}

fn find_option(arg: &[u8]) -> (r: Option<usize>)
    ensures
        match option_index(arg@) {
            Some(id) => r == Some(id as usize),
            None => r is None,
        },
        r matches Some(id) ==> id < 15,
{
    if arg.len() != 2 || arg[0] != 0x2d {
        return None;
    }
    let letter = arg[1];
    let letters: [u8; 15] = [0x65, 0x45, 0x72, 0x52, 0x7a, 0x71, 0x74, 0x43, 0x32, 0x54, 0x53, 0x64, 0x66, 0x61, 0x6e];
    let mut id: usize = 0;
    while id < 15
        invariant
            id <= 15,
            arg@.len() == 2,
            arg@[0] == 0x2d,
            letter == arg@[1],
            letters@.len() == 15,
            forall|k: int| 0 <= k < 15 ==> letters@[k] == option_letter(k),
            forall|k: int| 0 <= k < id ==> option_letter(k) != letter,
        decreases 15 - id,
    {
        if letters[id] == letter {
            proof {
                assert(option_letter(id as int) == arg@[1]);
                let c = choose|k: int| 0 <= k < 15 && option_letter(k) == arg@[1];
                lemma_letters_distinct(c, id as int);
            }
            return Some(id);
        }
        id = id + 1;
    }
    assert(!exists|k: int| 0 <= k < 15 && option_letter(k) == arg@[1]);
    None
}

pub open spec fn text(s: &str) -> Seq<u8> {
    s.spec_bytes()
}

pub open spec fn invalid_args_text() -> Seq<u8> {
    text("Invalid number of arguments")
}

pub open spec fn invalid_mode_text(arg: Seq<u8>) -> Seq<u8> {
    text("Invalid mode '") + rendered(arg) + text("'")
}

pub open spec fn bad_value_text(value: Seq<u8>, option: Seq<u8>) -> Seq<u8> {
    text("Invalid value '") + rendered(value) + text("' for option '") + option + text("'")
}

pub open spec fn bad_option_text(arg: Seq<u8>, command: Seq<u8>) -> Seq<u8> {
    text("Option '") + rendered(arg) + text("' is not valid for '") + command + text("'")
}

pub open spec fn requires_text(id: int) -> Seq<u8> {
    text("Option '") + option_name(id) + text("' requires an argument")
}

pub open spec fn invalid_session_text(value: Seq<u8>) -> Seq<u8> {
    text("Invalid session name '") + rendered(value) + text("'")
}

fn push_text(out: &mut Vec<u8>, s: &str)
    ensures
        final(out)@ == old(out)@ + s.spec_bytes(),
{
    crate::bytes::push_all(out, s.as_bytes());
}

fn invalid_args() -> (r: Error)
    ensures
        r.0@ == invalid_args_text(),
{
    let mut out: Vec<u8> = Vec::new();
    push_text(&mut out, "Invalid number of arguments");
    Error(out)
}

fn invalid_mode(arg: &[u8]) -> (r: Error)
    ensures
        r.0@ == invalid_mode_text(arg@),
{
    let mut out: Vec<u8> = Vec::new();
    push_text(&mut out, "Invalid mode '");
    push_rendered(&mut out, arg);
    push_text(&mut out, "'");
    Error(out)
}

fn bad_value(value: &[u8], option: &[u8]) -> (r: Error)
    ensures
        r.0@ == bad_value_text(value@, option@),
{
    let mut out: Vec<u8> = Vec::new();
    push_text(&mut out, "Invalid value '");
    push_rendered(&mut out, value);
    push_text(&mut out, "' for option '");
    crate::bytes::push_all(&mut out, option);
    push_text(&mut out, "'");
    Error(out)
}

fn bad_option(arg: &[u8], command: &[u8]) -> (r: Error)
    ensures
        r.0@ == bad_option_text(arg@, command@),
{
    let mut out: Vec<u8> = Vec::new();
    push_text(&mut out, "Option '");
    push_rendered(&mut out, arg);
    push_text(&mut out, "' is not valid for '");
    crate::bytes::push_all(&mut out, command);
    push_text(&mut out, "'");
    Error(out)
}

fn requires_argument(id: usize, letter: u8) -> (r: Error)
    requires
        letter == option_letter(id as int),
    ensures
        r.0@ == requires_text(id as int),
{
    let mut out: Vec<u8> = Vec::new();
    push_text(&mut out, "Option '");
    out.push(0x2d);
    out.push(letter);
    push_text(&mut out, "' requires an argument");
    Error(out)
}

/// A detach byte: a printable character as itself, `^?` as DEL, or `^`
/// and a character from `@` to `_` as its control byte.
pub open spec fn spec_detach(v: Seq<u8>) -> Option<u8> {
    if v.len() == 1 && 0x20 <= v[0] <= 0x7e {
        Some(v[0])
    } else if v.len() == 2 && v[0] == 0x5e && v[1] == 0x3f {
        Some(0x7fu8)
    } else if v.len() == 2 && v[0] == 0x5e && 0x40 <= v[1] <= 0x5f {
        Some((v[1] - 0x40) as u8)
    } else {
        None
    }
}

pub open spec fn spec_redraw(v: Seq<u8>) -> Option<Redraw> {
    if v == text("none") {
        Some(Redraw::NoRedraw)
    } else if v == text("ctrl_l") {
        Some(Redraw::CtrlL)
    } else if v == text("winch") {
        Some(Redraw::Winch)
    } else {
        None
    }
}

pub open spec fn spec_reset(v: Seq<u8>) -> Option<Reset> {
    if v == text("none") {
        Some(Reset::NoReset)
    } else if v == text("move") {
        Some(Reset::Move)
    } else {
        None
    }
}

/// A log cap: decimal bytes, or with a `k`, `m` or `g` suffix (either case)
/// kibibytes, mebibytes or gibibytes, within 64 bits.
pub open spec fn spec_size(v: Seq<u8>) -> Option<u64> {
    let last = if v.len() > 0 {
        v[v.len() - 1]
    } else {
        0u8
    };
    let (digits, scale) = if v.len() > 0 && (last == 0x6b || last == 0x4b) {
        (v.drop_last(), 1024int)
    } else if v.len() > 0 && (last == 0x6d || last == 0x4d) {
        (v.drop_last(), 1048576int)
    } else if v.len() > 0 && (last == 0x67 || last == 0x47) {
        (v.drop_last(), 1073741824int)
    } else {
        (v, 1int)
    };
    match spec_decimal(digits, u64::MAX, true) {
        Some(n) => if n * scale <= u64::MAX {
            Some((n * scale) as u64)
        } else {
            None
        },
        None => None,
    }
}

/// `n` times `unit`, when that fits in 64 bits.
pub open spec fn scaled(n: nat, unit: nat) -> Option<u64> {
    if n * unit <= u64::MAX {
        Some((n * unit) as u64)
    } else {
        None
    }
}

/// A log cap is a number of bytes, or of kibibytes, mebibytes or gibibytes
/// with the suffix `k`, `m` or `g` in either case: the decimal digits of
/// `n` alone give `n`, and followed by a suffix give `n` times 2^10, 2^20
/// or 2^30, whenever the result fits in 64 bits.
pub proof fn lemma_size_units(n: nat)
    ensures
        spec_size(decimal_text(n)) == scaled(n, 1),
        spec_size(decimal_text(n).push('k' as u8)) == scaled(n, 1024),
        spec_size(decimal_text(n).push('K' as u8)) == scaled(n, 1024),
        spec_size(decimal_text(n).push('m' as u8)) == scaled(n, 1024 * 1024),
        spec_size(decimal_text(n).push('M' as u8)) == scaled(n, 1024 * 1024),
        spec_size(decimal_text(n).push('g' as u8)) == scaled(n, 1024 * 1024 * 1024),
        spec_size(decimal_text(n).push('G' as u8)) == scaled(n, 1024 * 1024 * 1024),
{
    let d = decimal_text(n);
    lemma_decimal_text_reads_back(n);
    lemma_decimal_of_text(n, u64::MAX, true);
    assert(d.last() == d[d.len() - 1]);
    assert(48 <= d[d.len() - 1] <= 57);
    assert(d.push('k' as u8).drop_last() =~= d);
    assert(d.push('K' as u8).drop_last() =~= d);
    assert(d.push('m' as u8).drop_last() =~= d);
    assert(d.push('M' as u8).drop_last() =~= d);
    assert(d.push('g' as u8).drop_last() =~= d);
    assert(d.push('G' as u8).drop_last() =~= d);
    if n > u64::MAX {
        assert(n * 1024 > u64::MAX) by (nonlinear_arith)
            requires
                n > u64::MAX,
        ;
        assert(n * (1024 * 1024) > u64::MAX) by (nonlinear_arith)
            requires
                n > u64::MAX,
        ;
        assert(n * (1024 * 1024 * 1024) > u64::MAX) by (nonlinear_arith)
            requires
                n > u64::MAX,
        ;
    }
}

/// A line count: a canonical decimal within 32 bits.
pub open spec fn spec_lines(v: Seq<u8>) -> Option<u32> {
    match spec_decimal(v, u64::MAX, true) {
        Some(n) => if n <= u32::MAX {
            Some(n as u32)
        } else {
            None
        },
        None => None,
    }
}

fn same_text(v: &[u8], s: &str) -> (r: bool)
    ensures
        r == (v@ == s.spec_bytes()),
{
    crate::bytes::same_bytes(v, s.as_bytes())
}

fn parse_detach(v: &[u8]) -> (r: Option<u8>)
    ensures
        r == spec_detach(v@),
{
    if v.len() == 1 && 0x20 <= v[0] && v[0] <= 0x7e {
        Some(v[0])
    } else if v.len() == 2 && v[0] == 0x5e && v[1] == 0x3f {
        Some(0x7f)
    } else if v.len() == 2 && v[0] == 0x5e && 0x40 <= v[1] && v[1] <= 0x5f {
        Some(v[1] - 0x40)
    } else {
        None
    }
}

fn parse_redraw(v: &[u8]) -> (r: Option<Redraw>)
    ensures
        r == spec_redraw(v@),
{
    if same_text(v, "none") {
        Some(Redraw::NoRedraw)
    } else if same_text(v, "ctrl_l") {
        Some(Redraw::CtrlL)
    } else if same_text(v, "winch") {
        Some(Redraw::Winch)
    } else {
        None
    }
}

fn parse_reset(v: &[u8]) -> (r: Option<Reset>)
    ensures
        r == spec_reset(v@),
{
    if same_text(v, "none") {
        Some(Reset::NoReset)
    } else if same_text(v, "move") {
        Some(Reset::Move)
    } else {
        None
    }
}

fn parse_size(v: &[u8]) -> (r: Option<u64>)
    ensures
        r == spec_size(v@),
{
    let n = v.len();
    let last = if n > 0 {
        v[n - 1]
    } else {
        0
    };
    let (digits, scale): (&[u8], u64) = if n > 0 && (last == 0x6b || last == 0x4b) {
        (&v[0..n - 1], 1024)
    } else if n > 0 && (last == 0x6d || last == 0x4d) {
        (&v[0..n - 1], 1048576)
    } else if n > 0 && (last == 0x67 || last == 0x47) {
        (&v[0..n - 1], 1073741824)
    } else {
        (v, 1)
    };
    proof {
        if n > 0 {
            assert(v@.subrange(0, n - 1) =~= v@.drop_last());
        }
    }
    match decimal(digits, u64::MAX, true) {
        Some(value) => {
            if value > u64::MAX / scale {
                proof {
                    assert(value * scale > u64::MAX) by (nonlinear_arith)
                        requires
                            value > u64::MAX / scale,
                            scale > 0,
                    ;
                }
                None
            } else {
                proof {
                    assert(value * scale <= u64::MAX) by (nonlinear_arith)
                        requires
                            value <= u64::MAX / scale,
                            scale > 0,
                    ;
                }
                Some(value * scale)
            }
        },
        None => None,
    }
}

fn parse_lines(v: &[u8]) -> (r: Option<u32>)
    ensures
        r == spec_lines(v@),
{
    match decimal(v, u64::MAX, true) {
        Some(n) => if n <= 0xffff_ffff {
            Some(n as u32)
        } else {
            None
        },
        None => None,
    }
}

/// What option `id` sets, with its value when it takes one.
pub open spec fn set_value(id: int, value: Seq<u8>, o: OptionsView, lines: u32) -> Result<
    (OptionsView, u32),
    Seq<u8>,
> {
    if id == 0 {
        match spec_detach(value) {
            Some(b) => Ok((OptionsView { detach: Some(b), ..o }, lines)),
            None => Err(bad_value_text(value, text("-e"))),
        }
    } else if id == 1 {
        Ok((OptionsView { detach: None, ..o }, lines))
    } else if id == 2 {
        match spec_redraw(value) {
            Some(r) => Ok((OptionsView { redraw: r, ..o }, lines)),
            None => Err(bad_value_text(value, text("-r"))),
        }
    } else if id == 3 {
        match spec_reset(value) {
            Some(r) => Ok((OptionsView { reset: r, ..o }, lines)),
            None => Err(bad_value_text(value, text("-R"))),
        }
    } else if id == 4 {
        Ok((OptionsView { pass_suspend: true, ..o }, lines))
    } else if id == 5 {
        Ok((OptionsView { quiet: true, ..o }, lines))
    } else if id == 6 {
        Ok((OptionsView { non_vt: true, ..o }, lines))
    } else if id == 7 {
        match spec_size(value) {
            Some(cap) => Ok((OptionsView { log_cap: cap, ..o }, lines)),
            None => Err(bad_value_text(value, text("-C"))),
        }
    } else if id == 8 {
        Ok((OptionsView { stderr: Some(value), ..o }, lines))
    } else if id == 9 {
        Ok((OptionsView { events: Some(value), ..o }, lines))
    } else if id == 10 {
        Ok((OptionsView { instrument: Some(value), ..o }, lines))
    } else if id == 11 {
        Ok((OptionsView { directory: Some(value), ..o }, lines))
    } else if id == 14 {
        match spec_lines(value) {
            Some(n) => Ok((o, n)),
            None => Err(bad_value_text(value, text("-n"))),
        }
    } else {
        Ok((o, lines))
    }
}

/// Where reading the arguments stands: the options, the bits of the options
/// seen, the line count and the operands.
pub struct ScanView {
    pub options: OptionsView,
    pub seen: u16,
    pub lines: u32,
    pub operands: Seq<Seq<u8>>,
}

/// Options cannot ask both that the viewer is not a VT and that it be
/// reset by cursor movement.
pub open spec fn scan_finish(st: ScanView) -> Result<ScanView, Seq<u8>> {
    if st.options.non_vt && st.options.reset == Reset::Move {
        Err(bad_value_text(text("move"), text("-R")))
    } else {
        Ok(st)
    }
}

/// Reads the arguments from `i` on. `--` ends the options: what follows are
/// operands, and outside creation at most one operand may stand in all. An
/// argument with a leading dash must be an option allowed here, followed
/// by its value when it takes one. Anything else is an operand; when
/// creating, the second operand begins the child command, which takes the
/// rest as it is.
pub open spec fn scan_from(
    args: Seq<Seq<u8>>,
    i: int,
    command: Seq<u8>,
    allowed: u16,
    creating: bool,
    st: ScanView,
) -> Result<ScanView, Seq<u8>>
    decreases args.len() - i,
{
    if i < 0 || i >= args.len() {
        scan_finish(st)
    } else {
        let arg = args[i];
        if arg == text("--") {
            let rest = args.subrange(i + 1, args.len() as int);
            if !creating && (rest.len() > 1 || (st.operands.len() > 0 && rest.len() > 0)) {
                Err(invalid_args_text())
            } else {
                scan_finish(ScanView { operands: st.operands + rest, ..st })
            }
        } else if arg.len() > 0 && arg[0] == 0x2d {
            match option_index(arg) {
                None => Err(invalid_mode_text(arg)),
                Some(id) => {
                    let bit = (1u16 << (id as u16)) as u16;
                    if allowed & bit == 0 {
                        Err(bad_option_text(arg, command))
                    } else if takes_value(id) {
                        if i + 1 >= args.len() {
                            Err(requires_text(id))
                        } else {
                            match set_value(id, args[i + 1], st.options, st.lines) {
                                Err(e) => Err(e),
                                Ok((o, l)) => scan_from(
                                    args,
                                    i + 2,
                                    command,
                                    allowed,
                                    creating,
                                    ScanView { options: o, seen: st.seen | bit, lines: l, ..st },
                                ),
                            }
                        }
                    } else {
                        match set_value(id, Seq::empty(), st.options, st.lines) {
                            Err(e) => Err(e),
                            Ok((o, l)) => scan_from(
                                args,
                                i + 1,
                                command,
                                allowed,
                                creating,
                                ScanView { options: o, seen: st.seen | bit, lines: l, ..st },
                            ),
                        }
                    }
                },
            }
        } else {
            let operands = st.operands.push(arg);
            if creating && operands.len() == 2 {
                scan_finish(
                    ScanView { operands: operands + args.subrange(i + 1, args.len() as int), ..st },
                )
            } else {
                scan_from(args, i + 1, command, allowed, creating, ScanView { operands, ..st })
            }
        }
    }
}

pub open spec fn scan_start() -> ScanView {
    ScanView { options: default_options(), seen: 0, lines: 10, operands: Seq::empty() }
}

pub open spec fn spec_scan(args: Seq<Seq<u8>>, command: Seq<u8>, allowed: u16, creating: bool) -> Result<
    ScanView,
    Seq<u8>,
> {
    scan_from(args, 0, command, allowed, creating, scan_start())
}

pub open spec fn views(args: Seq<Vec<u8>>) -> Seq<Seq<u8>> {
    args.map_values(|a: Vec<u8>| a@)
}

/// Options with the value of option `id` set.
fn set_option(id: usize, value: &[u8], options: &mut Options, lines: &mut u32) -> (r: Result<(), Error>)
    requires
        id < 15,
    ensures
        match set_value(id as int, value@, old(options)@, *old(lines)) {
            Ok((o, l)) => r is Ok && final(options)@ == o && *final(lines) == l,
            Err(e) => r matches Err(x) && x.0@ == e,
        },
{
    if id == 0 {
        match parse_detach(value) {
            Some(b) => {
                options.detach = Some(b);
                Ok(())
            },
            None => Err(bad_value(value, "-e".as_bytes())),
        }
    } else if id == 1 {
        options.detach = None;
        Ok(())
    } else if id == 2 {
        match parse_redraw(value) {
            Some(r) => {
                options.redraw = r;
                Ok(())
            },
            None => Err(bad_value(value, "-r".as_bytes())),
        }
    } else if id == 3 {
        match parse_reset(value) {
            Some(r) => {
                options.reset = r;
                Ok(())
            },
            None => Err(bad_value(value, "-R".as_bytes())),
        }
    } else if id == 4 {
        options.pass_suspend = true;
        Ok(())
    } else if id == 5 {
        options.quiet = true;
        Ok(())
    } else if id == 6 {
        options.non_vt = true;
        Ok(())
    } else if id == 7 {
        match parse_size(value) {
            Some(cap) => {
                options.log_cap = cap;
                Ok(())
            },
            None => Err(bad_value(value, "-C".as_bytes())),
        }
    } else if id == 8 {
        options.stderr = Some(crate::bytes::to_vec(value));
        Ok(())
    } else if id == 9 {
        options.events = Some(crate::bytes::to_vec(value));
        Ok(())
    } else if id == 10 {
        options.instrument = Some(crate::bytes::to_vec(value));
        Ok(())
    } else if id == 11 {
        options.directory = Some(crate::bytes::to_vec(value));
        Ok(())
    } else if id == 14 {
        match parse_lines(value) {
            Some(n) => {
                *lines = n;
                Ok(())
            },
            None => Err(bad_value(value, "-n".as_bytes())),
        }
    } else {
        Ok(())
    }
}

fn option_letter_of(id: usize) -> (r: u8)
    requires
        id < 15,
    ensures
        r == option_letter(id as int),
{
    let letters: [u8; 15] = [0x65, 0x45, 0x72, 0x52, 0x7a, 0x71, 0x74, 0x43, 0x32, 0x54, 0x53, 0x64, 0x66, 0x61, 0x6e];
    letters[id]
}

fn copy_args(args: &[Vec<u8>], from: usize, into: &mut Vec<Vec<u8>>)
    requires
        from <= args@.len(),
    ensures
        views(final(into)@) == views(old(into)@) + views(args@).subrange(from as int, args@.len() as int),
{
    let ghost start = views(into@);
    let mut i = from;
    while i < args.len()
        invariant
            from <= i <= args@.len(),
            views(into@) == start + views(args@).subrange(from as int, i as int),
        decreases args.len() - i,
    {
        let ghost before = into@;
        let v = crate::bytes::to_vec(args[i].as_slice());
        into.push(v);
        proof {
            assert(views(into@) =~= views(before).push(args@[i as int]@));
            assert(views(args@).subrange(from as int, i + 1) =~= views(args@).subrange(from as int, i as int).push(
                args@[i as int]@,
            ));
        }
        i = i + 1;
        assert(views(into@) =~= start + views(args@).subrange(from as int, i as int));
    }
}

/// The options, option bits, line count and operands the arguments give.
pub struct Scanned {
    pub options: Options,
    pub seen: u16,
    pub lines: u32,
    pub operands: Vec<Vec<u8>>,
}

pub open spec fn scanned_view(s: Scanned) -> ScanView {
    ScanView { options: s.options@, seen: s.seen, lines: s.lines, operands: views(s.operands@) }
}

/// Reads the option at `i` and its value; where reading goes on, or why it
/// stopped.
fn scan_option(
    args: &[Vec<u8>],
    i: usize,
    command: &[u8],
    allowed: u16,
    creating: bool,
    options: &mut Options,
    seen: &mut u16,
    lines: &mut u32,
    Ghost(held): Ghost<Seq<Seq<u8>>>,
) -> (r: Result<usize, Error>)
    requires
        i < args@.len(),
        args@[i as int]@.len() > 0 && args@[i as int]@[0] == 0x2d,
        args@[i as int]@ != text("--"),
    ensures
        match r {
            Ok(next) => i < next <= args@.len() && scan_from(
                views(args@),
                i as int,
                command@,
                allowed,
                creating,
                ScanView { options: old(options)@, seen: *old(seen), lines: *old(lines), operands: held },
            ) == scan_from(
                views(args@),
                next as int,
                command@,
                allowed,
                creating,
                ScanView { options: final(options)@, seen: *final(seen), lines: *final(lines), operands: held },
            ),
            Err(e) => scan_from(
                views(args@),
                i as int,
                command@,
                allowed,
                creating,
                ScanView { options: old(options)@, seen: *old(seen), lines: *old(lines), operands: held },
            ) == Err::<ScanView, Seq<u8>>(e.0@),
        },
{
    let arg = args[i].as_slice();
    assert(views(args@)[i as int] == arg@);
    let id = match find_option(arg) {
        Some(id) => id,
        None => {
            return Err(invalid_mode(arg));
        },
    };
    let bit: u16 = 1u16 << (id as u16);
    if allowed & bit == 0 {
        return Err(bad_option(arg, command));
    }
    *seen = *seen | bit;
    let valued = id == 0 || id == 2 || id == 3 || (7 <= id && id <= 11) || id == 14;
    if valued {
        if i + 1 >= args.len() {
            return Err(requires_argument(id, option_letter_of(id)));
        }
        assert(views(args@)[i + 1] == args@[i + 1]@);
        set_option(id, args[i + 1].as_slice(), options, lines)?;
        Ok(i + 2)
    } else {
        let empty: [u8; 0] = [];
        proof {
            assert(empty@ =~= Seq::<u8>::empty());
        }
        set_option(id, &empty, options, lines)?;
        Ok(i + 1)
    }
}

fn scan(args: &[Vec<u8>], command: &[u8], allowed: u16, creating: bool) -> (r: Result<Scanned, Error>)
    ensures
        match spec_scan(views(args@), command@, allowed, creating) {
            Ok(v) => r matches Ok(s) && scanned_view(s) == v,
            Err(e) => r matches Err(x) && x.0@ == e,
        },
{
    let mut options = Options::default();
    let mut seen: u16 = 0;
    let mut lines: u32 = 10;
    let mut operands: Vec<Vec<u8>> = Vec::new();
    let ghost all = views(args@);
    assert(views(operands@) =~= Seq::<Seq<u8>>::empty());
    let mut i: usize = 0;
    while i < args.len()
        invariant
            i <= args@.len(),
            all == views(args@),
            creating ==> operands@.len() < 2,
            spec_scan(all, command@, allowed, creating) == scan_from(
                all,
                i as int,
                command@,
                allowed,
                creating,
                ScanView { options: options@, seen, lines, operands: views(operands@) },
            ),
        decreases args.len() - i,
    {
        let arg = args[i].as_slice();
        assert(all[i as int] == arg@);
        if same_text(arg, "--") {
            let remaining = args.len() - i - 1;
            if !creating && (remaining > 1 || (operands.len() > 0 && remaining > 0)) {
                return Err(invalid_args());
            }
            copy_args(args, i + 1, &mut operands);
            if options.non_vt && options.reset == Reset::Move {
                return Err(bad_value("move".as_bytes(), "-R".as_bytes()));
            }
            return Ok(Scanned { options, seen, lines, operands });
        } else if arg.len() > 0 && arg[0] == 0x2d {
            let next = scan_option(
                args,
                i,
                command,
                allowed,
                creating,
                &mut options,
                &mut seen,
                &mut lines,
                Ghost(views(operands@)),
            )?;
            i = next;
        } else {
            let ghost before = operands@;
            operands.push(crate::bytes::to_vec(arg));
            assert(views(operands@) =~= views(before).push(arg@));
            if creating && operands.len() == 2 {
                copy_args(args, i + 1, &mut operands);
                if options.non_vt && options.reset == Reset::Move {
                    return Err(bad_value("move".as_bytes(), "-R".as_bytes()));
                }
                return Ok(Scanned { options, seen, lines, operands });
            }
            i = i + 1;
        }
    }
    if options.non_vt && options.reset == Reset::Move {
        return Err(bad_value("move".as_bytes(), "-R".as_bytes()));
    }
    Ok(Scanned { options, seen, lines, operands })
}

/// What the command line asks for, with byte strings as sequences.
pub enum ActionView {
    Help,
    Version,
    Create { mode: CreateMode, session: Seq<u8>, command: Seq<Seq<u8>>, options: OptionsView },
    Attach { session: Seq<u8>, options: OptionsView },
    Push(Seq<u8>),
    Kill { session: Seq<u8>, force: bool, quiet: bool },
    Remove { session: Option<Seq<u8>>, all: bool, quiet: bool },
    List { all: bool },
    Current,
    Tail { session: Seq<u8>, follow: bool, lines: u32 },
    Clear(Option<Seq<u8>>),
}

impl View for Action {
    type V = ActionView;

    open spec fn view(&self) -> ActionView {
        match self {
            Action::Help => ActionView::Help,
            Action::Version => ActionView::Version,
            Action::Create { mode, session, command, options } => ActionView::Create {
                mode: *mode,
                session: session@,
                command: views(command@),
                options: options@,
            },
            Action::Attach { session, options } => ActionView::Attach { session: session@, options: options@ },
            Action::Push(session) => ActionView::Push(session@),
            Action::Kill { session, force, quiet } => ActionView::Kill {
                session: session@,
                force: *force,
                quiet: *quiet,
            },
            Action::Remove { session, all, quiet } => ActionView::Remove {
                session: path_view(*session),
                all: *all,
                quiet: *quiet,
            },
            Action::List { all } => ActionView::List { all: *all },
            Action::Current => ActionView::Current,
            Action::Tail { session, follow, lines } => ActionView::Tail {
                session: session@,
                follow: *follow,
                lines: *lines,
            },
            Action::Clear(session) => ActionView::Clear(path_view(*session)),
        }
    }
}

/// A command that takes at most one operand, a session name (which
/// `required` demands).
pub open spec fn spec_fixed(args: Seq<Seq<u8>>, command: Seq<u8>, allowed: u16, required: bool) -> Result<
    (OptionsView, u16, u32, Option<Seq<u8>>),
    Seq<u8>,
> {
    match spec_scan(args, command, allowed, false) {
        Err(e) => Err(e),
        Ok(st) => if st.operands.len() > 1 || (required && st.operands.len() == 0) {
            Err(invalid_args_text())
        } else if st.operands.len() == 0 {
            Ok((st.options, st.seen, st.lines, None))
        } else if spec_valid_session(st.operands[0]) {
            Ok((st.options, st.seen, st.lines, Some(st.operands[0])))
        } else {
            Err(invalid_session_text(st.operands[0]))
        },
    }
}

/// A command that takes options alone: the bits of those given.
pub open spec fn spec_flags(args: Seq<Seq<u8>>, command: Seq<u8>, allowed: u16) -> Result<u16, Seq<u8>> {
    match spec_scan(args, command, allowed, false) {
        Err(e) => Err(e),
        Ok(st) => if st.operands.len() == 0 {
            Ok(st.seen)
        } else {
            Err(invalid_args_text())
        },
    }
}

/// Creating a session: a session name, then the child command.
pub open spec fn spec_create(args: Seq<Seq<u8>>, mode: CreateMode, command: Seq<u8>) -> Result<
    ActionView,
    Seq<u8>,
> {
    match spec_scan(args, command, CREATE, true) {
        Err(e) => Err(e),
        Ok(st) => if st.operands.len() == 0 {
            Err(invalid_args_text())
        } else if !spec_valid_session(st.operands[0]) {
            Err(invalid_session_text(st.operands[0]))
        } else {
            Ok(
                ActionView::Create {
                    mode,
                    session: st.operands[0],
                    command: st.operands.drop_first(),
                    options: st.options,
                },
            )
        },
    }
}

/// Removing: one session, or all with `-a`, never both or neither.
pub open spec fn spec_remove(args: Seq<Seq<u8>>) -> Result<ActionView, Seq<u8>> {
    match spec_fixed(args, text("rm"), (ALL | QUIET) as u16, false) {
        Err(e) => Err(e),
        Ok((options, seen, _, session)) => {
            let all = seen & ALL != 0;
            if all == session is Some {
                Err(invalid_args_text())
            } else {
                Ok(ActionView::Remove { session, all, quiet: options.quiet })
            }
        },
    }
}

pub open spec fn is_text(v: Seq<u8>, s: &str) -> bool {
    v == s.spec_bytes()
}

/// The command line: the program name, then a subcommand and its
/// arguments; with no subcommand, help; a first argument that is no
/// subcommand names a session to create, unless it starts with a dash.
pub open spec fn spec_parse(args: Seq<Seq<u8>>) -> Result<ActionView, Seq<u8>> {
    if args.len() == 1 {
        Ok(ActionView::Help)
    } else {
        let first = args[1];
        let rest = args.subrange(2, args.len() as int);
        if is_text(first, "new") || is_text(first, "n") {
            spec_create(rest, CreateMode::New, first)
        } else if is_text(first, "start") || is_text(first, "s") {
            spec_create(rest, CreateMode::Start, first)
        } else if is_text(first, "run") {
            spec_create(rest, CreateMode::Run, first)
        } else if (is_text(first, "--help") || is_text(first, "-h") || is_text(first, "?")) && args.len() == 2 {
            Ok(ActionView::Help)
        } else if is_text(first, "--version") && args.len() == 2 {
            Ok(ActionView::Version)
        } else if is_text(first, "--help") || is_text(first, "-h") || is_text(first, "?") || is_text(
            first,
            "--version",
        ) {
            Err(invalid_args_text())
        } else if is_text(first, "attach") || is_text(first, "a") {
            match spec_fixed(rest, text("attach"), VIEW, true) {
                Err(e) => Err(e),
                Ok((options, _, _, session)) => Ok(
                    ActionView::Attach { session: session->0, options },
                ),
            }
        } else if is_text(first, "push") || is_text(first, "p") {
            match spec_fixed(rest, text("push"), 0, true) {
                Err(e) => Err(e),
                Ok((_, _, _, session)) => Ok(ActionView::Push(session->0)),
            }
        } else if is_text(first, "list") || is_text(first, "l") || is_text(first, "ls") {
            match spec_flags(rest, text("list"), ALL) {
                Err(e) => Err(e),
                Ok(seen) => Ok(ActionView::List { all: seen & ALL != 0 }),
            }
        } else if is_text(first, "current") {
            match spec_flags(rest, text("current"), 0) {
                Err(e) => Err(e),
                Ok(_) => Ok(ActionView::Current),
            }
        } else if is_text(first, "clear") {
            match spec_fixed(rest, text("clear"), 0, false) {
                Err(e) => Err(e),
                Ok((_, _, _, session)) => Ok(ActionView::Clear(session)),
            }
        } else if is_text(first, "kill") || is_text(first, "k") {
            match spec_fixed(rest, text("kill"), (FORCE | QUIET) as u16, true) {
                Err(e) => Err(e),
                Ok((options, seen, _, session)) => Ok(
                    ActionView::Kill { session: session->0, force: seen & FORCE != 0, quiet: options.quiet },
                ),
            }
        } else if is_text(first, "rm") {
            spec_remove(rest)
        } else if is_text(first, "tail") {
            match spec_fixed(rest, text("tail"), (FORCE | NUMBER) as u16, true) {
                Err(e) => Err(e),
                Ok((_, seen, lines, session)) => Ok(
                    ActionView::Tail { session: session->0, follow: seen & FORCE != 0, lines },
                ),
            }
        } else if is_text(first, "--") {
            spec_create(args.subrange(1, args.len() as int), CreateMode::Bare, text("bare"))
        } else if first.len() > 0 && first[0] == 0x2d {
            Err(invalid_mode_text(first))
        } else {
            spec_create(args.subrange(1, args.len() as int), CreateMode::Bare, text("bare"))
        }
    }
}

fn fixed(args: &[Vec<u8>], command: &[u8], allowed: u16, required: bool) -> (r: Result<
    (Options, u16, u32, Option<Vec<u8>>),
    Error,
>)
    ensures
        match spec_fixed(views(args@), command@, allowed, required) {
            Ok(v) => r matches Ok(x) && x.0@ == v.0 && x.1 == v.1 && x.2 == v.2 && path_view(x.3) == v.3,
            Err(e) => r matches Err(x) && x.0@ == e,
        },
{
    let scanned = scan(args, command, allowed, false)?;
    let Scanned { options, seen, lines, operands } = scanned;
    if operands.len() > 1 || (required && operands.len() == 0) {
        return Err(invalid_args());
    }
    if operands.len() == 0 {
        return Ok((options, seen, lines, None));
    }
    let session = operands[0].as_slice();
    assert(views(operands@)[0] == session@);
    if !valid_session(session) {
        return Err(invalid_session(session));
    }
    Ok((options, seen, lines, Some(crate::bytes::to_vec(session))))
}

fn invalid_session(value: &[u8]) -> (r: Error)
    ensures
        r.0@ == invalid_session_text(value@),
{
    let mut out: Vec<u8> = Vec::new();
    push_text(&mut out, "Invalid session name '");
    push_rendered(&mut out, value);
    push_text(&mut out, "'");
    Error(out)
}

fn flags(args: &[Vec<u8>], command: &[u8], allowed: u16) -> (r: Result<u16, Error>)
    ensures
        match spec_flags(views(args@), command@, allowed) {
            Ok(v) => r == Ok::<u16, Error>(v),
            Err(e) => r matches Err(x) && x.0@ == e,
        },
{
    let scanned = scan(args, command, allowed, false)?;
    if scanned.operands.len() == 0 {
        Ok(scanned.seen)
    } else {
        Err(invalid_args())
    }
}

fn create(args: &[Vec<u8>], mode: CreateMode, command: &[u8]) -> (r: Result<Action, Error>)
    ensures
        match spec_create(views(args@), mode, command@) {
            Ok(v) => r matches Ok(x) && x@ == v,
            Err(e) => r matches Err(x) && x.0@ == e,
        },
{
    let scanned = scan(args, command, CREATE, true)?;
    let Scanned { options, seen, lines, operands } = scanned;
    if operands.len() == 0 {
        return Err(invalid_args());
    }
    let session = operands[0].as_slice();
    assert(views(operands@)[0] == session@);
    if !valid_session(session) {
        return Err(invalid_session(session));
    }
    let mut child: Vec<Vec<u8>> = Vec::new();
    copy_args(operands.as_slice(), 1, &mut child);
    proof {
        assert(views(child@) =~= views(operands@).drop_first());
    }
    Ok(Action::Create { mode, session: crate::bytes::to_vec(session), command: child, options })
}

fn remove(args: &[Vec<u8>]) -> (r: Result<Action, Error>)
    ensures
        match spec_remove(views(args@)) {
            Ok(v) => r matches Ok(x) && x@ == v,
            Err(e) => r matches Err(x) && x.0@ == e,
        },
{
    let (options, seen, _, session) = fixed(args, "rm".as_bytes(), ALL | QUIET, false)?;
    let all = seen & ALL != 0;
    if all == session.is_some() {
        return Err(invalid_args());
    }
    Ok(Action::Remove { session, all, quiet: options.quiet })
}

/// Reads the command line; `args` starts with the program name.
pub fn parse(args: &[Vec<u8>]) -> (r: Result<Action, Error>)
    requires
        args@.len() >= 1,
    ensures
        match spec_parse(views(args@)) {
            Ok(v) => r matches Ok(x) && x@ == v,
            Err(e) => r matches Err(x) && x.0@ == e,
        },
{
    if args.len() == 1 {
        return Ok(Action::Help);
    }
    let first = args[1].as_slice();
    let rest = &args[2..args.len()];
    let ghost all = views(args@);
    proof {
        assert(all[1] == first@);
        assert(views(rest@) =~= all.subrange(2, all.len() as int));
        assert(views(args@.subrange(1, args@.len() as int)) =~= all.subrange(1, all.len() as int));
    }
    if same_text(first, "new") || same_text(first, "n") {
        create(rest, CreateMode::New, first)
    } else if same_text(first, "start") || same_text(first, "s") {
        create(rest, CreateMode::Start, first)
    } else if same_text(first, "run") {
        create(rest, CreateMode::Run, first)
    } else if (same_text(first, "--help") || same_text(first, "-h") || same_text(first, "?")) && args.len() == 2 {
        Ok(Action::Help)
    } else if same_text(first, "--version") && args.len() == 2 {
        Ok(Action::Version)
    } else if same_text(first, "--help") || same_text(first, "-h") || same_text(first, "?") || same_text(
        first,
        "--version",
    ) {
        Err(invalid_args())
    } else if same_text(first, "attach") || same_text(first, "a") {
        let (options, _, _, session) = fixed(rest, "attach".as_bytes(), VIEW, true)?;
        match session {
            Some(session) => Ok(Action::Attach { session, options }),
            None => Err(invalid_args()),
        }
    } else if same_text(first, "push") || same_text(first, "p") {
        let (_, _, _, session) = fixed(rest, "push".as_bytes(), 0, true)?;
        match session {
            Some(session) => Ok(Action::Push(session)),
            None => Err(invalid_args()),
        }
    } else if same_text(first, "list") || same_text(first, "l") || same_text(first, "ls") {
        let seen = flags(rest, "list".as_bytes(), ALL)?;
        Ok(Action::List { all: seen & ALL != 0 })
    } else if same_text(first, "current") {
        let _ = flags(rest, "current".as_bytes(), 0)?;
        Ok(Action::Current)
    } else if same_text(first, "clear") {
        let (_, _, _, session) = fixed(rest, "clear".as_bytes(), 0, false)?;
        Ok(Action::Clear(session))
    } else if same_text(first, "kill") || same_text(first, "k") {
        let (options, seen, _, session) = fixed(rest, "kill".as_bytes(), FORCE | QUIET, true)?;
        match session {
            Some(session) => Ok(Action::Kill { session, force: seen & FORCE != 0, quiet: options.quiet }),
            None => Err(invalid_args()),
        }
    } else if same_text(first, "rm") {
        remove(rest)
    } else if same_text(first, "tail") {
        let (_, seen, lines, session) = fixed(rest, "tail".as_bytes(), FORCE | NUMBER, true)?;
        match session {
            Some(session) => Ok(Action::Tail { session, follow: seen & FORCE != 0, lines }),
            None => Err(invalid_args()),
        }
    } else if same_text(first, "--") {
        create(&args[1..args.len()], CreateMode::Bare, "bare".as_bytes())
    } else if first.len() > 0 && first[0] == 0x2d {
        Err(invalid_mode(first))
    } else {
        create(&args[1..args.len()], CreateMode::Bare, "bare".as_bytes())
    }
}

/// The usage text, under the program's name and version.
pub open spec fn help_text(p: Seq<u8>, v: Seq<u8>) -> Seq<u8> {
    p + text(" ") + v + text("\nUsage:\n  ") + p + text(" <session> [options] [command [argument...]]\n  ") + p
        + text(" new|start|run [options] <session> [options] [command [argument...]]\n  ") + p + text(
        " attach [options] <session>\n  ",
    ) + p + text(" push <session>\n  ") + p + text(" kill [-f] [-q] <session>\n  ") + p + text(
        " rm [-q] <session> | ",
    ) + p + text(" rm -a [-q]\n  ") + p + text(" list [-a]\n  ") + p + text(" current\n  ") + p + text(
        " tail [-f] [-n N] <session>\n  ",
    ) + p + help_tail()
}

pub open spec fn help_tail() -> Seq<u8> {
    text(" clear [<session>]\n\nAttach/create options:\n  -e <char>  detach byte (default ^\\)\n  -E         disable detach\n  -r <mode>  child redraw: none, ctrl_l, winch (default none)\n  -R <mode>  viewer reset: none, move (default none)\n  -z         pass ^Z to the child\n  -q         suppress informational messages\n  -t         viewer is not VT-compatible\n\nCreate-only options:\n  -C <size>  log cap (default 1m; 0 disables)\n  -2 <path>  redirect child standard error\n  -T <path>  event store directory\n  -S <path>  launch-time instrumentation object\n  -d <path>  child working directory\n")
}

pub fn help(program: &str, version: &str) -> (r: Vec<u8>)
    ensures
        r@ == help_text(program.spec_bytes(), version.spec_bytes()),
{
    let mut out: Vec<u8> = Vec::new();
    push_text(&mut out, program);
    push_text(&mut out, " ");
    push_text(&mut out, version);
    push_text(&mut out, "\nUsage:\n  ");
    push_text(&mut out, program);
    push_text(&mut out, " <session> [options] [command [argument...]]\n  ");
    push_text(&mut out, program);
    push_text(&mut out, " new|start|run [options] <session> [options] [command [argument...]]\n  ");
    push_text(&mut out, program);
    push_text(&mut out, " attach [options] <session>\n  ");
    push_text(&mut out, program);
    push_text(&mut out, " push <session>\n  ");
    push_text(&mut out, program);
    push_text(&mut out, " kill [-f] [-q] <session>\n  ");
    push_text(&mut out, program);
    push_text(&mut out, " rm [-q] <session> | ");
    push_text(&mut out, program);
    push_text(&mut out, " rm -a [-q]\n  ");
    push_text(&mut out, program);
    push_text(&mut out, " list [-a]\n  ");
    push_text(&mut out, program);
    push_text(&mut out, " current\n  ");
    push_text(&mut out, program);
    push_text(&mut out, " tail [-f] [-n N] <session>\n  ");
    push_text(&mut out, program);
    push_text(&mut out, " clear [<session>]\n\nAttach/create options:\n  -e <char>  detach byte (default ^\\)\n  -E         disable detach\n  -r <mode>  child redraw: none, ctrl_l, winch (default none)\n  -R <mode>  viewer reset: none, move (default none)\n  -z         pass ^Z to the child\n  -q         suppress informational messages\n  -t         viewer is not VT-compatible\n\nCreate-only options:\n  -C <size>  log cap (default 1m; 0 disables)\n  -2 <path>  redirect child standard error\n  -T <path>  event store directory\n  -S <path>  launch-time instrumentation object\n  -d <path>  child working directory\n");
    proof {
        assert(out@ =~= help_text(program.spec_bytes(), version.spec_bytes()));
    }
    out
}

} // verus!
