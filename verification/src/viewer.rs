//! An attached viewer's side of the conversation: what it writes to its
//! terminal and sends to the holder for each decoded message and each
//! command from its keyboard thread, and how its lease and phase move.
//! The runtime performs the writes and sends, in order.
use crate::bytes::{le16, le32, le64, nonzero};
use crate::cli::{Redraw, Reset};
use crate::client::{ClientError, InputLease};
use crate::session::{LeaseResult, LeaseRole, ResultOutcome};
use crate::wire::viewer::ViewerEvent;
use crate::wire::{input_payload, lease_token_payload, resize_payload, spec_lease_token_payload, InputReceipt};
use vstd::prelude::*;

verus! {

/// Where the viewer stands: waiting for its lease, attached, or attaching
/// again after a reconnection.
#[derive(Clone, Copy, Debug, PartialEq, Eq, Structural)]
pub enum ViewerPhase {
    Starting,
    Attached,
    Reattaching,
}

/// What the viewer does: write to its terminal, send a frame of a kind to
/// the holder, start its keyboard thread, or report whether its lease was
/// released.
#[derive(Debug)]
pub enum ViewerOut {
    Write(Vec<u8>),
    Send(u8, Vec<u8>),
    Start,
    Released(bool),
}

pub enum OutView {
    Write(Seq<u8>),
    Send(u8, Seq<u8>),
    Start,
    Released(bool),
}

impl View for ViewerOut {
    type V = OutView;

    open spec fn view(&self) -> OutView {
        match self {
            ViewerOut::Write(b) => OutView::Write(b@),
            ViewerOut::Send(k, b) => OutView::Send(*k, b@),
            ViewerOut::Start => OutView::Start,
            ViewerOut::Released(ok) => OutView::Released(*ok),
        }
    }
}

pub open spec fn out_views(s: Seq<ViewerOut>) -> Seq<OutView> {
    s.map_values(|o: ViewerOut| o@)
}

/// Why the viewer stops: its lease is gone, a lease result came that it
/// did not ask for, its release failed, its lease refused the input or
/// receipt, or a frame could not be encoded.
#[derive(Clone, Copy, Debug, PartialEq, Eq, Structural)]
pub enum ViewerFailure {
    LeaseLost,
    UnexpectedLeaseResult,
    ReleaseFailed,
    Client(ClientError),
    Malformed,
}

/// A lease as values.
pub struct LeaseV {
    pub epoch: u32,
    pub token: Seq<u8>,
    pub next: Option<u64>,
    pub pending: Seq<u8>,
}

pub open spec fn lease_v(l: InputLease) -> LeaseV {
    LeaseV { epoch: l.epoch, token: l.token@, next: l.next, pending: l.pending@ }
}

/// The viewer's state.
pub struct ViewerState {
    pub phase: ViewerPhase,
    pub lease: Option<InputLease>,
    pub releasing: bool,
    pub size: Option<(u16, u16)>,
    pub redraw: Redraw,
    pub reset: Reset,
    pub generation: u32,
    pub incarnation: [u8; 16],
}

/// The frame that asks for the lease's release (0x17) or keeps it (0x18).
pub open spec fn control_out(l: LeaseV, kind: u8) -> Result<Seq<OutView>, ViewerFailure> {
    if l.epoch != 0 && nonzero(l.token) {
        Ok(seq![OutView::Send(kind, spec_lease_token_payload(l.epoch, l.token))])
    } else {
        Err(ViewerFailure::Malformed)
    }
}

/// What moving the lease on sends, with the lease `l` after any input was
/// staged: with a release asked and nothing pending, the release; with
/// input pending, the input request (none once request ids ran out).
pub open spec fn advance_out(l: LeaseV, releasing: bool) -> Result<Seq<OutView>, ViewerFailure> {
    if releasing && l.pending.len() == 0 {
        control_out(l, 0x17)
    } else if l.pending.len() == 0 {
        Ok(Seq::empty())
    } else {
        match l.next {
            Some(n) => Ok(seq![OutView::Send(9, le32(l.epoch) + le64(n) + seq![0u8] + l.pending)]),
            None => Err(ViewerFailure::Client(ClientError::RequestsExhausted)),
        }
    }
}

/// The lease with `input` staged when there is any.
pub open spec fn staged(l: LeaseV, input: Seq<u8>) -> LeaseV {
    if input.len() > 0 {
        LeaseV { pending: input, ..l }
    } else {
        l
    }
}

/// What telling the holder of a new size sends.
pub open spec fn resize_out(epoch: Option<u32>, rows: u16, columns: u16) -> Seq<OutView> {
    match epoch {
        Some(e) => seq![OutView::Send(0x0b, le32(e) + le16(columns) + le16(rows))],
        None => Seq::empty(),
    }
}

pub open spec fn lease_epoch(lease: Option<InputLease>) -> Option<u32> {
    match lease {
        Some(l) => Some(l.epoch),
        None => None,
    }
}

/// The size a Winch redraw asks for is always known.
pub open spec fn sized(s: &ViewerState) -> bool {
    s.redraw == Redraw::Winch ==> s.size is Some
}

impl ViewerState {
    /// A viewer that is starting; it knows its size when it redraws by
    /// resizing.
    pub fn new(redraw: Redraw, reset: Reset, size: (u16, u16), generation: u32, incarnation: [u8; 16]) -> (r: Self)
        ensures
            r.phase == ViewerPhase::Starting && r.lease is None && !r.releasing,
            r.size == (if redraw == Redraw::Winch {
                Some(size)
            } else {
                None
            }),
            r.redraw == redraw && r.reset == reset && r.generation == generation && r.incarnation == incarnation,
            sized(&r),
    {
        let known = match redraw {
            Redraw::Winch => Some(size),
            _ => None,
        };
        ViewerState {
            phase: ViewerPhase::Starting,
            lease: None,
            releasing: false,
            size: known,
            redraw,
            reset,
            generation,
            incarnation,
        }
    }

    fn control(l: &InputLease, kind: u8, out: &mut Vec<ViewerOut>) -> (r: Result<(), ViewerFailure>)
        ensures
            match control_out(lease_v(*l), kind) {
                Ok(o) => r is Ok && out_views(final(out)@) == out_views(old(out)@) + o,
                Err(e) => r == Err::<(), ViewerFailure>(e),
            },
    {
        match lease_token_payload(l.epoch, l.token) {
            Ok(payload) => {
                let ghost before = out_views(out@);
                out.push(ViewerOut::Send(kind, payload));
                proof {
                    assert(out_views(out@) =~= before + control_out(lease_v(*l), kind)->Ok_0);
                }
                Ok(())
            },
            Err(_) => Err(ViewerFailure::Malformed),
        }
    }

    /// Stages `input`, if any, and moves the lease on.
    fn advance(&mut self, input: Vec<u8>, out: &mut Vec<ViewerOut>) -> (r: Result<(), ViewerFailure>)
        requires
            old(self).lease matches Some(l) ==> (input@.len() > 0 ==> l.pending@.len() == 0),
        ensures
            final(self).phase == old(self).phase && final(self).releasing == old(self).releasing,
            final(self).size == old(self).size && final(self).redraw == old(self).redraw,
            final(self).reset == old(self).reset,
            final(self).generation == old(self).generation && final(self).incarnation == old(self).incarnation,
            match old(self).lease {
                None => r == Err::<(), ViewerFailure>(ViewerFailure::LeaseLost),
                Some(l) => match advance_out(staged(lease_v(l), input@), old(self).releasing) {
                    Ok(o) => {
                        &&& r is Ok
                        &&& out_views(final(out)@) == out_views(old(out)@) + o
                        &&& final(self).lease matches Some(m) && lease_v(m) == staged(lease_v(l), input@) && m.role == l.role
                    },
                    Err(e) => r == Err::<(), ViewerFailure>(e),
                },
            },
    {
        let releasing = self.releasing;
        match self.lease.as_mut() {
            None => Err(ViewerFailure::LeaseLost),
            Some(lease) => {
                if input.len() > 0 {
                    lease.stage(input);
                }
                if releasing && !lease.pending() {
                    Self::control(lease, 0x17, out)
                } else {
                    match lease.request() {
                        Ok(None) => {
                            Ok(())
                        },
                        Ok(Some(payload)) => {
                            let ghost before = out_views(out@);
                            out.push(ViewerOut::Send(9, payload));
                            proof {
                                assert(out_views(out@) =~= before + seq![
                                    OutView::Send(9, le32(lease.epoch) + le64(lease.next->0) + seq![0u8] + lease.pending@),
                                ]);
                            }
                            Ok(())
                        },
                        Err(e) => Err(ViewerFailure::Client(e)),
                    }
                }
            },
        }
    }

    /// The terminal's new size: remembered, and told to the holder when the
    /// viewer holds its lease.
    pub fn resize(&mut self, rows: u16, columns: u16, out: &mut Vec<ViewerOut>)
        ensures
            final(self).size == Some((rows, columns)),
            out_views(final(out)@) == out_views(old(out)@) + resize_out(lease_epoch(old(self).lease), rows, columns),
            final(self).phase == old(self).phase && final(self).releasing == old(self).releasing,
            final(self).redraw == old(self).redraw && final(self).reset == old(self).reset,
            final(self).generation == old(self).generation && final(self).incarnation == old(self).incarnation,
            match (final(self).lease, old(self).lease) {
                (Some(a), Some(b)) => lease_v(a) == lease_v(b) && a.role == b.role,
                (None, None) => true,
                _ => false,
            },
    {
        self.size = Some((rows, columns));
        match &self.lease {
            Some(lease) => {
                let payload = resize_payload(lease.epoch, rows, columns);
                let ghost before = out_views(out@);
                out.push(ViewerOut::Send(0x0b, payload));
                proof {
                    assert(out_views(out@) =~= before + resize_out(lease_epoch(old(self).lease), rows, columns));
                }
            },
            None => {
                proof {
                    assert(out_views(out@) =~= out_views(old(out)@) + resize_out(lease_epoch(old(self).lease), rows, columns));
                }
            },
        }
    }

    /// Keyboard input the holder should get: staged on the lease and sent.
    /// The keyboard thread waits while earlier input is pending.
    pub fn input(&mut self, ordinary: Vec<u8>, out: &mut Vec<ViewerOut>) -> (r: Result<(), ViewerFailure>)
        requires
            old(self).lease matches Some(l) ==> (ordinary@.len() > 0 ==> l.pending@.len() == 0),
        ensures
            match old(self).lease {
                None => r == Err::<(), ViewerFailure>(ViewerFailure::LeaseLost),
                Some(l) => match advance_out(staged(lease_v(l), ordinary@), old(self).releasing) {
                    Ok(o) => r is Ok && out_views(final(out)@) == out_views(old(out)@) + o,
                    Err(e) => r == Err::<(), ViewerFailure>(e),
                },
            },
    {
        self.advance(ordinary, out)
    }

    /// The keyboard thread's periodic keepalive of a held lease.
    pub fn keepalive(&self, out: &mut Vec<ViewerOut>) -> (r: Result<(), ViewerFailure>)
        ensures
            match self.lease {
                None => r is Ok && final(out)@ == old(out)@,
                Some(l) => match control_out(lease_v(l), 0x18) {
                    Ok(o) => r is Ok && out_views(final(out)@) == out_views(old(out)@) + o,
                    Err(e) => r == Err::<(), ViewerFailure>(e),
                },
            },
    {
        match &self.lease {
            None => Ok(()),
            Some(lease) => Self::control(lease, 0x18, out),
        }
    }

    /// The keyboard thread asks to detach, with its last input: without a
    /// lease the viewer is done at once (`true`); otherwise it asks for the
    /// release once that input is delivered.
    pub fn release(&mut self, ordinary: Vec<u8>, out: &mut Vec<ViewerOut>) -> (r: Result<bool, ViewerFailure>)
        requires
            old(self).lease matches Some(l) ==> (ordinary@.len() > 0 ==> l.pending@.len() == 0),
        ensures
            old(self).lease is None ==> r == Ok::<bool, ViewerFailure>(true) && final(out)@ == old(out)@,
            old(self).lease matches Some(l) ==> final(self).releasing && match advance_out(
                staged(lease_v(l), ordinary@),
                true,
            ) {
                Ok(o) => r == Ok::<bool, ViewerFailure>(false) && out_views(final(out)@) == out_views(old(out)@) + o,
                Err(e) => r == Err::<bool, ViewerFailure>(e),
            },
    {
        if self.lease.is_none() {
            return Ok(true);
        }
        self.releasing = true;
        match self.advance(ordinary, out) {
            Ok(()) => Ok(false),
            Err(e) => Err(e),
        }
    }
}

pub open spec fn size_rows(size: Option<(u16, u16)>) -> u16 {
    match size {
        Some((rows, _)) => rows,
        None => 0,
    }
}

pub open spec fn size_columns(size: Option<(u16, u16)>) -> u16 {
    match size {
        Some((_, columns)) => columns,
        None => 0,
    }
}

/// A receipt's effect on the lease, as `InputLease::receipt` states it.
pub open spec fn receipt_lease(l: LeaseV, receipt: InputReceipt, generation: u32, incarnation: Seq<u8>) -> Result<
    LeaseV,
    ClientError,
> {
    if l.pending.len() == 0 {
        Err(ClientError::UnexpectedReceipt)
    } else {
        match l.next {
            None => Err(ClientError::RequestsExhausted),
            Some(n) => if receipt.epoch == l.epoch && receipt.request == n && receipt.generation == generation
                && receipt.incarnation@ == incarnation && receipt.written == l.pending.len() && receipt.status
                == 0 && receipt.result == 0 {
                Ok(
                    LeaseV {
                        pending: Seq::empty(),
                        next: if n < u64::MAX {
                            Some((n + 1) as u64)
                        } else {
                            None
                        },
                        ..l
                    },
                )
            } else {
                Err(ClientError::NotDelivered)
            },
        }
    }
}

/// The lease a grant or resume for the viewer starts.
pub open spec fn granted_lease(result: LeaseResult) -> LeaseV {
    LeaseV { epoch: result.epoch, token: result.token@, next: Some(1), pending: Seq::empty() }
}

/// What completing a reattachment does, when terminal state (`kind` 4)
/// arrives while reattaching: a resize when the viewer redraws by
/// resizing, then its pending input again.
pub open spec fn first_spec(s: ViewerState, kind: u8) -> Result<Seq<OutView>, ViewerFailure> {
    if kind == 4 && s.phase == ViewerPhase::Reattaching {
        let resized = if s.redraw == Redraw::Winch {
            resize_out(lease_epoch(s.lease), size_rows(s.size), size_columns(s.size))
        } else {
            Seq::empty()
        };
        match s.lease {
            None => Err(ViewerFailure::LeaseLost),
            Some(l) => match advance_out(lease_v(l), s.releasing) {
                Ok(o) => Ok(resized + o),
                Err(e) => Err(e),
            },
        }
    } else {
        Ok(Seq::empty())
    }
}

/// What a lease result does: the first one, while starting, starts the
/// keyboard thread and, when it grants the viewer lease, asks the child to
/// redraw (^L as input, or a resize); a later one must answer the release
/// the viewer asked for, which ends it.
pub open spec fn lease_spec(
    starting: bool,
    releasing: bool,
    redraw: Redraw,
    size: Option<(u16, u16)>,
    result: LeaseResult,
) -> Result<(Seq<OutView>, bool), ViewerFailure> {
    if starting {
        if result.role != LeaseRole::Viewer {
            Err(ViewerFailure::Client(ClientError::UnexpectedRole))
        } else if result.outcome == ResultOutcome::Granted || result.outcome == ResultOutcome::Resumed {
            let l = granted_lease(result);
            if redraw == Redraw::CtrlL {
                match advance_out(staged(l, seq![0x0cu8]), releasing) {
                    Ok(o) => Ok((seq![OutView::Start] + o, false)),
                    Err(e) => Err(e),
                }
            } else if redraw == Redraw::Winch {
                Ok((seq![OutView::Start] + resize_out(Some(l.epoch), size_rows(size), size_columns(size)), false))
            } else {
                Ok((seq![OutView::Start], false))
            }
        } else {
            Ok((seq![OutView::Start], false))
        }
    } else if !releasing {
        Err(ViewerFailure::UnexpectedLeaseResult)
    } else if result.outcome == ResultOutcome::Released && result.role == LeaseRole::Viewer {
        Ok((seq![OutView::Released(true)], true))
    } else {
        Err(ViewerFailure::ReleaseFailed)
    }
}

/// What a viewer does on a decoded message of `kind` (the event it decoded
/// to, if any), in state `s`: the frames and writes, and whether it is
/// done. After a completed reattachment (`first_spec`): terminal state is
/// written, followed by a cursor home when the viewer resets by moving;
/// output is written when it applies, and acknowledged; a receipt completes
/// the lease's input and moves the lease on; a lease result acts as
/// `lease_spec` says.
pub open spec fn accept_spec(s: ViewerState, kind: u8, event: Option<ViewerEvent>) -> Result<
    (Seq<OutView>, bool),
    ViewerFailure,
> {
    let phase = if kind == 4 && s.phase == ViewerPhase::Reattaching {
        ViewerPhase::Attached
    } else {
        s.phase
    };
    match first_spec(s, kind) {
        Err(e) => Err(e),
        Ok(o1) => match event {
            None => Ok((o1, false)),
            Some(ViewerEvent::Terminal(bytes)) => Ok(
                (
                    o1 + seq![OutView::Write(bytes@)] + if s.reset == Reset::Move {
                        seq![OutView::Write(seq![0x1bu8, 0x5bu8, 0x48u8])]
                    } else {
                        Seq::empty()
                    },
                    false,
                ),
            ),
            Some(ViewerEvent::Output(sequence, apply, bytes)) => Ok(
                (
                    o1 + (if apply {
                        seq![OutView::Write(bytes@)]
                    } else {
                        Seq::empty()
                    }) + seq![OutView::Send(7, le64(sequence))],
                    false,
                ),
            ),
            Some(ViewerEvent::Receipt(receipt)) => match s.lease {
                None => Err(ViewerFailure::LeaseLost),
                Some(l) => match receipt_lease(lease_v(l), receipt, s.generation, s.incarnation@) {
                    Err(e) => Err(ViewerFailure::Client(e)),
                    Ok(m) => match advance_out(m, s.releasing) {
                        Ok(o) => Ok((o1 + o, false)),
                        Err(e) => Err(e),
                    },
                },
            },
            Some(ViewerEvent::Lease(result)) => match lease_spec(
                phase == ViewerPhase::Starting,
                s.releasing,
                s.redraw,
                s.size,
                result,
            ) {
                Ok((o, done)) => Ok((o1 + o, done)),
                Err(e) => Err(e),
            },
        },
    }
}

impl ViewerState {
    fn reattach(&mut self, kind: u8, out: &mut Vec<ViewerOut>) -> (r: Result<(), ViewerFailure>)
        requires
            sized(old(self)),
        ensures
            match first_spec(*old(self), kind) {
                Ok(o) => r is Ok && out_views(final(out)@) == out_views(old(out)@) + o,
                Err(e) => r == Err::<(), ViewerFailure>(e),
            },
            r is Ok ==> {
                &&& final(self).phase == (if kind == 4 && old(self).phase == ViewerPhase::Reattaching {
                    ViewerPhase::Attached
                } else {
                    old(self).phase
                })
                &&& final(self).releasing == old(self).releasing && final(self).size == old(self).size
                &&& final(self).redraw == old(self).redraw && final(self).reset == old(self).reset
                &&& final(self).generation == old(self).generation
                &&& final(self).incarnation == old(self).incarnation
                &&& match (final(self).lease, old(self).lease) {
                    (Some(a), Some(b)) => lease_v(a) == lease_v(b) && a.role == b.role,
                    (None, None) => true,
                    _ => false,
                }
            },
            sized(final(self)),
    {
        if kind == 4 && self.phase == ViewerPhase::Reattaching {
            self.phase = ViewerPhase::Attached;
            let ghost o0 = out_views(out@);
            match self.redraw {
                Redraw::Winch => {
                    let (rows, columns) = match self.size {
                        Some(v) => v,
                        None => (0, 0),
                    };
                    self.resize(rows, columns, out);
                },
                _ => {},
            }
            let ghost o1 = out_views(out@);
            self.advance(Vec::new(), out)?;
            Ok(())
        } else {
            Ok(())
        }
    }

    fn lease_result(&mut self, result: LeaseResult, out: &mut Vec<ViewerOut>) -> (r: Result<bool, ViewerFailure>)
        requires
            sized(old(self)),
        ensures
            match lease_spec(
                old(self).phase == ViewerPhase::Starting,
                old(self).releasing,
                old(self).redraw,
                old(self).size,
                result,
            ) {
                Ok((o, done)) => r == Ok::<bool, ViewerFailure>(done) && out_views(final(out)@) == out_views(
                    old(out)@,
                ) + o,
                Err(e) => r == Err::<bool, ViewerFailure>(e),
            },
            r == Ok::<bool, ViewerFailure>(true) ==> final(self).lease is None && !final(self).releasing,
            sized(final(self)),
    {
        let starting = self.phase == ViewerPhase::Starting;
        self.phase = ViewerPhase::Attached;
        if starting {
            let lease = match InputLease::from_result(result, LeaseRole::Viewer) {
                Ok(l) => l,
                Err(e) => {
                    return Err(ViewerFailure::Client(e));
                },
            };
            let granted = lease.is_some();
            self.lease = lease;
            let ghost mid = out_views(out@);
            out.push(ViewerOut::Start);
            proof {
                assert(out_views(out@) =~= mid.push(OutView::Start));
            }
            if granted {
                proof {
                    assert(self.lease->0.pending@ =~= Seq::<u8>::empty());
                    assert(lease_v(self.lease->0) == granted_lease(result));
                }
                match self.redraw {
                    Redraw::CtrlL => {
                        let redraw: Vec<u8> = vec![0x0c];
                        assert(redraw@ =~= seq![0x0cu8]);
                        self.advance(redraw, out)?;
                    },
                    Redraw::Winch => {
                        let (rows, columns) = match self.size {
                            Some(v) => v,
                            None => (0, 0),
                        };
                        self.resize(rows, columns, out);
                    },
                    Redraw::NoRedraw => {},
                }
            }
            Ok(false)
        } else {
            if !self.releasing {
                return Err(ViewerFailure::UnexpectedLeaseResult);
            }
            self.releasing = false;
            if result.outcome == ResultOutcome::Released && result.role == LeaseRole::Viewer {
                self.lease = None;
                let ghost mid = out_views(out@);
                out.push(ViewerOut::Released(true));
                proof {
                    assert(out_views(out@) =~= mid.push(OutView::Released(true)));
                }
                Ok(true)
            } else {
                Err(ViewerFailure::ReleaseFailed)
            }
        }
    }
}

impl ViewerState {
    /// Acts on a decoded message; see `accept_spec`. The holder sends input
    /// receipts only for the input it was sent, and the viewer stages input
    /// only when none is pending.
    pub fn accept(&mut self, kind: u8, event: Option<ViewerEvent>, out: &mut Vec<ViewerOut>) -> (r: Result<
        bool,
        ViewerFailure,
    >)
        requires
            sized(old(self)),
        ensures
            match accept_spec(*old(self), kind, event) {
                Ok((o, done)) => r == Ok::<bool, ViewerFailure>(done) && out_views(final(out)@) == out_views(
                    old(out)@,
                ) + o,
                Err(e) => r == Err::<bool, ViewerFailure>(e),
            },
            r == Ok::<bool, ViewerFailure>(true) ==> final(self).lease is None && !final(self).releasing,
            sized(final(self)),
    {
        let ghost s0 = *old(self);
        let ghost o0 = out_views(out@);
        self.reattach(kind, out)?;
        let ghost o1 = out_views(out@).skip(o0.len() as int);
        proof {
            assert(out_views(out@) =~= o0 + o1);
        }
        match event {
            None => Ok(false),
            Some(ViewerEvent::Terminal(bytes)) => {
                let ghost mid = out_views(out@);
                out.push(ViewerOut::Write(crate::bytes::to_vec(bytes)));
                proof {
                    assert(out_views(out@) =~= mid.push(OutView::Write(bytes@)));
                }
                match self.reset {
                    Reset::Move => {
                        let ghost mid2 = out_views(out@);
                        let home: Vec<u8> = vec![0x1b, 0x5b, 0x48];
                        assert(home@ =~= seq![0x1bu8, 0x5bu8, 0x48u8]);
                        out.push(ViewerOut::Write(home));
                        proof {
                            assert(out_views(out@) =~= mid2.push(OutView::Write(seq![0x1bu8, 0x5bu8, 0x48u8])));
                        }
                    },
                    _ => {},
                }
                proof {
                    assert(out_views(out@) =~= o0 + accept_spec(s0, kind, event)->Ok_0.0);
                }
                Ok(false)
            },
            Some(ViewerEvent::Output(sequence, apply, bytes)) => {
                let ghost mid = out_views(out@);
                if apply {
                    out.push(ViewerOut::Write(crate::bytes::to_vec(bytes)));
                    proof {
                        assert(out_views(out@) =~= mid.push(OutView::Write(bytes@)));
                    }
                }
                let ghost mid2 = out_views(out@);
                let mut ack: Vec<u8> = Vec::new();
                crate::bytes::push_u64(&mut ack, sequence);
                assert(ack@ =~= le64(sequence));
                out.push(ViewerOut::Send(7, ack));
                proof {
                    assert(out_views(out@) =~= mid2.push(OutView::Send(7, le64(sequence))));
                }
                proof {
                    assert(out_views(out@) =~= o0 + accept_spec(s0, kind, event)->Ok_0.0);
                }
                Ok(false)
            },
            Some(ViewerEvent::Receipt(receipt)) => {
                let generation = self.generation;
                let incarnation = self.incarnation;
                match self.lease.as_mut() {
                    None => {
                        return Err(ViewerFailure::LeaseLost);
                    },
                    Some(lease) => {
                        match lease.receipt(&receipt, generation, incarnation) {
                            Ok(()) => {},
                            Err(e) => {
                                return Err(ViewerFailure::Client(e));
                            },
                        }
                    },
                }
                self.advance(Vec::new(), out)?;
                proof {
                    assert(out_views(out@) =~= o0 + accept_spec(s0, kind, event)->Ok_0.0);
                }
                Ok(false)
            },
            Some(ViewerEvent::Lease(result)) => {
                let done = self.lease_result(result, out)?;
                proof {
                    assert(out_views(out@) =~= o0 + accept_spec(s0, kind, event)->Ok_0.0);
                }
                Ok(done)
            },
        }
    }
}

} // verus!
