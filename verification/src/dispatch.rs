//! What the holder does with each effect its policy machine asks for: the
//! frames it sends, the child operations it makes, what it submits to
//! storage, and what it hands back to the machine when a submission fails.
use crate::bytes::le64;
use crate::holder::{attach_state, gap_payload, output_layout, output_payload, terminal_state};
use crate::session::machine::{
    Completion, Effect, ReceiptProjection, Reply, SemanticChange, SemanticEvent, SemanticRefusal,
    Transition,
};
use crate::session::{ConnId, LeaseResult, Ticket};
use crate::terminal::Modes;
use crate::wire::{error_payload, query_layout, spec_error_payload, valid_query};
use vstd::prelude::*;
use vstd::string::StringSliceAdditionalSpecFns;

verus! {

/// One step the holder's runtime takes, in order; a frame that cannot be
/// sent ends the steps of its effect.
#[derive(Debug)]
pub enum HolderAction {
    /// Encode and send a reply to a connection.
    Reply(ConnId, Reply),
    /// Send one frame of a kind to a connection.
    Frame(ConnId, u8, Vec<u8>),
    /// Send one frame of a kind to every connection, or to controllers only.
    Broadcast(u8, Vec<u8>, bool),
    /// Drop a connection.
    Disconnect(ConnId),
    /// Resize the child's terminal.
    ResizeChild(u16, u16),
    /// Write bytes to the child's terminal under a ticket.
    Write(Ticket, Vec<u8>),
    /// Submit source changes to the event store, and whether they are a
    /// mandatory observation.
    SubmitSources(Ticket, Vec<SemanticChange>, bool),
    /// Submit a producer's event to the event store.
    SubmitSemantic(Ticket, Vec<u8>, u32, [u8; 16], SemanticEvent, Option<ReceiptProjection>),
    /// Append output to the output log, the log then ending at the offset.
    StoreOutput(Vec<u8>, u64),
    /// Send an attached connection its status, then the lease answer if
    /// there is one.
    AttachStatus(ConnId, Option<LeaseResult>),
    /// Put every controller in the session's current scope.
    Rescope,
    /// Stop the child, forcibly or not, and tell the machine what was done.
    Terminate(bool),
    /// Hand the machine the report of a termination for a connection.
    Report(ConnId),
    /// Wait, until a deadline, for a connection's output to drain.
    Flush(ConnId, u64),
}

/// A frame of `kind` carrying `payload` to `conn`.
pub open spec fn is_frame(a: HolderAction, conn: ConnId, kind: u8, payload: Seq<u8>) -> bool {
    a matches HolderAction::Frame(c, k, p) && c == conn && k == kind && p@ == payload
}

/// A frame of `kind` carrying `payload` to every connection, or to
/// controllers only.
pub open spec fn is_broadcast(a: HolderAction, kind: u8, payload: Seq<u8>, controllers: bool) -> bool {
    a matches HolderAction::Broadcast(k, p, only) && k == kind && p@ == payload && only == controllers
}

/// The state an attached connection starts from under `modes`.
pub open spec fn attach_preamble(modes: Modes, non_vt: bool) -> Seq<u8> {
    terminal_state(
        if modes.spec_inexact() {
            None
        } else {
            Some(modes.preamble_text())
        },
        non_vt,
    )
}

/// The steps for `effect` at `now`, with `deadline` the deadline of the
/// attach's status descriptor, `modes` the terminal's modes and `end` where
/// the output log ends: replies and child operations pass through; an
/// attach past its deadline drops the connection, and otherwise sends the
/// terminal state, resizes the child when asked and sends the status and
/// lease answer; output goes to its connection, or to the log and every
/// controller; no source changes submit nothing; an end of output
/// coordinates rescopes the controllers and tells every connection.
pub open spec fn applies(effect: Effect, now: u64, deadline: u64, modes: Modes, end: u64, r: Seq<HolderAction>) -> bool {
    match effect {
        Effect::Send(id, reply) => r == seq![HolderAction::Reply(id, reply)],
        Effect::Attached(id, non_vt, result, resize) => if now >= deadline {
            r == seq![HolderAction::Disconnect(id)]
        } else {
            &&& r.len() == (if resize is Some { 3int } else { 2int })
            &&& is_frame(r[0], id, 5, attach_preamble(modes, non_vt))
            &&& resize matches Some(g) ==> r[1] == HolderAction::ResizeChild(g.0, g.1)
            &&& r.last() == HolderAction::AttachStatus(id, result)
        },
        Effect::Resize(rows, columns) => r == seq![HolderAction::ResizeChild(rows, columns)],
        Effect::Write(ticket, bytes) => r == seq![HolderAction::Write(ticket, bytes)],
        Effect::CommitSources(ticket, changes, mandatory) => if changes@.len() == 0 {
            r.len() == 0
        } else {
            r == seq![HolderAction::SubmitSources(ticket, changes, mandatory)]
        },
        Effect::CommitSemantic(ticket, source, epoch, producer, event, receipt) => r == seq![
            HolderAction::SubmitSemantic(ticket, source, epoch, producer, event, receipt),
        ],
        Effect::QuerySend(id, query) => r.len() == 1 && is_frame(
            r[0],
            id,
            0x14,
            query_layout(query.correlation, query.epoch, query.class, query.bytes@),
        ),
        Effect::Output(target, record) => match target {
            Some(id) => r.len() == 1 && is_frame(r[0], id, 6, output_layout(record.sequence, record.offset, record.bytes@)),
            None => {
                &&& r.len() == 2
                &&& r[0] matches HolderAction::StoreOutput(b, e) && b@ == record.bytes@ && e == end
                &&& is_broadcast(r[1], 6, output_layout(record.sequence, record.offset, record.bytes@), true)
            },
        },
        Effect::Gap(id, lost) => r.len() == 1 && is_frame(r[0], id, 8, le64(1) + le64(lost)),
        Effect::OutputExhausted => {
            &&& r.len() == 2 && r[0] == HolderAction::Rescope
            &&& is_broadcast(r[1], 0x13, spec_error_payload(13, "output coordinates exhausted".spec_bytes()), false)
        },
        Effect::Terminate(force) => r == seq![HolderAction::Terminate(force)],
        Effect::ReportTermination(id) => r == seq![HolderAction::Report(id)],
        Effect::Flush(id, until) => r == seq![HolderAction::Flush(id, until)],
        Effect::Close(id) => r == seq![HolderAction::Disconnect(id)],
        Effect::Replaced(id) => r == seq![HolderAction::Disconnect(id)],
    }
}

/// Whether the runtime can carry out `effect`: a delegated query it sends
/// must be one the wire can carry.
pub open spec fn carried(effect: Effect) -> bool {
    effect matches Effect::QuerySend(_, q) ==> valid_query(q.correlation, q.epoch, q.class, q.bytes@.len())
}

/// A single step.
fn one(a: HolderAction) -> (r: Vec<HolderAction>)
    ensures
        r@ == seq![a],
{
    let mut r: Vec<HolderAction> = Vec::new();
    r.push(a);
    r
}

/// Two steps, in order.
fn two(a: HolderAction, b: HolderAction) -> (r: Vec<HolderAction>)
    ensures
        r@ == seq![a, b],
{
    let mut r: Vec<HolderAction> = Vec::new();
    r.push(a);
    r.push(b);
    r
}

/// The steps the holder takes for one effect of its policy machine.
pub fn apply_effect(effect: Effect, now: u64, deadline: u64, modes: &Modes, end: u64) -> (r: Vec<HolderAction>)
    requires
        carried(effect),
    ensures
        applies(effect, now, deadline, *modes, end, r@),
{
    match effect {
        Effect::Send(id, reply) => one(HolderAction::Reply(id, reply)),
        Effect::Attached(id, non_vt, result, resize) => {
            if now >= deadline {
                return one(HolderAction::Disconnect(id));
            }
            let mut steps: Vec<HolderAction> = Vec::new();
            steps.push(HolderAction::Frame(id, 5, attach_state(modes, non_vt)));
            if let Some((rows, columns)) = resize {
                steps.push(HolderAction::ResizeChild(rows, columns));
            }
            steps.push(HolderAction::AttachStatus(id, result));
            steps
        },
        Effect::Resize(rows, columns) => one(HolderAction::ResizeChild(rows, columns)),
        Effect::Write(ticket, bytes) => one(HolderAction::Write(ticket, bytes)),
        Effect::CommitSources(ticket, changes, mandatory) => {
            if changes.len() == 0 {
                Vec::new()
            } else {
                one(HolderAction::SubmitSources(ticket, changes, mandatory))
            }
        },
        Effect::CommitSemantic(ticket, source, epoch, producer, event, receipt) => one(HolderAction::SubmitSemantic(ticket, source, epoch, producer, event, receipt)),
        Effect::QuerySend(id, query) => {
            let payload = match query.encode() {
                Ok(p) => p,
                Err(_) => {
                    assert(false);
                    Vec::new()
                },
            };
            one(HolderAction::Frame(id, 0x14, payload))
        },
        Effect::Output(target, record) => {
            let payload = output_payload(&record);
            match target {
                Some(id) => one(HolderAction::Frame(id, 6, payload)),
                None => two(HolderAction::StoreOutput(record.bytes, end), HolderAction::Broadcast(6, payload, true)),
            }
        },
        Effect::Gap(id, lost) => one(HolderAction::Frame(id, 8, gap_payload(lost))),
        Effect::OutputExhausted => {
            let text = "output coordinates exhausted";
            let diagnostic = text.as_bytes_vec();
            two(HolderAction::Rescope, HolderAction::Broadcast(0x13, error_payload(13, diagnostic.as_slice()), false))
        },
        Effect::Terminate(force) => one(HolderAction::Terminate(force)),
        Effect::ReportTermination(id) => one(HolderAction::Report(id)),
        Effect::Flush(id, until) => one(HolderAction::Flush(id, until)),
        Effect::Close(id) => one(HolderAction::Disconnect(id)),
        Effect::Replaced(id) => one(HolderAction::Disconnect(id)),
    }
}

/// What the machine is told when source changes filed under `ticket` could
/// not be submitted: a mandatory observation cannot be refused, so its
/// failure is a storage failure that first stops semantic writes; a
/// rejectable request must disturb no other peer, so only its own
/// requester is resolved, as refused.
pub open spec fn spec_sources_unsubmitted(now: u64, ticket: Ticket, mandatory: bool) -> Seq<Transition> {
    let refused = Transition::Complete(now, ticket, Completion::Sources(false));
    if mandatory {
        seq![Transition::Writable(false), refused]
    } else {
        seq![refused]
    }
}

pub fn sources_unsubmitted(now: u64, ticket: Ticket, mandatory: bool) -> (r: Vec<Transition>)
    ensures
        r@ == spec_sources_unsubmitted(now, ticket, mandatory),
{
    let refused = Transition::Complete(now, ticket, Completion::Sources(false));
    let mut r: Vec<Transition> = Vec::new();
    if mandatory {
        r.push(Transition::Writable(false));
    }
    r.push(refused);
    r
}

/// What the machine is told when a producer's event filed under `ticket`
/// could not be submitted: refused as an invalid payload when no stored
/// event could be built from it, and for want of resources when the store
/// refused it.
pub open spec fn spec_semantic_unsubmitted(now: u64, ticket: Ticket, built: bool) -> Transition {
    Transition::Complete(
        now,
        ticket,
        Completion::Semantic(
            Err(
                if built {
                    SemanticRefusal::ResourceExhausted
                } else {
                    SemanticRefusal::InvalidPayload
                },
            ),
        ),
    )
}

pub fn semantic_unsubmitted(now: u64, ticket: Ticket, built: bool) -> (r: Transition)
    ensures
        r == spec_semantic_unsubmitted(now, ticket, built),
{
    let error = if built {
        SemanticRefusal::ResourceExhausted
    } else {
        SemanticRefusal::InvalidPayload
    };
    Transition::Complete(now, ticket, Completion::Semantic(Err(error)))
}

/// Whether the storage lanes could be held still for a status
/// descriptor: held, busy for now, or failed.
#[derive(Clone, Copy, Debug, PartialEq, Eq, Structural)]
pub enum SnapshotKind {
    Ready,
    Busy,
    Failed,
}

/// What the holder does with the status or attach descriptor at the front
/// of its queue: forgets it when its connection is gone; refuses it when
/// its deadline passed; leaves it and everything behind it queued, in
/// order, while the storage lanes are busy; refuses it for want of
/// resources when they failed; and otherwise serves it with the lanes
/// held. Every step but waiting takes it off the queue.
#[derive(Clone, Copy, Debug, PartialEq, Eq, Structural)]
pub enum DescriptorStep {
    Forget,
    Expired,
    Wait,
    Exhausted,
    Serve,
}

pub open spec fn spec_descriptor_step(live: bool, deadline: u64, now: u64, snapshot: SnapshotKind) -> DescriptorStep {
    if !live {
        DescriptorStep::Forget
    } else if now >= deadline {
        DescriptorStep::Expired
    } else {
        match snapshot {
            SnapshotKind::Busy => DescriptorStep::Wait,
            SnapshotKind::Failed => DescriptorStep::Exhausted,
            SnapshotKind::Ready => DescriptorStep::Serve,
        }
    }
}

pub fn descriptor_step(live: bool, deadline: u64, now: u64, snapshot: SnapshotKind) -> (r: DescriptorStep)
    ensures
        r == spec_descriptor_step(live, deadline, now, snapshot),
{
    if !live {
        DescriptorStep::Forget
    } else if now >= deadline {
        DescriptorStep::Expired
    } else {
        match snapshot {
            SnapshotKind::Busy => DescriptorStep::Wait,
            SnapshotKind::Failed => DescriptorStep::Exhausted,
            SnapshotKind::Ready => DescriptorStep::Serve,
        }
    }
}

/// The queue of descriptors after the step taken for its front: waiting
/// leaves it as it was, any other step takes the front off.
pub open spec fn after_step<T>(queue: Seq<T>, step: DescriptorStep) -> Seq<T> {
    if step == DescriptorStep::Wait || queue.len() == 0 {
        queue
    } else {
        queue.drop_first()
    }
}

/// Descriptors are served in the order they were queued: whatever steps
/// are taken, what stays queued is what was queued after the descriptors
/// taken off, in the same order.
pub proof fn lemma_descriptors_keep_order<T>(queue: Seq<T>, steps: Seq<DescriptorStep>)
    ensures
        exists|k: int| 0 <= k <= queue.len() && steps_after(queue, steps) == queue.skip(k),
    decreases steps.len(),
{
    if steps.len() == 0 {
        assert(queue.skip(0) =~= queue);
    } else {
        lemma_descriptors_keep_order(after_step(queue, steps[0]), steps.drop_first());
        let next = after_step(queue, steps[0]);
        let k = choose|k: int| 0 <= k <= next.len() && steps_after(next, steps.drop_first()) == next.skip(k);
        if steps[0] == DescriptorStep::Wait || queue.len() == 0 {
            assert(steps_after(queue, steps) == queue.skip(k));
        } else {
            assert(next.skip(k) =~= queue.skip(k + 1));
            assert(steps_after(queue, steps) == queue.skip(k + 1));
        }
    }
}

/// The queue after each of `steps` in turn.
pub open spec fn steps_after<T>(queue: Seq<T>, steps: Seq<DescriptorStep>) -> Seq<T>
    decreases steps.len(),
{
    if steps.len() == 0 {
        queue
    } else {
        steps_after(after_step(queue, steps[0]), steps.drop_first())
    }
}

} // verus!
