//! A storage lane's bookkeeping: the jobs it has taken, in order, within its
//! limits on jobs and bytes; what a log clear writes; and the commit it
//! publishes as its frontier. The worker that runs the jobs is the
//! runtime's.
use crate::storage::{Purpose, StorageError};
use crate::store::{Commit, StoreError};
use vstd::prelude::*;

verus! {

/// Work whose refusal cannot be reported to a requester: background output
/// and observations, the lifecycle record, the final records and a
/// mandatory batch of source changes. A lane too full for it closes.
pub open spec fn mandatory(purpose: Purpose) -> bool {
    match purpose {
        Purpose::Background | Purpose::Lifecycle | Purpose::Final => true,
        Purpose::Sources(_, m) => m,
        _ => false,
    }
}

/// Whether `purpose` is a log clear for controller `tag`.
pub open spec fn clear_for(purpose: Purpose, tag: u64) -> bool {
    match purpose {
        Purpose::Clear(t, _) => t == tag,
        _ => false,
    }
}

/// The bytes the jobs hold together.
pub open spec fn total(jobs: Seq<(Purpose, usize)>) -> int
    decreases jobs.len(),
{
    if jobs.len() == 0 {
        0
    } else {
        total(jobs.drop_last()) + jobs.last().1
    }
}

/// The jobs a lane has taken and not yet completed, oldest first, the
/// bytes they hold, its limits, and whether it failed.
pub struct LaneQueue {
    jobs_limit: usize,
    bytes_limit: usize,
    pending: Vec<(Purpose, usize)>,
    bytes: usize,
    failed: bool,
}

impl LaneQueue {
    /// Within the limits, and holding exactly the bytes of its jobs.
    pub closed spec fn wf(&self) -> bool {
        &&& self.bytes == total(self.pending@)
        &&& self.bytes <= self.bytes_limit
        &&& self.pending@.len() <= self.jobs_limit
    }

    pub closed spec fn spec_pending(&self) -> Seq<(Purpose, usize)> {
        self.pending@
    }

    pub closed spec fn spec_bytes(&self) -> int {
        self.bytes as int
    }

    pub closed spec fn spec_limits(&self) -> (usize, usize) {
        (self.jobs_limit, self.bytes_limit)
    }

    pub closed spec fn spec_failed(&self) -> bool {
        self.failed
    }

    /// Whether a job of `size` fits beside the jobs taken.
    pub open spec fn fits(&self, size: usize) -> bool {
        self.spec_bytes() + size <= self.spec_limits().1 && self.spec_pending().len() < self.spec_limits().0
    }

    /// An empty lane that holds at most `jobs` jobs of `bytes` bytes.
    pub fn new(jobs: usize, bytes: usize) -> (r: Self)
        ensures
            r.wf(),
            r.spec_pending().len() == 0,
            r.spec_limits() == (jobs, bytes),
            !r.spec_failed(),
    {
        LaneQueue { jobs_limit: jobs, bytes_limit: bytes, pending: Vec::new(), bytes: 0, failed: false }
    }

    pub fn writable(&self) -> (r: bool)
        ensures
            r == !self.spec_failed(),
    {
        !self.failed
    }

    pub fn pending(&self) -> (r: usize)
        ensures
            r == self.spec_pending().len(),
            self.wf() ==> r <= self.spec_limits().0,
    {
        self.pending.len()
    }

    /// Whether work of `purpose` and `size` may be handed to the worker: a
    /// failed lane is disabled; work that does not fit is busy, or, when it
    /// is mandatory, closes the lane and is disabled. Only closing changes
    /// the lane.
    pub fn admission(&mut self, purpose: Purpose, size: usize) -> (r: Result<(), StorageError>)
        requires
            old(self).wf(),
        ensures
            final(self).wf(),
            final(self).spec_pending() == old(self).spec_pending(),
            final(self).spec_bytes() == old(self).spec_bytes(),
            final(self).spec_limits() == old(self).spec_limits(),
            old(self).spec_failed() ==> r == Err::<(), StorageError>(StorageError::Disabled) && final(self).spec_failed(),
            !old(self).spec_failed() && old(self).fits(size) ==> r is Ok && !final(self).spec_failed(),
            !old(self).spec_failed() && !old(self).fits(size) ==> if mandatory(purpose) {
                r == Err::<(), StorageError>(StorageError::Disabled) && final(self).spec_failed()
            } else {
                r == Err::<(), StorageError>(StorageError::Busy) && !final(self).spec_failed()
            },
    {
        if self.failed {
            return Err(StorageError::Disabled);
        }
        let fits = size <= self.bytes_limit - self.bytes && self.pending.len() < self.jobs_limit;
        if fits {
            return Ok(());
        }
        let closes = match purpose {
            Purpose::Background | Purpose::Lifecycle | Purpose::Final => true,
            Purpose::Sources(_, m) => m,
            _ => false,
        };
        if closes {
            self.failed = true;
            Err(StorageError::Disabled)
        } else {
            Err(StorageError::Busy)
        }
    }

    /// Records a job the worker took, after those before it.
    pub fn taken(&mut self, purpose: Purpose, size: usize)
        requires
            old(self).wf(),
            old(self).fits(size),
        ensures
            final(self).wf(),
            final(self).spec_pending() == old(self).spec_pending().push((purpose, size)),
            final(self).spec_bytes() == old(self).spec_bytes() + size,
            final(self).spec_limits() == old(self).spec_limits(),
            final(self).spec_failed() == old(self).spec_failed(),
    {
        self.pending.push((purpose, size));
        self.bytes = self.bytes + size;
        assert(self.pending@.drop_last() =~= old(self).pending@);
    }

    /// Completes the oldest job and gives back its purpose.
    pub fn complete(&mut self) -> (r: Option<Purpose>)
        requires
            old(self).wf(),
        ensures
            final(self).wf(),
            final(self).spec_limits() == old(self).spec_limits(),
            final(self).spec_failed() == old(self).spec_failed(),
            old(self).spec_pending().len() == 0 ==> r is None && final(self).spec_pending() == old(self).spec_pending(),
            old(self).spec_pending().len() > 0 ==> r == Some(old(self).spec_pending()[0].0)
                && final(self).spec_pending() == old(self).spec_pending().drop_first()
                && final(self).spec_bytes() == old(self).spec_bytes() - old(self).spec_pending()[0].1,
    {
        if self.pending.len() == 0 {
            return None;
        }
        let (purpose, size) = self.pending.remove(0);
        proof {
            lemma_total_first(old(self).pending@);
            lemma_total_nonneg(old(self).pending@.drop_first());
        }
        self.bytes = self.bytes - size;
        Some(purpose)
    }

    /// Fails the lane: it takes no more work.
    pub fn fail(&mut self)
        requires
            old(self).wf(),
        ensures
            final(self).wf(),
            final(self).spec_failed(),
            final(self).spec_pending() == old(self).spec_pending(),
            final(self).spec_bytes() == old(self).spec_bytes(),
            final(self).spec_limits() == old(self).spec_limits(),
    {
        self.failed = true;
    }

    /// Whether a log clear for controller `tag` waits in the lane.
    pub fn clear_pending(&self, tag: u64) -> (r: bool)
        ensures
            r == exists|i: int| 0 <= i < self.spec_pending().len() && clear_for(#[trigger] self.spec_pending()[i].0, tag),
    {
        let mut i: usize = 0;
        while i < self.pending.len()
            invariant
                i <= self.pending@.len(),
                forall|k: int| 0 <= k < i ==> !clear_for(#[trigger] self.pending@[k].0, tag),
            decreases self.pending.len() - i,
        {
            match self.pending[i].0 {
                Purpose::Clear(t, _) => {
                    if t == tag {
                        assert(clear_for(self.spec_pending()[i as int].0, tag));
                        return true;
                    }
                },
                _ => {},
            }
            i = i + 1;
        }
        false
    }
}

pub proof fn lemma_total_nonneg(jobs: Seq<(Purpose, usize)>)
    ensures
        total(jobs) >= 0,
    decreases jobs.len(),
{
    if jobs.len() > 0 {
        lemma_total_nonneg(jobs.drop_last());
    }
}

/// The first job's bytes and the rest's make up the total.
pub proof fn lemma_total_first(jobs: Seq<(Purpose, usize)>)
    requires
        jobs.len() > 0,
    ensures
        total(jobs) == jobs[0].1 + total(jobs.drop_first()),
    decreases jobs.len(),
{
    if jobs.len() == 1 {
        assert(jobs.drop_last() =~= Seq::<(Purpose, usize)>::empty());
        assert(jobs.drop_first() =~= Seq::<(Purpose, usize)>::empty());
    } else {
        lemma_total_first(jobs.drop_last());
        assert(jobs.drop_last().drop_first() =~= jobs.drop_first().drop_last());
    }
}

/// Jobs complete in the order the lane took them: whatever was taken,
/// completing as many jobs as were pending before gives back exactly their
/// purposes, oldest first.
pub proof fn lemma_lane_first_in_first_out(pending: Seq<(Purpose, usize)>, job: (Purpose, usize))
    ensures
        pending.push(job)[0] == (if pending.len() == 0 {
            job
        } else {
            pending[0]
        }),
        pending.len() > 0 ==> pending.push(job).drop_first() == pending.drop_first().push(job),
{
    if pending.len() > 0 {
        assert(pending.push(job).drop_first() =~= pending.drop_first().push(job));
    }
}

/// What a log clear for the controller that observed commit `observed`
/// does to a log whose standing commit is `selected`: when the log changed
/// since, or is already empty, it reports the standing commit and whether
/// it changed; otherwise it writes an empty body under the next epoch at
/// the output end.
pub enum ClearStep {
    Report(Commit, bool),
    Replace(u32),
}

pub fn clear_step(selected: &Commit, observed: u64) -> (r: Result<ClearStep, StoreError>)
    ensures
        (selected.index != observed || selected.length == 0) ==> (r matches Ok(ClearStep::Report(c, changed))
            && c == *selected && changed == (selected.index != observed)),
        (selected.index == observed && selected.length != 0 && selected.epoch == u32::MAX) ==> r == Err::<
            ClearStep,
            StoreError,
        >(StoreError::Exhausted),
        (selected.index == observed && selected.length != 0 && selected.epoch < u32::MAX) ==> (r matches Ok(
            ClearStep::Replace(epoch),
        ) && epoch == selected.epoch + 1),
{
    if selected.index != observed || selected.length == 0 {
        return Ok(ClearStep::Report(*selected, selected.index != observed));
    }
    if selected.epoch == u32::MAX {
        return Err(StoreError::Exhausted);
    }
    Ok(ClearStep::Replace(selected.epoch + 1))
}

/// The frontier a lane publishes after a job: an unknown frontier stays
/// unknown, and a known one moves only to a commit with a higher index.
pub open spec fn spec_frontier(old: Option<Commit>, new: Option<Commit>) -> Option<Commit> {
    match (old, new) {
        (Some(o), Some(n)) => Some(if o.index < n.index { n } else { o }),
        _ => None,
    }
}

pub fn next_frontier(old: Option<Commit>, new: Option<Commit>) -> (r: Option<Commit>)
    ensures
        r == spec_frontier(old, new),
        old is None ==> r is None,
        old matches Some(o) ==> (r is None || r->0.index >= o.index),
{
    match (old, new) {
        (Some(o), Some(n)) => Some(if o.index < n.index { n } else { o }),
        _ => None,
    }
}

/// Publication never goes back: along any run of published commits, the
/// frontier's index only grows, until it becomes unknown for good.
pub proof fn lemma_frontier_monotonic(a: Option<Commit>, b: Option<Commit>, c: Option<Commit>)
    ensures
        spec_frontier(a, b) matches Some(x) ==> a matches Some(y) && x.index >= y.index,
        spec_frontier(spec_frontier(a, b), c) matches Some(x) ==> (a matches Some(y) && x.index >= y.index),
        a is None ==> spec_frontier(spec_frontier(a, b), c) is None,
{
}

/// The stages of a store operation the worker reports as it goes: the body
/// written, the commit record written, the commit made durable.
#[derive(Clone, Copy, Debug, PartialEq, Eq, Structural)]
pub enum StoreStep {
    Body,
    Commit,
    Flush,
}

/// The worker's phase while it writes: idle, writing a body, its commit
/// record written but not durable, or committing.
#[derive(Clone, Copy, Debug, PartialEq, Eq, Structural)]
pub enum WritePhase {
    Idle,
    Body,
    Dirty,
    Committing,
}

/// How the phase moves on a step: a step the phase already reflects leaves
/// it; a commit record after a body makes it dirty, a flush of a dirty
/// record commits; any other step is out of order (`None`).
pub open spec fn spec_phase_step(step: StoreStep, phase: WritePhase) -> Option<WritePhase> {
    match (step, phase) {
        (StoreStep::Body, WritePhase::Body) => Some(WritePhase::Body),
        (StoreStep::Commit, WritePhase::Dirty) => Some(WritePhase::Dirty),
        (StoreStep::Commit, WritePhase::Body) => Some(WritePhase::Dirty),
        (StoreStep::Flush, WritePhase::Dirty) => Some(WritePhase::Committing),
        _ => None,
    }
}

pub fn phase_step(step: StoreStep, phase: WritePhase) -> (r: Option<WritePhase>)
    ensures
        r == spec_phase_step(step, phase),
{
    match (step, phase) {
        (StoreStep::Body, WritePhase::Body) => Some(WritePhase::Body),
        (StoreStep::Commit, WritePhase::Dirty) => Some(WritePhase::Dirty),
        (StoreStep::Commit, WritePhase::Body) => Some(WritePhase::Dirty),
        (StoreStep::Flush, WritePhase::Dirty) => Some(WritePhase::Committing),
        _ => None,
    }
}

/// What the worker publishes after a job, from the job's outcome and the
/// phase it stopped in: a success publishes its commit; a failure while
/// committing must re-read the store to learn which record stands; one
/// with a record written but not committed publishes an unknown frontier;
/// any other failure left the standing commit as it was.
pub enum Published {
    Commit(Commit),
    Reread,
    Unknown,
    Standing,
}

pub fn published(outcome: Option<Commit>, phase: WritePhase) -> (r: Published)
    ensures
        outcome matches Some(c) ==> r == Published::Commit(c),
        outcome is None ==> r == match phase {
            WritePhase::Committing => Published::Reread,
            WritePhase::Dirty => Published::Unknown,
            _ => Published::Standing,
        },
{
    match outcome {
        Some(c) => Published::Commit(c),
        None => match phase {
            WritePhase::Committing => Published::Reread,
            WritePhase::Dirty => Published::Unknown,
            _ => Published::Standing,
        },
    }
}

/// A writer goes through its phases in order: from a body, no sequence of
/// steps reaches committing without passing through a written record.
pub proof fn lemma_phase_order(a: StoreStep, b: StoreStep)
    ensures
        spec_phase_step(a, WritePhase::Body) != Some(WritePhase::Committing),
        spec_phase_step(a, WritePhase::Body) matches Some(p) ==> (spec_phase_step(b, p) == Some(
            WritePhase::Committing,
        ) ==> p == WritePhase::Dirty),
        spec_phase_step(a, WritePhase::Idle) is None,
{
}

} // verus!
