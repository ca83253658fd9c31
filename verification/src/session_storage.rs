//! The holder's storage: its three lanes (output log, event log, lifecycle
//! record) and the event log's own state. Submitting work admits it to its
//! lane, which then holds it until the worker completes it; the work itself
//! is handed back for the worker that runs it.
use crate::events::{event_views, Event, EventView};
use crate::lane::{mandatory, LaneQueue};
use crate::storage::{health, observed_event, spec_health, spec_observed, EventLog, PlanView, Purpose, StorageError};
use crate::terminal::Observation;
use vstd::prelude::*;

verus! {

/// What a lane's worker is to do: append output to the log up to a cap,
/// ending at an offset; replace a store's body with what an epoch holds
/// from its first retained sequence to its next; or clear the log as
/// observed at an index, up to an offset.
#[derive(Debug)]
pub enum Work {
    Append(Vec<u8>, u64, u64),
    Replace(Vec<u8>, u32, u64, u64),
    Clear(u64, u64),
}

/// The bytes a job holds in its lane.
pub open spec fn work_size(w: Work) -> nat {
    match w {
        Work::Append(b, _, _) => b@.len(),
        Work::Replace(b, _, _, _) => b@.len(),
        Work::Clear(_, _) => 0,
    }
}

/// How a lane answers work of `purpose` and `size`: a failed lane is
/// disabled; work that fits is taken, after the jobs before it; work that
/// does not is busy, or, when it is mandatory, closes the lane and is
/// disabled.
pub open spec fn admits(old: LaneQueue, new: LaneQueue, purpose: Purpose, size: nat, r: Result<(), StorageError>) -> bool {
    &&& new.spec_limits() == old.spec_limits()
    &&& if old.spec_failed() {
        r == Err::<(), StorageError>(StorageError::Disabled) && new.spec_failed() && new.spec_pending() == old.spec_pending()
    } else if old.spec_bytes() + size <= old.spec_limits().1 && old.spec_pending().len() < old.spec_limits().0 {
        r is Ok && !new.spec_failed() && new.spec_pending() == old.spec_pending().push((purpose, size as usize))
    } else if mandatory(purpose) {
        r == Err::<(), StorageError>(StorageError::Disabled) && new.spec_failed() && new.spec_pending() == old.spec_pending()
    } else {
        r == Err::<(), StorageError>(StorageError::Busy) && !new.spec_failed() && new.spec_pending() == old.spec_pending()
    }
}

/// A lane's answer, when the lane is configured; a lane that is not is
/// disabled.
pub open spec fn lane_admits(old: Option<LaneQueue>, new: Option<LaneQueue>, purpose: Purpose, size: nat, r: Result<(), StorageError>) -> bool {
    match old {
        None => new is None && r == Err::<(), StorageError>(StorageError::Disabled),
        Some(q) => new matches Some(n) && admits(q, n, purpose, size, r),
    }
}

/// A replacement of a store's body for an epoch.
pub open spec fn replaces(w: Work, p: PlanView) -> bool {
    w matches Work::Replace(b, epoch, first, next) && b@ == p.body && epoch == p.epoch && first == p.first
        && next == p.next
}

/// The event log after it moved on to what a plan holds.
pub open spec fn moved_on(log: Option<EventLog>, p: PlanView) -> bool {
    log matches Some(n) && n.spec_stream() == p.stream && n.spec_records() == p.records
}

/// How filing transitions for the event log is answered, as `record` says.
pub open spec fn recorded(
    old: SessionStorage,
    new: SessionStorage,
    purpose: Purpose,
    transitions: Seq<EventView>,
    r: (Option<Work>, Result<(), StorageError>),
) -> bool {
    match old.spec_events() {
        None => r == (None::<Work>, Err::<(), StorageError>(StorageError::Disabled)) && new == old,
        Some(log) => match log.plan_spec(purpose, transitions) {
            Err(e) => r == (None::<Work>, Err::<(), StorageError>(e)) && new == old,
            Ok(p) => {
                let taken = r.0 is Some;
                &&& lane_admits(old.spec_event(), new.spec_event(), p.purpose, p.body.len(), if taken {
                    Ok(())
                } else {
                    r.1
                })
                &&& !taken ==> new.spec_events() == old.spec_events()
                &&& taken ==> replaces(r.0->0, p) && moved_on(new.spec_events(), p)
                    && (r.1 is Ok <==> p.accepted) && (!p.accepted ==> r.1 == Err::<(), StorageError>(
                    StorageError::Disabled))
            },
        },
    }
}

/// The session's storage.
pub struct SessionStorage {
    log: Option<LaneQueue>,
    event: Option<LaneQueue>,
    lifecycle: LaneQueue,
    log_cap: u64,
    events: Option<EventLog>,
}

/// Whether a lane holds no more than `jobs` jobs.
pub open spec fn lane_within(lane: Option<LaneQueue>, jobs: usize) -> bool {
    lane matches Some(q) ==> q.wf() && q.spec_limits().0 <= jobs
}

impl SessionStorage {
    /// Each lane within its limits, the event log's own state well formed.
    pub closed spec fn wf(&self) -> bool {
        &&& lane_within(self.log, 64)
        &&& lane_within(self.event, 64)
        &&& self.lifecycle.wf() && self.lifecycle.spec_limits().0 <= 1
        &&& self.events matches Some(e) ==> e.wf()
        &&& (self.events is Some) == (self.event is Some)
    }

    pub closed spec fn spec_log(&self) -> Option<LaneQueue> {
        self.log
    }

    pub closed spec fn spec_event(&self) -> Option<LaneQueue> {
        self.event
    }

    pub closed spec fn spec_lifecycle(&self) -> LaneQueue {
        self.lifecycle
    }

    pub closed spec fn spec_log_cap(&self) -> u64 {
        self.log_cap
    }

    pub closed spec fn spec_events(&self) -> Option<EventLog> {
        self.events
    }

    /// Storage with an output log capped at `log`'s bytes when there is one,
    /// an event log when there is one, and the lifecycle record; a lane
    /// holds at most `jobs` jobs (the lifecycle lane one) of at most `bytes`
    /// bytes (the output log's at most a mebibyte, the event log's half of
    /// one, the lifecycle record's four).
    pub fn new(log: Option<u64>, events: Option<EventLog>, jobs: usize, bytes: usize) -> (r: Self)
        requires
            events matches Some(e) ==> e.wf(),
        ensures
            r.wf(),
            r.spec_log_cap() == (match log {
                Some(cap) => cap,
                None => 0,
            }),
            r.spec_events() == events,
            (r.spec_log() is Some) == (log is Some) && (r.spec_event() is Some) == (events is Some),
            r.spec_log() matches Some(q) ==> q.spec_pending().len() == 0 && !q.spec_failed() && q.spec_limits() == (
                if jobs < 64 { jobs } else { 64usize },
                if bytes < 1048576 { bytes } else { 1048576usize },
            ),
            r.spec_event() matches Some(q) ==> q.spec_pending().len() == 0 && !q.spec_failed() && q.spec_limits() == (
                if jobs < 64 { jobs } else { 64usize },
                if bytes < 524288 { bytes } else { 524288usize },
            ),
            r.spec_lifecycle().spec_pending().len() == 0 && !r.spec_lifecycle().spec_failed()
                && r.spec_lifecycle().spec_limits() == (
                if jobs < 1 { jobs } else { 1usize },
                if bytes < 4194304 { bytes } else { 4194304usize },
            ),
    {
        let lane_jobs = if jobs < 64 { jobs } else { 64 };
        let log_cap = match log {
            Some(cap) => cap,
            None => 0,
        };
        let log_lane = match log {
            Some(_) => Some(LaneQueue::new(lane_jobs, if bytes < 1048576 { bytes } else { 1048576 })),
            None => None,
        };
        let event_lane = match &events {
            Some(_) => Some(LaneQueue::new(lane_jobs, if bytes < 524288 { bytes } else { 524288 })),
            None => None,
        };
        let lifecycle = LaneQueue::new(if jobs < 1 { jobs } else { 1 }, if bytes < 4194304 { bytes } else { 4194304 });
        SessionStorage { log: log_lane, event: event_lane, lifecycle, log_cap, events }
    }

    /// Admits `work` of `purpose` to a lane.
    fn enqueue(q: &mut LaneQueue, purpose: Purpose, work: Work) -> (r: Result<Work, StorageError>)
        requires
            old(q).wf(),
        ensures
            final(q).wf(),
            admits(*old(q), *final(q), purpose, work_size(work), match r {
                Ok(_) => Ok(()),
                Err(e) => Err(e),
            }),
            r matches Ok(w) ==> w == work,
    {
        let size = match &work {
            Work::Append(b, _, _) => b.len(),
            Work::Replace(b, _, _, _) => b.len(),
            Work::Clear(_, _) => 0,
        };
        match q.admission(purpose, size) {
            Ok(()) => {
                q.taken(purpose, size);
                Ok(work)
            },
            Err(e) => Err(e),
        }
    }

    /// Admits `work` of `purpose` to a lane, when it is configured.
    fn submit(lane: &mut Option<LaneQueue>, purpose: Purpose, work: Work) -> (r: Result<Work, StorageError>)
        requires
            lane_within(*old(lane), 64),
        ensures
            lane_within(*final(lane), 64),
            lane_admits(*old(lane), *final(lane), purpose, work_size(work), match r {
                Ok(_) => Ok(()),
                Err(e) => Err(e),
            }),
            r matches Ok(w) ==> w == work,
    {
        match lane {
            None => Err(StorageError::Disabled),
            Some(q) => Self::enqueue(q, purpose, work),
        }
    }

    /// Hands output ending at `end` to the output log, capped at the log's
    /// cap, as background work.
    pub fn output(&mut self, bytes: Vec<u8>, end: u64) -> (r: Result<Work, StorageError>)
        requires
            old(self).wf(),
        ensures
            final(self).wf(),
            lane_admits(old(self).spec_log(), final(self).spec_log(), Purpose::Background, bytes@.len(), match r {
                Ok(_) => Ok(()),
                Err(e) => Err(e),
            }),
            r matches Ok(w) ==> w == Work::Append(bytes, old(self).spec_log_cap(), end),
            final(self).spec_event() == old(self).spec_event() && final(self).spec_lifecycle() == old(self).spec_lifecycle(),
            final(self).spec_events() == old(self).spec_events(),
    {
        let cap = self.log_cap;
        Self::submit(&mut self.log, Purpose::Background, Work::Append(bytes, cap, end))
    }

    /// Hands a clear of the output log, as controller `tag` observed it at
    /// index `observed`, up to offset `end`, to the output log.
    pub fn clear(&mut self, tag: u64, observed: u64, end: u64) -> (r: Result<Work, StorageError>)
        requires
            old(self).wf(),
        ensures
            final(self).wf(),
            lane_admits(old(self).spec_log(), final(self).spec_log(), Purpose::Clear(tag, observed), 0, match r {
                Ok(_) => Ok(()),
                Err(e) => Err(e),
            }),
            r matches Ok(w) ==> w == Work::Clear(observed, end),
            final(self).spec_event() == old(self).spec_event() && final(self).spec_lifecycle() == old(self).spec_lifecycle(),
            final(self).spec_events() == old(self).spec_events(),
    {
        Self::submit(&mut self.log, Purpose::Clear(tag, observed), Work::Clear(observed, end))
    }

    /// Hands the lifecycle record, written when output ended at `end`, to
    /// the lifecycle lane.
    pub fn lifecycle(&mut self, body: Vec<u8>, end: u64) -> (r: Result<Work, StorageError>)
        requires
            old(self).wf(),
        ensures
            final(self).wf(),
            admits(old(self).spec_lifecycle(), final(self).spec_lifecycle(), Purpose::Lifecycle, body@.len(), match r {
                Ok(_) => Ok(()),
                Err(e) => Err(e),
            }),
            r matches Ok(w) ==> w == Work::Replace(body, 1, end, end),
            final(self).spec_log() == old(self).spec_log() && final(self).spec_event() == old(self).spec_event(),
            final(self).spec_events() == old(self).spec_events(),
    {
        Self::enqueue(&mut self.lifecycle, Purpose::Lifecycle, Work::Replace(body, 1, end, end))
    }

    /// Files `transitions` for the event log under `purpose`, to remember
    /// the first in observation slot `remember_after` once taken: the log
    /// plans the commit; the event lane takes the plan's replacement under
    /// the plan's purpose; once it did, the log moves on to the plan's
    /// stream and records, and a replacement the stream did not accept is
    /// reported as disabled, though it was handed on. A log that is not
    /// kept is disabled.
    fn record(&mut self, purpose: Purpose, transitions: &[Event], remember_after: Option<usize>) -> (r: (
        Option<Work>,
        Result<(), StorageError>,
    ))
        requires
            old(self).wf(),
            remember_after matches Some(slot) ==> slot < 3,
        ensures
            final(self).wf(),
            recorded(*old(self), *final(self), purpose, event_views(transitions@), r),
            final(self).spec_log() == old(self).spec_log() && final(self).spec_lifecycle() == old(self).spec_lifecycle(),
    {
        let log = match &self.events {
            Some(e) => e,
            None => {
                return (None, Err(StorageError::Disabled));
            },
        };
        let planned = match log.plan(purpose, transitions, remember_after) {
            Ok(p) => p,
            Err(e) => {
                return (None, Err(e));
            },
        };
        let ghost p = planned.plan_view();
        let replacement = planned.replacement();
        let work = Work::Replace(
            crate::bytes::to_vec(replacement.body.as_slice()),
            replacement.epoch,
            replacement.first,
            replacement.next,
        );
        let lane_purpose = replacement.purpose;
        let taken = match Self::submit(&mut self.event, lane_purpose, work) {
            Ok(w) => w,
            Err(e) => {
                return (None, Err(e));
            },
        };
        let mut events = self.events.take().unwrap();
        let result = events.commit(planned);
        self.events = Some(events);
        (Some(taken), result)
    }

    /// Files `events` for the event log under `purpose`; nothing to file
    /// files nothing.
    pub fn commit(&mut self, purpose: Purpose, events: &[Event]) -> (r: (Option<Work>, Result<(), StorageError>))
        requires
            old(self).wf(),
        ensures
            final(self).wf(),
            events@.len() == 0 ==> r == (None::<Work>, Ok::<(), StorageError>(())) && *final(self) == *old(self),
            events@.len() > 0 ==> recorded(*old(self), *final(self), purpose, event_views(events@), r),
            final(self).spec_log() == old(self).spec_log() && final(self).spec_lifecycle() == old(self).spec_lifecycle(),
    {
        if events.len() == 0 {
            return (None, Ok(()));
        }
        self.record(purpose, events, None)
    }

    /// Files what the scanner observed at `ts` as background work; an
    /// observation that is no event files nothing.
    pub fn observe(&mut self, observation: &Observation, ts: u64) -> (r: (Option<Work>, Result<(), StorageError>))
        requires
            old(self).wf(),
        ensures
            final(self).wf(),
            spec_observed(*observation, ts) is None ==> r == (None::<Work>, Ok::<(), StorageError>(())) && *final(self)
                == *old(self),
            spec_observed(*observation, ts) matches Some((e, _)) ==> recorded(
                *old(self),
                *final(self),
                Purpose::Background,
                seq![e],
                r,
            ),
            final(self).spec_log() == old(self).spec_log() && final(self).spec_lifecycle() == old(self).spec_lifecycle(),
    {
        match observed_event(observation, ts) {
            None => (None, Ok(())),
            Some((event, slot)) => {
                let mut batch: Vec<Event> = Vec::new();
                batch.push(event);
                proof {
                    assert(event_views(batch@) =~= seq![batch@[0]@]);
                }
                self.record(Purpose::Background, batch.as_slice(), slot)
            },
        }
    }

    /// The lane at `lane` (0 the output log, 1 the event log, 2 the
    /// lifecycle record), when it is configured.
    pub open spec fn lane_at(&self, lane: usize) -> Option<LaneQueue> {
        if lane == 0 {
            self.spec_log()
        } else if lane == 1 {
            self.spec_event()
        } else if lane == 2 {
            Some(self.spec_lifecycle())
        } else {
            None
        }
    }

    /// The worker of lane `lane` completed its oldest job: the job's purpose,
    /// if the lane held one.
    pub fn completed(&mut self, lane: usize) -> (r: Option<Purpose>)
        requires
            old(self).wf(),
        ensures
            final(self).wf(),
            final(self).spec_events() == old(self).spec_events(),
            match old(self).lane_at(lane) {
                None => r is None && *final(self) == *old(self),
                Some(q) => final(self).lane_at(lane) matches Some(n) && n.spec_failed() == q.spec_failed() && if q.spec_pending().len() == 0 {
                    r is None && n.spec_pending() == q.spec_pending()
                } else {
                    r == Some(q.spec_pending()[0].0) && n.spec_pending() == q.spec_pending().drop_first()
                },
            },
            forall|k: usize| k != lane ==> final(self).lane_at(k) == old(self).lane_at(k),
    {
        if lane == 0 {
            match &mut self.log {
                Some(q) => q.complete(),
                None => None,
            }
        } else if lane == 1 {
            match &mut self.event {
                Some(q) => q.complete(),
                None => None,
            }
        } else if lane == 2 {
            self.lifecycle.complete()
        } else {
            None
        }
    }

    /// The lane at `lane` failed: it takes no more work.
    pub fn close_lane(&mut self, lane: usize)
        requires
            old(self).wf(),
        ensures
            final(self).wf(),
            final(self).spec_events() == old(self).spec_events(),
            match old(self).lane_at(lane) {
                None => *final(self) == *old(self),
                Some(q) => final(self).lane_at(lane) matches Some(n) && n.spec_failed() && n.spec_pending() == q.spec_pending(),
            },
            forall|k: usize| k != lane ==> final(self).lane_at(k) == old(self).lane_at(k),
    {
        if lane == 0 {
            if let Some(q) = &mut self.log {
                q.fail();
            }
        } else if lane == 1 {
            if let Some(q) = &mut self.event {
                q.fail();
            }
        } else if lane == 2 {
            self.lifecycle.fail();
        }
    }

    /// A controller whose log clear waits in the output log went away: the
    /// clear cannot be answered, so the output log is closed rather than
    /// cleared behind everyone's back; otherwise nothing changes.
    pub fn abandon_clear(&mut self, tag: u64)
        requires
            old(self).wf(),
        ensures
            final(self).wf(),
            final(self).spec_events() == old(self).spec_events(),
            final(self).spec_event() == old(self).spec_event() && final(self).spec_lifecycle() == old(self).spec_lifecycle(),
            match old(self).spec_log() {
                Some(q) => if exists|i: int| 0 <= i < q.spec_pending().len() && crate::lane::clear_for(#[trigger] q.spec_pending()[i].0, tag) {
                    final(self).spec_log() matches Some(n) && n.spec_failed() && n.spec_pending() == q.spec_pending()
                } else {
                    final(self).spec_log() == old(self).spec_log()
                },
                None => final(self).spec_log() is None,
            },
    {
        if let Some(q) = &mut self.log {
            if q.clear_pending(tag) {
                q.fail();
            }
        }
    }

    /// The health bits of the lanes: bit 0 the output log, bit 1 the event
    /// log while its stream takes transactions, bit 2 the lifecycle record.
    pub fn health(&self) -> (r: u8)
        requires
            self.wf(),
        ensures
            r == spec_health(
                match self.spec_log() {
                    Some(q) => Some(!q.spec_failed()),
                    None => None,
                },
                match self.spec_event() {
                    Some(q) => Some(!q.spec_failed()),
                    None => None,
                },
                Some(!self.spec_lifecycle().spec_failed()),
                self.spec_events() matches Some(e) && e.spec_stream() is Some,
            ),
    {
        let log = match &self.log {
            Some(q) => Some(q.writable()),
            None => None,
        };
        let event = match &self.event {
            Some(q) => Some(q.writable()),
            None => None,
        };
        let stream = match &self.events {
            Some(e) => e.writable(),
            None => false,
        };
        health(log, event, Some(self.lifecycle.writable()), stream)
    }

    /// How many jobs the lanes hold together.
    pub fn pending(&self) -> (r: usize)
        requires
            self.wf(),
        ensures
            r == (match self.spec_log() {
                Some(q) => q.spec_pending().len(),
                None => 0,
            }) + (match self.spec_event() {
                Some(q) => q.spec_pending().len(),
                None => 0,
            }) + self.spec_lifecycle().spec_pending().len(),
    {
        let a = match &self.log {
            Some(q) => q.pending(),
            None => 0,
        };
        let b = match &self.event {
            Some(q) => q.pending(),
            None => 0,
        };
        a + b + self.lifecycle.pending()
    }
}

} // verus!
