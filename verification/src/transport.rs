//! A connection's send budget. Each queued write is charged for its frame
//! overhead and its payload, separately, and both totals stay within the
//! connection's limits; a write's charge comes back when the writer finished
//! it, and a failed or closed connection holds nothing.
use vstd::prelude::*;

verus! {

#[derive(Clone, Copy, Debug, PartialEq, Eq, Structural)]
pub enum SendError {
    Full,
    Closed,
}

/// The overhead and payload bytes of writes, added up.
pub open spec fn charged(writes: Seq<(usize, usize)>) -> (int, int)
    decreases writes.len(),
{
    if writes.len() == 0 {
        (0, 0)
    } else {
        let rest = charged(writes.drop_last());
        (rest.0 + writes.last().0, rest.1 + writes.last().1)
    }
}

/// The budget: its limits, what the writes in flight hold, whether the
/// connection still takes writes, and those writes' charges, oldest first.
pub struct SendBudget {
    limit: (usize, usize),
    used: (usize, usize),
    open: bool,
    inflight: Ghost<Seq<(usize, usize)>>,
}

impl SendBudget {
    /// What is used is exactly what the writes in flight were charged, within
    /// the limits; a closed connection has nothing in flight.
    pub closed spec fn wf(&self) -> bool {
        &&& self.used.0 as int == charged(self.inflight@).0
        &&& self.used.1 as int == charged(self.inflight@).1
        &&& self.used.0 <= self.limit.0 && self.used.1 <= self.limit.1
        &&& self.limit.0 + self.limit.1 <= usize::MAX
        &&& !self.open ==> self.inflight@.len() == 0
    }

    pub closed spec fn spec_inflight(&self) -> Seq<(usize, usize)> {
        self.inflight@
    }

    pub closed spec fn spec_used(&self) -> (usize, usize) {
        self.used
    }

    pub closed spec fn spec_limit(&self) -> (usize, usize) {
        self.limit
    }

    pub closed spec fn spec_open(&self) -> bool {
        self.open
    }

    /// An open connection with nothing queued, whose frames may hold
    /// `overhead` bytes besides payload and `payload` bytes of payload.
    pub fn new(overhead: usize, payload: usize) -> (r: Self)
        requires
            overhead + payload <= usize::MAX,
        ensures
            r.wf(),
            r.spec_open(),
            r.spec_inflight().len() == 0,
            r.spec_limit() == (overhead, payload),
    {
        SendBudget { limit: (overhead, payload), used: (0, 0), open: true, inflight: Ghost(Seq::empty()) }
    }

    /// The bytes queued and not yet written.
    pub fn pending(&self) -> (r: usize)
        requires
            self.wf(),
        ensures
            r == self.spec_used().0 + self.spec_used().1,
    {
        self.used.0 + self.used.1
    }

    /// Charges a write of `length` bytes, `payload` of them payload: a
    /// closed connection refuses it as closed; a payload longer than the
    /// write, or a charge past either limit, as full. An empty write is
    /// charged nothing and not queued (`None`). Only a charge changes the
    /// budget.
    pub fn charge(&mut self, length: usize, payload: usize) -> (r: Result<Option<(usize, usize)>, SendError>)
        requires
            old(self).wf(),
        ensures
            final(self).wf(),
            final(self).spec_limit() == old(self).spec_limit(),
            final(self).spec_open() == old(self).spec_open(),
            !old(self).spec_open() ==> r == Err::<Option<(usize, usize)>, SendError>(SendError::Closed),
            old(self).spec_open() && payload > length ==> r == Err::<Option<(usize, usize)>, SendError>(
                SendError::Full,
            ),
            old(self).spec_open() && payload <= length && length == 0 ==> r == Ok::<
                Option<(usize, usize)>,
                SendError,
            >(None),
            old(self).spec_open() && payload <= length && length > 0 ==> {
                let c = ((length - payload) as usize, payload);
                if old(self).spec_used().0 + c.0 <= old(self).spec_limit().0 && old(self).spec_used().1 + c.1
                    <= old(self).spec_limit().1 {
                    r == Ok::<Option<(usize, usize)>, SendError>(Some(c)) && final(self).spec_inflight()
                        == old(self).spec_inflight().push(c)
                } else {
                    r == Err::<Option<(usize, usize)>, SendError>(SendError::Full)
                }
            },
            !(r matches Ok(Some(_))) ==> final(self).spec_inflight() == old(self).spec_inflight()
                && final(self).spec_used() == old(self).spec_used(),
    {
        if !self.open {
            return Err(SendError::Closed);
        }
        if payload > length {
            return Err(SendError::Full);
        }
        if length == 0 {
            return Ok(None);
        }
        let c = (length - payload, payload);
        if c.0 > self.limit.0 - self.used.0 || c.1 > self.limit.1 - self.used.1 {
            return Err(SendError::Full);
        }
        self.used = (self.used.0 + c.0, self.used.1 + c.1);
        self.inflight = Ghost(self.inflight@.push(c));
        proof {
            assert(self.inflight@.drop_last() =~= old(self).inflight@);
        }
        Ok(Some(c))
    }

    /// The writer finished the oldest write in flight: its charge comes
    /// back. A closed connection holds nothing and stays so.
    pub fn written(&mut self, c: (usize, usize))
        requires
            old(self).wf(),
            old(self).spec_open() ==> old(self).spec_inflight().len() > 0 && old(self).spec_inflight()[0]
                == c,
        ensures
            final(self).wf(),
            final(self).spec_limit() == old(self).spec_limit(),
            final(self).spec_open() == old(self).spec_open(),
            old(self).spec_open() ==> final(self).spec_inflight() == old(self).spec_inflight().drop_first(),
            !old(self).spec_open() ==> final(self).spec_used() == old(self).spec_used(),
    {
        if !self.open {
            return;
        }
        proof {
            lemma_charged_first(self.inflight@);
            lemma_charged_bounds(self.inflight@.drop_first());
        }
        self.used = (self.used.0 - c.0, self.used.1 - c.1);
        self.inflight = Ghost(self.inflight@.drop_first());
    }

    /// The connection failed or was shut: it takes no more writes and holds
    /// nothing.
    pub fn close(&mut self)
        requires
            old(self).wf(),
        ensures
            final(self).wf(),
            !final(self).spec_open(),
            final(self).spec_used() == (0usize, 0usize),
            final(self).spec_limit() == old(self).spec_limit(),
    {
        self.open = false;
        self.used = (0, 0);
        self.inflight = Ghost(Seq::empty());
    }
}

pub proof fn lemma_charged_bounds(writes: Seq<(usize, usize)>)
    ensures
        charged(writes).0 >= 0 && charged(writes).1 >= 0,
    decreases writes.len(),
{
    if writes.len() > 0 {
        lemma_charged_bounds(writes.drop_last());
    }
}

pub proof fn lemma_charged_first(writes: Seq<(usize, usize)>)
    requires
        writes.len() > 0,
    ensures
        charged(writes).0 == writes[0].0 + charged(writes.drop_first()).0,
        charged(writes).1 == writes[0].1 + charged(writes.drop_first()).1,
    decreases writes.len(),
{
    if writes.len() == 1 {
        assert(writes.drop_last() =~= Seq::<(usize, usize)>::empty());
        assert(writes.drop_first() =~= Seq::<(usize, usize)>::empty());
    } else {
        lemma_charged_first(writes.drop_last());
        assert(writes.drop_last().drop_first() =~= writes.drop_first().drop_last());
    }
}

} // verus!
