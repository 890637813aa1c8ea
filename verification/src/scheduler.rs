//! Admission control for the worker pool: at most `limit` chunks are being
//! aggregated at any time, every chunk that was started is taken back exactly once,
//! and the run is over only when the input has ended and nothing is in
//! flight.

use vstd::prelude::*;

verus! {

/// The state of the pool.
pub struct Pool {
    /// The most chunks that may be in flight at once.
    pub limit: nat,
    /// The tickets of the chunks in flight, oldest first.
    pub active: Seq<u64>,
    /// How many chunks were started so far.
    pub started: nat,
    /// How many results were taken back so far.
    pub completed: nat,
    /// Whether the input has ended.
    pub closed: bool,
}

/// What can happen to the pool.
pub enum Event {
    /// A chunk asks to be started.
    Start,
    /// The result of the chunk with this ticket comes back.
    Complete(u64),
    /// The input has ended.
    Close,
}

/// What the driver of the pool does next.
#[derive(Clone, Copy, Debug, PartialEq, Eq, Structural)]
pub enum Step {
    /// Start a worker on the chunk in hand.
    Start,
    /// Wait for a result and take it back.
    AwaitResult,
    /// Read the next chunk from the input.
    ReadInput,
    /// Everything is merged: hand the final result to the presenter.
    Present,
}

impl Pool {
    /// The pool at the start of a run.
    pub open spec fn initial(limit: nat) -> Pool {
        Pool { limit, active: Seq::empty(), started: 0, completed: 0, closed: false }
    }

    /// A chunk may be started: the input has not ended and fewer than
    /// `limit` chunks are in flight.
    pub open spec fn can_start(self) -> bool {
        !self.closed && self.active.len() < self.limit
    }

    /// The ticket that the next started chunk gets.
    pub open spec fn next_ticket(self) -> u64 {
        self.started as u64
    }

    /// The pool after a chunk asked to be started.
    pub open spec fn start_chunk(self) -> Pool {
        if self.can_start() {
            Pool {
                active: self.active.push(self.next_ticket()),
                started: self.started + 1,
                ..self
            }
        } else {
            self
        }
    }

    /// The pool after the result with `ticket` came back. A ticket that is
    /// not in flight changes nothing.
    pub open spec fn complete(self, ticket: u64) -> Pool {
        if self.active.contains(ticket) {
            Pool {
                active: self.active.remove(self.active.index_of(ticket)),
                completed: self.completed + 1,
                ..self
            }
        } else {
            self
        }
    }

    /// The pool after the input ended.
    pub open spec fn close(self) -> Pool {
        Pool { closed: true, ..self }
    }

    /// The pool after `event`.
    pub open spec fn apply(self, event: Event) -> Pool {
        match event {
            Event::Start => self.start_chunk(),
            Event::Complete(ticket) => self.complete(ticket),
            Event::Close => self.close(),
        }
    }

    /// The pool after `events`, in order.
    pub open spec fn run(self, events: Seq<Event>) -> Pool
        decreases events.len(),
    {
        if events.len() == 0 {
            self
        } else {
            self.run(events.drop_last()).apply(events.last())
        }
    }

    /// The run is over: the input has ended and nothing is in flight.
    pub open spec fn finished(self) -> bool {
        self.closed && self.active.len() == 0
    }

    /// What the driver does next, given whether it holds a chunk that is
    /// not started yet.
    pub open spec fn next_step(self, chunk_in_hand: bool) -> Step {
        if chunk_in_hand && !self.closed {
            if self.active.len() < self.limit {
                Step::Start
            } else {
                Step::AwaitResult
            }
        } else if !self.closed {
            Step::ReadInput
        } else if self.active.len() > 0 {
            Step::AwaitResult
        } else {
            Step::Present
        }
    }

    /// No more than `limit` chunks are in flight, no ticket is in flight
    /// twice, every ticket in flight was started, and every started chunk
    /// is either in flight or taken back.
    pub open spec fn valid(self) -> bool {
        &&& self.limit >= 1
        &&& self.active.len() <= self.limit
        &&& self.active.no_duplicates()
        &&& forall|i: int| 0 <= i < self.active.len() ==> (#[trigger] self.active[i]) < self.started
        &&& self.started == self.completed + self.active.len()
        &&& self.started <= u64::MAX
    }
}

/// Every event leaves a valid pool valid, as long as a chunk is started
/// only while tickets are left.
pub proof fn lemma_apply_valid(pool: Pool, event: Event)
    requires
        pool.valid(),
        event is Start ==> pool.started < u64::MAX,
    ensures
        pool.apply(event).valid(),
{
    match event {
        Event::Start => {
            if pool.can_start() {
                let after = pool.start_chunk();
                assert forall|i: int, j: int|
                    0 <= i < after.active.len() && 0 <= j < after.active.len() && i != j implies after.active[i]
                    != after.active[j] by {
                    if i < pool.active.len() {
                        assert(pool.active[i] < pool.started);
                    }
                    if j < pool.active.len() {
                        assert(pool.active[j] < pool.started);
                    }
                }
            }
        },
        Event::Complete(ticket) => {
            if pool.active.contains(ticket) {
                let at = pool.active.index_of(ticket);
                let after = pool.complete(ticket);
                assert forall|i: int| 0 <= i < after.active.len() implies (#[trigger] after.active[i])
                    < after.started by {
                    if i < at {
                        assert(after.active[i] == pool.active[i]);
                    } else {
                        assert(after.active[i] == pool.active[i + 1]);
                    }
                }
                assert forall|i: int, j: int|
                    0 <= i < after.active.len() && 0 <= j < after.active.len() && i != j implies after.active[i]
                    != after.active[j] by {
                    let from_i = if i < at { i } else { i + 1 };
                    let from_j = if j < at { j } else { j + 1 };
                    assert(after.active[i] == pool.active[from_i]);
                    assert(after.active[j] == pool.active[from_j]);
                }
            }
        },
        Event::Close => {},
    }
}

/// The concurrency bound holds in every state: whatever events reach a
/// pool that started with limit `limit`, no more than `limit` chunks are
/// in flight afterwards.
pub proof fn lemma_bound_always(limit: nat, events: Seq<Event>)
    ensures
        Pool::initial(limit).run(events).active.len() <= limit,
        Pool::initial(limit).run(events).limit == limit,
    decreases events.len(),
{
    if events.len() > 0 {
        lemma_bound_always(limit, events.drop_last());
    }
}

/// Once the run is over it stays over: no event starts a chunk after the
/// input has ended, so nothing can be in flight again.
pub proof fn lemma_finished_is_final(pool: Pool, events: Seq<Event>)
    requires
        pool.finished(),
    ensures
        pool.run(events) == pool,
    decreases events.len(),
{
    if events.len() > 0 {
        lemma_finished_is_final(pool, events.drop_last());
        assert(forall|ticket: u64| !pool.active.contains(ticket));
    }
}

/// The driver presents only when the run is over, and a finished run has
/// taken back every chunk that it started.
pub proof fn lemma_present_means_done(pool: Pool, chunk_in_hand: bool)
    requires
        pool.valid(),
    ensures
        pool.next_step(chunk_in_hand) == Step::Present ==> pool.finished(),
        pool.finished() ==> pool.completed == pool.started,
        pool.next_step(chunk_in_hand) == Step::Start ==> pool.can_start(),
{
}

/// The executable pool state.
#[derive(Debug)]
pub struct Scheduler {
    limit: usize,
    active: Vec<u64>,
    started: u64,
    completed: u64,
    closed: bool,
}

impl View for Scheduler {
    type V = Pool;

    closed spec fn view(&self) -> Pool {
        Pool {
            limit: self.limit as nat,
            active: self.active@,
            started: self.started as nat,
            completed: self.completed as nat,
            closed: self.closed,
        }
    }
}

impl Scheduler {
    /// The pool is valid; every pool that this library hands out is.
    pub open spec fn wf(&self) -> bool {
        self@.valid()
    }

    /// A pool that lets `limit` chunks be in flight at once, or `None`
    /// where `limit` is zero and no chunk could ever start.
    pub fn new(limit: usize) -> (r: Option<Scheduler>)
        ensures
            r is Some <==> limit >= 1,
            r matches Some(s) ==> s.wf() && s@ == Pool::initial(limit as nat),
    {
        if limit == 0 {
            None
        } else {
            Some(Scheduler { limit, active: Vec::new(), started: 0, completed: 0, closed: false })
        }
    }

    /// The most chunks that may be in flight at once.
    pub fn limit(&self) -> (n: usize)
        ensures
            n == self@.limit,
    {
        self.limit
    }

    /// How many chunks are in flight.
    pub fn in_flight(&self) -> (n: usize)
        ensures
            n == self@.active.len(),
    {
        self.active.len()
    }

    /// Asks to start a chunk. Gives the ticket of the chunk where it may
    /// start, and `None`, with nothing changed, where the pool is full or
    /// the input has ended (or the tickets have run out).
    pub fn start_chunk(&mut self) -> (r: Option<u64>)
        requires
            old(self).wf(),
        ensures
            final(self).wf(),
            r is Some <==> old(self)@.can_start() && old(self)@.started < u64::MAX,
            r matches Some(ticket) ==> ticket == old(self)@.next_ticket() && final(self)@ == old(
                self,
            )@.start_chunk(),
            r is None ==> final(self)@ == old(self)@,
    {
        if self.closed || self.active.len() >= self.limit || self.started == u64::MAX {
            return None;
        }
        proof {
            lemma_apply_valid(self@, Event::Start);
        }
        let ticket: u64 = self.started;
        self.active.push(ticket);
        self.started = self.started + 1;
        Some(ticket)
    }

    /// Takes back the result of the chunk with `ticket`. Returns `false`,
    /// with nothing changed, where no such chunk is in flight: each result
    /// is accepted once.
    pub fn complete(&mut self, ticket: u64) -> (known: bool)
        requires
            old(self).wf(),
        ensures
            final(self).wf(),
            known == old(self)@.active.contains(ticket),
            final(self)@ == old(self)@.complete(ticket),
    {
        let count: usize = self.active.len();
        let mut i: usize = 0;
        while i < count
            invariant
                0 <= i <= count,
                count == self.active@.len(),
                *self == *old(self),
                self.wf(),
                forall|j: int| 0 <= j < i ==> self.active@[j] != ticket,
            decreases count - i,
        {
            if self.active[i] == ticket {
                proof {
                    let pool = self@;
                    assert(pool.active.contains(ticket));
                    let at = pool.active.index_of(ticket);
                    assert(at == i) by {
                        if at != i {
                            assert(pool.active[at] == pool.active[i as int]);
                        }
                    }
                    lemma_apply_valid(pool, Event::Complete(ticket));
                }
                self.active.remove(i);
                self.completed = self.completed + 1;
                return true;
            }
            i += 1;
        }
        proof {
            if self@.active.contains(ticket) {
                let at = self@.active.index_of(ticket);
                assert(self.active@[at] == ticket);
            }
        }
        false
    }

    /// Records that the input has ended: no chunk is started from now on.
    pub fn close(&mut self)
        requires
            old(self).wf(),
        ensures
            final(self).wf(),
            final(self)@ == old(self)@.close(),
    {
        self.closed = true;
    }

    /// Whether the run is over: the input has ended and every started
    /// chunk has been taken back.
    pub fn is_finished(&self) -> (done: bool)
        requires
            self.wf(),
        ensures
            done == self@.finished(),
            done ==> self@.completed == self@.started,
    {
        self.closed && self.active.len() == 0
    }

    /// What the driver does next, given whether it holds a chunk that is
    /// not started yet.
    pub fn next_step(&self, chunk_in_hand: bool) -> (step: Step)
        ensures
            step == self@.next_step(chunk_in_hand),
    {
        if chunk_in_hand && !self.closed {
            if self.active.len() < self.limit {
                Step::Start
            } else {
                Step::AwaitResult
            }
        } else if !self.closed {
            Step::ReadInput
        } else if self.active.len() > 0 {
            Step::AwaitResult
        } else {
            Step::Present
        }
    }
}

/// The default number of workers on a machine with `cores` cores: all but
/// two, which are left to reading and merging, and at least one.
pub fn default_worker_limit(cores: usize) -> (limit: usize)
    ensures
        limit >= 1,
        limit == if cores > 3 { cores - 2 } else { 1 },
{
    if cores > 3 {
        cores - 2
    } else {
        1
    }
}

} // verus!
