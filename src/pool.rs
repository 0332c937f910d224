use std::collections::VecDeque;
use vstd::multiset::Multiset;
use vstd::prelude::*;

verus! {

broadcast use {vstd::seq_lib::group_to_multiset_ensures, vstd::multiset::group_multiset_axioms};

/// A control message on the dispatch queue: a job under the ticket it was
/// submitted with, or a request for the receiving worker to leave its loop.
pub enum Message<J> {
    NewJob { ticket: u64, job: J },
    Terminate,
}

/// Where one worker stands in its lifecycle.
#[derive(Clone, Copy, PartialEq, Eq, Structural, Debug)]
pub enum WorkerState {
    /// Idle, blocked on the queue for its next message.
    Waiting,
    /// Running the job with this ticket.
    Executing(u64),
    /// Left its loop; the thread is finishing and can be joined.
    Exited,
    /// Its thread was joined after a clean exit.
    Joined,
    /// Its thread was joined, but it had not left its loop cleanly.
    Failed,
}

/// Errors reported by a pool.
#[derive(Clone, Copy, PartialEq, Eq, Structural, Debug)]
pub enum PoolError {
    /// A pool needs at least one worker.
    Configuration,
    /// Work was submitted after shutdown had begun; it will never run.
    ShutDown,
    /// Every ticket number has been used; no further job can be accepted.
    TicketsExhausted,
    /// Shutdown was asked for a second time.
    AlreadyShutDown,
    /// The thread of this worker did not terminate cleanly.
    JoinFailed(usize),
}

/// What a worker is told to do when it asks the queue for work.
pub enum Delivery<J> {
    /// Run this job, then report back with `job_done`.
    Run { ticket: u64, job: J },
    /// Leave the worker loop.
    Stop,
    /// Nothing to take yet: block until the queue changes, then ask again.
    Wait,
}

/// A worker in this state may still be running on its thread.
pub open spec fn is_live(s: WorkerState) -> bool {
    s is Waiting || s is Executing
}

/// A worker in this state has had its thread joined.
pub open spec fn is_joined(s: WorkerState) -> bool {
    s is Joined || s is Failed
}

/// Tickets of the jobs in a queue, front first.
pub open spec fn job_tickets<J>(q: Seq<Message<J>>) -> Seq<u64>
    decreases q.len(),
{
    if q.len() == 0 {
        Seq::empty()
    } else {
        let rest = job_tickets(q.drop_first());
        match q[0] {
            Message::NewJob { ticket, .. } => seq![ticket] + rest,
            Message::Terminate => rest,
        }
    }
}

/// The tickets `0, 1, ..., n - 1` in order.
pub open spec fn tickets_upto(n: nat) -> Seq<u64> {
    Seq::new(n, |i: int| i as u64)
}

/// Number of workers that are running a job.
pub open spec fn busy_count(s: Seq<WorkerState>) -> nat
    decreases s.len(),
{
    if s.len() == 0 {
        0
    } else {
        busy_count(s.drop_last()) + if s.last() is Executing { 1nat } else { 0nat }
    }
}

/// The ticket a worker is running, if any, as a multiset.
pub open spec fn running_ticket(x: WorkerState) -> Multiset<u64> {
    match x {
        WorkerState::Executing(t) => Multiset::singleton(t),
        _ => Multiset::empty(),
    }
}

/// Tickets of the jobs that workers are running.
pub open spec fn running(s: Seq<WorkerState>) -> Multiset<u64>
    decreases s.len(),
{
    if s.len() == 0 {
        Multiset::empty()
    } else {
        running(s.drop_last()).add(running_ticket(s.last()))
    }
}

/// Tickets of the jobs that finished or are running.
pub open spec fn finished_or_running<J>(v: PoolView<J>) -> Multiset<u64> {
    v.finished.to_multiset().add(running(v.workers))
}

/// The abstract state of a pool.
pub struct PoolView<J> {
    /// Number of workers the pool was created with.
    pub size: nat,
    /// Messages waiting on the dispatch queue, front first.
    pub queue: Seq<Message<J>>,
    /// State of each worker, by id.
    pub workers: Seq<WorkerState>,
    /// Whether shutdown has begun.
    pub closed: bool,
    /// Number of jobs accepted so far; also the next ticket.
    pub submitted: nat,
    /// Tickets handed to workers, in the order they were taken.
    pub delivered: Seq<u64>,
    /// Tickets whose jobs ran to completion, in the order they finished.
    pub finished: Seq<u64>,
}

/// The decision core of a worker pool: the dispatch queue shared by the
/// workers, the state of each worker, and the shutdown protocol. The threads
/// themselves run around it, taking a lock for each call.
pub struct Pool<J> {
    size: usize,
    queue: VecDeque<Message<J>>,
    workers: Vec<WorkerState>,
    closed: bool,
    next_ticket: u64,
    completed: u64,
    delivered: Ghost<Seq<u64>>,
    finished: Ghost<Seq<u64>>,
}

impl<J> View for Pool<J> {
    type V = PoolView<J>;

    closed spec fn view(&self) -> PoolView<J> {
        PoolView {
            size: self.size as nat,
            queue: self.queue@,
            workers: self.workers@,
            closed: self.closed,
            submitted: self.next_ticket as nat,
            delivered: self.delivered@,
            finished: self.finished@,
        }
    }
}

impl<J> PoolView<J> {
    /// Every worker's thread has been joined.
    pub open spec fn all_joined(self) -> bool {
        forall|w: int| 0 <= w < self.workers.len() ==> is_joined(#[trigger] self.workers[w])
    }

    /// No worker's thread has ended uncleanly.
    pub open spec fn no_failed(self) -> bool {
        forall|w: int| 0 <= w < self.workers.len() ==> !(#[trigger] self.workers[w] is Failed)
    }

    /// The invariant of a pool.
    pub open spec fn inv(self) -> bool {
        &&& self.size > 0
        &&& self.workers.len() == self.size
        // every accepted job is either handed out or still queued, in ticket order
        &&& self.delivered + job_tickets(self.queue) == tickets_upto(self.submitted)
        // before shutdown the queue holds jobs only and every worker is live
        &&& !self.closed ==> forall|i: int| 0 <= i < self.queue.len() ==> #[trigger] self.queue[i] is NewJob
        &&& !self.closed ==> forall|w: int| 0 <= w < self.size ==> is_live(#[trigger] self.workers[w])
        // after shutdown began, every job stands before every terminate message
        &&& forall|i: int, j: int|
            0 <= i < j < self.queue.len() && #[trigger] self.queue[i] is Terminate
                ==> #[trigger] self.queue[j] is Terminate
        // once a worker has left its loop, no job is left on the queue
        &&& forall|w: int, i: int|
            0 <= w < self.size && (#[trigger] self.workers[w] is Exited || self.workers[w] is Joined)
                && 0 <= i < self.queue.len() ==> #[trigger] self.queue[i] is Terminate
        // jobs handed out are finished, running, or lost with a failed worker
        &&& self.finished.len() + busy_count(self.workers) <= self.delivered.len()
        &&& self.no_failed() ==> self.finished.len() + busy_count(self.workers) == self.delivered.len()
        // each job handed out is finished or running exactly once, unless lost
        // with a failed worker
        &&& finished_or_running(self).subset_of(self.delivered.to_multiset())
        &&& self.no_failed() ==> finished_or_running(self) == self.delivered.to_multiset()
        // a single worker finishes jobs in the order it took them
        &&& self.size == 1 ==> self.finished == self.delivered.take(self.finished.len() as int)
        &&& self.size == 1 && self.workers[0] is Executing ==> {
            &&& self.delivered.len() > self.finished.len()
            &&& self.delivered[self.finished.len() as int] == self.workers[0]->Executing_0
        }
    }
}

proof fn lemma_job_tickets_push<J>(q: Seq<Message<J>>, m: Message<J>)
    ensures
        job_tickets(q.push(m)) == job_tickets(q) + match m {
            Message::NewJob { ticket, .. } => seq![ticket],
            Message::Terminate => Seq::<u64>::empty(),
        },
    decreases q.len(),
{
    if q.len() > 0 {
        assert(q.push(m).drop_first() =~= q.drop_first().push(m));
        lemma_job_tickets_push(q.drop_first(), m);
    } else {
        assert(q.push(m).drop_first() =~= q);
    }
    assert(job_tickets(q.push(m)) =~= job_tickets(q) + match m {
        Message::NewJob { ticket, .. } => seq![ticket],
        Message::Terminate => Seq::<u64>::empty(),
    });
}

proof fn lemma_job_tickets_none<J>(q: Seq<Message<J>>)
    requires
        forall|i: int| 0 <= i < q.len() ==> #[trigger] q[i] is Terminate,
    ensures
        job_tickets(q) == Seq::<u64>::empty(),
    decreases q.len(),
{
    if q.len() > 0 {
        assert forall|i: int| 0 <= i < q.drop_first().len() implies #[trigger] q.drop_first()[i] is Terminate by {
            assert(q.drop_first()[i] == q[i + 1]);
        }
        lemma_job_tickets_none(q.drop_first());
    }
}

proof fn lemma_busy_update(s: Seq<WorkerState>, i: int, x: WorkerState)
    requires
        0 <= i < s.len(),
    ensures
        busy_count(s.update(i, x)) + (if s[i] is Executing { 1nat } else { 0nat })
            == busy_count(s) + (if x is Executing { 1nat } else { 0nat }),
    decreases s.len(),
{
    if i == s.len() - 1 {
        assert(s.update(i, x).drop_last() =~= s.drop_last());
    } else {
        assert(s.update(i, x).drop_last() =~= s.drop_last().update(i, x));
        lemma_busy_update(s.drop_last(), i, x);
    }
}

proof fn lemma_running_update(s: Seq<WorkerState>, i: int, x: WorkerState)
    requires
        0 <= i < s.len(),
    ensures
        running(s.update(i, x)).add(running_ticket(s[i])) == running(s).add(running_ticket(x)),
    decreases s.len(),
{
    let u = s.update(i, x);
    if i == s.len() - 1 {
        assert(u.drop_last() =~= s.drop_last());
        assert(u.last() == x);
        assert(running(u) == running(s.drop_last()).add(running_ticket(x)));
        assert(running(s) == running(s.drop_last()).add(running_ticket(s[i])));
    } else {
        assert(u.drop_last() =~= s.drop_last().update(i, x));
        assert(u.last() == s.last());
        lemma_running_update(s.drop_last(), i, x);
        assert(s.drop_last()[i] == s[i]);
        assert(running(u) == running(s.drop_last().update(i, x)).add(running_ticket(s.last())));
        assert(running(s) == running(s.drop_last()).add(running_ticket(s.last())));
    }
    assert forall|v: u64| #[trigger] running(u).add(running_ticket(s[i])).count(v) == running(s).add(running_ticket(x)).count(v) by {
        if i != s.len() - 1 {
            assert(running(s.drop_last().update(i, x)).add(running_ticket(s[i])).count(v)
                == running(s.drop_last()).add(running_ticket(x)).count(v));
        }
    }
    assert(running(u).add(running_ticket(s[i])) =~= running(s).add(running_ticket(x)));
}

proof fn lemma_running_same(s: Seq<WorkerState>, i: int, x: WorkerState)
    requires
        0 <= i < s.len(),
        !(s[i] is Executing),
        !(x is Executing),
    ensures
        running(s.update(i, x)) == running(s),
{
    lemma_running_update(s, i, x);
    assert(running_ticket(s[i]) =~= Multiset::<u64>::empty());
    assert(running_ticket(x) =~= Multiset::<u64>::empty());
    assert forall|v: u64| #[trigger] running(s.update(i, x)).count(v) == running(s).count(v) by {
        assert(running(s.update(i, x)).add(running_ticket(s[i])).count(v) == running(s).add(running_ticket(x)).count(v));
    }
    assert(running(s.update(i, x)) =~= running(s));
}

proof fn lemma_running_none(s: Seq<WorkerState>)
    requires
        forall|w: int| 0 <= w < s.len() ==> !(#[trigger] s[w] is Executing),
    ensures
        running(s) == Multiset::<u64>::empty(),
    decreases s.len(),
{
    if s.len() > 0 {
        assert forall|w: int| 0 <= w < s.drop_last().len() implies !(#[trigger] s.drop_last()[w] is Executing) by {
            assert(s.drop_last()[w] == s[w]);
        }
        lemma_running_none(s.drop_last());
        assert(running(s) =~= Multiset::<u64>::empty());
    }
}

proof fn lemma_busy_none(s: Seq<WorkerState>)
    requires
        forall|w: int| 0 <= w < s.len() ==> !(#[trigger] s[w] is Executing),
    ensures
        busy_count(s) == 0,
    decreases s.len(),
{
    if s.len() > 0 {
        assert forall|w: int| 0 <= w < s.drop_last().len() implies !(#[trigger] s.drop_last()[w] is Executing) by {
            assert(s.drop_last()[w] == s[w]);
        }
        lemma_busy_none(s.drop_last());
    }
}

proof fn lemma_no_failed_update(s: Seq<WorkerState>, i: int, x: WorkerState)
    requires
        0 <= i < s.len(),
        !(s[i] is Failed),
        forall|w: int| 0 <= w < s.len() ==> !(#[trigger] s.update(i, x)[w] is Failed),
    ensures
        forall|w: int| 0 <= w < s.len() ==> !(#[trigger] s[w] is Failed),
{
    assert forall|w: int| 0 <= w < s.len() implies !(#[trigger] s[w] is Failed) by {
        if w != i {
            assert(s.update(i, x)[w] == s[w]);
        }
    }
}

proof fn lemma_busy_single(s: Seq<WorkerState>)
    requires
        s.len() == 1,
    ensures
        busy_count(s) == if s[0] is Executing { 1nat } else { 0nat },
{
    assert(busy_count(s.drop_last()) == 0);
}

impl<J> Pool<J> {
    /// The pool's invariant, with its bookkeeping agreeing with its view.
    pub closed spec fn wf(&self) -> bool {
        &&& self@.inv()
        &&& self.completed as nat == self.finished@.len()
    }

    /// Makes a pool of `size` workers, all waiting for work. The caller
    /// starts one thread per worker id, `0..size`, once this succeeds.
    pub fn create(size: usize) -> (r: Result<Pool<J>, PoolError>)
        ensures
            size == 0 <==> r is Err,
            size == 0 ==> r == Err::<Pool<J>, PoolError>(PoolError::Configuration),
            r matches Ok(p) ==> {
                &&& p.wf()
                &&& p@.size == size
                &&& p@.workers == Seq::new(size as nat, |w: int| WorkerState::Waiting)
                &&& p@.queue.len() == 0
                &&& !p@.closed
                &&& p@.submitted == 0
                &&& p@.delivered.len() == 0
                &&& p@.finished.len() == 0
            },
    {
        if size == 0 {
            return Err(PoolError::Configuration);
        }
        let mut workers: Vec<WorkerState> = Vec::new();
        let mut i: usize = 0;
        while i < size
            invariant
                i <= size,
                workers@ == Seq::new(i as nat, |w: int| WorkerState::Waiting),
            decreases size - i,
        {
            workers.push(WorkerState::Waiting);
            i = i + 1;
            assert(workers@ =~= Seq::new(i as nat, |w: int| WorkerState::Waiting));
        }
        let p = Pool {
            size,
            queue: VecDeque::new(),
            workers,
            closed: false,
            next_ticket: 0,
            completed: 0,
            delivered: Ghost(Seq::empty()),
            finished: Ghost(Seq::empty()),
        };
        proof {
            lemma_busy_none(p.workers@);
            lemma_running_none(p.workers@);
            assert(finished_or_running(p@) =~= p@.delivered.to_multiset());
            assert(p@.delivered + job_tickets(p@.queue) =~= tickets_upto(0));
            assert(p@.finished == p@.delivered.take(0));
            assert(p@.inv());
        }
        Ok(p)
    }

    /// Queues a job behind everything submitted before it and returns its
    /// ticket. After shutdown has begun the job is refused, and so it is
    /// once every ticket number has been used.
    pub fn submit(&mut self, job: J) -> (r: Result<u64, PoolError>)
        requires
            old(self).wf(),
        ensures
            final(self).wf(),
            old(self)@.closed ==> r == Err::<u64, PoolError>(PoolError::ShutDown) && final(self)@ == old(self)@,
            !old(self)@.closed && old(self)@.submitted == u64::MAX ==> r == Err::<u64, PoolError>(
                PoolError::TicketsExhausted,
            ) && final(self)@ == old(self)@,
            !old(self)@.closed && old(self)@.submitted < u64::MAX ==> {
                &&& r == Ok::<u64, PoolError>(old(self)@.submitted as u64)
                &&& final(self)@.queue == old(self)@.queue.push(Message::NewJob { ticket: old(self)@.submitted as u64, job })
                &&& final(self)@.submitted == old(self)@.submitted + 1
                &&& final(self)@.size == old(self)@.size
                &&& final(self)@.workers == old(self)@.workers
                &&& final(self)@.closed == old(self)@.closed
                &&& final(self)@.delivered == old(self)@.delivered
                &&& final(self)@.finished == old(self)@.finished
            },
    {
        if self.closed {
            return Err(PoolError::ShutDown);
        }
        if self.next_ticket == u64::MAX {
            return Err(PoolError::TicketsExhausted);
        }
        let ticket = self.next_ticket;
        proof {
            lemma_job_tickets_push(self.queue@, Message::NewJob { ticket, job });
        }
        self.queue.push_back(Message::NewJob { ticket, job });
        self.next_ticket = ticket + 1;
        proof {
            assert(tickets_upto(self.next_ticket as nat) =~= tickets_upto(ticket as nat).push(ticket));
            assert(self@.delivered + job_tickets(self@.queue) =~= tickets_upto(self.next_ticket as nat));
        }
        Ok(ticket)
    }

    /// The dispatch step of worker `worker`, which is idle and asks for its
    /// next message. The front message goes to this worker alone: a job moves
    /// it to executing, a terminate message ends its loop. An empty queue after
    /// shutdown began also ends its loop; before, the worker must wait.
    pub fn receive(&mut self, worker: usize) -> (r: Delivery<J>)
        requires
            old(self).wf(),
            worker < old(self)@.size,
            old(self)@.workers[worker as int] == WorkerState::Waiting,
        ensures
            final(self).wf(),
            final(self)@.size == old(self)@.size,
            final(self)@.closed == old(self)@.closed,
            final(self)@.submitted == old(self)@.submitted,
            final(self)@.finished == old(self)@.finished,
            old(self)@.queue.len() > 0 ==> final(self)@.queue == old(self)@.queue.drop_first(),
            old(self)@.queue.len() > 0 ==> match old(self)@.queue[0] {
                Message::NewJob { ticket, job } => {
                    &&& r == Delivery::Run { ticket, job }
                    &&& final(self)@.workers == old(self)@.workers.update(worker as int, WorkerState::Executing(ticket))
                    &&& final(self)@.delivered == old(self)@.delivered.push(ticket)
                },
                Message::Terminate => {
                    &&& r is Stop
                    &&& final(self)@.workers == old(self)@.workers.update(worker as int, WorkerState::Exited)
                    &&& final(self)@.delivered == old(self)@.delivered
                },
            },
            old(self)@.queue.len() == 0 ==> final(self)@.queue == old(self)@.queue
                && final(self)@.delivered == old(self)@.delivered,
            old(self)@.queue.len() == 0 && old(self)@.closed ==> r is Stop
                && final(self)@.workers == old(self)@.workers.update(worker as int, WorkerState::Exited),
            old(self)@.queue.len() == 0 && !old(self)@.closed ==> r is Wait
                && final(self)@.workers == old(self)@.workers,
    {
        let ghost pre = self@;
        proof {
            lemma_busy_update(pre.workers, worker as int, WorkerState::Exited);
        }
        match self.queue.pop_front() {
            Some(Message::NewJob { ticket, job }) => {
                proof {
                    lemma_busy_update(pre.workers, worker as int, WorkerState::Executing(ticket));
                    assert(pre.queue.drop_first() =~= self.queue@);
                }
                self.workers.set(worker, WorkerState::Executing(ticket));
                self.delivered = Ghost(self.delivered@.push(ticket));
                proof {
                    if self@.no_failed() {
                        lemma_no_failed_update(pre.workers, worker as int, WorkerState::Executing(ticket));
                    }
                    lemma_running_update(pre.workers, worker as int, WorkerState::Executing(ticket));
                    assert(running(self@.workers) =~= running(pre.workers).insert(ticket));
                    assert(finished_or_running(self@) =~= finished_or_running(pre).insert(ticket));
                    assert(self@.delivered + job_tickets(self@.queue) =~= pre.delivered + job_tickets(pre.queue));
                    assert forall|w: int| 0 <= w < self@.size && (#[trigger] self@.workers[w] is Exited || self@.workers[w] is Joined)
                        implies false by {
                        assert(pre.workers[w] == self@.workers[w]);
                        assert(pre.queue[0] is NewJob);
                    }
                    if self.size == 1 {
                        lemma_busy_single(pre.workers);
                        assert(self@.finished =~= self@.delivered.take(self@.finished.len() as int));
                    }
                }
                Delivery::Run { ticket, job }
            },
            Some(Message::Terminate) => {
                proof {
                    assert(pre.queue.drop_first() =~= self.queue@);
                    assert(pre.closed);
                    assert forall|i: int| 0 <= i < self@.queue.len() implies #[trigger] self@.queue[i] is Terminate by {
                        assert(self@.queue[i] == pre.queue[i + 1]);
                        assert(pre.queue[0] is Terminate);
                    }
                }
                self.workers.set(worker, WorkerState::Exited);
                proof {
                    if self@.no_failed() {
                        lemma_no_failed_update(pre.workers, worker as int, WorkerState::Exited);
                    }
                    lemma_running_same(pre.workers, worker as int, WorkerState::Exited);
                    assert(finished_or_running(self@) =~= finished_or_running(pre));
                }
                Delivery::Stop
            },
            None => {
                if self.closed {
                    self.workers.set(worker, WorkerState::Exited);
                    proof {
                        if self@.no_failed() {
                            lemma_no_failed_update(pre.workers, worker as int, WorkerState::Exited);
                        }
                        lemma_running_same(pre.workers, worker as int, WorkerState::Exited);
                        assert(finished_or_running(self@) =~= finished_or_running(pre));
                    }
                    Delivery::Stop
                } else {
                    Delivery::Wait
                }
            },
        }
    }

    /// Worker `worker` reports that the job it was running has returned;
    /// it is idle again. Returns that job's ticket.
    pub fn job_done(&mut self, worker: usize) -> (r: u64)
        requires
            old(self).wf(),
            worker < old(self)@.size,
            old(self)@.workers[worker as int] is Executing,
        ensures
            final(self).wf(),
            r == old(self)@.workers[worker as int]->Executing_0,
            final(self)@.workers == old(self)@.workers.update(worker as int, WorkerState::Waiting),
            final(self)@.finished == old(self)@.finished.push(r),
            final(self)@.size == old(self)@.size,
            final(self)@.queue == old(self)@.queue,
            final(self)@.closed == old(self)@.closed,
            final(self)@.submitted == old(self)@.submitted,
            final(self)@.delivered == old(self)@.delivered,
    {
        let ghost pre = self@;
        let ticket = match self.workers[worker] {
            WorkerState::Executing(t) => t,
            _ => 0,
        };
        proof {
            lemma_busy_update(pre.workers, worker as int, WorkerState::Waiting);
            assert(pre.delivered.len() <= pre.submitted) by {
                assert((pre.delivered + job_tickets(pre.queue)).len() == pre.submitted);
            }
        }
        self.workers.set(worker, WorkerState::Waiting);
        self.completed = self.completed + 1;
        self.finished = Ghost(self.finished@.push(ticket));
        proof {
            if self.size == 1 {
                assert(self@.finished =~= self@.delivered.take(self@.finished.len() as int));
            }
            if self@.no_failed() {
                lemma_no_failed_update(pre.workers, worker as int, WorkerState::Waiting);
            }
            lemma_running_update(pre.workers, worker as int, WorkerState::Waiting);
            assert(running(self@.workers).insert(ticket) =~= running(pre.workers));
            assert(self@.finished.to_multiset() =~= pre.finished.to_multiset().insert(ticket));
            assert(finished_or_running(self@) =~= finished_or_running(pre));
        }
        ticket
    }

    /// Begins shutdown: from now on submissions are refused, and one
    /// terminate message per worker is queued behind all accepted jobs, so
    /// every worker drains the backlog before it stops. Asking twice is an
    /// error that changes nothing.
    pub fn begin_shutdown(&mut self) -> (r: Result<(), PoolError>)
        requires
            old(self).wf(),
        ensures
            final(self).wf(),
            old(self)@.closed ==> r == Err::<(), PoolError>(PoolError::AlreadyShutDown) && final(self)@ == old(self)@,
            !old(self)@.closed ==> {
                &&& r is Ok
                &&& final(self)@.closed
                &&& final(self)@.queue == old(self)@.queue + Seq::new(old(self)@.size, |i: int| Message::<J>::Terminate)
                &&& final(self)@.size == old(self)@.size
                &&& final(self)@.workers == old(self)@.workers
                &&& final(self)@.submitted == old(self)@.submitted
                &&& final(self)@.delivered == old(self)@.delivered
                &&& final(self)@.finished == old(self)@.finished
            },
    {
        if self.closed {
            return Err(PoolError::AlreadyShutDown);
        }
        let ghost pre = self@;
        let ghost completed = self.completed;
        self.closed = true;
        let mut i: usize = 0;
        while i < self.size
            invariant
                self.size == pre.size,
                i <= self.size,
                self.closed,
                self.workers@ == pre.workers,
                self.next_ticket == pre.submitted,
                self.delivered@ == pre.delivered,
                self.finished@ == pre.finished,
                self.completed == completed,
                self.queue@ == pre.queue + Seq::new(i as nat, |k: int| Message::<J>::Terminate),
                job_tickets(self.queue@) == job_tickets(pre.queue),
            decreases self.size - i,
        {
            proof {
                lemma_job_tickets_push(self.queue@, Message::<J>::Terminate);
            }
            self.queue.push_back(Message::Terminate);
            i = i + 1;
            proof {
                assert(self.queue@ =~= pre.queue + Seq::new(i as nat, |k: int| Message::<J>::Terminate));
                assert(job_tickets(self.queue@) =~= job_tickets(pre.queue));
            }
        }
        proof {
            let v = self@;
            assert forall|a: int, b: int| 0 <= a < b < v.queue.len() && #[trigger] v.queue[a] is Terminate
                implies #[trigger] v.queue[b] is Terminate by {
                if a < pre.queue.len() {
                    assert(v.queue[a] == pre.queue[a]);
                }
            }
        }
        Ok(())
    }

    /// The lowest worker id whose thread has not been joined yet; `None`
    /// once every worker has been joined.
    pub fn next_join(&self) -> (r: Option<usize>)
        requires
            self.wf(),
        ensures
            r is None <==> self@.all_joined(),
            r matches Some(w) ==> w < self@.size && !is_joined(self@.workers[w as int])
                && forall|v: int| 0 <= v < w ==> is_joined(#[trigger] self@.workers[v]),
    {
        let mut i: usize = 0;
        while i < self.size
            invariant
                self.wf(),
                i <= self@.size,
                forall|v: int| 0 <= v < i ==> is_joined(#[trigger] self@.workers[v]),
            decreases self.size - i,
        {
            match self.workers[i] {
                WorkerState::Joined | WorkerState::Failed => {},
                _ => {
                    return Some(i);
                },
            }
            i = i + 1;
        }
        None
    }

    /// Records that the thread of `worker` has been joined, `clean` telling
    /// whether it ended normally. A worker that had left its loop and ended
    /// normally is joined; otherwise the failure is reported.
    pub fn record_join(&mut self, worker: usize, clean: bool) -> (r: Result<(), PoolError>)
        requires
            old(self).wf(),
            old(self)@.closed,
            worker < old(self)@.size,
            !is_joined(old(self)@.workers[worker as int]),
        ensures
            final(self).wf(),
            clean && old(self)@.workers[worker as int] == WorkerState::Exited ==> r is Ok
                && final(self)@.workers == old(self)@.workers.update(worker as int, WorkerState::Joined),
            !(clean && old(self)@.workers[worker as int] == WorkerState::Exited) ==> r == Err::<(), PoolError>(
                PoolError::JoinFailed(worker),
            ) && final(self)@.workers == old(self)@.workers.update(worker as int, WorkerState::Failed),
            final(self)@.size == old(self)@.size,
            final(self)@.queue == old(self)@.queue,
            final(self)@.closed == old(self)@.closed,
            final(self)@.submitted == old(self)@.submitted,
            final(self)@.delivered == old(self)@.delivered,
            final(self)@.finished == old(self)@.finished,
    {
        let ghost pre = self@;
        if clean && self.workers[worker] == WorkerState::Exited {
            proof {
                lemma_busy_update(pre.workers, worker as int, WorkerState::Joined);
            }
            self.workers.set(worker, WorkerState::Joined);
            proof {
                if self@.no_failed() {
                    lemma_no_failed_update(pre.workers, worker as int, WorkerState::Joined);
                }
                lemma_running_same(pre.workers, worker as int, WorkerState::Joined);
                assert(finished_or_running(self@) =~= finished_or_running(pre));
                assert(self@.size == 1 && self@.workers[0] is Executing ==> pre.workers[0] is Executing);
                assert(self@.delivered + job_tickets(self@.queue) == tickets_upto(self@.submitted));
                assert(self@.finished.len() + busy_count(self@.workers) <= self@.delivered.len());
                assert(finished_or_running(self@).subset_of(self@.delivered.to_multiset()));
                assert(self@.inv());
            }
            Ok(())
        } else {
            proof {
                lemma_busy_update(pre.workers, worker as int, WorkerState::Failed);
            }
            self.workers.set(worker, WorkerState::Failed);
            proof {
                lemma_running_update(pre.workers, worker as int, WorkerState::Failed);
                assert forall|t: u64| #[trigger] finished_or_running(self@).count(t) <= finished_or_running(pre).count(t) by {
                    assert(running(self@.workers).add(running_ticket(pre.workers[worker as int])).count(t)
                        == running(pre.workers).count(t));
                }
                assert(self@.size == 1 && self@.workers[0] is Executing ==> pre.workers[0] is Executing);
                assert(self@.delivered + job_tickets(self@.queue) == tickets_upto(self@.submitted));
                assert(self@.finished.len() + busy_count(self@.workers) <= self@.delivered.len());
                assert(finished_or_running(self@).subset_of(self@.delivered.to_multiset()));
                assert(self@.workers[worker as int] is Failed);
                assert(!self@.no_failed());
                assert(self@.inv());
            }
            Err(PoolError::JoinFailed(worker))
        }
    }

    /// Number of workers.
    pub fn size(&self) -> (r: usize)
        ensures
            r == self@.size,
    {
        self.size
    }

    /// Current state of a worker.
    pub fn worker_state(&self, worker: usize) -> (r: WorkerState)
        requires
            self.wf(),
            worker < self@.size,
        ensures
            r == self@.workers[worker as int],
    {
        self.workers[worker]
    }

    /// Whether the worker's thread may still be running.
    pub fn is_worker_live(&self, worker: usize) -> (r: bool)
        requires
            self.wf(),
            worker < self@.size,
        ensures
            r == is_live(self@.workers[worker as int]),
    {
        match self.workers[worker] {
            WorkerState::Waiting | WorkerState::Executing(_) => true,
            _ => false,
        }
    }

    /// Whether the worker's thread has been joined.
    pub fn is_worker_joined(&self, worker: usize) -> (r: bool)
        requires
            self.wf(),
            worker < self@.size,
        ensures
            r == is_joined(self@.workers[worker as int]),
    {
        match self.workers[worker] {
            WorkerState::Joined | WorkerState::Failed => true,
            _ => false,
        }
    }

    /// Whether shutdown has begun.
    pub fn is_shutting_down(&self) -> (r: bool)
        ensures
            r == self@.closed,
    {
        self.closed
    }

    /// Number of jobs accepted so far.
    pub fn submitted(&self) -> (r: u64)
        ensures
            r == self@.submitted,
    {
        self.next_ticket
    }

    /// Number of jobs that ran to completion.
    pub fn completed(&self) -> (r: u64)
        requires
            self.wf(),
        ensures
            r == self@.finished.len(),
    {
        self.completed
    }

    /// Number of messages waiting on the queue.
    pub fn pending(&self) -> (r: usize)
        ensures
            r == self@.queue.len(),
    {
        self.queue.len()
    }
}

/// Once every worker has been joined after a clean exit, each accepted job
/// was handed to exactly one worker, in ticket order, no job is left on the
/// queue, and every ticket ran to completion exactly once.
pub proof fn lemma_every_job_runs_once<J>(p: Pool<J>)
    requires
        p.wf(),
        forall|w: int| 0 <= w < p@.size ==> #[trigger] p@.workers[w] == WorkerState::Joined,
    ensures
        p@.closed,
        forall|i: int| 0 <= i < p@.queue.len() ==> #[trigger] p@.queue[i] is Terminate,
        p@.delivered == tickets_upto(p@.submitted),
        p@.finished.len() == p@.submitted,
        p@.finished.to_multiset() == tickets_upto(p@.submitted).to_multiset(),
{
    let v = p@;
    assert(v.workers[0] == WorkerState::Joined);
    lemma_job_tickets_none(v.queue);
    assert(v.delivered =~= v.delivered + job_tickets(v.queue));
    lemma_busy_none(v.workers);
    lemma_running_none(v.workers);
    assert(v.no_failed());
    assert(finished_or_running(v) =~= v.finished.to_multiset());
}

/// Jobs are handed out in the order they were submitted, whichever workers
/// take them.
pub proof fn lemma_delivery_follows_submission<J>(p: Pool<J>)
    requires
        p.wf(),
    ensures
        p@.delivered.len() <= p@.submitted,
        forall|i: int| 0 <= i < p@.delivered.len() ==> #[trigger] p@.delivered[i] == i as u64,
{
    let v = p@;
    let all = v.delivered + job_tickets(v.queue);
    assert(all == tickets_upto(v.submitted));
    assert(all.len() == v.submitted);
    assert forall|i: int| 0 <= i < v.delivered.len() implies #[trigger] v.delivered[i] == i as u64 by {
        assert(all[i] == v.delivered[i]);
        assert(tickets_upto(v.submitted)[i] == i as u64);
    }
}

/// A pool of one worker finishes its jobs strictly in submission order.
pub proof fn lemma_single_worker_keeps_order<J>(p: Pool<J>)
    requires
        p.wf(),
        p@.size == 1,
    ensures
        forall|i: int| 0 <= i < p@.finished.len() ==> #[trigger] p@.finished[i] == i as u64,
{
    lemma_delivery_follows_submission(p);
    let v = p@;
    assert forall|i: int| 0 <= i < v.finished.len() implies #[trigger] v.finished[i] == i as u64 by {
        assert(v.finished[i] == v.delivered.take(v.finished.len() as int)[i]);
    }
}

/// When every worker has been joined, shutdown has begun and no worker is
/// live any more.
pub proof fn lemma_joined_pool_has_no_live_worker<J>(p: Pool<J>)
    requires
        p.wf(),
        p@.all_joined(),
    ensures
        p@.closed,
        forall|w: int| 0 <= w < p@.size ==> !is_live(#[trigger] p@.workers[w]),
{
    assert(is_joined(p@.workers[0]));
}

} // verus!