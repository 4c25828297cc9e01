//! The rules of a fixed-size worker pool: how many workers it may have, and
//! the queue through which jobs are handed to them.
//!
//! The queue is sequential. A pool shares one queue among its workers and
//! lets one of them at a time touch it; what is proved here then holds of
//! every order in which submissions and takes reach the queue.

use std::collections::VecDeque;
use vstd::prelude::*;

verus! {

/// Whether a pool may have `n` workers: at least one, and fewer than 256.
pub open spec fn worker_count_ok(n: nat) -> bool {
    1 <= n < 256
}

/// Decides [`worker_count_ok`].
pub fn worker_count_is_valid(n_workers: usize) -> (r: bool)
    ensures
        r == worker_count_ok(n_workers as nat),
{
    n_workers > 0 && n_workers < 256
}

/// What a queue holds: the jobs that wait, oldest first, and whether it
/// still accepts jobs.
pub struct QueueState<J> {
    pub waiting: Seq<J>,
    pub open: bool,
}

/// What a worker gets when it asks the queue for a job.
pub enum Taken<J> {
    /// The oldest waiting job, which has left the queue.
    Job(J),
    /// Nothing waits, but jobs may still come: the worker waits.
    Empty,
    /// Nothing waits and nothing will come: the worker exits.
    Closed,
}

/// The queue after `job` was submitted: a closed queue is left as it was.
pub open spec fn after_submit<J>(q: QueueState<J>, job: J) -> QueueState<J> {
    if q.open {
        QueueState { waiting: q.waiting.push(job), open: true }
    } else {
        q
    }
}

/// What a worker is given by the queue `q`.
pub open spec fn take_outcome<J>(q: QueueState<J>) -> Taken<J> {
    if q.waiting.len() > 0 {
        Taken::Job(q.waiting[0])
    } else if q.open {
        Taken::Empty
    } else {
        Taken::Closed
    }
}

/// The queue after a worker asked it for a job.
pub open spec fn after_take<J>(q: QueueState<J>) -> QueueState<J> {
    if q.waiting.len() > 0 {
        QueueState { waiting: q.waiting.subrange(1, q.waiting.len() as int), open: q.open }
    } else {
        q
    }
}

/// The queue after it was closed: what waits stays.
pub open spec fn after_close<J>(q: QueueState<J>) -> QueueState<J> {
    QueueState { waiting: q.waiting, open: false }
}

/// One thing that happens to a queue.
pub enum Operation<J> {
    Submit(J),
    Take,
    Close,
}

/// A queue with the record of what it accepted and what it handed out.
pub struct Run<J> {
    pub state: QueueState<J>,
    /// The jobs that were accepted, in the order of their submission.
    pub accepted: Seq<J>,
    /// The jobs that were handed to workers, in the order of the takes.
    pub delivered: Seq<J>,
}

/// A new queue after the operations `ops`, in order.
pub open spec fn run<J>(ops: Seq<Operation<J>>) -> Run<J>
    decreases ops.len(),
{
    if ops.len() == 0 {
        Run {
            state: QueueState { waiting: Seq::empty(), open: true },
            accepted: Seq::empty(),
            delivered: Seq::empty(),
        }
    } else {
        let before = run(ops.drop_last());
        match ops.last() {
            Operation::Submit(job) => Run {
                state: after_submit(before.state, job),
                accepted: if before.state.open {
                    before.accepted.push(job)
                } else {
                    before.accepted
                },
                delivered: before.delivered,
            },
            Operation::Take => Run {
                state: after_take(before.state),
                accepted: before.accepted,
                delivered: match take_outcome(before.state) {
                    Taken::Job(job) => before.delivered.push(job),
                    _ => before.delivered,
                },
            },
            Operation::Close => Run {
                state: after_close(before.state),
                accepted: before.accepted,
                delivered: before.delivered,
            },
        }
    }
}

/// Whatever the order of submissions, takes and closing: the jobs handed out
/// so far, followed by the jobs that still wait, are the accepted jobs in the
/// order of their submission. So every accepted job is handed out at most
/// once, none is lost, and none is handed out that was not submitted.
pub proof fn lemma_every_job_once<J>(ops: Seq<Operation<J>>)
    ensures
        run(ops).delivered + run(ops).state.waiting == run(ops).accepted,
    decreases ops.len(),
{
    if ops.len() == 0 {
        assert(run(ops).delivered + run(ops).state.waiting =~= run(ops).accepted);
    } else {
        lemma_every_job_once(ops.drop_last());
        let before = run(ops.drop_last());
        assert(before.delivered + before.state.waiting == before.accepted);
        assert(run(ops).delivered + run(ops).state.waiting =~= run(ops).accepted);
    }
}

/// The operations that submit `jobs`, in order.
pub open spec fn submissions<J>(jobs: Seq<J>) -> Seq<Operation<J>> {
    Seq::new(jobs.len(), |i: int| Operation::Submit(jobs[i]))
}

/// The operations of `count` takes.
pub open spec fn takes<J>(count: nat) -> Seq<Operation<J>> {
    Seq::new(count, |i: int| Operation::Take)
}

/// A new queue accepts every job submitted to it and keeps them in order.
pub proof fn lemma_all_accepted<J>(jobs: Seq<J>)
    ensures
        run(submissions(jobs)) == (Run {
            state: QueueState { waiting: jobs, open: true },
            accepted: jobs,
            delivered: Seq::empty(),
        }),
    decreases jobs.len(),
{
    if jobs.len() == 0 {
        assert(jobs =~= Seq::<J>::empty());
    } else {
        lemma_all_accepted(jobs.drop_last());
        assert(submissions(jobs).drop_last() =~= submissions(jobs.drop_last()));
        assert(submissions(jobs).last() == Operation::Submit(jobs.last()));
        assert(jobs.drop_last().push(jobs.last()) =~= jobs);
    }
}

/// After `jobs` were submitted to a new queue, the first `count` takes hand
/// out the first `count` jobs, in the order of their submission, and the
/// others still wait. With as many takes as jobs, every job was handed out
/// exactly once.
pub proof fn lemma_submitted_jobs_are_delivered<J>(jobs: Seq<J>, count: nat)
    requires
        count <= jobs.len(),
    ensures
        run(submissions(jobs) + takes(count)) == (Run {
            state: QueueState { waiting: jobs.skip(count as int), open: true },
            accepted: jobs,
            delivered: jobs.take(count as int),
        }),
        count == jobs.len() ==> run(submissions(jobs) + takes(count)).delivered == jobs,
    decreases count,
{
    let ops = submissions(jobs) + takes::<J>(count);
    if count == 0 {
        lemma_all_accepted(jobs);
        assert(ops =~= submissions(jobs));
        assert(jobs.skip(0) =~= jobs);
        assert(jobs.take(0) =~= Seq::<J>::empty());
    } else {
        let fewer = (count - 1) as nat;
        lemma_submitted_jobs_are_delivered(jobs, fewer);
        assert(ops.drop_last() =~= submissions(jobs) + takes::<J>(fewer));
        assert(ops.last() == Operation::<J>::Take);
        let before = run(ops.drop_last());
        assert(before.state.waiting[0] == jobs[count - 1]);
        assert(before.state.waiting.subrange(1, before.state.waiting.len() as int) =~= jobs.skip(
            count as int,
        ));
        assert(jobs.take(count - 1).push(jobs[count - 1]) =~= jobs.take(count as int));
    }
    if count == jobs.len() {
        assert(jobs.take(count as int) =~= jobs);
    }
}

/// Once nothing waits in a closed queue, every later take reports that it is
/// closed, and no later submission is accepted.
pub proof fn lemma_closed_stays_closed<J>(q: QueueState<J>, job: J)
    requires
        !q.open,
        q.waiting.len() == 0,
    ensures
        take_outcome(q) == Taken::<J>::Closed,
        after_take(q) == q,
        after_submit(q, job) == q,
{
}

/// The queue of jobs of a pool: first in, first out.
pub struct JobQueue<J> {
    waiting: VecDeque<J>,
    open: bool,
}

impl<J> View for JobQueue<J> {
    type V = QueueState<J>;

    closed spec fn view(&self) -> QueueState<J> {
        QueueState { waiting: self.waiting@, open: self.open }
    }
}

impl<J> JobQueue<J> {
    /// An open queue in which nothing waits.
    pub fn new() -> (q: JobQueue<J>)
        ensures
            q@ == (QueueState { waiting: Seq::<J>::empty(), open: true }),
    {
        JobQueue { waiting: VecDeque::new(), open: true }
    }

    /// Puts `job` behind the jobs that wait. A closed queue accepts nothing
    /// and hands the job back.
    pub fn submit(&mut self, job: J) -> (r: Result<(), J>)
        ensures
            final(self)@ == after_submit(old(self)@, job),
            old(self)@.open ==> r == Ok::<(), J>(()),
            !old(self)@.open ==> r == Err::<(), J>(job),
    {
        if self.open {
            self.waiting.push_back(job);
            Ok(())
        } else {
            Err(job)
        }
    }

    /// Hands out the oldest waiting job, if there is one; what waits in a
    /// closed queue is still handed out.
    pub fn take(&mut self) -> (r: Taken<J>)
        ensures
            r == take_outcome(old(self)@),
            final(self)@ == after_take(old(self)@),
    {
        match self.waiting.pop_front() {
            Some(job) => Taken::Job(job),
            None => if self.open {
                Taken::Empty
            } else {
                Taken::Closed
            },
        }
    }

    /// Closes the queue: it accepts no further job.
    pub fn close(&mut self)
        ensures
            final(self)@ == after_close(old(self)@),
    {
        self.open = false;
    }

    /// Whether the queue still accepts jobs.
    pub fn is_open(&self) -> (r: bool)
        ensures
            r == self@.open,
    {
        self.open
    }

    /// How many jobs wait.
    pub fn len(&self) -> (r: usize)
        ensures
            r == self@.waiting.len(),
    {
        self.waiting.len()
    }
}

} // verus!
