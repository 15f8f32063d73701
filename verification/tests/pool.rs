//! The shared-queue pool model: submission never fails, every job runs,
//! and panicking jobs cost no workers.

use kvs::thread_pool::{worker_step, Job, SharedQueuePool, ThreadPoolMessage, WorkerAction};

#[test]
fn worker_runs_jobs_and_exits_on_shutdown() {
    let job = Job { id: 7, panics: false };
    assert_eq!(
        worker_step(ThreadPoolMessage::RunJob(job)),
        WorkerAction::Run(job)
    );
    assert_eq!(worker_step(ThreadPoolMessage::Shutdown), WorkerAction::Exit);
}

#[test]
fn panicking_jobs_do_not_shrink_the_pool() {
    // pool of four; eight panicking jobs, then a hundred counting jobs:
    // all hundred still execute and the pool still has four workers
    let mut pool = SharedQueuePool::new(4);
    for i in 0..8 {
        pool.spawn(Job { id: i, panics: true });
    }
    for i in 8..108 {
        pool.spawn(Job { id: i, panics: false });
    }
    pool.run_queued();
    assert_eq!(pool.worker_count(), 4);
    let record = pool.record();
    assert_eq!(record.len(), 108);
    for i in 8..108 {
        assert!(record.contains(&i), "job {} never ran", i);
    }
}

#[test]
fn jobs_run_in_submission_order() {
    let mut pool = SharedQueuePool::new(1);
    for i in 0..5 {
        pool.spawn(Job { id: i, panics: i % 2 == 0 });
    }
    pool.run_queued();
    assert_eq!(pool.record(), &vec![0, 1, 2, 3, 4]);
    assert_eq!(pool.worker_count(), 1);
}
