use std::cell::{Cell, RefCell};
use std::rc::Rc;

use workpool::pool::{Delivery, Pool, PoolError, WorkerState};

type Job = Box<dyn FnOnce()>;

/// Lets worker `worker` take one message and, for a job, run it and report
/// back. Returns false when the worker had nothing to take.
fn step(pool: &mut Pool<Job>, worker: usize) -> bool {
    if pool.worker_state(worker) != WorkerState::Waiting {
        return false;
    }
    match pool.receive(worker) {
        Delivery::Run { ticket, job } => {
            job();
            assert_eq!(pool.job_done(worker), ticket);
            true
        }
        Delivery::Stop => true,
        Delivery::Wait => false,
    }
}

/// Shuts the pool down as its owner would: terminate messages first, then
/// the workers drain the queue, then every worker is joined.
fn shut_down(pool: &mut Pool<Job>) {
    assert_eq!(pool.begin_shutdown(), Ok(()));
    let mut moved = true;
    while moved {
        moved = false;
        for w in 0..pool.size() {
            if step(pool, w) {
                moved = true;
            }
        }
    }
    while let Some(w) = pool.next_join() {
        let clean = pool.worker_state(w) == WorkerState::Exited;
        assert_eq!(pool.record_join(w, clean), Ok(()));
    }
}

#[test]
fn create_with_zero_workers_fails() {
    assert!(matches!(Pool::<Job>::create(0), Err(PoolError::Configuration)));
}

#[test]
fn create_makes_size_waiting_workers() {
    for size in [1usize, 2, 4, 9] {
        let pool = Pool::<Job>::create(size).ok().unwrap();
        assert_eq!(pool.size(), size);
        for w in 0..size {
            assert_eq!(pool.worker_state(w), WorkerState::Waiting);
            assert!(pool.is_worker_live(w));
            assert!(!pool.is_worker_joined(w));
        }
        assert_eq!(pool.pending(), 0);
        assert_eq!(pool.submitted(), 0);
        assert!(!pool.is_shutting_down());
    }
}

#[test]
fn each_job_runs_exactly_once() {
    let mut pool = Pool::<Job>::create(3).ok().unwrap();
    let counter = Rc::new(Cell::new(0u32));
    for _ in 0..7 {
        let c = counter.clone();
        pool.submit(Box::new(move || c.set(c.get() + 1))).unwrap();
    }
    step(&mut pool, 1);
    step(&mut pool, 0);
    shut_down(&mut pool);
    assert_eq!(counter.get(), 7);
    assert_eq!(pool.completed(), 7);
    assert_eq!(pool.pending(), 0);
}

#[test]
fn backlog_with_two_workers_completes_every_job() {
    let mut pool = Pool::<Job>::create(2).ok().unwrap();
    let record = Rc::new(RefCell::new(Vec::new()));
    for i in 0..10u64 {
        let r = record.clone();
        assert_eq!(pool.submit(Box::new(move || r.borrow_mut().push(i))), Ok(i));
        if i % 3 == 1 {
            step(&mut pool, 0);
        }
        if i % 4 == 2 {
            step(&mut pool, 1);
        }
    }
    shut_down(&mut pool);
    let mut seen = record.borrow().clone();
    seen.sort();
    assert_eq!(seen, (0..10u64).collect::<Vec<u64>>());
}

#[test]
fn submit_after_shutdown_is_rejected() {
    let mut pool = Pool::<Job>::create(2).ok().unwrap();
    let ran = Rc::new(Cell::new(false));
    assert_eq!(pool.begin_shutdown(), Ok(()));
    let r = ran.clone();
    assert_eq!(pool.submit(Box::new(move || r.set(true))), Err(PoolError::ShutDown));
    assert_eq!(pool.submitted(), 0);
    assert_eq!(pool.pending(), 2);
    shut_down_after_begun(&mut pool);
    assert!(!ran.get());
}

fn shut_down_after_begun(pool: &mut Pool<Job>) {
    for w in 0..pool.size() {
        assert!(step(pool, w));
    }
    while let Some(w) = pool.next_join() {
        assert_eq!(pool.record_join(w, true), Ok(()));
    }
}

#[test]
fn single_worker_runs_jobs_in_submission_order() {
    let mut pool = Pool::<Job>::create(1).ok().unwrap();
    let record = Rc::new(RefCell::new(Vec::new()));
    for i in 0..6u64 {
        let r = record.clone();
        pool.submit(Box::new(move || r.borrow_mut().push(i))).unwrap();
    }
    shut_down(&mut pool);
    assert_eq!(*record.borrow(), vec![0, 1, 2, 3, 4, 5]);
}

#[test]
fn shutdown_joins_every_worker() {
    let mut pool = Pool::<Job>::create(4).ok().unwrap();
    pool.submit(Box::new(|| {})).unwrap();
    shut_down(&mut pool);
    assert_eq!(pool.next_join(), None);
    for w in 0..4 {
        assert!(pool.is_worker_joined(w));
        assert!(!pool.is_worker_live(w));
        assert_eq!(pool.worker_state(w), WorkerState::Joined);
    }
}

#[test]
fn terminate_messages_queue_behind_jobs() {
    let mut pool = Pool::<Job>::create(3).ok().unwrap();
    pool.submit(Box::new(|| {})).unwrap();
    pool.submit(Box::new(|| {})).unwrap();
    assert_eq!(pool.begin_shutdown(), Ok(()));
    assert!(pool.is_shutting_down());
    assert_eq!(pool.pending(), 5);
    assert!(matches!(pool.receive(2), Delivery::Run { ticket: 0, .. }));
    assert!(matches!(pool.receive(0), Delivery::Run { ticket: 1, .. }));
    assert!(matches!(pool.receive(1), Delivery::Stop));
    assert_eq!(pool.worker_state(1), WorkerState::Exited);
    assert_eq!(pool.pending(), 2);
}

#[test]
fn second_shutdown_is_rejected() {
    let mut pool = Pool::<Job>::create(2).ok().unwrap();
    assert_eq!(pool.begin_shutdown(), Ok(()));
    assert_eq!(pool.begin_shutdown(), Err(PoolError::AlreadyShutDown));
    assert_eq!(pool.pending(), 2);
}

#[test]
fn idle_worker_waits_before_shutdown() {
    let mut pool = Pool::<Job>::create(2).ok().unwrap();
    assert!(matches!(pool.receive(0), Delivery::Wait));
    assert_eq!(pool.worker_state(0), WorkerState::Waiting);
}

#[test]
fn failed_join_is_reported() {
    let mut pool = Pool::<Job>::create(2).ok().unwrap();
    pool.submit(Box::new(|| {})).unwrap();
    assert!(matches!(pool.receive(0), Delivery::Run { ticket: 0, .. }));
    assert_eq!(pool.begin_shutdown(), Ok(()));
    assert!(matches!(pool.receive(1), Delivery::Stop));
    assert_eq!(pool.next_join(), Some(0));
    assert_eq!(pool.record_join(0, false), Err(PoolError::JoinFailed(0)));
    assert_eq!(pool.worker_state(0), WorkerState::Failed);
    assert_eq!(pool.next_join(), Some(1));
    assert_eq!(pool.record_join(1, true), Ok(()));
    assert_eq!(pool.next_join(), None);
    assert_eq!(pool.completed(), 0);
}

#[test]
fn unclean_end_of_a_worker_that_never_exited_is_a_failure() {
    let mut pool = Pool::<Job>::create(1).ok().unwrap();
    assert_eq!(pool.begin_shutdown(), Ok(()));
    assert_eq!(pool.record_join(0, true), Err(PoolError::JoinFailed(0)));
}
