//! The pool's decisions, one step at a time.

use bounded_pool::affinity::cpu_mask;
use bounded_pool::bounded::{
    CpuIdError, ParallelismBoundedThreadPool, Pin, PinError, ScopeEnd, TaskData, WorkStep,
    WorkerState,
};
use bounded_pool::count_down_latch::build_count_down_latch;
use bounded_pool::logical_processor::LogicalProcessors;
use bounded_pool::semaphore::Semaphore;
use nix::sched::CpuSet;

fn tids(num_threads: usize) -> Vec<i32> {
    (0..num_threads).map(|t| 1000 + t as i32).collect()
}

fn new_pool(cpu_ids: &[Option<u32>], num_threads: usize) -> ParallelismBoundedThreadPool {
    ParallelismBoundedThreadPool::new(cpu_ids, &tids(num_threads)).unwrap()
}

fn begin(pool: &mut ParallelismBoundedThreadPool, thread_idx: usize) -> TaskData {
    match pool.begin_work(thread_idx) {
        Some(WorkStep::Run(data)) => data,
        step => panic!("{:?}", step),
    }
}

fn exit(pool: &mut ParallelismBoundedThreadPool, thread_idx: usize) -> Option<usize> {
    match pool.begin_work(thread_idx) {
        Some(WorkStep::Exit(started)) => started,
        step => panic!("{:?}", step),
    }
}

/// The thread is done with the task, and the next one is bound if it has to be.
fn end(pool: &mut ParallelismBoundedThreadPool, thread_idx: usize) -> Option<usize> {
    pool.end_work(thread_idx, false, true).unwrap()
}

fn members(cpus: &CpuSet) -> Vec<usize> {
    (0..CpuSet::count()).filter(|&cpu| cpus.is_set(cpu).unwrap()).collect()
}

fn pin_of(pin: Option<Pin>) -> Option<(i32, Vec<usize>)> {
    pin.map(|pin| (pin.tid, members(&pin.cpus)))
}

/// Runs one round, always letting the thread at `pick` of the started ones go next. Gives the
/// threads in the order in which they ran, with their processors.
fn round(
    pool: &mut ParallelismBoundedThreadPool,
    pick: impl Fn(usize) -> usize,
    panics: impl Fn(usize) -> bool,
) -> Vec<(usize, usize)> {
    let mut started: Vec<usize> = pool.scope().run();
    let mut ran = Vec::new();
    while !started.is_empty() {
        assert_eq!(pool.end_scope(), ScopeEnd::Pending);
        let thread_idx = started.remove(pick(started.len()));
        let data = begin(pool, thread_idx);
        assert_eq!(data.thread_idx, thread_idx);
        ran.push((thread_idx, data.processor_idx));
        if let Some(next) = pool.end_work(thread_idx, panics(thread_idx), true).unwrap() {
            started.push(next);
        }
    }
    ran
}

#[test]
fn threads_are_dealt_in_turn() {
    let mut pool = new_pool(&[None, None, None], 7);
    assert_eq!(pool.num_processors(), 3);
    assert_eq!(pool.num_threads(), 7);
    let ran = round(&mut pool, |_| 0, |_| false);
    assert_eq!(ran, vec![(0, 0), (1, 1), (2, 2), (3, 0), (4, 1), (5, 2), (6, 0)]);
    assert_eq!(pool.end_scope(), ScopeEnd::Finished { panicked: false });
}

#[test]
fn no_more_processors_than_threads() {
    let pool = new_pool(&vec![None; 100], 4);
    assert_eq!(pool.num_processors(), 4);
    assert_eq!(pool.num_threads(), 4);
}

#[test]
fn no_threads() {
    let mut pool = new_pool(&[], 0);
    assert_eq!(pool.num_processors(), 0);
    assert_eq!(pool.num_threads(), 0);
    assert_eq!(pool.end_scope(), ScopeEnd::NoTask);
    assert!(pool.scope().run().is_empty());
    assert!(pool.has_task());
    assert_eq!(pool.end_scope(), ScopeEnd::Finished { panicked: false });
    assert!(!pool.has_task());
    assert!(pool.join());
}

#[test]
fn every_order_runs_each_thread_once() {
    for order in 0..4 {
        let mut pool = new_pool(&[None, None, None], 11);
        for _ in 0..4 {
            let mut ran = round(
                &mut pool,
                |len| match order {
                    0 => 0,
                    1 => len - 1,
                    2 => len / 2,
                    _ => (len * 7 + 3) % len,
                },
                |_| false,
            );
            assert_eq!(ran.len(), 11);
            ran.sort();
            let threads: Vec<usize> = ran.iter().map(|r| r.0).collect();
            assert_eq!(threads, (0..11).collect::<Vec<_>>());
            assert_eq!(pool.end_scope(), ScopeEnd::Finished { panicked: false });
        }
    }
}

#[test]
fn idle_processor_takes_over_a_thread() {
    let mut pool = new_pool(&[Some(3), Some(5)], 4);
    assert_eq!(pool.scope().run(), vec![0, 1]);

    assert_eq!(
        begin(&mut pool, 0),
        TaskData { thread_idx: 0, processor_idx: 0, cpu_id: Some(3) }
    );
    assert!(pool.next_pin(0).is_none());
    assert_eq!(end(&mut pool, 0), Some(2));
    begin(&mut pool, 2);

    // processor 0 has no thread left, so it takes over the one that waits for processor 1
    assert_eq!(pin_of(pool.next_pin(2)), Some((1003, vec![3])));
    assert_eq!(end(&mut pool, 2), Some(3));
    assert_eq!(
        begin(&mut pool, 3),
        TaskData { thread_idx: 3, processor_idx: 0, cpu_id: Some(3) }
    );
    assert!(end(&mut pool, 3).is_none());
    assert_eq!(pool.end_scope(), ScopeEnd::Pending);
    assert_eq!(
        begin(&mut pool, 1),
        TaskData { thread_idx: 1, processor_idx: 1, cpu_id: Some(5) }
    );
    assert_eq!(pool.end_scope(), ScopeEnd::Pending);
    assert!(end(&mut pool, 1).is_none());
    assert_eq!(pool.end_scope(), ScopeEnd::Finished { panicked: false });

    // the thread stays where it was run
    let pins: Vec<_> = pool.affinities().into_iter().map(pin_of).collect();
    assert_eq!(
        pins,
        vec![
            Some((1000, vec![3])),
            Some((1001, vec![5])),
            Some((1002, vec![3])),
            Some((1003, vec![3])),
        ]
    );
    let ran = round(&mut pool, |_| 0, |_| false);
    assert_eq!(ran, vec![(0, 0), (1, 1), (2, 0), (3, 1)]);
}

#[test]
fn taken_over_without_cpu_id_is_not_bound() {
    let mut pool = new_pool(&[None, Some(5)], 4);
    pool.scope().run();
    begin(&mut pool, 0);
    end(&mut pool, 0);
    begin(&mut pool, 2);
    assert!(pool.next_pin(2).is_none());
    // where no thread has to be bound, it does not matter that none was
    assert_eq!(pool.end_work(2, false, false), Ok(Some(3)));
    // it is still bound to the processor that it was bound to before
    assert_eq!(pin_of(pool.affinities()[3]), Some((1003, vec![5])));
    assert_eq!(
        begin(&mut pool, 3),
        TaskData { thread_idx: 3, processor_idx: 0, cpu_id: None }
    );
}

#[test]
fn new_pool_binds_every_thread() {
    let pool = new_pool(&[Some(0), None, Some(7)], 5);
    let pins: Vec<_> = pool.affinities().into_iter().map(pin_of).collect();
    assert_eq!(
        pins,
        vec![
            Some((1000, vec![0])),
            None,
            Some((1002, vec![7])),
            Some((1003, vec![0])),
            None,
        ]
    );
}

#[test]
fn cpu_id_out_of_range() {
    let too_large = CpuSet::count() as u32;
    let result = ParallelismBoundedThreadPool::new(
        &[Some(0), Some(too_large), Some(u32::MAX)],
        &tids(3),
    );
    assert_eq!(result.err(), Some(CpuIdError { cpu_id: too_large }));

    // a CPU id that no processor is made for does not matter
    assert!(ParallelismBoundedThreadPool::new(&[Some(0), Some(u32::MAX)], &tids(1)).is_ok());
    assert!(ParallelismBoundedThreadPool::new(&[Some(too_large - 1)], &tids(1)).is_ok());
}

#[test]
fn mask_holds_one_cpu() {
    assert_eq!(members(&cpu_mask(0).unwrap()), vec![0]);
    assert_eq!(members(&cpu_mask(9).unwrap()), vec![9]);
    let last = CpuSet::count() - 1;
    assert_eq!(members(&cpu_mask(last as u32).unwrap()), vec![last]);
    assert!(cpu_mask(CpuSet::count() as u32).is_none());
    assert!(cpu_mask(u32::MAX).is_none());
}

#[test]
fn thread_without_permit_waits() {
    let mut pool = new_pool(&[None], 2);
    assert!(pool.begin_work(0).is_none());
    pool.scope().run();
    assert!(pool.begin_work(1).is_none());
    assert_eq!(pool.worker_state(0), WorkerState::Waiting);
    begin(&mut pool, 0);
    assert_eq!(pool.worker_state(0), WorkerState::Working);
    assert!(pool.begin_work(1).is_none());
    assert_eq!(end(&mut pool, 0), Some(1));
    assert_eq!(pool.worker_state(0), WorkerState::Waiting);
    assert!(pool.begin_work(0).is_none());
    begin(&mut pool, 1);
    assert!(end(&mut pool, 1).is_none());
    assert_eq!(pool.end_scope(), ScopeEnd::Finished { panicked: false });
}

#[test]
fn scope_without_task() {
    let mut pool = new_pool(&[None, None], 4);
    assert_eq!(pool.end_scope(), ScopeEnd::NoTask);
    let ran = round(&mut pool, |_| 0, |_| false);
    assert_eq!(ran.len(), 4);
    assert_eq!(pool.end_scope(), ScopeEnd::Finished { panicked: false });
    assert_eq!(pool.end_scope(), ScopeEnd::NoTask);
}

#[test]
fn panic_poisons_and_does_not_hold_up_the_round() {
    let mut pool = new_pool(&[None, None], 6);
    let ran = round(&mut pool, |_| 0, |t| t == 2 || t == 3);
    assert_eq!(ran.len(), 6);
    assert!(pool.has_thread_panicked());
    assert_eq!(pool.end_scope(), ScopeEnd::Finished { panicked: true });
    assert!(pool.has_thread_panicked());
    assert_eq!(pool.worker_state(2), WorkerState::Ended);
    assert_eq!(pool.worker_state(3), WorkerState::Ended);

    // the threads that are left can still be joined
    assert!(!pool.join());
    for thread_idx in [0, 1, 4, 5] {
        exit(&mut pool, thread_idx);
    }
    for thread_idx in 0..6 {
        assert_eq!(pool.worker_state(thread_idx), WorkerState::Ended);
    }
}

#[test]
fn join_ends_every_thread_in_any_order() {
    for order in [[0, 1, 2, 3, 4], [4, 3, 2, 1, 0], [1, 3, 0, 4, 2]] {
        let mut pool = new_pool(&[Some(0), Some(1)], 5);
        round(&mut pool, |len| len - 1, |_| false);
        assert_eq!(pool.end_scope(), ScopeEnd::Finished { panicked: false });
        let before: Vec<_> = pool.affinities().into_iter().map(pin_of).collect();

        assert!(pool.join());
        for thread_idx in order {
            assert!(pool.next_pin(thread_idx).is_none());
            assert!(exit(&mut pool, thread_idx).is_some());
            assert_eq!(pool.worker_state(thread_idx), WorkerState::Ended);
        }
        let after: Vec<_> = pool.affinities().into_iter().map(pin_of).collect();
        assert_eq!(before, after);
    }
}

#[test]
fn next_worker_goes_round_the_ring() {
    let mut lps = LogicalProcessors::new(&[None, Some(1), None, Some(3)]);
    assert_eq!(lps.len(), 4);
    assert_eq!(lps.cpu_id(1), Some(1));
    assert_eq!(lps.cpu_id(2), None);
    assert_eq!(lps.next_worker(2), None);

    lps.add_worker(1, 10);
    lps.add_worker(1, 11);
    lps.add_worker(3, 30);
    assert_eq!(lps.peek_worker(1), Some((10, 1)));
    assert_eq!(lps.peek_worker(2), Some((30, 3)));
    assert_eq!(lps.peek_worker(0), Some((10, 1)));
    assert_eq!(lps.next_worker(1), Some((10, 1)));
    assert_eq!(lps.next_worker(2), Some((30, 3)));
    assert_eq!(lps.next_worker(2), Some((11, 1)));
    assert_eq!(lps.next_worker(2), None);

    lps.reset();
    assert_eq!(lps.next_worker(0), Some((10, 1)));
    assert_eq!(lps.next_worker(0), Some((30, 2)));
    assert_eq!(lps.next_worker(0), Some((11, 2)));
    assert_eq!(lps.next_worker(0), None);
}

#[test]
fn semaphore_counts_permits() {
    let mut semaphore = Semaphore::new(1);
    assert!(semaphore.try_wait());
    assert!(!semaphore.try_wait());
    semaphore.post();
    semaphore.post();
    assert!(semaphore.try_wait());
    assert!(semaphore.try_wait());
    assert!(!semaphore.try_wait());
}

#[test]
fn latch_opens_each_round() {
    let mut latch = build_count_down_latch(2);
    assert!(!latch.try_wait());
    latch.count_down();
    assert!(!latch.try_wait());
    latch.count_down();
    assert!(latch.try_wait());

    assert!(!latch.try_wait());
    latch.drop_counter();
    assert!(!latch.try_wait());
    latch.count_down();
    assert!(latch.try_wait());

    latch.count_down();
    assert!(latch.try_wait());
}

#[test]
fn threads_without_a_processor_poison_the_pool() {
    let mut pool = new_pool(&[], 2);
    assert_eq!(pool.num_processors(), 0);
    assert_eq!(pool.num_threads(), 2);
    assert!(pool.affinities().is_empty());
    assert!(!pool.has_thread_panicked());

    // a task that is set before the threads have panicked starts nothing and waits for them
    assert!(pool.scope().run().is_empty());
    assert_eq!(pool.end_scope(), ScopeEnd::Pending);
    assert!(!pool.enter_work_loop(1));
    assert!(pool.has_thread_panicked());
    assert_eq!(pool.end_scope(), ScopeEnd::Pending);
    assert!(!pool.enter_work_loop(0));
    assert_eq!(pool.end_scope(), ScopeEnd::Finished { panicked: true });
    assert_eq!(pool.num_threads(), 2);
    assert!(!pool.join());
}

#[test]
fn threads_with_a_processor_enter_their_work_loop() {
    let mut pool = new_pool(&[None], 3);
    for thread_idx in 0..3 {
        assert!(pool.enter_work_loop(thread_idx));
    }
    assert!(!pool.has_thread_panicked());
    assert_eq!(round(&mut pool, |_| 0, |_| false), vec![(0, 0), (1, 0), (2, 0)]);
}

#[test]
fn thread_that_moves_twice_is_bound_to_the_last_processor() {
    let mut pool = new_pool(&[Some(3), Some(5)], 4);

    // in the first round thread 3 moves to processor 0
    pool.scope().run();
    for thread_idx in [0, 2, 3] {
        begin(&mut pool, thread_idx);
        end(&mut pool, thread_idx);
    }
    begin(&mut pool, 1);
    end(&mut pool, 1);
    assert_eq!(pool.end_scope(), ScopeEnd::Finished { panicked: false });
    assert_eq!(pin_of(pool.affinities()[3]), Some((1003, vec![3])));

    // in the second round it moves back to processor 1
    pool.scope().run();
    begin(&mut pool, 1);
    assert_eq!(pin_of(pool.next_pin(1)), Some((1002, vec![5])));
    assert_eq!(end(&mut pool, 1), Some(2));
    begin(&mut pool, 2);
    assert_eq!(pin_of(pool.next_pin(2)), Some((1003, vec![5])));
    assert_eq!(end(&mut pool, 2), Some(3));
    assert_eq!(
        begin(&mut pool, 3),
        TaskData { thread_idx: 3, processor_idx: 1, cpu_id: Some(5) }
    );
    assert_eq!(pin_of(pool.affinities()[3]), Some((1003, vec![5])));
}

#[test]
fn thread_that_cannot_be_bound_is_not_moved() {
    let mut pool = new_pool(&[Some(3), Some(5)], 4);
    pool.scope().run();
    begin(&mut pool, 0);
    end(&mut pool, 0);
    begin(&mut pool, 2);

    // processor 0 takes over thread 3, which cannot be bound
    assert_eq!(pin_of(pool.next_pin(2)), Some((1003, vec![3])));
    assert_eq!(pool.end_work(2, false, false), Err(PinError { thread_idx: 3 }));
    assert!(pool.has_thread_panicked());
    assert_eq!(pool.worker_state(2), WorkerState::Ended);

    // it is bound as before, and was not started
    assert_eq!(pin_of(pool.affinities()[3]), Some((1003, vec![5])));
    assert_eq!(pool.worker_state(3), WorkerState::Waiting);
    assert!(pool.begin_work(3).is_none());

    // the thread on the other processor finds none to start, and the round never ends
    assert_eq!(
        begin(&mut pool, 1),
        TaskData { thread_idx: 1, processor_idx: 1, cpu_id: Some(5) }
    );
    assert!(pool.next_pin(1).is_none());
    assert_eq!(end(&mut pool, 1), None);
    assert!(pool.begin_work(3).is_none());
    assert_eq!(pool.end_scope(), ScopeEnd::Pending);
    assert_eq!(pool.end_scope(), ScopeEnd::Pending);
}

#[test]
fn failed_binding_leaves_the_other_threads_running() {
    let mut pool = new_pool(&[Some(0), Some(1), Some(2)], 9);
    pool.scope().run();
    for thread_idx in [0, 3] {
        begin(&mut pool, thread_idx);
        end(&mut pool, thread_idx);
    }
    begin(&mut pool, 6);
    assert_eq!(pin_of(pool.next_pin(6)), Some((1004, vec![0])));
    assert_eq!(pool.end_work(6, false, false), Err(PinError { thread_idx: 4 }));

    // every other thread still runs the task on a processor that it is bound to
    let mut started = vec![1, 2];
    let mut ran = vec![];
    while let Some(thread_idx) = started.pop() {
        let data = begin(&mut pool, thread_idx);
        ran.push(thread_idx);
        assert_eq!(
            pin_of(pool.affinities()[thread_idx]),
            Some((1000 + thread_idx as i32, vec![data.processor_idx]))
        );
        started.extend(end(&mut pool, thread_idx));
    }
    ran.sort();
    assert_eq!(ran, vec![1, 2, 5, 7, 8]);
    assert_eq!(pool.end_scope(), ScopeEnd::Pending);
}

#[test]
fn panicking_thread_moves_a_bound_thread() {
    let mut pool = new_pool(&[Some(3), Some(5)], 3);
    pool.scope().run();
    begin(&mut pool, 1);
    assert_eq!(pin_of(pool.next_pin(1)), Some((1002, vec![5])));
    assert_eq!(pool.end_work(1, true, true), Ok(Some(2)));
    assert_eq!(pool.worker_state(1), WorkerState::Ended);
    assert!(pool.has_thread_panicked());
    assert_eq!(pin_of(pool.affinities()[2]), Some((1002, vec![5])));
    assert_eq!(
        begin(&mut pool, 2),
        TaskData { thread_idx: 2, processor_idx: 1, cpu_id: Some(5) }
    );
}
