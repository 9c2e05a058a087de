//! The pool with real threads: each scope runs one thread per pool thread.

use std::sync::atomic::{AtomicBool, AtomicU32, Ordering};
use std::sync::{Arc, Condvar, Mutex};
use std::time::Duration;

use bounded_pool::bounded::{ParallelismBoundedThreadPool, ScopeEnd, TaskData, WorkStep};

/// A pool that its threads share.
struct ThreadedPool {
    pool: Mutex<ParallelismBoundedThreadPool>,
    changed: Condvar,
}

/// Runs a task in an open scope.
struct Runner<'a, 'env> {
    pool: &'env ThreadedPool,
    threads: &'a crossbeam::thread::Scope<'env>,
}

impl ThreadedPool {
    fn new(cpu_ids: &[Option<u32>], num_threads: usize) -> Self {
        let tids: Vec<i32> = (0..num_threads).map(|t| 1000 + t as i32).collect();
        let mut pool = ParallelismBoundedThreadPool::new(cpu_ids, &tids).unwrap();
        for thread_idx in 0..num_threads {
            assert!(pool.enter_work_loop(thread_idx));
        }
        ThreadedPool { pool: Mutex::new(pool), changed: Condvar::new() }
    }

    /// Opens a scope, does `in_scope` in it, and leaves it as soon as the pool allows it. Only then
    /// are the threads joined.
    fn scope<'env>(&'env self, in_scope: impl FnOnce(Runner<'_, 'env>) + 'env) {
        let panicked = crossbeam::thread::scope(|threads| {
            {
                let mut pool = self.pool.lock().unwrap();
                assert!(!pool.has_thread_panicked() && !pool.has_task());
                let _runner = pool.scope();
            }
            in_scope(Runner { pool: self, threads });
            self.leave()
        })
        .unwrap();
        if panicked {
            panic!("A work thread panicked");
        }
    }

    /// Waits until the scope can be left. Gives whether a thread panicked.
    fn leave(&self) -> bool {
        let mut pool = self.pool.lock().unwrap();
        loop {
            match pool.end_scope() {
                ScopeEnd::NoTask => return false,
                ScopeEnd::Pending => pool = self.changed.wait(pool).unwrap(),
                ScopeEnd::Finished { panicked } => return panicked,
            }
        }
    }

    /// One round of the work loop of a thread.
    fn work(&self, thread_idx: usize, task: &(impl Fn(&TaskData) + Sync)) {
        let mut pool = self.pool.lock().unwrap();
        let step = loop {
            match pool.begin_work(thread_idx) {
                Some(step) => break step,
                None => pool = self.changed.wait(pool).unwrap(),
            }
        };
        drop(pool);
        let data = match step {
            WorkStep::Run(data) => data,
            WorkStep::Exit(_) => panic!("the pool stopped during a task"),
        };
        assert_eq!(data.thread_idx, thread_idx);
        let result = crossbeam::thread::scope(|inner| inner.spawn(|_| task(&data)).join());
        let panicked = result.unwrap().is_err();
        self.pool.lock().unwrap().end_work(thread_idx, panicked, true).unwrap();
        self.changed.notify_all();
    }
}

impl<'a, 'env> Runner<'a, 'env> {
    /// Lets the threads run the task, and returns while they do.
    fn run(self, task: impl Fn(&TaskData) + Send + Sync + 'env) {
        let shared = self.pool;
        let task = Arc::new(task);
        let num_threads = {
            let mut pool = shared.pool.lock().unwrap();
            let started = pool.scope().run();
            assert_eq!(started.len(), pool.num_processors());
            pool.num_threads()
        };
        for thread_idx in 0..num_threads {
            let task = Arc::clone(&task);
            self.threads.spawn(move |_| shared.work(thread_idx, &*task));
        }
    }
}

#[test]
fn test_scope() {
    let pool = ThreadedPool::new(&[None, None], 4);

    let mut counter = 0u32;
    for _ in 0..3 {
        pool.scope(|_| {
            counter += 1;
        });
    }

    assert_eq!(counter, 3);
}

#[test]
fn test_run() {
    let pool = ThreadedPool::new(&[None, None], 4);

    let counter = AtomicU32::new(0);
    for _ in 0..3 {
        pool.scope(|s| {
            s.run(|_| {
                counter.fetch_add(1, Ordering::SeqCst);
            });
        });
    }

    assert_eq!(counter.load(Ordering::SeqCst), 12);
}

#[test]
fn test_pinning() {
    let pool = ThreadedPool::new(&[Some(0), Some(1)], 4);

    let counter = AtomicU32::new(0);
    for _ in 0..3 {
        pool.scope(|s| {
            s.run(|_| {
                counter.fetch_add(1, Ordering::SeqCst);
            });
        });
    }

    assert_eq!(counter.load(Ordering::SeqCst), 12);
}

#[test]
fn test_large_parallelism() {
    let pool = ThreadedPool::new(&vec![None; 100], 4);

    let counter = AtomicU32::new(0);
    for _ in 0..3 {
        pool.scope(|s| {
            s.run(|_| {
                counter.fetch_add(1, Ordering::SeqCst);
            });
        });
    }

    assert_eq!(counter.load(Ordering::SeqCst), 12);
}

#[test]
fn test_large_num_threads() {
    let pool = ThreadedPool::new(&[None, None], 100);

    let counter = AtomicU32::new(0);
    for _ in 0..3 {
        pool.scope(|s| {
            s.run(|_| {
                counter.fetch_add(1, Ordering::SeqCst);
            });
        });
    }

    assert_eq!(counter.load(Ordering::SeqCst), 300);
}

#[test]
fn test_scope_runner_order() {
    let pool = ThreadedPool::new(&[None], 1);

    let flag = AtomicBool::new(false);
    pool.scope(|s| {
        s.run(|_| {
            // nothing ever comes through this channel
            let never = crossbeam::channel::never::<()>();
            assert!(never.recv_timeout(Duration::from_millis(10)).is_err());
            flag.compare_exchange(false, true, Ordering::SeqCst, Ordering::SeqCst).unwrap();
        });
        assert_eq!(flag.load(Ordering::SeqCst), false);
    });

    assert_eq!(flag.load(Ordering::SeqCst), true);
}

#[test]
fn test_non_aliasing_borrows() {
    let pool = ThreadedPool::new(&[None, None], 4);

    let mut counter = 0;
    pool.scope(|s| {
        counter += 1;
        s.run(|_| {
            let _x = counter;
        });
    });

    assert_eq!(counter, 1);
}

#[test]
#[should_panic]
fn test_panic_all() {
    let pool = ThreadedPool::new(&[None, None], 4);

    pool.scope(|s| {
        s.run(|t| {
            // all threads panic
            panic!("{}", t.thread_idx);
        });
    });
}

#[test]
#[should_panic]
fn test_panic_single() {
    let pool = ThreadedPool::new(&[None, None], 4);

    pool.scope(|s| {
        s.run(|t| {
            // one thread panics
            if t.thread_idx == 2 {
                panic!("{}", t.thread_idx);
            }
        });
    });
}

#[test]
fn test_queues() {
    // a non-copy usize wrapper
    struct Wrapper(usize);

    let num_threads = 4;
    let pool = ThreadedPool::new(&[None, None], num_threads);

    let queues: Vec<_> =
        (0..num_threads).map(|_| crossbeam::queue::SegQueue::<Wrapper>::new()).collect();

    // queues[0] has Wrapper(0), queues[1] has Wrapper(1), etc
    for (i, queue) in queues.iter().enumerate() {
        queue.push(Wrapper(i));
    }

    let num_iters = 3;
    for _ in 0..num_iters {
        pool.scope(|s| {
            s.run(|t| {
                // take item from queue n and push it to queue n+1
                let wrapper = queues[t.thread_idx].pop().unwrap();
                queues[(t.thread_idx + 1) % num_threads].push(wrapper);
            });
        });
    }

    for (i, queue) in queues.iter().enumerate() {
        assert_eq!(queue.pop().unwrap().0, i.wrapping_sub(num_iters) % num_threads);
    }
}

#[test]
fn at_most_one_thread_per_processor_at_a_time() {
    let pool = ThreadedPool::new(&[None, None, None], 20);

    let running: Vec<AtomicU32> = (0..3).map(|_| AtomicU32::new(0)).collect();
    let total = AtomicU32::new(0);
    for _ in 0..5 {
        pool.scope(|s| {
            s.run(|t| {
                assert_eq!(running[t.processor_idx].fetch_add(1, Ordering::SeqCst), 0);
                assert!(total.fetch_add(1, Ordering::SeqCst) < 3);
                total.fetch_sub(1, Ordering::SeqCst);
                running[t.processor_idx].fetch_sub(1, Ordering::SeqCst);
            });
        });
    }
}

#[test]
fn scope_waits_for_a_task_that_is_held_up() {
    let pool = ThreadedPool::new(&[None, None], 5);

    let (release, held) = crossbeam::channel::bounded::<()>(0);
    let done = AtomicU32::new(0);
    let seen = AtomicU32::new(99);
    pool.scope(|s| {
        let shared = s.pool;
        s.run(|_| {
            held.recv().unwrap();
            done.fetch_add(1, Ordering::SeqCst);
        });
        // no thread can be done before it is released
        assert_eq!(shared.pool.lock().unwrap().end_scope(), ScopeEnd::Pending);
        seen.store(done.load(Ordering::SeqCst), Ordering::SeqCst);
        for _ in 0..5 {
            release.send(()).unwrap();
        }
    });
    assert_eq!(seen.load(Ordering::SeqCst), 0);
    assert_eq!(done.load(Ordering::SeqCst), 5);
    assert_eq!(pool.pool.lock().unwrap().end_scope(), ScopeEnd::NoTask);
}
