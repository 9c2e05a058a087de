//! The thread pool.

use crate::affinity::{cpu_fits, cpu_mask};
use crate::count_down_latch::{build_count_down_latch, CountDownLatch};
use crate::invariants::{
    lemma_exit, lemma_fail, lemma_new, lemma_run, lemma_scope, lemma_start, lemma_stop,
    lemma_task_begin, lemma_task_end, lemma_thread_left,
};
use crate::laws::{
    has_waiting, law_end_work_names_the_thread_it_wakes, law_taken_over_thread_has_to_be_bound,
};
use crate::logical_processor::{lemma_source, source, LogicalProcessors, ProcessorView};
use crate::model::{
    after_exit, after_fail, after_run, after_scope, after_start, after_stop, after_task_begin,
    after_task_end, assigned, binding, cpus_fit, dealt, in_round, is_active, is_done, is_idle,
    is_pin, is_ready, is_stopping, loop_left, new_pool, permits, pins_wf, pool_wf, posted, proc_of,
    processor_count, queues_wf, same_resources, start_fails, start_result, task_left, PoolView,
};
use crate::semaphore::Semaphore;
use nix::sched::CpuSet;
use vstd::prelude::*;
use vstd::slice::slice_subrange;

verus! {

/// Context information provided to each task closure.
#[derive(Clone, Copy, Debug, PartialEq, Eq, Structural)]
pub struct TaskData {
    /// The thread that runs the task.
    pub thread_idx: usize,
    /// The logical processor that the thread runs on.
    pub processor_idx: usize,
    /// The OS processor that the logical processor is bound to.
    pub cpu_id: Option<u32>,
}

/// What a pool thread is doing.
#[derive(Clone, Copy, Debug, PartialEq, Eq, Structural)]
pub enum WorkerState {
    /// It waits for its start semaphore.
    Waiting,
    /// It runs the task.
    Working,
    /// It has left its work loop, because the pool stops or because it panicked.
    Ended,
}

/// Scheduling state for a thread.
#[derive(Clone, Copy, Debug, PartialEq, Eq, Structural)]
pub struct ThreadScheduling {
    /// Semaphore used to wait for a new task.
    pub task_start_semaphore: Semaphore,
    /// The OS id of this thread.
    pub tid: i32,
    /// The logical processor index that this thread is assigned to.
    pub logical_processor_idx: usize,
    /// The OS processor that this thread was last bound to, if it ever was.
    pub affinity: Option<u32>,
    /// What the thread is doing.
    pub state: WorkerState,
}

/// A thread that has to be bound to an OS processor before it goes on.
#[derive(Clone, Copy, Debug)]
pub struct Pin {
    /// The OS id of the thread.
    pub tid: i32,
    /// The OS processors that the thread may run on.
    pub cpus: CpuSet,
}

/// A thread that could not be bound to the OS processor of the logical processor that took it over.
#[derive(Clone, Copy, Debug, PartialEq, Eq, Structural)]
pub struct PinError {
    /// The thread, which stays assigned and bound as it was.
    pub thread_idx: usize,
}

/// What a thread does that took a permit from its start semaphore.
#[derive(Clone, Copy, Debug)]
pub enum WorkStep {
    /// Run the task, and then tell the pool by `end_work`.
    Run(TaskData),
    /// Leave the work loop. The thread that was started in turn, if any, is to be woken.
    Exit(Option<usize>),
}

/// What the end of a scope comes to.
#[derive(Clone, Copy, Debug, PartialEq, Eq, Structural)]
pub enum ScopeEnd {
    /// No task was run in the scope.
    NoTask,
    /// Some thread is not done with the task: the scope must not be left yet.
    Pending,
    /// Every thread is done with the task, and it was cleared. `panicked` says whether a thread
    /// has panicked, in which case leaving the scope has to panic.
    Finished { panicked: bool },
}

/// A CPU id that no processor mask has a bit for.
#[derive(Clone, Copy, Debug, PartialEq, Eq, Structural)]
pub struct CpuIdError {
    /// The CPU id.
    pub cpu_id: u32,
}

/// State shared between all threads.
pub struct SharedState {
    /// Whether there is a task to run during this round.
    task: bool,
    /// Has a thread panicked?
    has_thread_panicked: bool,
    /// The logical processors.
    logical_processors: LogicalProcessors,
    /// The number of threads.
    num_threads: usize,
    /// The threads which run on logical processors.
    threads: Vec<ThreadScheduling>,
    /// The number of threads that have no processor and have not panicked over that yet.
    unplaced: usize,
    /// The main thread uses this to wait for the threads to finish running the task.
    task_end: CountDownLatch,
}

impl View for SharedState {
    type V = PoolView;

    closed spec fn view(&self) -> PoolView {
        PoolView {
            task: self.task,
            panicked: self.has_thread_panicked,
            procs: self.logical_processors@,
            num_threads: self.num_threads as nat,
            threads: self.threads@,
            unplaced: self.unplaced as nat,
            latch: self.task_end,
        }
    }
}

/// How a thread is bound to an OS processor.
fn pin_to(tid: i32, cpu_id: u32) -> (pin: Pin)
    requires
        cpu_fits(cpu_id),
    ensures
        is_pin(Some(pin), tid, Some(cpu_id)),
{
    Pin { tid, cpus: cpu_mask(cpu_id).unwrap() }
}

/// Assigns the thread to the logical processor. If the processor has a CPU id, the thread has to be
/// bound to it first: `bound` says whether that was done. Where it was not, or where no processor
/// mask has a bit for the CPU, the thread stays as it was.
fn assign_to_processor(
    thread: &mut ThreadScheduling,
    processor_idx: usize,
    logical_processors: &LogicalProcessors,
    bound: bool,
) -> (is_assigned: bool)
    requires
        processor_idx < logical_processors@.len(),
    ensures
        is_assigned <==> (logical_processors@[processor_idx as int].cpu_id matches Some(cpu)
            ==> cpu_fits(cpu) && bound),
        is_assigned ==> *final(thread) == assigned(
            *old(thread),
            processor_idx,
            logical_processors@[processor_idx as int].cpu_id,
        ),
        !is_assigned ==> *final(thread) == *old(thread),
{
    // the thread's affinity was set if the logical processor has a CPU id
    if let Some(cpu_id) = logical_processors.cpu_id(processor_idx) {
        if cpu_mask(cpu_id).is_none() || !bound {
            return false;
        }
        thread.affinity = Some(cpu_id);
    }

    // set the thread's processor
    thread.logical_processor_idx = processor_idx;
    true
}

impl SharedState {
    /// Chooses the next thread to run on the logical processor, and then starts it, unless it has
    /// to be bound to the processor and was not.
    fn start_next_thread(
        &mut self,
        processor_idx: usize,
        bound: bool,
    ) -> (started: Result<Option<usize>, PinError>)
        requires
            queues_wf(old(self)@),
            pins_wf(old(self)@),
            processor_idx < old(self)@.procs.len(),
            forall|t: int|
                0 <= t < old(self)@.threads.len() && #[trigger] is_ready(old(self)@, t) ==> permits(
                    old(self)@,
                    t,
                ) < usize::MAX,
        ensures
            final(self)@ == after_start(old(self)@, processor_idx, bound),
            started == start_result(old(self)@, processor_idx, bound),
    {
        proof {
            lemma_start(self@, processor_idx, bound);
            lemma_source(self@.procs, processor_idx as int);
        }
        let ghost v = self@;
        // if there is a thread to run on this logical processor, then start it
        match self.logical_processors.next_worker(processor_idx) {
            Some((next_thread_idx, from_processor_idx)) => {
                // if the next thread is assigned to a different processor
                if processor_idx != from_processor_idx && !assign_to_processor(
                    &mut self.threads[next_thread_idx],
                    processor_idx,
                    &self.logical_processors,
                    bound,
                ) {
                    assert(self@.threads =~= v.threads);
                    return Err(PinError { thread_idx: next_thread_idx });
                }

                // start the thread
                self.threads[next_thread_idx].task_start_semaphore.post();
                assert(self@.threads =~= after_start(v, processor_idx, bound).threads);
                Ok(Some(next_thread_idx))
            },
            None => Ok(None),
        }
    }
}

/// A thread pool that runs a task on many threads. A task will run once on each thread. Each
/// logical processor will run threads sequentially, meaning that the thread pool's parallelism
/// depends on the number of processors, not the number of threads. Threads are assigned to logical
/// processors, which can be bound to operating system processors.
///
/// This is the pool's state and what it decides. The threads themselves, the sleeping on a
/// semaphore or on the latch, and the binding of a thread are up to the caller, who makes each
/// call while it alone has access to the pool.
pub struct ParallelismBoundedThreadPool {
    /// State shared between all threads.
    shared_state: SharedState,
}

impl View for ParallelismBoundedThreadPool {
    type V = PoolView;

    closed spec fn view(&self) -> PoolView {
        self.shared_state@
    }
}

impl ParallelismBoundedThreadPool {
    /// A new work pool with logical processors that are pinned to the provided OS processors.
    /// Each logical processor is assigned many threads. `tids` are the OS ids of the threads.
    ///
    /// Each thread has to be bound to its processor, as `affinities` says, before a task is run.
    /// Without a CPU id there is no processor, and each thread panics when it enters its work loop.
    pub fn new(cpu_ids: &[Option<u32>], tids: &[i32]) -> (pool: Result<Self, CpuIdError>)
        ensures
            match pool {
                Ok(pool) => {
                    &&& pool@ == new_pool(cpu_ids@, tids@)
                    &&& is_idle(pool@)
                    &&& pool@.procs.len() == (if cpu_ids@.len() < tids@.len() {
                        cpu_ids@.len()
                    } else {
                        tids@.len()
                    })
                    &&& forall|p: int|
                        0 <= p < pool@.procs.len() ==> (#[trigger] pool@.procs[p]).cpu_id
                            == cpu_ids@[p]
                    &&& forall|t: int|
                        0 <= t < pool@.threads.len() ==> (#[trigger] pool@.threads[t]).affinity
                            == cpu_ids@[pool@.threads[t].logical_processor_idx as int]
                    &&& cpus_fit(cpu_ids@, processor_count(cpu_ids@, tids@.len()) as int)
                },
                Err(error) => exists|p: int|
                    {
                        &&& 0 <= p < processor_count(cpu_ids@, tids@.len())
                        &&& #[trigger] cpu_ids@[p] == Some(error.cpu_id)
                        &&& !cpu_fits(error.cpu_id)
                        &&& error.cpu_id >= 32
                        &&& cpus_fit(cpu_ids@, p)
                    },
            },
    {
        let num_threads = tids.len();

        // we don't need more logical processors than threads
        let num_processors = if cpu_ids.len() < num_threads {
            cpu_ids.len()
        } else {
            num_threads
        };
        let used_cpu_ids = slice_subrange(cpu_ids, 0, num_processors);

        for p in 0..num_processors
            invariant
                num_processors == used_cpu_ids@.len(),
                num_processors == processor_count(cpu_ids@, tids@.len()),
                used_cpu_ids@ == cpu_ids@.subrange(0, num_processors as int),
                cpus_fit(cpu_ids@, p as int),
        {
            if let Some(cpu_id) = used_cpu_ids[p] {
                if cpu_mask(cpu_id).is_none() {
                    assert(cpu_ids@[p as int] == Some(cpu_id));
                    return Err(CpuIdError { cpu_id });
                }
            }
        }

        let mut logical_processors = LogicalProcessors::new(used_cpu_ids);

        // build the scheduling data for the threads
        let num_placed = if num_processors > 0 {
            num_threads
        } else {
            0
        };
        let mut threads: Vec<ThreadScheduling> = Vec::new();
        for thread_idx in 0..num_placed
            invariant
                num_threads == tids@.len(),
                num_processors == processor_count(cpu_ids@, tids@.len()),
                num_placed == (if num_processors > 0 { num_threads } else { 0 }),
                used_cpu_ids@ == cpu_ids@.subrange(0, num_processors as int),
                logical_processors@.len() == num_processors,
                forall|p: int|
                    0 <= p < num_processors ==> (#[trigger] logical_processors@[p]).cpu_id
                        == cpu_ids@[p],
                threads@ == new_pool(cpu_ids@, tids@).threads.take(thread_idx as int),
        {
            let processor_idx = thread_idx % num_processors;
            threads.push(
                ThreadScheduling {
                    task_start_semaphore: Semaphore::new(0),
                    tid: tids[thread_idx],
                    logical_processor_idx: processor_idx,
                    affinity: logical_processors.cpu_id(processor_idx),
                    state: WorkerState::Waiting,
                },
            );
            assert(threads@ =~= new_pool(cpu_ids@, tids@).threads.take(thread_idx + 1));
        }
        assert(threads@ =~= new_pool(cpu_ids@, tids@).threads);

        // add each thread to its logical processor
        assert(logical_processors@ =~= Seq::new(
            num_processors as nat,
            |p: int|
                ProcessorView {
                    cpu_id: cpu_ids@[p],
                    ready: dealt(p, num_processors as nat, 0),
                    done: Seq::empty(),
                },
        ));
        for thread_idx in 0..num_placed
            invariant
                num_threads == tids@.len(),
                num_processors == processor_count(cpu_ids@, tids@.len()),
                num_placed == (if num_processors > 0 { num_threads } else { 0 }),
                threads@ == new_pool(cpu_ids@, tids@).threads,
                logical_processors@ == Seq::new(
                    num_processors as nat,
                    |p: int|
                        ProcessorView {
                            cpu_id: cpu_ids@[p],
                            ready: dealt(p, num_processors as nat, thread_idx as nat),
                            done: Seq::empty(),
                        },
                ),
        {
            proof {
                vstd::arithmetic::div_mod::lemma_mod_bound(
                    thread_idx as int,
                    num_processors as int,
                );
            }
            let logical_processor_idx = threads[thread_idx].logical_processor_idx;
            logical_processors.add_worker(logical_processor_idx, thread_idx);
            assert(logical_processors@ =~= Seq::new(
                num_processors as nat,
                |p: int|
                    ProcessorView {
                        cpu_id: cpu_ids@[p],
                        ready: dealt(p, num_processors as nat, (thread_idx + 1) as nat),
                        done: Seq::empty(),
                    },
            ));
        }

        proof {
            lemma_new(cpu_ids@, tids@);
        }
        let shared_state = SharedState {
            task: false,
            has_thread_panicked: false,
            logical_processors,
            num_threads,
            threads,
            unplaced: num_threads - num_placed,
            task_end: build_count_down_latch(num_threads),
        };
        assert(shared_state@ =~= new_pool(cpu_ids@, tids@));
        Ok(ParallelismBoundedThreadPool { shared_state })
    }

    /// Whether the pool is in a state that its steps lead to.
    pub open spec fn wf(&self) -> bool {
        pool_wf(self@)
    }

    /// The total number of logical processors.
    pub fn num_processors(&self) -> (num: usize)
        ensures
            num == self@.procs.len(),
    {
        self.shared_state.logical_processors.len()
    }

    /// The total number of threads.
    pub fn num_threads(&self) -> (num: usize)
        ensures
            num == self@.num_threads,
    {
        self.shared_state.num_threads
    }

    /// Whether a thread has panicked, after which the pool can only be joined.
    pub fn has_thread_panicked(&self) -> (panicked: bool)
        ensures
            panicked == self@.panicked,
    {
        self.shared_state.has_thread_panicked
    }

    /// Whether a task is set, that is whether a scope in which one was run is still open.
    pub fn has_task(&self) -> (task: bool)
        ensures
            task == self@.task,
    {
        self.shared_state.task
    }

    /// What the thread is doing.
    pub fn worker_state(&self, thread_idx: usize) -> (state: WorkerState)
        requires
            thread_idx < self@.threads.len(),
        ensures
            state == self@.threads[thread_idx as int].state,
    {
        self.shared_state.threads[thread_idx].state
    }

    /// How each thread, in the order of the threads, is bound to an OS processor.
    pub fn affinities(&self) -> (pins: Vec<Option<Pin>>)
        requires
            self.wf(),
        ensures
            pins@.len() == self@.threads.len(),
            forall|t: int|
                0 <= t < pins@.len() ==> is_pin(
                    #[trigger] pins@[t],
                    self@.threads[t].tid,
                    self@.threads[t].affinity,
                ),
    {
        let mut pins: Vec<Option<Pin>> = Vec::new();
        for t in 0..self.shared_state.threads.len()
            invariant
                self.wf(),
                pins@.len() == t,
                forall|u: int|
                    0 <= u < t ==> is_pin(
                        #[trigger] pins@[u],
                        self@.threads[u].tid,
                        self@.threads[u].affinity,
                    ),
        {
            let thread = self.shared_state.threads[t];
            assert(thread == self@.threads[t as int]);
            let pin = match thread.affinity {
                Some(cpu_id) => Some(pin_to(thread.tid, cpu_id)),
                None => None,
            };
            pins.push(pin);
        }
        pins
    }

    /// Opens a new scope for the pool, in which one task can be run. The scope must not be left
    /// before `end_scope` has said that any task run on the pool within it has completed.
    ///
    /// A pool that a thread has panicked in has no more scopes.
    pub fn scope(&mut self) -> (runner: TaskRunner<'_>)
        requires
            is_idle(old(self)@),
            !old(self)@.panicked,
        ensures
            *runner.pool == *old(self),
            *final(runner.pool) == *final(self),
    {
        TaskRunner { pool: self }
    }

    /// Leaves a scope, if every thread is done with the task that was run in it.
    pub fn end_scope(&mut self) -> (end: ScopeEnd)
        requires
            is_idle(old(self)@) || in_round(old(self)@),
        ensures
            end == (if !old(self)@.task {
                ScopeEnd::NoTask
            } else if old(self)@.latch.remaining > 0 {
                ScopeEnd::Pending
            } else {
                ScopeEnd::Finished { panicked: old(self)@.panicked }
            }),
            final(self)@ == (if end is Finished {
                after_scope(old(self)@)
            } else {
                old(self)@
            }),
            final(self)@.threads == old(self)@.threads,
            final(self)@.panicked == old(self)@.panicked,
            end is Pending <==> in_round(final(self)@),
            end !is Pending <==> is_idle(final(self)@),
    {
        // if no task was set
        if !self.shared_state.task {
            return ScopeEnd::NoTask;
        }

        // wait for the task to complete
        if !self.shared_state.task_end.try_wait() {
            return ScopeEnd::Pending;
        }
        proof {
            lemma_scope(old(self)@);
        }

        // clear the task
        self.shared_state.task = false;

        // every thread was run, so swap the logical processors' internal queues
        self.shared_state.logical_processors.reset();
        ScopeEnd::Finished { panicked: self.shared_state.has_thread_panicked }
    }

    /// The thread enters its work loop, if it has a processor to run on. If it has none, it has to
    /// panic: the pool is poisoned, and nobody waits for the thread any more.
    pub fn enter_work_loop(&mut self, thread_idx: usize) -> (entered: bool)
        requires
            old(self).wf(),
            thread_idx < old(self)@.num_threads,
            thread_idx < old(self)@.threads.len() || old(self)@.unplaced > 0,
        ensures
            entered <==> thread_idx < old(self)@.threads.len(),
            final(self)@ == (if entered {
                old(self)@
            } else {
                after_fail(old(self)@)
            }),
            is_idle(old(self)@) ==> is_idle(final(self)@),
            in_round(old(self)@) ==> in_round(final(self)@),
            is_stopping(old(self)@) ==> is_stopping(final(self)@),
    {
        if thread_idx < self.shared_state.threads.len() {
            true
        } else {
            proof {
                lemma_fail(self@);
            }
            self.shared_state.unplaced = self.shared_state.unplaced - 1;
            self.shared_state.has_thread_panicked = true;
            self.shared_state.task_end.drop_counter();
            false
        }
    }

    /// The thread takes a permit from its start semaphore. `None` if there is no permit: the thread
    /// has to wait for one. If there is a task, the thread runs it next. If there is none, the
    /// pool stops and the thread leaves its work loop, for which it starts the next thread on its
    /// processor.
    pub fn begin_work(&mut self, thread_idx: usize) -> (step: Option<WorkStep>)
        requires
            old(self).wf(),
            thread_idx < old(self)@.threads.len(),
            old(self)@.threads[thread_idx as int].state == WorkerState::Waiting,
        ensures
            final(self).wf(),
            same_resources(old(self)@, final(self)@),
            ({
                let v = old(self)@;
                let t = thread_idx as int;
                if v.threads[t].task_start_semaphore.permits == 0 {
                    step is None && final(self)@ == v
                } else if v.task {
                    &&& step == Some(
                        WorkStep::Run(
                            TaskData {
                                thread_idx,
                                processor_idx: v.threads[t].logical_processor_idx,
                                cpu_id: v.procs[v.threads[t].logical_processor_idx as int].cpu_id,
                            },
                        ),
                    )
                    &&& final(self)@ == after_task_begin(v, t)
                    &&& in_round(final(self)@)
                } else {
                    &&& step matches Some(WorkStep::Exit(started))
                    &&& started == Some(
                        v.procs[v.threads[t].logical_processor_idx as int].ready[0],
                    )
                    &&& final(self)@ == after_exit(v, t)
                    &&& is_stopping(final(self)@)
                }
            }),
    {
        let ghost v = self@;
        let ghost t = thread_idx as int;
        assert(is_active(v, t) || permits(v, t) == 0);

        // wait for a new task
        if !self.shared_state.threads[thread_idx].task_start_semaphore.try_wait() {
            assert(self@.threads =~= v.threads);
            return None;
        }
        assert(0 <= proc_of(v, t) < v.procs.len());

        // the logical processor of this thread may have been changed by the previous thread, if
        // the thread was taken over from another logical processor
        let current_processor_idx = self.shared_state.threads[thread_idx].logical_processor_idx;

        if self.shared_state.task {
            proof {
                lemma_task_begin(v, t);
            }
            self.shared_state.threads[thread_idx].state = WorkerState::Working;
            assert(self@.threads =~= after_task_begin(v, t).threads);

            // context information for the task
            Some(
                WorkStep::Run(
                    TaskData {
                        thread_idx,
                        processor_idx: current_processor_idx,
                        cpu_id: self.shared_state.logical_processors.cpu_id(current_processor_idx),
                    },
                ),
            )
        } else {
            proof {
                lemma_exit(v, t);
            }
            self.shared_state.threads[thread_idx].state = WorkerState::Ended;
            assert(self@.threads =~= loop_left(v, t).threads);
            proof {
                lemma_thread_left(v, loop_left(v, t), t, true);
            }

            // the next thread is one of this processor, so it need not be bound
            let started = match self.shared_state.start_next_thread(current_processor_idx, true) {
                Ok(started) => started,
                Err(_) => None,
            };
            self.shared_state.task_end.drop_counter();
            Some(WorkStep::Exit(started))
        }
    }

    /// How the next thread on the processor of the given one has to be bound before it can be
    /// started, if that thread is taken over from another processor and has to be bound at all.
    pub fn next_pin(&self, thread_idx: usize) -> (pin: Option<Pin>)
        requires
            self.wf(),
            thread_idx < self@.threads.len(),
        ensures
            match binding(self@, self@.threads[thread_idx as int].logical_processor_idx) {
                None => pin is None,
                Some((next, cpu_id)) => is_pin(pin, self@.threads[next].tid, Some(cpu_id)),
            },
            ({
                let p = self@.threads[thread_idx as int].logical_processor_idx as int;
                pin is Some <==> {
                    &&& self@.procs[p].ready.len() == 0
                    &&& self@.procs[p].cpu_id is Some
                    &&& has_waiting(self@.procs)
                }
            }),
    {
        assert(0 <= proc_of(self@, thread_idx as int) < self@.procs.len());
        let processor_idx = self.shared_state.threads[thread_idx].logical_processor_idx;
        proof {
            lemma_source(self@.procs, processor_idx as int);
            lemma_start(self@, processor_idx, true);
            law_taken_over_thread_has_to_be_bound(self@, processor_idx);
        }
        match self.shared_state.logical_processors.peek_worker(processor_idx) {
            Some((next_thread_idx, from_processor_idx)) => {
                if processor_idx == from_processor_idx {
                    return None;
                }
                match self.shared_state.logical_processors.cpu_id(processor_idx) {
                    Some(cpu_id) => {
                        assert(self@.procs[processor_idx as int].cpu_id == Some(cpu_id));
                        Some(pin_to(self.shared_state.threads[next_thread_idx].tid, cpu_id))
                    },
                    None => None,
                }
            },
            None => None,
        }
    }

    /// The thread is done with the task, or the task has panicked on it. It starts the next thread
    /// on its processor, which is to be woken, and then counts down. A thread on which the task
    /// panicked leaves its work loop.
    ///
    /// `bound` says whether the next thread was bound as `next_pin` demands. If it was not, it is
    /// not started and stays assigned and bound as it was. The thread then has to panic, so that
    /// it leaves its work loop too; a thread that panics already cannot do so again.
    pub fn end_work(
        &mut self,
        thread_idx: usize,
        panicked: bool,
        bound: bool,
    ) -> (started: Result<Option<usize>, PinError>)
        requires
            in_round(old(self)@),
            thread_idx < old(self)@.threads.len(),
            old(self)@.threads[thread_idx as int].state == WorkerState::Working,
            panicked ==> !start_fails(
                old(self)@,
                old(self)@.threads[thread_idx as int].logical_processor_idx,
                bound,
            ),
        ensures
            in_round(final(self)@),
            same_resources(old(self)@, final(self)@),
            final(self)@ == after_task_end(old(self)@, thread_idx as int, panicked, bound),
            started == start_result(
                old(self)@,
                old(self)@.threads[thread_idx as int].logical_processor_idx,
                bound,
            ),
            started == Ok::<Option<usize>, PinError>(None) <==> !has_waiting(old(self)@.procs),
            forall|u: int|
                0 <= u < old(self)@.threads.len() ==>
                    (#[trigger] final(self)@.threads[u]).task_start_semaphore.permits
                    == old(self)@.threads[u].task_start_semaphore.permits + (if started == Ok::<
                    Option<usize>,
                    PinError,
                >(Some(u as usize)) {
                    1int
                } else {
                    0int
                }),
    {
        let ghost v = self@;
        let ghost t = thread_idx as int;
        proof {
            lemma_task_end(v, t, panicked, bound);
            lemma_thread_left(v, task_left(v, t, panicked), t, bound);
            lemma_thread_left(v, task_left(v, t, true), t, bound);
            assert forall|u: int| 0 <= u < v.threads.len() implies (#[trigger] after_task_end(
                v,
                t,
                panicked,
                bound,
            ).threads[u]).task_start_semaphore.permits
                == v.threads[u].task_start_semaphore.permits + (if start_result(
                v,
                v.threads[t].logical_processor_idx,
                bound,
            ) == Ok::<Option<usize>, PinError>(Some(u as usize)) {
                1int
            } else {
                0int
            }) by {
                law_end_work_names_the_thread_it_wakes(v, t, panicked, bound, u);
            }
            law_end_work_names_the_thread_it_wakes(v, t, panicked, bound, t);
        }
        assert(0 <= proc_of(v, t) < v.procs.len());
        self.shared_state.threads[thread_idx].state = if panicked {
            WorkerState::Ended
        } else {
            WorkerState::Waiting
        };
        assert(self@.threads =~= task_left(v, t, panicked).threads);

        // start the next thread before counting down
        let current_processor_idx = self.shared_state.threads[thread_idx].logical_processor_idx;
        let started = self.shared_state.start_next_thread(current_processor_idx, bound);
        if panicked || started.is_err() {
            self.shared_state.threads[thread_idx].state = WorkerState::Ended;

            // inform the other threads
            self.shared_state.has_thread_panicked = true;
            self.shared_state.task_end.drop_counter();
        } else {
            self.shared_state.task_end.count_down();
        }
        assert(self@.threads =~= after_task_end(v, t, panicked, bound).threads);
        started
    }

    /// Stops the threads: every thread can now wake, and finds no task. The caller joins them.
    /// Whether a thread ended by a panic matters only if `check_for_errors`, that is if no thread
    /// had panicked before.
    pub fn join(&mut self) -> (check_for_errors: bool)
        requires
            is_idle(old(self)@),
        ensures
            check_for_errors == !old(self)@.panicked,
            final(self)@ == after_stop(old(self)@),
            is_stopping(final(self)@),
    {
        let ghost v = self@;
        let num_threads = self.shared_state.threads.len();
        for t in 0..num_threads
            invariant
                is_idle(v),
                num_threads == v.threads.len(),
                self@ == (PoolView { threads: self@.threads, ..v }),
                self@.threads.len() == num_threads,
                forall|u: int| 0 <= u < t ==> #[trigger] self@.threads[u] == posted(v.threads[u]),
                forall|u: int| t <= u < num_threads ==> #[trigger] self@.threads[u] == v.threads[u],
        {
            assert(!is_active(v, t as int));
            self.shared_state.threads[t].task_start_semaphore.post();
        }
        assert(self@ =~= after_stop(v));
        proof {
            lemma_stop(v);
        }
        !self.shared_state.has_thread_panicked
    }
}

/// Allows a single task to run per pool scope.
pub struct TaskRunner<'a> {
    /// The pool that the scope is open on.
    pub pool: &'a mut ParallelismBoundedThreadPool,
}

impl<'a> TaskRunner<'a> {
    /// Runs a task on the pool's threads: starts the first thread of each logical processor. The
    /// started threads, in the order of the processors, are to be woken.
    pub fn run(self) -> (started: Vec<usize>)
        requires
            is_idle(old(self.pool)@),
            !old(self.pool)@.panicked,
        ensures
            final(self.pool)@ == after_run(old(self.pool)@),
            in_round(final(self.pool)@),
            started@.len() == old(self.pool)@.procs.len(),
            forall|p: int|
                0 <= p < started@.len() ==> #[trigger] started@[p]
                    == old(self.pool)@.procs[p].ready[0],
    {
        let ghost v = self.pool@;
        let state = &mut self.pool.shared_state;
        state.task = true;
        proof {
            lemma_run(v);
            assert(state@ =~= after_run_on(v, 0));
            assert(forall|t: int| #[trigger] is_ready(state@, t) == is_ready(v, t));
            assert(forall|t: int| #[trigger] is_done(state@, t) == is_done(v, t));
            assert(forall|t: int| #[trigger] proc_of(state@, t) == proc_of(v, t));
        }
        let num_processors = state.logical_processors.len();
        let mut started: Vec<usize> = Vec::new();

        // start the first thread for each logical processor, which is one of its own and need not
        // be bound
        for processor_idx in 0..num_processors
            invariant
                is_idle(v),
                num_processors == v.procs.len(),
                queues_wf(state@),
                pins_wf(state@),
                state@ == after_run_on(v, processor_idx as int),
                started@.len() == processor_idx,
                forall|p: int|
                    0 <= p < processor_idx ==> #[trigger] started@[p] == v.procs[p].ready[0],
        {
            let ghost before = state@;
            proof {
                lemma_run_on(v, processor_idx);
                lemma_start(before, processor_idx, true);
            }
            if let Ok(Some(thread_idx)) = state.start_next_thread(processor_idx, true) {
                started.push(thread_idx);
            }
        }
        assert(after_run_on(v, num_processors as int) =~= after_run(v));
        started
    }
}

/// The pool after it was given a task and the first `k` processors started a thread.
spec fn after_run_on(v: PoolView, k: int) -> PoolView {
    PoolView {
        task: true,
        procs: v.procs.map(
            |p: int, proc: ProcessorView|
                if p < k {
                    after_run(v).procs[p]
                } else {
                    proc
                },
        ),
        threads: v.threads.map(
            |t: int, thread: ThreadScheduling|
                if proc_of(v, t) < k {
                    after_run(v).threads[t]
                } else {
                    thread
                },
        ),
        ..v
    }
}

/// The next processor starts a thread of its own.
proof fn lemma_run_on(v: PoolView, k: usize)
    requires
        is_idle(v),
        k < v.procs.len(),
    ensures
        source(after_run_on(v, k as int).procs, k as int) == Some(k as int),
        after_start(after_run_on(v, k as int), k, true) == after_run_on(v, k + 1),
        forall|t: int|
            0 <= t < v.threads.len() ==> #[trigger] permits(after_run_on(v, k as int), t) <= 1,
{
    let w = after_run_on(v, k as int);
    assert(w.procs[k as int] == v.procs[k as int]);
    let head = v.procs[k as int].ready[0] as int;
    assert(proc_of(v, head) == k);
    assert forall|t: int| 0 <= t < v.threads.len() implies #[trigger] permits(w, t) <= 1 by {
        assert(!is_active(v, t));
    }
    assert(after_start(w, k, true) =~= after_run_on(v, k + 1)) by {
        assert(after_start(w, k, true).procs =~= after_run_on(v, k + 1).procs);
        assert(after_start(w, k, true).threads =~= after_run_on(v, k + 1).threads);
    }
}

} // verus!
