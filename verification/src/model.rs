//! The pool as a state machine: its state, the steps that it takes, and the states that it can be
//! in.

use crate::affinity::{cpu_fits, cpu_set_members};
use crate::bounded::{Pin, PinError, ThreadScheduling, WorkerState};
use crate::count_down_latch::CountDownLatch;
use crate::logical_processor::{hand_out, source, swapped, ProcessorView};
use crate::semaphore::Semaphore;
use vstd::prelude::*;
use vstd::set_lib::set_int_range;

verus! {

/// The state of a pool.
#[verifier::ext_equal]
pub struct PoolView {
    /// Whether there is a task to run.
    pub task: bool,
    /// Whether a thread has panicked.
    pub panicked: bool,
    /// The logical processors.
    pub procs: Seq<ProcessorView>,
    /// The number of OS threads.
    pub num_threads: nat,
    /// The threads that have a logical processor to run on: all of them, or none if there is no
    /// processor.
    pub threads: Seq<ThreadScheduling>,
    /// The number of threads that have no processor and have not panicked over that yet.
    pub unplaced: nat,
    /// The latch that counts the threads that are done with the task.
    pub latch: CountDownLatch,
}

// ---- steps ----

/// The number of logical processors of a pool: as many as there are CPU ids, but never more than
/// threads.
pub open spec fn processor_count(cpu_ids: Seq<Option<u32>>, num_threads: nat) -> nat {
    if cpu_ids.len() < num_threads {
        cpu_ids.len()
    } else {
        num_threads
    }
}

/// Whether a processor mask has a bit for each of the first `num` CPU ids.
pub open spec fn cpus_fit(cpu_ids: Seq<Option<u32>>, num: int) -> bool {
    forall|p: int| 0 <= p < num ==> (#[trigger] cpu_ids[p] matches Some(cpu) ==> cpu_fits(cpu))
}

/// Those of the first `num_threads` threads that are dealt to processor `p` when the threads are
/// dealt to `num_processors` processors in turn, in ascending order.
pub open spec fn dealt(p: int, num_processors: nat, num_threads: nat) -> Seq<usize>
    decreases num_threads,
{
    if num_threads == 0 {
        Seq::empty()
    } else {
        let rest = dealt(p, num_processors, (num_threads - 1) as nat);
        if (num_threads - 1) % (num_processors as int) == p {
            rest.push((num_threads - 1) as usize)
        } else {
            rest
        }
    }
}

/// A pool whose threads have the OS ids `tids` and are dealt to the logical processors in turn,
/// each of which is bound to its CPU id. Without a processor, no thread is dealt.
pub open spec fn new_pool(cpu_ids: Seq<Option<u32>>, tids: Seq<i32>) -> PoolView {
    let num_processors = processor_count(cpu_ids, tids.len());
    let num_placed = if num_processors > 0 {
        tids.len()
    } else {
        0
    };
    PoolView {
        task: false,
        panicked: false,
        procs: Seq::new(
            num_processors,
            |p: int|
                ProcessorView {
                    cpu_id: cpu_ids[p],
                    ready: dealt(p, num_processors, tids.len()),
                    done: Seq::empty(),
                },
        ),
        num_threads: tids.len(),
        unplaced: (tids.len() - num_placed) as nat,
        threads: Seq::new(
            num_placed,
            |t: int|
                ThreadScheduling {
                    task_start_semaphore: Semaphore { permits: 0 },
                    tid: tids[t],
                    logical_processor_idx: (t % (num_processors as int)) as usize,
                    affinity: cpu_ids[t % (num_processors as int)],
                    state: WorkerState::Waiting,
                },
        ),
        latch: CountDownLatch {
            counters: tids.len() as usize,
            remaining: tids.len() as usize,
        },
    }
}

/// A thread after a permit was posted to its start semaphore.
pub open spec fn posted(thread: ThreadScheduling) -> ThreadScheduling {
    ThreadScheduling {
        task_start_semaphore: Semaphore {
            permits: (thread.task_start_semaphore.permits + 1) as usize,
        },
        ..thread
    }
}

/// A thread after it took a permit from its start semaphore and went on to `state`.
pub open spec fn woken(thread: ThreadScheduling, state: WorkerState) -> ThreadScheduling {
    ThreadScheduling {
        task_start_semaphore: Semaphore {
            permits: (thread.task_start_semaphore.permits - 1) as usize,
        },
        state,
        ..thread
    }
}

/// A thread after it was assigned to processor `p`, and bound to the CPU of `p` if it has one.
pub open spec fn assigned(
    thread: ThreadScheduling,
    p: usize,
    cpu_id: Option<u32>,
) -> ThreadScheduling {
    ThreadScheduling {
        logical_processor_idx: p,
        affinity: if cpu_id is Some {
            cpu_id
        } else {
            thread.affinity
        },
        ..thread
    }
}

/// A latch after one of its counters went away.
pub open spec fn counter_dropped(latch: CountDownLatch) -> CountDownLatch {
    CountDownLatch {
        counters: (latch.counters - 1) as usize,
        remaining: (latch.remaining - 1) as usize,
    }
}

/// A latch after one of its counters counted down.
pub open spec fn counted_down(latch: CountDownLatch) -> CountDownLatch {
    CountDownLatch { remaining: (latch.remaining - 1) as usize, ..latch }
}

/// Whether `pin` binds the thread `tid` to `cpu_id` and to nothing else, or is empty where there
/// is no CPU id.
pub open spec fn is_pin(pin: Option<Pin>, tid: i32, cpu_id: Option<u32>) -> bool {
    match cpu_id {
        None => pin is None,
        Some(cpu) => {
            &&& pin is Some
            &&& pin->0.tid == tid
            &&& cpu_set_members(pin->0.cpus) == set![cpu as nat]
        },
    }
}

/// The thread that has to be bound before it is started as the next one on processor `p`, with the
/// CPU that it has to be bound to: the thread is taken over from another processor, and `p` has a
/// CPU id.
pub open spec fn binding(v: PoolView, p: usize) -> Option<(int, u32)> {
    match source(v.procs, p as int) {
        Some(from) if from != p && v.procs[p as int].cpu_id is Some => Some(
            (v.procs[from].ready[0] as int, v.procs[p as int].cpu_id->0),
        ),
        _ => None,
    }
}

/// Whether the next thread on processor `p` cannot be started, because it has to be bound and was
/// not.
pub open spec fn start_fails(v: PoolView, p: usize, bound: bool) -> bool {
    !bound && binding(v, p) is Some
}

/// The pool after the next thread was started on processor `p`: the first ready thread of `p`, or
/// else of the nearest processor that has one, which then moves to `p`. Nothing happens if no
/// thread is ready. If the thread has to be bound and was not, it is neither moved nor started, but
/// it was handed out all the same.
pub open spec fn after_start(v: PoolView, p: usize, bound: bool) -> PoolView {
    match source(v.procs, p as int) {
        None => v,
        Some(from) => {
            let t = v.procs[from].ready[0] as int;
            let placed = if from == p {
                v.threads[t]
            } else {
                assigned(v.threads[t], p, v.procs[p as int].cpu_id)
            };
            PoolView {
                procs: hand_out(v.procs, from, p as int),
                threads: if start_fails(v, p, bound) {
                    v.threads
                } else {
                    v.threads.update(t, posted(placed))
                },
                ..v
            }
        },
    }
}

/// What starting the next thread on processor `p` comes to: the thread that is started, if any, or
/// the one that could not be bound.
pub open spec fn start_result(v: PoolView, p: usize, bound: bool) -> Result<
    Option<usize>,
    PinError,
> {
    match source(v.procs, p as int) {
        None => Ok(None),
        Some(from) => if start_fails(v, p, bound) {
            Err(PinError { thread_idx: v.procs[from].ready[0] })
        } else {
            Ok(Some(v.procs[from].ready[0]))
        },
    }
}

/// Whether starting the next thread on processor `p` starts thread `t`.
pub open spec fn starts(v: PoolView, p: usize, t: int) -> bool {
    source(v.procs, p as int) matches Some(from) && v.procs[from].ready[0] == t
}

/// The pool after the next thread was started on each of the processors, one after the other, each
/// bound where it has to be.
pub open spec fn after_starts(v: PoolView, processors: Seq<usize>) -> PoolView
    decreases processors.len(),
{
    if processors.len() == 0 {
        v
    } else {
        after_start(after_starts(v, processors.drop_last()), processors.last(), true)
    }
}

/// The OS processors that a thread may run on, which could run on `cpus` before `pin`.
pub open spec fn mask_after(cpus: Set<nat>, pin: Option<Pin>) -> Set<nat> {
    match pin {
        None => cpus,
        Some(pin) => cpu_set_members(pin.cpus),
    }
}

/// The pool after it was given a task: each processor starts its first ready thread.
pub open spec fn after_run(v: PoolView) -> PoolView {
    PoolView {
        task: true,
        procs: v.procs.map_values(
            |proc: ProcessorView|
                ProcessorView {
                    ready: proc.ready.drop_first(),
                    done: proc.done.push(proc.ready[0]),
                    ..proc
                },
        ),
        threads: v.threads.map(
            |t: int, thread: ThreadScheduling|
                if is_head(v, t) {
                    posted(thread)
                } else {
                    thread
                },
        ),
        ..v
    }
}

/// Whether thread `t` is the first ready thread of its processor.
pub open spec fn is_head(v: PoolView, t: int) -> bool {
    let ready = v.procs[v.threads[t].logical_processor_idx as int].ready;
    ready.len() > 0 && ready[0] == t
}

/// The pool after thread `t` took its permit and found a task: it runs the task.
pub open spec fn after_task_begin(v: PoolView, t: int) -> PoolView {
    PoolView { threads: v.threads.update(t, woken(v.threads[t], WorkerState::Working)), ..v }
}

/// The pool while thread `t` took its permit, found no task, and has not told anyone yet.
pub open spec fn loop_left(v: PoolView, t: int) -> PoolView {
    PoolView { threads: v.threads.update(t, woken(v.threads[t], WorkerState::Ended)), ..v }
}

/// The pool after thread `t` took its permit and found no task: it ends, and starts the next
/// thread on its processor.
pub open spec fn after_exit(v: PoolView, t: int) -> PoolView {
    let next = after_start(loop_left(v, t), v.threads[t].logical_processor_idx, true);
    PoolView { latch: counter_dropped(next.latch), ..next }
}

/// Whether thread `t` ends when it is done with the task: the task panicked on it, or the thread
/// panics over a binding that failed.
pub open spec fn ends_by_panic(v: PoolView, t: int, panicked: bool, bound: bool) -> bool {
    panicked || start_fails(v, v.threads[t].logical_processor_idx, bound)
}

/// The pool while thread `t` is done with the task, goes on or ends, and has not told anyone yet.
pub open spec fn task_left(v: PoolView, t: int, ended: bool) -> PoolView {
    let state = if ended {
        WorkerState::Ended
    } else {
        WorkerState::Waiting
    };
    PoolView { threads: v.threads.update(t, ThreadScheduling { state, ..v.threads[t] }), ..v }
}

/// The pool after thread `t` was done with the task: it starts the next thread on its processor
/// and counts down. If the task panicked, or the next thread could not be bound, the thread ends
/// and the pool is poisoned.
pub open spec fn after_task_end(v: PoolView, t: int, panicked: bool, bound: bool) -> PoolView {
    let ended = ends_by_panic(v, t, panicked, bound);
    let next = after_start(task_left(v, t, ended), v.threads[t].logical_processor_idx, bound);
    PoolView {
        panicked: v.panicked || ended,
        latch: if ended {
            counter_dropped(next.latch)
        } else {
            counted_down(next.latch)
        },
        ..next
    }
}

/// The pool after a thread without a processor panicked.
pub open spec fn after_fail(v: PoolView) -> PoolView {
    PoolView {
        panicked: true,
        unplaced: (v.unplaced - 1) as nat,
        latch: counter_dropped(v.latch),
        ..v
    }
}

/// The pool after the task was cleared: every thread that was run is ready again.
pub open spec fn after_scope(v: PoolView) -> PoolView {
    PoolView {
        task: false,
        procs: swapped(v.procs),
        latch: CountDownLatch { remaining: v.latch.counters, ..v.latch },
        ..v
    }
}

/// The pool after it was told to stop: every thread can wake.
pub open spec fn after_stop(v: PoolView) -> PoolView {
    PoolView {
        threads: v.threads.map_values(|thread: ThreadScheduling| posted(thread)),
        ..v
    }
}

// ---- states ----

/// The logical processor that thread `t` is assigned to.
pub open spec fn proc_of(v: PoolView, t: int) -> int {
    v.threads[t].logical_processor_idx as int
}

/// Whether thread `t` waits for its turn on its processor.
pub open spec fn is_ready(v: PoolView, t: int) -> bool {
    v.procs[proc_of(v, t)].ready.contains(t as usize)
}

/// Whether thread `t` was started on its processor in this round.
pub open spec fn is_done(v: PoolView, t: int) -> bool {
    v.procs[proc_of(v, t)].done.contains(t as usize)
}

/// Whether thread `t` was handed out to a processor and could not be bound to it: it is in no queue
/// of its own processor.
pub open spec fn is_stranded(v: PoolView, t: int) -> bool {
    !is_ready(v, t) && !is_done(v, t)
}

/// Whether every thread that was handed out in this round could be bound.
pub open spec fn none_stranded(v: PoolView) -> bool {
    forall|t: int| 0 <= t < v.threads.len() ==> #[trigger] is_ready(v, t) || is_done(v, t)
}

/// The number of permits that thread `t` can take.
pub open spec fn permits(v: PoolView, t: int) -> int {
    v.threads[t].task_start_semaphore.permits as int
}

/// Whether thread `t` occupies its processor: it was started and is not done with the task.
pub open spec fn is_active(v: PoolView, t: int) -> bool {
    permits(v, t) > 0 || v.threads[t].state == WorkerState::Working
}

/// The threads that have not ended.
pub open spec fn live(v: PoolView) -> Set<int> {
    set_int_range(0, v.threads.len() as int).filter(
        |t: int| v.threads[t].state != WorkerState::Ended,
    )
}

/// The threads of processor `p` that have not ended.
pub open spec fn live_on(v: PoolView, p: int) -> Set<int> {
    set_int_range(0, v.threads.len() as int).filter(
        |t: int| proc_of(v, t) == p && v.threads[t].state != WorkerState::Ended,
    )
}

/// The threads that are not done with the task.
pub open spec fn unfinished(v: PoolView) -> Set<int> {
    set_int_range(0, v.threads.len() as int).filter(
        |t: int| is_ready(v, t) || is_active(v, t) || is_stranded(v, t),
    )
}

/// Whether no thread is in more than one place of one queue, and that queue is one of the processor
/// that it is assigned to, unless it is stranded.
pub open spec fn queues_wf(v: PoolView) -> bool {
    &&& v.procs.len() <= v.threads.len() <= usize::MAX
    &&& v.threads.len() > 0 ==> v.procs.len() > 0
    &&& forall|t: int| 0 <= t < v.threads.len() ==> 0 <= #[trigger] proc_of(v, t) < v.procs.len()
    &&& forall|t: int|
        0 <= t < v.threads.len() && #[trigger] is_ready(v, t) ==> !is_done(v, t)
    &&& forall|p: int, i: int|
        #![trigger v.procs[p].ready[i]]
        0 <= p < v.procs.len() && 0 <= i < v.procs[p].ready.len() ==> {
            &&& v.procs[p].ready[i] < v.threads.len()
            &&& proc_of(v, v.procs[p].ready[i] as int) == p
        }
    &&& forall|p: int, i: int|
        #![trigger v.procs[p].done[i]]
        0 <= p < v.procs.len() && 0 <= i < v.procs[p].done.len() ==> {
            &&& v.procs[p].done[i] < v.threads.len()
            &&& proc_of(v, v.procs[p].done[i] as int) == p || is_stranded(
                v,
                v.procs[p].done[i] as int,
            )
        }
    &&& forall|p: int, i: int, q: int, j: int|
        #![trigger v.procs[p].done[i], v.procs[q].done[j]]
        0 <= p < v.procs.len() && 0 <= i < v.procs[p].done.len() && 0 <= q < v.procs.len() && 0 <= j
            < v.procs[q].done.len() && v.procs[p].done[i] == v.procs[q].done[j] ==> p == q
    &&& forall|p: int|
        0 <= p < v.procs.len() ==> (#[trigger] v.procs[p]).ready.no_duplicates()
            && v.procs[p].done.no_duplicates()
}

/// Whether every thread is bound to the CPU of the processor that it is assigned to, where that
/// has one, and every CPU id fits in a processor mask.
pub open spec fn pins_wf(v: PoolView) -> bool {
    &&& forall|p: int|
        0 <= p < v.procs.len() ==> ((#[trigger] v.procs[p]).cpu_id matches Some(cpu) ==> cpu_fits(
            cpu,
        ))
    &&& forall|t: int|
        0 <= t < v.threads.len() ==> ((#[trigger] v.threads[t]).affinity matches Some(cpu)
            ==> cpu_fits(cpu))
    &&& forall|t: int|
        0 <= t < v.threads.len() ==> (v.procs[#[trigger] proc_of(v, t)].cpu_id is Some
            ==> v.threads[t].affinity == v.procs[proc_of(v, t)].cpu_id)
}

/// What holds in every state of a pool.
pub open spec fn base_wf(v: PoolView) -> bool {
    &&& queues_wf(v)
    &&& pins_wf(v)
    &&& v.threads.len() + v.unplaced <= v.num_threads <= usize::MAX
    &&& v.procs.len() > 0 ==> v.threads.len() == v.num_threads
    &&& v.threads.len() + v.unplaced < v.num_threads ==> v.panicked
    &&& v.latch.counters == live(v).len() + v.unplaced
}

/// No task is set and nothing runs: every thread sleeps, ready for the next task.
pub open spec fn is_idle(v: PoolView) -> bool {
    &&& base_wf(v)
    &&& none_stranded(v)
    &&& !v.task
    &&& v.latch.remaining == v.latch.counters
    &&& forall|t: int| 0 <= t < v.threads.len() ==> !#[trigger] is_active(v, t)
    &&& forall|t: int|
        0 <= t < v.threads.len() ==> ((#[trigger] v.threads[t]).state == WorkerState::Ended
            ==> v.panicked)
    &&& forall|p: int|
        0 <= p < v.procs.len() ==> (#[trigger] v.procs[p]).ready.len() > 0
            && v.procs[p].done.len() == 0
}

/// A task is set, and the threads run it one after the other on each processor.
pub open spec fn in_round(v: PoolView) -> bool {
    &&& base_wf(v)
    &&& v.task
    &&& v.latch.remaining == unfinished(v).len() + v.unplaced
    &&& forall|t: int|
        0 <= t < v.threads.len() ==> {
            &&& #[trigger] permits(v, t) <= 1
            &&& is_ready(v, t) ==> permits(v, t) == 0 && v.threads[t].state == WorkerState::Waiting
            &&& permits(v, t) > 0 ==> v.threads[t].state == WorkerState::Waiting
            &&& v.threads[t].state == WorkerState::Ended ==> v.panicked
            &&& is_stranded(v, t) ==> {
                &&& permits(v, t) == 0
                &&& v.threads[t].state == WorkerState::Waiting
                &&& v.panicked
            }
        }
    &&& forall|t: int, u: int|
        #![trigger is_active(v, t), is_active(v, u)]
        0 <= t < v.threads.len() && 0 <= u < v.threads.len() && is_active(v, t) && is_active(v, u)
            && proc_of(v, t) == proc_of(v, u) ==> t == u
    &&& none_stranded(v) && (exists|t: int|
        0 <= t < v.threads.len() && #[trigger] is_ready(v, t)) ==> forall|p: int|
        0 <= p < v.procs.len() ==> #[trigger] is_busy(v, p)
    &&& forall|p: int| 0 <= p < v.procs.len() ==> (#[trigger] v.procs[p]).done.len() > 0
}

/// Whether some thread occupies processor `p`.
pub open spec fn is_busy(v: PoolView, p: int) -> bool {
    exists|t: int| 0 <= t < v.threads.len() && #[trigger] is_active(v, t) && proc_of(v, t) == p
}

/// The pool was told to stop, and its threads end one by one.
pub open spec fn is_stopping(v: PoolView) -> bool {
    &&& base_wf(v)
    &&& none_stranded(v)
    &&& !v.task
    &&& v.latch.remaining == v.latch.counters
    &&& forall|t: int|
        0 <= t < v.threads.len() ==> {
            &&& #[trigger] permits(v, t) <= 2
            &&& is_ready(v, t) ==> permits(v, t) <= 1
            &&& v.threads[t].state != WorkerState::Working
            &&& v.threads[t].state == WorkerState::Waiting ==> permits(v, t) > 0
        }
    &&& forall|p: int|
        0 <= p < v.procs.len() ==> (#[trigger] v.procs[p]).ready.len() >= live_on(v, p).len()
}

/// Whether a pool can be in the state.
pub open spec fn pool_wf(v: PoolView) -> bool {
    is_idle(v) || in_round(v) || is_stopping(v)
}

/// Whether two states are of a pool with the same threads and processors.
pub open spec fn same_resources(v: PoolView, w: PoolView) -> bool {
    &&& w.num_threads == v.num_threads
    &&& w.threads.len() == v.threads.len()
    &&& w.procs.len() == v.procs.len()
    &&& forall|t: int|
        0 <= t < v.threads.len() ==> (#[trigger] w.threads[t]).tid == v.threads[t].tid
    &&& forall|p: int|
        0 <= p < v.procs.len() ==> (#[trigger] w.procs[p]).cpu_id == v.procs[p].cpu_id
}

// ---- runs ----

/// A step that a pool takes. The threads take theirs in any order that the state of the pool
/// allows.
pub enum Event {
    /// The pool is given a task.
    Run,
    /// A thread takes a permit from its start semaphore.
    Begin(int),
    /// A thread is done with the task, which panicked on it or not. The next thread on its
    /// processor could be bound or not, where it has to be.
    End(int, bool, bool),
    /// A thread finds that it has no processor, and panics.
    Fail,
    /// The scope in which the task was run is left.
    EndScope,
    /// The pool is told to stop.
    Join,
}

/// Whether the pool can take the step.
pub open spec fn enabled(v: PoolView, event: Event) -> bool {
    match event {
        Event::Run => is_idle(v) && !v.panicked,
        Event::Begin(t) => {
            &&& 0 <= t < v.threads.len()
            &&& v.threads[t].state == WorkerState::Waiting
            &&& permits(v, t) > 0
        },
        Event::End(t, panicked, bound) => {
            &&& 0 <= t < v.threads.len()
            &&& v.threads[t].state == WorkerState::Working
            &&& panicked ==> !start_fails(v, v.threads[t].logical_processor_idx, bound)
        },
        Event::Fail => v.unplaced > 0,
        Event::EndScope => v.task && v.latch.remaining == 0,
        Event::Join => is_idle(v),
    }
}

/// Whether the step is one in which the next thread could not be bound.
pub open spec fn binding_fails(v: PoolView, event: Event) -> bool {
    event matches Event::End(t, _, bound) && start_fails(
        v,
        v.threads[t].logical_processor_idx,
        bound,
    )
}

/// The pool after the step.
pub open spec fn after(v: PoolView, event: Event) -> PoolView {
    match event {
        Event::Run => after_run(v),
        Event::Begin(t) => if v.task {
            after_task_begin(v, t)
        } else {
            after_exit(v, t)
        },
        Event::End(t, panicked, bound) => after_task_end(v, t, panicked, bound),
        Event::Fail => after_fail(v),
        Event::EndScope => after_scope(v),
        Event::Join => after_stop(v),
    }
}

/// Whether the pool can take the steps one after the other.
pub open spec fn is_run(v: PoolView, events: Seq<Event>) -> bool
    decreases events.len(),
{
    events.len() == 0 || {
        &&& enabled(v, events[0])
        &&& is_run(after(v, events[0]), events.drop_first())
    }
}

/// The pool after the steps.
pub open spec fn outcome(v: PoolView, events: Seq<Event>) -> PoolView
    decreases events.len(),
{
    if events.len() == 0 {
        v
    } else {
        outcome(after(v, events[0]), events.drop_first())
    }
}

/// Whether all steps are ones of the threads.
pub open spec fn only_threads(events: Seq<Event>) -> bool {
    forall|i: int|
        0 <= i < events.len() ==> #[trigger] events[i] is Begin || events[i] is End
            || events[i] is Fail
}

/// How often thread `t` begins the task.
pub open spec fn begins(events: Seq<Event>, t: int) -> nat
    decreases events.len(),
{
    if events.len() == 0 {
        0
    } else {
        let rest = begins(events.drop_first(), t);
        if events[0] == Event::Begin(t) {
            rest + 1
        } else {
            rest
        }
    }
}

/// How often thread `t` is done with the task.
pub open spec fn ends(events: Seq<Event>, t: int) -> nat
    decreases events.len(),
{
    if events.len() == 0 {
        0
    } else {
        let rest = ends(events.drop_first(), t);
        if events[0] is End && events[0]->End_0 == t {
            rest + 1
        } else {
            rest
        }
    }
}

} // verus!
