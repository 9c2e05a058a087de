//! What holds of a pool over all of its steps, whatever the order in which its threads take theirs.

use crate::affinity::{cpu_fits, cpu_set_members};
use crate::bounded::{Pin, PinError, ThreadScheduling, WorkerState};
use crate::invariants::{
    lemma_exit, lemma_fail, lemma_finite, lemma_left, lemma_new, lemma_run, lemma_scope,
    lemma_start, lemma_stop, lemma_task_begin, lemma_task_end, lemma_thread_left,
};
use crate::logical_processor::{
    hand_out, lemma_least_distance, lemma_source, lemma_source_is, none_ready, ring, source,
    swapped, ProcessorView,
};
use crate::model::{
    after, after_exit, after_fail, after_run, after_scope, after_start, after_starts, after_stop,
    after_task_begin, after_task_end, assigned, begins, binding, binding_fails, cpus_fit, dealt,
    enabled, ends, ends_by_panic, in_round, is_active, is_busy, is_done, is_idle, is_pin, is_ready,
    is_run, is_stopping, is_stranded, live, loop_left, mask_after, new_pool, none_stranded,
    only_threads, outcome, permits, pins_wf, pool_wf, proc_of, processor_count, queues_wf,
    same_resources, start_fails, start_result, starts, task_left, unfinished, Event, PoolView,
};
use nix::sched::CpuSet;
use vstd::prelude::*;
use vstd::set_lib::set_int_range;

verus! {

// ---- every state ----

/// A step leads from a state that a pool can be in to one that it can be in.
pub proof fn law_step_keeps_wf(v: PoolView, event: Event)
    requires
        pool_wf(v),
        enabled(v, event),
    ensures
        pool_wf(after(v, event)),
{
    match event {
        Event::Run => lemma_run(v),
        Event::Begin(t) => {
            assert(is_active(v, t));
            if v.task {
                lemma_task_begin(v, t);
            } else {
                lemma_exit(v, t);
            }
        },
        Event::End(t, panicked, bound) => {
            assert(is_active(v, t));
            assert(is_stopping(v) ==> permits(v, t) <= 2);
            lemma_task_end(v, t, panicked, bound);
        },
        Event::Fail => lemma_fail(v),
        Event::EndScope => lemma_scope(v),
        Event::Join => lemma_stop(v),
    }
}

/// Whatever steps a pool takes, in whatever order, it stays in the states that it can be in.
pub proof fn law_run_keeps_wf(v: PoolView, events: Seq<Event>)
    requires
        pool_wf(v),
        is_run(v, events),
    ensures
        pool_wf(outcome(v, events)),
    decreases events.len(),
{
    if events.len() > 0 {
        law_step_keeps_wf(v, events[0]);
        law_run_keeps_wf(after(v, events[0]), events.drop_first());
    }
}

/// Steps leave the number of threads and of processors, the OS ids of the threads and the CPU ids
/// of the processors as they are.
pub proof fn law_step_keeps_resources(v: PoolView, event: Event)
    requires
        pool_wf(v),
        enabled(v, event),
    ensures
        same_resources(v, after(v, event)),
{
    match event {
        Event::Begin(t) => {
            assert(is_active(v, t));
            if !v.task {
                lemma_exit(v, t);
                lemma_thread_left(v, loop_left(v, t), t, true);
            }
        },
        Event::End(t, panicked, bound) => {
            assert(is_active(v, t));
            assert(is_stopping(v) ==> permits(v, t) <= 2);
            let ended = ends_by_panic(v, t, panicked, bound);
            lemma_thread_left(v, task_left(v, t, ended), t, bound);
        },
        _ => {},
    }
}

/// Whatever steps a pool takes, it keeps its threads and processors.
pub proof fn law_run_keeps_resources(v: PoolView, events: Seq<Event>)
    requires
        pool_wf(v),
        is_run(v, events),
    ensures
        same_resources(v, outcome(v, events)),
    decreases events.len(),
{
    if events.len() > 0 {
        let w = after(v, events[0]);
        law_step_keeps_wf(v, events[0]);
        law_step_keeps_resources(v, events[0]);
        law_run_keeps_resources(w, events.drop_first());
        let end = outcome(v, events);
        assert forall|t: int| 0 <= t < v.threads.len() implies (#[trigger] end.threads[t]).tid
            == v.threads[t].tid by {
            assert(w.threads[t].tid == v.threads[t].tid);
        }
        assert forall|p: int| 0 <= p < v.procs.len() implies (#[trigger] end.procs[p]).cpu_id
            == v.procs[p].cpu_id by {
            assert(w.procs[p].cpu_id == v.procs[p].cpu_id);
        }
    }
}

/// In every state, a thread is bound to the OS processor of its logical processor, where that has
/// one.
pub proof fn law_threads_are_pinned(v: PoolView, t: int)
    requires
        pool_wf(v),
        0 <= t < v.threads.len(),
        v.procs[proc_of(v, t)].cpu_id is Some,
    ensures
        v.threads[t].affinity == v.procs[proc_of(v, t)].cpu_id,
{
}

/// In every state, each thread is in a queue of the processor that it is assigned to, but for a
/// thread that could not be bound: that one has not run the task and cannot wake, and the pool is
/// poisoned.
pub proof fn law_every_thread_is_queued(v: PoolView, t: int)
    requires
        pool_wf(v),
        0 <= t < v.threads.len(),
    ensures
        0 <= proc_of(v, t) < v.procs.len(),
        is_ready(v, t) || is_done(v, t) || {
            &&& v.task
            &&& v.panicked
            &&& v.threads[t].state == WorkerState::Waiting
            &&& permits(v, t) == 0
        },
{
    assert(in_round(v) ==> permits(v, t) <= 1);
}

/// As long as no binding fails, each thread stays in a queue of the processor that it is assigned
/// to; the first binding that fails takes a thread out of them.
pub proof fn law_only_a_failed_binding_strands(v: PoolView, event: Event)
    requires
        pool_wf(v),
        none_stranded(v),
        enabled(v, event),
    ensures
        none_stranded(after(v, event)) <==> !binding_fails(v, event),
{
    let w = after(v, event);
    law_step_keeps_wf(v, event);
    match event {
        Event::Run => lemma_run(v),
        Event::Begin(t) => {
            assert(is_active(v, t));
            if v.task {
                lemma_left(v, w, t);
            } else {
                lemma_exit(v, t);
            }
        },
        Event::End(t, panicked, bound) => {
            assert(is_active(v, t));
            assert(is_stopping(v) ==> permits(v, t) <= 2);
            let p = v.threads[t].logical_processor_idx;
            let left = task_left(v, t, ends_by_panic(v, t, panicked, bound));
            let next = after_start(left, p, bound);
            lemma_thread_left(v, left, t, bound);
            assert(w.procs == next.procs && w.threads == next.threads);
            assert(forall|u: int| #[trigger] is_ready(w, u) == is_ready(next, u));
            assert(forall|u: int| #[trigger] is_done(w, u) == is_done(next, u));
            if start_fails(v, p, bound) {
                let s = v.procs[source(v.procs, p as int)->0].ready[0] as int;
                assert(is_stranded(next, s));
                assert(!is_ready(w, s) && !is_done(w, s));
            } else {
                assert forall|u: int| 0 <= u < w.threads.len() implies #[trigger] is_ready(w, u)
                    || is_done(w, u) by {
                    assert(is_ready(v, u) || is_done(v, u));
                    assert(is_ready(left, u) == is_ready(v, u));
                    assert(is_done(left, u) == is_done(v, u));
                    assert(is_ready(next, u) == is_ready(v, u) || is_done(next, u));
                }
            }
        },
        Event::Fail => lemma_fail(v),
        Event::EndScope => lemma_scope(v),
        Event::Join => lemma_stop(v),
    }
}

/// In every state, a thread is in no more than one place of no more than one queue. The queue is
/// one of the processor that it is assigned to, unless the thread could not be bound.
pub proof fn law_no_thread_is_queued_twice(v: PoolView, t: int, p: int, q: int, i: int, j: int)
    requires
        pool_wf(v),
        0 <= t < v.threads.len(),
        0 <= p < v.procs.len(),
        0 <= q < v.procs.len(),
        0 <= i < (v.procs[p].ready + v.procs[p].done).len(),
        0 <= j < (v.procs[q].ready + v.procs[q].done).len(),
        (v.procs[p].ready + v.procs[p].done)[i] == t,
        (v.procs[q].ready + v.procs[q].done)[j] == t,
    ensures
        p == q,
        i == j,
        is_ready(v, t) || is_done(v, t) ==> p == proc_of(v, t),
{
    let k = v.procs[p].ready.len();
    let l = v.procs[q].ready.len();
    assert(is_ready(v, t) ==> !is_done(v, t));
    if i < k {
        assert(v.procs[p].ready[i] == t);
        assert(v.procs[p].ready.contains(t as usize));
    } else {
        assert(v.procs[p].done[i - k] == t);
        assert(v.procs[p].done.contains(t as usize));
    }
    if j < l {
        assert(v.procs[q].ready[j] == t);
        assert(v.procs[q].ready.contains(t as usize));
    } else {
        assert(v.procs[q].done[j - l] == t);
        assert(v.procs[q].done.contains(t as usize));
    }
    assert(v.procs[p].ready.no_duplicates() && v.procs[p].done.no_duplicates());
}

/// A thread index names one and the same OS thread for the life of a pool, whatever processor the
/// thread is on, and different indices name different ones.
pub proof fn law_thread_index_names_one_os_thread(
    cpu_ids: Seq<Option<u32>>,
    tids: Seq<i32>,
    events: Seq<Event>,
    t: int,
    u: int,
)
    requires
        tids.len() <= usize::MAX,
        tids.no_duplicates(),
        cpus_fit(cpu_ids, processor_count(cpu_ids, tids.len()) as int),
        is_run(new_pool(cpu_ids, tids), events),
        0 <= t < new_pool(cpu_ids, tids).threads.len(),
        0 <= u < new_pool(cpu_ids, tids).threads.len(),
    ensures
        outcome(new_pool(cpu_ids, tids), events).threads[t].tid == tids[t],
        outcome(new_pool(cpu_ids, tids), events).threads[u].tid == tids[u],
        t != u ==> tids[t] != tids[u],
{
    lemma_new(cpu_ids, tids);
    law_run_keeps_resources(new_pool(cpu_ids, tids), events);
}

// ---- a new pool ----

/// A pool with threads and no CPU id has no processor. None of its threads is ever run: each can
/// panic at any time, and as soon as one has, the pool is poisoned.
pub proof fn law_pool_without_processors_is_poisoned(tids: Seq<i32>, events: Seq<Event>)
    requires
        0 < tids.len() <= usize::MAX,
        is_run(new_pool(Seq::empty(), tids), events),
    ensures
        ({
            let v = outcome(new_pool(Seq::empty(), tids), events);
            &&& v.procs.len() == 0
            &&& v.threads.len() == 0
            &&& v.num_threads == tids.len()
            &&& v.unplaced > 0 ==> enabled(v, Event::Fail)
            &&& v.unplaced < tids.len() ==> v.panicked
        }),
{
    lemma_new(Seq::empty(), tids);
    law_run_keeps_wf(new_pool(Seq::empty(), tids), events);
    law_run_keeps_resources(new_pool(Seq::empty(), tids), events);
}

/// The threads are dealt to the processors evenly: no processor gets more than one thread more than
/// another, and each gets at least one.
pub proof fn law_threads_dealt_evenly(cpu_ids: Seq<Option<u32>>, tids: Seq<i32>, p: int, q: int)
    requires
        0 <= p < processor_count(cpu_ids, tids.len()),
        0 <= q < processor_count(cpu_ids, tids.len()),
    ensures
        new_pool(cpu_ids, tids).procs[p].ready.len() <= new_pool(cpu_ids, tids).procs[q].ready.len()
            + 1,
        new_pool(cpu_ids, tids).procs[p].ready.len() > 0,
{
    let num = processor_count(cpu_ids, tids.len());
    lemma_dealt_len(p, num, tids.len());
    lemma_dealt_len(q, num, tids.len());
    assert(tids.len() / num >= 1) by {
        vstd::arithmetic::div_mod::lemma_div_non_zero(tids.len() as int, num as int);
    }
}

/// The number of threads that are dealt to a processor.
proof fn lemma_dealt_len(p: int, num: nat, n: nat)
    requires
        0 <= p < num,
    ensures
        dealt(p, num, n).len() == n / num + (if p < n % num {
            1int
        } else {
            0int
        }),
    decreases n,
{
    let d = num as int;
    if n == 0 {
        vstd::arithmetic::div_mod::lemma_small_mod(0, num);
        vstd::arithmetic::div_mod::lemma_basic_div(0, d);
    } else {
        let m = (n - 1) as nat;
        lemma_dealt_len(p, num, m);
        vstd::arithmetic::div_mod::lemma_fundamental_div_mod(m as int, d);
        vstd::arithmetic::div_mod::lemma_mod_bound(m as int, d);
        if m % num + 1 < num {
            vstd::arithmetic::div_mod::lemma_fundamental_div_mod_converse(
                n as int,
                d,
                (m / num) as int,
                (m % num + 1) as int,
            );
        } else {
            let quotient = (m / num) as int;
            assert((quotient + 1) * d == d * quotient + d) by (nonlinear_arith);
            vstd::arithmetic::div_mod::lemma_fundamental_div_mod_converse(
                n as int,
                d,
                quotient + 1,
                0,
            );
        }
    }
}

// ---- starting threads ----

/// What starts on any processors, in any order and each bound where it has to be, come to for a
/// thread: a thread that was ready and
/// no longer is was started by exactly one of them, has one permit more, and is assigned to the
/// processor of that one. Any other thread is as it was.
pub proof fn law_starts_start_each_thread_once(v: PoolView, processors: Seq<usize>, t: int)
    requires
        queues_wf(v),
        pins_wf(v),
        forall|u: int|
            0 <= u < v.threads.len() && #[trigger] is_ready(v, u) ==> permits(v, u) < usize::MAX,
        forall|i: int| 0 <= i < processors.len() ==> (#[trigger] processors[i]) < v.procs.len(),
        0 <= t < v.threads.len(),
    ensures
        queues_wf(after_starts(v, processors)),
        pins_wf(after_starts(v, processors)),
        same_resources(v, after_starts(v, processors)),
        is_ready(after_starts(v, processors), t) ==> is_ready(v, t),
        is_ready(v, t) && !is_ready(after_starts(v, processors), t) ==> {
            &&& permits(after_starts(v, processors), t) == permits(v, t) + 1
            &&& after_starts(v, processors).threads[t].state == v.threads[t].state
            &&& exists|i: int| is_start_of(v, processors, i, t)
        },
        is_ready(v, t) == is_ready(after_starts(v, processors), t) ==> after_starts(
            v,
            processors,
        ).threads[t] == v.threads[t],
        forall|i: int|
            #[trigger] is_start_of(v, processors, i, t) ==> {
                &&& is_ready(v, t)
                &&& !is_ready(after_starts(v, processors), t)
                &&& proc_of(after_starts(v, processors), t) == processors[i]
            },
        forall|i: int, j: int|
            #[trigger] is_start_of(v, processors, i, t) && #[trigger] is_start_of(
                v,
                processors,
                j,
                t,
            ) ==> i == j,
    decreases processors.len(),
{
    if processors.len() > 0 {
        let rest = processors.drop_last();
        let last = processors.len() - 1;
        let p = processors.last();
        let w = after_starts(v, rest);
        let end = after_starts(v, processors);
        assert forall|i: int| 0 <= i < rest.len() implies (#[trigger] rest[i]) < v.procs.len() by {
            assert(rest[i] == processors[i]);
        }
        law_starts_start_each_thread_once(v, rest, t);
        assert(p == processors[last]);
        lemma_start(w, p, true);
        assert(processors.take(last) =~= rest);
        assert forall|i: int| is_start_of(v, processors, i, t) implies is_start_of(v, rest, i, t)
            || (i == last && starts(w, p, t)) by {
            if i < last {
                assert(rest.take(i) =~= processors.take(i));
            }
        }
        assert forall|i: int| is_start_of(v, rest, i, t) implies is_start_of(
            v,
            processors,
            i,
            t,
        ) by {
            assert(rest.take(i) =~= processors.take(i));
        }
        assert(is_start_of(v, processors, last, t) == starts(w, p, t));
        assert(same_resources(v, end));
        if starts(w, p, t) {
            assert(is_ready(w, t));
            assert forall|i: int| !is_start_of(v, rest, i, t) by {}
        }
    }
}

/// Whether the `i`-th of the starts on the processors is the one that starts thread `t`.
pub open spec fn is_start_of(v: PoolView, processors: Seq<usize>, i: int, t: int) -> bool {
    &&& 0 <= i < processors.len()
    &&& starts(after_starts(v, processors.take(i)), processors[i], t)
}

/// Starts on any processors, in any order, until no processor gets a thread any more, start every
/// thread that was ready, each exactly once and on the processor of the start that gave it its
/// permit.
pub proof fn law_starts_until_none_is_left(
    v: PoolView,
    processors: Seq<usize>,
    p: usize,
    t: int,
) -> (i: int)
    requires
        queues_wf(v),
        pins_wf(v),
        forall|u: int|
            0 <= u < v.threads.len() && #[trigger] is_ready(v, u) ==> permits(v, u) < usize::MAX,
        forall|i: int| 0 <= i < processors.len() ==> (#[trigger] processors[i]) < v.procs.len(),
        p < v.procs.len(),
        source(after_starts(v, processors).procs, p as int) is None,
        0 <= t < v.threads.len(),
        is_ready(v, t),
    ensures
        permits(after_starts(v, processors), t) == permits(v, t) + 1,
        is_start_of(v, processors, i, t),
        proc_of(after_starts(v, processors), t) == processors[i],
        forall|j: int| #[trigger] is_start_of(v, processors, j, t) ==> j == i,
{
    law_starts_start_each_thread_once(v, processors, t);
    lemma_start(after_starts(v, processors), p, true);
    choose|i: int| is_start_of(v, processors, i, t)
}

/// A thread that is assigned to processor `p` and then to processor `q` is on `q`. It is bound to
/// the CPU of `q` if that has one, and else stays bound as it was after the first assignment;
/// nothing else of it changes. With `p` and `q` the same, the second assignment changes nothing.
pub proof fn law_second_assignment_counts(
    thread: ThreadScheduling,
    procs: Seq<ProcessorView>,
    p: usize,
    q: usize,
    first: Option<Pin>,
    second: Option<Pin>,
    cpus: Set<nat>,
)
    requires
        p < procs.len(),
        q < procs.len(),
        is_pin(first, thread.tid, procs[p as int].cpu_id),
        is_pin(second, assigned(thread, p, procs[p as int].cpu_id).tid, procs[q as int].cpu_id),
    ensures
        ({
            let once = assigned(thread, p, procs[p as int].cpu_id);
            let twice = assigned(once, q, procs[q as int].cpu_id);
            let mask_once = mask_after(cpus, first);
            let mask_twice = mask_after(mask_once, second);
            &&& twice.logical_processor_idx == q
            &&& twice == (ThreadScheduling {
                logical_processor_idx: q,
                affinity: twice.affinity,
                ..thread
            })
            &&& match procs[q as int].cpu_id {
                Some(cpu) => twice.affinity == Some(cpu) && mask_twice == set![cpu as nat],
                None => twice.affinity == once.affinity && mask_twice == mask_once,
            }
            &&& p == q ==> twice == once && mask_twice == mask_once
        }),
{
}

// ---- running a task ----

/// Each logical processor runs its threads one after the other: of the threads that occupy it,
/// there is never more than one.
pub proof fn law_processor_runs_sequentially(v: PoolView, t: int, u: int)
    requires
        pool_wf(v),
        v.task,
        0 <= t < v.threads.len(),
        0 <= u < v.threads.len(),
        is_active(v, t),
        is_active(v, u),
        proc_of(v, t) == proc_of(v, u),
    ensures
        t == u,
{
}

/// The threads that run the task or are about to.
pub open spec fn active(v: PoolView) -> Set<int> {
    set_int_range(0, v.threads.len() as int).filter(|t: int| is_active(v, t))
}

/// The parallelism of a pool is bounded by its number of processors.
pub proof fn law_parallelism_is_bounded(v: PoolView)
    requires
        pool_wf(v),
        v.task,
    ensures
        active(v).finite(),
        active(v).len() <= v.procs.len(),
{
    let procs = set_int_range(0, v.procs.len() as int);
    let used = active(v).map(|t: int| proc_of(v, t));
    vstd::set_lib::lemma_int_range(0, v.threads.len() as int);
    vstd::set_lib::lemma_int_range(0, v.procs.len() as int);
    vstd::set_lib::lemma_len_subset(active(v), set_int_range(0, v.threads.len() as int));
    assert(used.subset_of(procs)) by {
        assert forall|p: int| used.contains(p) implies procs.contains(p) by {
            let t = choose|t: int| active(v).contains(t) && p == proc_of(v, t);
            assert(0 <= proc_of(v, t) < v.procs.len());
        }
    }
    vstd::set_lib::lemma_len_subset(used, procs);
    assert forall|t: int, u: int|
        active(v).contains(t) && active(v).contains(u) && proc_of(v, t) == proc_of(v, u) implies t
        == u by {
        law_processor_runs_sequentially(v, t, u);
    }
    vstd::set_lib::lemma_map_size(active(v), used, |t: int| proc_of(v, t));
}

/// No processor stands idle while a thread waits for its turn, as long as every thread could be
/// bound.
pub proof fn law_no_processor_idles(v: PoolView, t: int, p: int)
    requires
        pool_wf(v),
        none_stranded(v),
        v.task,
        0 <= t < v.threads.len(),
        is_ready(v, t),
        0 <= p < v.procs.len(),
    ensures
        is_busy(v, p),
{
}

/// As long as the latch is closed and every thread could be bound, some thread can take a step:
/// waiting for the task to complete never waits for nothing.
pub proof fn law_round_never_stalls(v: PoolView) -> (event: Event)
    requires
        pool_wf(v),
        none_stranded(v),
        v.task,
        v.latch.remaining > 0,
    ensures
        enabled(v, event),
        event is Begin || event is End || event is Fail,
{
    if v.unplaced > 0 {
        return Event::Fail;
    }
    lemma_finite(v);
    assert(exists|t: int| unfinished(v).contains(t)) by {
        if forall|t: int| !unfinished(v).contains(t) {
            assert(unfinished(v) =~= Set::empty());
        }
    }
    let t = choose|t: int| unfinished(v).contains(t);
    let u = if is_active(v, t) {
        t
    } else {
        assert(is_ready(v, t) || is_done(v, t));
        assert(is_ready(v, t));
        assert(0 <= proc_of(v, t) < v.procs.len());
        assert(is_busy(v, proc_of(v, t)));
        choose|u: int|
            0 <= u < v.threads.len() && #[trigger] is_active(v, u) && proc_of(v, u) == proc_of(v, t)
    };
    assert(permits(v, u) <= 1);
    if permits(v, u) > 0 {
        Event::Begin(u)
    } else {
        Event::End(u, false, true)
    }
}

/// The threads that have not begun the task.
spec fn unbegun(v: PoolView) -> Set<int> {
    set_int_range(0, v.threads.len() as int).filter(|t: int| not_begun(v, t))
}

/// Whether thread `t` has not begun the task.
spec fn not_begun(v: PoolView, t: int) -> bool {
    is_ready(v, t) || permits(v, t) > 0 || is_stranded(v, t)
}

/// Whether thread `t` is not done with the task.
spec fn not_finished(v: PoolView, t: int) -> bool {
    is_ready(v, t) || is_active(v, t) || is_stranded(v, t)
}

/// What a step of a thread changes within a round.
proof fn lemma_round_step(v: PoolView, event: Event)
    requires
        in_round(v),
        enabled(v, event),
        event is Begin || event is End || event is Fail,
    ensures
        in_round(after(v, event)),
        after(v, event).threads.len() == v.threads.len(),
        forall|u: int|
            0 <= u < v.threads.len() ==> #[trigger] not_begun(after(v, event), u) == (
            not_begun(v, u) && event != Event::Begin(u)),
        forall|u: int|
            0 <= u < v.threads.len() ==> #[trigger] not_finished(after(v, event), u) == (
            not_finished(v, u) && !(event is End && event->End_0 == u)),
        event matches Event::Begin(t) ==> not_begun(v, t),
        event matches Event::End(t, _, _) ==> not_finished(v, t) && !not_begun(v, t),
{
    let w = after(v, event);
    match event {
        Event::Begin(t) => {
            lemma_task_begin(v, t);
            assert(permits(v, t) <= 1);
            lemma_left(v, w, t);
            assert forall|u: int| 0 <= u < v.threads.len() implies #[trigger] not_begun(w, u) == (
            not_begun(v, u) && u != t) && not_finished(w, u) == not_finished(v, u) by {
                assert(permits(v, u) <= 1);
                assert(is_ready(w, u) == is_ready(v, u));
                assert(is_done(w, u) == is_done(v, u));
            }
            assert forall|u: int| 0 <= u < v.threads.len() implies #[trigger] not_finished(w, u)
                == not_finished(v, u) by {
                assert(not_begun(w, u) == (not_begun(v, u) && u != t));
            }
        },
        Event::End(t, panicked, bound) => {
            let left = task_left(v, t, ends_by_panic(v, t, panicked, bound));
            let p = v.threads[t].logical_processor_idx;
            lemma_task_end(v, t, panicked, bound);
            lemma_thread_left(v, left, t, bound);
            let next = after_start(left, p, bound);
            assert(permits(v, t) <= 1);
            assert(w.procs == next.procs && w.threads == next.threads);
            assert(forall|u: int| #[trigger] is_ready(w, u) == is_ready(next, u));
            assert(forall|u: int| #[trigger] is_done(w, u) == is_done(next, u));
            assert forall|u: int| 0 <= u < v.threads.len() implies #[trigger] not_begun(w, u)
                == not_begun(v, u) && not_finished(w, u) == (not_finished(v, u) && u != t) by {
                assert(is_ready(w, u) == is_ready(next, u));
                assert(is_done(w, u) == is_done(next, u));
                assert(permits(v, u) <= 1);
                match source(v.procs, p as int) {
                    None => {
                        assert(is_ready(left, u) == is_ready(v, u));
                        assert(is_done(left, u) == is_done(v, u));
                    },
                    Some(from) => {
                        let s = v.procs[from].ready[0] as int;
                        assert(permits(v, s) <= 1);
                        if u != s {
                            assert(next.threads[u] == left.threads[u]);
                        }
                    },
                }
            }
            assert forall|u: int| 0 <= u < v.threads.len() implies #[trigger] not_finished(w, u)
                == (not_finished(v, u) && u != t) by {
                assert(not_begun(w, u) == not_begun(v, u));
            }
        },
        Event::Fail => lemma_fail(v),
        _ => {},
    }
}

/// One or nothing.
spec fn one_if(b: bool) -> nat {
    if b {
        1
    } else {
        0
    }
}

/// Over some steps of the threads within a round, a thread begins the task once if it goes from
/// not having begun it to having begun it, and else not at all; and the same of its end. Each step
/// begins or ends the task on one thread, or is the panic of one without a processor.
proof fn lemma_round_counts(v: PoolView, events: Seq<Event>)
    requires
        in_round(v),
        is_run(v, events),
        only_threads(events),
    ensures
        in_round(outcome(v, events)),
        outcome(v, events).threads.len() == v.threads.len(),
        forall|t: int|
            0 <= t < v.threads.len() ==> #[trigger] begins(events, t) + one_if(
                not_begun(outcome(v, events), t),
            ) == one_if(not_begun(v, t)),
        forall|t: int|
            0 <= t < v.threads.len() ==> #[trigger] ends(events, t) + one_if(
                not_finished(outcome(v, events), t),
            ) == one_if(not_finished(v, t)),
        events.len() + unbegun(outcome(v, events)).len() + unfinished(outcome(v, events)).len()
            + outcome(v, events).unplaced == unbegun(v).len() + unfinished(v).len() + v.unplaced,
    decreases events.len(),
{
    if events.len() > 0 {
        let event = events[0];
        let rest = events.drop_first();
        let w = after(v, event);
        let end = outcome(v, events);
        assert(event is Begin || event is End || event is Fail);
        assert forall|i: int| 0 <= i < rest.len() implies #[trigger] rest[i] is Begin
            || rest[i] is End || rest[i] is Fail by {
            assert(rest[i] == events[i + 1]);
        }
        lemma_round_step(v, event);
        lemma_round_counts(w, rest);
        assert forall|t: int| 0 <= t < v.threads.len() implies #[trigger] begins(events, t)
            + one_if(not_begun(end, t)) == one_if(not_begun(v, t)) by {
            assert(begins(rest, t) + one_if(not_begun(end, t)) == one_if(not_begun(w, t)));
        }
        assert forall|t: int| 0 <= t < v.threads.len() implies #[trigger] ends(events, t) + one_if(
            not_finished(end, t),
        ) == one_if(not_finished(v, t)) by {
            assert(ends(rest, t) + one_if(not_finished(end, t)) == one_if(not_finished(w, t)));
        }
        lemma_finite(v);
        lemma_finite(w);
        vstd::set_lib::lemma_int_range(0, v.threads.len() as int);
        vstd::set_lib::lemma_len_subset(unbegun(v), set_int_range(0, v.threads.len() as int));
        match event {
            Event::Begin(t) => {
                assert(unbegun(w) =~= unbegun(v).remove(t));
                assert forall|u: int| unfinished(w).contains(u) == unfinished(v).contains(u) by {
                    if 0 <= u < v.threads.len() {
                        assert(not_finished(w, u) == not_finished(v, u));
                    }
                }
                assert(unfinished(w) =~= unfinished(v));
                assert(unbegun(v).contains(t));
            },
            Event::End(t, _, _) => {
                assert(unbegun(w) =~= unbegun(v));
                assert forall|u: int|
                    unfinished(w).contains(u) == unfinished(v).remove(t).contains(u) by {
                    if 0 <= u < v.threads.len() {
                        assert(not_finished(w, u) == (not_finished(v, u) && u != t));
                    }
                }
                assert(unfinished(w) =~= unfinished(v).remove(t));
                assert(not_finished(v, t));
                assert(unfinished(v).contains(t));
            },
            Event::Fail => {
                assert(unbegun(w) =~= unbegun(v));
                assert(unfinished(w) =~= unfinished(v));
            },
            _ => {},
        }
    }
}

/// A task that was given to a pool runs exactly once on each thread that has a processor, in
/// whatever order the threads take their steps and whichever of them panic: when the latch has
/// opened, each thread has begun the task once and ended it once.
pub proof fn law_task_runs_once_on_each_thread(v: PoolView, events: Seq<Event>, t: int)
    requires
        is_idle(v),
        !v.panicked,
        is_run(after_run(v), events),
        only_threads(events),
        outcome(after_run(v), events).latch.remaining == 0,
        0 <= t < v.threads.len(),
    ensures
        begins(events, t) == 1,
        ends(events, t) == 1,
{
    let start = after_run(v);
    let end = outcome(start, events);
    lemma_run(v);
    lemma_round_counts(start, events);
    lemma_all_unfinished(v);
    lemma_finite(end);
    assert(unfinished(end) =~= Set::empty());
    assert(!unfinished(end).contains(t));
    assert(!not_finished(end, t));
    assert(unfinished(start).contains(t));
    assert(unbegun(start).contains(t));
    assert(not_begun(start, t) && not_finished(start, t));
    assert(begins(events, t) + one_if(not_begun(end, t)) == one_if(not_begun(start, t)));
    assert(ends(events, t) + one_if(not_finished(end, t)) == one_if(not_finished(start, t)));
}

/// When a task was given to an idle pool, no thread has begun it yet.
proof fn lemma_all_unfinished(v: PoolView)
    requires
        is_idle(v),
        !v.panicked,
    ensures
        unbegun(after_run(v)) == set_int_range(0, v.threads.len() as int),
        unfinished(after_run(v)) == set_int_range(0, v.threads.len() as int),
{
    let start = after_run(v);
    let all = set_int_range(0, v.threads.len() as int);
    lemma_run(v);
    lemma_finite(start);
    lemma_finite(v);
    assert(live(v) =~= all);
    vstd::set_lib::lemma_int_range(0, v.threads.len() as int);
    vstd::set_lib::lemma_subset_equality(unfinished(start), all);
    assert(unbegun(start) =~= all) by {
        assert forall|t: int| all.contains(t) implies unbegun(start).contains(t) by {
            assert(unfinished(start).contains(t));
            assert(!is_active(v, t));
        }
    }
}

/// A round takes two steps for each thread, or a single one if it has no processor, and no run of
/// the threads is longer.
pub proof fn law_round_length(v: PoolView, events: Seq<Event>)
    requires
        is_idle(v),
        !v.panicked,
        is_run(after_run(v), events),
        only_threads(events),
    ensures
        events.len() <= 2 * v.threads.len() + v.unplaced,
        outcome(after_run(v), events).latch.remaining == 0 <==> events.len() == 2 * v.threads.len()
            + v.unplaced,
{
    let start = after_run(v);
    let end = outcome(start, events);
    lemma_run(v);
    lemma_round_counts(start, events);
    lemma_all_unfinished(v);
    lemma_finite(end);
    vstd::set_lib::lemma_int_range(0, v.threads.len() as int);
    assert(unbegun(end).subset_of(unfinished(end)));
    vstd::set_lib::lemma_len_subset(unbegun(end), unfinished(end));
}

/// While a task is set, no other one can be run, and the pool cannot be joined: a scope has one
/// task at most.
pub proof fn law_one_task_per_scope(v: PoolView)
    requires
        pool_wf(v),
        v.task,
    ensures
        !enabled(v, Event::Run),
        !enabled(v, Event::Join),
{
}

/// A scope is left only when every thread is done with the task that was run in it.
pub proof fn law_scope_outlives_task(v: PoolView, t: int)
    requires
        pool_wf(v),
        enabled(v, Event::EndScope),
        0 <= t < v.threads.len(),
    ensures
        !is_active(v, t),
        !is_ready(v, t),
        v.threads[t].state != WorkerState::Working,
{
    lemma_finite(v);
    assert(unfinished(v) =~= Set::empty());
    assert(!unfinished(v).contains(t));
}

/// When a scope is left, the pool is as ready for the next task as a new one: it is idle, and every
/// thread that was run waits for its turn again, on the processor that it was run on.
pub proof fn law_scope_restores_pool(v: PoolView, t: int)
    requires
        pool_wf(v),
        enabled(v, Event::EndScope),
        0 <= t < v.threads.len(),
    ensures
        is_idle(after(v, Event::EndScope)),
        is_ready(after(v, Event::EndScope), t),
        after(v, Event::EndScope).threads == v.threads,
{
    lemma_scope(v);
    let w = after_scope(v);
    assert(0 <= proc_of(w, t) < w.procs.len());
    assert(w.procs[proc_of(w, t)].done.len() == 0);
    assert(is_ready(w, t) || is_done(w, t));
}

// ---- panics ----

/// A task that panics on a thread poisons the pool.
pub proof fn law_panic_poisons(v: PoolView, t: int, bound: bool)
    requires
        pool_wf(v),
        enabled(v, Event::End(t, true, bound)),
    ensures
        after(v, Event::End(t, true, bound)).panicked,
        after(v, Event::End(t, true, bound)).threads[t].state == WorkerState::Ended,
{
    assert(is_active(v, t));
    assert(is_stopping(v) ==> permits(v, t) <= 2);
    let left = task_left(v, t, true);
    lemma_thread_left(v, left, t, bound);
    assert(permits(v, t) <= 1);
    assert(!is_ready(v, t));
}

/// A binding that fails poisons the pool and ends the thread that asked for it. No other thread is
/// touched: the one that could not be bound is not started, and stays on the processor that it was
/// assigned to and bound as it was.
pub proof fn law_failed_binding_moves_no_thread(
    v: PoolView,
    t: int,
    next: int,
    cpu_id: u32,
    u: int,
)
    requires
        pool_wf(v),
        enabled(v, Event::End(t, false, false)),
        binding(v, v.threads[t].logical_processor_idx) == Some((next, cpu_id)),
        0 <= u < v.threads.len(),
        u != t,
    ensures
        after(v, Event::End(t, false, false)).panicked,
        after(v, Event::End(t, false, false)).threads[t].state == WorkerState::Ended,
        after(v, Event::End(t, false, false)).threads[u] == v.threads[u],
        is_stranded(after(v, Event::End(t, false, false)), next),
{
    assert(is_active(v, t));
    assert(is_stopping(v) ==> permits(v, t) <= 2);
    lemma_thread_left(v, task_left(v, t, true), t, false);
    let w = after(v, Event::End(t, false, false));
    let x = after_start(task_left(v, t, true), v.threads[t].logical_processor_idx, false);
    assert(w.procs == x.procs && w.threads == x.threads);
    assert(is_stranded(x, next));
}

/// A thread that could not be bound is never started in that round, whatever steps the pool takes:
/// the latch stays closed, and the scope is never left.
pub proof fn law_failed_binding_holds_up_the_scope(v: PoolView, events: Seq<Event>, t: int)
    requires
        pool_wf(v),
        v.task,
        0 <= t < v.threads.len(),
        is_stranded(v, t),
        is_run(v, events),
    ensures
        outcome(v, events).task,
        outcome(v, events).panicked,
        outcome(v, events).latch.remaining > 0,
        !enabled(outcome(v, events), Event::EndScope),
        outcome(v, events).threads[t] == v.threads[t],
        is_stranded(outcome(v, events), t),
    decreases events.len(),
{
    lemma_finite(v);
    assert(unfinished(v).contains(t));
    assert(unfinished(v).len() > 0);
    assert(permits(v, t) <= 1);
    if events.len() > 0 {
        let event = events[0];
        let w = after(v, event);
        law_step_keeps_wf(v, event);
        match event {
            Event::Begin(u) => {
                lemma_task_begin(v, u);
                lemma_left(v, w, u);
            },
            Event::End(u, panicked, bound) => {
                let p = v.threads[u].logical_processor_idx;
                let left = task_left(v, u, ends_by_panic(v, u, panicked, bound));
                let next = after_start(left, p, bound);
                assert(permits(v, u) <= 1);
                lemma_thread_left(v, left, u, bound);
                assert(w.procs == next.procs && w.threads == next.threads);
                assert(is_ready(left, t) == is_ready(v, t));
                assert(is_done(left, t) == is_done(v, t));
                assert(is_ready(next, t) == is_ready(v, t));
                assert(is_done(next, t) == is_done(v, t));
                assert(next.threads[t] == left.threads[t]);
                assert(is_stranded(w, t));
            },
            Event::Fail => lemma_fail(v),
            _ => {},
        }
        law_failed_binding_holds_up_the_scope(w, events.drop_first(), t);
    }
}

/// A poisoned pool stays poisoned, whatever steps it takes, and is given no task any more.
pub proof fn law_poison_is_final(v: PoolView, events: Seq<Event>)
    requires
        pool_wf(v),
        v.panicked,
        is_run(v, events),
    ensures
        outcome(v, events).panicked,
        !enabled(outcome(v, events), Event::Run),
        forall|i: int| 0 <= i < events.len() ==> !(#[trigger] events[i] is Run),
    decreases events.len(),
{
    if events.len() > 0 {
        let w = after(v, events[0]);
        let rest = events.drop_first();
        law_step_keeps_wf(v, events[0]);
        assert(w.panicked);
        law_poison_is_final(w, rest);
        assert forall|i: int| 0 <= i < events.len() implies !(#[trigger] events[i] is Run) by {
            if i > 0 {
                assert(rest[i - 1] == events[i]);
            }
        }
    }
}

// ---- stopping ----

/// A pool that stops moves no thread to another processor, and so binds none anew: a thread that
/// ends finds a thread of its own processor to start.
pub proof fn law_stop_moves_no_thread(v: PoolView, t: int, u: int)
    requires
        is_stopping(v),
        enabled(v, Event::Begin(t)),
        0 <= u < v.threads.len(),
    ensures
        source(v.procs, proc_of(v, t)) == Some(proc_of(v, t)),
        proc_of(after(v, Event::Begin(t)), u) == proc_of(v, u),
        after(v, Event::Begin(t)).threads[u].affinity == v.threads[u].affinity,
{
    lemma_exit(v, t);
    lemma_thread_left(v, loop_left(v, t), t, true);
}

/// A pool that stops never leaves a thread asleep: each thread that has not ended can wake.
pub proof fn law_stop_wakes_every_thread(v: PoolView, t: int)
    requires
        is_stopping(v),
        0 <= t < v.threads.len(),
        v.threads[t].state != WorkerState::Ended,
    ensures
        enabled(v, Event::Begin(t)),
        is_stopping(after(v, Event::Begin(t))),
        after(v, Event::Begin(t)).threads[t].state == WorkerState::Ended,
{
    assert(permits(v, t) <= 2);
    lemma_exit(v, t);
    lemma_thread_left(v, loop_left(v, t), t, true);
}

/// Each thread of a pool that stops ends in a single step. After as many steps as there were
/// threads left, every thread has ended, those without a processor among them.
pub proof fn law_stop_ends_every_thread(v: PoolView, events: Seq<Event>)
    requires
        is_stopping(v),
        is_run(v, events),
        only_threads(events),
    ensures
        is_stopping(outcome(v, events)),
        events.len() + live(outcome(v, events)).len() + outcome(v, events).unplaced
            == live(v).len() + v.unplaced,
        events.len() == live(v).len() + v.unplaced ==> {
            &&& outcome(v, events).unplaced == 0
            &&& forall|t: int|
                0 <= t < v.threads.len() ==> (#[trigger] outcome(v, events).threads[t]).state
                    == WorkerState::Ended
        },
    decreases events.len(),
{
    lemma_finite(v);
    let end = outcome(v, events);
    if events.len() > 0 {
        let event = events[0];
        let rest = events.drop_first();
        let w = after(v, event);
        assert(event is Begin || event is End || event is Fail);
        assert forall|i: int| 0 <= i < rest.len() implies #[trigger] rest[i] is Begin
            || rest[i] is End || rest[i] is Fail by {
            assert(rest[i] == events[i + 1]);
        }
        if let Event::End(t, _, _) = event {
            assert(permits(v, t) <= 2);
        }
        if event is Fail {
            lemma_fail(v);
            assert(live(w) =~= live(v));
            law_stop_ends_every_thread(w, rest);
            return;
        }
        let t = event->Begin_0;
        lemma_exit(v, t);
        lemma_thread_left(v, loop_left(v, t), t, true);
        assert forall|u: int| 0 <= u < v.threads.len() implies (#[trigger] w.threads[u]).state == (
        if u == t {
            WorkerState::Ended
        } else {
            v.threads[u].state
        }) by {}
        assert(live(w) =~= live(v).remove(t));
        assert(live(v).contains(t));
        law_stop_ends_every_thread(w, rest);
    } else if live(v).len() == 0 {
        assert(live(v) =~= Set::empty());
        assert forall|t: int| 0 <= t < v.threads.len() implies (#[trigger] v.threads[t]).state
            == WorkerState::Ended by {
            assert(!live(v).contains(t));
        }
    }
}

// ---- what an operation does ----

/// Whether thread `u` waits for its turn in the queue of some processor.
pub open spec fn is_waiting(v: PoolView, u: int) -> bool {
    exists|q: int| 0 <= q < v.procs.len() && (#[trigger] v.procs[q]).ready.contains(u as usize)
}

/// Whether some thread waits for its turn.
pub open spec fn has_waiting(procs: Seq<ProcessorView>) -> bool {
    exists|q: int| 0 <= q < procs.len() && (#[trigger] procs[q]).ready.len() > 0
}

/// Whether `from` is the first processor with a waiting thread, looking at `p`, at the processors
/// after it, and then at those before it.
pub open spec fn is_first_with_waiting(procs: Seq<ProcessorView>, p: int, from: int) -> bool {
    &&& 0 <= from < procs.len()
    &&& procs[from].ready.len() > 0
    &&& p <= from ==> forall|q: int| p <= q < from ==> (#[trigger] procs[q]).ready.len() == 0
    &&& from < p ==> forall|q: int|
        p <= q < procs.len() || 0 <= q < from ==> (#[trigger] procs[q]).ready.len() == 0
}

/// A processor that asks for a worker gets none only if none waits anywhere. Otherwise it is given
/// one of the first processor that has any, itself first.
pub proof fn law_processor_takes_from_the_first(procs: Seq<ProcessorView>, p: int)
    requires
        0 <= p < procs.len(),
    ensures
        source(procs, p) is Some <==> has_waiting(procs),
        source(procs, p) matches Some(from) ==> is_first_with_waiting(procs, p, from),
        procs[p].ready.len() > 0 ==> source(procs, p) == Some(p),
{
    let n = procs.len() as int;
    lemma_source(procs, p);
    if has_waiting(procs) {
        let q = choose|q: int| 0 <= q < n && (#[trigger] procs[q]).ready.len() > 0;
        assert(!none_ready(procs));
        if procs[p].ready.len() == 0 {
            let from = source(procs, p)->0;
            let d = if q >= p {
                q - p
            } else {
                q - p + n
            };
            assert(ring(p, d, n) == q);
            let k = lemma_least_distance(procs, p, d);
            lemma_source_is(procs, p, k);
            assert(from == ring(p, k, n));
            assert forall|x: int|
                0 <= x < n && (p <= x < from || (from < p && (p <= x || x < from))) implies (
            #[trigger] procs[x]).ready.len() == 0 by {
                let j = if x >= p {
                    x - p
                } else {
                    x - p + n
                };
                assert(0 <= j < k);
                assert(ring(p, j, n) == x);
            }
        }
    }
}

/// A worker that is handed out leaves the front of one queue of waiting workers and joins the end
/// of the queue of workers that were handed out to the processor. Every other queue stays as it is.
pub proof fn law_handed_out_worker_changes_queues(procs: Seq<ProcessorView>, from: int, p: int)
    requires
        0 <= from < procs.len(),
        0 <= p < procs.len(),
        procs[from].ready.len() > 0,
    ensures
        ({
            let after = hand_out(procs, from, p);
            let worker = procs[from].ready[0];
            &&& after.len() == procs.len()
            &&& procs[from].ready == seq![worker] + after[from].ready
            &&& after[p].done == procs[p].done + seq![worker]
            &&& forall|q: int|
                0 <= q < procs.len() ==> {
                    &&& (#[trigger] after[q]).cpu_id == procs[q].cpu_id
                    &&& q != from ==> after[q].ready == procs[q].ready
                    &&& q != p ==> after[q].done == procs[q].done
                }
        }),
{
    let after = hand_out(procs, from, p);
    let worker = procs[from].ready[0];
    assert(procs[from].ready =~= seq![worker] + after[from].ready);
    assert(after[p].done =~= procs[p].done + seq![worker]);
}

/// A new round makes exactly the workers wait that were handed out, in that order and on the
/// processors that they were handed out to. Two new rounds in a row change nothing.
pub proof fn law_new_round_makes_handed_out_workers_wait(procs: Seq<ProcessorView>, p: int)
    requires
        0 <= p < procs.len(),
    ensures
        swapped(procs).len() == procs.len(),
        swapped(procs)[p].ready == procs[p].done,
        swapped(procs)[p].done == procs[p].ready,
        swapped(procs)[p].cpu_id == procs[p].cpu_id,
        swapped(swapped(procs)) == procs,
{
    assert(swapped(swapped(procs)) =~= procs);
}

/// A thread waits in some queue exactly if it waits in that of its own processor.
proof fn lemma_waiting(v: PoolView, u: int)
    requires
        queues_wf(v),
        0 <= u < v.threads.len(),
    ensures
        is_waiting(v, u) <==> is_ready(v, u),
{
    if is_waiting(v, u) {
        let q = choose|q: int|
            0 <= q < v.procs.len() && (#[trigger] v.procs[q]).ready.contains(u as usize);
        let i = choose|i: int| 0 <= i < v.procs[q].ready.len() && v.procs[q].ready[i] == u as usize;
        assert(proc_of(v, v.procs[q].ready[i] as int) == q);
    }
    if is_ready(v, u) {
        assert(0 <= proc_of(v, u) < v.procs.len());
        assert(v.procs[proc_of(v, u)].ready.contains(u as usize));
    }
}

/// Starting the next thread on a processor says what it did. It names no thread only if none waits,
/// and else the one at the front of the first queue that has any. It fails only if that thread has
/// to be bound, which is if it comes from another processor and this one has a CPU id, and was not.
pub proof fn law_start_names_the_next_thread(v: PoolView, p: usize, bound: bool)
    requires
        p < v.procs.len(),
    ensures
        start_result(v, p, bound) == Ok::<Option<usize>, PinError>(None) <==> !has_waiting(v.procs),
        v.procs[p as int].ready.len() > 0 ==> start_result(v, p, bound) == Ok::<
            Option<usize>,
            PinError,
        >(Some(v.procs[p as int].ready[0])),
        start_result(v, p, bound) is Err <==> {
            &&& !bound
            &&& v.procs[p as int].ready.len() == 0
            &&& v.procs[p as int].cpu_id is Some
            &&& has_waiting(v.procs)
        },
        start_result(v, p, bound) matches Ok(Some(u)) ==> exists|from: int|
            #[trigger] is_first_with_waiting(v.procs, p as int, from) && v.procs[from].ready[0]
                == u,
        start_result(v, p, bound) matches Err(error) ==> exists|from: int|
            #[trigger] is_first_with_waiting(v.procs, p as int, from) && v.procs[from].ready[0]
                == error.thread_idx,
{
    law_processor_takes_from_the_first(v.procs, p as int);
    lemma_source(v.procs, p as int);
    if let Some(from) = source(v.procs, p as int) {
        assert(is_first_with_waiting(v.procs, p as int, from));
    }
}

/// What starting the next thread on a processor does to a thread. It gets a permit exactly if it is
/// the one that is named as started, and is then on the processor, bound to its CPU if it was on
/// another one and the processor has a CPU id. It stops waiting exactly if it is named, as started
/// or as one that could not be bound. Any other thread, and the rest of the pool, is as it was.
pub proof fn law_start_wakes_the_named_thread(v: PoolView, p: usize, bound: bool, u: int)
    requires
        queues_wf(v),
        pins_wf(v),
        p < v.procs.len(),
        0 <= u < v.threads.len(),
        is_waiting(v, u) ==> v.threads[u].task_start_semaphore.permits < usize::MAX,
    ensures
        ({
            let result = start_result(v, p, bound);
            let started = result == Ok::<Option<usize>, PinError>(Some(u as usize));
            let failed = result == Err::<Option<usize>, PinError>(
                PinError { thread_idx: u as usize },
            );
            let w = after_start(v, p, bound);
            &&& w.threads.len() == v.threads.len()
            &&& w.threads[u].task_start_semaphore.permits
                == v.threads[u].task_start_semaphore.permits + (if started {
                1int
            } else {
                0int
            })
            &&& is_waiting(w, u) <==> is_waiting(v, u) && !started && !failed
            &&& started || failed ==> is_waiting(v, u)
            &&& started ==> w.threads[u].logical_processor_idx == p
            &&& started && v.threads[u].logical_processor_idx != p
                && v.procs[p as int].cpu_id is Some ==> bound && w.threads[u].affinity
                == v.procs[p as int].cpu_id
            &&& !(started && v.threads[u].logical_processor_idx != p
                && v.procs[p as int].cpu_id is Some) ==> w.threads[u].affinity
                == v.threads[u].affinity
            &&& !started ==> w.threads[u] == v.threads[u]
            &&& w.threads[u].tid == v.threads[u].tid
            &&& w.threads[u].state == v.threads[u].state
            &&& w.task == v.task
            &&& w.panicked == v.panicked
            &&& w.num_threads == v.num_threads
            &&& w.unplaced == v.unplaced
            &&& w.latch == v.latch
        }),
{
    let w = after_start(v, p, bound);
    lemma_source(v.procs, p as int);
    lemma_start(v, p, bound);
    lemma_waiting(v, u);
    lemma_waiting(w, u);
    if let Some(from) = source(v.procs, p as int) {
        let s = v.procs[from].ready[0] as int;
        assert(proc_of(v, s) == from);
        if u != s {
            assert(w.threads[u] == v.threads[u]);
            assert(is_ready(w, u) == is_ready(v, u));
        }
    }
}

/// What starting the next thread on a processor does to the queues. None changes if no thread
/// waits. Else the thread that is named, as started or as one that could not be bound, leaves the
/// front of the first queue that has any and joins the end of the queue of threads that were handed
/// out to the processor.
pub proof fn law_start_hands_out_the_named_thread(v: PoolView, p: usize, bound: bool, q: int)
    requires
        p < v.procs.len(),
        0 <= q < v.procs.len(),
    ensures
        ({
            let w = after_start(v, p, bound);
            let named = match start_result(v, p, bound) {
                Ok(Some(u)) => seq![u],
                Ok(None) => Seq::empty(),
                Err(error) => seq![error.thread_idx],
            };
            &&& w.procs.len() == v.procs.len()
            &&& w.procs[q].cpu_id == v.procs[q].cpu_id
            &&& is_first_with_waiting(v.procs, p as int, q) ==> v.procs[q].ready == named
                + w.procs[q].ready
            &&& !is_first_with_waiting(v.procs, p as int, q) ==> w.procs[q].ready
                == v.procs[q].ready
            &&& q == p ==> w.procs[q].done == v.procs[q].done + named
            &&& q != p ==> w.procs[q].done == v.procs[q].done
        }),
{
    law_processor_takes_from_the_first(v.procs, p as int);
    let w = after_start(v, p, bound);
    match source(v.procs, p as int) {
        None => {
            assert(v.procs[q].ready.len() == 0);
            assert(v.procs[q].done =~= v.procs[q].done + Seq::<usize>::empty());
        },
        Some(from) => {
            law_handed_out_worker_changes_queues(v.procs, from, p as int);
            assert(is_first_with_waiting(v.procs, p as int, from));
            if is_first_with_waiting(v.procs, p as int, q) && q != from {
                assert(v.procs[q].ready.len() > 0 && v.procs[from].ready.len() > 0);
            }
            assert(w.procs[q] == hand_out(v.procs, from, p as int)[q]);
        },
    }
}

/// The next thread on a processor has to be bound exactly if the processor has a CPU id and no
/// thread of its own left, while one waits for another processor. It is the thread at the front of
/// the first queue that has any, and has to be bound to that CPU.
pub proof fn law_taken_over_thread_has_to_be_bound(v: PoolView, p: usize)
    requires
        p < v.procs.len(),
    ensures
        binding(v, p) is Some <==> {
            &&& v.procs[p as int].ready.len() == 0
            &&& v.procs[p as int].cpu_id is Some
            &&& has_waiting(v.procs)
        },
        !start_fails(v, p, true),
        start_fails(v, p, false) <==> binding(v, p) is Some,
        binding(v, p) matches Some((next, cpu)) ==> {
            &&& v.procs[p as int].cpu_id == Some(cpu)
            &&& exists|from: int|
                #[trigger] is_first_with_waiting(v.procs, p as int, from) && v.procs[from].ready[0]
                    == next
        },
{
    law_processor_takes_from_the_first(v.procs, p as int);
    if let Some(from) = source(v.procs, p as int) {
        assert(is_first_with_waiting(v.procs, p as int, from));
    }
}

/// What a thread that is done with the task does, in terms of what it is told was started: a thread
/// gets a permit exactly if it is the one that is named, and stops waiting exactly if it is named.
/// None is named only if none waits; a waiting thread of the same processor goes first.
pub proof fn law_end_work_names_the_thread_it_wakes(
    v: PoolView,
    t: int,
    panicked: bool,
    bound: bool,
    u: int,
)
    requires
        in_round(v),
        0 <= t < v.threads.len(),
        v.threads[t].state == WorkerState::Working,
        0 <= u < v.threads.len(),
    ensures
        ({
            let p = v.threads[t].logical_processor_idx;
            let result = start_result(v, p, bound);
            let started = result == Ok::<Option<usize>, PinError>(Some(u as usize));
            let failed = result == Err::<Option<usize>, PinError>(
                PinError { thread_idx: u as usize },
            );
            let w = after_task_end(v, t, panicked, bound);
            &&& p < v.procs.len()
            &&& w.threads[u].task_start_semaphore.permits
                == v.threads[u].task_start_semaphore.permits + (if started {
                1int
            } else {
                0int
            })
            &&& is_waiting(v, u) && !is_waiting(w, u) <==> started || failed
            &&& is_waiting(w, u) ==> is_waiting(v, u)
            &&& result == Ok::<Option<usize>, PinError>(None) <==> !has_waiting(v.procs)
            &&& v.procs[p as int].ready.len() > 0 ==> result == Ok::<Option<usize>, PinError>(
                Some(v.procs[p as int].ready[0]),
            )
        }),
{
    let p = v.threads[t].logical_processor_idx;
    let left = task_left(v, t, ends_by_panic(v, t, panicked, bound));
    assert(proc_of(v, t) == p);
    assert(permits(v, t) <= 1);
    lemma_thread_left(v, left, t, bound);
    lemma_waiting(left, u);
    assert(permits(left, u) < usize::MAX);
    law_start_wakes_the_named_thread(left, p, bound, u);
    law_start_names_the_next_thread(v, p, bound);
    assert(is_waiting(left, u) == is_waiting(v, u));
    let w = after_task_end(v, t, panicked, bound);
    assert(w.procs == after_start(left, p, bound).procs);
    assert(is_waiting(w, u) == is_waiting(after_start(left, p, bound), u));
}

/// What a thread that is done with the task does to each thread. It ends if the task panicked or
/// the next thread could not be bound, and else waits again. The thread that is named as started
/// moves to its processor, and is bound to the CPU of that if it was on another processor and there
/// is a CPU id. Nothing else changes in any thread.
pub proof fn law_end_work_moves_only_the_started_thread(
    v: PoolView,
    t: int,
    panicked: bool,
    bound: bool,
    u: int,
)
    requires
        in_round(v),
        0 <= t < v.threads.len(),
        v.threads[t].state == WorkerState::Working,
        0 <= u < v.threads.len(),
    ensures
        ({
            let p = v.threads[t].logical_processor_idx;
            let result = start_result(v, p, bound);
            let started = result == Ok::<Option<usize>, PinError>(Some(u as usize));
            let w = after_task_end(v, t, panicked, bound);
            &&& w.threads.len() == v.threads.len()
            &&& w.threads[u].tid == v.threads[u].tid
            &&& w.threads[u].state == (if u != t {
                v.threads[u].state
            } else if panicked || result is Err {
                WorkerState::Ended
            } else {
                WorkerState::Waiting
            })
            &&& w.threads[u].logical_processor_idx == (if started {
                p
            } else {
                v.threads[u].logical_processor_idx
            })
            &&& w.threads[u].affinity == (if started && v.threads[u].logical_processor_idx != p
                && v.procs[p as int].cpu_id is Some {
                v.procs[p as int].cpu_id
            } else {
                v.threads[u].affinity
            })
            &&& u == t ==> !started
        }),
{
    let p = v.threads[t].logical_processor_idx;
    let left = task_left(v, t, ends_by_panic(v, t, panicked, bound));
    assert(proc_of(v, t) == p);
    assert(permits(v, t) <= 1);
    lemma_thread_left(v, left, t, bound);
    lemma_waiting(left, u);
    assert(permits(left, u) < usize::MAX);
    law_start_wakes_the_named_thread(left, p, bound, u);
    law_start_names_the_next_thread(v, p, bound);
    law_taken_over_thread_has_to_be_bound(v, p);
    assert(is_ready(left, t) == is_ready(v, t));
}

/// What a thread that is done with the task does to the pool. The thread that is named, if any, is
/// handed out to the processor. The latch is counted down, and loses the counter if the thread
/// ends. The pool is poisoned exactly if it was, or the task panicked, or the next thread could not
/// be bound. The task stays set.
pub proof fn law_end_work_counts_down(v: PoolView, t: int, panicked: bool, bound: bool, q: int)
    requires
        in_round(v),
        0 <= t < v.threads.len(),
        v.threads[t].state == WorkerState::Working,
        0 <= q < v.procs.len(),
    ensures
        ({
            let p = v.threads[t].logical_processor_idx;
            let result = start_result(v, p, bound);
            let named = match result {
                Ok(Some(u)) => seq![u],
                Ok(None) => Seq::empty(),
                Err(error) => seq![error.thread_idx],
            };
            let w = after_task_end(v, t, panicked, bound);
            &&& w.task == v.task
            &&& w.num_threads == v.num_threads
            &&& w.unplaced == v.unplaced
            &&& w.panicked == (v.panicked || panicked || result is Err)
            &&& w.latch.remaining == v.latch.remaining - 1
            &&& w.latch.counters == v.latch.counters - (if panicked || result is Err {
                1int
            } else {
                0int
            })
            &&& w.procs.len() == v.procs.len()
            &&& w.procs[q].cpu_id == v.procs[q].cpu_id
            &&& is_first_with_waiting(v.procs, p as int, q) ==> v.procs[q].ready == named
                + w.procs[q].ready
            &&& !is_first_with_waiting(v.procs, p as int, q) ==> w.procs[q].ready
                == v.procs[q].ready
            &&& w.procs[q].done == (if q == p {
                v.procs[q].done + named
            } else {
                v.procs[q].done
            })
        }),
{
    let p = v.threads[t].logical_processor_idx;
    let left = task_left(v, t, ends_by_panic(v, t, panicked, bound));
    assert(proc_of(v, t) == p);
    assert(permits(v, t) <= 1);
    lemma_task_end(v, t, panicked, bound);
    law_start_names_the_next_thread(v, p, bound);
    law_taken_over_thread_has_to_be_bound(v, p);
    law_start_hands_out_the_named_thread(left, p, bound, q);
    let w = after_task_end(v, t, panicked, bound);
    assert(w.procs == after_start(left, p, bound).procs);
}

/// Whenever a thread that is done with the task has another one bound anew, or moves it to a
/// processor that has a CPU id, the pool has asked for that thread to be bound to exactly that CPU,
/// and was told that it is.
pub proof fn law_thread_is_moved_only_when_bound(
    v: PoolView,
    t: int,
    panicked: bool,
    bound: bool,
    u: int,
)
    requires
        in_round(v),
        0 <= t < v.threads.len(),
        v.threads[t].state == WorkerState::Working,
        0 <= u < v.threads.len(),
    ensures
        ({
            let p = v.threads[t].logical_processor_idx;
            let w = after_task_end(v, t, panicked, bound);
            let q = w.threads[u].logical_processor_idx;
            &&& (w.threads[u].affinity != v.threads[u].affinity || (q
                != v.threads[u].logical_processor_idx && v.procs[q as int].cpu_id is Some)) ==> {
                &&& bound
                &&& w.threads[u].affinity is Some
                &&& w.threads[u].affinity == v.procs[q as int].cpu_id
                &&& binding(v, p) == Some((u, w.threads[u].affinity->0))
            }
            &&& binding(v, p) matches Some((next, cpu)) ==> {
                &&& 0 <= next < v.threads.len()
                &&& bound && u == next ==> w.threads[u].affinity == Some(cpu) && q == p
                &&& !bound ==> w.threads[u].affinity == v.threads[u].affinity && q
                    == v.threads[u].logical_processor_idx
            }
        }),
{
    let p = v.threads[t].logical_processor_idx;
    let left = task_left(v, t, ends_by_panic(v, t, panicked, bound));
    assert(proc_of(v, t) == p);
    lemma_source(v.procs, p as int);
    lemma_left(v, left, t);
    lemma_start(left, p, bound);
    law_end_work_moves_only_the_started_thread(v, t, panicked, bound, u);
    law_start_names_the_next_thread(v, p, bound);
    law_taken_over_thread_has_to_be_bound(v, p);
    if let Some(from) = source(v.procs, p as int) {
        assert(proc_of(v, v.procs[from].ready[0] as int) == from);
    }
}

/// What it takes for the OS to have each thread on the CPU that the pool records, from step to
/// step: the thread that the pool asks for before the step, if any, is bound to the CPU that it
/// asks for.
pub open spec fn os_after(v: PoolView, event: Event, held: Seq<Option<u32>>) -> Seq<Option<u32>> {
    match event {
        Event::End(t, _, true) => match binding(v, v.threads[t].logical_processor_idx) {
            Some((next, cpu)) => held.update(next, Some(cpu)),
            None => held,
        },
        _ => held,
    }
}

/// The CPUs that the OS has the threads on after the steps.
pub open spec fn os_outcome(v: PoolView, events: Seq<Event>, held: Seq<Option<u32>>) -> Seq<
    Option<u32>,
>
    decreases events.len(),
{
    if events.len() == 0 {
        held
    } else {
        os_outcome(after(v, events[0]), events.drop_first(), os_after(v, events[0], held))
    }
}

/// Whatever steps a pool takes, the OS has each thread on the CPU that the pool records, as long as
/// exactly the bindings are carried out that the pool asks for.
pub proof fn law_os_binds_what_the_pool_records(
    v: PoolView,
    events: Seq<Event>,
    held: Seq<Option<u32>>,
    t: int,
)
    requires
        pool_wf(v),
        is_run(v, events),
        held.len() == v.threads.len(),
        forall|u: int| 0 <= u < held.len() ==> #[trigger] held[u] == v.threads[u].affinity,
        0 <= t < v.threads.len(),
    ensures
        os_outcome(v, events, held)[t] == outcome(v, events).threads[t].affinity,
    decreases events.len(),
{
    if events.len() > 0 {
        let event = events[0];
        let w = after(v, event);
        let next_held = os_after(v, event, held);
        law_step_keeps_wf(v, event);
        law_step_keeps_resources(v, event);
        if let Event::End(x, panicked, bound) = event {
            assert(is_active(v, x));
            assert(is_stopping(v) ==> permits(v, x) <= 2);
            law_thread_is_moved_only_when_bound(v, x, panicked, bound, t);
        }
        assert forall|u: int| 0 <= u < next_held.len() implies #[trigger] next_held[u]
            == w.threads[u].affinity by {
            assert(held[u] == v.threads[u].affinity);
            match event {
                Event::Begin(x) => {
                    assert(is_active(v, x));
                    if !v.task {
                        law_stop_moves_no_thread(v, x, u);
                    }
                },
                Event::End(x, panicked, bound) => {
                    assert(is_active(v, x));
                    assert(is_stopping(v) ==> permits(v, x) <= 2);
                    law_thread_is_moved_only_when_bound(v, x, panicked, bound, u);
                },
                _ => {},
            }
        }
        law_os_binds_what_the_pool_records(w, events.drop_first(), next_held, t);
    }
}

/// A thread that finds a task takes one permit and runs the task. Nothing else changes.
pub proof fn law_begin_work_takes_one_permit(v: PoolView, t: int, u: int)
    requires
        0 <= t < v.threads.len(),
        v.threads[t].task_start_semaphore.permits > 0,
        0 <= u < v.threads.len(),
    ensures
        ({
            let w = after_task_begin(v, t);
            &&& w.threads.len() == v.threads.len()
            &&& u != t ==> w.threads[u] == v.threads[u]
            &&& w.threads[t].task_start_semaphore.permits
                == v.threads[t].task_start_semaphore.permits - 1
            &&& w.threads[t].state == WorkerState::Working
            &&& w.threads[t].tid == v.threads[t].tid
            &&& w.threads[t].logical_processor_idx == v.threads[t].logical_processor_idx
            &&& w.threads[t].affinity == v.threads[t].affinity
            &&& w.procs == v.procs
            &&& w.task == v.task
            &&& w.panicked == v.panicked
            &&& w.num_threads == v.num_threads
            &&& w.unplaced == v.unplaced
            &&& w.latch == v.latch
        }),
{
}

/// A thread that finds the pool stopping takes one permit and ends. It hands the turn on: the
/// thread at the front of the queue of its processor gets a permit and was handed out. The latch
/// loses a counter. Nothing else changes.
pub proof fn law_exit_hands_the_turn_on(v: PoolView, t: int, u: int, q: int)
    requires
        is_stopping(v),
        0 <= t < v.threads.len(),
        v.threads[t].state == WorkerState::Waiting,
        0 <= u < v.threads.len(),
        0 <= q < v.procs.len(),
    ensures
        ({
            let p = v.threads[t].logical_processor_idx as int;
            let next = v.procs[p].ready[0];
            let w = after_exit(v, t);
            &&& v.procs[p].ready.len() > 0
            &&& w.threads.len() == v.threads.len()
            &&& w.threads[u].task_start_semaphore.permits
                == v.threads[u].task_start_semaphore.permits + (if u == next {
                1int
            } else {
                0int
            }) - (if u == t {
                1int
            } else {
                0int
            })
            &&& w.threads[u].state == (if u == t {
                WorkerState::Ended
            } else {
                v.threads[u].state
            })
            &&& w.threads[u].tid == v.threads[u].tid
            &&& w.threads[u].logical_processor_idx == v.threads[u].logical_processor_idx
            &&& w.threads[u].affinity == v.threads[u].affinity
            &&& w.procs.len() == v.procs.len()
            &&& w.procs[q].cpu_id == v.procs[q].cpu_id
            &&& q == p ==> v.procs[q].ready == seq![next] + w.procs[q].ready && w.procs[q].done
                == v.procs[q].done + seq![next]
            &&& q != p ==> w.procs[q] == v.procs[q]
            &&& w.latch.remaining == v.latch.remaining - 1
            &&& w.latch.counters == v.latch.counters - 1
            &&& w.task == v.task
            &&& w.panicked == v.panicked
            &&& w.num_threads == v.num_threads
            &&& w.unplaced == v.unplaced
        }),
{
    let p = v.threads[t].logical_processor_idx;
    let left = loop_left(v, t);
    let w = after_exit(v, t);
    assert(proc_of(v, t) == p);
    assert(permits(v, t) > 0);
    lemma_exit(v, t);
    lemma_thread_left(v, left, t, true);
    lemma_source(v.procs, p as int);
    law_handed_out_worker_changes_queues(v.procs, p as int, p as int);
    let next = after_start(left, p, true);
    assert(w.procs == next.procs && w.threads == next.threads);
    assert(next.procs == hand_out(v.procs, p as int, p as int));
    assert(permits(v, u) <= 2);
    let s = v.procs[p as int].ready[0] as int;
    assert(permits(left, s) < usize::MAX);
    if u != s {
        assert(next.threads[u] == left.threads[u]);
    }
}

/// A pool that is given a task starts the first waiting thread of each processor, and no other:
/// that thread gets a permit and is handed out to the processor. Nothing else changes.
pub proof fn law_run_starts_the_first_thread_of_each_processor(v: PoolView, u: int, q: int)
    requires
        is_idle(v),
    ensures
        ({
            let w = after_run(v);
            let first = exists|p: int|
                0 <= p < v.procs.len() && (#[trigger] v.procs[p]).ready[0] == u;
            &&& w.task
            &&& w.threads.len() == v.threads.len()
            &&& 0 <= u < v.threads.len() ==> {
                &&& w.threads[u].task_start_semaphore.permits
                    == v.threads[u].task_start_semaphore.permits + (if first {
                    1int
                } else {
                    0int
                })
                &&& w.threads[u].tid == v.threads[u].tid
                &&& w.threads[u].state == v.threads[u].state
                &&& w.threads[u].logical_processor_idx == v.threads[u].logical_processor_idx
                &&& w.threads[u].affinity == v.threads[u].affinity
            }
            &&& w.procs.len() == v.procs.len()
            &&& 0 <= q < v.procs.len() ==> {
                &&& v.procs[q].ready == seq![v.procs[q].ready[0]] + w.procs[q].ready
                &&& w.procs[q].done == v.procs[q].done + seq![v.procs[q].ready[0]]
                &&& w.procs[q].cpu_id == v.procs[q].cpu_id
            }
            &&& w.panicked == v.panicked
            &&& w.num_threads == v.num_threads
            &&& w.unplaced == v.unplaced
            &&& w.latch == v.latch
        }),
{
    let w = after_run(v);
    if 0 <= q < v.procs.len() {
        assert(v.procs[q].ready.len() > 0);
        assert(v.procs[q].ready =~= seq![v.procs[q].ready[0]] + w.procs[q].ready);
        assert(w.procs[q].done =~= v.procs[q].done + seq![v.procs[q].ready[0]]);
    }
    if 0 <= u < v.threads.len() {
        assert(0 <= proc_of(v, u) < v.procs.len());
        assert(v.procs[proc_of(v, u)].ready.len() > 0);
        assert(!is_active(v, u));
    }
    assert forall|p: int|
        0 <= p < v.procs.len() && (#[trigger] v.procs[p]).ready[0] == u implies proc_of(v, u)
        == p by {
        assert(v.procs[p].ready.len() > 0);
        assert(proc_of(v, v.procs[p].ready[0] as int) == p);
    }
}

/// A scope that is left clears the task and starts a new round: the threads that were handed out to
/// a processor wait there, in that order, and the latch has to be counted down by all of its
/// counters again. Nothing else changes: the threads are as they were, and the pool is poisoned if
/// it was and only then.
pub proof fn law_end_scope_only_starts_a_new_round(v: PoolView, q: int)
    ensures
        ({
            let w = after_scope(v);
            &&& !w.task
            &&& w.panicked == v.panicked
            &&& w.threads == v.threads
            &&& w.num_threads == v.num_threads
            &&& w.unplaced == v.unplaced
            &&& w.latch.counters == v.latch.counters
            &&& w.latch.remaining == v.latch.counters
            &&& w.procs.len() == v.procs.len()
            &&& 0 <= q < v.procs.len() ==> {
                &&& w.procs[q].ready == v.procs[q].done
                &&& w.procs[q].done == v.procs[q].ready
                &&& w.procs[q].cpu_id == v.procs[q].cpu_id
            }
        }),
{
}

/// A pool that is told to stop gives each thread one permit. Nothing else changes.
pub proof fn law_join_gives_each_thread_one_permit(v: PoolView, u: int)
    requires
        is_idle(v),
    ensures
        ({
            let w = after_stop(v);
            &&& w.threads.len() == v.threads.len()
            &&& 0 <= u < v.threads.len() ==> {
                &&& w.threads[u].task_start_semaphore.permits
                    == v.threads[u].task_start_semaphore.permits + 1
                &&& w.threads[u].tid == v.threads[u].tid
                &&& w.threads[u].state == v.threads[u].state
                &&& w.threads[u].logical_processor_idx == v.threads[u].logical_processor_idx
                &&& w.threads[u].affinity == v.threads[u].affinity
            }
            &&& w.procs == v.procs
            &&& w.task == v.task
            &&& w.panicked == v.panicked
            &&& w.num_threads == v.num_threads
            &&& w.unplaced == v.unplaced
            &&& w.latch == v.latch
        }),
{
    if 0 <= u < v.threads.len() {
        assert(!is_active(v, u));
    }
}

/// A thread without a processor that panics poisons the pool and takes its counter of the latch
/// with it. Nothing else changes.
pub proof fn law_fail_takes_the_counter(v: PoolView)
    requires
        pool_wf(v),
        v.unplaced > 0,
    ensures
        ({
            let w = after_fail(v);
            &&& w.panicked
            &&& w.unplaced == v.unplaced - 1
            &&& w.latch.counters == v.latch.counters - 1
            &&& w.latch.remaining == v.latch.remaining - 1
            &&& w.threads == v.threads
            &&& w.procs == v.procs
            &&& w.task == v.task
            &&& w.num_threads == v.num_threads
        }),
{
    lemma_fail(v);
}

/// A pool becomes poisoned by a panic and by nothing else: of a task, of a thread without a
/// processor, or over a thread that could not be bound, which is one that is taken over by a
/// processor that has a CPU id.
pub proof fn law_only_panics_poison(v: PoolView, event: Event)
    requires
        pool_wf(v),
        enabled(v, event),
        !v.panicked,
        after(v, event).panicked,
    ensures
        match event {
            Event::Fail => true,
            Event::End(t, panicked, bound) => panicked || (!bound && {
                let p = v.threads[t].logical_processor_idx as int;
                &&& v.procs[p].ready.len() == 0
                &&& v.procs[p].cpu_id is Some
                &&& has_waiting(v.procs)
            }),
            _ => false,
        },
{
    if let Event::End(t, panicked, bound) = event {
        assert(is_active(v, t));
        assert(is_stopping(v) ==> permits(v, t) <= 2);
        assert(0 <= proc_of(v, t) < v.procs.len());
        law_start_names_the_next_thread(v, v.threads[t].logical_processor_idx, bound);
        law_taken_over_thread_has_to_be_bound(v, v.threads[t].logical_processor_idx);
    }
}

/// As long as nothing panics and every thread can be bound, a pool can be used again and again:
/// whenever no task is set and it was not told to stop, it takes the next one.
pub proof fn law_pool_without_panics_takes_the_next_task(v: PoolView, events: Seq<Event>)
    requires
        is_idle(v) || in_round(v),
        !v.panicked,
        is_run(v, events),
        forall|i: int|
            0 <= i < events.len() ==> match #[trigger] events[i] {
                Event::Fail => false,
                Event::Join => false,
                Event::End(_, panicked, bound) => !panicked && bound,
                _ => true,
            },
    ensures
        !outcome(v, events).panicked,
        !outcome(v, events).task ==> enabled(outcome(v, events), Event::Run),
    decreases events.len(),
{
    if events.len() > 0 {
        let event = events[0];
        let w = after(v, event);
        let rest = events.drop_first();
        law_step_keeps_wf(v, event);
        assert forall|i: int| 0 <= i < rest.len() implies match #[trigger] rest[i] {
            Event::Fail => false,
            Event::Join => false,
            Event::End(_, panicked, bound) => !panicked && bound,
            _ => true,
        } by {
            assert(rest[i] == events[i + 1]);
        }
        if w.panicked {
            law_only_panics_poison(v, event);
        }
        match event {
            Event::Run => lemma_run(v),
            Event::Begin(t) => {
                assert(is_active(v, t));
                lemma_task_begin(v, t);
            },
            Event::End(t, panicked, bound) => {
                assert(is_active(v, t));
                lemma_task_end(v, t, panicked, bound);
            },
            Event::EndScope => lemma_scope(v),
            _ => {},
        }
        law_pool_without_panics_takes_the_next_task(w, rest);
    }
}

/// A new pool has as many logical processors as there are CPU ids or as there are threads,
/// whichever are fewer, each with the CPU id that was provided for it. No processor was handed a
/// thread yet.
pub proof fn law_new_pool_has_a_processor_for_each_cpu_id(
    cpu_ids: Seq<Option<u32>>,
    tids: Seq<i32>,
    p: int,
)
    ensures
        ({
            let v = new_pool(cpu_ids, tids);
            &&& v.procs.len() <= cpu_ids.len()
            &&& v.procs.len() <= tids.len()
            &&& v.procs.len() == cpu_ids.len() || v.procs.len() == tids.len()
            &&& processor_count(cpu_ids, tids.len()) == v.procs.len()
            &&& 0 <= p < cpu_ids.len() && p < tids.len() ==> {
                &&& p < v.procs.len()
                &&& v.procs[p].cpu_id == cpu_ids[p]
                &&& v.procs[p].done.len() == 0
            }
        }),
{
}

/// The threads of a new pool are the ones whose ids were provided. Each is on the processor that
/// its turn falls on, is bound as that is, which is not at all where there is no CPU id, and
/// sleeps. Without a processor no thread has a place.
pub proof fn law_new_pool_binds_threads_as_provided(
    cpu_ids: Seq<Option<u32>>,
    tids: Seq<i32>,
    t: int,
)
    requires
        tids.len() <= usize::MAX,
    ensures
        ({
            let v = new_pool(cpu_ids, tids);
            let n = v.procs.len() as int;
            &&& !v.task
            &&& !v.panicked
            &&& v.num_threads == tids.len()
            &&& v.latch.counters == tids.len()
            &&& v.latch.remaining == tids.len()
            &&& cpu_ids.len() == 0 ==> v.threads.len() == 0 && v.unplaced == tids.len()
            &&& cpu_ids.len() > 0 ==> {
                &&& v.threads.len() == tids.len()
                &&& v.unplaced == 0
            }
            &&& cpu_ids.len() > 0 && 0 <= t < tids.len() ==> {
                &&& 0 <= t % n < n
                &&& v.threads[t].logical_processor_idx == t % n
                &&& v.threads[t].affinity == cpu_ids[t % n]
                &&& v.threads[t].affinity == v.procs[t % n].cpu_id
                &&& v.threads[t].tid == tids[t]
                &&& v.threads[t].state == WorkerState::Waiting
                &&& v.threads[t].task_start_semaphore.permits == 0
            }
        }),
{
    let n = new_pool(cpu_ids, tids).procs.len() as int;
    if n > 0 {
        vstd::arithmetic::div_mod::lemma_mod_bound(t, n);
    }
}

/// The threads are dealt to the processors in turn: of a new pool with `n` processors, processor
/// `p` has the threads `p`, `p + n`, `p + 2 * n` and so on waiting in that order, up to the last
/// thread there is.
pub proof fn law_new_pool_deals_threads_in_turn(
    cpu_ids: Seq<Option<u32>>,
    tids: Seq<i32>,
    p: int,
    i: int,
)
    requires
        tids.len() <= usize::MAX,
        0 <= p < new_pool(cpu_ids, tids).procs.len(),
        0 <= i,
    ensures
        ({
            let v = new_pool(cpu_ids, tids);
            let n = v.procs.len() as int;
            let ready = v.procs[p].ready;
            &&& i < ready.len() <==> p + i * n < tids.len()
            &&& i < ready.len() ==> ready[i] == p + i * n
        }),
{
    let n = new_pool(cpu_ids, tids).procs.len();
    let d = n as int;
    let ready = dealt(p, n, tids.len());
    let len = ready.len() as int;
    lemma_dealt_in_turn(p, n, tids.len());
    if i >= len {
        assert(p + i * d >= p + len * d) by (nonlinear_arith)
            requires
                i >= len,
                d > 0,
        ;
    } else {
        assert(ready[i] == p + i * d);
    }
}

/// The threads that are dealt to a processor, one after the other, and that none is left out.
proof fn lemma_dealt_in_turn(p: int, n: nat, m: nat)
    requires
        0 <= p < n,
        m <= usize::MAX,
    ensures
        forall|i: int|
            0 <= i < dealt(p, n, m).len() ==> #[trigger] dealt(p, n, m)[i] == p + i * (n as int),
        forall|i: int| 0 <= i < dealt(p, n, m).len() ==> (#[trigger] dealt(p, n, m)[i]) < m,
        p + dealt(p, n, m).len() * (n as int) >= m,
    decreases m,
{
    let d = n as int;
    if m > 0 {
        let last = (m - 1) as nat;
        let rest = dealt(p, n, last);
        let queue = dealt(p, n, m);
        let len = rest.len() as int;
        lemma_dealt_in_turn(p, n, last);
        vstd::arithmetic::div_mod::lemma_fundamental_div_mod(last as int, d);
        if (last as int) % d == p {
            let k = (last as int) / d;
            assert(last == d * k + p);
            vstd::arithmetic::div_mod::lemma_div_pos_is_pos(last as int, d);
            if k > len {
                assert(d * k >= len * d + d) by (nonlinear_arith)
                    requires
                        k >= len + 1,
                        d > 0,
                ;
            }
            if k < len {
                assert(rest[len - 1] == p + (len - 1) * d);
                assert(d * k <= (len - 1) * d) by (nonlinear_arith)
                    requires
                        k <= len - 1,
                        d > 0,
                ;
            }
            assert(k == len);
            assert(last == p + len * d) by (nonlinear_arith)
                requires
                    last == d * k + p,
                    k == len,
            ;
            assert((len + 1) * d == len * d + d) by (nonlinear_arith);
            assert(queue == rest.push(last as usize));
            assert forall|i: int| 0 <= i < queue.len() implies #[trigger] queue[i] == p + i * d by {
                if i < len {
                    assert(queue[i] == rest[i]);
                }
            }
        } else {
            assert(queue == rest);
            if p + len * d == last {
                vstd::arithmetic::div_mod::lemma_fundamental_div_mod_converse(
                    last as int,
                    d,
                    len,
                    p,
                );
            }
        }
    }
}

/// A thread is never bound to a CPU that was not provided: in every state of a pool it is bound as
/// it was dealt, or to the CPU id of one of the processors. A pool whose CPU ids are all `None`
/// binds no thread.
pub proof fn law_threads_are_bound_only_as_provided(
    cpu_ids: Seq<Option<u32>>,
    tids: Seq<i32>,
    events: Seq<Event>,
    t: int,
)
    requires
        tids.len() <= usize::MAX,
        cpus_fit(cpu_ids, processor_count(cpu_ids, tids.len()) as int),
        is_run(new_pool(cpu_ids, tids), events),
        0 <= t < new_pool(cpu_ids, tids).threads.len(),
    ensures
        outcome(new_pool(cpu_ids, tids), events).threads[t].affinity is None || exists|p: int|
            0 <= p < cpu_ids.len() && p < tids.len() && #[trigger] cpu_ids[p] == outcome(
                new_pool(cpu_ids, tids),
                events,
            ).threads[t].affinity,
        (forall|p: int| 0 <= p < cpu_ids.len() ==> #[trigger] cpu_ids[p] is None) ==> outcome(
            new_pool(cpu_ids, tids),
            events,
        ).threads[t].affinity is None,
{
    let v = new_pool(cpu_ids, tids);
    lemma_new(cpu_ids, tids);
    assert forall|u: int| 0 <= u < v.threads.len() implies exists|p: int|
        0 <= p < v.procs.len() && v.procs[p].cpu_id == #[trigger] v.threads[u].affinity by {
        law_new_pool_binds_threads_as_provided(cpu_ids, tids, u);
        let p = u % (v.procs.len() as int);
        assert(v.procs[p].cpu_id == v.threads[u].affinity);
    }
    lemma_bound_as_processor(v, events, t);
    let p = choose|p: int|
        0 <= p < v.procs.len() && v.procs[p].cpu_id == outcome(v, events).threads[t].affinity;
    law_new_pool_has_a_processor_for_each_cpu_id(cpu_ids, tids, p);
    assert(cpu_ids[p] == outcome(v, events).threads[t].affinity);
}

/// Where every thread is bound as some processor is, it stays so.
proof fn lemma_bound_as_processor(v: PoolView, events: Seq<Event>, t: int)
    requires
        pool_wf(v),
        is_run(v, events),
        forall|u: int|
            0 <= u < v.threads.len() ==> exists|p: int|
                0 <= p < v.procs.len() && v.procs[p].cpu_id == #[trigger] v.threads[u].affinity,
        0 <= t < v.threads.len(),
    ensures
        exists|p: int|
            0 <= p < v.procs.len() && (#[trigger] v.procs[p]).cpu_id == outcome(
                v,
                events,
            ).threads[t].affinity,
    decreases events.len(),
{
    if events.len() > 0 {
        let event = events[0];
        let w = after(v, event);
        law_step_keeps_wf(v, event);
        law_step_keeps_resources(v, event);
        assert forall|u: int| 0 <= u < w.threads.len() implies exists|p: int|
            0 <= p < w.procs.len() && w.procs[p].cpu_id == #[trigger] w.threads[u].affinity by {
            let p = choose|p: int|
                0 <= p < v.procs.len() && v.procs[p].cpu_id == v.threads[u].affinity;
            assert(w.procs[p].cpu_id == v.procs[p].cpu_id);
            match event {
                Event::Begin(x) => {
                    assert(is_active(v, x));
                    if !v.task {
                        law_stop_moves_no_thread(v, x, u);
                    }
                },
                Event::End(x, panicked, bound) => {
                    assert(is_active(v, x));
                    assert(is_stopping(v) ==> permits(v, x) <= 2);
                    let q = v.threads[x].logical_processor_idx as int;
                    assert(0 <= proc_of(v, x) < v.procs.len());
                    law_end_work_moves_only_the_started_thread(v, x, panicked, bound, u);
                    assert(w.procs[q].cpu_id == v.procs[q].cpu_id);
                },
                _ => {},
            }
        }
        lemma_bound_as_processor(w, events.drop_first(), t);
        let p = choose|p: int|
            0 <= p < w.procs.len() && (#[trigger] w.procs[p]).cpu_id == outcome(
                w,
                events.drop_first(),
            ).threads[t].affinity;
        assert(v.procs[p].cpu_id == w.procs[p].cpu_id);
    }
}

/// CPU ids are accepted exactly if each of them, but for those that no processor is made for, is
/// the number of a bit of a processor mask.
pub proof fn law_cpu_ids_have_to_fit(cpu_ids: Seq<Option<u32>>, tids: Seq<i32>)
    ensures
        cpus_fit(cpu_ids, processor_count(cpu_ids, tids.len()) as int) <==> forall|p: int|
            0 <= p < cpu_ids.len() && p < tids.len() ==> (#[trigger] cpu_ids[p] matches Some(cpu)
                ==> cpu < 8 * vstd::layout::size_of::<CpuSet>()),
        forall|cpu: u32| #[trigger]
            cpu_fits(cpu) <==> cpu < 8 * vstd::layout::size_of::<CpuSet>(),
{
    assert forall|p: int|
        0 <= p < cpu_ids.len() && p < tids.len() && cpus_fit(
            cpu_ids,
            processor_count(cpu_ids, tids.len()) as int,
        ) implies (#[trigger] cpu_ids[p] matches Some(cpu) ==> cpu < 8 * vstd::layout::size_of::<
        CpuSet,
    >()) by {
        assert(0 <= p < processor_count(cpu_ids, tids.len()));
    }
}

/// A request to bind a thread names that thread and exactly one CPU. Where there is no CPU id there
/// is no request.
pub proof fn law_pin_binds_one_thread_to_one_cpu(pin: Option<Pin>, tid: i32, cpu_id: Option<u32>)
    ensures
        is_pin(pin, tid, cpu_id) ==> {
            &&& pin is Some <==> cpu_id is Some
            &&& pin matches Some(request) ==> {
                &&& request.tid == tid
                &&& forall|cpu: nat| #[trigger]
                    cpu_set_members(request.cpus).contains(cpu) <==> cpu_id == Some(cpu as u32)
                        && cpu <= u32::MAX
            }
        },
{
}

} // verus!
