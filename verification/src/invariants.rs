//! The steps of a pool lead from states that it can be in to states that it can be in.

use crate::affinity::cpu_fits;
use crate::bounded::WorkerState;
use crate::logical_processor::{hand_out, lemma_source, none_ready, source};
use crate::model::{
    after_exit, after_fail, after_run, after_scope, after_start, after_stop, after_task_begin,
    after_task_end, cpus_fit, dealt, ends_by_panic, in_round, is_active, is_busy, is_done, is_head,
    is_idle, is_ready, is_stopping, is_stranded, live, live_on, loop_left, new_pool, none_stranded,
    permits, pins_wf, pool_wf, proc_of, processor_count, queues_wf, same_resources, start_fails,
    task_left, unfinished, PoolView,
};
use vstd::prelude::*;
use vstd::set_lib::set_int_range;

verus! {

/// What starting the next thread on a processor does to the queues: one ready thread, if there is
/// one, moves to the processor, or is stranded if it could not be bound. Every other thread stays
/// as it is.
pub proof fn lemma_start(v: PoolView, p: usize, bound: bool)
    requires
        queues_wf(v),
        pins_wf(v),
        p < v.procs.len(),
    ensures
        queues_wf(after_start(v, p, bound)),
        pins_wf(after_start(v, p, bound)),
        source(v.procs, p as int) is None ==> {
            &&& after_start(v, p, bound) == v
            &&& forall|t: int| 0 <= t < v.threads.len() ==> !#[trigger] is_ready(v, t)
        },
        source(v.procs, p as int) matches Some(from) ==> {
            let w = after_start(v, p, bound);
            let t = v.procs[from].ready[0] as int;
            &&& 0 <= from < v.procs.len()
            &&& 0 <= t < v.threads.len()
            &&& is_ready(v, t)
            &&& !is_ready(w, t)
            &&& proc_of(v, t) == from
            &&& w.threads[t].state == v.threads[t].state
            &&& start_fails(v, p, bound) ==> w.threads == v.threads && is_stranded(w, t)
            &&& !start_fails(v, p, bound) ==> {
                &&& is_done(w, t)
                &&& proc_of(w, t) == p
                &&& permits(v, t) < usize::MAX ==> permits(w, t) == permits(v, t) + 1
            }
            &&& forall|u: int|
                0 <= u < v.threads.len() && u != t ==> #[trigger] is_ready(w, u) == is_ready(v, u)
            &&& forall|u: int|
                0 <= u < v.threads.len() && u != t ==> #[trigger] is_done(w, u) == is_done(v, u)
            &&& forall|u: int|
                0 <= u < v.threads.len() && u != t ==> #[trigger] w.threads[u] == v.threads[u]
            &&& forall|q: int|
                0 <= q < v.procs.len() ==>
                    (#[trigger] w.procs[q]).done.len() >= v.procs[q].done.len()
            &&& forall|q: int|
                0 <= q < v.procs.len() && q != from ==>
                    (#[trigger] w.procs[q]).ready == v.procs[q].ready
            &&& w.procs[from].ready.len() == v.procs[from].ready.len() - 1
        },
{
    lemma_source(v.procs, p as int);
    let w = after_start(v, p, bound);
    match source(v.procs, p as int) {
        None => {
            assert(none_ready(v.procs));
        },
        Some(from) => {
            let worker = v.procs[from].ready[0];
            let t = worker as int;
            assert(v.procs[from].ready.contains(worker));
            assert(is_ready(v, t));
            assert(!is_done(v, t));
            assert(w.procs == hand_out(v.procs, from, p as int));
            let ready = v.procs[from].ready;
            assert(w.procs[from].ready == ready.drop_first());
            assert forall|x: usize| x != worker implies ready.drop_first().contains(x)
                == ready.contains(x) by {
                if ready.contains(x) {
                    let i = choose|i: int| 0 <= i < ready.len() && ready[i] == x;
                    assert(ready.drop_first()[i - 1] == x);
                }
            }
            assert(!ready.drop_first().contains(worker));
            assert forall|q: int, i: int|
                #![trigger v.procs[q].done[i]]
                0 <= q < v.procs.len() && 0 <= i < v.procs[q].done.len() implies v.procs[q].done[i]
                != worker by {
                assert(v.procs[q].done.contains(v.procs[q].done[i]));
            }
            let done = v.procs[p as int].done;
            assert(w.procs[p as int].done == done.push(worker));
            assert(done.push(worker)[done.len() as int] == worker);
            assert forall|x: usize| x != worker implies done.push(worker).contains(x)
                == done.contains(x) by {
                if done.contains(x) {
                    let i = choose|i: int| 0 <= i < done.len() && done[i] == x;
                    assert(done.push(worker)[i] == x);
                }
            }
            assert(!w.procs[p as int].ready.contains(worker)) by {
                if from != p && w.procs[p as int].ready.contains(worker) {
                    let i = choose|i: int|
                        0 <= i < v.procs[p as int].ready.len() && v.procs[p as int].ready[i]
                            == worker;
                    assert(proc_of(v, v.procs[p as int].ready[i] as int) == p);
                }
            }
            assert forall|u: int| 0 <= u < v.threads.len() && u != t implies {
                &&& #[trigger] proc_of(w, u) == proc_of(v, u)
                &&& is_ready(w, u) == is_ready(v, u)
                &&& is_done(w, u) == is_done(v, u)
            } by {
                assert(u as usize != worker);
                assert(0 <= proc_of(v, u) < v.procs.len());
            }
            assert forall|u: int|
                0 <= u < v.threads.len() && u != t implies #[trigger] is_ready(w, u) == is_ready(
                v,
                u,
            ) by {
                assert(proc_of(w, u) == proc_of(v, u));
            }
            assert forall|u: int|
                0 <= u < v.threads.len() && u != t implies #[trigger] is_done(w, u) == is_done(
                v,
                u,
            ) by {
                assert(proc_of(w, u) == proc_of(v, u));
            }
            if start_fails(v, p, bound) {
                assert(from != p);
                assert(w.procs[from].done == v.procs[from].done);
                assert(is_stranded(w, t));
            } else {
                assert(proc_of(w, t) == p);
                assert(is_done(w, t));
            }
            assert forall|q: int, i: int|
                #![trigger w.procs[q].ready[i]]
                0 <= q < w.procs.len() && 0 <= i < w.procs[q].ready.len() implies {
                &&& w.procs[q].ready[i] < w.threads.len()
                &&& proc_of(w, w.procs[q].ready[i] as int) == q
            } by {
                let j = if q == from {
                    i + 1
                } else {
                    i
                };
                assert(w.procs[q].ready[i] == v.procs[q].ready[j]);
                assert(w.procs[q].ready.contains(w.procs[q].ready[i]));
                assert(w.procs[q].ready[i] != worker);
            }
            assert forall|q: int, i: int|
                #![trigger w.procs[q].done[i]]
                0 <= q < w.procs.len() && 0 <= i < w.procs[q].done.len() implies {
                &&& w.procs[q].done[i] < w.threads.len()
                &&& proc_of(w, w.procs[q].done[i] as int) == q || is_stranded(
                    w,
                    w.procs[q].done[i] as int,
                )
            } by {
                if i < v.procs[q].done.len() {
                    let u = v.procs[q].done[i] as int;
                    assert(w.procs[q].done[i] == v.procs[q].done[i]);
                    assert(u != t);
                    assert(is_stranded(w, u) == is_stranded(v, u));
                    assert(proc_of(w, u) == proc_of(v, u));
                }
            }
            assert forall|q: int, i: int, r: int, j: int|
                #![trigger w.procs[q].done[i], w.procs[r].done[j]]
                0 <= q < w.procs.len() && 0 <= i < w.procs[q].done.len() && 0 <= r < w.procs.len()
                    && 0 <= j < w.procs[r].done.len() && w.procs[q].done[i]
                    == w.procs[r].done[j] implies q == r by {
                if i < v.procs[q].done.len() && j < v.procs[r].done.len() {
                    assert(w.procs[q].done[i] == v.procs[q].done[i]);
                    assert(w.procs[r].done[j] == v.procs[r].done[j]);
                } else if i < v.procs[q].done.len() {
                    assert(w.procs[q].done[i] == v.procs[q].done[i]);
                } else if j < v.procs[r].done.len() {
                    assert(w.procs[r].done[j] == v.procs[r].done[j]);
                }
            }
            assert forall|q: int| 0 <= q < w.procs.len() implies (
            #[trigger] w.procs[q]).ready.no_duplicates() && w.procs[q].done.no_duplicates() by {
                assert(v.procs[q].ready.no_duplicates() && v.procs[q].done.no_duplicates());
            }
            assert forall|q: int| 0 <= q < w.procs.len() implies (#[trigger] w.procs[q]).cpu_id
                == v.procs[q].cpu_id by {}
        },
    }
}

/// A thread that takes a permit or changes what it does leaves the queues as they are.
pub proof fn lemma_left(v: PoolView, left: PoolView, t: int)
    requires
        queues_wf(v),
        pins_wf(v),
        0 <= t < v.threads.len(),
        left == (PoolView { threads: v.threads.update(t, left.threads[t]), ..v }),
        left.threads[t].logical_processor_idx == v.threads[t].logical_processor_idx,
        left.threads[t].affinity == v.threads[t].affinity,
        permits(left, t) <= permits(v, t),
    ensures
        queues_wf(left),
        pins_wf(left),
        none_stranded(left) == none_stranded(v),
        forall|u: int| 0 <= u < v.threads.len() ==> #[trigger] proc_of(left, u) == proc_of(v, u),
        forall|u: int| 0 <= u < v.threads.len() ==> #[trigger] is_ready(left, u) == is_ready(v, u),
        forall|u: int| 0 <= u < v.threads.len() ==> #[trigger] is_done(left, u) == is_done(v, u),
        forall|u: int| 0 <= u < v.threads.len() ==> #[trigger] permits(left, u) <= permits(v, u),
        forall|u: int|
            0 <= u < v.threads.len() && u != t ==> #[trigger] left.threads[u] == v.threads[u],
{
    assert(forall|u: int|
        0 <= u < v.threads.len() ==> #[trigger] proc_of(left, u) == proc_of(v, u));
    assert(forall|u: int|
        0 <= u < v.threads.len() ==> #[trigger] is_ready(left, u) == is_ready(v, u));
    assert(forall|u: int|
        0 <= u < v.threads.len() ==> #[trigger] is_done(left, u) == is_done(v, u));
    assert(none_stranded(v) ==> none_stranded(left)) by {
        assert forall|u: int| 0 <= u < v.threads.len() && none_stranded(v) implies
            #[trigger] is_ready(left, u) || is_done(left, u) by {
            assert(is_ready(v, u) || is_done(v, u));
        }
    }
    assert(none_stranded(left) ==> none_stranded(v)) by {
        assert forall|u: int| 0 <= u < v.threads.len() && none_stranded(left) implies
            #[trigger] is_ready(v, u) || is_done(v, u) by {
            assert(is_ready(left, u) || is_done(left, u));
        }
    }
    assert forall|q: int, i: int|
        #![trigger left.procs[q].done[i]]
        0 <= q < left.procs.len() && 0 <= i < left.procs[q].done.len() implies {
        &&& left.procs[q].done[i] < left.threads.len()
        &&& proc_of(left, left.procs[q].done[i] as int) == q || is_stranded(
            left,
            left.procs[q].done[i] as int,
        )
    } by {
        let u = v.procs[q].done[i] as int;
        assert(is_stranded(left, u) == is_stranded(v, u));
        assert(proc_of(left, u) == proc_of(v, u));
    }
}

/// What a thread does to the rest of the pool when it leaves its task or its work loop and starts
/// the next thread: at most that one thread is touched.
pub proof fn lemma_thread_left(v: PoolView, left: PoolView, t: int, bound: bool)
    requires
        in_round(v) || is_stopping(v),
        0 <= t < v.threads.len(),
        left == (PoolView { threads: v.threads.update(t, left.threads[t]), ..v }),
        left.threads[t].logical_processor_idx == v.threads[t].logical_processor_idx,
        left.threads[t].affinity == v.threads[t].affinity,
        left.threads[t].tid == v.threads[t].tid,
        permits(left, t) <= permits(v, t),
    ensures
        ({
            let p = v.threads[t].logical_processor_idx;
            let w = after_start(left, p, bound);
            &&& queues_wf(left)
            &&& pins_wf(left)
            &&& p < v.procs.len()
            &&& same_resources(v, w)
            &&& start_fails(left, p, bound) == start_fails(v, p, bound)
            &&& forall|u: int|
                0 <= u < v.threads.len() ==> #[trigger] is_ready(left, u) == is_ready(v, u)
            &&& forall|u: int|
                0 <= u < v.threads.len() ==> #[trigger] is_done(left, u) == is_done(v, u)
            &&& forall|u: int|
                0 <= u < v.threads.len() ==> #[trigger] permits(left, u) < usize::MAX
            &&& source(v.procs, p as int) is None ==> w == left
            &&& source(v.procs, p as int) matches Some(from) ==> {
                let s = v.procs[from].ready[0] as int;
                &&& 0 <= s < v.threads.len()
                &&& is_ready(v, s)
                &&& !is_ready(w, s)
                &&& w.threads[s].state == left.threads[s].state
                &&& start_fails(v, p, bound) ==> w.threads == left.threads && is_stranded(w, s)
                &&& !start_fails(v, p, bound) ==> {
                    &&& is_done(w, s)
                    &&& permits(w, s) == permits(left, s) + 1
                }
                &&& forall|u: int|
                    0 <= u < v.threads.len() && u != s ==> #[trigger] is_ready(w, u) == is_ready(
                        v,
                        u,
                    )
                &&& forall|u: int|
                    0 <= u < v.threads.len() && u != s ==> #[trigger] is_done(w, u) == is_done(v, u)
                &&& forall|u: int|
                    0 <= u < v.threads.len() && u != s ==> #[trigger] w.threads[u]
                        == left.threads[u]
            }
        }),
{
    let p = v.threads[t].logical_processor_idx;
    assert(proc_of(v, t) == p);
    lemma_left(v, left, t);
    assert forall|u: int| 0 <= u < v.threads.len() implies #[trigger] permits(left, u)
        < usize::MAX by {
        assert(permits(v, u) <= 2);
    }
    lemma_start(left, p, bound);
}

/// The sets of threads are finite.
pub proof fn lemma_finite(v: PoolView)
    ensures
        live(v).finite(),
        unfinished(v).finite(),
        forall|p: int| (#[trigger] live_on(v, p)).finite(),
        live(v).len() <= v.threads.len(),
        unfinished(v).len() <= v.threads.len(),
{
    let all = set_int_range(0, v.threads.len() as int);
    vstd::set_lib::lemma_int_range(0, v.threads.len() as int);
    vstd::set_lib::lemma_len_subset(live(v), all);
    vstd::set_lib::lemma_len_subset(unfinished(v), all);
    assert forall|p: int| (#[trigger] live_on(v, p)).finite() by {
        vstd::set_lib::lemma_len_subset(live_on(v, p), all);
    }
}

/// The threads that are dealt to a processor: which they are, and that none is dealt twice.
proof fn lemma_dealt(p: int, num_processors: nat, num_threads: nat)
    requires
        0 <= p < num_processors,
        num_threads <= usize::MAX,
    ensures
        forall|i: int|
            0 <= i < dealt(p, num_processors, num_threads).len() ==> {
                let t = #[trigger] dealt(p, num_processors, num_threads)[i];
                t < num_threads && (t as int) % (num_processors as int) == p
            },
        forall|t: int|
            0 <= t < num_threads && t % (num_processors as int) == p ==> #[trigger] dealt(
                p,
                num_processors,
                num_threads,
            ).contains(t as usize),
        dealt(p, num_processors, num_threads).no_duplicates(),
    decreases num_threads,
{
    if num_threads > 0 {
        let last = (num_threads - 1) as nat;
        let rest = dealt(p, num_processors, last);
        let queue = dealt(p, num_processors, num_threads);
        lemma_dealt(p, num_processors, last);
        assert forall|t: int|
            0 <= t < num_threads && t % (num_processors as int) == p implies
            #[trigger] queue.contains(
            t as usize,
        ) by {
            if t == last {
                assert(queue[rest.len() as int] == t as usize);
            } else {
                assert(rest.contains(t as usize));
                let i = choose|i: int| 0 <= i < rest.len() && rest[i] == t as usize;
                assert(queue[i] == t as usize);
            }
        }
    }
}

/// A new pool is idle.
pub proof fn lemma_new(cpu_ids: Seq<Option<u32>>, tids: Seq<i32>)
    requires
        tids.len() <= usize::MAX,
        cpus_fit(cpu_ids, processor_count(cpu_ids, tids.len()) as int),
    ensures
        is_idle(new_pool(cpu_ids, tids)),
{
    let v = new_pool(cpu_ids, tids);
    let n = v.threads.len();
    let num = processor_count(cpu_ids, tids.len());
    assert forall|t: int| 0 <= t < n implies {
        &&& 0 <= t % (num as int) < num
        &&& #[trigger] proc_of(v, t) == t % (num as int)
    } by {
        vstd::arithmetic::div_mod::lemma_mod_bound(t, num as int);
    }
    assert forall|p: int| 0 <= p < num implies {
        &&& (#[trigger] v.procs[p]).ready == dealt(p, num, n)
        &&& v.procs[p].ready.len() > 0
        &&& v.procs[p].ready.no_duplicates()
        &&& v.procs[p].done.no_duplicates()
    } by {
        lemma_dealt(p, num, n);
        vstd::arithmetic::div_mod::lemma_small_mod(p as nat, num);
        assert(dealt(p, num, n).contains(p as usize));
    }
    assert forall|t: int| 0 <= t < n implies #[trigger] is_ready(v, t) && !is_done(v, t) by {
        assert(proc_of(v, t) == t % (num as int));
        lemma_dealt(t % (num as int), num, n);
        assert(dealt(proc_of(v, t), num, n).contains(t as usize));
    }
    assert forall|p: int, i: int|
        #![trigger v.procs[p].ready[i]]
        0 <= p < num && 0 <= i < v.procs[p].ready.len() implies {
        &&& v.procs[p].ready[i] < n
        &&& proc_of(v, v.procs[p].ready[i] as int) == p
    } by {
        lemma_dealt(p, num, n);
        assert(v.procs[p].ready[i] == dealt(p, num, n)[i]);
    }
    assert(queues_wf(v));
    assert forall|t: int| 0 <= t < n implies (#[trigger] v.threads[t]).affinity
        == v.procs[proc_of(v, t)].cpu_id by {
        assert(proc_of(v, t) == t % (num as int));
    }
    assert(pins_wf(v)) by {
        assert forall|t: int| 0 <= t < v.threads.len() implies ((
        #[trigger] v.threads[t]).affinity matches Some(cpu) ==> cpu_fits(cpu)) by {
            let p = proc_of(v, t);
            assert(0 <= p < num);
            assert(v.procs[p].cpu_id == cpu_ids[p]);
        }
    }
    vstd::set_lib::lemma_int_range(0, n as int);
    assert(live(v) =~= set_int_range(0, n as int));
}

/// Giving an idle pool a task starts a round.
pub proof fn lemma_run(v: PoolView)
    requires
        is_idle(v),
        !v.panicked,
    ensures
        in_round(after_run(v)),
        none_stranded(after_run(v)),
{
    let w = after_run(v);
    lemma_finite(v);
    assert forall|q: int| 0 <= q < w.procs.len() implies {
        &&& (#[trigger] w.procs[q]).ready == v.procs[q].ready.drop_first()
        &&& w.procs[q].done =~= seq![v.procs[q].ready[0]]
        &&& w.procs[q].cpu_id == v.procs[q].cpu_id
    } by {
        assert(v.procs[q].done.len() == 0);
    }
    assert forall|t: int| 0 <= t < v.threads.len() implies {
        &&& #[trigger] proc_of(w, t) == proc_of(v, t)
        &&& w.threads[t].state == WorkerState::Waiting
        &&& w.threads[t].affinity == v.threads[t].affinity
        &&& permits(w, t) == (if is_head(v, t) { 1int } else { 0int })
        &&& is_ready(w, t) == !is_head(v, t)
        &&& is_done(w, t) == is_head(v, t)
    } by {
        assert(0 <= proc_of(v, t) < v.procs.len());
        assert(!is_active(v, t));
        assert(v.threads[t].state != WorkerState::Ended);
        let ready = v.procs[proc_of(v, t)].ready;
        assert(v.procs[proc_of(v, t)].done.len() == 0);
        assert(is_ready(v, t));
        let i = choose|i: int| 0 <= i < ready.len() && ready[i] == t as usize;
        if i > 0 {
            assert(ready.drop_first()[i - 1] == t as usize);
            assert(w.procs[proc_of(w, t)].ready[i - 1] == t as usize);
        }
        assert(w.procs[proc_of(w, t)].done[0] == ready[0]);
    }
    assert forall|q: int, i: int|
        #![trigger w.procs[q].ready[i]]
        0 <= q < w.procs.len() && 0 <= i < w.procs[q].ready.len() implies {
        &&& w.procs[q].ready[i] < w.threads.len()
        &&& proc_of(w, w.procs[q].ready[i] as int) == q
    } by {
        assert(w.procs[q].ready[i] == v.procs[q].ready[i + 1]);
    }
    assert forall|q: int, i: int|
        #![trigger w.procs[q].done[i]]
        0 <= q < w.procs.len() && 0 <= i < w.procs[q].done.len() implies {
        &&& w.procs[q].done[i] < w.threads.len()
        &&& proc_of(w, w.procs[q].done[i] as int) == q
    } by {
        assert(w.procs[q].done[i] == v.procs[q].ready[0]);
    }
    assert forall|t: int| 0 <= t < w.threads.len() implies (#[trigger] is_ready(w, t) || is_done(
        w,
        t,
    )) && !(is_ready(w, t) && is_done(w, t)) by {
        assert(proc_of(w, t) == proc_of(v, t));
    }
    assert forall|q: int|
        0 <= q < w.procs.len() implies (#[trigger] w.procs[q]).ready.no_duplicates()
        && w.procs[q].done.no_duplicates() by {
        assert(v.procs[q].ready.no_duplicates());
    }
    assert(queues_wf(w));
    assert(pins_wf(w)) by {
        assert forall|t: int| 0 <= t < w.threads.len() implies ((
        #[trigger] w.threads[t]).affinity matches Some(cpu) ==> cpu_fits(cpu)) by {
            assert(proc_of(w, t) == proc_of(v, t));
            assert(v.threads[t].affinity == w.threads[t].affinity);
        }
    }
    assert(live(w) =~= live(v)) by {
        assert forall|t: int| 0 <= t < v.threads.len() implies (v.threads[t].state
            != WorkerState::Ended) == (w.threads[t].state != WorkerState::Ended) by {
            assert(proc_of(w, t) == proc_of(v, t));
        }
    }
    let all = set_int_range(0, v.threads.len() as int);
    assert(live(v) =~= all);
    assert(unfinished(w) =~= all) by {
        assert forall|t: int|
            0 <= t < v.threads.len() implies is_ready(w, t) || is_active(w, t) by {
            assert(proc_of(w, t) == proc_of(v, t));
        }
    }
    assert forall|p: int| 0 <= p < w.procs.len() implies #[trigger] is_busy(w, p) by {
        let t = v.procs[p].ready[0] as int;
        assert(proc_of(v, t) == p);
        assert(is_head(v, t));
        assert(proc_of(w, t) == p);
        assert(is_active(w, t));
    }
    assert forall|t: int, u: int|
        #![trigger is_active(w, t), is_active(w, u)]
        0 <= t < w.threads.len() && 0 <= u < w.threads.len() && is_active(w, t) && is_active(w, u)
            && proc_of(w, t) == proc_of(w, u) implies t == u by {
        assert(is_head(v, t) && is_head(v, u));
    }
    assert forall|t: int| 0 <= t < w.threads.len() implies {
        &&& #[trigger] permits(w, t) <= 1
        &&& is_ready(w, t) ==> permits(w, t) == 0 && w.threads[t].state == WorkerState::Waiting
        &&& permits(w, t) > 0 ==> w.threads[t].state == WorkerState::Waiting
        &&& w.threads[t].state == WorkerState::Ended ==> w.panicked
    } by {
        assert(proc_of(w, t) == proc_of(v, t));
    }
}

/// A thread that begins the task stays within the round.
pub proof fn lemma_task_begin(v: PoolView, t: int)
    requires
        in_round(v),
        0 <= t < v.threads.len(),
        permits(v, t) > 0,
    ensures
        in_round(after_task_begin(v, t)),
{
    let w = after_task_begin(v, t);
    lemma_left(v, w, t);
    assert(forall|u: int|
        0 <= u < v.threads.len() ==> #[trigger] is_active(w, u) == is_active(v, u));
    assert(forall|u: int|
        0 <= u < v.threads.len() && u != t ==> #[trigger] permits(w, u) == permits(v, u));
    assert(live(w) =~= live(v));
    assert(unfinished(w) =~= unfinished(v)) by {
        assert forall|u: int| 0 <= u < v.threads.len() implies (is_ready(w, u) || is_active(w, u)
            || is_stranded(w, u)) == (is_ready(v, u) || is_active(v, u) || is_stranded(v, u)) by {
            assert(is_ready(w, u) == is_ready(v, u));
        }
    }
    assert forall|p: int|
        0 <= p < v.procs.len() && is_busy(v, p) implies #[trigger] is_busy(w, p) by {
        let u = choose|u: int|
            0 <= u < v.threads.len() && #[trigger] is_active(v, u) && proc_of(v, u) == p;
        assert(is_active(w, u) && proc_of(w, u) == p);
    }
    assert forall|u: int| 0 <= u < w.threads.len() implies {
        &&& #[trigger] permits(w, u) <= 1
        &&& is_ready(w, u) ==> permits(w, u) == 0 && w.threads[u].state == WorkerState::Waiting
        &&& permits(w, u) > 0 ==> w.threads[u].state == WorkerState::Waiting
        &&& w.threads[u].state == WorkerState::Ended ==> w.panicked
        &&& is_stranded(w, u) ==> {
            &&& permits(w, u) == 0
            &&& w.threads[u].state == WorkerState::Waiting
            &&& w.panicked
        }
    } by {
        assert(permits(v, u) <= 1);
        assert(is_ready(w, u) == is_ready(v, u));
        assert(is_done(w, u) == is_done(v, u));
    }
}

/// What a thread that is done with the task does to each thread: it is done itself, and at most the
/// next thread on its processor is started or stranded.
proof fn lemma_task_end_threads(v: PoolView, t: int, panicked: bool, bound: bool)
    requires
        in_round(v),
        0 <= t < v.threads.len(),
        v.threads[t].state == WorkerState::Working,
    ensures
        ({
            let p = proc_of(v, t);
            let w = after_task_end(v, t, panicked, bound);
            &&& queues_wf(w)
            &&& pins_wf(w)
            &&& w.threads.len() == v.threads.len()
            &&& w.procs.len() == v.procs.len()
            &&& none_stranded(w) ==> none_stranded(v)
            &&& is_active(v, t)
            &&& !is_active(w, t)
            &&& forall|u: int|
                0 <= u < v.threads.len() ==> (#[trigger] w.threads[u]).state == (if u != t {
                    v.threads[u].state
                } else if ends_by_panic(v, t, panicked, bound) {
                    WorkerState::Ended
                } else {
                    WorkerState::Waiting
                })
            &&& forall|u: int|
                0 <= u < v.threads.len() ==> {
                    &&& #[trigger] is_ready(w, u) ==> is_ready(v, u)
                    &&& is_stranded(w, u) ==> is_stranded(v, u) || (is_ready(v, u) && w.panicked)
                    &&& is_stranded(v, u) ==> is_stranded(w, u)
                    &&& is_ready(v, u) ==> is_ready(w, u) || is_active(w, u) || is_stranded(w, u)
                }
            &&& forall|u: int|
                0 <= u < v.threads.len() && u != t && is_active(v, u) ==> #[trigger] is_active(w, u)
                    && proc_of(w, u) == proc_of(v, u)
            &&& forall|u: int|
                0 <= u < v.threads.len() && !is_active(v, u) && #[trigger] is_active(w, u) ==> {
                    &&& source(v.procs, p) matches Some(from)
                    &&& u == v.procs[from].ready[0]
                    &&& is_ready(v, u)
                    &&& proc_of(w, u) == p
                }
            &&& source(v.procs, p) is None ==> forall|u: int|
                0 <= u < v.threads.len() ==> !#[trigger] is_ready(w, u)
            &&& source(v.procs, p) matches Some(from) ==> {
                let s = v.procs[from].ready[0] as int;
                &&& 0 <= s < v.threads.len()
                &&& is_stranded(w, s) || (is_active(w, s) && proc_of(w, s) == p)
            }
            &&& forall|u: int|
                0 <= u < v.threads.len() ==> {
                    &&& #[trigger] permits(w, u) <= 1
                    &&& is_ready(w, u) || is_stranded(w, u) ==> permits(w, u) == 0
                    &&& permits(w, u) > 0 ==> is_active(v, u) || is_ready(v, u)
                    &&& permits(w, u) > permits(v, u) ==> is_ready(v, u)
                }
            &&& forall|q: int|
                0 <= q < v.procs.len() ==> (#[trigger] w.procs[q]).done.len() > 0
        }),
{
    let p = v.threads[t].logical_processor_idx;
    let left = task_left(v, t, ends_by_panic(v, t, panicked, bound));
    let next = after_start(left, p, bound);
    let w = after_task_end(v, t, panicked, bound);
    assert(proc_of(v, t) == p);
    assert(permits(v, t) == 0);
    assert(is_active(v, t));
    assert(!is_ready(v, t));
    assert(is_done(v, t));
    lemma_left(v, left, t);
    lemma_start(left, p, bound);
    assert(w.procs == next.procs && w.threads == next.threads);
    assert(forall|u: int| #[trigger] is_ready(w, u) == is_ready(next, u));
    assert(forall|u: int| #[trigger] is_done(w, u) == is_done(next, u));
    assert(forall|u: int| #[trigger] proc_of(w, u) == proc_of(next, u));
    assert(queues_wf(w)) by {
        assert(forall|u: int| #[trigger] is_stranded(w, u) == is_stranded(next, u));
    }
    assert forall|u: int| 0 <= u < v.threads.len() implies {
        &&& #[trigger] permits(left, u) == permits(v, u)
        &&& permits(v, u) <= 1
        &&& is_ready(left, u) == is_ready(v, u)
        &&& is_done(left, u) == is_done(v, u)
        &&& u != t ==> left.threads[u] == v.threads[u]
    } by {}
    match source(left.procs, p as int) {
        None => {
            assert(next == left);
            assert forall|u: int| 0 <= u < v.threads.len() implies {
                &&& #[trigger] is_ready(w, u) == is_ready(v, u)
                &&& is_done(w, u) == is_done(v, u)
            } by {
                assert(permits(left, u) == permits(v, u));
            }
            assert forall|u: int| 0 <= u < v.threads.len() implies #[trigger] permits(w, u)
                == permits(v, u) by {
                assert(permits(left, u) == permits(v, u));
            }
        },
        Some(from) => {
            let s = left.procs[from].ready[0] as int;
            assert(permits(left, s) == permits(v, s));
            assert(is_ready(v, s));
            assert(s != t);
            assert forall|u: int| 0 <= u < v.threads.len() && u != s implies {
                &&& #[trigger] is_ready(w, u) == is_ready(v, u)
                &&& is_done(w, u) == is_done(v, u)
                &&& w.threads[u] == left.threads[u]
            } by {
                assert(permits(left, u) == permits(v, u));
                assert(is_ready(next, u) == is_ready(left, u));
                assert(is_done(next, u) == is_done(left, u));
                assert(next.threads[u] == left.threads[u]);
            }
            assert forall|u: int| 0 <= u < v.threads.len() && u != s implies
                #[trigger] permits(w, u) == permits(v, u) by {
                assert(is_ready(w, u) == is_ready(v, u));
                assert(permits(left, u) == permits(v, u));
            }
            assert forall|u: int| 0 <= u < v.threads.len() && u != s && u != t implies
                #[trigger] is_active(w, u) == is_active(v, u) by {
                assert(is_ready(w, u) == is_ready(v, u));
            }
            assert(w.threads[t] == left.threads[t]) by {
                assert(is_ready(w, t) == is_ready(v, t));
            }
        },
    }
    if none_stranded(w) {
        assert forall|u: int| 0 <= u < v.threads.len() implies #[trigger] is_ready(v, u) || is_done(
            v,
            u,
        ) by {
            assert(is_ready(w, u) || is_done(w, u));
        }
    }
}

/// A thread that is done with the task is no longer among those that are not. If it panics, it is
/// no longer among those that have not ended.
proof fn lemma_task_end_sets(v: PoolView, t: int, panicked: bool, bound: bool)
    requires
        in_round(v),
        0 <= t < v.threads.len(),
        v.threads[t].state == WorkerState::Working,
    ensures
        unfinished(v).contains(t),
        unfinished(after_task_end(v, t, panicked, bound)) == unfinished(v).remove(t),
        live(v).contains(t),
        live(after_task_end(v, t, panicked, bound)) == (if ends_by_panic(v, t, panicked, bound) {
            live(v).remove(t)
        } else {
            live(v)
        }),
{
    let w = after_task_end(v, t, panicked, bound);
    lemma_task_end_threads(v, t, panicked, bound);
    assert(permits(v, t) == 0);
    assert(live(w) =~= (if ends_by_panic(v, t, panicked, bound) {
        live(v).remove(t)
    } else {
        live(v)
    }));
    assert forall|u: int| 0 <= u < v.threads.len() implies (is_ready(w, u) || is_active(w, u)
        || is_stranded(w, u)) == (u != t && (is_ready(v, u) || is_active(v, u) || is_stranded(
        v,
        u,
    ))) by {
        assert(is_ready(w, u) ==> is_ready(v, u));
    }
    assert(unfinished(w) =~= unfinished(v).remove(t));
}

/// When a thread is done with the task, its processor stays busy as long as a thread waits for its
/// turn, if every thread could be bound; and so do the other processors.
proof fn lemma_task_end_busy(v: PoolView, t: int, panicked: bool, bound: bool, waiting: int, q: int)
    requires
        in_round(v),
        0 <= t < v.threads.len(),
        v.threads[t].state == WorkerState::Working,
        none_stranded(after_task_end(v, t, panicked, bound)),
        0 <= waiting < v.threads.len(),
        is_ready(after_task_end(v, t, panicked, bound), waiting),
        0 <= q < v.procs.len(),
    ensures
        is_busy(after_task_end(v, t, panicked, bound), q),
{
    let w = after_task_end(v, t, panicked, bound);
    lemma_task_end_threads(v, t, panicked, bound);
    assert(is_ready(v, waiting));
    assert(is_busy(v, q));
    let u = choose|u: int|
        0 <= u < v.threads.len() && #[trigger] is_active(v, u) && proc_of(v, u) == q;
    if u == t {
        let s = v.procs[source(v.procs, proc_of(v, t))->0].ready[0] as int;
        assert(is_ready(w, s) || is_done(w, s));
        assert(is_active(w, s) && proc_of(w, s) == q);
    } else {
        assert(is_active(w, u) && proc_of(w, u) == q);
    }
}

/// A thread that is done with the task stays within the round, and starts no thread that is not
/// ready.
pub proof fn lemma_task_end(v: PoolView, t: int, panicked: bool, bound: bool)
    requires
        in_round(v),
        0 <= t < v.threads.len(),
        v.threads[t].state == WorkerState::Working,
    ensures
        in_round(after_task_end(v, t, panicked, bound)),
        v.latch.remaining > 0,
        v.latch.counters > 0,
{
    let w = after_task_end(v, t, panicked, bound);
    lemma_finite(v);
    lemma_task_end_sets(v, t, panicked, bound);
    assert(live(v).len() > 0);
    assert(unfinished(v).len() > 0);
    assert(w.latch.remaining == unfinished(w).len() + w.unplaced);
    assert(w.latch.counters == live(w).len() + w.unplaced);
    lemma_task_end_threads(v, t, panicked, bound);
    assert forall|u: int| 0 <= u < w.threads.len() implies {
        &&& #[trigger] permits(w, u) <= 1
        &&& is_ready(w, u) ==> permits(w, u) == 0 && w.threads[u].state == WorkerState::Waiting
        &&& permits(w, u) > 0 ==> w.threads[u].state == WorkerState::Waiting
        &&& w.threads[u].state == WorkerState::Ended ==> w.panicked
        &&& is_stranded(w, u) ==> {
            &&& permits(w, u) == 0
            &&& w.threads[u].state == WorkerState::Waiting
            &&& w.panicked
        }
    } by {
        assert(permits(v, u) <= 1);
        assert(is_ready(w, u) ==> is_ready(v, u));
        assert(w.threads[u].state == v.threads[u].state || u == t);
    }
    assert forall|u: int, x: int|
        #![trigger is_active(w, u), is_active(w, x)]
        0 <= u < w.threads.len() && 0 <= x < w.threads.len() && is_active(w, u) && is_active(w, x)
            && proc_of(w, u) == proc_of(w, x) implies u == x by {
        if !is_active(v, u) && is_active(v, x) {
            assert(proc_of(v, x) == proc_of(v, t));
        } else if is_active(v, u) && !is_active(v, x) {
            assert(proc_of(v, u) == proc_of(v, t));
        }
    }
    if none_stranded(w) && exists|u: int| 0 <= u < w.threads.len() && #[trigger] is_ready(w, u) {
        let waiting = choose|u: int| 0 <= u < w.threads.len() && #[trigger] is_ready(w, u);
        assert forall|q: int| 0 <= q < w.procs.len() implies #[trigger] is_busy(w, q) by {
            lemma_task_end_busy(v, t, panicked, bound, waiting, q);
        }
    }
}

/// A thread without a processor that panics leaves the pool idle, within its round or stopping, as
/// it was.
pub proof fn lemma_fail(v: PoolView)
    requires
        pool_wf(v),
        v.unplaced > 0,
    ensures
        is_idle(v) ==> is_idle(after_fail(v)),
        in_round(v) ==> in_round(after_fail(v)),
        is_stopping(v) ==> is_stopping(after_fail(v)),
        v.threads.len() == 0,
        v.latch.remaining > 0,
        v.latch.counters > 0,
{
    let w = after_fail(v);
    assert(v.procs.len() == 0);
    assert(live(w) =~= live(v));
    assert(unfinished(w) =~= unfinished(v));
    assert(none_stranded(w));
}

/// Once every thread is done with the task, clearing it leaves the pool idle.
pub proof fn lemma_scope(v: PoolView)
    requires
        in_round(v),
        v.latch.remaining == 0,
    ensures
        is_idle(after_scope(v)),
{
    let w = after_scope(v);
    lemma_finite(v);
    assert(unfinished(v) =~= Set::empty());
    assert forall|t: int| 0 <= t < v.threads.len() implies {
        &&& !#[trigger] is_ready(v, t)
        &&& !is_active(v, t)
        &&& is_done(v, t)
    } by {
        assert(!unfinished(v).contains(t));
    }
    assert forall|p: int|
        0 <= p < v.procs.len() implies (#[trigger] v.procs[p]).ready.len() == 0 by {
        if v.procs[p].ready.len() > 0 {
            let t = v.procs[p].ready[0] as int;
            assert(proc_of(v, t) == p);
            assert(v.procs[p].ready.contains(t as usize));
            assert(is_ready(v, t));
        }
    }
    assert(forall|t: int| #[trigger] proc_of(w, t) == proc_of(v, t));
    assert(forall|t: int| #[trigger] is_active(w, t) == is_active(v, t));
    assert(forall|t: int| #[trigger] permits(w, t) == permits(v, t));
    assert forall|t: int| 0 <= t < v.threads.len() implies {
        &&& #[trigger] is_ready(w, t) == is_done(v, t)
        &&& is_done(w, t) == is_ready(v, t)
    } by {
        assert(0 <= proc_of(v, t) < v.procs.len());
    }
    assert forall|q: int, i: int|
        #![trigger w.procs[q].ready[i]]
        0 <= q < w.procs.len() && 0 <= i < w.procs[q].ready.len() implies {
        &&& w.procs[q].ready[i] < w.threads.len()
        &&& proc_of(w, w.procs[q].ready[i] as int) == q
    } by {
        let t = v.procs[q].done[i] as int;
        assert(w.procs[q].ready[i] == v.procs[q].done[i]);
        assert(!is_ready(v, t) && is_done(v, t));
        assert(!is_stranded(v, t));
    }
    assert forall|q: int| 0 <= q < w.procs.len() implies {
        &&& (#[trigger] w.procs[q]).ready == v.procs[q].done
        &&& w.procs[q].done == v.procs[q].ready
        &&& w.procs[q].cpu_id == v.procs[q].cpu_id
        &&& v.procs[q].done.len() > 0
        &&& v.procs[q].done.no_duplicates()
        &&& v.procs[q].ready.no_duplicates()
    } by {}
    assert(queues_wf(w));
    assert(pins_wf(w));
    assert(live(w) =~= live(v));
    assert forall|t: int|
        0 <= t < w.threads.len() && (#[trigger] w.threads[t]).state
            == WorkerState::Ended implies w.panicked by {
        assert(permits(v, t) <= 1);
    }
    assert forall|t: int| 0 <= t < w.threads.len() implies !#[trigger] is_active(w, t) by {
        assert(!is_ready(v, t));
    }
}

/// Telling an idle pool to stop lets every thread wake.
pub proof fn lemma_stop(v: PoolView)
    requires
        is_idle(v),
    ensures
        is_stopping(after_stop(v)),
{
    let w = after_stop(v);
    lemma_finite(v);
    assert(forall|t: int| 0 <= t < v.threads.len() ==> #[trigger] proc_of(w, t) == proc_of(v, t));
    assert(forall|t: int| 0 <= t < v.threads.len() ==> #[trigger] is_ready(w, t) == is_ready(v, t));
    assert(forall|t: int| 0 <= t < v.threads.len() ==> #[trigger] is_done(w, t) == is_done(v, t));
    assert forall|t: int| 0 <= t < v.threads.len() implies #[trigger] permits(w, t) == 1 by {
        assert(!is_active(v, t));
    }
    assert(queues_wf(w));
    assert forall|t: int| 0 <= t < w.threads.len() implies {
        &&& (#[trigger] w.threads[t]).affinity == v.threads[t].affinity
        &&& w.threads[t].state == v.threads[t].state
        &&& w.threads[t].state != WorkerState::Working
    } by {
        assert(!is_active(v, t));
    }
    assert(pins_wf(w));
    assert(live(w) =~= live(v));
    assert forall|p: int| 0 <= p < w.procs.len() implies (#[trigger] w.procs[p]).ready.len()
        >= live_on(w, p).len() by {
        assert(v.procs[p].done.len() == 0);
        lemma_finite(w);
        assert forall|t: int| live_on(w, p).contains(t) implies w.procs[p].ready.contains(
            t as usize,
        ) by {
            assert(proc_of(w, t) == p);
            assert(is_ready(v, t) || is_done(v, t));
        }
        lemma_covering_len(live_on(w, p), w.procs[p].ready);
    }
}

/// A queue that holds every thread of a set is at least as long as the set is large.
proof fn lemma_covering_len(threads: Set<int>, queue: Seq<usize>)
    requires
        threads.finite(),
        forall|t: int| #[trigger] threads.contains(t) ==> 0 <= t <= usize::MAX,
        forall|t: int| #[trigger] threads.contains(t) ==> queue.contains(t as usize),
    ensures
        queue.len() >= threads.len(),
    decreases queue.len(),
{
    if queue.len() == 0 {
        assert forall|t: int| !threads.contains(t) by {
            if threads.contains(t) {
                assert(queue.contains(t as usize));
            }
        }
        assert(threads =~= Set::empty());
    } else {
        let last = queue.last() as int;
        let rest = threads.remove(last);
        assert forall|t: int| #[trigger] rest.contains(t) implies queue.drop_last().contains(
            t as usize,
        ) by {
            assert(threads.contains(t));
            let i = choose|i: int| 0 <= i < queue.len() && queue[i] == t as usize;
            assert(queue.drop_last()[i] == t as usize);
        }
        lemma_covering_len(rest, queue.drop_last());
    }
}

/// A thread that finds the pool stopping ends. The thread that it starts in turn is one of its own
/// processor.
pub proof fn lemma_exit(v: PoolView, t: int)
    requires
        is_stopping(v),
        0 <= t < v.threads.len(),
        v.threads[t].state == WorkerState::Waiting,
    ensures
        is_stopping(after_exit(v, t)),
        source(v.procs, proc_of(v, t)) == Some(proc_of(v, t)),
        v.latch.remaining > 0,
        v.latch.counters > 0,
        permits(v, v.procs[proc_of(v, t)].ready[0] as int) <= 1,
{
    let p = v.threads[t].logical_processor_idx;
    let ended = loop_left(v, t);
    let next = after_start(ended, p, true);
    let w = after_exit(v, t);
    lemma_finite(v);
    lemma_finite(w);
    assert(0 <= proc_of(v, t) < v.procs.len());
    assert(permits(v, t) > 0);
    assert(live(v).contains(t));
    assert(live_on(v, p as int).contains(t));
    assert(v.procs[p as int].ready.len() > 0);
    lemma_left(v, ended, t);
    lemma_start(ended, p, true);
    let s = v.procs[p as int].ready[0] as int;
    assert(is_ready(ended, s));
    assert(is_ready(v, s));
    assert(permits(v, s) <= 1);
    assert(w.procs == next.procs && w.threads == next.threads);
    assert(forall|u: int| #[trigger] is_ready(w, u) == is_ready(next, u));
    assert(forall|u: int| #[trigger] is_done(w, u) == is_done(next, u));
    assert(forall|u: int| #[trigger] proc_of(w, u) == proc_of(next, u));
    assert(queues_wf(w)) by {
        assert(forall|u: int| #[trigger] is_stranded(w, u) == is_stranded(next, u));
    }
    assert(pins_wf(w));
    assert forall|u: int| 0 <= u < w.threads.len() implies #[trigger] is_ready(w, u) || is_done(
        w,
        u,
    ) by {
        if u != s {
            assert(is_ready(next, u) == is_ready(ended, u));
            assert(is_done(next, u) == is_done(ended, u));
            assert(is_ready(v, u) || is_done(v, u));
        }
    }
    assert forall|u: int| 0 <= u < v.threads.len() implies {
        &&& #[trigger] proc_of(w, u) == proc_of(v, u)
        &&& w.threads[u].state == ended.threads[u].state
    } by {
        if u != s {
            assert(next.threads[u] == ended.threads[u]);
        }
    }
    assert(live(w) =~= live(v).remove(t)) by {
        assert forall|u: int| 0 <= u < v.threads.len() implies (#[trigger] w.threads[u]).state
            == ended.threads[u].state by {
            assert(proc_of(w, u) == proc_of(v, u));
        }
    }
    assert forall|q: int| 0 <= q < w.procs.len() implies (#[trigger] w.procs[q]).ready.len()
        >= live_on(w, q).len() by {
        assert(v.procs[q].ready.len() >= live_on(v, q).len());
        if q == p {
            assert(live_on(w, q) =~= live_on(v, q).remove(t)) by {
                assert forall|u: int| 0 <= u < v.threads.len() implies (
                #[trigger] w.threads[u]).state == ended.threads[u].state by {
                    assert(proc_of(w, u) == proc_of(v, u));
                }
                assert forall|u: int| 0 <= u < v.threads.len() implies #[trigger] proc_of(w, u)
                    == proc_of(v, u) by {}
            }
        } else {
            assert(live_on(w, q) =~= live_on(v, q)) by {
                assert forall|u: int| 0 <= u < v.threads.len() implies (
                #[trigger] w.threads[u]).state == ended.threads[u].state by {
                    assert(proc_of(w, u) == proc_of(v, u));
                }
            }
        }
    }
    assert forall|u: int| 0 <= u < w.threads.len() implies {
        &&& #[trigger] permits(w, u) <= 2
        &&& is_ready(w, u) ==> permits(w, u) <= 1
        &&& w.threads[u].state != WorkerState::Working
        &&& w.threads[u].state == WorkerState::Waiting ==> permits(w, u) > 0
    } by {
        assert(permits(v, u) <= 2);
        assert(proc_of(w, u) == proc_of(v, u));
        if u != s {
            assert(next.threads[u] == ended.threads[u]);
            assert(is_ready(next, u) == is_ready(ended, u));
        }
    }
}

} // verus!
