//! Logical processors, each with the queues of the workers that are assigned to it.

use std::collections::VecDeque;
use vstd::prelude::*;

verus! {

/// A logical processor as the contracts see it.
#[verifier::ext_equal]
pub struct ProcessorView {
    /// The operating system processor that it is bound to, if any.
    pub cpu_id: Option<u32>,
    /// The workers that wait to be run in this round, the next one first.
    pub ready: Seq<usize>,
    /// The workers that were handed out to this processor in this round, in that order.
    pub done: Seq<usize>,
}

/// The processor `k` places after `p` on the ring of `n` processors.
pub open spec fn ring(p: int, k: int, n: int) -> int {
    if p + k < n {
        p + k
    } else {
        p + k - n
    }
}

/// Whether `k` is the distance on the ring from `p` to the nearest processor that has a ready
/// worker.
pub open spec fn is_nearest(procs: Seq<ProcessorView>, p: int, k: int) -> bool {
    let n = procs.len() as int;
    &&& 0 <= k < n
    &&& procs[ring(p, k, n)].ready.len() > 0
    &&& forall|j: int| 0 <= j < k ==> (#[trigger] procs[ring(p, j, n)]).ready.len() == 0
}

/// Whether no processor has a ready worker.
pub open spec fn none_ready(procs: Seq<ProcessorView>) -> bool {
    forall|q: int| 0 <= q < procs.len() ==> (#[trigger] procs[q]).ready.len() == 0
}

/// The processor that gives up its first ready worker when `p` asks for one: `p` itself if it has
/// one, and otherwise the nearest after it on the ring.
pub open spec fn source(procs: Seq<ProcessorView>, p: int) -> Option<int> {
    if procs[p].ready.len() > 0 {
        Some(p)
    } else if none_ready(procs) {
        None
    } else {
        Some(ring(p, choose|k: int| is_nearest(procs, p, k), procs.len() as int))
    }
}

/// The processors after the first ready worker of `from` was handed out to `p`.
pub open spec fn hand_out(procs: Seq<ProcessorView>, from: int, p: int) -> Seq<ProcessorView> {
    let worker = procs[from].ready[0];
    let popped = procs.update(
        from,
        ProcessorView { ready: procs[from].ready.drop_first(), ..procs[from] },
    );
    popped.update(p, ProcessorView { done: popped[p].done.push(worker), ..popped[p] })
}

/// The processors after the start of a new round: the workers that were handed out are ready.
pub open spec fn swapped(procs: Seq<ProcessorView>) -> Seq<ProcessorView> {
    procs.map_values(
        |proc: ProcessorView| ProcessorView { ready: proc.done, done: proc.ready, ..proc },
    )
}

/// The distance to the nearest ready worker is unique.
pub proof fn lemma_nearest_unique(procs: Seq<ProcessorView>, p: int, k: int, l: int)
    requires
        is_nearest(procs, p, k),
        is_nearest(procs, p, l),
    ensures
        k == l,
{
    let n = procs.len() as int;
    if k < l {
        assert(procs[ring(p, k, n)].ready.len() == 0);
    } else if l < k {
        assert(procs[ring(p, l, n)].ready.len() == 0);
    }
}

/// Where the nearest ready worker is `k` places away, that is the source.
pub proof fn lemma_source_is(procs: Seq<ProcessorView>, p: int, k: int)
    requires
        0 <= p < procs.len(),
        is_nearest(procs, p, k),
    ensures
        source(procs, p) == Some(ring(p, k, procs.len() as int)),
{
    let n = procs.len() as int;
    assert(0 <= ring(p, k, n) < n);
    assert(!none_ready(procs));
    if procs[p].ready.len() > 0 {
        assert(ring(p, 0, n) == p);
        assert(is_nearest(procs, p, 0));
        lemma_nearest_unique(procs, p, k, 0);
    } else {
        let chosen = choose|k: int| is_nearest(procs, p, k);
        lemma_nearest_unique(procs, p, k, chosen);
    }
}

/// The source is a processor with a ready worker; there is one unless no worker is ready.
pub proof fn lemma_source(procs: Seq<ProcessorView>, p: int)
    requires
        0 <= p < procs.len(),
    ensures
        source(procs, p) is None <==> none_ready(procs),
        source(procs, p) matches Some(from) ==> {
            &&& 0 <= from < procs.len()
            &&& procs[from].ready.len() > 0
            &&& procs[p].ready.len() > 0 ==> from == p
        },
{
    let n = procs.len() as int;
    if !none_ready(procs) {
        let q = choose|q: int| 0 <= q < n && (#[trigger] procs[q]).ready.len() > 0;
        let d = if q >= p { q - p } else { q - p + n };
        assert(ring(p, d, n) == q);
        let k = lemma_least_distance(procs, p, d);
        lemma_source_is(procs, p, k);
    }
}

/// Among the distances up to `d`, one of which leads to a ready worker, there is a nearest one.
pub proof fn lemma_least_distance(procs: Seq<ProcessorView>, p: int, d: int) -> (k: int)
    requires
        0 <= p < procs.len(),
        0 <= d < procs.len(),
        procs[ring(p, d, procs.len() as int)].ready.len() > 0,
    ensures
        is_nearest(procs, p, k),
    decreases d,
{
    let n = procs.len() as int;
    if forall|j: int| 0 <= j < d ==> (#[trigger] procs[ring(p, j, n)]).ready.len() == 0 {
        d
    } else {
        let j = choose|j: int| 0 <= j < d && (#[trigger] procs[ring(p, j, n)]).ready.len() != 0;
        lemma_least_distance(procs, p, j)
    }
}

/// A logical processor and its queues.
struct LogicalProcessor {
    cpu_id: Option<u32>,
    ready_workers: VecDeque<usize>,
    done_workers: VecDeque<usize>,
}

impl View for LogicalProcessor {
    type V = ProcessorView;

    closed spec fn view(&self) -> ProcessorView {
        ProcessorView {
            cpu_id: self.cpu_id,
            ready: self.ready_workers@,
            done: self.done_workers@,
        }
    }
}

/// A set of logical processors. Each worker is in the queue of one of them.
pub struct LogicalProcessors {
    lps: Vec<LogicalProcessor>,
}

impl View for LogicalProcessors {
    type V = Seq<ProcessorView>;

    closed spec fn view(&self) -> Seq<ProcessorView> {
        self.lps@.map_values(|lp: LogicalProcessor| lp@)
    }
}

impl LogicalProcessors {
    /// One logical processor for each CPU id. An id of `None` gives a processor that is bound to no
    /// CPU.
    pub fn new(cpu_ids: &[Option<u32>]) -> (lps: Self)
        ensures
            lps@ == cpu_ids@.map_values(
                |cpu_id: Option<u32>|
                    ProcessorView { cpu_id, ready: Seq::empty(), done: Seq::empty() },
            ),
    {
        let mut lps: Vec<LogicalProcessor> = Vec::new();
        for p in 0..cpu_ids.len()
            invariant
                lps@.len() == p,
                forall|q: int|
                    0 <= q < p ==> (#[trigger] lps@[q])@ == (ProcessorView {
                        cpu_id: cpu_ids@[q],
                        ready: Seq::empty(),
                        done: Seq::empty(),
                    }),
        {
            lps.push(
                LogicalProcessor {
                    cpu_id: cpu_ids[p],
                    ready_workers: VecDeque::new(),
                    done_workers: VecDeque::new(),
                },
            );
        }
        LogicalProcessors { lps }
    }

    /// The number of logical processors.
    pub fn len(&self) -> (len: usize)
        ensures
            len == self@.len(),
    {
        self.lps.len()
    }

    /// Adds a worker to be run on a logical processor.
    pub fn add_worker(&mut self, processor_idx: usize, worker: usize)
        requires
            processor_idx < old(self)@.len(),
        ensures
            final(self)@ == old(self)@.update(
                processor_idx as int,
                ProcessorView {
                    ready: old(self)@[processor_idx as int].ready.push(worker),
                    ..old(self)@[processor_idx as int]
                },
            ),
    {
        self.lps[processor_idx].ready_workers.push_back(worker);
        assert(self@ =~= old(self)@.update(
            processor_idx as int,
            ProcessorView {
                ready: old(self)@[processor_idx as int].ready.push(worker),
                ..old(self)@[processor_idx as int]
            },
        ));
    }

    /// The next worker to run on the logical processor, with the processor that it comes from.
    /// The processor's own workers come first; when it has none left, it takes one from the next
    /// processor that has. `None` if there is no worker left at all.
    pub fn peek_worker(&self, processor_idx: usize) -> (next: Option<(usize, usize)>)
        requires
            processor_idx < self@.len(),
        ensures
            match source(self@, processor_idx as int) {
                None => next is None,
                Some(from) => {
                    &&& next == Some((self@[from].ready[0], from as usize))
                    &&& 0 <= from < self@.len()
                },
            },
    {
        let n = self.lps.len();
        let mut k: usize = 0;
        let mut from: usize = processor_idx;
        while k < n
            invariant
                n == self.lps@.len(),
                processor_idx < n,
                k <= n,
                k < n ==> from == ring(processor_idx as int, k as int, n as int),
                forall|j: int|
                    0 <= j < k ==> (#[trigger] self@[ring(
                        processor_idx as int,
                        j,
                        n as int,
                    )]).ready.len() == 0,
            decreases n - k,
        {
            assert(self@[from as int] == self.lps@[from as int]@);
            if self.lps[from].ready_workers.len() > 0 {
                proof {
                    assert(is_nearest(self@, processor_idx as int, k as int));
                    lemma_source_is(self@, processor_idx as int, k as int);
                }
                return Some((self.lps[from].ready_workers[0], from));
            }
            k = k + 1;
            from = if from + 1 < n {
                from + 1
            } else {
                0
            };
        }
        proof {
            assert forall|q: int| 0 <= q < n implies (#[trigger] self@[q]).ready.len() == 0 by {
                let p = processor_idx as int;
                let d = if q >= p {
                    q - p
                } else {
                    q - p + n
                };
                assert(q == ring(p, d, n as int));
            }
            assert(none_ready(self@));
        }
        None
    }

    /// Hands out the next worker to the logical processor, and says which processor it comes from.
    /// `None` if there is no worker left at all.
    pub fn next_worker(&mut self, processor_idx: usize) -> (next: Option<(usize, usize)>)
        requires
            processor_idx < old(self)@.len(),
        ensures
            match source(old(self)@, processor_idx as int) {
                None => next is None && final(self)@ == old(self)@,
                Some(from) => {
                    &&& next == Some((old(self)@[from].ready[0], from as usize))
                    &&& 0 <= from < old(self)@.len()
                    &&& final(self)@ == hand_out(old(self)@, from, processor_idx as int)
                },
            },
    {
        proof {
            lemma_source(self@, processor_idx as int);
            assert(self@.len() == self.lps.len());
        }
        match self.peek_worker(processor_idx) {
            Some((worker, from)) => {
                let ghost before = self@;
                assert(before[from as int] == self.lps@[from as int]@);
                self.lps[from].ready_workers.pop_front();
                assert(self@ =~= before.update(
                    from as int,
                    ProcessorView {
                        ready: before[from as int].ready.drop_first(),
                        ..before[from as int]
                    },
                ));
                self.lps[processor_idx].done_workers.push_back(worker);
                assert(self@ =~= hand_out(before, from as int, processor_idx as int));
                Some((worker, from))
            },
            None => None,
        }
    }

    /// Starts a new round: the workers that were handed out are ready again, each on the processor
    /// that it was handed out to.
    pub fn reset(&mut self)
        ensures
            final(self)@ == swapped(old(self)@),
    {
        let n = self.lps.len();
        for p in 0..n
            invariant
                n == self.lps@.len(),
                n == old(self).lps@.len(),
                forall|q: int| p <= q < n ==> self.lps@[q] == old(self).lps@[q],
                forall|q: int|
                    0 <= q < p ==> (#[trigger] self.lps@[q])@ == (ProcessorView {
                        cpu_id: old(self).lps@[q]@.cpu_id,
                        ready: old(self).lps@[q]@.done,
                        done: old(self).lps@[q]@.ready,
                    }),
        {
            let lp = &mut self.lps[p];
            std::mem::swap(&mut lp.ready_workers, &mut lp.done_workers);
        }
        assert(self@ =~= swapped(old(self)@));
    }

    /// The operating system processor that the logical processor is bound to.
    pub fn cpu_id(&self, processor_idx: usize) -> (cpu_id: Option<u32>)
        requires
            processor_idx < self@.len(),
        ensures
            cpu_id == self@[processor_idx as int].cpu_id,
    {
        self.lps[processor_idx].cpu_id
    }
}

} // verus!
