//! A pool whose threads may update auxiliary data while they walk through the main data.
//!
//! The updates are deferred, and are applied in an order that depends on the number of items
//! alone.
use vstd::prelude::*;

use crate::aux_op::AuxOp;
use crate::chunk_list::{chunk_list, list_slice, ranges, ChunkList};
use crate::chunk_processor::{items_of, tasks_of, BatchFn, ChunkProcessor};
use crate::chunks::{ceil_div, chunk_seq, chunk_size, lemma_ceil_div};
use crate::cores::{enumerated, Cores};
use crate::job_slot::{JobSlot, Poll, FIRST_RUNNER};
use crate::machine::{
    lemma_chunks_after, lemma_visit_chunk, Action, Phase, RunState, ThreadState,
};
use crate::parts::{join, law_join_undoes_split, part_of, split};
use crate::ptr_holder_1::{
    all_accepted1, aux_after1, data_after1, lemma_all_accepted1, lemma_data_after1,
    lemma_part_after1, ItemBatch1, ItemFn1, PtrHolder1,
};
use crate::ptr_holder_2::{
    all_accepted2, data_after2, first_after2, lemma_all_accepted2, lemma_data_after2,
    lemma_part_after2, pair_parts, second_after2, unpair_parts, ItemBatch2, ItemFn2, Part2,
    PtrHolder2,
};
use crate::ring::{channel_at, friend, ring_len};
use crate::schedule::{
    batch_len, chunk_len, chunk_start, first_pending, lemma_chunk_seq, lemma_disjoint,
    lemma_division, lemma_equal_by_chunks, lemma_undivided, lemma_visited, on_channel, step_count,
    thread_chunk, undivided, visited, Job,
};
use crate::scheduler::{running, Addressed, AuxHolder, AuxScheduler, AuxTask};
use crate::seqs::{lemma_pick_add, lemma_pick_from};

verus! {

/// The number of threads of a pool, and of the channels of its deferred tasks.
pub const MAX_THREADS: usize = 8;

/// The number of items that a thread visits between two channels.
pub const SUB_BATCH: usize = 1024;

/// Inputs with fewer items than this are not divided.
pub const LEAST_DIVIDED: usize = 256;

/// What a call of `execute_all` is to do.
pub open spec fn job_of<T, AH, FA, F: BatchFn<T, AH, FA>>(f: F, aux: AH, data: Seq<T>) -> Job<
    T,
    FA,
> {
    Job { data, after: items_of(f), tasks: tasks_of(f, aux) }
}

/// The stretch from item `a` up to, not including, item `b` is one of those that an input of
/// `len` items is visited in.
pub open spec fn is_batch(len: int, a: int, b: int) -> bool {
    if undivided(len) {
        0 == a && a < b && b == len
    } else {
        exists|w: int, j: int|
            0 <= w < ring_len() && 0 <= j && a < b && (a, b) == #[trigger] batch_at(len, w, j)
    }
}

/// The bounds of batch `j` of thread `w`.
pub open spec fn batch_at(len: int, w: int, j: int) -> (int, int) {
    (
        chunk_start(len, w) + visited(chunk_len(len, w), j),
        chunk_start(len, w) + visited(chunk_len(len, w), j + 1),
    )
}

/// A stretch lies within the data.
pub proof fn lemma_is_batch(len: int, a: int, b: int)
    requires
        len >= 0,
        is_batch(len, a, b),
    ensures
        0 <= a < b <= len,
{
    if !undivided(len) {
        let (w, j) = choose|w: int, j: int|
            0 <= w < ring_len() && 0 <= j && a < b && (a, b) == #[trigger] batch_at(len, w, j);
        lemma_division(len);
        lemma_visited(len, w, j);
        assert(chunk_start(len, w) >= 0);
    }
}

/// The views of the parts.
pub open spec fn part_views<P: View>(parts: Seq<P>) -> Seq<P::V> {
    Seq::new(parts.len(), |c: int| parts[c]@)
}

/// A task is scheduled on the channel of its item, and fits the part of that channel.
pub open spec fn task_accepted<AH, P: View, FA: AuxTask<P> + Addressed<AH>>(
    t: (u32, FA),
    aux: AH,
    parts: Seq<P>,
) -> bool {
    &&& t.0 < MAX_THREADS
    &&& t.1.belongs(aux, t.0 as int)
    &&& t.1.fits(parts[t.0 as int]@)
}

/// The function accepts every stretch of the data that it will be called on, and the tasks
/// that it schedules there are for the channels of their items and fit the parts of these.
pub open spec fn all_accepted<
    T,
    AH,
    P: View,
    FA: AuxTask<P> + Addressed<AH>,
    F: BatchFn<T, AH, FA>,
>(
    f: F,
    aux: AH,
    data: Seq<T>,
    parts: Seq<P>,
) -> bool {
    forall|a: int, b: int| #[trigger]
        is_batch(data.len() as int, a, b) ==> {
            let ts = f.tasks(aux, a, data.subrange(a, b));
            &&& f.accepts(aux, a, data.subrange(a, b))
            &&& forall|i: int|
                0 <= i < ts.len() ==> task_accepted(#[trigger] ts[i], aux, parts)
        }
}

/// The state of a thread of the pool between runs, and what it shares with the other threads
/// during a run.
pub struct AuxContext {
    slot: JobSlot,
    own_sync_state: usize,
    friend_sync_state: usize,
    core_id: usize,
}

/// The threads of a pool. The first of them is the thread that calls `execute_all`.
pub struct InnerPool {
    threads: Vec<AuxContext>,
}

impl InnerPool {
    pub closed spec fn wf(self) -> bool {
        &&& self.threads@.len() == MAX_THREADS
        &&& forall|i: int|
            0 <= i < MAX_THREADS ==> (#[trigger] self.threads@[i]).friend_sync_state == friend(i)
    }

    /// The core of each thread.
    pub closed spec fn cores(self) -> Seq<usize> {
        Seq::new(self.threads@.len(), |i: int| self.threads@[i].core_id)
    }

    /// What each thread finds in its slot.
    pub closed spec fn polls(self) -> Seq<Poll> {
        Seq::new(self.threads@.len(), |i: int| self.threads@[i].slot.polled())
    }

    /// No thread has a job or has been asked to end.
    pub open spec fn idle(self) -> bool {
        forall|i: int| 0 <= i < self.polls().len() ==> #[trigger] self.polls()[i] == Poll::Idle
    }

    /// The number of threads.
    pub fn thread_count(&self) -> (count: usize)
        requires
            self.wf(),
        ensures
            count == MAX_THREADS,
    {
        self.threads.len()
    }

    /// The core to which a thread is to be pinned.
    pub fn core_of(&self, thread: usize) -> (core: usize)
        requires
            self.wf(),
            thread < MAX_THREADS,
        ensures
            core == self.cores()[thread as int],
    {
        self.threads[thread].core_id
    }

    /// The thread whose counter a thread waits for.
    pub fn friend_of(&self, thread: usize) -> (other: usize)
        requires
            self.wf(),
            thread < MAX_THREADS,
        ensures
            other == friend(thread as int),
    {
        self.threads[thread].friend_sync_state
    }

    /// A pool whose thread number `i` runs on core number `i` of the given ones. There must
    /// be a core for each thread.
    fn new(core_ids: &[usize]) -> (pool: Pool)
        requires
            core_ids@.len() >= MAX_THREADS,
        ensures
            pool.wf(),
            pool.idle(),
            pool.cores() == core_ids@.take(MAX_THREADS as int),
    {
        let mut threads: Vec<AuxContext> = Vec::new();
        let mut i: usize = 0;
        while i < MAX_THREADS
            invariant
                i <= MAX_THREADS,
                threads@.len() == i,
                core_ids@.len() >= MAX_THREADS,
                forall|j: int|
                    0 <= j < i ==> {
                        &&& (#[trigger] threads@[j]).friend_sync_state == friend(j)
                        &&& threads@[j].core_id == core_ids@[j]
                        &&& threads@[j].slot.polled() == Poll::Idle
                    },
            decreases MAX_THREADS - i,
        {
            let next: usize = if i == MAX_THREADS - 1 {
                0
            } else {
                i + 1
            };
            proof {
                vstd::arithmetic::div_mod::lemma_small_mod(i as nat, core_ids@.len());
            }
            threads.push(
                AuxContext {
                    slot: JobSlot::new(),
                    own_sync_state: 0,
                    friend_sync_state: next,
                    core_id: core_ids[i % core_ids.len()],
                },
            );
            i = i + 1;
        }
        let inner = InnerPool { threads };
        assert(inner.cores() =~= core_ids@.take(MAX_THREADS as int));
        Pool { inner }
    }
}

/// The state of a run, as its pieces show it.
pub open spec fn run_state<T, AH, P: View, FA>(
    processors: Seq<ChunkProcessor<AH, FA>>,
    data: Seq<T>,
    parts: Seq<P>,
) -> RunState<T, FA, P::V> {
    let len = data.len() as int;
    RunState {
        threads: Seq::new(ring_len() as nat, |w: int| processors[w].state()),
        chunks: Seq::new(
            ring_len() as nat,
            |w: int|
                data.subrange(chunk_start(len, w), chunk_start(len, w) + chunk_len(len, w)),
        ),
        parts: part_views(parts),
    }
}

/// Thread `w` works on its chunk of an input of `len` items.
pub open spec fn assigned<AH, FA>(p: ChunkProcessor<AH, FA>, aux: AH, len: int, w: int) -> bool {
    &&& p.wf()
    &&& p.holder() == aux
    &&& p.thread() == w
    &&& p.start() == chunk_start(len, w)
    &&& p.chunk_len() == chunk_len(len, w)
    &&& p.steps() == step_count(len)
}

proof fn lemma_between_fit<T, AH, P: View, FA: AuxTask<P> + Addressed<AH>, F: BatchFn<T, AH, FA>>(
    f: F,
    aux: AH,
    data: Seq<T>,
    parts: Seq<P>,
    w: int,
    lo: int,
    hi: int,
    c: int,
    i: int,
)
    requires
        !undivided(data.len() as int),
        all_accepted(f, aux, data, parts),
        0 <= w < ring_len(),
        0 <= c < ring_len(),
        0 <= lo,
        0 <= i < job_of(f, aux, data).tasks_between(w, lo, hi).filter_map(on_channel(c)).len(),
    ensures
        job_of(f, aux, data).tasks_between(w, lo, hi).filter_map(on_channel(c))[i].fits(
            parts[c]@,
        ),
    decreases hi - lo,
{
    let job = job_of(f, aux, data);
    if hi > lo {
        let before = job.tasks_between(w, lo, hi - 1);
        let last = job.batch_tasks(w, hi - 1);
        lemma_pick_add(before, last, on_channel(c));
        let n = before.filter_map(on_channel::<FA>(c)).len();
        if i < n {
            lemma_between_fit(f, aux, data, parts, w, lo, hi - 1, c, i);
        } else {
            let t = last.filter_map(on_channel(c))[i - n];
            assert(last.filter_map(on_channel(c)).contains(t));
            let m = lemma_pick_from(last, on_channel(c), t);
            let (a, b) = job.batch_bounds(w, hi - 1);
            assert((a, b) == batch_at(data.len() as int, w, hi - 1));
            assert(is_batch(data.len() as int, a, b));
            assert(last == f.tasks(aux, a, data.subrange(a, b)));
            assert(last[m].0 == c && last[m].1 == t);
        }
    }
}

/// A run of `f` from `data0` and `parts0` is under way, and has come this far.
spec fn under_way<T, AH, P: View, FA: AuxTask<P> + Addressed<AH>, F: BatchFn<T, AH, FA>>(
    processors: Seq<ChunkProcessor<AH, FA>>,
    data: Seq<T>,
    parts: Seq<P>,
    f: F,
    aux: AH,
    data0: Seq<T>,
    parts0: Seq<P>,
) -> bool {
    &&& !undivided(data0.len() as int)
    &&& parts0.len() == ring_len()
    &&& all_accepted(f, aux, data0, parts0)
    &&& processors.len() == ring_len()
    &&& data.len() == data0.len()
    &&& parts.len() == ring_len()
    &&& forall|v: int|
        0 <= v < ring_len() ==> assigned(#[trigger] processors[v], aux, data0.len() as int, v)
    &&& run_state(processors, data, parts).reachable(
        job_of(f, aux, data0),
        running::<P, FA>(),
        part_views(parts0),
    )
    &&& forall|c: int, t: FA|
        0 <= c < ring_len() && t.fits(parts0[c]@) ==> #[trigger] t.fits(parts[c]@)
}

/// All the processors but number `w` are as before.
spec fn others_same<AH, FA>(
    before: Seq<ChunkProcessor<AH, FA>>,
    after: Seq<ChunkProcessor<AH, FA>>,
    w: int,
) -> bool {
    forall|v: int| 0 <= v < ring_len() && v != w ==> #[trigger] after[v] == before[v]
}

proof fn lemma_keeps_len<T, AH, FA, F: BatchFn<T, AH, FA>>(f: F, aux: AH, data: Seq<T>)
    ensures
        job_of(f, aux, data).keeps_len(),
{
    let job = job_of(f, aux, data);
    assert forall|a: int, s: Seq<T>| (#[trigger] (job.after)(a, s)).len() == s.len() by {
        f.keeps_len(a, s);
    }
}

/// Replacing the chunk of thread `w` leaves the other chunks as they were.
proof fn lemma_chunk_replaced<T>(before: Seq<T>, after: Seq<T>, w: int, chunk: Seq<T>)
    requires
        !undivided(before.len() as int),
        0 <= w < ring_len(),
        chunk.len() == chunk_len(before.len() as int, w),
        after == before.subrange(0, chunk_start(before.len() as int, w)) + (chunk
            + before.subrange(
            chunk_start(before.len() as int, w) + chunk.len(),
            before.len() as int,
        )),
    ensures
        after.len() == before.len(),
        forall|v: int|
            #![trigger chunk_start(before.len() as int, v)]
            0 <= v < ring_len() ==> after.subrange(
                chunk_start(before.len() as int, v),
                chunk_start(before.len() as int, v) + chunk_len(before.len() as int, v),
            ) == (if v == w {
                chunk
            } else {
                before.subrange(
                    chunk_start(before.len() as int, v),
                    chunk_start(before.len() as int, v) + chunk_len(before.len() as int, v),
                )
            }),
{
    let len = before.len() as int;
    lemma_division(len);
    assert(chunk_start(len, w) >= 0);
    assert forall|v: int|
        #![trigger chunk_start(len, v)]
        0 <= v < ring_len() implies after.subrange(
        chunk_start(len, v),
        chunk_start(len, v) + chunk_len(len, v),
    ) == (if v == w {
        chunk
    } else {
        before.subrange(chunk_start(len, v), chunk_start(len, v) + chunk_len(len, v))
    }) by {
        if v < w {
            lemma_disjoint(len, v, w);
        }
        if w < v {
            lemma_disjoint(len, w, v);
        }
        let a = chunk_start(len, v);
        let b = a + chunk_len(len, v);
        if v == w {
            assert(after.subrange(a, b) =~= chunk);
        } else {
            assert(after.subrange(a, b) =~= before.subrange(a, b));
        }
    }
}

/// The visit of thread `w` in its current step.
fn visit_batch<T, AH, P: View, FA: AuxTask<P> + Addressed<AH>, F: BatchFn<T, AH, FA>>(
    w: usize,
    chunks: &ChunkList,
    processors: &mut Vec<ChunkProcessor<AH, FA>>,
    data: &mut [T],
    f: &F,
    Ghost(parts): Ghost<Seq<P>>,
    Ghost(aux): Ghost<AH>,
    Ghost(data0): Ghost<Seq<T>>,
    Ghost(parts0): Ghost<Seq<P>>,
)
    requires
        w < MAX_THREADS,
        ranges(*chunks) == chunk_seq(data0.len() as int, thread_chunk(data0.len() as int)),
        under_way(old(processors)@, old(data)@, parts, *f, aux, data0, parts0),
        old(processors)@[w as int].state().phase == Phase::Visiting,
        old(processors)@[w as int].state().done < step_count(data0.len() as int),
    ensures
        under_way(final(processors)@, final(data)@, parts, *f, aux, data0, parts0),
        others_same(old(processors)@, final(processors)@, w as int),
        final(processors)@[w as int].state().phase == Phase::Waiting,
        final(processors)@[w as int].state().done == old(processors)@[w as int].state().done,
{
    let n: usize = data.len();
    let ghost len = data0.len() as int;
    let ghost job = job_of(*f, aux, data0);
    let ghost run = running::<P, FA>();
    let ghost pv = part_views(parts0);
    let ghost before = data@;
    let ghost s0 = run_state(processors@, data@, parts);
    let ghost k = processors@[w as int].state().done;
    proof {
        assert(n == len);
        lemma_division(len);
        lemma_chunk_seq(len);
        lemma_keeps_len(*f, aux, data0);
        assert(s0.thread_ok(job, w as int));
        assert(assigned(processors@[w as int], aux, len, w as int));
        lemma_visit_chunk(job, w as int, k);
        lemma_visited(len, w as int, k);
        let (a, b) = job.batch_bounds(w as int, k);
        if a < b {
            assert((a, b) == batch_at(len, w as int, k));
            assert(is_batch(len, a, b));
        }
        assert(chunk_start(len, w as int) >= 0);
    }
    let (chunk_begin, chunk_end) = list_slice(chunks)[w];
    assert(before.subrange(chunk_begin as int, chunk_end as int) == s0.chunks[w as int]);
    let p = &mut processors[w];
    p.visit_within(f, data, chunk_begin, chunk_end);
    proof {
        let s1 = run_state(processors@, data@, parts);
        s0.lemma_act(job, run, pv, Action::Visit(w as int));
        let expected = s0.act(job, run, Action::Visit(w as int));
        lemma_chunk_replaced(before, data@, w as int, expected.chunks[w as int]);
        assert(s1.threads =~= expected.threads);
        assert(s1.chunks =~= expected.chunks);
        assert(s1 == expected);
    }
}

/// The tasks of thread `w` in its current step.
fn process_channel<T, AH, P: View, FA: AuxTask<P> + Addressed<AH>, F: BatchFn<T, AH, FA>>(
    w: usize,
    processors: &mut Vec<ChunkProcessor<AH, FA>>,
    parts: &mut Vec<P>,
    f: &F,
    Ghost(data): Ghost<Seq<T>>,
    Ghost(aux): Ghost<AH>,
    Ghost(data0): Ghost<Seq<T>>,
    Ghost(parts0): Ghost<Seq<P>>,
)
    requires
        w < MAX_THREADS,
        under_way(old(processors)@, data, old(parts)@, *f, aux, data0, parts0),
        old(processors)@[w as int].state().phase == Phase::Working,
    ensures
        under_way(final(processors)@, data, final(parts)@, *f, aux, data0, parts0),
        others_same(old(processors)@, final(processors)@, w as int),
        final(processors)@[w as int].state().phase == Phase::Visiting,
        final(processors)@[w as int].state().done == old(processors)@[w as int].state().done + 1,
{
    let ghost len = data0.len() as int;
    let ghost job = job_of(*f, aux, data0);
    let ghost run = running::<P, FA>();
    let ghost pv = part_views(parts0);
    let ghost s0 = run_state(processors@, data, parts@);
    let ghost k = processors@[w as int].state().done;
    proof {
        let c = channel_at(w as int, k);
        lemma_keeps_len(*f, aux, data0);
        assert(assigned(processors@[w as int], aux, len, w as int));
        assert(s0.thread_ok(job, w as int));
        let held = processors@[w as int].state().held[c];
        assert(s0.threads[w as int].held[c] == job.pending(w as int, k, k + 1, c));
        assert forall|i: int| 0 <= i < held.len() implies (#[trigger] held[i]).fits(
            parts@[c]@,
        ) by {
            lemma_between_fit(
                *f,
                aux,
                data0,
                parts0,
                w as int,
                first_pending(w as int, k, c),
                k + 1,
                c,
                i,
            );
        }
    }
    let channel: usize = processors[w].channel();
    let p = &mut processors[w];
    let part = &mut parts[channel];
    p.process(part);
    proof {
        let s1 = run_state(processors@, data, parts@);
        s0.lemma_act(job, run, pv, Action::Release(w as int));
        let expected = s0.act(job, run, Action::Release(w as int));
        assert(s1.threads =~= expected.threads);
        assert(s1.parts =~= expected.parts);
        assert(s1 == expected);
    }
}

impl InnerPool {
    /// The counters that the threads share say how many steps each thread has completed.
    spec fn counts<AH, FA>(self, processors: Seq<ChunkProcessor<AH, FA>>) -> bool {
        forall|w: int|
            0 <= w < ring_len() ==> (#[trigger] self.threads@[w]).own_sync_state
                == processors[w].state().done
    }

    /// The slots, the cores and the order of the threads are those of `other`.
    spec fn same_threads(self, other: InnerPool) -> bool {
        &&& self.wf()
        &&& self.polls() == other.polls()
        &&& self.cores() == other.cores()
    }

    /// Each thread but the first has found its job, which has the number of the thread.
    spec fn posted(self) -> bool {
        &&& self.polls()[0] == Poll::Idle
        &&& forall|i: int|
            1 <= i < MAX_THREADS ==> #[trigger] self.polls()[i] == Poll::Run(
                i as usize,
                FIRST_RUNNER,
            )
    }

    /// The number of the job that a thread is to run, if it has one. The first thread has no
    /// slot to look at: it is the one that hands the jobs out.
    fn job_of_thread(&self, thread: usize) -> (job: Option<usize>)
        requires
            self.wf(),
            thread < MAX_THREADS,
        ensures
            job == (if thread == 0 {
                Some(0)
            } else {
                match self.polls()[thread as int] {
                    Poll::Run(number, _) => Some(number),
                    _ => None,
                }
            }),
    {
        if thread == 0 {
            return Some(0);
        }
        match self.threads[thread].slot.poll() {
            Poll::Run(number, _) => Some(number),
            _ => None,
        }
    }

    /// One step of thread `w`: the visit of a batch, and the tasks of a channel.
    fn step<T, AH, P: View, FA: AuxTask<P> + Addressed<AH>, F: BatchFn<T, AH, FA>>(
        &mut self,
        w: usize,
        chunks: &ChunkList,
        processors: &mut Vec<ChunkProcessor<AH, FA>>,
        data: &mut [T],
        parts: &mut Vec<P>,
        f: &F,
        Ghost(aux): Ghost<AH>,
        Ghost(data0): Ghost<Seq<T>>,
        Ghost(parts0): Ghost<Seq<P>>,
    )
        requires
            old(self).wf(),
            old(self).counts(old(processors)@),
            w < MAX_THREADS,
            ranges(*chunks) == chunk_seq(data0.len() as int, thread_chunk(data0.len() as int)),
            under_way(old(processors)@, old(data)@, old(parts)@, *f, aux, data0, parts0),
            old(processors)@[w as int].state().phase == Phase::Visiting,
            old(processors)@[w as int].state().done < step_count(data0.len() as int),
            old(processors)@[w as int].state().done <= old(processors)@[friend(
                w as int,
            )].state().done,
        ensures
            final(self).same_threads(*old(self)),
            final(self).counts(final(processors)@),
            under_way(final(processors)@, final(data)@, final(parts)@, *f, aux, data0, parts0),
            others_same(old(processors)@, final(processors)@, w as int),
            final(processors)@[w as int].state().phase == Phase::Visiting,
            final(processors)@[w as int].state().done == old(processors)@[w as int].state().done
                + 1,
    {
        let ghost job = job_of(*f, aux, data0);
        visit_batch(
            w,
            chunks,
            processors,
            data,
            f,
            Ghost(parts@),
            Ghost(aux),
            Ghost(data0),
            Ghost(parts0),
        );
        let other: usize = self.threads[w].friend_sync_state;
        let seen: usize = self.threads[other].own_sync_state;
        let ghost s0 = run_state(processors@, data@, parts@);
        let p = &mut processors[w];
        let taken: bool = p.take(seen);
        proof {
            assert(taken);
            let s1 = run_state(processors@, data@, parts@);
            lemma_keeps_len(*f, aux, data0);
            s0.lemma_act(
                job,
                running::<P, FA>(),
                part_views(parts0),
                Action::Take(w as int, seen as int),
            );
            let expected = s0.act(
                job,
                running::<P, FA>(),
                Action::Take(w as int, seen as int),
            );
            assert(s1.threads =~= expected.threads);
            assert(s1 == expected);
        }
        process_channel(
            w,
            processors,
            parts,
            f,
            Ghost(data@),
            Ghost(aux),
            Ghost(data0),
            Ghost(parts0),
        );
        let counter: usize = processors[w].sync_counter();
        let context = &mut self.threads[w];
        context.own_sync_state = counter;
        assert(self.polls() =~= old(self).polls());
        assert(self.cores() =~= old(self).cores());
    }

    /// Runs `f` on data that is too short to be divided: all of it is visited at once, and
    /// then the channels are processed in order.
    fn execute_undivided<T, AH, P: View, FA: AuxTask<P> + Addressed<AH>, F: BatchFn<T, AH, FA>>(
        data: &mut [T],
        aux: AH,
        parts: &mut Vec<P>,
        f: &F,
    )
        requires
            undivided(old(data)@.len() as int),
            old(data)@.len() > 0,
            old(parts)@.len() == MAX_THREADS,
            all_accepted(*f, aux, old(data)@, old(parts)@),
        ensures
            final(data)@ == job_of(*f, aux, old(data)@).data_after(),
            final(parts)@.len() == old(parts)@.len(),
            forall|c: int|
                0 <= c < MAX_THREADS ==> (#[trigger] final(parts)@[c])@ == job_of(
                    *f,
                    aux,
                    old(data)@,
                ).tasks_run(c).fold_left(old(parts)@[c]@, running::<P, FA>()),
    {
        let ghost data0 = data@;
        let ghost parts0 = parts@;
        let ghost ts = f.tasks(aux, 0, data0);
        proof {
            assert(is_batch(data0.len() as int, 0, data0.len() as int));
            assert(data0.subrange(0, data0.len() as int) =~= data0);
        }
        let mut first: AuxScheduler<AH, FA> = AuxScheduler::new(aux);
        f.call(0, data, &mut first);
        let mut c: usize = 0;
        assert forall|d: int| 0 <= d < MAX_THREADS implies #[trigger] first.held()[d]
            == ts.filter_map(on_channel(d)) by {
            assert(first.held()[d] =~= ts.filter_map(on_channel(d)));
        }
        while c < MAX_THREADS
            invariant
                c <= MAX_THREADS,
                parts@.len() == MAX_THREADS,
                parts0.len() == MAX_THREADS,
                first.wf(),
                forall|i: int|
                    0 <= i < ts.len() ==> task_accepted(#[trigger] ts[i], aux, parts0),
                forall|d: int|
                    c <= d < MAX_THREADS ==> #[trigger] first.held()[d] == ts.filter_map(
                        on_channel(d),
                    ),
                forall|d: int| c <= d < MAX_THREADS ==> #[trigger] parts@[d] == parts0[d],
                forall|d: int|
                    0 <= d < c ==> (#[trigger] parts@[d])@ == ts.filter_map(
                        on_channel(d),
                    ).fold_left(parts0[d]@, running::<P, FA>()),
            decreases MAX_THREADS - c,
        {
            let ghost held = first.held()[c as int];
            assert forall|i: int| 0 <= i < held.len() implies (#[trigger] held[i]).fits(
                parts@[c as int]@,
            ) by {
                assert(ts.filter_map(on_channel(c as int)).contains(held[i]));
                let m = lemma_pick_from(ts, on_channel(c as int), held[i]);
                assert(ts[m].0 == c);
            }
            let part = &mut parts[c];
            first.process(c, part);
            c = c + 1;
        }
    }

    /// Prepares the threads for a run and hands the jobs of all but the first thread out.
    fn begin_run(&mut self)
        requires
            old(self).wf(),
            old(self).idle(),
        ensures
            final(self).wf(),
            final(self).cores() == old(self).cores(),
            forall|i: int|
                0 <= i < MAX_THREADS ==> (#[trigger] final(self).threads@[i]).own_sync_state == 0,
            final(self).posted(),
    {
        assert(self.polls()[0] == Poll::Idle);
        let mut i: usize = 0;
        while i < MAX_THREADS
            invariant
                i <= MAX_THREADS,
                self.wf(),
                self.cores() == old(self).cores(),
                old(self).wf(),
                i == 0 ==> *self == *old(self),
                old(self).polls()[0] == Poll::Idle,
                forall|j: int|
                    0 <= j < i ==> {
                        &&& (#[trigger] self.threads@[j]).own_sync_state == 0
                        &&& self.threads@[j].slot.polled() == (if j == 0 {
                            Poll::Idle
                        } else {
                            Poll::Run(j as usize, FIRST_RUNNER)
                        })
                    },
            decreases MAX_THREADS - i,
        {
            let ghost before = *self;
            let context = &mut self.threads[i];
            context.own_sync_state = 0;
            if i > 0 {
                context.slot.post(i, FIRST_RUNNER);
            }
            assert(self.cores() =~= before.cores());
            assert(i == 0 ==> before.polls()[0] == before.threads@[0].slot.polled());
            i = i + 1;
        }
    }

    /// Empties the slots when the jobs have been run.
    fn end_run(&mut self)
        requires
            old(self).wf(),
            old(self).polls()[0] == Poll::Idle,
        ensures
            final(self).wf(),
            final(self).idle(),
            final(self).cores() == old(self).cores(),
    {
        let mut i: usize = 1;
        assert(self.threads@[0].slot.polled() == self.polls()[0]);
        while i < MAX_THREADS
            invariant
                1 <= i <= MAX_THREADS,
                self.wf(),
                self.cores() == old(self).cores(),
                forall|j: int|
                    0 <= j < i ==> (#[trigger] self.threads@[j]).slot.polled() == Poll::Idle,
            decreases MAX_THREADS - i,
        {
            let ghost before = *self;
            let context = &mut self.threads[i];
            context.slot.finish();
            assert(self.cores() =~= before.cores());
            i = i + 1;
        }
        assert forall|j: int| 0 <= j < self.polls().len() implies #[trigger] self.polls()[j]
            == Poll::Idle by {
            assert(self.threads@[j].slot.polled() == Poll::Idle);
        }
    }
}

/// How data is divided among the threads.
#[derive(Clone, Copy)]
pub struct Division {
    /// The number of items in the chunk of each thread but the last.
    pub nominal_chunk_size: usize,
    /// The number of steps of each thread.
    pub iterations: usize,
}

/// Decides how `len` items are divided among the threads. There is no division where some
/// thread would get nothing to do, or where it would not be worth it.
pub fn divide(len: usize) -> (division: Option<Division>)
    ensures
        division is Some <==> !undivided(len as int),
        division matches Some(d) ==> {
            &&& d.nominal_chunk_size == thread_chunk(len as int)
            &&& d.iterations == step_count(len as int)
        },
{
    let nominal: usize = chunk_size(len, MAX_THREADS);
    proof {
        lemma_ceil_div(len as int, ring_len());
    }
    if len < LEAST_DIVIDED {
        return None;
    }
    proof {
        lemma_undivided(len as int);
        lemma_ceil_div(nominal as int, batch_len());
    }
    if nominal * (MAX_THREADS - 1) >= len {
        None
    } else {
        Some(
            Division {
                nominal_chunk_size: nominal,
                iterations: chunk_size(nominal, SUB_BATCH) + MAX_THREADS,
            },
        )
    }
}

impl InnerPool {
    /// Runs `f` on data that is divided among the threads, a round of steps at a time.
    fn execute_divided<
        T,
        AH: AuxHolder,
        P: View,
        FA: AuxTask<P> + Addressed<AH>,
        F: BatchFn<T, AH, FA>,
    >(
        &mut self,
        data: &mut [T],
        aux: AH,
        parts: &mut Vec<P>,
        f: &F,
        division: Division,
    )
        requires
            old(self).wf(),
            old(self).idle(),
            !undivided(old(data)@.len() as int),
            division.nominal_chunk_size == thread_chunk(old(data)@.len() as int),
            division.iterations == step_count(old(data)@.len() as int),
            old(parts)@.len() == MAX_THREADS,
            all_accepted(*f, aux, old(data)@, old(parts)@),
        ensures
            final(self).wf(),
            final(self).idle(),
            final(self).cores() == old(self).cores(),
            final(data)@ == job_of(*f, aux, old(data)@).data_after(),
            final(parts)@.len() == old(parts)@.len(),
            forall|c: int|
                0 <= c < MAX_THREADS ==> (#[trigger] final(parts)@[c])@ == job_of(
                    *f,
                    aux,
                    old(data)@,
                ).tasks_run(c).fold_left(old(parts)@[c]@, running::<P, FA>()),
    {
        let n: usize = data.len();
        let ghost data0 = data@;
        let ghost parts0 = parts@;
        let ghost job = job_of(*f, aux, data0);
        let ghost run = running::<P, FA>();
        let ghost pv = part_views(parts0);
        proof {
            lemma_division(n as int);
            lemma_chunk_seq(n as int);
            lemma_ceil_div(n as int, ring_len());
            lemma_ceil_div(thread_chunk(n as int), batch_len());
            lemma_keeps_len(*f, aux, data0);
        }
        let chunks: ChunkList = chunk_list(n, division.nominal_chunk_size);
        let iterations: usize = division.iterations;
        self.begin_run();
        let mut processors: Vec<ChunkProcessor<AH, FA>> = Vec::new();
        let mut w: usize = 0;
        while w < MAX_THREADS
            invariant
                w <= MAX_THREADS,
                processors@.len() == w,
                n == data0.len(),
                !undivided(n as int),
                iterations == step_count(n as int),
                ranges(chunks) == chunk_seq(n as int, thread_chunk(n as int)),
                forall|v: int|
                    0 <= v < w ==> {
                        &&& assigned(#[trigger] processors@[v], aux, n as int, v)
                        &&& processors@[v].state() == ThreadState::<FA>::start()
                    },
            decreases MAX_THREADS - w,
        {
            proof {
                lemma_division(n as int);
                lemma_chunk_seq(n as int);
                assert(chunk_start(n as int, w as int) >= 0);
            }
            let (begin, end) = list_slice(&chunks)[w];
            let copy: AH = aux.cheap_copy();
            processors.push(ChunkProcessor::new(copy, w, begin, end - begin, iterations));
            w = w + 1;
        }
        proof {
            let s = run_state(processors@, data@, parts@);
            let start = RunState::<T, FA, P::V>::start(job, pv);
            RunState::<T, FA, P::V>::lemma_start(job, run, pv);
            assert(s.threads =~= start.threads);
            assert(s.chunks =~= start.chunks);
            assert(s == start);
        }
        let mut k: usize = 0;
        while k < iterations
            invariant
                k <= iterations,
                iterations == step_count(data0.len() as int),
                ranges(chunks) == chunk_seq(data0.len() as int, thread_chunk(data0.len() as int)),
                self.wf(),
                self.cores() == old(self).cores(),
                self.posted(),
                self.counts(processors@),
                under_way(processors@, data@, parts@, *f, aux, data0, parts0),
                forall|v: int|
                    0 <= v < ring_len() ==> {
                        &&& (#[trigger] processors@[v]).state().phase == Phase::Visiting
                        &&& processors@[v].state().done == k
                    },
            decreases iterations - k,
        {
            let mut w: usize = 0;
            while w < MAX_THREADS
                invariant
                    w <= MAX_THREADS,
                    k < iterations,
                    iterations == step_count(data0.len() as int),
                    ranges(chunks) == chunk_seq(
                        data0.len() as int,
                        thread_chunk(data0.len() as int),
                    ),
                    self.wf(),
                    self.cores() == old(self).cores(),
                    self.posted(),
                    self.counts(processors@),
                    under_way(processors@, data@, parts@, *f, aux, data0, parts0),
                    forall|v: int|
                        0 <= v < ring_len() ==> {
                            &&& (#[trigger] processors@[v]).state().phase == Phase::Visiting
                            &&& processors@[v].state().done == (if v < w {
                                k + 1
                            } else {
                                k as int
                            })
                        },
                decreases MAX_THREADS - w,
            {
                if let Some(job_number) = self.job_of_thread(w) {
                    self.step(
                        job_number,
                        &chunks,
                        &mut processors,
                        data,
                        parts,
                        f,
                        Ghost(aux),
                        Ghost(data0),
                        Ghost(parts0),
                    );
                }
                w = w + 1;
            }
            k = k + 1;
        }
        self.end_run();
        proof {
            let s = run_state(processors@, data@, parts@);
            assert forall|v: int| 0 <= v < ring_len() implies (#[trigger] s.threads[v]).done
                == step_count(job.len()) by {
                assert(processors@[v].state().done == iterations);
            }
            s.lemma_finished(job, run, pv);
            assert forall|v: int|
                #![trigger chunk_start(data@.len() as int, v)]
                0 <= v < ring_len() implies data@.subrange(
                chunk_start(data@.len() as int, v),
                chunk_start(data@.len() as int, v) + chunk_len(data@.len() as int, v),
            ) == job.data_after().subrange(
                chunk_start(data@.len() as int, v),
                chunk_start(data@.len() as int, v) + chunk_len(data@.len() as int, v),
            ) by {
                lemma_chunks_after(job, ring_len(), v);
                assert(s.chunks[v] == job.chunk_after(v, step_count(job.len())));
            }
            lemma_chunks_after(job, ring_len(), 0);
            lemma_equal_by_chunks(data@, job.data_after());
            assert forall|c: int| 0 <= c < MAX_THREADS implies (#[trigger] parts@[c])@
                == job.tasks_run(c).fold_left(parts0[c]@, run) by {
                assert(s.parts[c] == job.tasks_run(c).fold_left(pv[c], run));
            }
        }
    }

    /// Visits all the data with `f`, and runs the tasks that it schedules.
    ///
    /// The tasks of each channel are run one after the other, on the part of the auxiliary
    /// data that the channel stands for, in the order that [`Job::tasks_run`] gives. That
    /// order does not depend on how the threads are interleaved.
    pub fn execute_all<
        T,
        AH: AuxHolder,
        P: View,
        FA: AuxTask<P> + Addressed<AH>,
        F: BatchFn<T, AH, FA>,
    >(
        &mut self,
        data: &mut [T],
        aux: AH,
        parts: &mut Vec<P>,
        f: &F,
    )
        requires
            old(self).wf(),
            old(self).idle(),
            old(parts)@.len() == MAX_THREADS,
            all_accepted(*f, aux, old(data)@, old(parts)@),
        ensures
            final(self).wf(),
            final(self).idle(),
            final(self).cores() == old(self).cores(),
            final(data)@ == job_of(*f, aux, old(data)@).data_after(),
            final(parts)@.len() == old(parts)@.len(),
            forall|c: int|
                0 <= c < MAX_THREADS ==> (#[trigger] final(parts)@[c])@ == job_of(
                    *f,
                    aux,
                    old(data)@,
                ).tasks_run(c).fold_left(old(parts)@[c]@, running::<P, FA>()),
    {
        let n: usize = data.len();
        if n == 0 {
            return;
        }
        match divide(n) {
            None => Self::execute_undivided(data, aux, parts, f),
            Some(division) => self.execute_divided(data, aux, parts, f, division),
        }
    }

    /// Asks all threads but the first to end.
    fn exit(&mut self)
        requires
            old(self).wf(),
        ensures
            final(self).wf(),
            final(self).cores() == old(self).cores(),
            forall|i: int|
                0 <= i < MAX_THREADS ==> #[trigger] final(self).polls()[i] == (if i == 0 {
                    old(self).polls()[0]
                } else {
                    Poll::Exit
                }),
    {
        let mut i: usize = 1;
        while i < MAX_THREADS
            invariant
                1 <= i <= MAX_THREADS,
                self.wf(),
                self.cores() == old(self).cores(),
                self.threads@[0] == old(self).threads@[0],
                forall|j: int|
                    1 <= j < i ==> (#[trigger] self.threads@[j]).slot.polled() == Poll::Exit,
            decreases MAX_THREADS - i,
        {
            let ghost before = *self;
            let context = &mut self.threads[i];
            context.slot.request_exit();
            assert(self.cores() =~= before.cores());
            i = i + 1;
        }
    }
}

/// A pool of threads.
pub struct Pool {
    inner: InnerPool,
}

impl Pool {
    pub closed spec fn wf(self) -> bool {
        self.inner.wf()
    }

    pub closed spec fn idle(self) -> bool {
        self.inner.idle()
    }

    pub closed spec fn cores(self) -> Seq<usize> {
        self.inner.cores()
    }

    /// What each thread finds in its slot.
    pub closed spec fn polls(self) -> Seq<Poll> {
        self.inner.polls()
    }

    /// A pool on the first cores of the machine, a core for each thread. There is none if the
    /// machine has too few cores, or if they could not be found out. All the pools are made
    /// with one list, which must have been made before any thread was pinned: a pinned thread
    /// sees only its own core.
    pub fn new(cores: &Cores) -> (pool: Option<Pool>)
        ensures
            match cores.found() {
                Some(ids) => {
                    &&& pool is Some <==> ids.len() >= MAX_THREADS
                    &&& pool matches Some(p) ==> {
                        &&& p.wf()
                        &&& p.idle()
                        &&& p.cores() == ids.take(MAX_THREADS as int)
                    }
                },
                None => pool is None,
            },
    {
        match cores.ids() {
            Some(ids) => if ids.len() >= MAX_THREADS {
                Some(Pool::with_cores(ids))
            } else {
                None
            },
            None => None,
        }
    }

    /// A pool whose thread number `i` runs on core number `i` of the given ones. There must
    /// be a core for each thread.
    pub fn with_cores(core_ids: &[usize]) -> (pool: Pool)
        requires
            core_ids@.len() >= MAX_THREADS,
        ensures
            pool.wf(),
            pool.idle(),
            pool.cores() == core_ids@.take(MAX_THREADS as int),
    {
        InnerPool::new(core_ids)
    }

    /// The number of threads, with the one that calls `execute_all`.
    pub fn thread_count(&self) -> (count: usize)
        requires
            self.wf(),
        ensures
            count == MAX_THREADS,
    {
        self.inner.thread_count()
    }

    /// The core to which a thread is to be pinned.
    pub fn core_of(&self, thread: usize) -> (core: usize)
        requires
            self.wf(),
            thread < MAX_THREADS,
        ensures
            core == self.cores()[thread as int],
    {
        self.inner.core_of(thread)
    }

    /// The thread whose counter a thread waits for.
    pub fn friend_of(&self, thread: usize) -> (other: usize)
        requires
            self.wf(),
            thread < MAX_THREADS,
        ensures
            other == friend(thread as int),
    {
        self.inner.friend_of(thread)
    }

    /// Asks all threads but the first to end.
    pub fn exit(&mut self)
        requires
            old(self).wf(),
        ensures
            final(self).wf(),
            final(self).cores() == old(self).cores(),
            forall|i: int|
                0 <= i < MAX_THREADS ==> #[trigger] final(self).polls()[i] == (if i == 0 {
                    old(self).polls()[0]
                } else {
                    Poll::Exit
                }),
    {
        self.inner.exit();
    }

    /// Visits all the data with `f`, and runs the tasks that it schedules; see
    /// [`InnerPool::execute_all`].
    pub fn execute_all<
        T,
        AH: AuxHolder,
        P: View,
        FA: AuxTask<P> + Addressed<AH>,
        F: BatchFn<T, AH, FA>,
    >(
        &mut self,
        data: &mut [T],
        aux: AH,
        parts: &mut Vec<P>,
        f: &F,
    )
        requires
            old(self).wf(),
            old(self).idle(),
            old(parts)@.len() == MAX_THREADS,
            all_accepted(*f, aux, old(data)@, old(parts)@),
        ensures
            final(self).wf(),
            final(self).idle(),
            final(self).cores() == old(self).cores(),
            final(data)@ == job_of(*f, aux, old(data)@).data_after(),
            final(parts)@.len() == old(parts)@.len(),
            forall|c: int|
                0 <= c < MAX_THREADS ==> (#[trigger] final(parts)@[c])@ == job_of(
                    *f,
                    aux,
                    old(data)@,
                ).tasks_run(c).fold_left(old(parts)@[c]@, running::<P, FA>()),
    {
        self.inner.execute_all(data, aux, parts, f);
    }
}

/// Visits every item of the data with `f`, and applies the updates of the auxiliary vector
/// that `f` defers.
pub fn execute_all<T, A0, Op: AuxOp<A0>, F: ItemFn1<T, Op>>(
    pool: &mut Pool,
    data: &mut Vec<T>,
    aux0: &mut Vec<A0>,
    f: F,
)
    requires
        old(pool).wf(),
        old(pool).idle(),
        all_accepted1(f, old(data)@, old(aux0)@.len() as int),
    ensures
        final(pool).wf(),
        final(pool).idle(),
        final(pool).cores() == old(pool).cores(),
        final(data)@ == data_after1(f, old(data)@),
        final(aux0)@ == aux_after1(f, old(data)@, old(aux0)@),
{
    let ghost data0 = data@;
    let ghost aux = aux0@;
    let holder: PtrHolder1 = PtrHolder1::new(aux0.as_slice(), pool.thread_count());
    let mut parts: Vec<Vec<A0>> = split(aux0, holder.size());
    let batch = ItemBatch1 { f: &f };
    proof {
        lemma_all_accepted1(&f, holder, data0, aux, parts@);
    }
    pool.execute_all(data.as_mut_slice(), holder, &mut parts, &batch);
    proof {
        lemma_data_after1(&f, holder, data0);
        let after = aux_after1(f, data0, aux);
        assert forall|c: int| 0 <= c < parts@.len() implies (#[trigger] parts@[c])@ == part_of(
            after,
            ceil_div(after.len() as int, ring_len()),
            c,
        ) by {
            lemma_part_after1(&f, holder, data0, aux, c);
        }
        law_join_undoes_split(parts@, after);
    }
    join(aux0, parts);
    assert(aux0@ =~= aux_after1(f, data0, aux));
}

/// Visits every item of the data with `f`, and applies the updates of the two auxiliary
/// vectors that `f` defers.
pub fn execute_all2<T, A0, A1, Op0: AuxOp<A0>, Op1: AuxOp<A1>, F: ItemFn2<T, Op0, Op1>>(
    pool: &mut Pool,
    data: &mut Vec<T>,
    aux0: &mut Vec<A0>,
    aux1: &mut Vec<A1>,
    f: F,
)
    requires
        old(pool).wf(),
        old(pool).idle(),
        all_accepted2(f, old(data)@, old(aux0)@.len() as int, old(aux1)@.len() as int),
    ensures
        final(pool).wf(),
        final(pool).idle(),
        final(pool).cores() == old(pool).cores(),
        final(data)@ == data_after2(f, old(data)@),
        final(aux0)@ == first_after2(f, old(data)@, old(aux0)@),
        final(aux1)@ == second_after2(f, old(data)@, old(aux1)@),
{
    let ghost data0 = data@;
    let ghost first = aux0@;
    let ghost second = aux1@;
    let holder: PtrHolder2 = PtrHolder2::new(
        aux0.as_slice(),
        aux1.as_slice(),
        pool.thread_count(),
    );
    let parts0: Vec<Vec<A0>> = split(aux0, holder.size0());
    let parts1: Vec<Vec<A1>> = split(aux1, holder.size1());
    let mut parts: Vec<Part2<A0, A1>> = pair_parts(parts0, parts1);
    let batch = ItemBatch2 { f: &f };
    proof {
        lemma_all_accepted2(&f, holder, data0, first, second, parts@);
    }
    pool.execute_all(data.as_mut_slice(), holder, &mut parts, &batch);
    let ghost end = parts@;
    let (parts0, parts1) = unpair_parts(parts);
    proof {
        lemma_data_after2(&f, holder, data0);
        let after0 = first_after2(f, data0, first);
        let after1 = second_after2(f, data0, second);
        assert forall|c: int| 0 <= c < ring_len() implies (#[trigger] end[c])@ == (
            part_of(after0, holder.first().chunksize(), c),
            part_of(after1, holder.second().chunksize(), c),
        ) by {
            lemma_part_after2(&f, holder, data0, first, second, c);
        }
        assert forall|c: int| 0 <= c < parts0@.len() implies (#[trigger] parts0@[c])@ == part_of(
            after0,
            ceil_div(after0.len() as int, ring_len()),
            c,
        ) by {
            assert(end[c]@.0 == part_of(after0, holder.first().chunksize(), c));
        }
        assert forall|c: int| 0 <= c < parts1@.len() implies (#[trigger] parts1@[c])@ == part_of(
            after1,
            ceil_div(after1.len() as int, ring_len()),
            c,
        ) by {
            assert(end[c]@.1 == part_of(after1, holder.second().chunksize(), c));
        }
        law_join_undoes_split(parts0@, after0);
        law_join_undoes_split(parts1@, after1);
    }
    join(aux0, parts0);
    join(aux1, parts1);
    assert(aux0@ =~= first_after2(f, data0, first));
    assert(aux1@ =~= second_after2(f, data0, second));
}

/// There is a pool on the listed cores exactly if the machine's cores could be enumerated and
/// there are at least as many as threads. Then thread `i` has the core that comes `i`-th in the
/// enumeration, and no two threads have the same.
pub proof fn law_a_new_pool_is_on_the_first_enumerated_cores(cores: Cores, pool: Option<Pool>)
    requires
        call_ensures(Cores::list, (), cores),
        call_ensures(Pool::new, (&cores,), pool),
    ensures
        exists|found: Option<Seq<usize>>| #[trigger]
            enumerated(found) && match (found, pool) {
                (Some(ids), Some(p)) => {
                    &&& ids.len() >= 8
                    &&& p.cores().len() == 8
                    &&& forall|i: int| 0 <= i < 8 ==> #[trigger] p.cores()[i] == ids[i]
                    &&& p.cores().no_duplicates()
                },
                (Some(ids), None) => ids.len() < 8,
                (None, p) => p is None,
            },
{
    assert(enumerated(cores.found()));
}

/// Data is divided exactly if there is enough of it and every one of the eight threads gets some.
/// Then the chunks are as even as can be, and a thread has a step for each batch of its chunk and
/// one more for each channel.
pub proof fn law_divisions(len: usize, division: Option<Division>)
    requires
        call_ensures(divide, (len,), division),
    ensures
        division is None <==> len < 256 || (len + 7) / 8 * 7 >= len,
        division matches Some(d) ==> {
            &&& d.nominal_chunk_size == (len + 7) / 8
            &&& d.iterations == (d.nominal_chunk_size + 1023) / 1024 + 8
        },
{
}

/// A thread waits for the next one, and the last thread for the first.
pub proof fn law_friends(pool: &Pool, thread: usize, other: usize)
    requires
        call_ensures(Pool::friend_of, (pool, thread), other),
        thread < 8,
    ensures
        thread < 7 ==> other == thread + 1,
        thread == 7 ==> other == 0,
{
}

} // verus!
