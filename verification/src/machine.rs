//! A run of the threads as a sequence of actions, each of one thread, in any interleaving.
use vstd::prelude::*;

use crate::chunks::{lemma_ceil_div, min};
use crate::ring::{
    channel_at, friend, in_step, is_progress, law_no_two_threads_on_one_channel, lemma_advance,
    lemma_owner, lemma_progress_unique, lemma_turn, may_step, owner, ring_len,
};
use crate::schedule::{
    batch_len, chunk_len, chunk_start, lemma_division, lemma_visited, on_channel, step_count,
    thread_chunk, undivided, visited, Job,
};
use crate::seqs::lemma_fold_add;

verus! {

/// Where a thread is within its current step.
#[derive(PartialEq, Eq, Structural, Clone, Copy)]
pub enum Phase {
    /// About to visit the next batch.
    Visiting,
    /// The batch has been visited; the channel may still be in use by the friend.
    Waiting,
    /// The channel is in use by this thread.
    Working,
}

/// One thread: the number of completed steps, the phase of the current step, and the tasks
/// it holds back, by channel.
pub struct ThreadState<FA> {
    pub done: int,
    pub phase: Phase,
    pub held: Seq<Seq<FA>>,
}

/// All threads, the chunk of the data that each of them owns, and the part of the auxiliary
/// data that each channel stands for.
pub struct RunState<T, FA, P> {
    pub threads: Seq<ThreadState<FA>>,
    pub chunks: Seq<Seq<T>>,
    pub parts: Seq<P>,
}

/// An action of one thread.
pub enum Action {
    /// Visit the next batch.
    Visit(int),
    /// Take the channel of the current step, having seen the given number of completed
    /// steps of the friend. What was seen may be out of date.
    Take(int, int),
    /// Run what is held back for the channel and release it.
    Release(int),
}

/// A chunk that begins at item `start`, after a visit of its batch `j` by `after`.
pub open spec fn visit_chunk<T>(
    after: spec_fn(int, Seq<T>) -> Seq<T>,
    start: int,
    chunk: Seq<T>,
    j: int,
) -> Seq<T> {
    let a = visited(chunk.len() as int, j);
    let b = visited(chunk.len() as int, j + 1);
    if a < b {
        chunk.subrange(0, a) + after(start + a, chunk.subrange(a, b)) + chunk.subrange(
            b,
            chunk.len() as int,
        )
    } else {
        chunk
    }
}

/// The tasks that such a visit schedules.
pub open spec fn visit_tasks<T, FA>(
    tasks: spec_fn(int, Seq<T>) -> Seq<(u32, FA)>,
    start: int,
    chunk: Seq<T>,
    j: int,
) -> Seq<(u32, FA)> {
    let a = visited(chunk.len() as int, j);
    let b = visited(chunk.len() as int, j + 1);
    if a < b {
        tasks(start + a, chunk.subrange(a, b))
    } else {
        Seq::empty()
    }
}

/// `held` with the tasks of `ts` added at the end, each on its channel.
pub open spec fn held_with<FA>(held: Seq<Seq<FA>>, ts: Seq<(u32, FA)>) -> Seq<Seq<FA>> {
    Seq::new(held.len(), |c: int| held[c] + ts.filter_map(on_channel(c)))
}

impl<FA> ThreadState<FA> {
    /// A thread before its first step.
    pub open spec fn start() -> ThreadState<FA> {
        ThreadState {
            done: 0,
            phase: Phase::Visiting,
            held: Seq::new(ring_len() as nat, |c: int| Seq::empty()),
        }
    }

    /// The number of batches visited.
    pub open spec fn batches(self) -> int {
        if self.phase == Phase::Visiting {
            self.done
        } else {
            self.done + 1
        }
    }

    pub open spec fn visit(self, ts: Seq<(u32, FA)>) -> ThreadState<FA> {
        ThreadState { phase: Phase::Waiting, held: held_with(self.held, ts), ..self }
    }

    pub open spec fn take(self) -> ThreadState<FA> {
        ThreadState { phase: Phase::Working, ..self }
    }

    pub open spec fn release(self, w: int) -> ThreadState<FA> {
        ThreadState {
            done: self.done + 1,
            phase: Phase::Visiting,
            held: self.held.update(channel_at(w, self.done), Seq::empty()),
        }
    }
}

impl<T, FA, P> RunState<T, FA, P> {
    /// The completed steps of each thread.
    pub open spec fn done(self) -> Seq<int> {
        Seq::new(self.threads.len(), |w: int| self.threads[w].done)
    }

    /// The state in which a run starts.
    pub open spec fn start(job: Job<T, FA>, parts: Seq<P>) -> RunState<T, FA, P> {
        RunState {
            threads: Seq::new(ring_len() as nat, |w: int| ThreadState::<FA>::start()),
            chunks: Seq::new(
                ring_len() as nat,
                |w: int|
                    job.data.subrange(
                        chunk_start(job.len(), w),
                        chunk_start(job.len(), w) + chunk_len(job.len(), w),
                    ),
            ),
            parts,
        }
    }

    /// Every thread has completed its steps.
    pub open spec fn finished(self, job: Job<T, FA>) -> bool {
        forall|w: int|
            0 <= w < ring_len() ==> (#[trigger] self.threads[w]).done == step_count(job.len())
    }

    pub open spec fn can(self, job: Job<T, FA>, action: Action) -> bool {
        match action {
            Action::Visit(w) => {
                &&& 0 <= w < ring_len()
                &&& self.threads[w].phase == Phase::Visiting
                &&& self.threads[w].done < step_count(job.len())
            },
            Action::Take(w, seen) => {
                &&& 0 <= w < ring_len()
                &&& self.threads[w].phase == Phase::Waiting
                &&& self.threads[w].done <= seen <= self.threads[friend(w)].done
            },
            Action::Release(w) => {
                &&& 0 <= w < ring_len()
                &&& self.threads[w].phase == Phase::Working
            },
        }
    }

    pub open spec fn act(
        self,
        job: Job<T, FA>,
        run: spec_fn(P, FA) -> P,
        action: Action,
    ) -> RunState<T, FA, P> {
        match action {
            Action::Visit(w) => {
                let t = self.threads[w];
                let start = chunk_start(job.len(), w);
                RunState {
                    threads: self.threads.update(
                        w,
                        t.visit(visit_tasks(job.tasks, start, self.chunks[w], t.done)),
                    ),
                    chunks: self.chunks.update(
                        w,
                        visit_chunk(job.after, start, self.chunks[w], t.done),
                    ),
                    parts: self.parts,
                }
            },
            Action::Take(w, seen) => RunState {
                threads: self.threads.update(w, self.threads[w].take()),
                ..self
            },
            Action::Release(w) => {
                let t = self.threads[w];
                let c = channel_at(w, t.done);
                RunState {
                    threads: self.threads.update(w, t.release(w)),
                    chunks: self.chunks,
                    parts: self.parts.update(c, t.held[c].fold_left(self.parts[c], run)),
                }
            },
        }
    }

    /// What holds of every state that a run from `parts` reaches.
    pub open spec fn reachable(
        self,
        job: Job<T, FA>,
        run: spec_fn(P, FA) -> P,
        parts: Seq<P>,
    ) -> bool {
        &&& self.threads.len() == ring_len()
        &&& self.chunks.len() == ring_len()
        &&& self.parts.len() == ring_len()
        &&& in_step(self.done())
        &&& forall|w: int| 0 <= w < ring_len() ==> self.thread_ok(job, w)
        &&& forall|c: int, p: int|
            0 <= c < ring_len() && #[trigger] is_progress(self.done(), c, p) ==> self.parts[c]
                == job.run_on_channel(c, p).fold_left(parts[c], run)
    }

    /// The part of `reachable` that speaks of thread `w` alone.
    pub open spec fn thread_ok(self, job: Job<T, FA>, w: int) -> bool {
        let t = self.threads[w];
        &&& 0 <= t.done <= step_count(job.len())
        &&& t.phase != Phase::Visiting ==> t.done < step_count(job.len())
        &&& t.phase == Phase::Working ==> may_step(self.done(), w)
        &&& t.held.len() == ring_len()
        &&& forall|c: int|
            0 <= c < ring_len() ==> #[trigger] t.held[c] == job.pending(w, t.done, t.batches(), c)
        &&& self.chunks[w] == job.chunk_after(w, t.batches())
    }
}

proof fn lemma_batches_after_len<T, FA>(job: Job<T, FA>, w: int, j: int)
    requires
        job.keeps_len(),
        !undivided(job.len()),
        0 <= w < ring_len(),
        j >= 0,
    ensures
        job.batches_after(w, j).len() == visited(chunk_len(job.len(), w), j),
    decreases j,
{
    if j > 0 {
        lemma_batches_after_len(job, w, j - 1);
        lemma_visited(job.len(), w, j - 1);
        lemma_division(job.len());
        assert(chunk_start(job.len(), w) >= 0);
        let (a, b) = job.batch_bounds(w, j - 1);
        if a < b {
            assert((job.after)(a, job.batch(w, j - 1)).len() == b - a);
        }
    }
}

/// Visiting the next batch of a chunk of which the earlier batches have been visited.
pub proof fn lemma_visit_chunk<T, FA>(job: Job<T, FA>, w: int, j: int)
    requires
        job.keeps_len(),
        !undivided(job.len()),
        0 <= w < ring_len(),
        j >= 0,
    ensures
        job.chunk_after(w, j).len() == chunk_len(job.len(), w),
        visit_chunk(job.after, chunk_start(job.len(), w), job.chunk_after(w, j), j)
            == job.chunk_after(w, j + 1),
        visit_tasks(job.tasks, chunk_start(job.len(), w), job.chunk_after(w, j), j)
            == job.batch_tasks(w, j),
        job.batch_bounds(w, j).0 < job.batch_bounds(w, j).1 ==> job.chunk_after(w, j).subrange(
            visited(chunk_len(job.len(), w), j),
            visited(chunk_len(job.len(), w), j + 1),
        ) == job.batch(w, j),
{
    lemma_batches_after_len(job, w, j);
    lemma_batches_after_len(job, w, j + 1);
    lemma_visited(job.len(), w, j);
    lemma_division(job.len());
    let len = chunk_len(job.len(), w);
    let s = chunk_start(job.len(), w);
    assert(s >= 0 && s + len <= job.len());
    let chunk = job.chunk_after(w, j);
    let a = visited(len, j);
    let b = visited(len, j + 1);
    assert(chunk.len() == len);
    assert(job.batch_bounds(w, j) == (s + a, s + b));
    assert(job.batch_bounds(w, j + 1).0 == s + b);
    if a < b {
        assert(chunk.subrange(a, b) =~= job.batch(w, j));
        assert(chunk.subrange(0, a) =~= job.batches_after(w, j));
        assert(chunk.subrange(b, len) =~= job.data.subrange(s + b, s + len));
        assert(job.batches_after(w, j + 1) == job.batches_after(w, j) + (job.after)(
            s + a,
            job.batch(w, j),
        ));
        assert(visit_chunk(job.after, s, chunk, j) =~= job.chunk_after(w, j + 1));
    } else {
        assert(job.batches_after(w, j + 1) =~= job.batches_after(w, j));
        assert(chunk =~= job.chunk_after(w, j + 1));
    }
}

impl<T, FA, P> RunState<T, FA, P> {
    /// A run starts in a reachable state.
    pub proof fn lemma_start(job: Job<T, FA>, run: spec_fn(P, FA) -> P, parts: Seq<P>)
        requires
            !undivided(job.len()),
            parts.len() == ring_len(),
        ensures
            Self::start(job, parts).reachable(job, run, parts),
    {
        let s = Self::start(job, parts);
        lemma_division(job.len());
        lemma_ceil_div(thread_chunk(job.len()), batch_len());
        assert forall|w: int| 0 <= w < ring_len() implies s.thread_ok(job, w) by {
            assert forall|c: int| 0 <= c < ring_len() implies #[trigger] s.threads[w].held[c]
                == job.pending(w, 0, 0, c) by {
                job.lemma_pending_start(w, c);
            }
            assert(chunk_start(job.len(), w) >= 0);
            assert(s.chunks[w] =~= job.chunk_after(w, 0));
        }
        assert forall|c: int, p: int|
            0 <= c < ring_len() && #[trigger] is_progress(s.done(), c, p) implies s.parts[c]
            == job.run_on_channel(c, p).fold_left(parts[c], run) by {
            if p > 0 {
                assert(s.done()[owner(c, 0)] > 0);
            }
        }
    }

    /// Every action leads from a reachable state to a reachable state.
    pub proof fn lemma_act(
        self,
        job: Job<T, FA>,
        run: spec_fn(P, FA) -> P,
        parts: Seq<P>,
        action: Action,
    )
        requires
            !undivided(job.len()),
            job.keeps_len(),
            parts.len() == ring_len(),
            self.reachable(job, run, parts),
            self.can(job, action),
        ensures
            self.act(job, run, action).reachable(job, run, parts),
    {
        match action {
            Action::Visit(w) => self.lemma_visit(job, run, parts, w),
            Action::Take(w, seen) => self.lemma_take(job, run, parts, w, seen),
            Action::Release(w) => self.lemma_release(job, run, parts, w),
        }
    }

    proof fn lemma_visit(
        self,
        job: Job<T, FA>,
        run: spec_fn(P, FA) -> P,
        parts: Seq<P>,
        w: int,
    )
        requires
            !undivided(job.len()),
            job.keeps_len(),
            parts.len() == ring_len(),
            self.reachable(job, run, parts),
            self.can(job, Action::Visit(w)),
        ensures
            self.act(job, run, Action::Visit(w)).reachable(job, run, parts),
    {
        let next = self.act(job, run, Action::Visit(w));
        assert(next.done() =~= self.done());
        assert forall|v: int| 0 <= v < ring_len() implies next.thread_ok(job, v) by {
            assert(self.thread_ok(job, v));
            if v == w {
                let k = self.threads[w].done;
                lemma_visit_chunk(job, w, k);
                assert forall|c: int| 0 <= c < ring_len() implies #[trigger] next.threads[w].held[c]
                    == job.pending(w, k, k + 1, c) by {
                    job.lemma_pending_visit(w, k, c);
                    assert(self.threads[w].held[c] == job.pending(w, k, k, c));
                }
            }
        }
    }

    proof fn lemma_take(
        self,
        job: Job<T, FA>,
        run: spec_fn(P, FA) -> P,
        parts: Seq<P>,
        w: int,
        seen: int,
    )
        requires
            self.reachable(job, run, parts),
            self.can(job, Action::Take(w, seen)),
        ensures
            self.act(job, run, Action::Take(w, seen)).reachable(job, run, parts),
    {
        let next = self.act(job, run, Action::Take(w, seen));
        assert(next.done() =~= self.done());
        assert forall|v: int| 0 <= v < ring_len() implies next.thread_ok(job, v) by {
            assert(self.thread_ok(job, v));
        }
    }

    proof fn lemma_release(
        self,
        job: Job<T, FA>,
        run: spec_fn(P, FA) -> P,
        parts: Seq<P>,
        w: int,
    )
        requires
            parts.len() == ring_len(),
            self.reachable(job, run, parts),
            self.can(job, Action::Release(w)),
        ensures
            self.act(job, run, Action::Release(w)).reachable(job, run, parts),
    {
        let next = self.act(job, run, Action::Release(w));
        let k = self.threads[w].done;
        let c0 = channel_at(w, k);
        assert(self.thread_ok(job, w));
        assert(next.done() =~= self.done().update(w, k + 1));
        lemma_advance(self.done(), w);
        lemma_turn(self.done(), w);
        job.lemma_pending_run(w, k);
        assert forall|v: int| 0 <= v < ring_len() implies next.thread_ok(job, v) by {
            assert(self.thread_ok(job, v));
            if v == w {
                assert forall|c: int| 0 <= c < ring_len() implies #[trigger] next.threads[w].held[c]
                    == job.pending(w, k + 1, k + 1, c) by {
                    assert(self.threads[w].held[c] == job.pending(w, k, k + 1, c));
                }
            }
        }
        assert forall|c: int, p: int|
            0 <= c < ring_len() && #[trigger] is_progress(next.done(), c, p) implies next.parts[c]
            == job.run_on_channel(c, p).fold_left(parts[c], run) by {
            if c == c0 {
                lemma_progress_unique(next.done(), c, p, k + 1);
                assert(is_progress(self.done(), c, k));
                lemma_owner(w, c, k);
                assert(self.threads[w].held[c] == job.run_in_step(w, k));
                lemma_fold_add(
                    job.run_on_channel(c, k),
                    job.run_in_step(w, k),
                    parts[c],
                    run,
                );
            } else {
                assert(is_progress(self.done(), c, p));
            }
        }
    }

    /// When every thread has completed its steps, each channel has had all its tasks and
    /// each chunk all its visits.
    pub proof fn lemma_finished(
        self,
        job: Job<T, FA>,
        run: spec_fn(P, FA) -> P,
        parts: Seq<P>,
    )
        requires
            !undivided(job.len()),
            self.reachable(job, run, parts),
            self.finished(job),
        ensures
            forall|c: int|
                0 <= c < ring_len() ==> #[trigger] self.parts[c] == job.tasks_run(c).fold_left(
                    parts[c],
                    run,
                ),
            forall|w: int|
                0 <= w < ring_len() ==> #[trigger] self.chunks[w] == job.chunk_after(
                    w,
                    step_count(job.len()),
                ),
            forall|w: int, c: int|
                0 <= w < ring_len() && 0 <= c < ring_len()
                    ==> #[trigger] self.threads[w].held[c].len() == 0,
    {
        let n = step_count(job.len());
        lemma_division(job.len());
        lemma_ceil_div(thread_chunk(job.len()), batch_len());
        assert forall|c: int| 0 <= c < ring_len() implies #[trigger] self.parts[c]
            == job.tasks_run(c).fold_left(parts[c], run) by {
            assert(is_progress(self.done(), c, n)) by {
                assert forall|j: int| 0 <= j < n implies self.done()[#[trigger] owner(c, j)]
                    > j by {
                    assert(self.threads[owner(c, j)].done == n);
                }
                assert forall|j: int| j >= n implies self.done()[#[trigger] owner(c, j)] <= j by {
                    assert(self.threads[owner(c, j)].done == n);
                }
            }
        }
        assert forall|w: int| 0 <= w < ring_len() implies #[trigger] self.chunks[w]
            == job.chunk_after(w, n) by {
            assert(self.thread_ok(job, w));
            assert(self.threads[w].done == n);
        }
        assert forall|w: int, c: int|
            0 <= w < ring_len() && 0 <= c
                < ring_len() implies #[trigger] self.threads[w].held[c].len() == 0 by {
            assert(self.thread_ok(job, w));
            assert(self.threads[w].done == n);
            job.lemma_pending_end(w, c);
        }
    }
}

proof fn lemma_least(done: Seq<int>, m: int) -> (w: int)
    requires
        0 < m <= done.len(),
    ensures
        0 <= w < m,
        forall|v: int| 0 <= v < m ==> done[w] <= #[trigger] done[v],
    decreases m,
{
    if m == 1 {
        0
    } else {
        let w = lemma_least(done, m - 1);
        if done[m - 1] < done[w] {
            m - 1
        } else {
            w
        }
    }
}

/// The number of actions behind a thread.
pub open spec fn thread_work<FA>(t: ThreadState<FA>) -> int {
    3 * t.done + (match t.phase {
        Phase::Visiting => 0int,
        Phase::Waiting => 1int,
        Phase::Working => 2int,
    })
}

/// The number of actions behind the first `m` threads.
pub open spec fn work<FA>(threads: Seq<ThreadState<FA>>, m: int) -> int
    decreases m,
{
    if m <= 0 {
        0
    } else {
        work(threads, m - 1) + thread_work(threads[m - 1])
    }
}

proof fn lemma_work_update<FA>(
    threads: Seq<ThreadState<FA>>,
    m: int,
    w: int,
    t: ThreadState<FA>,
)
    requires
        0 <= w < threads.len(),
        0 <= m <= threads.len(),
    ensures
        work(threads.update(w, t), m) == work(threads, m) + (if w < m {
            thread_work(t) - thread_work(threads[w])
        } else {
            0
        }),
    decreases m,
{
    if m > 0 {
        lemma_work_update(threads, m - 1, w, t);
    }
}

impl<T, FA, P> RunState<T, FA, P> {
    /// The state after the given actions, one after the other.
    pub open spec fn act_all(
        self,
        job: Job<T, FA>,
        run: spec_fn(P, FA) -> P,
        actions: Seq<Action>,
    ) -> RunState<T, FA, P>
        decreases actions.len(),
    {
        if actions.len() == 0 {
            self
        } else {
            self.act_all(job, run, actions.drop_last()).act(job, run, actions.last())
        }
    }

    /// Each of the given actions is possible when its turn comes.
    pub open spec fn can_all(
        self,
        job: Job<T, FA>,
        run: spec_fn(P, FA) -> P,
        actions: Seq<Action>,
    ) -> bool
        decreases actions.len(),
    {
        actions.len() == 0 || {
            &&& self.can_all(job, run, actions.drop_last())
            &&& self.act_all(job, run, actions.drop_last()).can(job, actions.last())
        }
    }

    /// Every state that actions lead to from the start is reachable, and the number of
    /// actions behind it is the work of its threads.
    pub proof fn lemma_act_all(
        job: Job<T, FA>,
        run: spec_fn(P, FA) -> P,
        parts: Seq<P>,
        actions: Seq<Action>,
    )
        requires
            !undivided(job.len()),
            job.keeps_len(),
            parts.len() == ring_len(),
            Self::start(job, parts).can_all(job, run, actions),
        ensures
            Self::start(job, parts).act_all(job, run, actions).reachable(job, run, parts),
            work(Self::start(job, parts).act_all(job, run, actions).threads, ring_len())
                == actions.len(),
        decreases actions.len(),
    {
        let s0 = Self::start(job, parts);
        if actions.len() == 0 {
            Self::lemma_start(job, run, parts);
            reveal_with_fuel(work, 9);
        } else {
            let before = actions.drop_last();
            Self::lemma_act_all(job, run, parts, before);
            let s = s0.act_all(job, run, before);
            s.lemma_act(job, run, parts, actions.last());
            match actions.last() {
                Action::Visit(w) => {
                    let ts = visit_tasks(
                        job.tasks,
                        chunk_start(job.len(), w),
                        s.chunks[w],
                        s.threads[w].done,
                    );
                    lemma_work_update(s.threads, ring_len(), w, s.threads[w].visit(ts));
                },
                Action::Take(w, seen) => {
                    lemma_work_update(s.threads, ring_len(), w, s.threads[w].take());
                },
                Action::Release(w) => {
                    lemma_work_update(s.threads, ring_len(), w, s.threads[w].release(w));
                },
            }
        }
    }

    /// However the actions of the threads are interleaved, no two threads use the same
    /// channel at the same time.
    pub proof fn law_channels_are_exclusive(
        job: Job<T, FA>,
        run: spec_fn(P, FA) -> P,
        parts: Seq<P>,
        actions: Seq<Action>,
        v: int,
        w: int,
    )
        requires
            !undivided(job.len()),
            job.keeps_len(),
            parts.len() == ring_len(),
            Self::start(job, parts).can_all(job, run, actions),
            0 <= v < ring_len(),
            0 <= w < ring_len(),
            v != w,
            Self::start(job, parts).act_all(job, run, actions).threads[v].phase == Phase::Working,
            Self::start(job, parts).act_all(job, run, actions).threads[w].phase == Phase::Working,
        ensures
            ({
                let s = Self::start(job, parts).act_all(job, run, actions);
                channel_at(v, s.threads[v].done) != channel_at(w, s.threads[w].done)
            }),
    {
        Self::lemma_act_all(job, run, parts, actions);
        let s = Self::start(job, parts).act_all(job, run, actions);
        assert(s.thread_ok(job, v));
        assert(s.thread_ok(job, w));
        law_no_two_threads_on_one_channel(s.done(), v, w);
    }

    /// As long as a thread has steps left, some thread can act: the threads never wait for
    /// each other in a circle.
    pub proof fn law_some_thread_can_act(
        job: Job<T, FA>,
        run: spec_fn(P, FA) -> P,
        parts: Seq<P>,
        actions: Seq<Action>,
    )
        requires
            !undivided(job.len()),
            job.keeps_len(),
            parts.len() == ring_len(),
            Self::start(job, parts).can_all(job, run, actions),
            !Self::start(job, parts).act_all(job, run, actions).finished(job),
        ensures
            exists|action: Action|
                Self::start(job, parts).act_all(job, run, actions).can(job, action),
    {
        Self::lemma_act_all(job, run, parts, actions);
        let s = Self::start(job, parts).act_all(job, run, actions);
        let w = lemma_least(s.done(), ring_len());
        let u = choose|u: int|
            0 <= u < ring_len() && (#[trigger] s.threads[u]).done != step_count(job.len());
        assert(s.thread_ok(job, u));
        assert(s.thread_ok(job, w));
        assert(s.done()[w] <= s.done()[u]);
        assert(s.done()[w] <= s.done()[friend(w)]);
        match s.threads[w].phase {
            Phase::Visiting => {
                assert(s.can(job, Action::Visit(w)));
            },
            Phase::Waiting => {
                assert(s.can(job, Action::Take(w, s.threads[w].done)));
            },
            Phase::Working => {
                assert(s.can(job, Action::Release(w)));
            },
        }
    }

    /// No run goes on for ever: there are three actions for each step of each thread, and no
    /// more. A run that has ended has taken all of them.
    pub proof fn law_runs_end(
        job: Job<T, FA>,
        run: spec_fn(P, FA) -> P,
        parts: Seq<P>,
        actions: Seq<Action>,
    )
        requires
            !undivided(job.len()),
            job.keeps_len(),
            parts.len() == ring_len(),
            Self::start(job, parts).can_all(job, run, actions),
        ensures
            actions.len() <= 3 * ring_len() * step_count(job.len()),
            Self::start(job, parts).act_all(job, run, actions).finished(job) <==> actions.len()
                == 3 * ring_len() * step_count(job.len()),
    {
        Self::lemma_act_all(job, run, parts, actions);
        let s = Self::start(job, parts).act_all(job, run, actions);
        reveal_with_fuel(work, 9);
        assert forall|w: int| 0 <= w < ring_len() implies thread_work(#[trigger] s.threads[w]) <= 3
            * step_count(job.len()) by {
            assert(s.thread_ok(job, w));
        }
        if s.finished(job) {
            assert forall|w: int| 0 <= w < ring_len() implies thread_work(#[trigger] s.threads[w])
                == 3 * step_count(job.len()) by {
                assert(s.thread_ok(job, w));
                assert(s.threads[w].done == step_count(job.len()));
            }
        }
    }

    /// However the actions of the threads are interleaved, a run that ends has run the same
    /// tasks in the same order on every channel, and has left the same data.
    pub proof fn law_every_interleaving_agrees(
        job: Job<T, FA>,
        run: spec_fn(P, FA) -> P,
        parts: Seq<P>,
        actions: Seq<Action>,
    )
        requires
            !undivided(job.len()),
            job.keeps_len(),
            parts.len() == ring_len(),
            Self::start(job, parts).can_all(job, run, actions),
            Self::start(job, parts).act_all(job, run, actions).finished(job),
        ensures
            forall|c: int|
                0 <= c < ring_len() ==> #[trigger] Self::start(job, parts).act_all(
                    job,
                    run,
                    actions,
                ).parts[c] == job.tasks_run(c).fold_left(parts[c], run),
            forall|w: int|
                0 <= w < ring_len() ==> #[trigger] Self::start(job, parts).act_all(
                    job,
                    run,
                    actions,
                ).chunks[w] == job.data_after().subrange(
                    chunk_start(job.len(), w),
                    chunk_start(job.len(), w) + chunk_len(job.len(), w),
                ),
    {
        Self::lemma_act_all(job, run, parts, actions);
        let s = Self::start(job, parts).act_all(job, run, actions);
        s.lemma_finished(job, run, parts);
        assert forall|w: int| 0 <= w < ring_len() implies #[trigger] s.chunks[w]
            == job.data_after().subrange(
            chunk_start(job.len(), w),
            chunk_start(job.len(), w) + chunk_len(job.len(), w),
        ) by {
            lemma_chunks_after(job, ring_len(), w);
        }
    }
}

/// Where the chunks lie in the joined data.
pub proof fn lemma_chunks_after<T, FA>(job: Job<T, FA>, m: int, w: int)
    requires
        !undivided(job.len()),
        job.keeps_len(),
        0 <= w < m <= ring_len(),
    ensures
        job.chunks_after(m).len() == chunk_start(job.len(), m - 1) + chunk_len(job.len(), m - 1),
        job.chunks_after(m).subrange(
            chunk_start(job.len(), w),
            chunk_start(job.len(), w) + chunk_len(job.len(), w),
        ) == job.chunk_after(w, step_count(job.len())),
    decreases m,
{
    let n = step_count(job.len());
    lemma_division(job.len());
    lemma_ceil_div(thread_chunk(job.len()), batch_len());
    lemma_visit_chunk(job, m - 1, n);
    let a = chunk_start(job.len(), w);
    let b = a + chunk_len(job.len(), w);
    assert(a >= 0);
    if m == 1 {
        assert(job.chunks_after(0) =~= Seq::<T>::empty());
        assert(job.chunks_after(1) =~= job.chunk_after(0, n));
        assert(job.chunks_after(m).subrange(a, b) =~= job.chunk_after(w, n));
    } else {
        lemma_chunks_after(job, m - 1, min(w, m - 2));
        assert(chunk_start(job.len(), m - 2) + chunk_len(job.len(), m - 2) == chunk_start(
            job.len(),
            m - 1,
        ));
        if w == m - 1 {
            assert(job.chunks_after(m).subrange(a, b) =~= job.chunk_after(w, n));
        } else {
            assert(job.chunks_after(m).subrange(a, b) =~= job.chunks_after(m - 1).subrange(a, b));
        }
    }
}

} // verus!
