//! A pool whose threads each wait at a slot of their own.
use vstd::prelude::*;

use crate::calls::{CallLog, ThreadJob};
use crate::chunks::{ceil_div, chunk_seq, lemma_ceil_div, lemma_chunk_seq_bounds, min};
use crate::cores::{ascending, enumerate_cores, enumerated, listed};
use crate::each::{apply_range, is_index};
use crate::job_slot::{JobSlot, Poll, FIRST_RUNNER};

verus! {

/// A thread of the pool: its slot, the core to which it is pinned, and the range of items on
/// which it last ran a job, from the first number up to, not including, the second.
pub struct ThreadData {
    pub cur_job: JobSlot,
    pub core_id: usize,
    pub ran: (usize, usize),
}

/// The threads of a pool.
pub struct Scope {
    threads: Vec<ThreadData>,
}

impl Scope {
    pub closed spec fn threads(self) -> Seq<ThreadData> {
        self.threads@
    }

    /// Asks all the threads to end, and hands them over to be waited for.
    pub fn exit(&mut self) -> (ending: Vec<ThreadData>)
        ensures
            final(self).threads() == Seq::<ThreadData>::empty(),
            ending@.len() == old(self).threads().len(),
            forall|i: int|
                0 <= i < ending@.len() ==> {
                    &&& (#[trigger] ending@[i]).cur_job.polled() == Poll::Exit
                    &&& ending@[i].core_id == old(self).threads()[i].core_id
                },
    {
        let mut ending: Vec<ThreadData> = Vec::new();
        ending.append(&mut self.threads);
        let mut i: usize = 0;
        while i < ending.len()
            invariant
                i <= ending@.len(),
                ending@.len() == old(self).threads().len(),
                self.threads@ == Seq::<ThreadData>::empty(),
                forall|j: int|
                    0 <= j < i ==> (#[trigger] ending@[j]).cur_job.polled() == Poll::Exit,
                forall|j: int|
                    0 <= j < ending@.len() ==> (#[trigger] ending@[j]).core_id
                        == old(self).threads()[j].core_id,
            decreases ending@.len() - i,
        {
            let thread = &mut ending[i];
            thread.cur_job.request_exit();
            i = i + 1;
        }
        ending
    }
}

/// A pool of threads, with the record of the jobs that they called.
pub struct Pool {
    scope: Scope,
    log: CallLog,
}

/// The ranges lie within `len` items, and no item lies in two of them.
pub open spec fn apart(parts: Seq<(usize, usize)>, len: int) -> bool {
    &&& forall|i: int|
        0 <= i < parts.len() ==> (#[trigger] parts[i]).0 <= parts[i].1 && parts[i].1 <= len
    &&& forall|i: int, j: int|
        0 <= i < j < parts.len() ==> disjoint(#[trigger] parts[i], #[trigger] parts[j])
}

/// No item lies in both ranges.
pub open spec fn disjoint(a: (usize, usize), b: (usize, usize)) -> bool {
    a.0 >= a.1 || b.0 >= b.1 || a.1 <= b.0 || b.1 <= a.0
}

/// Item `i` lies in one of the first `m` ranges.
pub open spec fn covered(parts: Seq<(usize, usize)>, m: int, i: int) -> bool {
    exists|t: int| 0 <= t < m && (#[trigger] parts[t]).0 <= i && i < parts[t].1
}

/// The slot of thread `j` when the first `done` of the threads have run their jobs, out of
/// `jobs` jobs in all. Before the run it was `slot`.
spec fn slot_in_run(slot: JobSlot, done: int, jobs: int, j: int) -> JobSlot {
    if j >= jobs {
        slot
    } else if j < done {
        slot.posted(j as usize, FIRST_RUNNER).finished()
    } else {
        slot.posted(j as usize, FIRST_RUNNER)
    }
}

/// The numbers from zero up to, not including, `count`.
pub open spec fn first_numbers(count: int) -> Seq<usize> {
    Seq::new(count as nat, |i: int| i as usize)
}

/// The chunks of `len` items are apart, and every item lies in one of them.
pub proof fn law_chunks_cover(len: int, size: int)
    requires
        0 <= len <= usize::MAX,
        size > 0,
    ensures
        apart(chunk_seq(len, size), len),
        forall|i: int|
            0 <= i < len ==> #[trigger] covered(
                chunk_seq(len, size),
                chunk_seq(len, size).len() as int,
                i,
            ),
{
    let parts = chunk_seq(len, size);
    let count = ceil_div(len, size);
    lemma_ceil_div(len, size);
    lemma_chunk_seq_bounds(len, size);
    assert forall|i: int, j: int| 0 <= i < j < parts.len() implies disjoint(
        #[trigger] parts[i],
        #[trigger] parts[j],
    ) by {
        assert((i + 1) * size <= j * size) by (nonlinear_arith)
            requires
                i + 1 <= j,
                size > 0,
        ;
    }
    assert forall|i: int| 0 <= i < parts.len() implies (#[trigger] parts[i]).0 <= parts[i].1
        && parts[i].1 <= len by {
        assert((i + 1) * size == i * size + size) by (nonlinear_arith);
    }
    assert forall|i: int| 0 <= i < len implies #[trigger] covered(parts, parts.len() as int, i) by {
        let t = i / size;
        vstd::arithmetic::div_mod::lemma_fundamental_div_mod(i, size);
        assert(0 <= t < count && t * size <= i && i < (t + 1) * size) by (nonlinear_arith)
            requires
                i == size * t + i % size,
                0 <= i % size < size,
                0 <= i < len,
                len <= count * size,
                size > 0,
        ;
        assert(parts[t].0 <= i && i < parts[t].1);
    }
}

impl Pool {
    pub closed spec fn threads(self) -> Seq<ThreadData> {
        self.scope.threads()
    }

    /// The numbers of the jobs that the threads called, in the order of the calls.
    pub closed spec fn calls(self) -> Seq<usize> {
        self.log@
    }

    /// No thread has a job or has been asked to end.
    pub open spec fn idle(self) -> bool {
        forall|i: int|
            0 <= i < self.threads().len() ==> (#[trigger] self.threads()[i]).cur_job.polled()
                == Poll::Idle
    }

    /// The same cores in the same order.
    pub open spec fn same_cores(self, other: Pool) -> bool {
        &&& self.threads().len() == other.threads().len()
        &&& forall|i: int|
            0 <= i < self.threads().len() ==> (#[trigger] self.threads()[i]).core_id
                == other.threads()[i].core_id
    }

    /// A pool of `thread_count` threads, which share the cores of the machine in turn. There
    /// is none if the cores cannot be found out.
    pub fn new(thread_count: usize) -> (pool: Option<Pool>)
        ensures
            pool matches Some(p) ==> exists|ids: Seq<usize>|
                ascending(ids) && (thread_count > 0 ==> ids.len() > 0) && #[trigger] p.shares(
                    thread_count as nat,
                    ids,
                ),
            exists|found: Option<Seq<usize>>| #[trigger]
                enumerated(found) && (match found {
                    Some(ids) => {
                        &&& ascending(ids)
                        &&& pool is None <==> thread_count > 0 && ids.len() == 0
                        &&& pool is Some ==> pool->0.shares(thread_count as nat, ids)
                    },
                    None => pool is None,
                }),
    {
        let found: Option<Vec<usize>> = enumerate_cores();
        assert(enumerated(listed(found)));
        Pool::on_found_cores(thread_count, found)
    }

    /// A pool of `thread_count` threads, which share the cores that were found in turn. There
    /// is none if the cores were not found out, or if there is no core for the threads.
    pub fn on_found_cores(thread_count: usize, core_ids: Option<Vec<usize>>) -> (pool: Option<Pool>)
        ensures
            match core_ids {
                Some(ids) => {
                    &&& pool is None <==> thread_count > 0 && ids@.len() == 0
                    &&& pool matches Some(p) ==> p.shares(thread_count as nat, ids@)
                },
                None => pool is None,
            },
    {
        match core_ids {
            Some(ids) => if thread_count > 0 && ids.len() == 0 {
                None
            } else {
                Some(Pool::with_cores(thread_count, ids.as_slice()))
            },
            None => None,
        }
    }

    /// An idle pool of `thread_count` threads, which share the given cores in turn and have
    /// called nothing.
    pub open spec fn shares(self, thread_count: nat, core_ids: Seq<usize>) -> bool {
        &&& self.idle()
        &&& self.calls() == Seq::<usize>::empty()
        &&& self.threads().len() == thread_count
        &&& forall|i: int|
            0 <= i < thread_count ==> (#[trigger] self.threads()[i]).core_id == core_ids[i
                % core_ids.len() as int]
    }

    /// A pool of `thread_count` threads, which share the given cores in turn.
    pub fn with_cores(thread_count: usize, core_ids: &[usize]) -> (pool: Pool)
        requires
            thread_count > 0 ==> core_ids@.len() > 0,
        ensures
            pool.shares(thread_count as nat, core_ids@),
    {
        let mut threads: Vec<ThreadData> = Vec::new();
        let mut i: usize = 0;
        while i < thread_count
            invariant
                i <= thread_count,
                thread_count > 0 ==> core_ids@.len() > 0,
                threads@.len() == i,
                forall|j: int|
                    0 <= j < i ==> {
                        &&& (#[trigger] threads@[j]).cur_job.polled() == Poll::Idle
                        &&& threads@[j].core_id == core_ids@[j % core_ids@.len() as int]
                    },
            decreases thread_count - i,
        {
            let core_id: usize = core_ids[i % core_ids.len()];
            threads.push(ThreadData { cur_job: JobSlot::new(), core_id, ran: (0, 0) });
            i = i + 1;
        }
        Pool { scope: Scope { threads }, log: CallLog::new() }
    }

    /// The number of threads.
    pub fn thread_count(&self) -> (count: usize)
        ensures
            count == self.threads().len(),
    {
        self.scope.threads.len()
    }

    /// The core to which a thread is to be pinned.
    pub fn core_of(&self, thread: usize) -> (core: usize)
        requires
            thread < self.threads().len(),
        ensures
            core == self.threads()[thread as int].core_id,
    {
        self.scope.threads[thread].core_id
    }

    /// Asks all the threads to end, and hands them over to be waited for.
    pub fn exit(&mut self) -> (ending: Vec<ThreadData>)
        ensures
            final(self).threads() == Seq::<ThreadData>::empty(),
            final(self).calls() == old(self).calls(),
            ending@.len() == old(self).threads().len(),
            forall|i: int|
                0 <= i < ending@.len() ==> {
                    &&& (#[trigger] ending@[i]).cur_job.polled() == Poll::Exit
                    &&& ending@[i].core_id == old(self).threads()[i].core_id
                },
    {
        self.scope.exit()
    }

    /// Hands job number `i` to thread number `i`, as far as there are threads.
    pub fn post_all(&mut self, job_count: usize)
        requires
            old(self).idle(),
        ensures
            final(self).same_cores(*old(self)),
            final(self).calls() == old(self).calls(),
            forall|i: int|
                0 <= i < final(self).threads().len() ==> (#[trigger] final(self).threads()[i])
                    .cur_job == (if i < job_count {
                    old(self).threads()[i].cur_job.posted(i as usize, FIRST_RUNNER)
                } else {
                    old(self).threads()[i].cur_job
                }),
            forall|i: int|
                0 <= i < final(self).threads().len() ==> (#[trigger] final(self).threads()[i]).ran
                    == old(self).threads()[i].ran,
    {
        let mut i: usize = 0;
        while i < self.scope.threads.len() && i < job_count
            invariant
                i <= self.threads().len(),
                i <= job_count,
                self.same_cores(*old(self)),
                self.calls() == old(self).calls(),
                forall|j: int|
                    0 <= j < self.threads().len() ==> (#[trigger] self.threads()[j]).cur_job
                        == (if j < i {
                        old(self).threads()[j].cur_job.posted(j as usize, FIRST_RUNNER)
                    } else {
                        old(self).threads()[j].cur_job
                    }),
                forall|j: int|
                    0 <= j < self.threads().len() ==> (#[trigger] self.threads()[j]).ran
                        == old(self).threads()[j].ran,
            decreases self.threads().len() - i,
        {
            let thread = &mut self.scope.threads[i];
            thread.cur_job.post(i, FIRST_RUNNER);
            i = i + 1;
        }
    }

    /// Whether every thread is done with its job.
    pub fn all_idle(&self) -> (all: bool)
        ensures
            all == self.idle(),
    {
        let mut i: usize = 0;
        while i < self.scope.threads.len()
            invariant
                i <= self.threads().len(),
                forall|j: int|
                    0 <= j < i ==> (#[trigger] self.threads()[j]).cur_job.polled() == Poll::Idle,
            decreases self.threads().len() - i,
        {
            if !self.scope.threads[i].cur_job.is_idle() {
                assert(self.threads()[i as int].cur_job.polled() != Poll::Idle);
                return false;
            }
            i = i + 1;
        }
        true
    }

    /// Does what the thread does when it looks at its slot: a posted job is run, with the
    /// range of that number, and the slot is emptied.
    fn run_posted<T, F: Fn(&mut T)>(
        &mut self,
        thread: usize,
        data: &mut [T],
        args: &[(usize, usize)],
        f: &F,
    )
        requires
            thread < old(self).threads().len(),
            match old(self).threads()[thread as int].cur_job.polled() {
                Poll::Run(job, _) => {
                    &&& job < args@.len()
                    &&& args@[job as int].0 <= args@[job as int].1
                    &&& args@[job as int].1 <= old(data)@.len()
                    &&& forall|i: int, x: &mut T| #[trigger]
                        is_index(i, old(data)@.len()) && args@[job as int].0 <= i
                            && i < args@[job as int].1 && *x == old(data)@[i]
                            ==> #[trigger] call_requires(*f, (x,))
                },
                _ => true,
            },
        ensures
            final(self).threads().len() == old(self).threads().len(),
            final(self).calls() == old(self).calls(),
            forall|i: int|
                0 <= i < old(self).threads().len() && i != thread
                    ==> #[trigger] final(self).threads()[i] == old(self).threads()[i],
            final(self).threads()[thread as int].core_id
                == old(self).threads()[thread as int].core_id,
            final(data)@.len() == old(data)@.len(),
            match old(self).threads()[thread as int].cur_job.polled() {
                Poll::Run(job, _) => {
                    &&& final(self).threads()[thread as int].cur_job
                        == old(self).threads()[thread as int].cur_job.finished()
                    &&& final(self).threads()[thread as int].ran == args@[job as int]
                    &&& forall|i: int| #[trigger]
                        is_index(i, old(data)@.len()) && args@[job as int].0 <= i
                            && i < args@[job as int].1 ==> exists|x: &mut T| #[trigger]
                            call_ensures(*f, (x,), ()) && *x == old(data)@[i] && *final(x)
                                == final(data)@[i]
                    &&& forall|i: int|
                        0 <= i < old(data)@.len() && !(args@[job as int].0 <= i && i
                            < args@[job as int].1) ==> final(data)@[i] == old(data)@[i]
                },
                _ => {
                    &&& final(self).threads() == old(self).threads()
                    &&& final(data)@ == old(data)@
                },
            },
    {
        match self.scope.threads[thread].cur_job.poll() {
            Poll::Run(job, _) => {
                let range: (usize, usize) = args[job];
                apply_range(data, range.0, range.1, f);
                let worker = &mut self.scope.threads[thread];
                worker.ran = range;
                worker.cur_job.finish();
            },
            _ => {},
        }
    }

    /// Does what the thread does when it looks at its slot: a posted job is called, which is the
    /// one of that number, and the slot is emptied.
    fn call_posted<F: ThreadJob>(&mut self, thread: usize, args: &[F])
        requires
            thread < old(self).threads().len(),
            match old(self).threads()[thread as int].cur_job.polled() {
                Poll::Run(job, _) => job < args@.len() && args@[job as int].may_call(
                    old(self).calls(),
                ),
                _ => true,
            },
        ensures
            final(self).threads().len() == old(self).threads().len(),
            forall|i: int|
                0 <= i < old(self).threads().len() && i != thread
                    ==> #[trigger] final(self).threads()[i] == old(self).threads()[i],
            match old(self).threads()[thread as int].cur_job.polled() {
                Poll::Run(job, _) => {
                    &&& final(self).threads()[thread as int] == (ThreadData {
                        cur_job: old(self).threads()[thread as int].cur_job.finished(),
                        ..old(self).threads()[thread as int]
                    })
                    &&& args@[job as int].called(old(self).calls())
                    &&& final(self).calls() == old(self).calls().push(job)
                },
                _ => {
                    &&& final(self).threads() == old(self).threads()
                    &&& final(self).calls() == old(self).calls()
                },
            },
    {
        match self.scope.threads[thread].cur_job.poll() {
            Poll::Run(job, _) => {
                args[job].call(Ghost(job), &mut self.log);
                let worker = &mut self.scope.threads[thread];
                worker.cur_job.finish();
            },
            _ => {},
        }
    }

    /// Runs one job per thread, as far as there are both: thread number `i` calls job number
    /// `i`. Each of these jobs is called once, in this order, and no job is called otherwise. All
    /// the threads are idle again at the end, and the slot of each still holds the number of the
    /// job that the thread ran.
    pub fn execute_all<F: ThreadJob>(&mut self, args: &[F])
        requires
            old(self).idle(),
            forall|i: int|
                0 <= i < min(args@.len() as int, old(self).threads().len() as int)
                    ==> (#[trigger] args@[i]).may_call(old(self).calls() + first_numbers(i)),
        ensures
            final(self).idle(),
            final(self).same_cores(*old(self)),
            final(self).calls() == old(self).calls() + first_numbers(
                min(args@.len() as int, old(self).threads().len() as int),
            ),
            forall|i: int|
                0 <= i < min(args@.len() as int, old(self).threads().len() as int)
                    ==> (#[trigger] args@[i]).called(old(self).calls() + first_numbers(i)),
            forall|i: int|
                0 <= i < min(args@.len() as int, old(self).threads().len() as int)
                    ==> (#[trigger] final(self).threads()[i]).cur_job.cur_job1 == i,
            forall|i: int|
                args@.len() <= i < old(self).threads().len()
                    ==> #[trigger] final(self).threads()[i] == old(self).threads()[i],
    {
        let ghost jobs = min(args@.len() as int, self.threads().len() as int);
        let ghost calls0 = self.calls();
        self.post_all(args.len());
        let thread_count: usize = self.scope.threads.len();
        let mut thread: usize = 0;
        assert(calls0 + first_numbers(0) =~= calls0);
        while thread < thread_count
            invariant
                thread <= thread_count,
                thread_count == self.threads().len(),
                jobs == min(args@.len() as int, thread_count as int),
                self.same_cores(*old(self)),
                old(self).idle(),
                calls0 == old(self).calls(),
                self.calls() == calls0 + first_numbers(min(thread as int, jobs)),
                forall|j: int|
                    0 <= j < thread_count ==> (#[trigger] self.threads()[j]).cur_job
                        == slot_in_run(old(self).threads()[j].cur_job, thread as int, jobs, j),
                forall|j: int|
                    0 <= j < thread_count ==> (#[trigger] self.threads()[j]).ran
                        == old(self).threads()[j].ran,
                forall|i: int|
                    0 <= i < jobs ==> (#[trigger] args@[i]).may_call(calls0 + first_numbers(i)),
                forall|i: int|
                    0 <= i < jobs && i < thread ==> (#[trigger] args@[i]).called(
                        calls0 + first_numbers(i),
                    ),
            decreases thread_count - thread,
        {
            let ghost k = thread as int;
            assert(old(self).threads()[k].cur_job.polled() == Poll::Idle);
            assert(self.threads()[k].cur_job.polled() == (if k < jobs {
                Poll::Run(thread, FIRST_RUNNER)
            } else {
                Poll::Idle
            }));
            self.call_posted(thread, args);
            assert((calls0 + first_numbers(k)).push(thread) =~= calls0 + first_numbers(k + 1));
            thread = thread + 1;
        }
        assert forall|j: int| 0 <= j < self.threads().len() implies (
        #[trigger] self.threads()[j]).cur_job.polled() == Poll::Idle by {
            assert(old(self).threads()[j].cur_job.polled() == Poll::Idle);
        }
    }

    /// Runs one job per thread, as far as there are both: thread number `i` runs job number
    /// `i`, which applies `f` to the items of range number `i`. All the threads are idle again
    /// at the end, and the slot of each still holds the number of the job that the thread ran.
    pub fn execute_ranges<T, F: Fn(&mut T)>(
        &mut self,
        data: &mut [T],
        args: &[(usize, usize)],
        f: &F,
    )
        requires
            old(self).idle(),
            apart(args@, old(data)@.len() as int),
            forall|i: int, x: &mut T| #[trigger]
                is_index(i, old(data)@.len()) && covered(
                    args@,
                    min(args@.len() as int, old(self).threads().len() as int),
                    i,
                ) && *x == old(data)@[i] ==> #[trigger] call_requires(*f, (x,)),
        ensures
            final(self).idle(),
            final(self).same_cores(*old(self)),
            final(self).calls() == old(self).calls(),
            forall|i: int|
                0 <= i < min(args@.len() as int, old(self).threads().len() as int)
                    ==> {
                    &&& (#[trigger] final(self).threads()[i]).cur_job.cur_job1 == i
                    &&& final(self).threads()[i].ran == args@[i]
                },
            forall|i: int|
                args@.len() <= i < old(self).threads().len()
                    ==> #[trigger] final(self).threads()[i] == old(self).threads()[i],
            final(data)@.len() == old(data)@.len(),
            forall|i: int| #[trigger]
                is_index(i, old(data)@.len()) ==> if covered(
                    args@,
                    min(args@.len() as int, old(self).threads().len() as int),
                    i,
                ) {
                    exists|x: &mut T| #[trigger]
                        call_ensures(*f, (x,), ()) && *x == old(data)@[i] && *final(x)
                            == final(data)@[i]
                } else {
                    final(data)@[i] == old(data)@[i]
                },
    {
        let ghost parts = args@;
        let ghost len = data@.len();
        let ghost jobs = min(parts.len() as int, self.threads().len() as int);
        let job_count: usize = args.len();
        self.post_all(job_count);
        let thread_count: usize = self.scope.threads.len();
        let mut thread: usize = 0;
        while thread < thread_count
            invariant
                thread <= thread_count,
                thread_count == self.threads().len(),
                parts == args@,
                jobs == min(parts.len() as int, thread_count as int),
                self.same_cores(*old(self)),
                self.calls() == old(self).calls(),
                apart(parts, len as int),
                len == data@.len(),
                len == old(data)@.len(),
                old(self).idle(),
                forall|j: int|
                    0 <= j < thread_count ==> (#[trigger] self.threads()[j]).cur_job
                        == slot_in_run(old(self).threads()[j].cur_job, thread as int, jobs, j),
                forall|j: int|
                    0 <= j < thread_count ==> (#[trigger] self.threads()[j]).ran == (if j < thread
                        && j < jobs {
                        args@[j]
                    } else {
                        old(self).threads()[j].ran
                    }),
                forall|i: int, x: &mut T| #[trigger]
                    is_index(i, len) && covered(parts, jobs, i) && *x == old(data)@[i]
                        ==> #[trigger] call_requires(*f, (x,)),
                forall|i: int| #[trigger]
                    is_index(i, len) ==> if covered(parts, min(jobs, thread as int), i) {
                        exists|x: &mut T| #[trigger]
                            call_ensures(*f, (x,), ()) && *x == old(data)@[i] && *final(x)
                                == data@[i]
                    } else {
                        data@[i] == old(data)@[i]
                    },
            decreases thread_count - thread,
        {
            let ghost k = thread as int;
            assert(old(self).threads()[k].cur_job.polled() == Poll::Idle);
            assert(self.threads()[k].cur_job.polled() == (if k < jobs {
                Poll::Run(thread, FIRST_RUNNER)
            } else {
                Poll::Idle
            }));
            assert forall|i: int| k < jobs && parts[k].0 <= i < parts[k].1 implies !covered(
                parts,
                k,
                i,
            ) by {
                if covered(parts, k, i) {
                    let t = choose|t: int|
                        0 <= t < k && (#[trigger] parts[t]).0 <= i && i < parts[t].1;
                    assert(disjoint(parts[t], parts[k]));
                }
            }
            self.run_posted(thread, data, args, f);
            thread = thread + 1;
            assert forall|i: int| #[trigger] is_index(i, len) implies if covered(
                parts,
                min(jobs, thread as int),
                i,
            ) {
                exists|x: &mut T| #[trigger]
                    call_ensures(*f, (x,), ()) && *x == old(data)@[i] && *final(x) == data@[i]
            } else {
                data@[i] == old(data)@[i]
            } by {
                if k < jobs {
                    if parts[k].0 <= i < parts[k].1 {
                        assert(!covered(parts, k, i));
                    } else {
                        assert(covered(parts, k + 1, i) == covered(parts, k, i)) by {
                            if covered(parts, k + 1, i) {
                                let t = choose|t: int|
                                    0 <= t < k + 1 && (#[trigger] parts[t]).0 <= i && i
                                        < parts[t].1;
                                assert(0 <= t < k);
                            }
                        }
                    }
                }
            }
        }
        assert forall|j: int| 0 <= j < self.threads().len() implies (
        #[trigger] self.threads()[j]).cur_job.polled() == Poll::Idle by {
            assert(old(self).threads()[j].cur_job.polled() == Poll::Idle);
        }
    }
}

/// There is a new pool exactly if the cores of the machine could be enumerated and there is one
/// for the threads. Then it has the threads that were asked for, all idle, and they share the
/// enumerated cores in turn.
pub proof fn law_a_new_pool_shares_the_enumerated_cores(thread_count: usize, pool: Option<Pool>)
    requires
        call_ensures(Pool::new, (thread_count,), pool),
    ensures
        exists|found: Option<Seq<usize>>| #[trigger]
            enumerated(found) && match (found, pool) {
                (Some(ids), Some(p)) => {
                    &&& thread_count == 0 || ids.len() > 0
                    &&& p.threads().len() == thread_count
                    &&& forall|i: int|
                        0 <= i < thread_count ==> {
                            &&& (#[trigger] p.threads()[i]).core_id == ids[i % ids.len() as int]
                            &&& p.threads()[i].cur_job.polled() == Poll::Idle
                        }
                },
                (Some(ids), None) => thread_count > 0 && ids.len() == 0,
                (None, p) => p is None,
            },
{
}

/// A run over jobs calls each job that has a thread exactly once, in order, and none otherwise:
/// the record of the calls goes on with the numbers from zero up to, not including, the lesser
/// of the number of jobs and that of threads, and with nothing else.
pub proof fn law_each_job_is_called_once<F: ThreadJob>(pool: &mut Pool, args: &[F])
    requires
        call_ensures(Pool::execute_all::<F>, (pool, args), ()),
    ensures
        ({
            let before = old(pool).calls();
            let after = final(pool).calls();
            &&& after.len() == before.len() + (if args@.len() <= old(pool).threads().len() {
                args@.len()
            } else {
                old(pool).threads().len()
            })
            &&& forall|k: int| 0 <= k < before.len() ==> #[trigger] after[k] == before[k]
            &&& forall|k: int|
                before.len() <= k < after.len() ==> {
                    &&& #[trigger] after[k] == k - before.len()
                    &&& args@[k - before.len()].called(after.take(k))
                }
        }),
{
    let before = pool.calls();
    let after = final(pool).calls();
    let jobs = min(args@.len() as int, pool.threads().len() as int);
    assert forall|k: int| before.len() <= k < after.len() implies {
        &&& #[trigger] after[k] == k - before.len()
        &&& args@[k - before.len()].called(after.take(k))
    } by {
        let i = k - before.len();
        assert(0 <= i < jobs && jobs <= args.len());
        assert(args@[i].called(before + first_numbers(i)));
        assert(after.take(k) =~= before + first_numbers(i));
    }
}

/// Closures are jobs: an idle pool can run them if the precondition of each one that has a thread
/// holds.
pub proof fn law_closures_may_be_called<F: Fn()>(pool: &mut Pool, args: &[F])
    requires
        pool.idle(),
        forall|i: int|
            0 <= i < args@.len() && i < pool.threads().len() ==> call_requires(
                #[trigger] args@[i],
                (),
            ),
    ensures
        call_requires(Pool::execute_all::<F>, (pool, args)),
{
}

/// After a run, the postcondition holds of each closure that has a thread.
pub proof fn law_closures_are_called<F: Fn()>(pool: &mut Pool, args: &[F])
    requires
        call_ensures(Pool::execute_all::<F>, (pool, args), ()),
    ensures
        forall|i: int|
            0 <= i < args@.len() && i < old(pool).threads().len() ==> call_ensures(
                #[trigger] args@[i],
                (),
                (),
            ),
{
}

} // verus!
