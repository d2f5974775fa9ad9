//! The walk of one thread through its chunk of the data.
use vstd::prelude::*;

use crate::machine::{held_with, visit_chunk, visit_tasks, Phase, ThreadState};
use crate::mypool3::{MAX_THREADS, SUB_BATCH};
use crate::ring::channel_at;
use crate::schedule::visited;
use crate::scheduler::{running, AuxScheduler, AuxTask};

verus! {

/// What a pool does with each stretch of the data: it may change the items and schedule
/// tasks.
pub trait BatchFn<T, AH, FA> {
    /// The stretch of `items` that begins with item `offset` may be visited.
    spec fn accepts(&self, aux: AH, offset: int, items: Seq<T>) -> bool;

    /// What the visit makes of the items.
    spec fn items_after(&self, offset: int, items: Seq<T>) -> Seq<T>;

    /// The tasks that the visit schedules, each with its channel, in order.
    spec fn tasks(&self, aux: AH, offset: int, items: Seq<T>) -> Seq<(u32, FA)>;

    proof fn keeps_len(&self, offset: int, items: Seq<T>)
        ensures
            self.items_after(offset, items).len() == items.len(),
    ;

    fn call(&self, offset: usize, items: &mut [T], ctx: &mut AuxScheduler<AH, FA>)
        requires
            offset + old(items)@.len() <= usize::MAX,
            old(ctx).wf(),
            self.accepts(old(ctx).holder(), offset as int, old(items)@),
        ensures
            final(items)@ == self.items_after(offset as int, old(items)@),
            final(ctx).holder() == old(ctx).holder(),
            final(ctx).held() == held_with(
                old(ctx).held(),
                self.tasks(old(ctx).holder(), offset as int, old(items)@),
            ),
    ;
}

/// The effect of `f` on the items, as a function of the offset and the items.
pub open spec fn items_of<T, AH, FA, F: BatchFn<T, AH, FA>>(f: F) -> spec_fn(
    int,
    Seq<T>,
) -> Seq<T> {
    |offset: int, items: Seq<T>| f.items_after(offset, items)
}

/// The tasks of `f`, as a function of the offset and the items.
pub open spec fn tasks_of<T, AH, FA, F: BatchFn<T, AH, FA>>(f: F, aux: AH) -> spec_fn(
    int,
    Seq<T>,
) -> Seq<(u32, FA)> {
    |offset: int, items: Seq<T>| f.tasks(aux, offset, items)
}

/// What one thread does with its chunk of the data, a step at a time. A step is a call of
/// `visit`, calls of `take` until one succeeds, and a call of `process`.
pub struct ChunkProcessor<AH, FA> {
    aux_context: AuxScheduler<AH, FA>,
    thread: usize,
    chunk_len: usize,
    cur_data_offset: usize,
    len_remaining: usize,
    cur_aux_chunk: usize,
    our_sync_counter: usize,
    iteration: usize,
    iterations: usize,
    phase: Phase,
}

impl<AH, FA> ChunkProcessor<AH, FA> {
    pub closed spec fn holder(self) -> AH {
        self.aux_context.holder()
    }

    /// The number of the thread.
    pub closed spec fn thread(self) -> int {
        self.thread as int
    }

    /// The first item of the chunk.
    pub closed spec fn start(self) -> int {
        self.cur_data_offset - (self.chunk_len - self.len_remaining)
    }

    /// The number of items in the chunk.
    pub closed spec fn chunk_len(self) -> int {
        self.chunk_len as int
    }

    /// The number of steps in all.
    pub closed spec fn steps(self) -> int {
        self.iterations as int
    }

    /// The completed steps, the phase of the current one, and the tasks held back.
    pub closed spec fn state(self) -> ThreadState<FA> {
        ThreadState {
            done: self.iteration as int,
            phase: self.phase,
            held: self.aux_context.held(),
        }
    }

    pub closed spec fn wf(self) -> bool {
        &&& self.aux_context.wf()
        &&& self.thread < MAX_THREADS
        &&& self.our_sync_counter == self.iteration
        &&& self.iteration <= self.iterations
        &&& self.phase != Phase::Visiting ==> self.iteration < self.iterations
        &&& self.cur_aux_chunk == channel_at(self.thread as int, self.iteration as int)
        &&& self.len_remaining == self.chunk_len - visited(
            self.chunk_len as int,
            self.state().batches(),
        )
        &&& self.cur_data_offset + self.len_remaining <= usize::MAX
        &&& self.start() >= 0
    }

    /// The same thread at work on the same chunk.
    pub open spec fn same_work(self, other: Self) -> bool {
        &&& self.holder() == other.holder()
        &&& self.thread() == other.thread()
        &&& self.start() == other.start()
        &&& self.chunk_len() == other.chunk_len()
        &&& self.steps() == other.steps()
    }

    /// A thread before its first step.
    pub fn new(
        aux: AH,
        thread: usize,
        start: usize,
        chunk_len: usize,
        iterations: usize,
    ) -> (processor: ChunkProcessor<AH, FA>)
        requires
            thread < MAX_THREADS,
            start + chunk_len <= usize::MAX,
        ensures
            processor.wf(),
            processor.holder() == aux,
            processor.thread() == thread,
            processor.start() == start,
            processor.chunk_len() == chunk_len,
            processor.steps() == iterations,
            processor.state() == ThreadState::<FA>::start(),
    {
        ChunkProcessor {
            aux_context: AuxScheduler::new(aux),
            thread,
            chunk_len,
            cur_data_offset: start,
            len_remaining: chunk_len,
            cur_aux_chunk: thread,
            our_sync_counter: 0,
            iteration: 0,
            iterations,
            phase: Phase::Visiting,
        }
    }

    /// Whether all steps have been completed.
    pub fn finished(&self) -> (finished: bool)
        requires
            self.wf(),
        ensures
            finished == (self.state().done == self.steps()),
    {
        self.iteration >= self.iterations
    }

    /// The number of completed steps, which the thread before this one waits for.
    pub fn sync_counter(&self) -> (counter: usize)
        requires
            self.wf(),
        ensures
            counter == self.state().done,
    {
        self.our_sync_counter
    }

    /// The channel of the current step.
    pub fn channel(&self) -> (channel: usize)
        requires
            self.wf(),
        ensures
            channel == channel_at(self.thread(), self.state().done),
            channel < MAX_THREADS,
    {
        self.cur_aux_chunk
    }

    /// Visits the next batch of the chunk, if there is one.
    pub fn visit<T, F: BatchFn<T, AH, FA>>(&mut self, f: &F, data_chunk: &mut [T])
        requires
            old(self).wf(),
            old(self).state().phase == Phase::Visiting,
            old(self).state().done < old(self).steps(),
            old(data_chunk)@.len() == old(self).chunk_len(),
            ({
                let a = visited(old(self).chunk_len(), old(self).state().done);
                let b = visited(old(self).chunk_len(), old(self).state().done + 1);
                a < b ==> f.accepts(
                    old(self).holder(),
                    old(self).start() + a,
                    old(data_chunk)@.subrange(a, b),
                )
            }),
        ensures
            final(self).wf(),
            final(self).same_work(*old(self)),
            final(self).state() == old(self).state().visit(
                visit_tasks(
                    tasks_of(*f, old(self).holder()),
                    old(self).start(),
                    old(data_chunk)@,
                    old(self).state().done,
                ),
            ),
            final(data_chunk)@ == visit_chunk(
                items_of(*f),
                old(self).start(),
                old(data_chunk)@,
                old(self).state().done,
            ),
    {
        let ghost k = self.state().done;
        let ghost a = visited(self.chunk_len(), k);
        let ghost b = visited(self.chunk_len(), k + 1);
        let cur_len: usize = if self.len_remaining < SUB_BATCH {
            self.len_remaining
        } else {
            SUB_BATCH
        };
        assert(b - a == cur_len);
        if self.len_remaining != 0 {
            let visited_len: usize = self.chunk_len - self.len_remaining;
            let (_head, rest) = data_chunk.split_at_mut(visited_len);
            let (sub, _tail) = rest.split_at_mut(cur_len);
            assert(sub@ =~= old(data_chunk)@.subrange(a, b));
            proof {
                f.keeps_len(self.start() + a, sub@);
            }
            f.call(self.cur_data_offset, sub, &mut self.aux_context);
            self.len_remaining = self.len_remaining - cur_len;
            self.cur_data_offset = self.cur_data_offset + cur_len;
        } else {
            assert(held_with(self.aux_context.held(), Seq::<(u32, FA)>::empty())
                =~= self.aux_context.held());
        }
        self.phase = Phase::Waiting;
        assert(self.state().held =~= old(self).state().visit(
            visit_tasks(
                tasks_of(*f, old(self).holder()),
                old(self).start(),
                old(data_chunk)@,
                k,
            ),
        ).held);
        assert(data_chunk@ =~= visit_chunk(items_of(*f), old(self).start(), old(data_chunk)@, k));
    }

    /// Visits the next batch of the chunk that lies between `begin` and `end` in the data.
    pub(crate) fn visit_within<T, F: BatchFn<T, AH, FA>>(
        &mut self,
        f: &F,
        data: &mut [T],
        begin: usize,
        end: usize,
    )
        requires
            old(self).wf(),
            old(self).state().phase == Phase::Visiting,
            old(self).state().done < old(self).steps(),
            begin <= end <= old(data)@.len(),
            end - begin == old(self).chunk_len(),
            ({
                let chunk = old(data)@.subrange(begin as int, end as int);
                let a = visited(old(self).chunk_len(), old(self).state().done);
                let b = visited(old(self).chunk_len(), old(self).state().done + 1);
                a < b ==> f.accepts(old(self).holder(), old(self).start() + a, chunk.subrange(a, b))
            }),
        ensures
            final(self).wf(),
            final(self).same_work(*old(self)),
            final(self).state() == old(self).state().visit(
                visit_tasks(
                    tasks_of(*f, old(self).holder()),
                    old(self).start(),
                    old(data)@.subrange(begin as int, end as int),
                    old(self).state().done,
                ),
            ),
            final(data)@ == old(data)@.subrange(0, begin as int) + (visit_chunk(
                items_of(*f),
                old(self).start(),
                old(data)@.subrange(begin as int, end as int),
                old(self).state().done,
            ) + old(data)@.subrange(end as int, old(data)@.len() as int)),
    {
        let (_head, rest) = data.split_at_mut(begin);
        let (chunk, tail) = rest.split_at_mut(end - begin);
        assert(chunk@ =~= old(data)@.subrange(begin as int, end as int));
        assert(tail@ =~= old(data)@.subrange(end as int, old(data)@.len() as int));
        self.visit(f, chunk);
    }

    /// Takes the channel of the current step if the friend, whose number of completed steps
    /// is given, has released it.
    pub fn take(&mut self, friend_sync: usize) -> (taken: bool)
        requires
            old(self).wf(),
            old(self).state().phase == Phase::Waiting,
        ensures
            taken == (old(self).state().done <= friend_sync),
            taken ==> final(self).wf() && final(self).same_work(*old(self)) && final(self).state()
                == old(self).state().take(),
            !taken ==> *final(self) == *old(self),
    {
        if friend_sync >= self.our_sync_counter {
            self.phase = Phase::Working;
            true
        } else {
            false
        }
    }

    /// Runs the tasks held back for the channel of the current step, and completes the step.
    pub fn process<P: View>(&mut self, aux: &mut P) where FA: AuxTask<P>
        requires
            old(self).wf(),
            old(self).state().phase == Phase::Working,
            ({
                let held = old(self).state().held[channel_at(
                    old(self).thread(),
                    old(self).state().done,
                )];
                forall|i: int| 0 <= i < held.len() ==> (#[trigger] held[i]).fits(old(aux)@)
            }),
        ensures
            final(self).wf(),
            final(self).same_work(*old(self)),
            final(self).state() == old(self).state().release(old(self).thread()),
            final(aux)@ == old(self).state().held[channel_at(
                old(self).thread(),
                old(self).state().done,
            )].fold_left(old(aux)@, running::<P, FA>()),
            forall|t: FA| t.fits(old(aux)@) ==> #[trigger] t.fits(final(aux)@),
    {
        self.aux_context.process(self.cur_aux_chunk, aux);
        self.our_sync_counter = self.our_sync_counter + 1;
        self.cur_aux_chunk = (self.cur_aux_chunk + 1) % MAX_THREADS;
        self.iteration = self.iteration + 1;
        self.phase = Phase::Visiting;
    }
}

} // verus!
