//! Deferred tasks, and where they are kept.
use std::collections::VecDeque;
use vstd::prelude::*;

use crate::machine::{held_with, ThreadState};
use crate::mypool3::MAX_THREADS;
use crate::schedule::on_channel;
use crate::seqs::lemma_pick_add;

verus! {

/// What a scheduler needs to know of the auxiliary data in order to find the channel of an
/// item. Each thread has a copy.
pub trait AuxHolder: Sized {
    fn cheap_copy(&self) -> (copy: Self)
        ensures
            copy == *self,
    ;
}

/// A task for an item of the auxiliary data that a holder describes.
pub trait Addressed<AH> {
    /// The task is for an item that the holder has, and `channel` is the channel of that item.
    spec fn belongs(&self, aux: AH, channel: int) -> bool;
}

/// A deferred task: an update of the part of the auxiliary data that a channel stands for.
pub trait AuxTask<P: View>: Sized {
    /// The task can be run on a part like this.
    spec fn fits(&self, part: P::V) -> bool;

    /// What the task makes of the part.
    spec fn applied(&self, part: P::V) -> P::V;

    /// Running one task does not stop another from fitting.
    proof fn fits_kept(&self, by: &Self, part: P::V)
        requires
            self.fits(part),
            by.fits(part),
        ensures
            self.fits(by.applied(part)),
    ;

    fn run(self, part: &mut P)
        requires
            self.fits(old(part)@),
        ensures
            final(part)@ == self.applied(old(part)@),
    ;
}

/// The effect of a task on a part, as a function of both.
pub open spec fn running<P: View, FA: AuxTask<P>>() -> spec_fn(P::V, FA) -> P::V {
    |part: P::V, task: FA| task.applied(part)
}

/// The tasks that one thread has scheduled on one channel and not run yet.
pub struct DeferStore<FA> {
    magic: VecDeque<FA>,
}

impl<FA> View for DeferStore<FA> {
    type V = Seq<FA>;

    closed spec fn view(&self) -> Seq<FA> {
        self.magic@
    }
}

impl<FA> DeferStore<FA> {
    /// An empty store.
    pub fn new() -> (store: DeferStore<FA>)
        ensures
            store@ == Seq::<FA>::empty(),
    {
        DeferStore { magic: VecDeque::new() }
    }

    /// Adds a task behind the others.
    pub fn add(&mut self, f: FA)
        ensures
            final(self)@ == old(self)@.push(f),
    {
        self.magic.push_back(f);
    }

    /// Runs all the tasks, in the order in which they were added, and empties the store.
    pub fn process<P: View>(&mut self, aux: &mut P) where FA: AuxTask<P>
        requires
            forall|i: int|
                0 <= i < old(self)@.len() ==> (#[trigger] old(self)@[i]).fits(old(aux)@),
        ensures
            final(self)@ == Seq::<FA>::empty(),
            final(aux)@ == old(self)@.fold_left(old(aux)@, running::<P, FA>()),
            forall|t: FA| t.fits(old(aux)@) ==> #[trigger] t.fits(final(aux)@),
    {
        let ghost tasks = self@;
        let ghost mut n: int = 0;
        assert(tasks.take(0) =~= Seq::<FA>::empty());
        assert(tasks.skip(0) =~= tasks);
        while self.magic.len() > 0
            invariant
                0 <= n <= tasks.len(),
                self@ == tasks.skip(n),
                aux@ == tasks.take(n).fold_left(old(aux)@, running::<P, FA>()),
                forall|i: int| 0 <= i < tasks.len() ==> (#[trigger] tasks[i]).fits(old(aux)@),
                forall|t: FA| t.fits(old(aux)@) ==> #[trigger] t.fits(aux@),
            decreases self.magic@.len(),
        {
            let ghost before = aux@;
            match self.magic.pop_front() {
                Some(f) => {
                    assert(f == tasks[n]);
                    f.run(aux);
                    proof {
                        assert(tasks.take(n + 1).drop_last() =~= tasks.take(n));
                        assert(tasks.take(n + 1).last() == f);
                        assert(tasks.skip(n + 1) =~= tasks.skip(n).subrange(
                            1,
                            tasks.skip(n).len() as int,
                        ));
                        assert forall|t: FA| t.fits(old(aux)@) implies #[trigger] t.fits(aux@) by {
                            assert(t.fits(before));
                            t.fits_kept(&f, before);
                        }
                        n = n + 1;
                    }
                },
                None => {},
            }
        }
        assert(tasks.take(n) =~= tasks);
        assert(self@ =~= Seq::<FA>::empty());
    }
}

/// The tasks of one thread, by channel, and the thread's copy of the holder.
pub struct AuxScheduler<AH, FA> {
    ptr_holder: AH,
    defer_stores: Vec<DeferStore<FA>>,
}

impl<AH, FA> AuxScheduler<AH, FA> {
    pub closed spec fn holder(self) -> AH {
        self.ptr_holder
    }

    /// The tasks held back, by channel.
    pub closed spec fn held(self) -> Seq<Seq<FA>> {
        Seq::new(self.defer_stores@.len(), |c: int| self.defer_stores@[c]@)
    }

    pub open spec fn wf(self) -> bool {
        self.held().len() == MAX_THREADS
    }

    /// A scheduler that holds nothing back.
    pub fn new(aux: AH) -> (ctx: AuxScheduler<AH, FA>)
        ensures
            ctx.wf(),
            ctx.holder() == aux,
            ctx.held() == ThreadState::<FA>::start().held,
    {
        let mut defer_stores: Vec<DeferStore<FA>> = Vec::new();
        while defer_stores.len() < MAX_THREADS
            invariant
                defer_stores@.len() <= MAX_THREADS,
                forall|c: int|
                    0 <= c < defer_stores@.len() ==> (#[trigger] defer_stores@[c])@ == Seq::<
                        FA,
                    >::empty(),
            decreases MAX_THREADS - defer_stores@.len(),
        {
            defer_stores.push(DeferStore::new());
        }
        let ctx = AuxScheduler { ptr_holder: aux, defer_stores };
        assert(ctx.held() =~= ThreadState::<FA>::start().held);
        ctx
    }

    /// Defers a task to the next time that this thread has the given channel, which must be
    /// that of the item that the task is for.
    pub fn schedule(&mut self, channel: u32, f: FA) where FA: Addressed<AH>
        requires
            old(self).wf(),
            channel < MAX_THREADS,
            f.belongs(old(self).holder(), channel as int),
        ensures
            final(self).wf(),
            final(self).holder() == old(self).holder(),
            final(self).held() == old(self).held().update(
                channel as int,
                old(self).held()[channel as int].push(f),
            ),
    {
        let store = &mut self.defer_stores[channel as usize];
        store.add(f);
        assert(self.held() =~= old(self).held().update(
            channel as int,
            old(self).held()[channel as int].push(f),
        ));
    }

    /// Runs the tasks of one channel.
    pub fn process<P: View>(&mut self, channel: usize, aux: &mut P) where FA: AuxTask<P>
        requires
            old(self).wf(),
            channel < MAX_THREADS,
            forall|i: int|
                0 <= i < old(self).held()[channel as int].len() ==> (#[trigger] old(
                    self,
                ).held()[channel as int][i]).fits(old(aux)@),
        ensures
            final(self).wf(),
            final(self).holder() == old(self).holder(),
            final(self).held() == old(self).held().update(channel as int, Seq::empty()),
            final(aux)@ == old(self).held()[channel as int].fold_left(
                old(aux)@,
                running::<P, FA>(),
            ),
            forall|t: FA| t.fits(old(aux)@) ==> #[trigger] t.fits(final(aux)@),
    {
        assert(self.held()[channel as int] == self.defer_stores@[channel as int]@);
        let store = &mut self.defer_stores[channel];
        store.process(aux);
        assert(self.held() =~= old(self).held().update(channel as int, Seq::empty()));
    }
}

impl<AH: AuxHolder, FA> AuxScheduler<AH, FA> {
    /// A copy of the holder.
    pub fn get_ah(&self) -> (aux: AH)
        ensures
            aux == self.holder(),
    {
        self.ptr_holder.cheap_copy()
    }
}

/// Scheduling one more task.
pub proof fn lemma_held_with_push<FA>(held: Seq<Seq<FA>>, ts: Seq<(u32, FA)>, channel: u32, f: FA)
    requires
        channel < held.len(),
    ensures
        held_with(held, ts.push((channel, f))) == held_with(held, ts).update(
            channel as int,
            held_with(held, ts)[channel as int].push(f),
        ),
{
    let longer = ts.push((channel, f));
    let expected = held_with(held, ts).update(
        channel as int,
        held_with(held, ts)[channel as int].push(f),
    );
    assert(longer.drop_last() =~= ts);
    assert forall|c: int| 0 <= c < held.len() implies held_with(held, longer)[c]
        == expected[c] by {
        assert(held_with(held, longer)[c] =~= expected[c]);
    }
    assert(held_with(held, longer) =~= expected);
}

/// Scheduling nothing.
pub proof fn lemma_held_with_nothing<FA>(held: Seq<Seq<FA>>)
    ensures
        held_with(held, Seq::<(u32, FA)>::empty()) == held,
{
    let none = Seq::<(u32, FA)>::empty();
    assert forall|c: int| 0 <= c < held.len() implies held_with(held, none)[c] == held[c] by {
        assert(held_with(held, none)[c] =~= held[c]);
    }
    assert(held_with(held, none) =~= held);
}

/// Scheduling more tasks after others.
pub proof fn lemma_held_with_add<FA>(held: Seq<Seq<FA>>, a: Seq<(u32, FA)>, b: Seq<(u32, FA)>)
    ensures
        held_with(held_with(held, a), b) == held_with(held, a + b),
{
    assert forall|c: int| 0 <= c < held.len() implies held_with(held_with(held, a), b)[c]
        == held_with(held, a + b)[c] by {
        lemma_pick_add(a, b, on_channel(c));
        assert(held_with(held_with(held, a), b)[c] =~= held_with(held, a + b)[c]);
    }
    assert(held_with(held_with(held, a), b) =~= held_with(held, a + b));
}

} // verus!
