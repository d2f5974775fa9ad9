//! Two auxiliary vectors.
use vstd::prelude::*;

use crate::aux_op::{all_commute, apply_ops, applying, law_commuting_ops_as_in_a_loop, AuxOp};
use crate::chunk_processor::BatchFn;
use crate::chunks::{ceil_div, lemma_ceil_div};
use crate::machine::held_with;
use crate::mypool3::{all_accepted, is_batch, job_of, lemma_is_batch, task_accepted, MAX_THREADS};
use crate::order::{
    application_order, itemwise, law_every_item_has_one_turn, law_short_inputs_keep_their_order,
    lemma_data_after, lemma_tasks_run,
};
use crate::parts::{lemma_item_part, lemma_part_index, part_of};
use crate::ptr_holder_1::PtrHolder1;
use crate::ring::ring_len;
use crate::schedule::{on_channel, undivided};
use crate::scheduler::{
    lemma_held_with_add, lemma_held_with_nothing, lemma_held_with_push, running, Addressed,
    AuxHolder, AuxScheduler, AuxTask,
};
use crate::seqs::{
    joined, lemma_fold_add, lemma_fold_component, lemma_joined_from, lemma_joined_pick,
    lemma_joined_shift, lemma_joined_single, lemma_pick_from, lemma_pick_mapped, lemma_pick_pick,
    lemma_pick_same, pick_both, upto,
};

verus! {

/// How two auxiliary vectors are divided into channels, each by itself.
#[derive(Clone, Copy)]
pub struct PtrHolder2 {
    first: PtrHolder1,
    second: PtrHolder1,
}

impl AuxHolder for PtrHolder2 {
    fn cheap_copy(&self) -> (copy: Self) {
        PtrHolder2 { first: self.first.cheap_copy(), second: self.second.cheap_copy() }
    }
}

impl PtrHolder2 {
    /// The division of the first vector.
    pub closed spec fn first(self) -> PtrHolder1 {
        self.first
    }

    /// The division of the second vector.
    pub closed spec fn second(self) -> PtrHolder1 {
        self.second
    }

    pub open spec fn wf(self) -> bool {
        self.first().wf() && self.second().wf()
    }

    /// The division of the two vectors for the given number of threads.
    pub fn new<T0, T1>(input0: &[T0], input1: &[T1], thread_count: usize) -> (holder: PtrHolder2)
        requires
            thread_count > 0,
        ensures
            holder.first().len() == input0@.len(),
            holder.first().chunksize() == ceil_div(input0@.len() as int, thread_count as int),
            holder.second().len() == input1@.len(),
            holder.second().chunksize() == ceil_div(input1@.len() as int, thread_count as int),
    {
        PtrHolder2 {
            first: PtrHolder1::new(input0, thread_count),
            second: PtrHolder1::new(input1, thread_count),
        }
    }

    /// The number of items of the first vector in each channel but the last.
    pub fn size0(&self) -> (size: usize)
        ensures
            size == self.first().chunksize(),
    {
        self.first.size()
    }

    /// The number of items of the second vector in each channel but the last.
    pub fn size1(&self) -> (size: usize)
        ensures
            size == self.second().chunksize(),
    {
        self.second.size()
    }

    /// The item of the first vector at `index`, in the part of its channel.
    pub fn get0<'p, T0>(&self, aux: &'p mut Vec<T0>, index: usize) -> (item: &'p mut T0)
        requires
            self.first().chunksize() > 0,
            self.first().place(index as int) < old(aux)@.len(),
        ensures
            *item == old(aux)@[self.first().place(index as int)],
            final(aux)@ == old(aux)@.update(self.first().place(index as int), *final(item)),
    {
        self.first.get0(aux, index)
    }

    /// The item of the second vector at `index`, in the part of its channel.
    pub fn get1<'p, T1>(&self, aux: &'p mut Vec<T1>, index: usize) -> (item: &'p mut T1)
        requires
            self.second().chunksize() > 0,
            self.second().place(index as int) < old(aux)@.len(),
        ensures
            *item == old(aux)@[self.second().place(index as int)],
            final(aux)@ == old(aux)@.update(self.second().place(index as int), *final(item)),
    {
        self.second.get0(aux, index)
    }

    /// Defers an update of the item of the first vector at `index0`.
    fn schedule0<Op0, Op1>(
        &self,
        ctx: &mut AuxScheduler<PtrHolder2, Task2<Op0, Op1>>,
        index0: usize,
        f: Op0,
    )
        requires
            self.wf(),
            index0 < self.first().len(),
            old(ctx).wf(),
            old(ctx).holder() == *self,
        ensures
            final(ctx).wf(),
            final(ctx).holder() == old(ctx).holder(),
            0 <= self.first().channel(index0 as int) < MAX_THREADS,
            final(ctx).held() == old(ctx).held().update(
                self.first().channel(index0 as int),
                old(ctx).held()[self.first().channel(index0 as int)].push(
                    Task2 { holder: *self, update: Update2::First(index0, f) },
                ),
            ),
    {
        proof {
            self.first.lemma_channel(index0 as int);
        }
        ctx.schedule(
            (index0 / self.first.size()) as u32,
            Task2 { holder: *self, update: Update2::First(index0, f) },
        );
    }

    /// Defers an update of the item of the second vector at `index1`.
    fn schedule1<Op0, Op1>(
        &self,
        ctx: &mut AuxScheduler<PtrHolder2, Task2<Op0, Op1>>,
        index1: usize,
        f: Op1,
    )
        requires
            self.wf(),
            index1 < self.second().len(),
            old(ctx).wf(),
            old(ctx).holder() == *self,
        ensures
            final(ctx).wf(),
            final(ctx).holder() == old(ctx).holder(),
            0 <= self.second().channel(index1 as int) < MAX_THREADS,
            final(ctx).held() == old(ctx).held().update(
                self.second().channel(index1 as int),
                old(ctx).held()[self.second().channel(index1 as int)].push(
                    Task2 { holder: *self, update: Update2::Second(index1, f) },
                ),
            ),
    {
        proof {
            self.second.lemma_channel(index1 as int);
        }
        ctx.schedule(
            (index1 / self.second.size()) as u32,
            Task2 { holder: *self, update: Update2::Second(index1, f) },
        );
    }

    /// The channel of the item that an update is of.
    pub open spec fn channel<Op0, Op1>(self, update: Update2<Op0, Op1>) -> int {
        match update {
            Update2::First(index, _) => self.first().channel(index as int),
            Update2::Second(index, _) => self.second().channel(index as int),
        }
    }
}

/// An update of an item of the first or of the second vector, at the given index.
pub enum Update2<Op0, Op1> {
    First(usize, Op0),
    Second(usize, Op1),
}

/// A deferred update.
pub struct Task2<Op0, Op1> {
    pub holder: PtrHolder2,
    pub update: Update2<Op0, Op1>,
}

/// The parts of both vectors that a channel stands for.
pub struct Part2<A0, A1> {
    pub part0: Vec<A0>,
    pub part1: Vec<A1>,
}

impl<A0, A1> View for Part2<A0, A1> {
    type V = (Seq<A0>, Seq<A1>);

    open spec fn view(&self) -> (Seq<A0>, Seq<A1>) {
        (self.part0@, self.part1@)
    }
}

impl<Op0, Op1> Addressed<PtrHolder2> for Task2<Op0, Op1> {
    open spec fn belongs(&self, aux: PtrHolder2, channel: int) -> bool {
        &&& self.holder == aux
        &&& match self.update {
            Update2::First(index, _) => index < aux.first().len(),
            Update2::Second(index, _) => index < aux.second().len(),
        }
        &&& channel == aux.channel(self.update)
    }
}

impl<A0, A1, Op0: AuxOp<A0>, Op1: AuxOp<A1>> AuxTask<Part2<A0, A1>> for Task2<Op0, Op1> {
    open spec fn fits(&self, part: (Seq<A0>, Seq<A1>)) -> bool {
        match self.update {
            Update2::First(index, _) => {
                &&& self.holder.first().chunksize() > 0
                &&& self.holder.first().place(index as int) < part.0.len()
            },
            Update2::Second(index, _) => {
                &&& self.holder.second().chunksize() > 0
                &&& self.holder.second().place(index as int) < part.1.len()
            },
        }
    }

    open spec fn applied(&self, part: (Seq<A0>, Seq<A1>)) -> (Seq<A0>, Seq<A1>) {
        match self.update {
            Update2::First(index, op) => {
                let place = self.holder.first().place(index as int);
                (part.0.update(place, op.applied(part.0[place])), part.1)
            },
            Update2::Second(index, op) => {
                let place = self.holder.second().place(index as int);
                (part.0, part.1.update(place, op.applied(part.1[place])))
            },
        }
    }

    proof fn fits_kept(&self, by: &Self, part: (Seq<A0>, Seq<A1>)) {
    }

    fn run(self, part: &mut Part2<A0, A1>) {
        let holder: PtrHolder2 = self.holder;
        match self.update {
            Update2::First(index, op) => {
                let item = holder.get0(&mut part.part0, index);
                op.apply(item);
            },
            Update2::Second(index, op) => {
                let item = holder.get1(&mut part.part1, index);
                op.apply(item);
            },
        }
    }
}

/// What the function that visits an item schedules its updates with.
pub struct Context2<'b, Op0, Op1> {
    pub ptr_holder: &'b mut AuxScheduler<PtrHolder2, Task2<Op0, Op1>>,
}

impl<'b, Op0, Op1> Context2<'b, Op0, Op1> {
    /// Defers an update of the item of the first vector at `index0`.
    pub fn schedule0(&mut self, index0: usize, f: Op0)
        requires
            old(self).ptr_holder.wf(),
            old(self).ptr_holder.holder().wf(),
            index0 < old(self).ptr_holder.holder().first().len(),
        ensures
            final(self).ptr_holder.wf(),
            final(self).ptr_holder.holder() == old(self).ptr_holder.holder(),
            0 <= old(self).ptr_holder.holder().first().channel(index0 as int) < MAX_THREADS,
            final(self).ptr_holder.held() == old(self).ptr_holder.held().update(
                old(self).ptr_holder.holder().first().channel(index0 as int),
                old(self).ptr_holder.held()[old(self).ptr_holder.holder().first().channel(
                    index0 as int,
                )].push(
                    Task2 {
                        holder: old(self).ptr_holder.holder(),
                        update: Update2::First(index0, f),
                    },
                ),
            ),
            *final(final(self).ptr_holder) == *final(old(self).ptr_holder),
    {
        let holder: PtrHolder2 = self.ptr_holder.get_ah();
        holder.schedule0(self.ptr_holder, index0, f);
    }

    /// Defers an update of the item of the second vector at `index1`.
    pub fn schedule1(&mut self, index1: usize, f: Op1)
        requires
            old(self).ptr_holder.wf(),
            old(self).ptr_holder.holder().wf(),
            index1 < old(self).ptr_holder.holder().second().len(),
        ensures
            final(self).ptr_holder.wf(),
            final(self).ptr_holder.holder() == old(self).ptr_holder.holder(),
            0 <= old(self).ptr_holder.holder().second().channel(index1 as int) < MAX_THREADS,
            final(self).ptr_holder.held() == old(self).ptr_holder.held().update(
                old(self).ptr_holder.holder().second().channel(index1 as int),
                old(self).ptr_holder.held()[old(self).ptr_holder.holder().second().channel(
                    index1 as int,
                )].push(
                    Task2 {
                        holder: old(self).ptr_holder.holder(),
                        update: Update2::Second(index1, f),
                    },
                ),
            ),
            *final(final(self).ptr_holder) == *final(old(self).ptr_holder),
    {
        let holder: PtrHolder2 = self.ptr_holder.get_ah();
        holder.schedule1(self.ptr_holder, index1, f);
    }
}

/// The tasks, with their channels, that stand for the given updates.
pub open spec fn tagged2<Op0, Op1>(holder: PtrHolder2, updates: Seq<Update2<Op0, Op1>>) -> Seq<
    (u32, Task2<Op0, Op1>),
> {
    updates.map_values(
        |u: Update2<Op0, Op1>| (holder.channel(u) as u32, Task2 { holder, update: u }),
    )
}

/// Deferring one more update.
pub proof fn lemma_tagged2_push<Op0, Op1>(
    holder: PtrHolder2,
    held: Seq<Seq<Task2<Op0, Op1>>>,
    updates: Seq<Update2<Op0, Op1>>,
    update: Update2<Op0, Op1>,
)
    requires
        held.len() == MAX_THREADS,
        0 <= holder.channel(update) < MAX_THREADS,
    ensures
        ({
            let c = holder.channel(update);
            let before = held_with(held, tagged2(holder, updates));
            held_with(held, tagged2(holder, updates.push(update))) == before.update(
                c,
                before[c].push(Task2 { holder, update }),
            )
        }),
{
    let c = holder.channel(update) as u32;
    assert(tagged2(holder, updates.push(update)) =~= tagged2(holder, updates).push(
        (c, Task2 { holder, update }),
    ));
    lemma_held_with_push(held, tagged2(holder, updates), c, Task2 { holder, update });
}

/// The updates are of items that vectors of `len0` and `len1` items have.
pub open spec fn aimed_within2<Op0, Op1>(
    updates: Seq<Update2<Op0, Op1>>,
    len0: int,
    len1: int,
) -> bool {
    forall|j: int|
        0 <= j < updates.len() ==> (match #[trigger] updates[j] {
            Update2::First(index, _) => index < len0,
            Update2::Second(index, _) => index < len1,
        })
}

/// What is done with each item of the data: it may be changed, and updates of the items of
/// the two auxiliary vectors may be deferred.
pub trait ItemFn2<T, Op0, Op1> {
    /// The item at `idx` may be visited.
    spec fn accepts(&self, idx: int, item: T) -> bool;

    /// What the visit makes of the item.
    spec fn item_after(&self, idx: int, item: T) -> T;

    /// The updates that the visit defers, in order.
    spec fn updates(&self, idx: int, item: T) -> Seq<Update2<Op0, Op1>>;

    fn call(&self, idx: usize, item: &mut T, ctx: Context2<'_, Op0, Op1>)
        requires
            self.accepts(idx as int, *old(item)),
            old(ctx.ptr_holder).wf(),
            old(ctx.ptr_holder).holder().wf(),
            aimed_within2(
                self.updates(idx as int, *old(item)),
                old(ctx.ptr_holder).holder().first().len(),
                old(ctx.ptr_holder).holder().second().len(),
            ),
        ensures
            *final(item) == self.item_after(idx as int, *old(item)),
            final(ctx.ptr_holder).holder() == old(ctx.ptr_holder).holder(),
            final(ctx.ptr_holder).held() == held_with(
                old(ctx.ptr_holder).held(),
                tagged2(
                    old(ctx.ptr_holder).holder(),
                    self.updates(idx as int, *old(item)),
                ),
            ),
    ;
}

/// A visit of a stretch of the data, item by item.
pub struct ItemBatch2<'f, F> {
    pub f: &'f F,
}

impl<'f, F> ItemBatch2<'f, F> {
    /// The tasks that the item at position `i` of a stretch schedules.
    pub open spec fn tasks_at<T, Op0, Op1>(
        self,
        aux: PtrHolder2,
        offset: int,
        items: Seq<T>,
    ) -> spec_fn(int) -> Seq<(u32, Task2<Op0, Op1>)> where F: ItemFn2<T, Op0, Op1> {
        |i: int| tagged2(aux, self.f.updates(offset + i, items[i]))
    }
}

impl<'f, T, Op0, Op1, F: ItemFn2<T, Op0, Op1>> BatchFn<
    T,
    PtrHolder2,
    Task2<Op0, Op1>,
> for ItemBatch2<'f, F> {
    open spec fn accepts(&self, aux: PtrHolder2, offset: int, items: Seq<T>) -> bool {
        &&& aux.wf()
        &&& forall|i: int|
            0 <= i < items.len() ==> {
                &&& self.f.accepts(offset + i, #[trigger] items[i])
                &&& aimed_within2(
                    self.f.updates(offset + i, items[i]),
                    aux.first().len(),
                    aux.second().len(),
                )
            }
    }

    open spec fn items_after(&self, offset: int, items: Seq<T>) -> Seq<T> {
        Seq::new(items.len(), |i: int| self.f.item_after(offset + i, items[i]))
    }

    open spec fn tasks(&self, aux: PtrHolder2, offset: int, items: Seq<T>) -> Seq<
        (u32, Task2<Op0, Op1>),
    > {
        joined(upto(0, items.len() as int), self.tasks_at(aux, offset, items))
    }

    proof fn keeps_len(&self, offset: int, items: Seq<T>) {
    }

    fn call(
        &self,
        offset: usize,
        items: &mut [T],
        ctx: &mut AuxScheduler<PtrHolder2, Task2<Op0, Op1>>,
    ) {
        let ghost items0 = items@;
        let ghost held0 = ctx.held();
        let ghost aux = ctx.holder();
        let ghost tasks_at = self.tasks_at::<T, Op0, Op1>(aux, offset as int, items0);
        let n: usize = items.len();
        let mut i: usize = 0;
        proof {
            assert(upto(0, 0) =~= Seq::<int>::empty());
            lemma_held_with_nothing(held0);
        }
        while i < n
            invariant
                i <= n,
                n == items0.len(),
                items@.len() == n,
                offset + n <= usize::MAX,
                ctx.wf(),
                ctx.holder() == aux,
                aux.wf(),
                tasks_at == self.tasks_at::<T, Op0, Op1>(aux, offset as int, items0),
                self.accepts(aux, offset as int, items0),
                ctx.held() == held_with(held0, joined(upto(0, i as int), tasks_at)),
                held0.len() == MAX_THREADS,
                forall|j: int|
                    0 <= j < i ==> #[trigger] items@[j] == self.f.item_after(
                        offset + j,
                        items0[j],
                    ),
                forall|j: int| i <= j < n ==> #[trigger] items@[j] == items0[j],
            decreases n - i,
        {
            assert(items@[i as int] == items0[i as int]);
            let item = &mut items[i];
            let context = Context2 { ptr_holder: &mut *ctx };
            self.f.call(offset + i, item, context);
            proof {
                assert(upto(0, i + 1).drop_last() =~= upto(0, i as int));
                lemma_held_with_add(
                    held0,
                    joined(upto(0, i as int), tasks_at),
                    tasks_at(i as int),
                );
            }
            i = i + 1;
        }
        assert(items@ =~= self.items_after(offset as int, items0));
    }
}

/// Selects the updates of the item of the first vector at `x`.
pub open spec fn first_at<Op0, Op1>(x: int) -> spec_fn(Update2<Op0, Op1>) -> Option<Op0> {
    |u: Update2<Op0, Op1>|
        match u {
            Update2::First(index, op) => if index == x {
                Some(op)
            } else {
                None
            },
            Update2::Second(_, _) => None,
        }
}

/// Selects the updates of the item of the second vector at `x`.
pub open spec fn second_at<Op0, Op1>(x: int) -> spec_fn(Update2<Op0, Op1>) -> Option<Op1> {
    |u: Update2<Op0, Op1>|
        match u {
            Update2::First(_, _) => None,
            Update2::Second(index, op) => if index == x {
                Some(op)
            } else {
                None
            },
        }
}

/// The updates of the item of the first vector at `x` that each item of the data defers.
pub open spec fn updates_of_first<T, Op0, Op1, F: ItemFn2<T, Op0, Op1>>(
    f: F,
    data: Seq<T>,
    x: int,
) -> spec_fn(int) -> Seq<Op0> {
    |i: int| f.updates(i, data[i]).filter_map(first_at(x))
}

/// The updates of the item of the second vector at `x` that each item of the data defers.
pub open spec fn updates_of_second<T, Op0, Op1, F: ItemFn2<T, Op0, Op1>>(
    f: F,
    data: Seq<T>,
    x: int,
) -> spec_fn(int) -> Seq<Op1> {
    |i: int| f.updates(i, data[i]).filter_map(second_at(x))
}

/// The data after every item has been visited.
pub open spec fn data_after2<T, Op0, Op1, F: ItemFn2<T, Op0, Op1>>(f: F, data: Seq<T>) -> Seq<T> {
    Seq::new(data.len(), |i: int| f.item_after(i, data[i]))
}

/// The first vector after all the updates, in the order of the channels of its items.
pub open spec fn first_after2<T, A0, Op0: AuxOp<A0>, Op1, F: ItemFn2<T, Op0, Op1>>(
    f: F,
    data: Seq<T>,
    aux: Seq<A0>,
) -> Seq<A0> {
    Seq::new(
        aux.len(),
        |x: int|
            apply_ops(
                joined(
                    application_order(
                        data.len() as int,
                        x / ceil_div(aux.len() as int, ring_len()),
                    ),
                    updates_of_first(f, data, x),
                ),
                aux[x],
            ),
    )
}

/// The second vector after all the updates, in the order of the channels of its items.
pub open spec fn second_after2<T, A1, Op0, Op1: AuxOp<A1>, F: ItemFn2<T, Op0, Op1>>(
    f: F,
    data: Seq<T>,
    aux: Seq<A1>,
) -> Seq<A1> {
    Seq::new(
        aux.len(),
        |x: int|
            apply_ops(
                joined(
                    application_order(
                        data.len() as int,
                        x / ceil_div(aux.len() as int, ring_len()),
                    ),
                    updates_of_second(f, data, x),
                ),
                aux[x],
            ),
    )
}

/// Every item may be visited, and its updates are of items that the auxiliary vectors have.
pub open spec fn all_accepted2<T, Op0, Op1, F: ItemFn2<T, Op0, Op1>>(
    f: F,
    data: Seq<T>,
    len0: int,
    len1: int,
) -> bool {
    forall|i: int|
        0 <= i < data.len() ==> {
            &&& f.accepts(i, #[trigger] data[i])
            &&& aimed_within2(f.updates(i, data[i]), len0, len1)
        }
}

/// The tasks of each item of the data.
spec fn item_tasks2<T, Op0, Op1, F: ItemFn2<T, Op0, Op1>>(
    f: F,
    holder: PtrHolder2,
    data: Seq<T>,
) -> spec_fn(int) -> Seq<(u32, Task2<Op0, Op1>)> {
    |i: int| tagged2(holder, f.updates(i, data[i]))
}

proof fn lemma_itemwise2<T, Op0, Op1, F: ItemFn2<T, Op0, Op1>>(
    f: &F,
    holder: PtrHolder2,
    data: Seq<T>,
)
    ensures
        itemwise(
            job_of(ItemBatch2 { f }, holder, data),
            |i: int| f.item_after(i, data[i]),
            item_tasks2(*f, holder, data),
        ),
{
    let batch = ItemBatch2 { f };
    let job = job_of(batch, holder, data);
    let after = |i: int| f.item_after(i, data[i]);
    let tasks = item_tasks2(*f, holder, data);
    assert forall|a: int, b: int|
        #![trigger job.data.subrange(a, b)]
        0 <= a <= b <= job.len() implies {
        &&& (job.after)(a, job.data.subrange(a, b)) == Seq::new(
            (b - a) as nat,
            |i: int| after(a + i),
        )
        &&& (job.tasks)(a, job.data.subrange(a, b)) == joined(upto(a, b), tasks)
    } by {
        let sub = data.subrange(a, b);
        assert((job.after)(a, sub) =~= Seq::new((b - a) as nat, |i: int| after(a + i)));
        lemma_joined_shift(a, b, batch.tasks_at::<T, Op0, Op1>(holder, a, sub), tasks);
    }
}

/// The parts of the channels are those of the given vectors.
pub open spec fn parts_of2<A0, A1>(
    parts: Seq<Part2<A0, A1>>,
    holder: PtrHolder2,
    aux0: Seq<A0>,
    aux1: Seq<A1>,
) -> bool {
    &&& parts.len() == ring_len()
    &&& forall|c: int|
        0 <= c < ring_len() ==> {
            &&& (#[trigger] parts[c]).part0@ == part_of(aux0, holder.first().chunksize(), c)
            &&& parts[c].part1@ == part_of(aux1, holder.second().chunksize(), c)
        }
}

/// An update of an item fits the parts of its channel.
proof fn lemma_update_fits<A0, A1, Op0: AuxOp<A0>, Op1: AuxOp<A1>>(
    holder: PtrHolder2,
    aux0: Seq<A0>,
    aux1: Seq<A1>,
    updates: Seq<Update2<Op0, Op1>>,
    p: int,
)
    requires
        holder.wf(),
        holder.first().len() == aux0.len(),
        holder.second().len() == aux1.len(),
        aimed_within2(updates, aux0.len() as int, aux1.len() as int),
        0 <= p < updates.len(),
    ensures
        ({
            let c = holder.channel(updates[p]);
            &&& 0 <= c < ring_len()
            &&& Task2 { holder, update: updates[p] }.fits(
                (
                    part_of(aux0, holder.first().chunksize(), c),
                    part_of(aux1, holder.second().chunksize(), c),
                ),
            )
        }),
{
    match updates[p] {
        Update2::First(index, op) => {
            lemma_item_part(aux0, index as int);
        },
        Update2::Second(index, op) => {
            lemma_item_part(aux1, index as int);
        },
    }
}

/// Every stretch of acceptable items is acceptable, and so are its tasks.
pub proof fn lemma_all_accepted2<
    T,
    A0,
    A1,
    Op0: AuxOp<A0>,
    Op1: AuxOp<A1>,
    F: ItemFn2<T, Op0, Op1>,
>(
    f: &F,
    holder: PtrHolder2,
    data: Seq<T>,
    aux0: Seq<A0>,
    aux1: Seq<A1>,
    parts: Seq<Part2<A0, A1>>,
)
    requires
        holder.wf(),
        holder.first().len() == aux0.len(),
        holder.second().len() == aux1.len(),
        parts_of2(parts, holder, aux0, aux1),
        all_accepted2(*f, data, aux0.len() as int, aux1.len() as int),
    ensures
        all_accepted(ItemBatch2 { f }, holder, data, parts),
{
    let batch = ItemBatch2 { f };
    let len = data.len() as int;
    assert forall|a: int, b: int| #[trigger] is_batch(len, a, b) implies {
        let ts = batch.tasks(holder, a, data.subrange(a, b));
        &&& batch.accepts(holder, a, data.subrange(a, b))
        &&& forall|i: int|
            0 <= i < ts.len() ==> task_accepted(#[trigger] ts[i], holder, parts)
    } by {
        let sub = data.subrange(a, b);
        let ts = batch.tasks(holder, a, sub);
        lemma_is_batch(len, a, b);
        assert forall|i: int| 0 <= i < sub.len() implies {
            &&& f.accepts(a + i, #[trigger] sub[i])
            &&& aimed_within2(
                f.updates(a + i, sub[i]),
                holder.first().len(),
                holder.second().len(),
            )
        } by {
            assert(sub[i] == data[a + i]);
        }
        assert forall|m: int|
            0 <= m < ts.len() implies task_accepted(#[trigger] ts[m], holder, parts) by {
            let g = batch.tasks_at::<T, Op0, Op1>(holder, a, sub);
            let (i, p) = lemma_joined_from(upto(0, sub.len() as int), g, m);
            let u = f.updates(a + i, sub[i]);
            assert(sub[i] == data[a + i]);
            assert(g(i)[p] == (
                holder.channel(u[p]) as u32,
                Task2 { holder, update: u[p] },
            ));
            lemma_update_fits(holder, aux0, aux1, u, p);
        }
    }
}

/// Selects the updates of the item at `place` of the first part.
spec fn first_at_place<Op0, Op1>(place: int) -> spec_fn(Task2<Op0, Op1>) -> Option<Op0> {
    |t: Task2<Op0, Op1>|
        match t.update {
            Update2::First(index, op) => if t.holder.first().place(index as int) == place {
                Some(op)
            } else {
                None
            },
            Update2::Second(_, _) => None,
        }
}

/// Selects the updates of the item at `place` of the second part.
spec fn second_at_place<Op0, Op1>(place: int) -> spec_fn(Task2<Op0, Op1>) -> Option<Op1> {
    |t: Task2<Op0, Op1>|
        match t.update {
            Update2::First(_, _) => None,
            Update2::Second(index, op) => if t.holder.second().place(index as int) == place {
                Some(op)
            } else {
                None
            },
        }
}

proof fn lemma_len_kept2<A0, A1, Op0: AuxOp<A0>, Op1: AuxOp<A1>>(
    ts: Seq<Task2<Op0, Op1>>,
    part: (Seq<A0>, Seq<A1>),
)
    requires
        forall|i: int| 0 <= i < ts.len() ==> (#[trigger] ts[i]).fits(part),
    ensures
        ({
            let end = ts.fold_left(part, running::<Part2<A0, A1>, Task2<Op0, Op1>>());
            end.0.len() == part.0.len() && end.1.len() == part.1.len()
        }),
    decreases ts.len(),
{
    if ts.len() > 0 {
        let r = ts.drop_last();
        assert forall|i: int| 0 <= i < r.len() implies (#[trigger] r[i]).fits(part) by {
            assert(r[i] == ts[i]);
        }
        lemma_len_kept2(r, part);
        assert(ts[ts.len() - 1].fits(part));
        match ts.last().update {
            Update2::First(index, op) => {
                assert(ts.last().holder.first().place(index as int) >= 0);
            },
            Update2::Second(index, op) => {
                assert(ts.last().holder.second().place(index as int) >= 0);
            },
        }
    }
}

/// What the tasks of a channel do to one item of its first part.
proof fn lemma_first_item2<A0, A1, Op0: AuxOp<A0>, Op1: AuxOp<A1>>(
    ts: Seq<Task2<Op0, Op1>>,
    part: (Seq<A0>, Seq<A1>),
    place: int,
)
    requires
        0 <= place < part.0.len(),
        forall|i: int| 0 <= i < ts.len() ==> (#[trigger] ts[i]).fits(part),
    ensures
        ts.fold_left(part, running::<Part2<A0, A1>, Task2<Op0, Op1>>()).0[place] == apply_ops(
            ts.filter_map(first_at_place(place)),
            part.0[place],
        ),
{
    let run = running::<Part2<A0, A1>, Task2<Op0, Op1>>();
    let ok = |q: (Seq<A0>, Seq<A1>)| q.0.len() == part.0.len() && q.1.len() == part.1.len();
    let view = |q: (Seq<A0>, Seq<A1>)| q.0[place];
    assert forall|i: int, q: (Seq<A0>, Seq<A1>)|
        #![trigger run(q, ts[i])]
        0 <= i < ts.len() && ok(q) implies {
        &&& ok(run(q, ts[i]))
        &&& view(run(q, ts[i])) == (match first_at_place(place)(ts[i]) {
            Some(y) => applying::<A0, Op0>()(view(q), y),
            None => view(q),
        })
    } by {
        assert(ts[i].fits(part));
        match ts[i].update {
            Update2::First(index, op) => {
                assert(ts[i].holder.first().place(index as int) >= 0);
            },
            Update2::Second(index, op) => {
                assert(ts[i].holder.second().place(index as int) >= 0);
            },
        }
    }
    lemma_fold_component(ts, part, run, ok, view, first_at_place(place), applying::<A0, Op0>());
}

/// What the tasks of a channel do to one item of its second part.
proof fn lemma_second_item2<A0, A1, Op0: AuxOp<A0>, Op1: AuxOp<A1>>(
    ts: Seq<Task2<Op0, Op1>>,
    part: (Seq<A0>, Seq<A1>),
    place: int,
)
    requires
        0 <= place < part.1.len(),
        forall|i: int| 0 <= i < ts.len() ==> (#[trigger] ts[i]).fits(part),
    ensures
        ts.fold_left(part, running::<Part2<A0, A1>, Task2<Op0, Op1>>()).1[place] == apply_ops(
            ts.filter_map(second_at_place(place)),
            part.1[place],
        ),
{
    let run = running::<Part2<A0, A1>, Task2<Op0, Op1>>();
    let ok = |q: (Seq<A0>, Seq<A1>)| q.0.len() == part.0.len() && q.1.len() == part.1.len();
    let view = |q: (Seq<A0>, Seq<A1>)| q.1[place];
    assert forall|i: int, q: (Seq<A0>, Seq<A1>)|
        #![trigger run(q, ts[i])]
        0 <= i < ts.len() && ok(q) implies {
        &&& ok(run(q, ts[i]))
        &&& view(run(q, ts[i])) == (match second_at_place(place)(ts[i]) {
            Some(y) => applying::<A1, Op1>()(view(q), y),
            None => view(q),
        })
    } by {
        assert(ts[i].fits(part));
        match ts[i].update {
            Update2::First(index, op) => {
                assert(ts[i].holder.first().place(index as int) >= 0);
            },
            Update2::Second(index, op) => {
                assert(ts[i].holder.second().place(index as int) >= 0);
            },
        }
    }
    lemma_fold_component(ts, part, run, ok, view, second_at_place(place), applying::<A1, Op1>());
}

/// The updates of one item of the first vector among the tasks of its channel.
proof fn lemma_first_updates2<T, A0, Op0: AuxOp<A0>, Op1, F: ItemFn2<T, Op0, Op1>>(
    f: &F,
    holder: PtrHolder2,
    data: Seq<T>,
    aux0: Seq<A0>,
    len1: int,
    c: int,
    place: int,
)
    requires
        holder.wf(),
        holder.first().len() == aux0.len(),
        holder.second().len() == len1,
        all_accepted2(*f, data, aux0.len() as int, len1),
        0 <= c < ring_len(),
        0 <= place < part_of(aux0, holder.first().chunksize(), c).len(),
    ensures
        joined(
            application_order(data.len() as int, c),
            item_tasks2(*f, holder, data),
        ).filter_map(on_channel(c)).filter_map(first_at_place(place)) == joined(
            application_order(data.len() as int, c),
            updates_of_first(*f, data, c * holder.first().chunksize() + place),
        ),
        (c * holder.first().chunksize() + place) / holder.first().chunksize() == c,
{
    let n = data.len() as int;
    let size = holder.first().chunksize();
    let order = application_order(n, c);
    let tasks = item_tasks2(*f, holder, data);
    let x = c * size + place;
    let both = pick_both(on_channel::<Task2<Op0, Op1>>(c), first_at_place::<Op0, Op1>(place));
    let h = updates_of_first(*f, data, x);
    lemma_ceil_div(aux0.len() as int, ring_len());
    assert((c + 1) * size == c * size + size) by (nonlinear_arith);
    assert(0 <= c * size) by (nonlinear_arith)
        requires
            0 <= c,
            size >= 0,
    ;
    lemma_part_index(x, size, c);
    law_every_item_has_one_turn(n, c);
    lemma_pick_pick(joined(order, tasks), on_channel(c), first_at_place(place));
    assert forall|i: int| order.contains(i) implies tasks(i).filter_map(both)
        == #[trigger] h(i) by {
        let updates = f.updates(i, data[i]);
        let tag = |u: Update2<Op0, Op1>|
            (holder.channel(u) as u32, Task2 { holder, update: u });
        assert(0 <= i < n && data[i] == data[i]);
        lemma_pick_mapped(updates, tag, both);
        assert forall|j: int| 0 <= j < updates.len() implies both(tag(#[trigger] updates[j]))
            == first_at::<Op0, Op1>(x)(updates[j]) by {
            match updates[j] {
                Update2::First(index, op) => {
                    lemma_item_part(aux0, index as int);
                },
                Update2::Second(index, op) => {},
            }
        }
        lemma_pick_same(
            updates,
            |u: Update2<Op0, Op1>| both(tag(u)),
            first_at::<Op0, Op1>(x),
        );
    }
    lemma_joined_pick(order, tasks, h, both);
}

/// The updates of one item of the second vector among the tasks of its channel.
proof fn lemma_second_updates2<T, A1, Op0, Op1: AuxOp<A1>, F: ItemFn2<T, Op0, Op1>>(
    f: &F,
    holder: PtrHolder2,
    data: Seq<T>,
    len0: int,
    aux1: Seq<A1>,
    c: int,
    place: int,
)
    requires
        holder.wf(),
        holder.first().len() == len0,
        holder.second().len() == aux1.len(),
        all_accepted2(*f, data, len0, aux1.len() as int),
        0 <= c < ring_len(),
        0 <= place < part_of(aux1, holder.second().chunksize(), c).len(),
    ensures
        joined(
            application_order(data.len() as int, c),
            item_tasks2(*f, holder, data),
        ).filter_map(on_channel(c)).filter_map(second_at_place(place)) == joined(
            application_order(data.len() as int, c),
            updates_of_second(*f, data, c * holder.second().chunksize() + place),
        ),
        (c * holder.second().chunksize() + place) / holder.second().chunksize() == c,
{
    let n = data.len() as int;
    let size = holder.second().chunksize();
    let order = application_order(n, c);
    let tasks = item_tasks2(*f, holder, data);
    let x = c * size + place;
    let both = pick_both(on_channel::<Task2<Op0, Op1>>(c), second_at_place::<Op0, Op1>(place));
    let h = updates_of_second(*f, data, x);
    lemma_ceil_div(aux1.len() as int, ring_len());
    assert((c + 1) * size == c * size + size) by (nonlinear_arith);
    assert(0 <= c * size) by (nonlinear_arith)
        requires
            0 <= c,
            size >= 0,
    ;
    lemma_part_index(x, size, c);
    law_every_item_has_one_turn(n, c);
    lemma_pick_pick(joined(order, tasks), on_channel(c), second_at_place(place));
    assert forall|i: int| order.contains(i) implies tasks(i).filter_map(both)
        == #[trigger] h(i) by {
        let updates = f.updates(i, data[i]);
        let tag = |u: Update2<Op0, Op1>|
            (holder.channel(u) as u32, Task2 { holder, update: u });
        assert(0 <= i < n && data[i] == data[i]);
        lemma_pick_mapped(updates, tag, both);
        assert forall|j: int| 0 <= j < updates.len() implies both(tag(#[trigger] updates[j]))
            == second_at::<Op0, Op1>(x)(updates[j]) by {
            match updates[j] {
                Update2::First(index, op) => {},
                Update2::Second(index, op) => {
                    lemma_item_part(aux1, index as int);
                },
            }
        }
        lemma_pick_same(
            updates,
            |u: Update2<Op0, Op1>| both(tag(u)),
            second_at::<Op0, Op1>(x),
        );
    }
    lemma_joined_pick(order, tasks, h, both);
}

/// The parts of a channel at the end of a run.
pub proof fn lemma_part_after2<
    T,
    A0,
    A1,
    Op0: AuxOp<A0>,
    Op1: AuxOp<A1>,
    F: ItemFn2<T, Op0, Op1>,
>(
    f: &F,
    holder: PtrHolder2,
    data: Seq<T>,
    aux0: Seq<A0>,
    aux1: Seq<A1>,
    c: int,
)
    requires
        holder.wf(),
        holder.first().len() == aux0.len(),
        holder.second().len() == aux1.len(),
        all_accepted2(*f, data, aux0.len() as int, aux1.len() as int),
        0 <= c < ring_len(),
    ensures
        ({
            let end = job_of(ItemBatch2 { f }, holder, data).tasks_run(c).fold_left(
                (
                    part_of(aux0, holder.first().chunksize(), c),
                    part_of(aux1, holder.second().chunksize(), c),
                ),
                running::<Part2<A0, A1>, Task2<Op0, Op1>>(),
            );
            &&& end.0 == part_of(first_after2(*f, data, aux0), holder.first().chunksize(), c)
            &&& end.1 == part_of(second_after2(*f, data, aux1), holder.second().chunksize(), c)
        }),
{
    let job = job_of(ItemBatch2 { f }, holder, data);
    let n = data.len() as int;
    let size0 = holder.first().chunksize();
    let size1 = holder.second().chunksize();
    let part = (part_of(aux0, size0, c), part_of(aux1, size1, c));
    let order = application_order(n, c);
    let tasks = item_tasks2(*f, holder, data);
    let run = running::<Part2<A0, A1>, Task2<Op0, Op1>>();
    let ts = job.tasks_run(c);
    let end = ts.fold_left(part, run);
    lemma_itemwise2(f, holder, data);
    lemma_tasks_run(job, |i: int| f.item_after(i, data[i]), tasks, c);
    lemma_ceil_div(aux0.len() as int, ring_len());
    lemma_ceil_div(aux1.len() as int, ring_len());
    law_every_item_has_one_turn(n, c);
    assert(ts == joined(order, tasks).filter_map(on_channel(c)));
    assert forall|m: int| 0 <= m < ts.len() implies (#[trigger] ts[m]).fits(part) by {
        assert(ts.contains(ts[m]));
        let q = lemma_pick_from(joined(order, tasks), on_channel(c), ts[m]);
        let (i, p) = lemma_joined_from(order, tasks, q);
        let u = f.updates(i, data[i]);
        assert(data[i] == data[i] && 0 <= i < n);
        assert(tasks(i)[p] == (holder.channel(u[p]) as u32, Task2 { holder, update: u[p] }));
        lemma_update_fits(holder, aux0, aux1, u, p);
    }
    lemma_len_kept2(ts, part);
    assert(0 <= c * size0 <= (c + 1) * size0 && 0 <= c * size1 <= (c + 1) * size1)
        by (nonlinear_arith)
        requires
            0 <= c,
            size0 >= 0,
            size1 >= 0,
    ;
    let expected0 = part_of(first_after2(*f, data, aux0), size0, c);
    assert forall|place: int| 0 <= place < part.0.len() implies end.0[place]
        == expected0[place] by {
        lemma_first_item2(ts, part, place);
        lemma_first_updates2(f, holder, data, aux0, aux1.len() as int, c, place);
    }
    assert(end.0 =~= expected0);
    let expected1 = part_of(second_after2(*f, data, aux1), size1, c);
    assert forall|place: int| 0 <= place < part.1.len() implies end.1[place]
        == expected1[place] by {
        lemma_second_item2(ts, part, place);
        lemma_second_updates2(f, holder, data, aux0.len() as int, aux1, c, place);
    }
    assert(end.1 =~= expected1);
}

/// The data at the end of a run.
pub proof fn lemma_data_after2<T, Op0, Op1, F: ItemFn2<T, Op0, Op1>>(
    f: &F,
    holder: PtrHolder2,
    data: Seq<T>,
)
    ensures
        job_of(ItemBatch2 { f }, holder, data).data_after() == data_after2(*f, data),
{
    lemma_itemwise2(f, holder, data);
    lemma_data_after(
        job_of(ItemBatch2 { f }, holder, data),
        |i: int| f.item_after(i, data[i]),
        item_tasks2(*f, holder, data),
    );
    assert(data_after2(*f, data) =~= Seq::new(
        data.len(),
        |i: int| (|j: int| f.item_after(j, data[j]))(i),
    ));
}

/// Puts the parts of the two vectors together, channel by channel.
pub fn pair_parts<A0, A1>(parts0: Vec<Vec<A0>>, parts1: Vec<Vec<A1>>) -> (parts: Vec<
    Part2<A0, A1>,
>)
    requires
        parts0@.len() == parts1@.len(),
    ensures
        parts@.len() == parts0@.len(),
        forall|c: int|
            0 <= c < parts@.len() ==> (#[trigger] parts@[c]).part0 == parts0@[c]
                && parts@[c].part1 == parts1@[c],
{
    let ghost all0 = parts0@;
    let ghost all1 = parts1@;
    let mut parts0: Vec<Vec<A0>> = parts0;
    let mut parts1: Vec<Vec<A1>> = parts1;
    let mut parts: Vec<Part2<A0, A1>> = Vec::new();
    while parts0.len() > 0
        invariant
            parts0@.len() == parts1@.len(),
            all0.len() == all1.len(),
            parts0@ == all0.take(parts0@.len() as int),
            parts1@ == all1.take(parts1@.len() as int),
            parts0@.len() + parts@.len() == all0.len(),
            forall|c: int|
                parts0@.len() <= c < all0.len() ==> (#[trigger] parts@[c
                    - parts0@.len()]).part0 == all0[c] && parts@[c - parts0@.len()].part1
                    == all1[c],
        decreases parts0@.len(),
    {
        let ghost before = parts@;
        let ghost n = parts0@.len() as int;
        match (parts0.pop(), parts1.pop()) {
            (Some(part0), Some(part1)) => {
                parts.insert(0, Part2 { part0, part1 });
                proof {
                    assert(parts0@ =~= all0.take(n - 1));
                    assert(parts1@ =~= all1.take(n - 1));
                    assert forall|c: int| n - 1 <= c < all0.len() implies (#[trigger] parts@[c
                        - (n - 1)]).part0 == all0[c] && parts@[c - (n - 1)].part1 == all1[c] by {
                        if c >= n {
                            assert(parts@[c - (n - 1)] == before[c - n]);
                        }
                    }
                }
            },
            _ => {},
        }
    }
    assert forall|c: int| 0 <= c < parts@.len() implies (#[trigger] parts@[c]).part0 == all0[c]
        && parts@[c].part1 == all1[c] by {
        assert(parts@[c - parts0@.len()].part0 == all0[c]);
    }
    parts
}

/// Takes the parts of the two vectors apart again.
pub fn unpair_parts<A0, A1>(parts: Vec<Part2<A0, A1>>) -> (pair: (Vec<Vec<A0>>, Vec<Vec<A1>>))
    ensures
        pair.0@.len() == parts@.len(),
        pair.1@.len() == parts@.len(),
        forall|c: int| 0 <= c < parts@.len() ==> #[trigger] pair.0@[c] == parts@[c].part0,
        forall|c: int| 0 <= c < parts@.len() ==> #[trigger] pair.1@[c] == parts@[c].part1,
{
    let ghost all = parts@;
    let mut parts: Vec<Part2<A0, A1>> = parts;
    let mut parts0: Vec<Vec<A0>> = Vec::new();
    let mut parts1: Vec<Vec<A1>> = Vec::new();
    while parts.len() > 0
        invariant
            parts@ == all.take(parts@.len() as int),
            parts@.len() + parts0@.len() == all.len(),
            parts@.len() + parts1@.len() == all.len(),
            forall|c: int|
                parts@.len() <= c < all.len() ==> #[trigger] parts0@[c - parts@.len()]
                    == all[c].part0,
            forall|c: int|
                parts@.len() <= c < all.len() ==> #[trigger] parts1@[c - parts@.len()]
                    == all[c].part1,
        decreases parts@.len(),
    {
        let ghost before0 = parts0@;
        let ghost before1 = parts1@;
        let ghost n = parts@.len() as int;
        match parts.pop() {
            Some(part) => {
                parts0.insert(0, part.part0);
                parts1.insert(0, part.part1);
                proof {
                    assert(parts@ =~= all.take(n - 1));
                    assert forall|c: int| n - 1 <= c < all.len() implies #[trigger] parts0@[c - (n
                        - 1)] == all[c].part0 by {
                        if c >= n {
                            assert(parts0@[c - (n - 1)] == before0[c - n]);
                        }
                    }
                    assert forall|c: int| n - 1 <= c < all.len() implies #[trigger] parts1@[c - (n
                        - 1)] == all[c].part1 by {
                        if c >= n {
                            assert(parts1@[c - (n - 1)] == before1[c - n]);
                        }
                    }
                }
            },
            None => {},
        }
    }
    assert forall|c: int| 0 <= c < all.len() implies #[trigger] parts0@[c] == all[c].part0 by {
        assert(parts0@[c - parts@.len()] == all[c].part0);
    }
    assert forall|c: int| 0 <= c < all.len() implies #[trigger] parts1@[c] == all[c].part1 by {
        assert(parts1@[c - parts@.len()] == all[c].part1);
    }
    (parts0, parts1)
}

/// The effect of an update on both vectors.
pub open spec fn updating2<A0, A1, Op0: AuxOp<A0>, Op1: AuxOp<A1>>() -> spec_fn(
    (Seq<A0>, Seq<A1>),
    Update2<Op0, Op1>,
) -> (Seq<A0>, Seq<A1>) {
    |aux: (Seq<A0>, Seq<A1>), u: Update2<Op0, Op1>|
        match u {
            Update2::First(index, op) => (
                aux.0.update(index as int, op.applied(aux.0[index as int])),
                aux.1,
            ),
            Update2::Second(index, op) => (
                aux.0,
                aux.1.update(index as int, op.applied(aux.1[index as int])),
            ),
        }
}

/// Both vectors after a plain loop over the first `n` items of the data, in which each update
/// is applied at once.
pub open spec fn loop_after2<T, A0, A1, Op0: AuxOp<A0>, Op1: AuxOp<A1>, F: ItemFn2<T, Op0, Op1>>(
    f: F,
    data: Seq<T>,
    aux: (Seq<A0>, Seq<A1>),
    n: int,
) -> (Seq<A0>, Seq<A1>)
    decreases n,
{
    if n <= 0 {
        aux
    } else {
        f.updates(n - 1, data[n - 1]).fold_left(
            loop_after2(f, data, aux, n - 1),
            updating2::<A0, A1, Op0, Op1>(),
        )
    }
}

proof fn lemma_updating2_len<A0, A1, Op0: AuxOp<A0>, Op1: AuxOp<A1>>(
    updates: Seq<Update2<Op0, Op1>>,
    aux: (Seq<A0>, Seq<A1>),
)
    requires
        aimed_within2(updates, aux.0.len() as int, aux.1.len() as int),
    ensures
        updates.fold_left(aux, updating2::<A0, A1, Op0, Op1>()).0.len() == aux.0.len(),
        updates.fold_left(aux, updating2::<A0, A1, Op0, Op1>()).1.len() == aux.1.len(),
    decreases updates.len(),
{
    if updates.len() > 0 {
        let r = updates.drop_last();
        assert forall|j: int| 0 <= j < r.len() implies (match #[trigger] r[j] {
            Update2::First(index, _) => index < aux.0.len(),
            Update2::Second(index, _) => index < aux.1.len(),
        }) by {
            assert(r[j] == updates[j]);
        }
        lemma_updating2_len(r, aux);
        assert(updates.last() == updates[updates.len() - 1]);
    }
}

/// What a series of updates does to one item of the first vector.
proof fn lemma_updating2_first<A0, A1, Op0: AuxOp<A0>, Op1: AuxOp<A1>>(
    updates: Seq<Update2<Op0, Op1>>,
    aux: (Seq<A0>, Seq<A1>),
    x: int,
)
    requires
        0 <= x < aux.0.len(),
        aimed_within2(updates, aux.0.len() as int, aux.1.len() as int),
    ensures
        updates.fold_left(aux, updating2::<A0, A1, Op0, Op1>()).0[x] == apply_ops(
            updates.filter_map(first_at(x)),
            aux.0[x],
        ),
{
    let run = updating2::<A0, A1, Op0, Op1>();
    let ok = |q: (Seq<A0>, Seq<A1>)| q.0.len() == aux.0.len() && q.1.len() == aux.1.len();
    let view = |q: (Seq<A0>, Seq<A1>)| q.0[x];
    assert forall|i: int, q: (Seq<A0>, Seq<A1>)|
        #![trigger run(q, updates[i])]
        0 <= i < updates.len() && ok(q) implies {
        &&& ok(run(q, updates[i]))
        &&& view(run(q, updates[i])) == (match first_at::<Op0, Op1>(x)(updates[i]) {
            Some(y) => applying::<A0, Op0>()(view(q), y),
            None => view(q),
        })
    } by {
        let u = updates[i];
    }
    lemma_fold_component(updates, aux, run, ok, view, first_at(x), applying::<A0, Op0>());
}

/// What a series of updates does to one item of the second vector.
proof fn lemma_updating2_second<A0, A1, Op0: AuxOp<A0>, Op1: AuxOp<A1>>(
    updates: Seq<Update2<Op0, Op1>>,
    aux: (Seq<A0>, Seq<A1>),
    x: int,
)
    requires
        0 <= x < aux.1.len(),
        aimed_within2(updates, aux.0.len() as int, aux.1.len() as int),
    ensures
        updates.fold_left(aux, updating2::<A0, A1, Op0, Op1>()).1[x] == apply_ops(
            updates.filter_map(second_at(x)),
            aux.1[x],
        ),
{
    let run = updating2::<A0, A1, Op0, Op1>();
    let ok = |q: (Seq<A0>, Seq<A1>)| q.0.len() == aux.0.len() && q.1.len() == aux.1.len();
    let view = |q: (Seq<A0>, Seq<A1>)| q.1[x];
    assert forall|i: int, q: (Seq<A0>, Seq<A1>)|
        #![trigger run(q, updates[i])]
        0 <= i < updates.len() && ok(q) implies {
        &&& ok(run(q, updates[i]))
        &&& view(run(q, updates[i])) == (match second_at::<Op0, Op1>(x)(updates[i]) {
            Some(y) => applying::<A1, Op1>()(view(q), y),
            None => view(q),
        })
    } by {
        let u = updates[i];
    }
    lemma_fold_component(updates, aux, run, ok, view, second_at(x), applying::<A1, Op1>());
}

/// A plain loop, seen from single items of the two vectors.
proof fn lemma_loop_after2<T, A0, A1, Op0: AuxOp<A0>, Op1: AuxOp<A1>, F: ItemFn2<T, Op0, Op1>>(
    f: F,
    data: Seq<T>,
    aux: (Seq<A0>, Seq<A1>),
    n: int,
)
    requires
        0 <= n <= data.len(),
        all_accepted2(f, data, aux.0.len() as int, aux.1.len() as int),
    ensures
        loop_after2(f, data, aux, n).0 == Seq::new(
            aux.0.len(),
            |x: int| apply_ops(joined(upto(0, n), updates_of_first(f, data, x)), aux.0[x]),
        ),
        loop_after2(f, data, aux, n).1 == Seq::new(
            aux.1.len(),
            |x: int| apply_ops(joined(upto(0, n), updates_of_second(f, data, x)), aux.1[x]),
        ),
    decreases n,
{
    let first = Seq::new(
        aux.0.len(),
        |x: int| apply_ops(joined(upto(0, n), updates_of_first(f, data, x)), aux.0[x]),
    );
    let second = Seq::new(
        aux.1.len(),
        |x: int| apply_ops(joined(upto(0, n), updates_of_second(f, data, x)), aux.1[x]),
    );
    let result = loop_after2(f, data, aux, n);
    if n == 0 {
        assert(upto(0, 0) =~= Seq::<int>::empty());
    } else {
        let before = loop_after2(f, data, aux, n - 1);
        let updates = f.updates(n - 1, data[n - 1]);
        lemma_loop_after2(f, data, aux, n - 1);
        assert(f.accepts(n - 1, data[n - 1]));
        lemma_updating2_len(updates, before);
        assert(upto(0, n).drop_last() =~= upto(0, n - 1));
        assert forall|x: int| 0 <= x < aux.0.len() implies #[trigger] result.0[x] == first[x] by {
            let g = updates_of_first(f, data, x);
            lemma_updating2_first(updates, before, x);
            lemma_fold_add(joined(upto(0, n - 1), g), g(n - 1), aux.0[x], applying::<A0, Op0>());
        }
        assert forall|x: int| 0 <= x < aux.1.len() implies #[trigger] result.1[x] == second[x] by {
            let g = updates_of_second(f, data, x);
            lemma_updating2_second(updates, before, x);
            lemma_fold_add(joined(upto(0, n - 1), g), g(n - 1), aux.1[x], applying::<A1, Op1>());
        }
    }
    assert(result.0 =~= first);
    assert(result.1 =~= second);
}

/// Updates that commute with those of the other items of the data leave both vectors as a
/// plain loop over the data would.
pub proof fn law_commuting_updates_as_in_a_loop2<
    T,
    A0,
    A1,
    Op0: AuxOp<A0>,
    Op1: AuxOp<A1>,
    F: ItemFn2<T, Op0, Op1>,
>(f: F, data: Seq<T>, aux: (Seq<A0>, Seq<A1>))
    requires
        all_accepted2(f, data, aux.0.len() as int, aux.1.len() as int),
        forall|x: int|
            0 <= x < aux.0.len() ==> all_commute::<A0, Op0>(
                data.len() as int,
                #[trigger] updates_of_first(f, data, x),
            ),
        forall|x: int|
            0 <= x < aux.1.len() ==> all_commute::<A1, Op1>(
                data.len() as int,
                #[trigger] updates_of_second(f, data, x),
            ),
    ensures
        first_after2(f, data, aux.0) == loop_after2(f, data, aux, data.len() as int).0,
        second_after2(f, data, aux.1) == loop_after2(f, data, aux, data.len() as int).1,
{
    let len = data.len() as int;
    let size0 = ceil_div(aux.0.len() as int, ring_len());
    let size1 = ceil_div(aux.1.len() as int, ring_len());
    let looped = loop_after2(f, data, aux, len);
    lemma_loop_after2(f, data, aux, len);
    assert forall|x: int| 0 <= x < aux.0.len() implies #[trigger] first_after2(
        f,
        data,
        aux.0,
    )[x] == looped.0[x] by {
        lemma_item_part(aux.0, x);
        law_commuting_ops_as_in_a_loop(len, x / size0, updates_of_first(f, data, x), aux.0[x]);
    }
    assert forall|x: int| 0 <= x < aux.1.len() implies #[trigger] second_after2(
        f,
        data,
        aux.1,
    )[x] == looped.1[x] by {
        lemma_item_part(aux.1, x);
        law_commuting_ops_as_in_a_loop(len, x / size1, updates_of_second(f, data, x), aux.1[x]);
    }
    assert(first_after2(f, data, aux.0) =~= looped.0);
    assert(second_after2(f, data, aux.1) =~= looped.1);
}

/// Data too short to be divided leaves both vectors as a plain loop would.
pub proof fn law_short_inputs_as_in_a_loop2<
    T,
    A0,
    A1,
    Op0: AuxOp<A0>,
    Op1: AuxOp<A1>,
    F: ItemFn2<T, Op0, Op1>,
>(f: F, data: Seq<T>, aux: (Seq<A0>, Seq<A1>))
    requires
        all_accepted2(f, data, aux.0.len() as int, aux.1.len() as int),
        undivided(data.len() as int),
    ensures
        first_after2(f, data, aux.0) == loop_after2(f, data, aux, data.len() as int).0,
        second_after2(f, data, aux.1) == loop_after2(f, data, aux, data.len() as int).1,
{
    let len = data.len() as int;
    let size0 = ceil_div(aux.0.len() as int, ring_len());
    let size1 = ceil_div(aux.1.len() as int, ring_len());
    let looped = loop_after2(f, data, aux, len);
    lemma_loop_after2(f, data, aux, len);
    assert forall|x: int| 0 <= x < aux.0.len() implies #[trigger] first_after2(
        f,
        data,
        aux.0,
    )[x] == looped.0[x] by {
        law_short_inputs_keep_their_order(len, x / size0);
    }
    assert forall|x: int| 0 <= x < aux.1.len() implies #[trigger] second_after2(
        f,
        data,
        aux.1,
    )[x] == looped.1[x] by {
        law_short_inputs_keep_their_order(len, x / size1);
    }
    assert(first_after2(f, data, aux.0) =~= looped.0);
    assert(second_after2(f, data, aux.1) =~= looped.1);
}

/// An item of the first vector that only the item at `i` of the data updates ends up as these
/// updates leave it, in the order in which they were deferred.
pub proof fn law_updates_of_one_item_first2<
    T,
    A0,
    Op0: AuxOp<A0>,
    Op1,
    F: ItemFn2<T, Op0, Op1>,
>(f: F, data: Seq<T>, aux: Seq<A0>, x: int, i: int)
    requires
        0 <= x < aux.len(),
        0 <= i < data.len(),
        forall|j: int|
            0 <= j < data.len() && j != i ==> #[trigger] updates_of_first(f, data, x)(j)
                == Seq::<Op0>::empty(),
    ensures
        first_after2(f, data, aux)[x] == apply_ops(updates_of_first(f, data, x)(i), aux[x]),
{
    let c = x / ceil_div(aux.len() as int, ring_len());
    let order = application_order(data.len() as int, c);
    lemma_item_part(aux, x);
    law_every_item_has_one_turn(data.len() as int, c);
    assert(order.contains(i));
    lemma_joined_single(order, updates_of_first(f, data, x), i);
}

/// An item of the first vector that nothing updates stays as it is.
pub proof fn law_no_updates_first2<
    T,
    A0,
    Op0: AuxOp<A0>,
    Op1,
    F: ItemFn2<T, Op0, Op1>,
>(f: F, data: Seq<T>, aux: Seq<A0>, x: int)
    requires
        0 <= x < aux.len(),
        forall|j: int|
            0 <= j < data.len() ==> #[trigger] updates_of_first(f, data, x)(j) == Seq::<
                Op0,
            >::empty(),
    ensures
        first_after2(f, data, aux)[x] == aux[x],
{
    let c = x / ceil_div(aux.len() as int, ring_len());
    let order = application_order(data.len() as int, c);
    lemma_item_part(aux, x);
    law_every_item_has_one_turn(data.len() as int, c);
    assert(!order.contains(-1));
    lemma_joined_single(order, updates_of_first(f, data, x), -1);
}

/// An item of the second vector that only the item at `i` of the data updates ends up as these
/// updates leave it, in the order in which they were deferred.
pub proof fn law_updates_of_one_item_second2<
    T,
    A1,
    Op0,
    Op1: AuxOp<A1>,
    F: ItemFn2<T, Op0, Op1>,
>(f: F, data: Seq<T>, aux: Seq<A1>, x: int, i: int)
    requires
        0 <= x < aux.len(),
        0 <= i < data.len(),
        forall|j: int|
            0 <= j < data.len() && j != i ==> #[trigger] updates_of_second(f, data, x)(j)
                == Seq::<Op1>::empty(),
    ensures
        second_after2(f, data, aux)[x] == apply_ops(updates_of_second(f, data, x)(i), aux[x]),
{
    let c = x / ceil_div(aux.len() as int, ring_len());
    let order = application_order(data.len() as int, c);
    lemma_item_part(aux, x);
    law_every_item_has_one_turn(data.len() as int, c);
    assert(order.contains(i));
    lemma_joined_single(order, updates_of_second(f, data, x), i);
}

/// An item of the second vector that nothing updates stays as it is.
pub proof fn law_no_updates_second2<
    T,
    A1,
    Op0,
    Op1: AuxOp<A1>,
    F: ItemFn2<T, Op0, Op1>,
>(f: F, data: Seq<T>, aux: Seq<A1>, x: int)
    requires
        0 <= x < aux.len(),
        forall|j: int|
            0 <= j < data.len() ==> #[trigger] updates_of_second(f, data, x)(j) == Seq::<
                Op1,
            >::empty(),
    ensures
        second_after2(f, data, aux)[x] == aux[x],
{
    let c = x / ceil_div(aux.len() as int, ring_len());
    let order = application_order(data.len() as int, c);
    lemma_item_part(aux, x);
    law_every_item_has_one_turn(data.len() as int, c);
    assert(!order.contains(-1));
    lemma_joined_single(order, updates_of_second(f, data, x), -1);
}

} // verus!
