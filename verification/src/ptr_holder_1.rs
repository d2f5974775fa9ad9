//! One auxiliary vector.
use vstd::prelude::*;

use crate::aux_op::{all_commute, apply_ops, applying, law_commuting_ops_as_in_a_loop, AuxOp};
use crate::chunk_processor::BatchFn;
use crate::chunks::{ceil_div, chunk_size, lemma_ceil_div};
use crate::machine::held_with;
use crate::mypool3::{all_accepted, is_batch, job_of, lemma_is_batch, task_accepted, MAX_THREADS};
use crate::order::{
    application_order, itemwise, law_every_item_has_one_turn, law_short_inputs_keep_their_order,
    lemma_data_after, lemma_tasks_run,
};
use crate::parts::{lemma_item_part, lemma_part_index, part_of};
use crate::ring::ring_len;
use crate::schedule::{on_channel, undivided};
use crate::scheduler::{
    lemma_held_with_add, lemma_held_with_nothing, lemma_held_with_push, running, Addressed,
    AuxHolder, AuxScheduler, AuxTask,
};
use crate::seqs::{
    joined, lemma_fold_add, lemma_fold_component, lemma_joined_from, lemma_joined_pick,
    lemma_joined_shift, lemma_joined_single, lemma_pick_from, lemma_pick_mapped, lemma_pick_pick,
    lemma_pick_same, pick_both, upto,
};

verus! {

/// How an auxiliary vector is divided into channels: the number of its items, and the number
/// of items in each channel but the last.
#[derive(Clone, Copy)]
pub struct PtrHolder1 {
    len: usize,
    chunksize: usize,
}

impl AuxHolder for PtrHolder1 {
    fn cheap_copy(&self) -> (copy: Self) {
        PtrHolder1 { len: self.len, chunksize: self.chunksize }
    }
}

impl PtrHolder1 {
    pub closed spec fn len(self) -> int {
        self.len as int
    }

    pub closed spec fn chunksize(self) -> int {
        self.chunksize as int
    }

    /// There is a channel for every item.
    pub open spec fn wf(self) -> bool {
        self.chunksize() == ceil_div(self.len(), ring_len())
    }

    /// The channel of the item at `index`.
    pub open spec fn channel(self, index: int) -> int {
        index / self.chunksize()
    }

    /// Where the item at `index` lies within the part of its channel.
    pub open spec fn place(self, index: int) -> int {
        index % self.chunksize()
    }

    /// The division of `input` for the given number of threads.
    pub fn new<T>(input: &[T], thread_count: usize) -> (holder: PtrHolder1)
        requires
            thread_count > 0,
        ensures
            holder.len() == input@.len(),
            holder.chunksize() == ceil_div(input@.len() as int, thread_count as int),
    {
        PtrHolder1 { len: input.len(), chunksize: chunk_size(input.len(), thread_count) }
    }

    /// The number of items in each channel but the last.
    pub fn size(&self) -> (size: usize)
        ensures
            size == self.chunksize(),
    {
        self.chunksize
    }

    /// The item at `index`, in the part of its channel.
    pub fn get0<'p, T>(&self, aux: &'p mut Vec<T>, index: usize) -> (item: &'p mut T)
        requires
            self.chunksize() > 0,
            self.place(index as int) < old(aux)@.len(),
        ensures
            *item == old(aux)@[self.place(index as int)],
            final(aux)@ == old(aux)@.update(self.place(index as int), *final(item)),
    {
        &mut aux[index % self.chunksize]
    }

    pub proof fn lemma_channel(self, index: int)
        requires
            self.wf(),
            0 <= index < self.len(),
        ensures
            self.chunksize() > 0,
            0 <= self.channel(index) < MAX_THREADS,
    {
        let s = Seq::new(self.len() as nat, |i: int| i);
        lemma_item_part(s, index);
    }

    /// Defers an update of the item at `index`.
    fn schedule0<Op>(
        &self,
        ctx: &mut AuxScheduler<PtrHolder1, Task1<Op>>,
        index: usize,
        f: Op,
    )
        requires
            self.wf(),
            index < self.len(),
            old(ctx).wf(),
            old(ctx).holder() == *self,
        ensures
            final(ctx).wf(),
            final(ctx).holder() == old(ctx).holder(),
            0 <= self.channel(index as int) < MAX_THREADS,
            final(ctx).held() == old(ctx).held().update(
                self.channel(index as int),
                old(ctx).held()[self.channel(index as int)].push(
                    Task1 { holder: *self, index, op: f },
                ),
            ),
    {
        proof {
            self.lemma_channel(index as int);
        }
        ctx.schedule(
            (index / self.chunksize) as u32,
            Task1 { holder: *self, index, op: f },
        );
    }
}

/// A deferred update of the item at `index`.
pub struct Task1<Op> {
    pub holder: PtrHolder1,
    pub index: usize,
    pub op: Op,
}

impl<Op> Addressed<PtrHolder1> for Task1<Op> {
    open spec fn belongs(&self, aux: PtrHolder1, channel: int) -> bool {
        &&& self.holder == aux
        &&& self.index < aux.len()
        &&& channel == aux.channel(self.index as int)
    }
}

impl<A0, Op: AuxOp<A0>> AuxTask<Vec<A0>> for Task1<Op> {
    open spec fn fits(&self, part: Seq<A0>) -> bool {
        &&& self.holder.chunksize() > 0
        &&& self.holder.place(self.index as int) < part.len()
    }

    open spec fn applied(&self, part: Seq<A0>) -> Seq<A0> {
        part.update(
            self.holder.place(self.index as int),
            self.op.applied(part[self.holder.place(self.index as int)]),
        )
    }

    proof fn fits_kept(&self, by: &Self, part: Seq<A0>) {
    }

    fn run(self, part: &mut Vec<A0>) {
        let holder: PtrHolder1 = self.holder;
        let item = holder.get0(part, self.index);
        self.op.apply(item);
    }
}

/// What the function that visits an item schedules its updates with.
pub struct Context1<'b, Op> {
    pub ptr_holder: &'b mut AuxScheduler<PtrHolder1, Task1<Op>>,
}

impl<'b, Op> Context1<'b, Op> {
    /// Defers an update of the auxiliary item at `index`.
    pub fn schedule(&mut self, index: usize, f: Op)
        requires
            old(self).ptr_holder.wf(),
            old(self).ptr_holder.holder().wf(),
            index < old(self).ptr_holder.holder().len(),
        ensures
            final(self).ptr_holder.wf(),
            final(self).ptr_holder.holder() == old(self).ptr_holder.holder(),
            0 <= old(self).ptr_holder.holder().channel(index as int) < MAX_THREADS,
            final(self).ptr_holder.held() == old(self).ptr_holder.held().update(
                old(self).ptr_holder.holder().channel(index as int),
                old(self).ptr_holder.held()[old(self).ptr_holder.holder().channel(
                    index as int,
                )].push(Task1 { holder: old(self).ptr_holder.holder(), index, op: f }),
            ),
            *final(final(self).ptr_holder) == *final(old(self).ptr_holder),
    {
        let holder: PtrHolder1 = self.ptr_holder.get_ah();
        holder.schedule0(self.ptr_holder, index, f);
    }
}

/// The tasks, with their channels, that stand for the given updates.
pub open spec fn tagged1<Op>(holder: PtrHolder1, updates: Seq<(usize, Op)>) -> Seq<
    (u32, Task1<Op>),
> {
    updates.map_values(
        |u: (usize, Op)|
            (
                holder.channel(u.0 as int) as u32,
                Task1 { holder, index: u.0, op: u.1 },
            ),
    )
}

/// Deferring one more update.
pub proof fn lemma_tagged1_push<Op>(
    holder: PtrHolder1,
    held: Seq<Seq<Task1<Op>>>,
    updates: Seq<(usize, Op)>,
    index: usize,
    op: Op,
)
    requires
        held.len() == MAX_THREADS,
        0 <= holder.channel(index as int) < MAX_THREADS,
    ensures
        ({
            let c = holder.channel(index as int);
            let before = held_with(held, tagged1(holder, updates));
            held_with(held, tagged1(holder, updates.push((index, op)))) == before.update(
                c,
                before[c].push(Task1 { holder, index, op }),
            )
        }),
{
    let c = holder.channel(index as int) as u32;
    assert(tagged1(holder, updates.push((index, op))) =~= tagged1(holder, updates).push(
        (c, Task1 { holder, index, op }),
    ));
    lemma_held_with_push(held, tagged1(holder, updates), c, Task1 { holder, index, op });
}

/// What is done with each item of the data: it may be changed, and updates of auxiliary items
/// may be deferred.
pub trait ItemFn1<T, Op> {
    /// The item at `idx` may be visited.
    spec fn accepts(&self, idx: int, item: T) -> bool;

    /// What the visit makes of the item.
    spec fn item_after(&self, idx: int, item: T) -> T;

    /// The updates that the visit defers, each with the index of its auxiliary item, in order.
    spec fn updates(&self, idx: int, item: T) -> Seq<(usize, Op)>;

    fn call(&self, idx: usize, item: &mut T, ctx: Context1<'_, Op>)
        requires
            self.accepts(idx as int, *old(item)),
            old(ctx.ptr_holder).wf(),
            old(ctx.ptr_holder).holder().wf(),
            aimed_within(
                self.updates(idx as int, *old(item)),
                old(ctx.ptr_holder).holder().len(),
            ),
        ensures
            *final(item) == self.item_after(idx as int, *old(item)),
            final(ctx.ptr_holder).holder() == old(ctx.ptr_holder).holder(),
            final(ctx.ptr_holder).held() == held_with(
                old(ctx.ptr_holder).held(),
                tagged1(
                    old(ctx.ptr_holder).holder(),
                    self.updates(idx as int, *old(item)),
                ),
            ),
    ;
}

/// The updates are of items that an auxiliary vector of `len` items has.
pub open spec fn aimed_within<Op>(updates: Seq<(usize, Op)>, len: int) -> bool {
    forall|j: int| 0 <= j < updates.len() ==> (#[trigger] updates[j]).0 < len
}

/// A visit of a stretch of the data, item by item.
pub struct ItemBatch1<'f, F> {
    pub f: &'f F,
}

impl<'f, F> ItemBatch1<'f, F> {
    /// The tasks that the item at position `i` of a stretch schedules.
    pub open spec fn tasks_at<T, Op>(
        self,
        aux: PtrHolder1,
        offset: int,
        items: Seq<T>,
    ) -> spec_fn(int) -> Seq<(u32, Task1<Op>)> where F: ItemFn1<T, Op> {
        |i: int| tagged1(aux, self.f.updates(offset + i, items[i]))
    }
}

impl<'f, T, Op, F: ItemFn1<T, Op>> BatchFn<T, PtrHolder1, Task1<Op>> for ItemBatch1<'f, F> {
    open spec fn accepts(&self, aux: PtrHolder1, offset: int, items: Seq<T>) -> bool {
        &&& aux.wf()
        &&& forall|i: int|
            0 <= i < items.len() ==> {
                &&& self.f.accepts(offset + i, #[trigger] items[i])
                &&& aimed_within(self.f.updates(offset + i, items[i]), aux.len())
            }
    }

    open spec fn items_after(&self, offset: int, items: Seq<T>) -> Seq<T> {
        Seq::new(items.len(), |i: int| self.f.item_after(offset + i, items[i]))
    }

    open spec fn tasks(&self, aux: PtrHolder1, offset: int, items: Seq<T>) -> Seq<
        (u32, Task1<Op>),
    > {
        joined(upto(0, items.len() as int), self.tasks_at(aux, offset, items))
    }

    proof fn keeps_len(&self, offset: int, items: Seq<T>) {
    }

    fn call(&self, offset: usize, items: &mut [T], ctx: &mut AuxScheduler<PtrHolder1, Task1<Op>>) {
        let ghost items0 = items@;
        let ghost held0 = ctx.held();
        let ghost aux = ctx.holder();
        let ghost tasks_at = self.tasks_at::<T, Op>(aux, offset as int, items0);
        let n: usize = items.len();
        let mut i: usize = 0;
        proof {
            assert(upto(0, 0) =~= Seq::<int>::empty());
            lemma_held_with_nothing(held0);
        }
        while i < n
            invariant
                i <= n,
                n == items0.len(),
                items@.len() == n,
                offset + n <= usize::MAX,
                ctx.wf(),
                ctx.holder() == aux,
                aux.wf(),
                tasks_at == self.tasks_at::<T, Op>(aux, offset as int, items0),
                self.accepts(aux, offset as int, items0),
                ctx.held() == held_with(held0, joined(upto(0, i as int), tasks_at)),
                held0.len() == MAX_THREADS,
                forall|j: int|
                    0 <= j < i ==> #[trigger] items@[j] == self.f.item_after(
                        offset + j,
                        items0[j],
                    ),
                forall|j: int| i <= j < n ==> #[trigger] items@[j] == items0[j],
            decreases n - i,
        {
            assert(items@[i as int] == items0[i as int]);
            let item = &mut items[i];
            let context = Context1 { ptr_holder: &mut *ctx };
            self.f.call(offset + i, item, context);
            proof {
                assert(upto(0, i + 1).drop_last() =~= upto(0, i as int));
                lemma_held_with_add(
                    held0,
                    joined(upto(0, i as int), tasks_at),
                    tasks_at(i as int),
                );
            }
            i = i + 1;
        }
        assert(items@ =~= self.items_after(offset as int, items0));
    }
}

/// Selects the updates of the auxiliary item at `x`.
pub open spec fn aimed_at<Op>(x: int) -> spec_fn((usize, Op)) -> Option<Op> {
    |u: (usize, Op)|
        if u.0 == x {
            Some(u.1)
        } else {
            None
        }
}

/// The updates of the auxiliary item at `x` that each item of the data defers.
pub open spec fn updates_of<T, Op, F: ItemFn1<T, Op>>(f: F, data: Seq<T>, x: int) -> spec_fn(
    int,
) -> Seq<Op> {
    |i: int| f.updates(i, data[i]).filter_map(aimed_at(x))
}

/// The data after every item has been visited.
pub open spec fn data_after1<T, Op, F: ItemFn1<T, Op>>(f: F, data: Seq<T>) -> Seq<T> {
    Seq::new(data.len(), |i: int| f.item_after(i, data[i]))
}

/// The auxiliary vector after all the updates, in the order of the channels of its items.
pub open spec fn aux_after1<T, A0, Op: AuxOp<A0>, F: ItemFn1<T, Op>>(
    f: F,
    data: Seq<T>,
    aux: Seq<A0>,
) -> Seq<A0> {
    Seq::new(
        aux.len(),
        |x: int|
            apply_ops(
                joined(
                    application_order(
                        data.len() as int,
                        x / ceil_div(aux.len() as int, ring_len()),
                    ),
                    updates_of(f, data, x),
                ),
                aux[x],
            ),
    )
}

/// Every item may be visited, and its updates are of items that the auxiliary vector has.
pub open spec fn all_accepted1<T, Op, F: ItemFn1<T, Op>>(f: F, data: Seq<T>, len: int) -> bool {
    forall|i: int|
        0 <= i < data.len() ==> {
            &&& f.accepts(i, #[trigger] data[i])
            &&& aimed_within(f.updates(i, data[i]), len)
        }
}

/// The tasks of each item of the data.
spec fn item_tasks1<T, Op, F: ItemFn1<T, Op>>(f: F, holder: PtrHolder1, data: Seq<T>) -> spec_fn(
    int,
) -> Seq<(u32, Task1<Op>)> {
    |i: int| tagged1(holder, f.updates(i, data[i]))
}

proof fn lemma_itemwise1<T, Op, F: ItemFn1<T, Op>>(f: &F, holder: PtrHolder1, data: Seq<T>)
    ensures
        itemwise(
            job_of(ItemBatch1 { f }, holder, data),
            |i: int| f.item_after(i, data[i]),
            item_tasks1(*f, holder, data),
        ),
{
    let batch = ItemBatch1 { f };
    let job = job_of(batch, holder, data);
    let after = |i: int| f.item_after(i, data[i]);
    let tasks = item_tasks1(*f, holder, data);
    assert forall|a: int, b: int|
        #![trigger job.data.subrange(a, b)]
        0 <= a <= b <= job.len() implies {
        &&& (job.after)(a, job.data.subrange(a, b)) == Seq::new(
            (b - a) as nat,
            |i: int| after(a + i),
        )
        &&& (job.tasks)(a, job.data.subrange(a, b)) == joined(upto(a, b), tasks)
    } by {
        let sub = data.subrange(a, b);
        assert((job.after)(a, sub) =~= Seq::new((b - a) as nat, |i: int| after(a + i)));
        lemma_joined_shift(a, b, batch.tasks_at::<T, Op>(holder, a, sub), tasks);
    }
}

/// Every stretch of acceptable items is acceptable, and so are its tasks.
pub proof fn lemma_all_accepted1<T, A0, Op: AuxOp<A0>, F: ItemFn1<T, Op>>(
    f: &F,
    holder: PtrHolder1,
    data: Seq<T>,
    aux: Seq<A0>,
    parts: Seq<Vec<A0>>,
)
    requires
        holder.wf(),
        holder.len() == aux.len(),
        parts.len() == ring_len(),
        forall|c: int|
            0 <= c < ring_len() ==> (#[trigger] parts[c])@ == part_of(
                aux,
                holder.chunksize(),
                c,
            ),
        all_accepted1(*f, data, aux.len() as int),
    ensures
        all_accepted(ItemBatch1 { f }, holder, data, parts),
{
    let batch = ItemBatch1 { f };
    let len = data.len() as int;
    assert forall|a: int, b: int| #[trigger] is_batch(len, a, b) implies {
        let ts = batch.tasks(holder, a, data.subrange(a, b));
        &&& batch.accepts(holder, a, data.subrange(a, b))
        &&& forall|i: int|
            0 <= i < ts.len() ==> task_accepted(#[trigger] ts[i], holder, parts)
    } by {
        let sub = data.subrange(a, b);
        let ts = batch.tasks(holder, a, sub);
        lemma_is_batch(len, a, b);
        assert forall|i: int| 0 <= i < sub.len() implies {
            &&& f.accepts(a + i, #[trigger] sub[i])
            &&& aimed_within(f.updates(a + i, sub[i]), holder.len())
        } by {
            assert(sub[i] == data[a + i]);
        }
        assert forall|m: int|
            0 <= m < ts.len() implies task_accepted(#[trigger] ts[m], holder, parts) by {
            let g = batch.tasks_at::<T, Op>(holder, a, sub);
            let (i, p) = lemma_joined_from(upto(0, sub.len() as int), g, m);
            let u = f.updates(a + i, sub[i]);
            assert(sub[i] == data[a + i]);
            assert(g(i)[p].1.index == u[p].0);
            lemma_item_part(aux, u[p].0 as int);
        }
    }
}

/// Selects the updates of the item at `place` of a part.
spec fn at_place1<Op>(place: int) -> spec_fn(Task1<Op>) -> Option<Op> {
    |t: Task1<Op>|
        if t.holder.place(t.index as int) == place {
            Some(t.op)
        } else {
            None
        }
}

/// What the tasks of a channel do to one item of its part.
proof fn lemma_part_item1<A0, Op: AuxOp<A0>>(ts: Seq<Task1<Op>>, part: Seq<A0>, place: int)
    requires
        0 <= place < part.len(),
        forall|i: int| 0 <= i < ts.len() ==> (#[trigger] ts[i]).fits(part),
    ensures
        ts.fold_left(part, running::<Vec<A0>, Task1<Op>>()).len() == part.len(),
        ts.fold_left(part, running::<Vec<A0>, Task1<Op>>())[place] == apply_ops(
            ts.filter_map(at_place1(place)),
            part[place],
        ),
{
    let run = running::<Vec<A0>, Task1<Op>>();
    let ok = |q: Seq<A0>| q.len() == part.len();
    let view = |q: Seq<A0>| q[place];
    assert forall|i: int, q: Seq<A0>|
        #![trigger run(q, ts[i])]
        0 <= i < ts.len() && ok(q) implies {
        &&& ok(run(q, ts[i]))
        &&& view(run(q, ts[i])) == (match at_place1(place)(ts[i]) {
            Some(y) => applying::<A0, Op>()(view(q), y),
            None => view(q),
        })
    } by {
        assert(ts[i].fits(part));
        assert(ts[i].holder.place(ts[i].index as int) >= 0);
    }
    lemma_fold_component(ts, part, run, ok, view, at_place1(place), applying::<A0, Op>());
}

proof fn lemma_len_kept1<A0, Op: AuxOp<A0>>(ts: Seq<Task1<Op>>, part: Seq<A0>)
    requires
        forall|i: int| 0 <= i < ts.len() ==> (#[trigger] ts[i]).fits(part),
    ensures
        ts.fold_left(part, running::<Vec<A0>, Task1<Op>>()).len() == part.len(),
    decreases ts.len(),
{
    if ts.len() > 0 {
        let r = ts.drop_last();
        assert forall|i: int| 0 <= i < r.len() implies (#[trigger] r[i]).fits(part) by {
            assert(r[i] == ts[i]);
        }
        lemma_len_kept1(r, part);
        assert(ts[ts.len() - 1].fits(part));
        assert(ts.last().holder.place(ts.last().index as int) >= 0);
    }
}

/// The part of a channel at the end of a run.
pub proof fn lemma_part_after1<T, A0, Op: AuxOp<A0>, F: ItemFn1<T, Op>>(
    f: &F,
    holder: PtrHolder1,
    data: Seq<T>,
    aux: Seq<A0>,
    c: int,
)
    requires
        holder.wf(),
        holder.len() == aux.len(),
        all_accepted1(*f, data, aux.len() as int),
        0 <= c < ring_len(),
    ensures
        job_of(ItemBatch1 { f }, holder, data).tasks_run(c).fold_left(
            part_of(aux, holder.chunksize(), c),
            running::<Vec<A0>, Task1<Op>>(),
        ) == part_of(aux_after1(*f, data, aux), holder.chunksize(), c),
{
    let batch = ItemBatch1 { f };
    let job = job_of(batch, holder, data);
    let n = data.len() as int;
    let size = holder.chunksize();
    let part = part_of(aux, size, c);
    let order = application_order(n, c);
    let tasks = item_tasks1(*f, holder, data);
    let run = running::<Vec<A0>, Task1<Op>>();
    let ts = job.tasks_run(c);
    let result = ts.fold_left(part, run);
    let expected = part_of(aux_after1(*f, data, aux), size, c);
    lemma_itemwise1(f, holder, data);
    lemma_tasks_run(job, |i: int| f.item_after(i, data[i]), tasks, c);
    lemma_ceil_div(aux.len() as int, ring_len());
    law_every_item_has_one_turn(n, c);
    assert(ts == joined(order, tasks).filter_map(on_channel(c)));
    assert forall|m: int| 0 <= m < ts.len() implies (#[trigger] ts[m]).fits(part) by {
        assert(ts.contains(ts[m]));
        let q = lemma_pick_from(joined(order, tasks), on_channel(c), ts[m]);
        let (i, p) = lemma_joined_from(order, tasks, q);
        let u = f.updates(i, data[i]);
        assert(data[i] == data[i] && 0 <= i < n);
        assert(tasks(i)[p].1.index == u[p].0);
        lemma_item_part(aux, u[p].0 as int);
    }
    lemma_len_kept1(ts, part);
    assert(0 <= c * size <= (c + 1) * size) by (nonlinear_arith)
        requires
            0 <= c,
            size >= 0,
    ;
    assert forall|place: int| 0 <= place < part.len() implies result[place]
        == expected[place] by {
        let x = c * size + place;
        lemma_part_index(x, size, c);
        lemma_part_item1(ts, part, place);
        let both = pick_both(on_channel::<Task1<Op>>(c), at_place1::<Op>(place));
        lemma_pick_pick(joined(order, tasks), on_channel(c), at_place1(place));
        let h = updates_of(*f, data, x);
        assert forall|i: int| order.contains(i) implies tasks(i).filter_map(both)
            == #[trigger] h(i) by {
            let updates = f.updates(i, data[i]);
            let tag = |u: (usize, Op)|
                (holder.channel(u.0 as int) as u32, Task1 { holder, index: u.0, op: u.1 });
            assert(0 <= i < n && data[i] == data[i]);
            lemma_pick_mapped(updates, tag, both);
            assert forall|j: int| 0 <= j < updates.len() implies both(tag(#[trigger] updates[j]))
                == aimed_at::<Op>(x)(updates[j]) by {
                lemma_item_part(aux, updates[j].0 as int);
            }
            lemma_pick_same(updates, |u: (usize, Op)| both(tag(u)), aimed_at::<Op>(x));
        }
        lemma_joined_pick(order, tasks, h, both);
        assert(part[place] == aux[x]);
    }
    assert(result =~= expected);
}

/// The data at the end of a run.
pub proof fn lemma_data_after1<T, Op, F: ItemFn1<T, Op>>(f: &F, holder: PtrHolder1, data: Seq<T>)
    ensures
        job_of(ItemBatch1 { f }, holder, data).data_after() == data_after1(*f, data),
{
    lemma_itemwise1(f, holder, data);
    lemma_data_after(
        job_of(ItemBatch1 { f }, holder, data),
        |i: int| f.item_after(i, data[i]),
        item_tasks1(*f, holder, data),
    );
    assert(data_after1(*f, data) =~= Seq::new(
        data.len(),
        |i: int| (|j: int| f.item_after(j, data[j]))(i),
    ));
}

/// The effect of an update, with its index, on the whole auxiliary vector.
pub open spec fn updating1<A0, Op: AuxOp<A0>>() -> spec_fn(Seq<A0>, (usize, Op)) -> Seq<A0> {
    |aux: Seq<A0>, u: (usize, Op)| aux.update(u.0 as int, u.1.applied(aux[u.0 as int]))
}

/// The auxiliary vector after a plain loop over the first `n` items of the data, in which
/// each update is applied at once.
pub open spec fn loop_after1<T, A0, Op: AuxOp<A0>, F: ItemFn1<T, Op>>(
    f: F,
    data: Seq<T>,
    aux: Seq<A0>,
    n: int,
) -> Seq<A0>
    decreases n,
{
    if n <= 0 {
        aux
    } else {
        f.updates(n - 1, data[n - 1]).fold_left(
            loop_after1(f, data, aux, n - 1),
            updating1::<A0, Op>(),
        )
    }
}

/// What a series of updates does to one item.
proof fn lemma_updating1<A0, Op: AuxOp<A0>>(updates: Seq<(usize, Op)>, aux: Seq<A0>, x: int)
    requires
        0 <= x < aux.len(),
        aimed_within(updates, aux.len() as int),
    ensures
        updates.fold_left(aux, updating1::<A0, Op>()).len() == aux.len(),
        updates.fold_left(aux, updating1::<A0, Op>())[x] == apply_ops(
            updates.filter_map(aimed_at(x)),
            aux[x],
        ),
{
    let run = updating1::<A0, Op>();
    let ok = |q: Seq<A0>| q.len() == aux.len();
    let view = |q: Seq<A0>| q[x];
    assert forall|i: int, q: Seq<A0>|
        #![trigger run(q, updates[i])]
        0 <= i < updates.len() && ok(q) implies {
        &&& ok(run(q, updates[i]))
        &&& view(run(q, updates[i])) == (match aimed_at::<Op>(x)(updates[i]) {
            Some(y) => applying::<A0, Op>()(view(q), y),
            None => view(q),
        })
    } by {
        assert(updates[i].0 < aux.len());
    }
    lemma_fold_component(updates, aux, run, ok, view, aimed_at(x), applying::<A0, Op>());
}

proof fn lemma_updating1_len<A0, Op: AuxOp<A0>>(updates: Seq<(usize, Op)>, aux: Seq<A0>)
    requires
        aimed_within(updates, aux.len() as int),
    ensures
        updates.fold_left(aux, updating1::<A0, Op>()).len() == aux.len(),
    decreases updates.len(),
{
    if updates.len() > 0 {
        let r = updates.drop_last();
        assert forall|j: int| 0 <= j < r.len() implies (#[trigger] r[j]).0 < aux.len() by {
            assert(r[j] == updates[j]);
        }
        lemma_updating1_len(r, aux);
        assert(updates[updates.len() - 1].0 < aux.len());
    }
}

/// A plain loop, seen from one auxiliary item.
proof fn lemma_loop_after1<T, A0, Op: AuxOp<A0>, F: ItemFn1<T, Op>>(
    f: F,
    data: Seq<T>,
    aux: Seq<A0>,
    n: int,
)
    requires
        0 <= n <= data.len(),
        all_accepted1(f, data, aux.len() as int),
    ensures
        loop_after1(f, data, aux, n) == Seq::new(
            aux.len(),
            |x: int| apply_ops(joined(upto(0, n), updates_of(f, data, x)), aux[x]),
        ),
    decreases n,
{
    let expected = Seq::new(
        aux.len(),
        |x: int| apply_ops(joined(upto(0, n), updates_of(f, data, x)), aux[x]),
    );
    let result = loop_after1(f, data, aux, n);
    if n == 0 {
        assert(upto(0, 0) =~= Seq::<int>::empty());
    } else {
        let before = loop_after1(f, data, aux, n - 1);
        let updates = f.updates(n - 1, data[n - 1]);
        lemma_loop_after1(f, data, aux, n - 1);
        assert(f.accepts(n - 1, data[n - 1]));
        lemma_updating1_len(updates, before);
        assert(upto(0, n).drop_last() =~= upto(0, n - 1));
        assert forall|x: int| 0 <= x < aux.len() implies #[trigger] result[x] == expected[x] by {
            let g = updates_of(f, data, x);
            lemma_updating1(updates, before, x);
            lemma_fold_add(joined(upto(0, n - 1), g), g(n - 1), aux[x], applying::<A0, Op>());
        }
    }
    assert(result =~= expected);
}

/// Updates that commute with those of the other items of the data leave the auxiliary vector
/// as a plain loop over the data would.
pub proof fn law_commuting_updates_as_in_a_loop1<T, A0, Op: AuxOp<A0>, F: ItemFn1<T, Op>>(
    f: F,
    data: Seq<T>,
    aux: Seq<A0>,
)
    requires
        all_accepted1(f, data, aux.len() as int),
        forall|x: int|
            0 <= x < aux.len() ==> all_commute::<A0, Op>(
                data.len() as int,
                #[trigger] updates_of(f, data, x),
            ),
    ensures
        aux_after1(f, data, aux) == loop_after1(f, data, aux, data.len() as int),
{
    let len = data.len() as int;
    let size = ceil_div(aux.len() as int, ring_len());
    lemma_loop_after1(f, data, aux, len);
    assert forall|x: int| 0 <= x < aux.len() implies #[trigger] aux_after1(f, data, aux)[x]
        == loop_after1(f, data, aux, len)[x] by {
        lemma_item_part(aux, x);
        law_commuting_ops_as_in_a_loop(len, x / size, updates_of(f, data, x), aux[x]);
    }
    assert(aux_after1(f, data, aux) =~= loop_after1(f, data, aux, len));
}

/// Data too short to be divided leaves the auxiliary vector as a plain loop would.
pub proof fn law_short_inputs_as_in_a_loop1<T, A0, Op: AuxOp<A0>, F: ItemFn1<T, Op>>(
    f: F,
    data: Seq<T>,
    aux: Seq<A0>,
)
    requires
        all_accepted1(f, data, aux.len() as int),
        undivided(data.len() as int),
    ensures
        aux_after1(f, data, aux) == loop_after1(f, data, aux, data.len() as int),
{
    let len = data.len() as int;
    let size = ceil_div(aux.len() as int, ring_len());
    lemma_loop_after1(f, data, aux, len);
    assert forall|x: int| 0 <= x < aux.len() implies #[trigger] aux_after1(f, data, aux)[x]
        == loop_after1(f, data, aux, len)[x] by {
        law_short_inputs_keep_their_order(len, x / size);
    }
    assert(aux_after1(f, data, aux) =~= loop_after1(f, data, aux, len));
}

/// An auxiliary item that only the item at `i` of the data updates ends up as these updates
/// leave it, in the order in which they were deferred.
pub proof fn law_updates_of_one_item1<T, A0, Op: AuxOp<A0>, F: ItemFn1<T, Op>>(
    f: F,
    data: Seq<T>,
    aux: Seq<A0>,
    x: int,
    i: int,
)
    requires
        0 <= x < aux.len(),
        0 <= i < data.len(),
        forall|j: int|
            0 <= j < data.len() && j != i ==> #[trigger] updates_of(f, data, x)(j) == Seq::<
                Op,
            >::empty(),
    ensures
        aux_after1(f, data, aux)[x] == apply_ops(updates_of(f, data, x)(i), aux[x]),
{
    let c = x / ceil_div(aux.len() as int, ring_len());
    let order = application_order(data.len() as int, c);
    lemma_item_part(aux, x);
    law_every_item_has_one_turn(data.len() as int, c);
    assert(order.contains(i));
    lemma_joined_single(order, updates_of(f, data, x), i);
}

/// An auxiliary item that nothing updates stays as it is.
pub proof fn law_no_updates1<T, A0, Op: AuxOp<A0>, F: ItemFn1<T, Op>>(
    f: F,
    data: Seq<T>,
    aux: Seq<A0>,
    x: int,
)
    requires
        0 <= x < aux.len(),
        forall|j: int|
            0 <= j < data.len() ==> #[trigger] updates_of(f, data, x)(j) == Seq::<Op>::empty(),
    ensures
        aux_after1(f, data, aux)[x] == aux[x],
{
    let c = x / ceil_div(aux.len() as int, ring_len());
    let order = application_order(data.len() as int, c);
    lemma_item_part(aux, x);
    law_every_item_has_one_turn(data.len() as int, c);
    assert(!order.contains(-1));
    lemma_joined_single(order, updates_of(f, data, x), -1);
}

} // verus!
