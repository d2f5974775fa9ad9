//! A pass that updates the first of two auxiliary vectors through its own kind of holder.
use vstd::prelude::*;

use crate::aux_op::{apply_ops, applying, lemma_one_op};
use crate::chunk_processor::BatchFn;
use crate::chunks::{ceil_div, lemma_ceil_div};
use crate::example::{Add, DoublePtrHolder, DoubleTask, ExampleItem};
use crate::machine::held_with;
use crate::mypool3::{
    all_accepted, is_batch, job_of, lemma_is_batch, task_accepted, Pool, MAX_THREADS,
};
use crate::order::{
    application_order, itemwise, law_every_item_has_one_turn, lemma_data_after, lemma_tasks_run,
};
use crate::parts::{join, lemma_item_part, lemma_part_index, law_join_undoes_split, part_of, split};
use crate::passes::own_added;
use crate::ptr_holder_2::{pair_parts, unpair_parts, Part2};
use crate::ring::ring_len;
use crate::schedule::on_channel;
use crate::scheduler::{
    lemma_held_with_nothing, lemma_held_with_push, running, AuxScheduler, AuxTask,
};
use crate::seqs::{
    joined, lemma_fold_component, lemma_joined_from, lemma_joined_pick, lemma_joined_single,
    lemma_one_pick, lemma_pick_from, lemma_pick_pick, pick_both, upto,
};

verus! {

/// The visit of a stretch that leaves the items as they are, and counts each in the item of
/// the first vector at the same index.
pub struct DoubleBatch;

/// The task of the item at `i`, with its channel.
pub open spec fn double_task(holder: DoublePtrHolder, i: int) -> (u32, DoubleTask<Add>) {
    (
        holder.channel1(i) as u32,
        DoubleTask { holder, index: i as usize, op: Add { amount: 1 } },
    )
}

/// The tasks of each item.
pub open spec fn double_tasks(holder: DoublePtrHolder) -> spec_fn(int) -> Seq<
    (u32, DoubleTask<Add>),
> {
    |i: int| seq![double_task(holder, i)]
}

impl BatchFn<ExampleItem, DoublePtrHolder, DoubleTask<Add>> for DoubleBatch {
    open spec fn accepts(
        &self,
        aux: DoublePtrHolder,
        offset: int,
        items: Seq<ExampleItem>,
    ) -> bool {
        aux.wf() && offset + items.len() <= aux.len1()
    }

    open spec fn items_after(&self, offset: int, items: Seq<ExampleItem>) -> Seq<ExampleItem> {
        items
    }

    open spec fn tasks(&self, aux: DoublePtrHolder, offset: int, items: Seq<ExampleItem>) -> Seq<
        (u32, DoubleTask<Add>),
    > {
        joined(upto(offset, offset + items.len()), double_tasks(aux))
    }

    proof fn keeps_len(&self, offset: int, items: Seq<ExampleItem>) {
    }

    fn call(
        &self,
        offset: usize,
        items: &mut [ExampleItem],
        ctx: &mut AuxScheduler<DoublePtrHolder, DoubleTask<Add>>,
    ) {
        let ghost aux = ctx.holder();
        let ghost held = ctx.held();
        let ghost g = double_tasks(aux);
        let ghost o = offset as int;
        let n: usize = items.len();
        let mut i: usize = 0;
        proof {
            assert(upto(o, o) =~= Seq::empty());
            lemma_held_with_nothing(held);
        }
        while i < n
            invariant
                i <= n,
                o == offset,
                o + n <= aux.len1(),
                o + n <= usize::MAX,
                aux.wf(),
                g == double_tasks(aux),
                ctx.wf(),
                ctx.holder() == aux,
                held.len() == MAX_THREADS,
                ctx.held() == held_with(held, joined(upto(o, o + i), g)),
            decreases n - i,
        {
            let aux_idx: usize = offset + i;
            let holder: DoublePtrHolder = ctx.get_ah();
            holder.schedule1(ctx, aux_idx, Add { amount: 1 });
            proof {
                let before = joined(upto(o, o + i), g);
                let (channel, task) = double_task(aux, aux_idx as int);
                lemma_held_with_push(held, before, channel, task);
                assert(upto(o, o + i + 1).drop_last() =~= upto(o, o + i));
                assert(joined(upto(o, o + i + 1), g) =~= before.push((channel, task)));
            }
            i = i + 1;
        }
    }
}

proof fn lemma_double_itemwise(holder: DoublePtrHolder, data: Seq<ExampleItem>)
    ensures
        itemwise(job_of(DoubleBatch, holder, data), |i: int| data[i], double_tasks(holder)),
{
    let job = job_of(DoubleBatch, holder, data);
    let after = |i: int| data[i];
    assert forall|a: int, b: int|
        #![trigger job.data.subrange(a, b)]
        0 <= a <= b <= job.len() implies (job.after)(a, job.data.subrange(a, b)) == Seq::new(
        (b - a) as nat,
        |i: int| after(a + i),
    ) by {
        assert((job.after)(a, job.data.subrange(a, b)) =~= Seq::new(
            (b - a) as nat,
            |i: int| after(a + i),
        ));
    }
}

/// Selects the updates of the item at `place` of a part.
spec fn at_place(place: int) -> spec_fn(DoubleTask<Add>) -> Option<Add> {
    |t: DoubleTask<Add>|
        if t.holder.place1(t.index as int) == place {
            Some(t.op)
        } else {
            None
        }
}

/// What the tasks of a channel do to one item of its part.
proof fn lemma_double_item(
    ts: Seq<DoubleTask<Add>>,
    part: (Seq<ExampleItem>, Seq<ExampleItem>),
    place: int,
)
    requires
        forall|i: int| 0 <= i < ts.len() ==> (#[trigger] ts[i]).fits(part),
    ensures
        ({
            let end = ts.fold_left(
                part,
                running::<Part2<ExampleItem, ExampleItem>, DoubleTask<Add>>(),
            );
            &&& end.0.len() == part.0.len()
            &&& end.1 == part.1
            &&& 0 <= place < part.0.len() ==> end.0[place] == apply_ops(
                ts.filter_map(at_place(place)),
                part.0[place],
            )
        }),
{
    let run = running::<Part2<ExampleItem, ExampleItem>, DoubleTask<Add>>();
    let ok = |q: (Seq<ExampleItem>, Seq<ExampleItem>)|
        q.0.len() == part.0.len() && q.1 == part.1;
    let view = |q: (Seq<ExampleItem>, Seq<ExampleItem>)|
        if 0 <= place < part.0.len() {
            q.0[place]
        } else {
            ExampleItem { data: 0 }
        };
    let pick = |t: DoubleTask<Add>|
        if 0 <= place < part.0.len() {
            at_place(place)(t)
        } else {
            None
        };
    assert forall|i: int, q: (Seq<ExampleItem>, Seq<ExampleItem>)|
        #![trigger run(q, ts[i])]
        0 <= i < ts.len() && ok(q) implies {
        &&& ok(run(q, ts[i]))
        &&& view(run(q, ts[i])) == (match pick(ts[i]) {
            Some(y) => applying::<ExampleItem, Add>()(view(q), y),
            None => view(q),
        })
    } by {
        assert(ts[i].fits(part));
        assert(ts[i].holder.place1(ts[i].index as int) >= 0);
    }
    lemma_fold_component(ts, part, run, ok, view, pick, applying::<ExampleItem, Add>());
    if 0 <= place < part.0.len() {
        assert(pick =~= at_place(place));
    }
}

/// The part of a channel at the end of a run.
proof fn lemma_double_part(
    holder: DoublePtrHolder,
    data: Seq<ExampleItem>,
    aux: Seq<ExampleItem>,
    other: Seq<ExampleItem>,
    c: int,
)
    requires
        holder.wf(),
        holder.len1() == aux.len(),
        data.len() <= aux.len() <= usize::MAX,
        0 <= c < ring_len(),
    ensures
        job_of(DoubleBatch, holder, data).tasks_run(c).fold_left(
            (part_of(aux, holder.chunksize1(), c), other),
            running::<Part2<ExampleItem, ExampleItem>, DoubleTask<Add>>(),
        ) == (
            part_of(own_added(aux, data.len(), |i: int| 1u64), holder.chunksize1(), c),
            other,
        ),
{
    let job = job_of(DoubleBatch, holder, data);
    let n = data.len() as int;
    let size = holder.chunksize1();
    let part = (part_of(aux, size, c), other);
    let order = application_order(n, c);
    let g = double_tasks(holder);
    let ts = job.tasks_run(c);
    let run = running::<Part2<ExampleItem, ExampleItem>, DoubleTask<Add>>();
    let result = ts.fold_left(part, run);
    let added = own_added(aux, data.len(), |i: int| 1u64);
    let expected = part_of(added, size, c);
    lemma_double_itemwise(holder, data);
    lemma_tasks_run(job, |i: int| data[i], g, c);
    lemma_ceil_div(aux.len() as int, ring_len());
    law_every_item_has_one_turn(n, c);
    assert forall|m: int| 0 <= m < ts.len() implies (#[trigger] ts[m]).fits(part) by {
        assert(ts.contains(ts[m]));
        let q = lemma_pick_from(joined(order, g), on_channel(c), ts[m]);
        let (i, p) = lemma_joined_from(order, g, q);
        lemma_item_part(aux, i);
    }
    assert(0 <= c * size <= (c + 1) * size) by (nonlinear_arith)
        requires
            0 <= c,
            size >= 0,
    ;
    lemma_double_item(ts, part, -1);
    assert forall|place: int| 0 <= place < part.0.len() implies #[trigger] result.0[place]
        == expected[place] by {
        let x = c * size + place;
        lemma_part_index(x, size, c);
        lemma_double_item(ts, part, place);
        let both = pick_both(on_channel::<DoubleTask<Add>>(c), at_place(place));
        lemma_pick_pick(joined(order, g), on_channel(c), at_place(place));
        let h = |i: int|
            if i == x {
                seq![Add { amount: 1 }]
            } else {
                Seq::empty()
            };
        assert forall|i: int| order.contains(i) implies g(i).filter_map(both) == #[trigger] h(
            i,
        ) by {
            lemma_item_part(aux, i);
            lemma_one_pick(double_task(holder, i), both);
        }
        lemma_joined_pick(order, g, h, both);
        lemma_joined_single(order, h, x);
        lemma_one_op(Add { amount: 1 }, aux[x]);
        assert(part.0[place] == aux[x]);
        assert(order.contains(x) == (x < n));
    }
    assert(result.0 =~= expected);
}

/// Adds one to the item of the first auxiliary vector at the index of each item of the data.
pub fn double_aux(
    pool: &mut Pool,
    data: &mut Vec<ExampleItem>,
    aux1: &mut Vec<ExampleItem>,
    aux2: &mut Vec<ExampleItem>,
)
    requires
        old(pool).wf(),
        old(pool).idle(),
        old(data)@.len() <= old(aux1)@.len(),
    ensures
        final(pool).wf(),
        final(pool).idle(),
        final(pool).cores() == old(pool).cores(),
        final(data)@ == old(data)@,
        final(aux1)@ == own_added(old(aux1)@, old(data)@.len(), |i: int| 1u64),
        final(aux2)@ == old(aux2)@,
{
    let ghost data0 = data@;
    let ghost first = aux1@;
    let ghost second = aux2@;
    assert(aux1.len() <= usize::MAX);
    let holder: DoublePtrHolder = DoublePtrHolder::new(&*aux1, &*aux2);
    let parts0: Vec<Vec<ExampleItem>> = split(aux1, holder.size1());
    let parts1: Vec<Vec<ExampleItem>> = split(aux2, holder.size2());
    let mut parts: Vec<Part2<ExampleItem, ExampleItem>> = pair_parts(parts0, parts1);
    let ghost start = parts@;
    proof {
        assert forall|a: int, b: int| #[trigger] is_batch(data0.len() as int, a, b) implies {
            let ts = DoubleBatch.tasks(holder, a, data0.subrange(a, b));
            &&& DoubleBatch.accepts(holder, a, data0.subrange(a, b))
            &&& forall|i: int|
                0 <= i < ts.len() ==> task_accepted(#[trigger] ts[i], holder, start)
        } by {
            let ts = DoubleBatch.tasks(holder, a, data0.subrange(a, b));
            lemma_is_batch(data0.len() as int, a, b);
            assert forall|m: int|
                0 <= m < ts.len() implies task_accepted(#[trigger] ts[m], holder, start) by {
                let (i, p) = lemma_joined_from(upto(a, b), double_tasks(holder), m);
                lemma_item_part(first, i);
            }
        }
        assert(all_accepted(DoubleBatch, holder, data0, start));
    }
    pool.execute_all(data.as_mut_slice(), holder, &mut parts, &DoubleBatch);
    let ghost end = parts@;
    let (parts0, parts1) = unpair_parts(parts);
    proof {
        let added = own_added(first, data0.len(), |i: int| 1u64);
        lemma_double_itemwise(holder, data0);
        lemma_data_after(
            job_of(DoubleBatch, holder, data0),
            |i: int| data0[i],
            double_tasks(holder),
        );
        assert(data@ =~= data0);
        assert forall|c: int| 0 <= c < ring_len() implies (#[trigger] end[c])@ == (
            part_of(added, holder.chunksize1(), c),
            part_of(second, holder.chunksize2(), c),
        ) by {
            assert(start[c]@.0 == part_of(first, holder.chunksize1(), c));
            assert(start[c]@.1 == part_of(second, holder.chunksize2(), c));
            lemma_double_part(holder, data0, first, start[c]@.1, c);
        }
        assert forall|c: int| 0 <= c < parts0@.len() implies (#[trigger] parts0@[c])@ == part_of(
            added,
            ceil_div(added.len() as int, ring_len()),
            c,
        ) by {
            assert(end[c]@.0 == part_of(added, holder.chunksize1(), c));
        }
        assert forall|c: int| 0 <= c < parts1@.len() implies (#[trigger] parts1@[c])@ == part_of(
            second,
            ceil_div(second.len() as int, ring_len()),
            c,
        ) by {
            assert(end[c]@.1 == part_of(second, holder.chunksize2(), c));
        }
        law_join_undoes_split(parts0@, added);
        law_join_undoes_split(parts1@, second);
    }
    join(aux1, parts0);
    join(aux2, parts1);
    assert(aux1@ =~= own_added(first, data0.len(), |i: int| 1u64));
    assert(aux2@ =~= second);
}

/// The pass adds one to the number of the item of the first auxiliary vector at the index of each
/// item of the data, and changes nothing else. Beyond the greatest number it goes on from zero.
pub proof fn law_double_aux_adds_one(
    pool: &mut Pool,
    data: &mut Vec<ExampleItem>,
    aux1: &mut Vec<ExampleItem>,
    aux2: &mut Vec<ExampleItem>,
    i: int,
)
    requires
        call_ensures(double_aux, (pool, data, aux1, aux2), ()),
        0 <= i < aux1@.len(),
    ensures
        final(aux1)@.len() == old(aux1)@.len(),
        i < old(data)@.len() ==> final(aux1)@[i].data == (old(aux1)@[i].data + 1)
            % 0x1_0000_0000_0000_0000,
        i >= old(data)@.len() ==> final(aux1)@[i] == old(aux1)@[i],
        final(aux2)@ == old(aux2)@,
        final(data)@ == old(data)@,
{
}

} // verus!
