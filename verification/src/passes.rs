//! Passes over large vectors, each with the work of one benchmark.
use vstd::prelude::*;

use crate::aux_op::lemma_one_op;
use crate::chunk_processor::BatchFn;
use crate::example::{Add, ExampleItem};
use crate::mypool3::{
    all_accepted, execute_all, execute_all2, is_batch, job_of, lemma_is_batch, task_accepted, Pool,
};
use crate::order::lemma_data_after;
use crate::parts::split;
use crate::ptr_holder_1::{
    aimed_at, aux_after1, law_no_updates1, law_updates_of_one_item1, lemma_tagged1_push, tagged1,
    updates_of, Context1, ItemFn1, PtrHolder1, Task1,
};
use crate::ptr_holder_2::{
    first_at, law_no_updates_first2, law_no_updates_second2, law_updates_of_one_item_first2,
    lemma_tagged2_push, second_at, tagged2, updates_of_first, updates_of_second, Context2, ItemFn2,
    Update2,
};
use crate::scheduler::{lemma_held_with_nothing, AuxScheduler};
use crate::seqs::{joined, lemma_joined_single, lemma_one_pick, upto};

verus! {

/// Increases each item by one, in a plain loop.
pub fn non_threaded(data: &mut Vec<u64>)
    requires
        forall|i: int| 0 <= i < old(data)@.len() ==> #[trigger] old(data)@[i] < u64::MAX,
    ensures
        final(data)@ == old(data)@.map_values(|x: u64| (x + 1) as u64),
{
    let ghost data0 = data@;
    let mut i: usize = 0;
    while i < data.len()
        invariant
            i <= data@.len(),
            data@.len() == data0.len(),
            forall|j: int| 0 <= j < data0.len() ==> #[trigger] data0[j] < u64::MAX,
            forall|j: int|
                0 <= j < data0.len() ==> #[trigger] data@[j] == (if j < i {
                    (data0[j] + 1) as u64
                } else {
                    data0[j]
                }),
        decreases data@.len() - i,
    {
        assert(data@[i as int] == data0[i as int]);
        data[i] = data[i] + 1;
        i = i + 1;
    }
    assert(data@ =~= data0.map_values(|x: u64| (x + 1) as u64));
}

/// The sum of the first `n` numbers.
pub open spec fn sum(data: Seq<u64>, n: int) -> int
    decreases n,
{
    if n <= 0 {
        0
    } else {
        sum(data, n - 1) + data[n - 1]
    }
}

proof fn lemma_sum_grows(data: Seq<u64>, m: int, n: int)
    requires
        0 <= m <= n,
    ensures
        0 <= sum(data, m) <= sum(data, n),
    decreases n,
{
    if m < n {
        lemma_sum_grows(data, m, n - 1);
    } else if n > 0 {
        lemma_sum_grows(data, 0, n - 1);
    }
}

/// Adds the items up, and one to the auxiliary item of each, in a plain loop.
pub fn aux_singlethreaded(data: &Vec<u64>, aux: &mut Vec<u64>) -> (total: u64)
    requires
        data@.len() <= old(aux)@.len(),
        sum(data@, data@.len() as int) <= u64::MAX,
    ensures
        total == sum(data@, data@.len() as int),
        final(aux)@ == Seq::new(
            old(aux)@.len(),
            |i: int|
                if i < data@.len() {
                    old(aux)@[i].wrapping_add(1)
                } else {
                    old(aux)@[i]
                },
        ),
{
    let ghost aux0 = aux@;
    let ghost len = data@.len() as int;
    let mut total: u64 = 0;
    let mut idx: usize = 0;
    while idx < data.len()
        invariant
            idx <= data@.len(),
            len == data@.len(),
            len <= aux@.len(),
            aux@.len() == aux0.len(),
            total == sum(data@, idx as int),
            sum(data@, len) <= u64::MAX,
            forall|i: int|
                0 <= i < aux0.len() ==> #[trigger] aux@[i] == (if i < idx {
                    aux0[i].wrapping_add(1)
                } else {
                    aux0[i]
                }),
        decreases data@.len() - idx,
    {
        proof {
            lemma_sum_grows(data@, idx + 1, len);
        }
        assert(aux@[idx as int] == aux0[idx as int]);
        total = total + data[idx];
        aux[idx] = aux[idx].wrapping_add(1);
        idx = idx + 1;
    }
    assert(aux@ =~= Seq::new(
        aux0.len(),
        |i: int|
            if i < data@.len() {
                aux0[i].wrapping_add(1)
            } else {
                aux0[i]
            },
    ));
    total
}

/// The visit of a stretch that increases each item by one and schedules nothing.
pub struct IncreaseBatch;

impl BatchFn<u64, PtrHolder1, Task1<Add>> for IncreaseBatch {
    open spec fn accepts(&self, aux: PtrHolder1, offset: int, items: Seq<u64>) -> bool {
        forall|i: int| 0 <= i < items.len() ==> #[trigger] items[i] < u64::MAX
    }

    open spec fn items_after(&self, offset: int, items: Seq<u64>) -> Seq<u64> {
        items.map_values(|x: u64| (x + 1) as u64)
    }

    open spec fn tasks(&self, aux: PtrHolder1, offset: int, items: Seq<u64>) -> Seq<
        (u32, Task1<Add>),
    > {
        Seq::empty()
    }

    proof fn keeps_len(&self, offset: int, items: Seq<u64>) {
    }

    fn call(
        &self,
        offset: usize,
        items: &mut [u64],
        ctx: &mut AuxScheduler<PtrHolder1, Task1<Add>>,
    ) {
        let ghost items0 = items@;
        proof {
            lemma_held_with_nothing(ctx.held());
        }
        let n: usize = items.len();
        let mut i: usize = 0;
        while i < n
            invariant
                i <= n,
                n == items@.len(),
                n == items0.len(),
                forall|j: int| 0 <= j < n ==> #[trigger] items0[j] < u64::MAX,
                forall|j: int|
                    0 <= j < n ==> #[trigger] items@[j] == (if j < i {
                        (items0[j] + 1) as u64
                    } else {
                        items0[j]
                    }),
            decreases n - i,
        {
            assert(items@[i as int] == items0[i as int]);
            items[i] = items[i] + 1;
            i = i + 1;
        }
        assert(items@ =~= self.items_after(offset as int, items0));
    }
}

/// The visit of an item that is increased by one and defers nothing.
pub struct IncreaseItem;

impl ItemFn1<ExampleItem, Add> for IncreaseItem {
    open spec fn accepts(&self, idx: int, item: ExampleItem) -> bool {
        item.data < u64::MAX
    }

    open spec fn item_after(&self, idx: int, item: ExampleItem) -> ExampleItem {
        ExampleItem { data: (item.data + 1) as u64 }
    }

    open spec fn updates(&self, idx: int, item: ExampleItem) -> Seq<(usize, Add)> {
        Seq::empty()
    }

    fn call(&self, idx: usize, item: &mut ExampleItem, ctx: Context1<'_, Add>) {
        proof {
            let holder = ctx.ptr_holder.holder();
            assert(tagged1(holder, Seq::<(usize, Add)>::empty()) =~= Seq::empty());
            lemma_held_with_nothing(ctx.ptr_holder.held());
        }
        item.data = item.data + 1;
    }
}

/// The visit of an item that is left as it is, and whose number is added to the auxiliary
/// item at the same index.
pub struct AddOwn;

impl ItemFn1<ExampleItem, Add> for AddOwn {
    open spec fn accepts(&self, idx: int, item: ExampleItem) -> bool {
        true
    }

    open spec fn item_after(&self, idx: int, item: ExampleItem) -> ExampleItem {
        item
    }

    open spec fn updates(&self, idx: int, item: ExampleItem) -> Seq<(usize, Add)> {
        seq![(idx as usize, Add { amount: item.data })]
    }

    fn call(&self, idx: usize, item: &mut ExampleItem, ctx: Context1<'_, Add>) {
        let ghost updates = self.updates(idx as int, *item);
        let ghost none = Seq::<(usize, Add)>::empty();
        let op = Add { amount: item.data };
        let mut ctx = ctx;
        proof {
            let holder = ctx.ptr_holder.holder();
            let held = ctx.ptr_holder.held();
            assert(updates[0].0 < holder.len());
            assert(tagged1(holder, none) =~= Seq::empty());
            lemma_held_with_nothing(held);
            holder.lemma_channel(idx as int);
            lemma_tagged1_push(holder, held, none, idx, op);
            assert(none.push((idx, op)) =~= updates);
        }
        ctx.schedule(idx, op);
    }
}

/// The visit of an item that is left as it is, and is counted in the auxiliary item at the
/// same index.
pub struct CountOwn;

impl ItemFn1<ExampleItem, Add> for CountOwn {
    open spec fn accepts(&self, idx: int, item: ExampleItem) -> bool {
        true
    }

    open spec fn item_after(&self, idx: int, item: ExampleItem) -> ExampleItem {
        item
    }

    open spec fn updates(&self, idx: int, item: ExampleItem) -> Seq<(usize, Add)> {
        seq![(idx as usize, Add { amount: 1 })]
    }

    fn call(&self, idx: usize, item: &mut ExampleItem, ctx: Context1<'_, Add>) {
        let ghost updates = self.updates(idx as int, *item);
        let ghost none = Seq::<(usize, Add)>::empty();
        let op = Add { amount: 1 };
        let mut ctx = ctx;
        proof {
            let holder = ctx.ptr_holder.holder();
            let held = ctx.ptr_holder.held();
            assert(updates[0].0 < holder.len());
            assert(tagged1(holder, none) =~= Seq::empty());
            lemma_held_with_nothing(held);
            holder.lemma_channel(idx as int);
            lemma_tagged1_push(holder, held, none, idx, op);
            assert(none.push((idx, op)) =~= updates);
        }
        ctx.schedule(idx, op);
    }
}

/// The visit of an item that is left as it is, and is counted in the item of the first
/// auxiliary vector at the same index.
pub struct CountOwnFirst;

impl ItemFn2<ExampleItem, Add, Add> for CountOwnFirst {
    open spec fn accepts(&self, idx: int, item: ExampleItem) -> bool {
        true
    }

    open spec fn item_after(&self, idx: int, item: ExampleItem) -> ExampleItem {
        item
    }

    open spec fn updates(&self, idx: int, item: ExampleItem) -> Seq<Update2<Add, Add>> {
        seq![Update2::First(idx as usize, Add { amount: 1 })]
    }

    fn call(&self, idx: usize, item: &mut ExampleItem, ctx: Context2<'_, Add, Add>) {
        let ghost updates = self.updates(idx as int, *item);
        let ghost none = Seq::<Update2<Add, Add>>::empty();
        let op = Add { amount: 1 };
        let mut ctx = ctx;
        proof {
            let holder = ctx.ptr_holder.holder();
            let held = ctx.ptr_holder.held();
            let update = Update2::First(idx, op);
            assert(updates[0] == update);
            assert(tagged2(holder, none) =~= Seq::empty());
            lemma_held_with_nothing(held);
            holder.first().lemma_channel(idx as int);
            lemma_tagged2_push(holder, held, none, update);
            assert(none.push(update) =~= updates);
        }
        ctx.schedule0(idx, op);
    }
}

/// The auxiliary items when the item at each index of the data has had the given number added
/// to its own.
pub open spec fn own_added(
    aux: Seq<ExampleItem>,
    len: nat,
    amount: spec_fn(int) -> u64,
) -> Seq<ExampleItem> {
    Seq::new(
        aux.len(),
        |i: int|
            if i < len {
                ExampleItem { data: aux[i].data.wrapping_add(amount(i)) }
            } else {
                aux[i]
            },
    )
}

/// A visit that defers one addition, to the auxiliary item at its own index.
proof fn lemma_own_added1<F: ItemFn1<ExampleItem, Add>>(
    f: F,
    data: Seq<ExampleItem>,
    aux: Seq<ExampleItem>,
    amount: spec_fn(int) -> u64,
)
    requires
        data.len() <= aux.len() <= usize::MAX,
        forall|i: int|
            0 <= i < data.len() ==> f.updates(i, #[trigger] data[i]) == seq![
                (i as usize, Add { amount: amount(i) }),
            ],
    ensures
        aux_after1(f, data, aux) == own_added(aux, data.len(), amount),
{
    let after = aux_after1(f, data, aux);
    assert forall|x: int| 0 <= x < aux.len() implies after[x] == #[trigger] own_added(
        aux,
        data.len(),
        amount,
    )[x] by {
        let g = updates_of(f, data, x);
        assert forall|j: int| 0 <= j < data.len() implies #[trigger] g(j) == (if j == x {
            seq![Add { amount: amount(j) }]
        } else {
            Seq::empty()
        }) by {
            let u = (j as usize, Add { amount: amount(j) });
            assert(f.updates(j, data[j]) == seq![u]);
            lemma_one_pick(u, aimed_at::<Add>(x));
        }
        if x < data.len() {
            law_updates_of_one_item1(f, data, aux, x, x);
            lemma_one_op(Add { amount: amount(x) }, aux[x]);
        } else {
            law_no_updates1(f, data, aux, x);
        }
    }
    assert(after =~= own_added(aux, data.len(), amount));
}

/// Increases each item of the data by one.
pub fn simple(pool: &mut Pool, data: &mut Vec<u64>)
    requires
        old(pool).wf(),
        old(pool).idle(),
        forall|i: int| 0 <= i < old(data)@.len() ==> #[trigger] old(data)@[i] < u64::MAX,
    ensures
        final(pool).wf(),
        final(pool).idle(),
        final(pool).cores() == old(pool).cores(),
        final(data)@ == old(data)@.map_values(|x: u64| (x + 1) as u64),
{
    let ghost data0 = data@;
    let mut aux: Vec<ExampleItem> = Vec::new();
    let holder: PtrHolder1 = PtrHolder1::new(aux.as_slice(), pool.thread_count());
    let mut parts: Vec<Vec<ExampleItem>> = split(&mut aux, holder.size());
    proof {
        assert forall|a: int, b: int| #[trigger] is_batch(data0.len() as int, a, b) implies {
            let ts = IncreaseBatch.tasks(holder, a, data0.subrange(a, b));
            &&& IncreaseBatch.accepts(holder, a, data0.subrange(a, b))
            &&& forall|i: int|
                0 <= i < ts.len() ==> task_accepted(#[trigger] ts[i], holder, parts@)
        } by {
            lemma_is_batch(data0.len() as int, a, b);
        }
        assert(all_accepted(IncreaseBatch, holder, data0, parts@));
    }
    pool.execute_all(data.as_mut_slice(), holder, &mut parts, &IncreaseBatch);
    proof {
        let job = job_of(IncreaseBatch, holder, data0);
        let after = |i: int| (data0[i] + 1) as u64;
        let tasks = |i: int| Seq::<(u32, Task1<Add>)>::empty();
        assert forall|a: int, b: int|
            #![trigger job.data.subrange(a, b)]
            0 <= a <= b <= job.len() implies {
            &&& (job.after)(a, job.data.subrange(a, b)) == Seq::new(
                (b - a) as nat,
                |i: int| after(a + i),
            )
            &&& (job.tasks)(a, job.data.subrange(a, b)) == joined(upto(a, b), tasks)
        } by {
            assert((job.after)(a, job.data.subrange(a, b)) =~= Seq::new(
                (b - a) as nat,
                |i: int| after(a + i),
            ));
            lemma_joined_single(upto(a, b), tasks, -1);
        }
        lemma_data_after(job, after, tasks);
        assert(data@ =~= data0.map_values(|x: u64| (x + 1) as u64));
    }
}

/// Increases each item of the data by one.
pub fn simple_new(pool: &mut Pool, data: &mut Vec<ExampleItem>, aux: &mut Vec<ExampleItem>)
    requires
        old(pool).wf(),
        old(pool).idle(),
        forall|i: int| 0 <= i < old(data)@.len() ==> (#[trigger] old(data)@[i]).data < u64::MAX,
    ensures
        final(pool).wf(),
        final(pool).idle(),
        final(pool).cores() == old(pool).cores(),
        final(data)@ == old(data)@.map_values(
            |x: ExampleItem| ExampleItem { data: (x.data + 1) as u64 },
        ),
        final(aux)@ == old(aux)@,
{
    let ghost data0 = data@;
    let ghost aux0 = aux@;
    execute_all(pool, data, aux, IncreaseItem);
    proof {
        assert(data@ =~= data0.map_values(
            |x: ExampleItem| ExampleItem { data: (x.data + 1) as u64 },
        ));
        assert forall|x: int| 0 <= x < aux0.len() implies #[trigger] aux@[x] == aux0[x] by {
            law_no_updates1(IncreaseItem, data0, aux0, x);
        }
        assert(aux@ =~= aux0);
    }
}

/// Adds the number of each item of the data to the auxiliary item at the same index.
pub fn aux(pool: &mut Pool, data: &mut Vec<ExampleItem>, aux: &mut Vec<ExampleItem>)
    requires
        old(pool).wf(),
        old(pool).idle(),
        old(data)@.len() <= old(aux)@.len(),
    ensures
        final(pool).wf(),
        final(pool).idle(),
        final(pool).cores() == old(pool).cores(),
        final(data)@ == old(data)@,
        final(aux)@ == own_added(
            old(aux)@,
            old(data)@.len(),
            |i: int| old(data)@[i].data,
        ),
{
    let ghost data0 = data@;
    let ghost aux0 = aux@;
    assert(aux.len() <= usize::MAX);
    execute_all(pool, data, aux, AddOwn);
    proof {
        lemma_own_added1(AddOwn, data0, aux0, |i: int| data0[i].data);
        assert(data@ =~= data0);
    }
}

/// Adds one to the auxiliary item at the index of each item of the data.
pub fn aux_new(pool: &mut Pool, data: &mut Vec<ExampleItem>, aux: &mut Vec<ExampleItem>)
    requires
        old(pool).wf(),
        old(pool).idle(),
        old(data)@.len() <= old(aux)@.len(),
    ensures
        final(pool).wf(),
        final(pool).idle(),
        final(pool).cores() == old(pool).cores(),
        final(data)@ == old(data)@,
        final(aux)@ == own_added(old(aux)@, old(data)@.len(), |i: int| 1u64),
{
    let ghost data0 = data@;
    let ghost aux0 = aux@;
    assert(aux.len() <= usize::MAX);
    execute_all(pool, data, aux, CountOwn);
    proof {
        lemma_own_added1(CountOwn, data0, aux0, |i: int| 1u64);
        assert(data@ =~= data0);
    }
}

/// Adds one to the item of the first auxiliary vector at the index of each item of the data.
pub fn double_aux_new(
    pool: &mut Pool,
    data: &mut Vec<ExampleItem>,
    aux1: &mut Vec<ExampleItem>,
    aux2: &mut Vec<ExampleItem>,
)
    requires
        old(pool).wf(),
        old(pool).idle(),
        old(data)@.len() <= old(aux1)@.len(),
    ensures
        final(pool).wf(),
        final(pool).idle(),
        final(pool).cores() == old(pool).cores(),
        final(data)@ == old(data)@,
        final(aux1)@ == own_added(old(aux1)@, old(data)@.len(), |i: int| 1u64),
        final(aux2)@ == old(aux2)@,
{
    let ghost data0 = data@;
    let ghost first = aux1@;
    let ghost second = aux2@;
    let ghost f = CountOwnFirst;
    assert(aux1.len() <= usize::MAX);
    execute_all2(pool, data, aux1, aux2, CountOwnFirst);
    proof {
        let added = own_added(first, data0.len(), |i: int| 1u64);
        assert(data@ =~= data0);
        assert forall|x: int| 0 <= x < first.len() implies #[trigger] aux1@[x] == added[x] by {
            let g = updates_of_first(f, data0, x);
            assert forall|j: int| 0 <= j < data0.len() implies #[trigger] g(j) == (if j == x {
                seq![Add { amount: 1 }]
            } else {
                Seq::empty()
            }) by {
                lemma_one_pick(
                    Update2::<Add, Add>::First(j as usize, Add { amount: 1 }),
                    first_at::<Add, Add>(x),
                );
            }
            if x < data0.len() {
                law_updates_of_one_item_first2(f, data0, first, x, x);
                lemma_one_op(Add { amount: 1 }, first[x]);
            } else {
                law_no_updates_first2(f, data0, first, x);
            }
        }
        assert forall|x: int| 0 <= x < second.len() implies #[trigger] aux2@[x] == second[x] by {
            let g = updates_of_second(f, data0, x);
            assert forall|j: int| 0 <= j < data0.len() implies #[trigger] g(j)
                == Seq::<Add>::empty() by {
                lemma_one_pick(
                    Update2::<Add, Add>::First(j as usize, Add { amount: 1 }),
                    second_at::<Add, Add>(x),
                );
            }
            law_no_updates_second2(f, data0, second, x);
        }
        assert(aux1@ =~= added);
        assert(aux2@ =~= second);
    }
}

/// The pass [`aux`] adds the number of each item of the data to that of the auxiliary item at the
/// same index, and changes nothing else. Beyond the greatest number it goes on from zero.
pub proof fn law_aux_adds_the_data(
    pool: &mut Pool,
    data: &mut Vec<ExampleItem>,
    items: &mut Vec<ExampleItem>,
    i: int,
)
    requires
        call_ensures(aux, (pool, data, items), ()),
        0 <= i < items@.len(),
    ensures
        final(items)@.len() == old(items)@.len(),
        i < old(data)@.len() ==> final(items)@[i].data == (old(items)@[i].data + old(data)@[i].data)
            % 0x1_0000_0000_0000_0000,
        i >= old(data)@.len() ==> final(items)@[i] == old(items)@[i],
        final(data)@ == old(data)@,
{
}

/// The pass [`aux_new`] adds one to the number of the auxiliary item at the index of each item of
/// the data, and changes nothing else. Beyond the greatest number it goes on from zero.
pub proof fn law_aux_new_adds_one(
    pool: &mut Pool,
    data: &mut Vec<ExampleItem>,
    items: &mut Vec<ExampleItem>,
    i: int,
)
    requires
        call_ensures(aux_new, (pool, data, items), ()),
        0 <= i < items@.len(),
    ensures
        final(items)@.len() == old(items)@.len(),
        i < old(data)@.len() ==> final(items)@[i].data == (old(items)@[i].data + 1)
            % 0x1_0000_0000_0000_0000,
        i >= old(data)@.len() ==> final(items)@[i] == old(items)@[i],
        final(data)@ == old(data)@,
{
}

/// The pass [`double_aux_new`] adds one to the number of the item of the first auxiliary vector
/// at the index of each item of the data, and changes nothing else. Beyond the greatest number it
/// goes on from zero.
pub proof fn law_double_aux_new_adds_one(
    pool: &mut Pool,
    data: &mut Vec<ExampleItem>,
    aux1: &mut Vec<ExampleItem>,
    aux2: &mut Vec<ExampleItem>,
    i: int,
)
    requires
        call_ensures(double_aux_new, (pool, data, aux1, aux2), ()),
        0 <= i < aux1@.len(),
    ensures
        final(aux1)@.len() == old(aux1)@.len(),
        i < old(data)@.len() ==> final(aux1)@[i].data == (old(aux1)@[i].data + 1)
            % 0x1_0000_0000_0000_0000,
        i >= old(data)@.len() ==> final(aux1)@[i] == old(aux1)@[i],
        final(aux2)@ == old(aux2)@,
        final(data)@ == old(data)@,
{
}

/// The total of no numbers is zero, and a further number adds itself to the total.
pub proof fn law_totals(
    data: &Vec<u64>,
    aux: &mut Vec<u64>,
    total: u64,
    longer: &Vec<u64>,
    longer_aux: &mut Vec<u64>,
    longer_total: u64,
    x: u64,
)
    requires
        call_ensures(aux_singlethreaded, (data, aux), total),
        call_ensures(aux_singlethreaded, (longer, longer_aux), longer_total),
        longer@ == data@.push(x),
    ensures
        data@.len() == 0 ==> total == 0,
        longer_total == total + x,
{
    lemma_sum_same(data@, longer@, data@.len() as int);
}

proof fn lemma_sum_same(a: Seq<u64>, b: Seq<u64>, n: int)
    requires
        n <= a.len(),
        n <= b.len(),
        forall|i: int| 0 <= i < n ==> #[trigger] a[i] == b[i],
    ensures
        sum(a, n) == sum(b, n),
    decreases n,
{
    if n > 0 {
        lemma_sum_same(a, b, n - 1);
        assert(a[n - 1] == b[n - 1]);
    }
}

} // verus!
