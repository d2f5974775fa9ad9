//! Runs whose results are known.
use vstd::prelude::*;

use crate::PROB_SIZE;
use crate::aux_op::{apply_ops, AuxOp};
use crate::chunk_processor::BatchFn;
use crate::chunks::{ceil_div, lemma_ceil_div};
use crate::example::Count;
use crate::machine::held_with;
use crate::mypool3::{
    all_accepted, execute_all, is_batch, job_of, lemma_is_batch, task_accepted, Pool, MAX_THREADS,
};
use crate::order::{
    application_order, comes_before, law_every_item_has_one_turn, law_order_by_turns,
};
use crate::parts::{join, law_join_undoes_split, part_of, split};
use crate::ptr_holder_1::{
    aimed_at, aimed_within, aux_after1, data_after1, lemma_tagged1_push, tagged1, updates_of,
    Context1, ItemFn1, PtrHolder1, Task1,
};
use crate::ring::ring_len;
use crate::schedule::on_channel;
use crate::scheduler::{
    lemma_held_with_nothing, lemma_held_with_push, running, AuxScheduler
};
use crate::seqs::{joined, lemma_joined_last, lemma_one_pick};
use crate::xor_rng::{drawn, gen_data, lemma_drawn, lemma_numbers_drawn, numbers, XorRng};

verus! {

/// The visit of a stretch: each item is increased by one, and counted in the first auxiliary
/// item.
pub struct CountingBatch;

impl CountingBatch {
    /// The task that counts an item.
    pub open spec fn task(aux: PtrHolder1) -> Task1<Count> {
        Task1 { holder: aux, index: 0, op: Count }
    }

    /// The tasks that count `n` items.
    pub open spec fn counting(aux: PtrHolder1, n: nat) -> Seq<(u32, Task1<Count>)> {
        Seq::new(n, |i: int| (0u32, Self::task(aux)))
    }
}

impl BatchFn<usize, PtrHolder1, Task1<Count>> for CountingBatch {
    open spec fn accepts(&self, aux: PtrHolder1, offset: int, items: Seq<usize>) -> bool {
        &&& aux.wf()
        &&& aux.len() > 0
        &&& forall|i: int| 0 <= i < items.len() ==> #[trigger] items[i] < usize::MAX
    }

    open spec fn items_after(&self, offset: int, items: Seq<usize>) -> Seq<usize> {
        Seq::new(items.len(), |i: int| (items[i] + 1) as usize)
    }

    open spec fn tasks(&self, aux: PtrHolder1, offset: int, items: Seq<usize>) -> Seq<
        (u32, Task1<Count>),
    > {
        Self::counting(aux, items.len())
    }

    proof fn keeps_len(&self, offset: int, items: Seq<usize>) {
    }

    fn call(
        &self,
        offset: usize,
        items: &mut [usize],
        ctx: &mut AuxScheduler<PtrHolder1, Task1<Count>>,
    ) {
        let ghost items0 = items@;
        let ghost aux = ctx.holder();
        let ghost held = ctx.held();
        let n: usize = items.len();
        let mut i: usize = 0;
        proof {
            assert(Self::counting(aux, 0) =~= Seq::empty());
            lemma_held_with_nothing(held);
        }
        while i < n
            invariant
                i <= n,
                n == items@.len(),
                n == items0.len(),
                ctx.wf(),
                ctx.holder() == aux,
                aux.wf(),
                aux.len() > 0,
                held.len() == MAX_THREADS,
                ctx.held() == held_with(held, Self::counting(aux, i as nat)),
                forall|j: int| 0 <= j < n ==> #[trigger] items0[j] < usize::MAX,
                forall|j: int|
                    0 <= j < n ==> #[trigger] items@[j] == (if j < i {
                        (items0[j] + 1) as usize
                    } else {
                        items0[j]
                    }),
            decreases n - i,
        {
            assert(items@[i as int] == items0[i as int]);
            items[i] = items[i] + 1;
            let holder: PtrHolder1 = ctx.get_ah();
            proof {
                aux.lemma_channel(0);
            }
            ctx.schedule(0, Task1 { holder, index: 0, op: Count });
            proof {
                lemma_held_with_push(held, Self::counting(aux, i as nat), 0, Self::task(aux));
                assert(Self::counting(aux, i as nat).push((0u32, Self::task(aux)))
                    =~= Self::counting(aux, (i + 1) as nat));
            }
            i = i + 1;
        }
        assert(items@ =~= self.items_after(offset as int, items0));
    }
}

proof fn lemma_counting_on_channel(aux: PtrHolder1, n: nat, c: int)
    ensures
        CountingBatch::counting(aux, n).filter_map(on_channel(c)) == (if c == 0 {
            Seq::new(n, |i: int| CountingBatch::task(aux))
        } else {
            Seq::empty()
        }),
    decreases n,
{
    let all = CountingBatch::counting(aux, n);
    let expected = if c == 0 {
        Seq::new(n, |i: int| CountingBatch::task(aux))
    } else {
        Seq::empty()
    };
    if n > 0 {
        lemma_counting_on_channel(aux, (n - 1) as nat, c);
        assert(all.drop_last() =~= CountingBatch::counting(aux, (n - 1) as nat));
    }
    assert(all.filter_map(on_channel(c)) =~= expected);
}

proof fn lemma_counted(aux: PtrHolder1, n: nat, part: Seq<usize>)
    requires
        aux.chunksize() == 1,
        part.len() == 1,
        part[0] + n <= usize::MAX,
    ensures
        Seq::new(n, |i: int| CountingBatch::task(aux)).fold_left(
            part,
            running::<Vec<usize>, Task1<Count>>(),
        ) == seq![(part[0] + n) as usize],
    decreases n,
{
    let all = Seq::new(n, |i: int| CountingBatch::task(aux));
    let run = running::<Vec<usize>, Task1<Count>>();
    if n > 0 {
        lemma_counted(aux, (n - 1) as nat, part);
        assert(all.drop_last() =~= Seq::new((n - 1) as nat, |i: int| CountingBatch::task(aux)));
        assert(aux.place(0) == 0);
    }
    assert(all.fold_left(part, run) =~= seq![(part[0] + n) as usize]);
}

/// Increases each of the numbers from zero to seven, and counts them on from 42.
pub fn do_mypool3_test1(pool: &mut Pool) -> (result: (Vec<usize>, Vec<usize>))
    requires
        old(pool).wf(),
        old(pool).idle(),
    ensures
        final(pool).wf(),
        final(pool).idle(),
        final(pool).cores() == old(pool).cores(),
        result.0@ == Seq::new(MAX_THREADS as nat, |i: int| (i + 1) as usize),
        result.1@ == seq![50usize],
{
    let mut data: Vec<usize> = Vec::new();
    let mut aux: Vec<usize> = Vec::new();
    aux.push(42);
    let mut x: usize = 0;
    while x < MAX_THREADS
        invariant
            x <= MAX_THREADS,
            data@ =~= Seq::new(x as nat, |i: int| i as usize),
        decreases MAX_THREADS - x,
    {
        data.push(x);
        x = x + 1;
    }
    let ghost data0 = data@;
    let ghost aux0 = aux@;
    let holder: PtrHolder1 = PtrHolder1::new(aux.as_slice(), pool.thread_count());
    let mut parts: Vec<Vec<usize>> = split(&mut aux, holder.size());
    let ghost parts0 = parts@;
    proof {
        lemma_ceil_div(1, ring_len());
        assert(parts0[0]@ =~= aux0);
        assert forall|a: int, b: int| #[trigger] is_batch(data0.len() as int, a, b) implies {
            let ts = CountingBatch.tasks(holder, a, data0.subrange(a, b));
            &&& CountingBatch.accepts(holder, a, data0.subrange(a, b))
            &&& forall|i: int|
                0 <= i < ts.len() ==> task_accepted(#[trigger] ts[i], holder, parts0)
        } by {
            lemma_is_batch(data0.len() as int, a, b);
            assert(holder.place(0) == 0);
        }
        assert(all_accepted(CountingBatch, holder, data0, parts0));
    }
    pool.execute_all(data.as_mut_slice(), holder, &mut parts, &CountingBatch);
    proof {
        let job = job_of(CountingBatch, holder, data0);
        let after = seq![50usize];
        assert(data@ =~= Seq::new(MAX_THREADS as nat, |i: int| (i + 1) as usize));
        lemma_counted(holder, 8, aux0);
        assert forall|c: int| 0 <= c < parts@.len() implies (#[trigger] parts@[c])@ == part_of(
            after,
            ceil_div(after.len() as int, ring_len()),
            c,
        ) by {
            lemma_counting_on_channel(holder, 8, c);
            assert(part_of(after, 1, c) =~= if c == 0 {
                after
            } else {
                Seq::empty()
            });
            assert(part_of(aux0, 1, c) =~= if c == 0 {
                aux0
            } else {
                Seq::empty()
            });
        }
        law_join_undoes_split(parts@, after);
    }
    join(&mut aux, parts);
    assert(aux@ =~= seq![50usize]);
    (data, aux)
}

/// Replaces an auxiliary number.
pub struct Replace {
    pub value: u64,
}

impl AuxOp<u64> for Replace {
    open spec fn applied(&self, item: u64) -> u64 {
        self.value
    }

    fn apply(self, item: &mut u64) {
        *item = self.value;
    }
}

/// The visit of an item: its index replaces the auxiliary number that the item points at.
pub struct ReplaceItem;

impl ItemFn1<u64, Replace> for ReplaceItem {
    open spec fn accepts(&self, idx: int, item: u64) -> bool {
        true
    }

    open spec fn item_after(&self, idx: int, item: u64) -> u64 {
        item
    }

    open spec fn updates(&self, idx: int, item: u64) -> Seq<(usize, Replace)> {
        seq![(((item as usize) % PROB_SIZE) as usize, Replace { value: idx as u64 })]
    }

    fn call(&self, idx: usize, item: &mut u64, ctx: Context1<'_, Replace>) {
        let ghost holder = ctx.ptr_holder.holder();
        let ghost held = ctx.ptr_holder.held();
        let ghost updates = self.updates(idx as int, *item);
        let ghost none = Seq::<(usize, Replace)>::empty();
        let mut ctx = ctx;
        let aux_idx: usize = (#[verifier::truncate] (*item as usize)) % PROB_SIZE;
        proof {
            assert(tagged1(holder, none) =~= Seq::empty());
            lemma_held_with_nothing(held);
            assert(updates[0].0 < holder.len());
            holder.lemma_channel(aux_idx as int);
            lemma_tagged1_push(holder, held, none, aux_idx, Replace { value: idx as u64 });
            assert(none.push((aux_idx, Replace { value: idx as u64 })) =~= updates);
        }
        ctx.schedule(aux_idx, Replace { value: idx as u64 });
    }
}

/// What two runs on the same input leave.
pub struct TwoRuns {
    pub data_a: Vec<u64>,
    pub aux_a: Vec<u64>,
    pub data_b: Vec<u64>,
    pub aux_b: Vec<u64>,
}

fn zeros(count: usize) -> (aux: Vec<u64>)
    ensures
        aux@ == Seq::new(count as nat, |i: int| 0u64),
{
    let mut aux: Vec<u64> = Vec::new();
    let mut i: usize = 0;
    while i < count
        invariant
            i <= count,
            aux@ =~= Seq::new(i as nat, |j: int| 0u64),
        decreases count - i,
    {
        aux.push(0);
        i = i + 1;
    }
    aux
}

/// Makes random data out of `i`, and visits it twice with updates that depend on their order.
/// Both runs leave the same.
pub fn test_determinism_iteration(pool: &mut Pool, i: u32) -> (runs: TwoRuns)
    requires
        old(pool).wf(),
        old(pool).idle(),
    ensures
        final(pool).wf(),
        final(pool).idle(),
        final(pool).cores() == old(pool).cores(),
        runs.data_a@ == numbers(XorRng::seeded(i).state, PROB_SIZE as nat),
        runs.aux_a@ == aux_after1(
            ReplaceItem,
            numbers(XorRng::seeded(i).state, PROB_SIZE as nat),
            Seq::new(PROB_SIZE as nat, |x: int| 0u64),
        ),
        runs.data_b@ == runs.data_a@,
        runs.aux_b@ == runs.aux_a@,
{
    let mut rng: XorRng = XorRng::new(i);
    let mut data_a: Vec<u64> = gen_data(&mut rng, PROB_SIZE);
    let mut aux_a: Vec<u64> = zeros(PROB_SIZE);
    let mut data_b: Vec<u64> = data_a.clone();
    let mut aux_b: Vec<u64> = aux_a.clone();
    let ghost data = data_a@;
    proof {
        assert(data_b@ =~= data_a@);
        assert(aux_b@ =~= aux_a@);
        assert forall|j: int| 0 <= j < data.len() implies {
            &&& ReplaceItem.accepts(j, #[trigger] data[j])
            &&& aimed_within(ReplaceItem.updates(j, data[j]), PROB_SIZE as int)
        } by {}
        assert(data_after1(ReplaceItem, data) =~= data);
    }
    execute_all(pool, &mut data_a, &mut aux_a, ReplaceItem);
    execute_all(pool, &mut data_b, &mut aux_b, ReplaceItem);
    TwoRuns { data_a, aux_a, data_b, aux_b }
}

/// What the run over random data leaves. The data is the numbers drawn from `i` on, and stays as
/// it is. An auxiliary number at which no item of the data points stays zero. Any other becomes
/// the index of an item that points at it, namely of the one whose turn comes last.
pub proof fn law_the_last_one_replaces(pool: &mut Pool, i: u32, runs: TwoRuns, x: int)
    requires
        call_ensures(test_determinism_iteration, (pool, i), runs),
        0 <= x < PROB_SIZE,
    ensures
        runs.data_a@.len() == PROB_SIZE,
        runs.aux_a@.len() == PROB_SIZE,
        forall|j: int| 0 <= j < PROB_SIZE ==> #[trigger] runs.data_a@[j] == drawn(i, j + 1),
        (forall|j: int| 0 <= j < PROB_SIZE ==> #[trigger] runs.data_a@[j] as int % 100_000 != x)
            ==> runs.aux_a@[x] == 0,
        forall|j: int|
            0 <= j < PROB_SIZE && #[trigger] runs.data_a@[j] as int % 100_000 == x ==> {
                let last = runs.aux_a@[x] as int;
                &&& last < PROB_SIZE
                &&& runs.data_a@[last] as int % 100_000 == x
                &&& j == last || comes_before(100_000, x / 12_500, j, last)
            },
{
    let data = runs.data_a@;
    let aux = Seq::new(PROB_SIZE as nat, |y: int| 0u64);
    let order = application_order(100_000, x / 12_500);
    let g = updates_of(ReplaceItem, data, x);
    lemma_drawn(i);
    lemma_numbers_drawn(i, 0, PROB_SIZE as int);
    law_every_item_has_one_turn(100_000, x / 12_500);
    assert forall|j: int| 0 <= j < PROB_SIZE implies #[trigger] data[j] == drawn(i, j + 1) by {
        assert(data[j] == drawn(i, 0 + 1 + j) as u64);
    }
    assert forall|j: int| 0 <= j < PROB_SIZE implies #[trigger] g(j) == (if data[j] as int
        % 100_000 == x {
        seq![Replace { value: j as u64 }]
    } else {
        Seq::empty()
    }) by {
        assert(data[j] == drawn(i, j + 1));
        let u = ((data[j] as usize % PROB_SIZE) as usize, Replace { value: j as u64 });
        assert(ReplaceItem.updates(j, data[j]) == seq![u]);
        lemma_one_pick(u, aimed_at::<Replace>(x));
    }
    let ops = joined(order, g);
    assert(runs.aux_a@[x] == apply_ops(ops, 0u64));
    if ops.len() > 0 {
        let a = lemma_joined_last(order, g);
        let last = order[a];
        assert(order.contains(last));
        assert(g(last) == seq![Replace { value: last as u64 }]);
        assert(runs.aux_a@[x] == last);
        assert forall|j: int|
            0 <= j < PROB_SIZE && #[trigger] data[j] as int % 100_000 == x && j
                != last implies comes_before(100_000, x / 12_500, j, last) by {
            assert(order.contains(j));
            let b = choose|b: int| 0 <= b < order.len() && order[b] == j;
            assert(g(j) == seq![Replace { value: j as u64 }]);
            assert(b < a);
            law_order_by_turns(100_000, x / 12_500, b, a);
        }
    } else {
        assert forall|j: int| 0 <= j < PROB_SIZE implies #[trigger] data[j] as int % 100_000
            != x by {
            if data[j] as int % 100_000 == x {
                assert(order.contains(j));
                let b = choose|b: int| 0 <= b < order.len() && order[b] == j;
                assert(g(j) == seq![Replace { value: j as u64 }]);
                lemma_joined_contains(order, g, b);
            }
        }
    }
}

proof fn lemma_joined_contains(order: Seq<int>, g: spec_fn(int) -> Seq<Replace>, b: int)
    requires
        0 <= b < order.len(),
    ensures
        joined(order, g).len() >= g(order[b]).len(),
    decreases order.len(),
{
    let r = order.drop_last();
    if b < r.len() {
        assert(r[b] == order[b]);
        lemma_joined_contains(r, g, b);
    }
}

} // verus!
