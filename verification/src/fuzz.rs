//! Runs on random inputs, beside plain loops that do the same.
use vstd::prelude::*;

use crate::aux_op::{all_commute, AuxOp};
use crate::mypool3::{execute_all, execute_all2, Pool};
use crate::ptr_holder_1::{
    aimed_within, all_accepted1, aux_after1, data_after1, law_commuting_updates_as_in_a_loop1,
    lemma_tagged1_push, loop_after1, tagged1, updates_of, updating1, Context1, ItemFn1,
};
use crate::ptr_holder_2::{
    aimed_within2, all_accepted2, data_after2, first_after2, law_commuting_updates_as_in_a_loop2,
    lemma_tagged2_push, loop_after2, second_after2, tagged2, updates_of_first, updates_of_second,
    updating2, Context2, ItemFn2, Update2,
};
use crate::scheduler::lemma_held_with_nothing;
use crate::xor_rng::{
    drawn, gen_data, gen_size, lemma_drawn, lemma_numbers_drawn, mutated, numbers, size_from,
    xorshift, xorshift_n, Mutator, XorRng,
};

verus! {

/// An update of an auxiliary number.
pub enum FuzzOp {
    /// What a [`Mutator`] does that has this generator and these two numbers.
    Mutate { rng: XorRng, xval: u64, x: u64 },
    /// Flips the last bit.
    Flip,
}

impl AuxOp<u64> for FuzzOp {
    open spec fn applied(&self, item: u64) -> u64 {
        match self {
            FuzzOp::Mutate { rng, xval, x } => mutated(rng.state, *xval, *x, item),
            FuzzOp::Flip => item ^ 1,
        }
    }

    fn apply(self, item: &mut u64) {
        match self {
            FuzzOp::Mutate { rng, xval, x } => {
                let mut mutator = Mutator::new(rng, &xval, x);
                mutator.mutate(item);
            },
            FuzzOp::Flip => {
                *item = *item ^ 1;
            },
        }
    }
}

/// The updates of this kind commute: all of them combine the item with a number by
/// exclusive or.
proof fn lemma_fuzz_ops_commute(a: FuzzOp, b: FuzzOp, item: u64)
    ensures
        a.applied(b.applied(item)) == b.applied(a.applied(item)),
{
    let (ax, ay, az) = match a {
        FuzzOp::Mutate { rng, xval, x } => (x, xval, xorshift(rng.state) as u64),
        FuzzOp::Flip => (1u64, 0u64, 0u64),
    };
    let (bx, by, bz) = match b {
        FuzzOp::Mutate { rng, xval, x } => (x, xval, xorshift(rng.state) as u64),
        FuzzOp::Flip => (1u64, 0u64, 0u64),
    };
    assert(forall|i: u64| #[trigger] (i ^ 1) == i ^ 1 ^ 0 ^ 0) by (bit_vector);
    assert(item ^ bx ^ by ^ bz ^ ax ^ ay ^ az == item ^ ax ^ ay ^ az ^ bx ^ by ^ bz)
        by (bit_vector);
}

proof fn lemma_fuzz_ops_all_commute(len: int, ops: spec_fn(int) -> Seq<FuzzOp>)
    ensures
        all_commute::<u64, FuzzOp>(len, ops),
{
    assert forall|i: int, j: int, p: int, q: int, a: u64|
        0 <= i < len && 0 <= j < len && 0 <= p < ops(i).len() && 0 <= q < ops(
            j,
        ).len() implies #[trigger] ops(i)[p].applied(ops(j)[q].applied(a)) == ops(j)[q].applied(
        ops(i)[p].applied(a),
    ) by {
        lemma_fuzz_ops_commute(ops(i)[p], ops(j)[q], a);
    }
}

/// The visit of an item: it is increased by one, and if there are auxiliary items, a random
/// one of them is updated twice.
#[derive(Clone, Copy)]
pub struct FuzzItem {
    pub rng: XorRng,
    pub aux_size: usize,
}

impl FuzzItem {
    /// The state of the generator after the random index for the item at `idx` was taken.
    pub open spec fn state(self, idx: int) -> u32 {
        xorshift(self.rng.state ^ (idx as u32))
    }

    /// The auxiliary item that the item at `idx` updates.
    pub open spec fn target(self, idx: int) -> usize {
        (self.state(idx) as usize % self.aux_size) as usize
    }
}

impl ItemFn1<u64, FuzzOp> for FuzzItem {
    open spec fn accepts(&self, idx: int, item: u64) -> bool {
        item < u64::MAX
    }

    open spec fn item_after(&self, idx: int, item: u64) -> u64 {
        (item + 1) as u64
    }

    open spec fn updates(&self, idx: int, item: u64) -> Seq<(usize, FuzzOp)> {
        if self.aux_size == 0 {
            Seq::empty()
        } else {
            seq![
                (
                    self.target(idx),
                    FuzzOp::Mutate {
                        rng: XorRng { state: self.state(idx) },
                        xval: (item + 1) as u64,
                        x: idx as u64,
                    },
                ),
                (self.target(idx), FuzzOp::Flip),
            ]
        }
    }

    fn call(&self, idx: usize, item: &mut u64, ctx: Context1<'_, FuzzOp>) {
        let ghost item0 = *item;
        let ghost holder = ctx.ptr_holder.holder();
        let ghost held = ctx.ptr_holder.held();
        let ghost updates = self.updates(idx as int, item0);
        let ghost none = Seq::<(usize, FuzzOp)>::empty();
        proof {
            assert(tagged1(holder, none) =~= Seq::empty());
            lemma_held_with_nothing(held);
        }
        *item = *item + 1;
        if self.aux_size == 0 {
            return;
        }
        let mut ctx = ctx;
        let mut rng: XorRng = self.rng;
        rng.mix_in(#[verifier::truncate] (idx as u32));
        let mut mutator = Mutator::new(rng, &*item, idx as u64);
        if let Some(aux_idx) = mutator.aux_item(self.aux_size) {
            let op = FuzzOp::Mutate { rng: mutator.rng(), xval: *item, x: idx as u64 };
            proof {
                assert(updates[0] == (aux_idx, op) && updates[1] == (aux_idx, FuzzOp::Flip));
                assert(aux_idx < holder.len());
                holder.lemma_channel(aux_idx as int);
                lemma_tagged1_push(holder, held, none, aux_idx, op);
                lemma_tagged1_push(holder, held, none.push((aux_idx, op)), aux_idx, FuzzOp::Flip);
                assert(none.push((aux_idx, op)).push((aux_idx, FuzzOp::Flip)) =~= updates);
            }
            ctx.schedule(aux_idx, op);
            ctx.schedule(aux_idx, FuzzOp::Flip);
        }
    }
}

/// The data, the auxiliary vector and the generator that a seed stands for.
pub open spec fn fuzz_input(seed: u32) -> (Seq<u64>, Seq<u64>, XorRng) {
    let s1 = xorshift(XorRng::seeded(seed).state);
    let s2 = xorshift(s1);
    let data_size = size_from(s1) as nat;
    let aux_size = size_from(s2) as nat;
    let s3 = xorshift_n(s2, data_size);
    (
        numbers(s2, data_size),
        numbers(s3, aux_size),
        XorRng { state: xorshift_n(s3, aux_size) },
    )
}

/// What a run leaves, and beside it what a plain loop leaves.
pub struct FuzzOutcome {
    pub data: Vec<u64>,
    pub aux: Vec<u64>,
    pub data2: Vec<u64>,
    pub aux2: Vec<u64>,
}

/// Visits the items in a plain loop, and applies each update at once.
fn fuzz_loop(f: FuzzItem, data: &mut Vec<u64>, aux: &mut Vec<u64>)
    requires
        f.aux_size == old(aux)@.len(),
        forall|i: int| 0 <= i < old(data)@.len() ==> #[trigger] old(data)@[i] < u64::MAX,
    ensures
        final(data)@ == data_after1(f, old(data)@),
        final(aux)@ == loop_after1(f, old(data)@, old(aux)@, old(data)@.len() as int),
{
    let ghost data0 = data@;
    let mut idx: usize = 0;
    while idx < data.len()
        invariant
            idx <= data@.len(),
            data@.len() == data0.len(),
            f.aux_size == aux@.len(),
            f.aux_size == old(aux)@.len(),
            forall|i: int| 0 <= i < data0.len() ==> #[trigger] data0[i] < u64::MAX,
            forall|i: int|
                0 <= i < data0.len() ==> #[trigger] data@[i] == (if i < idx {
                    f.item_after(i, data0[i])
                } else {
                    data0[i]
                }),
            aux@ == loop_after1(f, data0, old(aux)@, idx as int),
        decreases data@.len() - idx,
    {
        let ghost before = aux@;
        let ghost updates = f.updates(idx as int, data0[idx as int]);
        let ghost step = updating1::<u64, FuzzOp>();
        assert(data@[idx as int] == data0[idx as int]);
        let x: u64 = data[idx] + 1;
        data[idx] = x;
        if f.aux_size != 0 {
            let mut rng: XorRng = f.rng;
            rng.mix_in(#[verifier::truncate] (idx as u32));
            let mut mutator = Mutator::new(rng, &x, idx as u64);
            if let Some(aux_idx) = mutator.aux_item(f.aux_size) {
                let item = &mut aux[aux_idx];
                mutator.mutate(item);
                aux[aux_idx] = aux[aux_idx] ^ 1;
                proof {
                    let first = updates.drop_last();
                    assert(first.drop_last() =~= Seq::empty());
                    assert(first.drop_last().fold_left(before, step) == before);
                    assert(first.last() == updates[0]);
                    assert(first.fold_left(before, step) == step(before, updates[0]));
                    assert(updates.fold_left(before, step) == step(
                        step(before, updates[0]),
                        updates[1],
                    ));
                    assert(aux@ =~= updates.fold_left(before, step));
                }
            }
        } else {
            assert(updates.fold_left(before, step) == before);
        }
        idx = idx + 1;
    }
    assert(data@ =~= data_after1(f, data0));
}

/// Makes random data and a random auxiliary vector out of `seed`, and visits the data with
/// the pool and in a plain loop. Both leave the same.
pub fn fuzz_iteration(pool: &mut Pool, seed: u32) -> (outcome: FuzzOutcome)
    requires
        old(pool).wf(),
        old(pool).idle(),
    ensures
        final(pool).wf(),
        final(pool).idle(),
        final(pool).cores() == old(pool).cores(),
        ({
            let (data, aux, rng) = fuzz_input(seed);
            let f = FuzzItem { rng, aux_size: aux.len() as usize };
            &&& outcome.data@ == data_after1(f, data)
            &&& outcome.aux@ == loop_after1(f, data, aux, data.len() as int)
        }),
        outcome.data2@ == outcome.data@,
        outcome.aux2@ == outcome.aux@,
{
    let mut rng: XorRng = XorRng::new(seed);
    let data_size: usize = gen_size(&mut rng);
    let aux_size: usize = gen_size(&mut rng);
    let mut data: Vec<u64> = gen_data(&mut rng, data_size);
    let mut aux: Vec<u64> = gen_data(&mut rng, aux_size);
    let mut data2: Vec<u64> = data.clone();
    let mut aux2: Vec<u64> = aux.clone();
    let f = FuzzItem { rng, aux_size };
    let ghost data0 = data@;
    let ghost aux0 = aux@;
    proof {
        assert(data2@ =~= data0);
        assert(aux2@ =~= aux0);
        lemma_fuzz_commutes(f, data0, aux0);
    }
    execute_all(pool, &mut data, &mut aux, f);
    fuzz_loop(f, &mut data2, &mut aux2);
    FuzzOutcome { data, aux, data2, aux2 }
}

proof fn lemma_fuzz_commutes(f: FuzzItem, data: Seq<u64>, aux: Seq<u64>)
    requires
        f.aux_size == aux.len(),
        forall|i: int| 0 <= i < data.len() ==> #[trigger] data[i] < u64::MAX,
    ensures
        all_accepted1(f, data, aux.len() as int),
        aux_after1(f, data, aux) == loop_after1(f, data, aux, data.len() as int),
{
    assert forall|i: int| 0 <= i < data.len() implies {
        &&& f.accepts(i, #[trigger] data[i])
        &&& aimed_within(f.updates(i, data[i]), aux.len() as int)
    } by {}
    assert forall|x: int| 0 <= x < aux.len() implies all_commute::<u64, FuzzOp>(
        data.len() as int,
        #[trigger] updates_of(f, data, x),
    ) by {
        lemma_fuzz_ops_all_commute(data.len() as int, updates_of(f, data, x));
    }
    law_commuting_updates_as_in_a_loop1(f, data, aux);
}

/// The visit of an item: it is increased by one, and if both auxiliary vectors have items, a
/// random item of each is updated.
#[derive(Clone, Copy)]
pub struct FuzzItem2 {
    pub rng: XorRng,
    pub aux_size0: usize,
    pub aux_size1: usize,
}

impl FuzzItem2 {
    /// The state of the generators after the random indices for the item at `idx` were taken.
    pub open spec fn state(self, idx: int) -> u32 {
        xorshift(self.rng.state ^ (idx as u32))
    }

    /// The item of the first vector that the item at `idx` updates.
    pub open spec fn target0(self, idx: int) -> usize {
        (self.state(idx) as usize % self.aux_size0) as usize
    }

    /// The item of the second vector that the item at `idx` updates.
    pub open spec fn target1(self, idx: int) -> usize {
        (self.state(idx) as usize % self.aux_size1) as usize
    }

    /// The update of both.
    pub open spec fn op(self, idx: int, item: u64) -> FuzzOp {
        FuzzOp::Mutate {
            rng: XorRng { state: self.state(idx) },
            xval: (item + 1) as u64,
            x: idx as u64,
        }
    }
}

impl ItemFn2<u64, FuzzOp, FuzzOp> for FuzzItem2 {
    open spec fn accepts(&self, idx: int, item: u64) -> bool {
        item < u64::MAX
    }

    open spec fn item_after(&self, idx: int, item: u64) -> u64 {
        (item + 1) as u64
    }

    open spec fn updates(&self, idx: int, item: u64) -> Seq<Update2<FuzzOp, FuzzOp>> {
        if self.aux_size0 == 0 || self.aux_size1 == 0 {
            Seq::empty()
        } else {
            seq![
                Update2::First(self.target0(idx), self.op(idx, item)),
                Update2::Second(self.target1(idx), self.op(idx, item)),
            ]
        }
    }

    fn call(&self, idx: usize, item: &mut u64, ctx: Context2<'_, FuzzOp, FuzzOp>) {
        let ghost item0 = *item;
        let ghost holder = ctx.ptr_holder.holder();
        let ghost held = ctx.ptr_holder.held();
        let ghost updates = self.updates(idx as int, item0);
        let ghost none = Seq::<Update2<FuzzOp, FuzzOp>>::empty();
        proof {
            assert(tagged2(holder, none) =~= Seq::empty());
            lemma_held_with_nothing(held);
        }
        let mut rng: XorRng = self.rng;
        rng.mix_in(#[verifier::truncate] (idx as u32));
        *item = *item + 1;
        if self.aux_size0 == 0 || self.aux_size1 == 0 {
            return;
        }
        let mut ctx = ctx;
        let mut mutator = Mutator::new(rng, &*item, idx as u64);
        let mut mutator2 = Mutator::new(rng, &*item, idx as u64);
        let index0: Option<usize> = mutator.aux_item(self.aux_size0);
        let index1: Option<usize> = mutator2.aux_item(self.aux_size1);
        if let (Some(index0), Some(index1)) = (index0, index1) {
            let op0 = FuzzOp::Mutate { rng: mutator.rng(), xval: *item, x: idx as u64 };
            let op1 = FuzzOp::Mutate { rng: mutator2.rng(), xval: *item, x: idx as u64 };
            proof {
                let u0 = Update2::First(index0, op0);
                let u1 = Update2::Second(index1, op1);
                assert(updates[0] == u0 && updates[1] == u1);
                holder.first().lemma_channel(index0 as int);
                holder.second().lemma_channel(index1 as int);
                lemma_tagged2_push(holder, held, none, u0);
                lemma_tagged2_push(holder, held, none.push(u0), u1);
                assert(none.push(u0).push(u1) =~= updates);
            }
            ctx.schedule0(index0, op0);
            ctx.schedule1(index1, op1);
        }
    }
}

/// The data, the two auxiliary vectors and the generator that a seed stands for.
pub open spec fn fuzz_input2(seed: u32) -> (Seq<u64>, (Seq<u64>, Seq<u64>), XorRng) {
    let s1 = xorshift(XorRng::seeded(seed).state);
    let s2 = xorshift(s1);
    let s3 = xorshift(s2);
    let data_size = size_from(s1) as nat;
    let aux_size0 = size_from(s2) as nat;
    let aux_size1 = size_from(s3) as nat;
    let s4 = xorshift_n(s3, data_size);
    let s5 = xorshift_n(s4, aux_size0);
    (
        numbers(s3, data_size),
        (numbers(s4, aux_size0), numbers(s5, aux_size1)),
        XorRng { state: xorshift_n(s5, aux_size1) },
    )
}

/// What a run leaves, and beside it what a plain loop leaves.
pub struct FuzzOutcome2 {
    pub data: Vec<u64>,
    pub aux0: Vec<u64>,
    pub aux1: Vec<u64>,
    pub datab: Vec<u64>,
    pub aux0b: Vec<u64>,
    pub aux1b: Vec<u64>,
}

/// Visits the items in a plain loop, and applies each update at once.
fn fuzz_loop2(f: FuzzItem2, data: &mut Vec<u64>, aux0: &mut Vec<u64>, aux1: &mut Vec<u64>)
    requires
        f.aux_size0 == old(aux0)@.len(),
        f.aux_size1 == old(aux1)@.len(),
        forall|i: int| 0 <= i < old(data)@.len() ==> #[trigger] old(data)@[i] < u64::MAX,
    ensures
        final(data)@ == data_after2(f, old(data)@),
        (final(aux0)@, final(aux1)@) == loop_after2(
            f,
            old(data)@,
            (old(aux0)@, old(aux1)@),
            old(data)@.len() as int,
        ),
{
    let ghost data0 = data@;
    let mut idx: usize = 0;
    while idx < data.len()
        invariant
            idx <= data@.len(),
            data@.len() == data0.len(),
            f.aux_size0 == aux0@.len(),
            f.aux_size1 == aux1@.len(),
            forall|i: int| 0 <= i < data0.len() ==> #[trigger] data0[i] < u64::MAX,
            forall|i: int|
                0 <= i < data0.len() ==> #[trigger] data@[i] == (if i < idx {
                    f.item_after(i, data0[i])
                } else {
                    data0[i]
                }),
            (aux0@, aux1@) == loop_after2(f, data0, (old(aux0)@, old(aux1)@), idx as int),
        decreases data@.len() - idx,
    {
        let ghost before = (aux0@, aux1@);
        let ghost updates = f.updates(idx as int, data0[idx as int]);
        let ghost step = updating2::<u64, u64, FuzzOp, FuzzOp>();
        assert(data@[idx as int] == data0[idx as int]);
        let x: u64 = data[idx] + 1;
        data[idx] = x;
        if f.aux_size0 != 0 && f.aux_size1 != 0 {
            let mut rng: XorRng = f.rng;
            rng.mix_in(#[verifier::truncate] (idx as u32));
            let mut mutator = Mutator::new(rng, &x, idx as u64);
            let mut mutator2 = Mutator::new(rng, &x, idx as u64);
            if let Some(aux_idx) = mutator.aux_item(f.aux_size0) {
                let item = &mut aux0[aux_idx];
                mutator.mutate(item);
            }
            if let Some(aux_idx) = mutator2.aux_item(f.aux_size1) {
                let item = &mut aux1[aux_idx];
                mutator2.mutate(item);
            }
            proof {
                let first = updates.drop_last();
                assert(first.drop_last() =~= Seq::empty());
                assert(first.drop_last().fold_left(before, step) == before);
                assert(first.last() == updates[0]);
                assert(first.fold_left(before, step) == step(before, updates[0]));
                assert(updates.fold_left(before, step) == step(
                    step(before, updates[0]),
                    updates[1],
                ));
                assert(aux0@ =~= updates.fold_left(before, step).0);
                assert(aux1@ =~= updates.fold_left(before, step).1);
            }
        } else {
            assert(updates.fold_left(before, step) == before);
        }
        idx = idx + 1;
    }
    assert(data@ =~= data_after2(f, data0));
}

proof fn lemma_fuzz_commutes2(f: FuzzItem2, data: Seq<u64>, aux: (Seq<u64>, Seq<u64>))
    requires
        f.aux_size0 == aux.0.len(),
        f.aux_size1 == aux.1.len(),
        forall|i: int| 0 <= i < data.len() ==> #[trigger] data[i] < u64::MAX,
    ensures
        all_accepted2(f, data, aux.0.len() as int, aux.1.len() as int),
        first_after2(f, data, aux.0) == loop_after2(f, data, aux, data.len() as int).0,
        second_after2(f, data, aux.1) == loop_after2(f, data, aux, data.len() as int).1,
{
    assert forall|i: int| 0 <= i < data.len() implies {
        &&& f.accepts(i, #[trigger] data[i])
        &&& aimed_within2(f.updates(i, data[i]), aux.0.len() as int, aux.1.len() as int)
    } by {}
    assert forall|x: int| 0 <= x < aux.0.len() implies all_commute::<u64, FuzzOp>(
        data.len() as int,
        #[trigger] updates_of_first(f, data, x),
    ) by {
        lemma_fuzz_ops_all_commute(data.len() as int, updates_of_first(f, data, x));
    }
    assert forall|x: int| 0 <= x < aux.1.len() implies all_commute::<u64, FuzzOp>(
        data.len() as int,
        #[trigger] updates_of_second(f, data, x),
    ) by {
        lemma_fuzz_ops_all_commute(data.len() as int, updates_of_second(f, data, x));
    }
    law_commuting_updates_as_in_a_loop2(f, data, aux);
}

/// Makes random data and two random auxiliary vectors out of `seed`, and visits the data with
/// the pool and in a plain loop. Both leave the same.
pub fn fuzz_iteration2(pool: &mut Pool, seed: u32) -> (outcome: FuzzOutcome2)
    requires
        old(pool).wf(),
        old(pool).idle(),
    ensures
        final(pool).wf(),
        final(pool).idle(),
        final(pool).cores() == old(pool).cores(),
        ({
            let (data, aux, rng) = fuzz_input2(seed);
            let f = FuzzItem2 {
                rng,
                aux_size0: aux.0.len() as usize,
                aux_size1: aux.1.len() as usize,
            };
            &&& outcome.data@ == data_after2(f, data)
            &&& (outcome.aux0@, outcome.aux1@) == loop_after2(f, data, aux, data.len() as int)
        }),
        outcome.datab@ == outcome.data@,
        outcome.aux0b@ == outcome.aux0@,
        outcome.aux1b@ == outcome.aux1@,
{
    let mut rng: XorRng = XorRng::new(seed);
    let data_size: usize = gen_size(&mut rng);
    let aux_size0: usize = gen_size(&mut rng);
    let aux_size1: usize = gen_size(&mut rng);
    let mut data: Vec<u64> = gen_data(&mut rng, data_size);
    let mut aux0: Vec<u64> = gen_data(&mut rng, aux_size0);
    let mut aux1: Vec<u64> = gen_data(&mut rng, aux_size1);
    let mut datab: Vec<u64> = data.clone();
    let mut aux0b: Vec<u64> = aux0.clone();
    let mut aux1b: Vec<u64> = aux1.clone();
    let f = FuzzItem2 { rng, aux_size0, aux_size1 };
    proof {
        assert(datab@ =~= data@);
        assert(aux0b@ =~= aux0@);
        assert(aux1b@ =~= aux1@);
        lemma_fuzz_commutes2(f, data@, (aux0@, aux1@));
    }
    execute_all2(pool, &mut data, &mut aux0, &mut aux1, f);
    fuzz_loop2(f, &mut datab, &mut aux0b, &mut aux1b);
    FuzzOutcome2 { data, aux0, aux1, datab, aux0b, aux1b }
}

/// The auxiliary vector `after` is `before`, but for one item: the one that the number drawn
/// after the index `k` was mixed into the generator selects. It is combined by exclusive or with
/// the index, with the item of the data as it is after its visit, with the number drawn next, and
/// with `last`.
pub open spec fn mixed(
    before: Seq<u64>,
    after: Seq<u64>,
    state: u32,
    k: int,
    item: u64,
    last: u64,
) -> bool {
    let first = xorshift(state ^ (k as u32));
    let second = xorshift(first);
    let target = first as int % before.len() as int;
    &&& after.len() == before.len()
    &&& after[target] == before[target] ^ (k as u64) ^ item ^ (second as u64) ^ last
    &&& forall|y: int| 0 <= y < before.len() && y != target ==> #[trigger] after[y] == before[y]
}

/// The states of the auxiliary vector: as it is drawn, and after each of the visits. `data` is
/// what the visits leave.
pub open spec fn fuzz_states(seed: u32, data: Seq<u64>, states: Seq<Seq<u64>>) -> bool {
    let n = size_from(drawn(seed, 1));
    let m = size_from(drawn(seed, 2));
    &&& states.len() == n + 1
    &&& states[0].len() == m
    &&& forall|y: int| 0 <= y < m ==> #[trigger] states[0][y] == drawn(seed, 3 + n + y)
    &&& forall|k: int|
        #![trigger data[k]]
        0 <= k < n ==> if m > 0 {
            mixed(states[k], states[k + 1], drawn(seed, 2 + n + m), k, data[k], 1)
        } else {
            states[k + 1] == states[k]
        }
}

/// The states of both auxiliary vectors: as they are drawn, and after each of the visits. `data`
/// is what the visits leave.
pub open spec fn fuzz_states2(
    seed: u32,
    data: Seq<u64>,
    states: Seq<(Seq<u64>, Seq<u64>)>,
) -> bool {
    let n = size_from(drawn(seed, 1));
    let m0 = size_from(drawn(seed, 2));
    let m1 = size_from(drawn(seed, 3));
    let state = drawn(seed, 3 + n + m0 + m1);
    &&& states.len() == n + 1
    &&& states[0].0.len() == m0
    &&& states[0].1.len() == m1
    &&& forall|y: int| 0 <= y < m0 ==> #[trigger] states[0].0[y] == drawn(seed, 4 + n + y)
    &&& forall|y: int| 0 <= y < m1 ==> #[trigger] states[0].1[y] == drawn(seed, 4 + n + m0 + y)
    &&& forall|k: int|
        #![trigger data[k]]
        0 <= k < n ==> if m0 > 0 && m1 > 0 {
            &&& mixed(states[k].0, states[k + 1].0, state, k, data[k], 0)
            &&& mixed(states[k].1, states[k + 1].1, state, k, data[k], 0)
        } else {
            states[k + 1] == states[k]
        }
}

proof fn lemma_fuzz_step(f: FuzzItem, data: Seq<u64>, aux: Seq<u64>, k: int)
    requires
        f.aux_size == aux.len(),
        0 <= k,
    ensures
        loop_after1(f, data, aux, k).len() == aux.len(),
        aux.len() > 0 ==> ({
            let updates = f.updates(k, data[k]);
            let step = updating1::<u64, FuzzOp>();
            loop_after1(f, data, aux, k + 1) == step(
                step(loop_after1(f, data, aux, k), updates[0]),
                updates[1],
            )
        }),
        aux.len() == 0 ==> loop_after1(f, data, aux, k + 1) == loop_after1(f, data, aux, k),
    decreases k,
{
    if k > 0 {
        lemma_fuzz_step(f, data, aux, k - 1);
    }
    let before = loop_after1(f, data, aux, k);
    let updates = f.updates(k, data[k]);
    let step = updating1::<u64, FuzzOp>();
    if aux.len() > 0 {
        let first = updates.drop_last();
        assert(first.drop_last() =~= Seq::empty());
        assert(first.drop_last().fold_left(before, step) == before);
        assert(first.last() == updates[0]);
        assert(first.fold_left(before, step) == step(before, updates[0]));
    } else {
        assert(updates.fold_left(before, step) == before);
    }
}

proof fn lemma_fuzz_step2(f: FuzzItem2, data: Seq<u64>, aux: (Seq<u64>, Seq<u64>), k: int)
    requires
        f.aux_size0 == aux.0.len(),
        f.aux_size1 == aux.1.len(),
        0 <= k,
    ensures
        loop_after2(f, data, aux, k).0.len() == aux.0.len(),
        loop_after2(f, data, aux, k).1.len() == aux.1.len(),
        aux.0.len() > 0 && aux.1.len() > 0 ==> ({
            let updates = f.updates(k, data[k]);
            let step = updating2::<u64, u64, FuzzOp, FuzzOp>();
            loop_after2(f, data, aux, k + 1) == step(
                step(loop_after2(f, data, aux, k), updates[0]),
                updates[1],
            )
        }),
        aux.0.len() == 0 || aux.1.len() == 0 ==> loop_after2(f, data, aux, k + 1) == loop_after2(
            f,
            data,
            aux,
            k,
        ),
    decreases k,
{
    if k > 0 {
        lemma_fuzz_step2(f, data, aux, k - 1);
    }
    let before = loop_after2(f, data, aux, k);
    let updates = f.updates(k, data[k]);
    let step = updating2::<u64, u64, FuzzOp, FuzzOp>();
    if aux.0.len() > 0 && aux.1.len() > 0 {
        let first = updates.drop_last();
        assert(first.drop_last() =~= Seq::empty());
        assert(first.drop_last().fold_left(before, step) == before);
        assert(first.last() == updates[0]);
        assert(first.fold_left(before, step) == step(before, updates[0]));
    } else {
        assert(updates.fold_left(before, step) == before);
    }
}

proof fn lemma_fuzz_states(
    seed: u32,
    f: FuzzItem,
    data: Seq<u64>,
    aux: Seq<u64>,
    after: Seq<u64>,
)
    requires
        data.len() == size_from(drawn(seed, 1)),
        aux == Seq::new(
            size_from(drawn(seed, 2)) as nat,
            |y: int| drawn(seed, 3 + data.len() + y) as u64,
        ),
        f.aux_size == aux.len(),
        f.rng.state == drawn(seed, 2 + data.len() as int + aux.len()),
        after == data_after1(f, data),
    ensures
        ({
            let states = Seq::new(data.len() + 1, |k: int| loop_after1(f, data, aux, k));
            &&& fuzz_states(seed, after, states)
            &&& states[data.len() as int] == loop_after1(f, data, aux, data.len() as int)
        }),
{
    let states = Seq::new(data.len() + 1, |k: int| loop_after1(f, data, aux, k));
    assert forall|k: int| 0 <= k < data.len() implies if aux.len() > 0 {
        mixed(states[k], states[k + 1], f.rng.state, k, #[trigger] after[k], 1)
    } else {
        states[k + 1] == states[k]
    } by {
        lemma_fuzz_step(f, data, aux, k);
    }
}

proof fn lemma_fuzz_states2(
    seed: u32,
    f: FuzzItem2,
    data: Seq<u64>,
    aux: (Seq<u64>, Seq<u64>),
    after: Seq<u64>,
)
    requires
        data.len() == size_from(drawn(seed, 1)),
        aux.0 == Seq::new(
            size_from(drawn(seed, 2)) as nat,
            |y: int| drawn(seed, 4 + data.len() + y) as u64,
        ),
        aux.1 == Seq::new(
            size_from(drawn(seed, 3)) as nat,
            |y: int| drawn(seed, 4 + data.len() + aux.0.len() + y) as u64,
        ),
        f.aux_size0 == aux.0.len(),
        f.aux_size1 == aux.1.len(),
        f.rng.state == drawn(seed, 3 + data.len() as int + aux.0.len() + aux.1.len()),
        after == data_after2(f, data),
    ensures
        ({
            let states = Seq::new(data.len() + 1, |k: int| loop_after2(f, data, aux, k));
            &&& fuzz_states2(seed, after, states)
            &&& states[data.len() as int] == loop_after2(f, data, aux, data.len() as int)
        }),
{
    let states = Seq::new(data.len() + 1, |k: int| loop_after2(f, data, aux, k));
    assert forall|k: int| 0 <= k < data.len() implies if aux.0.len() > 0 && aux.1.len() > 0 {
        &&& mixed(states[k].0, states[k + 1].0, f.rng.state, k, #[trigger] after[k], 0)
        &&& mixed(states[k].1, states[k + 1].1, f.rng.state, k, after[k], 0)
    } else {
        states[k + 1] == states[k]
    } by {
        lemma_fuzz_step2(f, data, aux, k);
        assert(forall|a: u64| #[trigger] (a ^ 0) == a) by (bit_vector);
    }
}

/// What a run on random input leaves, item by item. The numbers are drawn in this order: the size
/// of the data, that of the auxiliary vector, the data, the auxiliary vector. Each visit adds one
/// to its item and mixes one auxiliary item, whose last bit it flips too.
pub proof fn law_fuzz_outcome(pool: &mut Pool, seed: u32, outcome: FuzzOutcome)
    requires
        call_ensures(fuzz_iteration, (pool, seed), outcome),
    ensures
        ({
            let n = size_from(drawn(seed, 1));
            let m = size_from(drawn(seed, 2));
            &&& outcome.data@.len() == n
            &&& outcome.aux@.len() == m
            &&& forall|i: int|
                0 <= i < n ==> #[trigger] outcome.data@[i] == drawn(seed, 3 + i) + 1
            &&& exists|states: Seq<Seq<u64>>| #[trigger]
                fuzz_states(seed, outcome.data@, states) && states[n] == outcome.aux@
        }),
        outcome.data2@ == outcome.data@,
        outcome.aux2@ == outcome.aux@,
{
    let (data, aux, rng) = fuzz_input(seed);
    let f = FuzzItem { rng, aux_size: aux.len() as usize };
    let n = size_from(drawn(seed, 1));
    let m = size_from(drawn(seed, 2));
    lemma_drawn(seed);
    lemma_numbers_drawn(seed, 2, n);
    lemma_numbers_drawn(seed, 2 + n, m);
    lemma_fuzz_states(seed, f, data, aux, outcome.data@);
    lemma_fuzz_step(f, data, aux, n);
    let states = Seq::new(data.len() + 1, |k: int| loop_after1(f, data, aux, k));
    assert(fuzz_states(seed, outcome.data@, states) && states[n] == outcome.aux@);
    assert forall|i: int| 0 <= i < n implies #[trigger] outcome.data@[i] == drawn(
        seed,
        3 + i,
    ) + 1 by {
        assert(data[i] == drawn(seed, 2 + 1 + i) as u64);
    }
}

/// What a run on random input with two auxiliary vectors leaves, item by item. The numbers are
/// drawn in this order: the size of the data, those of the two auxiliary vectors, the data, the
/// first auxiliary vector, the second. Each visit adds one to its item, and if neither auxiliary
/// vector is empty it mixes one item of each.
pub proof fn law_fuzz_outcome2(pool: &mut Pool, seed: u32, outcome: FuzzOutcome2)
    requires
        call_ensures(fuzz_iteration2, (pool, seed), outcome),
    ensures
        ({
            let n = size_from(drawn(seed, 1));
            let m0 = size_from(drawn(seed, 2));
            let m1 = size_from(drawn(seed, 3));
            &&& outcome.data@.len() == n
            &&& outcome.aux0@.len() == m0
            &&& outcome.aux1@.len() == m1
            &&& forall|i: int|
                0 <= i < n ==> #[trigger] outcome.data@[i] == drawn(seed, 4 + i) + 1
            &&& exists|states: Seq<(Seq<u64>, Seq<u64>)>| #[trigger]
                fuzz_states2(seed, outcome.data@, states) && states[n] == (
                    outcome.aux0@,
                    outcome.aux1@,
                )
        }),
        outcome.datab@ == outcome.data@,
        outcome.aux0b@ == outcome.aux0@,
        outcome.aux1b@ == outcome.aux1@,
{
    let (data, aux, rng) = fuzz_input2(seed);
    let f = FuzzItem2 {
        rng,
        aux_size0: aux.0.len() as usize,
        aux_size1: aux.1.len() as usize,
    };
    let n = size_from(drawn(seed, 1));
    let m0 = size_from(drawn(seed, 2));
    let m1 = size_from(drawn(seed, 3));
    lemma_drawn(seed);
    lemma_numbers_drawn(seed, 3, n);
    lemma_numbers_drawn(seed, 3 + n, m0);
    lemma_numbers_drawn(seed, 3 + n + m0, m1);
    lemma_fuzz_states2(seed, f, data, aux, outcome.data@);
    lemma_fuzz_step2(f, data, aux, n);
    let states = Seq::new(data.len() + 1, |k: int| loop_after2(f, data, aux, k));
    assert(fuzz_states2(seed, outcome.data@, states) && states[n] == (
        outcome.aux0@,
        outcome.aux1@,
    ));
    assert forall|i: int| 0 <= i < n implies #[trigger] outcome.data@[i] == drawn(
        seed,
        4 + i,
    ) + 1 by {
        assert(data[i] == drawn(seed, 3 + 1 + i) as u64);
    }
}

} // verus!
