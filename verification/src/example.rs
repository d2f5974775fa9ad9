//! A small item type, updates of it, and a division of two vectors of such items.
use vstd::prelude::*;

use crate::PROB_SIZE;
use crate::aux_op::AuxOp;
use crate::chunks::{ceil_div, chunk_size};
use crate::mypool3::MAX_THREADS;
use crate::parts::lemma_item_part;
use crate::ptr_holder_2::Part2;
use crate::ring::ring_len;
use crate::scheduler::{Addressed, AuxHolder, AuxScheduler, AuxTask};

verus! {

/// An item that holds a number.
#[derive(PartialEq, Eq, Structural, Clone, Copy, Debug)]
pub struct ExampleItem {
    pub data: u64,
}

impl Default for ExampleItem {
    fn default() -> (item: Self)
        ensures
            item == (ExampleItem { data: 0 }),
    {
        ExampleItem { data: 0 }
    }
}

/// The items with the numbers from zero up to, not including, [`PROB_SIZE`].
pub fn make_example_data() -> (data: Vec<ExampleItem>)
    ensures
        data@ == Seq::new(PROB_SIZE as nat, |i: int| ExampleItem { data: i as u64 }),
{
    let mut data: Vec<ExampleItem> = Vec::new();
    let data_size: u64 = PROB_SIZE as u64;
    let mut i: u64 = 0;
    while i < data_size
        invariant
            i <= data_size,
            data_size == PROB_SIZE,
            data@ =~= Seq::new(i as nat, |j: int| ExampleItem { data: j as u64 }),
        decreases data_size - i,
    {
        data.push(ExampleItem { data: i });
        i = i + 1;
    }
    data
}

/// Adds a number to an item. Beyond the greatest number it goes on from zero.
pub struct Add {
    pub amount: u64,
}

impl AuxOp<ExampleItem> for Add {
    open spec fn applied(&self, item: ExampleItem) -> ExampleItem {
        ExampleItem { data: item.data.wrapping_add(self.amount) }
    }

    fn apply(self, item: &mut ExampleItem) {
        item.data = item.data.wrapping_add(self.amount);
    }
}

/// Adds one to a counter. Beyond the greatest number it goes on from zero.
pub struct Count;

impl AuxOp<usize> for Count {
    open spec fn applied(&self, item: usize) -> usize {
        item.wrapping_add(1)
    }

    fn apply(self, item: &mut usize) {
        *item = item.wrapping_add(1);
    }
}

/// How two vectors of items are divided into channels, each by itself.
#[derive(Clone, Copy)]
pub struct DoublePtrHolder {
    p1_len: usize,
    p1_chunksize: usize,
    p2_chunksize: usize,
}

impl DoublePtrHolder {
    /// The number of items in the first vector.
    pub closed spec fn len1(self) -> int {
        self.p1_len as int
    }

    /// The number of items of the first vector in each channel but the last.
    pub closed spec fn chunksize1(self) -> int {
        self.p1_chunksize as int
    }

    /// The number of items of the second vector in each channel but the last.
    pub closed spec fn chunksize2(self) -> int {
        self.p2_chunksize as int
    }

    /// There is a channel for every item of the first vector.
    pub open spec fn wf(self) -> bool {
        self.chunksize1() == ceil_div(self.len1(), ring_len())
    }

    /// The channel of the item at `index` of the first vector.
    pub open spec fn channel1(self, index: int) -> int {
        index / self.chunksize1()
    }

    /// Where the item at `index` of the first vector lies within the part of its channel.
    pub open spec fn place1(self, index: int) -> int {
        index % self.chunksize1()
    }

    /// The division of two vectors.
    pub fn new(aux1: &Vec<ExampleItem>, aux2: &Vec<ExampleItem>) -> (holder: DoublePtrHolder)
        ensures
            holder.wf(),
            holder.len1() == aux1@.len(),
            holder.chunksize2() == ceil_div(aux2@.len() as int, ring_len()),
    {
        DoublePtrHolder {
            p1_len: aux1.len(),
            p1_chunksize: chunk_size(aux1.len(), MAX_THREADS),
            p2_chunksize: chunk_size(aux2.len(), MAX_THREADS),
        }
    }

    /// The number of items of the first vector in each channel but the last.
    pub fn size1(&self) -> (size: usize)
        ensures
            size == self.chunksize1(),
    {
        self.p1_chunksize
    }

    /// The number of items of the second vector in each channel but the last.
    pub fn size2(&self) -> (size: usize)
        ensures
            size == self.chunksize2(),
    {
        self.p2_chunksize
    }

    /// The item at `index` of the first vector, in the part of its channel.
    fn get1<'p>(&self, aux: &'p mut Vec<ExampleItem>, index: usize) -> (item: &'p mut ExampleItem)
        requires
            self.chunksize1() > 0,
            self.place1(index as int) < old(aux)@.len(),
        ensures
            *item == old(aux)@[self.place1(index as int)],
            final(aux)@ == old(aux)@.update(self.place1(index as int), *final(item)),
    {
        &mut aux[index % self.p1_chunksize]
    }

    pub proof fn lemma_channel1(self, index: int)
        requires
            self.wf(),
            0 <= index < self.len1(),
        ensures
            self.chunksize1() > 0,
            0 <= self.channel1(index) < MAX_THREADS,
    {
        lemma_item_part(Seq::new(self.len1() as nat, |i: int| i), index);
    }

    /// Defers an update of the item at `index` of the first vector.
    pub fn schedule1<Op>(
        &self,
        ctx: &mut AuxScheduler<DoublePtrHolder, DoubleTask<Op>>,
        index: usize,
        f: Op,
    )
        requires
            self.wf(),
            index < self.len1(),
            old(ctx).wf(),
            old(ctx).holder() == *self,
        ensures
            final(ctx).wf(),
            final(ctx).holder() == old(ctx).holder(),
            0 <= self.channel1(index as int) < MAX_THREADS,
            final(ctx).held() == old(ctx).held().update(
                self.channel1(index as int),
                old(ctx).held()[self.channel1(index as int)].push(
                    DoubleTask { holder: *self, index, op: f },
                ),
            ),
    {
        proof {
            self.lemma_channel1(index as int);
        }
        ctx.schedule(
            (index / self.p1_chunksize) as u32,
            DoubleTask { holder: *self, index, op: f },
        );
    }
}

impl AuxHolder for DoublePtrHolder {
    fn cheap_copy(&self) -> (copy: Self) {
        DoublePtrHolder {
            p1_len: self.p1_len,
            p1_chunksize: self.p1_chunksize,
            p2_chunksize: self.p2_chunksize,
        }
    }
}

/// A deferred update of the item at `index` of the first vector.
pub struct DoubleTask<Op> {
    pub holder: DoublePtrHolder,
    pub index: usize,
    pub op: Op,
}

impl<Op> Addressed<DoublePtrHolder> for DoubleTask<Op> {
    open spec fn belongs(&self, aux: DoublePtrHolder, channel: int) -> bool {
        &&& self.holder == aux
        &&& self.index < aux.len1()
        &&& channel == aux.channel1(self.index as int)
    }
}

impl<Op: AuxOp<ExampleItem>> AuxTask<Part2<ExampleItem, ExampleItem>> for DoubleTask<Op> {
    open spec fn fits(&self, part: (Seq<ExampleItem>, Seq<ExampleItem>)) -> bool {
        &&& self.holder.chunksize1() > 0
        &&& self.holder.place1(self.index as int) < part.0.len()
    }

    open spec fn applied(&self, part: (Seq<ExampleItem>, Seq<ExampleItem>)) -> (
        Seq<ExampleItem>,
        Seq<ExampleItem>,
    ) {
        let place = self.holder.place1(self.index as int);
        (part.0.update(place, self.op.applied(part.0[place])), part.1)
    }

    proof fn fits_kept(&self, by: &Self, part: (Seq<ExampleItem>, Seq<ExampleItem>)) {
    }

    fn run(self, part: &mut Part2<ExampleItem, ExampleItem>) {
        let holder: DoublePtrHolder = self.holder;
        let item = holder.get1(&mut part.part0, self.index);
        self.op.apply(item);
    }
}

/// Counting adds one, and beyond the greatest number goes on from zero.
pub proof fn law_counting(item: usize)
    ensures
        Count.applied(item) == (if item == usize::MAX {
            0
        } else {
            item + 1
        }),
{
}

} // verus!
