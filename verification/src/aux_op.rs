//! Updates of a single auxiliary item.
use vstd::prelude::*;

use crate::order::{application_order, law_every_item_has_one_turn};
use crate::ring::ring_len;
use crate::seqs::{joined, lemma_fold_add, upto};

verus! {

/// An update of an auxiliary item.
pub trait AuxOp<A>: Sized {
    /// What the update makes of the item.
    spec fn applied(&self, item: A) -> A;

    fn apply(self, item: &mut A)
        ensures
            *final(item) == self.applied(*old(item)),
    ;
}

/// The effect of an update on an item, as a function of both.
pub open spec fn applying<A, Op: AuxOp<A>>() -> spec_fn(A, Op) -> A {
    |item: A, op: Op| op.applied(item)
}

/// The item after the given updates, one after the other.
pub open spec fn apply_ops<A, Op: AuxOp<A>>(ops: Seq<Op>, item: A) -> A {
    ops.fold_left(item, applying::<A, Op>())
}

/// The effect of a single update.
pub proof fn lemma_one_op<A, Op: AuxOp<A>>(op: Op, item: A)
    ensures
        apply_ops(seq![op], item) == op.applied(item),
{
    assert(seq![op].drop_last() =~= Seq::empty());
    assert(seq![op].drop_last().fold_left(item, applying::<A, Op>()) == item);
}

/// Of the updates `ops(i)` that the items `i` of an input of `len` items make, any two that two
/// different items make give the same result in either order.
pub open spec fn all_commute<A, Op: AuxOp<A>>(len: int, ops: spec_fn(int) -> Seq<Op>) -> bool {
    forall|i: int, j: int, p: int, q: int, a: A|
        0 <= i < len && 0 <= j < len && i != j && 0 <= p < ops(i).len() && 0 <= q < ops(j).len()
            ==> #[trigger] ops(i)[p].applied(ops(j)[q].applied(a)) == ops(j)[q].applied(
            ops(i)[p].applied(a),
        )
}

proof fn lemma_op_past_ops<A, Op: AuxOp<A>>(op: Op, ops: Seq<Op>, a: A)
    requires
        forall|q: int, b: A|
            0 <= q < ops.len() ==> op.applied(#[trigger] ops[q].applied(b)) == ops[q].applied(
                op.applied(b),
            ),
    ensures
        apply_ops(ops, op.applied(a)) == op.applied(apply_ops(ops, a)),
    decreases ops.len(),
{
    if ops.len() > 0 {
        let r = ops.drop_last();
        assert forall|q: int, b: A| 0 <= q < r.len() implies op.applied(
            #[trigger] r[q].applied(b),
        ) == r[q].applied(op.applied(b)) by {
            assert(r[q] == ops[q]);
        }
        lemma_op_past_ops(op, r, a);
        assert(ops.last() == ops[ops.len() - 1]);
        assert(op.applied(ops[ops.len() - 1].applied(apply_ops(r, a))) == ops[ops.len()
            - 1].applied(op.applied(apply_ops(r, a))));
    }
}

proof fn lemma_ops_past_ops<A, Op: AuxOp<A>>(first: Seq<Op>, second: Seq<Op>, a: A)
    requires
        forall|p: int, q: int, b: A|
            0 <= p < first.len() && 0 <= q < second.len() ==> #[trigger] first[p].applied(
                second[q].applied(b),
            ) == second[q].applied(first[p].applied(b)),
    ensures
        apply_ops(second, apply_ops(first, a)) == apply_ops(first, apply_ops(second, a)),
    decreases first.len(),
{
    if first.len() > 0 {
        let r = first.drop_last();
        let op = first[first.len() - 1];
        assert forall|p: int, q: int, b: A|
            0 <= p < r.len() && 0 <= q < second.len() implies #[trigger] r[p].applied(
            second[q].applied(b),
        ) == second[q].applied(r[p].applied(b)) by {
            assert(r[p] == first[p]);
        }
        lemma_ops_past_ops(r, second, a);
        assert forall|q: int, b: A| 0 <= q < second.len() implies op.applied(
            #[trigger] second[q].applied(b),
        ) == second[q].applied(op.applied(b)) by {
            assert(first[first.len() - 1].applied(second[q].applied(b)) == second[q].applied(
                first[first.len() - 1].applied(b),
            ));
        }
        lemma_op_past_ops(op, second, apply_ops(r, a));
    }
}

/// The updates of item `i`, all together, as one step of a fold over the items.
spec fn item_step<A, Op: AuxOp<A>>(len: int, ops: spec_fn(int) -> Seq<Op>) -> spec_fn(A, int) -> A {
    |a: A, i: int|
        if 0 <= i < len {
            apply_ops(ops(i), a)
        } else {
            a
        }
}

proof fn lemma_joined_fold<A, Op: AuxOp<A>>(
    len: int,
    order: Seq<int>,
    ops: spec_fn(int) -> Seq<Op>,
    a: A,
)
    requires
        forall|i: int| #[trigger] order.contains(i) ==> 0 <= i < len,
    ensures
        apply_ops(joined(order, ops), a) == order.fold_left(a, item_step(len, ops)),
    decreases order.len(),
{
    if order.len() > 0 {
        let r = order.drop_last();
        assert forall|i: int| #[trigger] r.contains(i) implies 0 <= i < len by {
            let p = choose|p: int| 0 <= p < r.len() && r[p] == i;
            assert(order[p] == i);
            assert(order.contains(i));
        }
        lemma_joined_fold(len, r, ops, a);
        assert(order[order.len() - 1] == order.last());
        assert(order.contains(order.last()));
        lemma_fold_add(joined(r, ops), ops(order.last()), a, applying::<A, Op>());
    }
}

/// A channel's order is a rearrangement of the items in their own order.
pub proof fn law_order_is_a_permutation(len: int, c: int)
    requires
        len >= 0,
        0 <= c < ring_len(),
    ensures
        application_order(len, c).to_multiset() == upto(0, len).to_multiset(),
{
    let order = application_order(len, c);
    let plain = upto(0, len);
    law_every_item_has_one_turn(len, c);
    order.lemma_multiset_has_no_duplicates();
    plain.lemma_multiset_has_no_duplicates();
    order.to_multiset_ensures();
    plain.to_multiset_ensures();
    assert forall|i: int| order.to_multiset().count(i) == plain.to_multiset().count(i) by {
        if 0 <= i < len {
            assert(plain[i] == i);
            assert(plain.contains(i));
            assert(order.contains(i));
        } else {
            assert(!order.contains(i));
            assert(!plain.contains(i));
        }
    }
    assert(order.to_multiset() =~= plain.to_multiset());
}

/// Where the updates of an item that different items of the data make commute, they leave it
/// as a plain loop over the data would. Those that one item makes keep their order.
pub proof fn law_commuting_ops_as_in_a_loop<A, Op: AuxOp<A>>(
    len: int,
    c: int,
    ops: spec_fn(int) -> Seq<Op>,
    a: A,
)
    requires
        len >= 0,
        0 <= c < ring_len(),
        all_commute::<A, Op>(len, ops),
    ensures
        apply_ops(joined(application_order(len, c), ops), a) == apply_ops(
            joined(upto(0, len), ops),
            a,
        ),
{
    let order = application_order(len, c);
    let plain = upto(0, len);
    let step = item_step::<A, Op>(len, ops);
    law_every_item_has_one_turn(len, c);
    law_order_is_a_permutation(len, c);
    lemma_joined_fold(len, order, ops, a);
    assert forall|i: int| #[trigger] plain.contains(i) implies 0 <= i < len by {
        let p = choose|p: int| 0 <= p < plain.len() && plain[p] == i;
    }
    lemma_joined_fold(len, plain, ops, a);
    assert forall|x: int, y: int, v: A| #[trigger] step(step(v, x), y) == step(step(v, y), x) by {
        if 0 <= x < len && 0 <= y < len && x != y {
            lemma_ops_past_ops(ops(x), ops(y), v);
        }
    }
    vstd::seq_lib::lemma_fold_left_permutation(order, plain, step, a);
}

} // verus!
