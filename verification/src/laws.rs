//! What a run leaves, item by item, in terms of what the visits defer.
use vstd::prelude::*;

use crate::aux_op::{apply_ops, lemma_one_op, AuxOp};
use crate::chunks::ceil_div;
use crate::mypool3::{execute_all, execute_all2, Pool};
use crate::order::{
    application_order, comes_before, law_every_item_has_one_turn, law_order_by_turns,
};
use crate::parts::lemma_item_part;
use crate::ptr_holder_1::{
    aimed_at, law_no_updates1, law_updates_of_one_item1, updates_of, ItemFn1,
};
use crate::ptr_holder_2::{
    first_at, law_no_updates_first2, law_no_updates_second2, law_updates_of_one_item_first2,
    law_updates_of_one_item_second2, second_at, updates_of_first, updates_of_second, ItemFn2,
    Update2,
};
use crate::ring::ring_len;
use crate::seqs::{
    joined, lemma_joined_push, lemma_joined_two, lemma_pick_last, lemma_pick_none, lemma_pick_only,
    lemma_pick_two,
};

verus! {

/// The effect of two updates.
proof fn lemma_two_ops<A, Op: AuxOp<A>>(first: Op, second: Op, item: A)
    ensures
        apply_ops(seq![first, second], item) == second.applied(first.applied(item)),
{
    assert(seq![first, second].drop_last() =~= seq![first]);
    lemma_one_op(first, item);
}

/// The effect of one update more.
proof fn lemma_pushed_op<A, Op: AuxOp<A>>(ops: Seq<Op>, op: Op, item: A)
    ensures
        apply_ops(ops.push(op), item) == op.applied(apply_ops(ops, item)),
{
    assert(ops.push(op).drop_last() =~= ops);
}

/// Where the turns of two items lie.
proof fn lemma_turns_in_order(len: int, c: int, i: int, j: int) -> (turns: (int, int))
    requires
        0 <= c < ring_len(),
        0 <= i < len,
        0 <= j < len,
        comes_before(len, c, i, j),
    ensures
        0 <= turns.0 < turns.1 < application_order(len, c).len(),
        application_order(len, c)[turns.0] == i,
        application_order(len, c)[turns.1] == j,
{
    let order = application_order(len, c);
    law_every_item_has_one_turn(len, c);
    assert(order.contains(i) && order.contains(j));
    let a = choose|a: int| 0 <= a < order.len() && order[a] == i;
    let b = choose|b: int| 0 <= b < order.len() && order[b] == j;
    if b < a {
        law_order_by_turns(len, c, b, a);
    }
    assert(i != j);
    (a, b)
}

/// After a run, an item of the auxiliary vector that no visit updates is as it was before.
pub proof fn law_untouched1<T, A0, Op: AuxOp<A0>, F: ItemFn1<T, Op>>(
    pool: &mut Pool,
    data: &mut Vec<T>,
    aux0: &mut Vec<A0>,
    f: F,
    x: usize,
)
    requires
        call_ensures(execute_all::<T, A0, Op, F>, (pool, data, aux0, f), ()),
        x < aux0@.len(),
        forall|j: int, q: int|
            0 <= j < data@.len() && 0 <= q < f.updates(j, data@[j]).len()
                ==> !(#[trigger] f.updates(j, data@[j])[q].0 == x),
    ensures
        final(aux0)@.len() == old(aux0)@.len(),
        final(aux0)@[x as int] == old(aux0)@[x as int],
{
    let g = updates_of(f, data@, x as int);
    assert forall|j: int| 0 <= j < data@.len() implies #[trigger] g(j) == Seq::<Op>::empty() by {
        lemma_pick_none(f.updates(j, data@[j]), aimed_at::<Op>(x as int));
    }
    law_no_updates1(f, data@, aux0@, x as int);
}

/// After a run, an item of the auxiliary vector that a single visit updates, once, is what that
/// update makes of it. The visit may update other items too.
pub proof fn law_one_update1<T, A0, Op: AuxOp<A0>, F: ItemFn1<T, Op>>(
    pool: &mut Pool,
    data: &mut Vec<T>,
    aux0: &mut Vec<A0>,
    f: F,
    x: usize,
    i: int,
    p: int,
    op: Op,
)
    requires
        call_ensures(execute_all::<T, A0, Op, F>, (pool, data, aux0, f), ()),
        x < aux0@.len(),
        0 <= i < data@.len(),
        0 <= p < f.updates(i, data@[i]).len(),
        f.updates(i, data@[i])[p] == (x, op),
        forall|j: int, q: int|
            0 <= j < data@.len() && 0 <= q < f.updates(j, data@[j]).len() && !(j == i && q == p)
                ==> !(#[trigger] f.updates(j, data@[j])[q].0 == x),
    ensures
        final(aux0)@.len() == old(aux0)@.len(),
        final(aux0)@[x as int] == op.applied(old(aux0)@[x as int]),
{
    let g = updates_of(f, data@, x as int);
    assert forall|j: int| 0 <= j < data@.len() && j != i implies #[trigger] g(j) == Seq::<
        Op,
    >::empty() by {
        lemma_pick_none(f.updates(j, data@[j]), aimed_at::<Op>(x as int));
    }
    lemma_pick_only(f.updates(i, data@[i]), aimed_at::<Op>(x as int), p, op);
    law_updates_of_one_item1(f, data@, aux0@, x as int, i);
    lemma_one_op(op, aux0@[x as int]);
}

/// After a run, an item of the auxiliary vector that a single visit updates twice is what the
/// update that was deferred later makes of what the earlier one makes of it.
pub proof fn law_two_updates_of_a_visit1<T, A0, Op: AuxOp<A0>, F: ItemFn1<T, Op>>(
    pool: &mut Pool,
    data: &mut Vec<T>,
    aux0: &mut Vec<A0>,
    f: F,
    x: usize,
    i: int,
    p: int,
    q: int,
    op_p: Op,
    op_q: Op,
)
    requires
        call_ensures(execute_all::<T, A0, Op, F>, (pool, data, aux0, f), ()),
        x < aux0@.len(),
        0 <= i < data@.len(),
        0 <= p < q < f.updates(i, data@[i]).len(),
        f.updates(i, data@[i])[p] == (x, op_p),
        f.updates(i, data@[i])[q] == (x, op_q),
        forall|j: int, r: int|
            0 <= j < data@.len() && 0 <= r < f.updates(j, data@[j]).len() && !(j == i && (r == p
                || r == q)) ==> !(#[trigger] f.updates(j, data@[j])[r].0 == x),
    ensures
        final(aux0)@[x as int] == op_q.applied(op_p.applied(old(aux0)@[x as int])),
{
    let g = updates_of(f, data@, x as int);
    assert forall|j: int| 0 <= j < data@.len() && j != i implies #[trigger] g(j) == Seq::<
        Op,
    >::empty() by {
        lemma_pick_none(f.updates(j, data@[j]), aimed_at::<Op>(x as int));
    }
    lemma_pick_two(f.updates(i, data@[i]), aimed_at::<Op>(x as int), p, q, op_p, op_q);
    law_updates_of_one_item1(f, data@, aux0@, x as int, i);
    lemma_two_ops(op_p, op_q, aux0@[x as int]);
}

/// After a run, an item of the auxiliary vector that the visits of two items update, once each, is
/// what the update of the item whose turn is later makes of what that of the other one makes of
/// it. The turns are those of the channel in which the auxiliary item lies.
pub proof fn law_two_visits1<T, A0, Op: AuxOp<A0>, F: ItemFn1<T, Op>>(
    pool: &mut Pool,
    data: &mut Vec<T>,
    aux0: &mut Vec<A0>,
    f: F,
    x: usize,
    i: int,
    p: int,
    op_i: Op,
    j: int,
    q: int,
    op_j: Op,
)
    requires
        call_ensures(execute_all::<T, A0, Op, F>, (pool, data, aux0, f), ()),
        x < aux0@.len(),
        0 <= i < data@.len(),
        0 <= j < data@.len(),
        comes_before(
            data@.len() as int,
            x as int / ((aux0@.len() as int + 7) / 8),
            i,
            j,
        ),
        0 <= p < f.updates(i, data@[i]).len(),
        0 <= q < f.updates(j, data@[j]).len(),
        f.updates(i, data@[i])[p] == (x, op_i),
        f.updates(j, data@[j])[q] == (x, op_j),
        forall|k: int, r: int|
            0 <= k < data@.len() && 0 <= r < f.updates(k, data@[k]).len() && !(k == i && r == p)
                && !(k == j && r == q) ==> !(#[trigger] f.updates(k, data@[k])[r].0 == x),
    ensures
        final(aux0)@[x as int] == op_j.applied(op_i.applied(old(aux0)@[x as int])),
{
    let g = updates_of(f, data@, x as int);
    let len = data@.len() as int;
    let c = x as int / ceil_div(aux0@.len() as int, ring_len());
    let order = application_order(len, c);
    lemma_item_part(aux0@, x as int);
    law_every_item_has_one_turn(len, c);
    assert forall|k: int| order.contains(k) && k != i && k != j implies #[trigger] g(k) == Seq::<
        Op,
    >::empty() by {
        lemma_pick_none(f.updates(k, data@[k]), aimed_at::<Op>(x as int));
    }
    lemma_pick_only(f.updates(i, data@[i]), aimed_at::<Op>(x as int), p, op_i);
    lemma_pick_only(f.updates(j, data@[j]), aimed_at::<Op>(x as int), q, op_j);
    let (a, b) = lemma_turns_in_order(len, c, i, j);
    lemma_joined_two(order, g, a, b);
    assert(g(i) + g(j) =~= seq![op_i, op_j]);
    lemma_two_ops(op_i, op_j, aux0@[x as int]);
}

/// After a run, an item of the first auxiliary vector that no visit updates is as it was before.
pub proof fn law_untouched_first2<
    T,
    A0,
    A1,
    Op0: AuxOp<A0>,
    Op1: AuxOp<A1>,
    F: ItemFn2<T, Op0, Op1>,
>(
    pool: &mut Pool,
    data: &mut Vec<T>,
    aux0: &mut Vec<A0>,
    aux1: &mut Vec<A1>,
    f: F,
    x: usize,
)
    requires
        call_ensures(execute_all2::<T, A0, A1, Op0, Op1, F>, (pool, data, aux0, aux1, f), ()),
        x < aux0@.len(),
        forall|j: int, q: int|
            0 <= j < data@.len() && 0 <= q < f.updates(j, data@[j]).len()
                ==> !(#[trigger] f.updates(j, data@[j])[q] matches Update2::First(y, _) && y == x),
    ensures
        final(aux0)@.len() == old(aux0)@.len(),
        final(aux0)@[x as int] == old(aux0)@[x as int],
{
    let g = updates_of_first(f, data@, x as int);
    assert forall|j: int| 0 <= j < data@.len() implies #[trigger] g(j) == Seq::<Op0>::empty() by {
        lemma_pick_none(f.updates(j, data@[j]), first_at::<Op0, Op1>(x as int));
    }
    law_no_updates_first2(f, data@, aux0@, x as int);
}

/// After a run, an item of the first auxiliary vector that a single visit updates, once, is what
/// that update makes of it. The visit may update other items too.
pub proof fn law_one_update_first2<
    T,
    A0,
    A1,
    Op0: AuxOp<A0>,
    Op1: AuxOp<A1>,
    F: ItemFn2<T, Op0, Op1>,
>(
    pool: &mut Pool,
    data: &mut Vec<T>,
    aux0: &mut Vec<A0>,
    aux1: &mut Vec<A1>,
    f: F,
    x: usize,
    i: int,
    p: int,
    op: Op0,
)
    requires
        call_ensures(execute_all2::<T, A0, A1, Op0, Op1, F>, (pool, data, aux0, aux1, f), ()),
        x < aux0@.len(),
        0 <= i < data@.len(),
        0 <= p < f.updates(i, data@[i]).len(),
        f.updates(i, data@[i])[p] == Update2::<Op0, Op1>::First(x, op),
        forall|j: int, q: int|
            0 <= j < data@.len() && 0 <= q < f.updates(j, data@[j]).len() && !(j == i && q == p)
                ==> !(#[trigger] f.updates(j, data@[j])[q] matches Update2::First(y, _) && y == x),
    ensures
        final(aux0)@.len() == old(aux0)@.len(),
        final(aux0)@[x as int] == op.applied(old(aux0)@[x as int]),
{
    let g = updates_of_first(f, data@, x as int);
    assert forall|j: int| 0 <= j < data@.len() && j != i implies #[trigger] g(j) == Seq::<
        Op0,
    >::empty() by {
        lemma_pick_none(f.updates(j, data@[j]), first_at::<Op0, Op1>(x as int));
    }
    lemma_pick_only(f.updates(i, data@[i]), first_at::<Op0, Op1>(x as int), p, op);
    law_updates_of_one_item_first2(f, data@, aux0@, x as int, i);
    lemma_one_op(op, aux0@[x as int]);
}

/// After a run, an item of the first auxiliary vector that a single visit updates twice is what
/// the update that was deferred later makes of what the earlier one makes of it.
pub proof fn law_two_updates_of_a_visit_first2<
    T,
    A0,
    A1,
    Op0: AuxOp<A0>,
    Op1: AuxOp<A1>,
    F: ItemFn2<T, Op0, Op1>,
>(
    pool: &mut Pool,
    data: &mut Vec<T>,
    aux0: &mut Vec<A0>,
    aux1: &mut Vec<A1>,
    f: F,
    x: usize,
    i: int,
    p: int,
    q: int,
    op_p: Op0,
    op_q: Op0,
)
    requires
        call_ensures(execute_all2::<T, A0, A1, Op0, Op1, F>, (pool, data, aux0, aux1, f), ()),
        x < aux0@.len(),
        0 <= i < data@.len(),
        0 <= p < q < f.updates(i, data@[i]).len(),
        f.updates(i, data@[i])[p] == Update2::<Op0, Op1>::First(x, op_p),
        f.updates(i, data@[i])[q] == Update2::<Op0, Op1>::First(x, op_q),
        forall|j: int, r: int|
            0 <= j < data@.len() && 0 <= r < f.updates(j, data@[j]).len() && !(j == i && (r == p
                || r == q))
                ==> !(#[trigger] f.updates(j, data@[j])[r] matches Update2::First(y, _) && y == x),
    ensures
        final(aux0)@[x as int] == op_q.applied(op_p.applied(old(aux0)@[x as int])),
{
    let g = updates_of_first(f, data@, x as int);
    assert forall|j: int| 0 <= j < data@.len() && j != i implies #[trigger] g(j) == Seq::<
        Op0,
    >::empty() by {
        lemma_pick_none(f.updates(j, data@[j]), first_at::<Op0, Op1>(x as int));
    }
    let at = first_at::<Op0, Op1>(x as int);
    lemma_pick_two(f.updates(i, data@[i]), at, p, q, op_p, op_q);
    law_updates_of_one_item_first2(f, data@, aux0@, x as int, i);
    lemma_two_ops(op_p, op_q, aux0@[x as int]);
}

/// After a run, an item of the first auxiliary vector that the visits of two items update, once
/// each, is what the update of the item whose turn is later makes of what that of the other one
/// makes of it. The turns are those of the channel in which the auxiliary item lies.
pub proof fn law_two_visits_first2<
    T,
    A0,
    A1,
    Op0: AuxOp<A0>,
    Op1: AuxOp<A1>,
    F: ItemFn2<T, Op0, Op1>,
>(
    pool: &mut Pool,
    data: &mut Vec<T>,
    aux0: &mut Vec<A0>,
    aux1: &mut Vec<A1>,
    f: F,
    x: usize,
    i: int,
    p: int,
    op_i: Op0,
    j: int,
    q: int,
    op_j: Op0,
)
    requires
        call_ensures(execute_all2::<T, A0, A1, Op0, Op1, F>, (pool, data, aux0, aux1, f), ()),
        x < aux0@.len(),
        0 <= i < data@.len(),
        0 <= j < data@.len(),
        comes_before(
            data@.len() as int,
            x as int / ((aux0@.len() as int + 7) / 8),
            i,
            j,
        ),
        0 <= p < f.updates(i, data@[i]).len(),
        0 <= q < f.updates(j, data@[j]).len(),
        f.updates(i, data@[i])[p] == Update2::<Op0, Op1>::First(x, op_i),
        f.updates(j, data@[j])[q] == Update2::<Op0, Op1>::First(x, op_j),
        forall|k: int, r: int|
            0 <= k < data@.len() && 0 <= r < f.updates(k, data@[k]).len() && !(k == i && r == p)
                && !(k == j && r == q)
                ==> !(#[trigger] f.updates(k, data@[k])[r] matches Update2::First(y, _) && y == x),
    ensures
        final(aux0)@[x as int] == op_j.applied(op_i.applied(old(aux0)@[x as int])),
{
    let g = updates_of_first(f, data@, x as int);
    let len = data@.len() as int;
    let c = x as int / ceil_div(aux0@.len() as int, ring_len());
    let order = application_order(len, c);
    lemma_item_part(aux0@, x as int);
    law_every_item_has_one_turn(len, c);
    assert forall|k: int| order.contains(k) && k != i && k != j implies #[trigger] g(k) == Seq::<
        Op0,
    >::empty() by {
        lemma_pick_none(f.updates(k, data@[k]), first_at::<Op0, Op1>(x as int));
    }
    lemma_pick_only(f.updates(i, data@[i]), first_at::<Op0, Op1>(x as int), p, op_i);
    lemma_pick_only(f.updates(j, data@[j]), first_at::<Op0, Op1>(x as int), q, op_j);
    let (a, b) = lemma_turns_in_order(len, c, i, j);
    lemma_joined_two(order, g, a, b);
    assert(g(i) + g(j) =~= seq![op_i, op_j]);
    lemma_two_ops(op_i, op_j, aux0@[x as int]);
}

/// After a run, an item of the second auxiliary vector that no visit updates is as it was before.
pub proof fn law_untouched_second2<
    T,
    A0,
    A1,
    Op0: AuxOp<A0>,
    Op1: AuxOp<A1>,
    F: ItemFn2<T, Op0, Op1>,
>(
    pool: &mut Pool,
    data: &mut Vec<T>,
    aux0: &mut Vec<A0>,
    aux1: &mut Vec<A1>,
    f: F,
    x: usize,
)
    requires
        call_ensures(execute_all2::<T, A0, A1, Op0, Op1, F>, (pool, data, aux0, aux1, f), ()),
        x < aux1@.len(),
        forall|j: int, q: int|
            0 <= j < data@.len() && 0 <= q < f.updates(j, data@[j]).len()
                ==> !(#[trigger] f.updates(j, data@[j])[q] matches Update2::Second(y, _) && y == x),
    ensures
        final(aux1)@.len() == old(aux1)@.len(),
        final(aux1)@[x as int] == old(aux1)@[x as int],
{
    let g = updates_of_second(f, data@, x as int);
    assert forall|j: int| 0 <= j < data@.len() implies #[trigger] g(j) == Seq::<Op1>::empty() by {
        lemma_pick_none(f.updates(j, data@[j]), second_at::<Op0, Op1>(x as int));
    }
    law_no_updates_second2(f, data@, aux1@, x as int);
}

/// After a run, an item of the second auxiliary vector that a single visit updates, once, is what
/// that update makes of it. The visit may update other items too.
pub proof fn law_one_update_second2<
    T,
    A0,
    A1,
    Op0: AuxOp<A0>,
    Op1: AuxOp<A1>,
    F: ItemFn2<T, Op0, Op1>,
>(
    pool: &mut Pool,
    data: &mut Vec<T>,
    aux0: &mut Vec<A0>,
    aux1: &mut Vec<A1>,
    f: F,
    x: usize,
    i: int,
    p: int,
    op: Op1,
)
    requires
        call_ensures(execute_all2::<T, A0, A1, Op0, Op1, F>, (pool, data, aux0, aux1, f), ()),
        x < aux1@.len(),
        0 <= i < data@.len(),
        0 <= p < f.updates(i, data@[i]).len(),
        f.updates(i, data@[i])[p] == Update2::<Op0, Op1>::Second(x, op),
        forall|j: int, q: int|
            0 <= j < data@.len() && 0 <= q < f.updates(j, data@[j]).len() && !(j == i && q == p)
                ==> !(#[trigger] f.updates(j, data@[j])[q] matches Update2::Second(y, _) && y == x),
    ensures
        final(aux1)@.len() == old(aux1)@.len(),
        final(aux1)@[x as int] == op.applied(old(aux1)@[x as int]),
{
    let g = updates_of_second(f, data@, x as int);
    assert forall|j: int| 0 <= j < data@.len() && j != i implies #[trigger] g(j) == Seq::<
        Op1,
    >::empty() by {
        lemma_pick_none(f.updates(j, data@[j]), second_at::<Op0, Op1>(x as int));
    }
    lemma_pick_only(f.updates(i, data@[i]), second_at::<Op0, Op1>(x as int), p, op);
    law_updates_of_one_item_second2(f, data@, aux1@, x as int, i);
    lemma_one_op(op, aux1@[x as int]);
}

/// After a run, an item of the second auxiliary vector that a single visit updates twice is what
/// the update that was deferred later makes of what the earlier one makes of it.
pub proof fn law_two_updates_of_a_visit_second2<
    T,
    A0,
    A1,
    Op0: AuxOp<A0>,
    Op1: AuxOp<A1>,
    F: ItemFn2<T, Op0, Op1>,
>(
    pool: &mut Pool,
    data: &mut Vec<T>,
    aux0: &mut Vec<A0>,
    aux1: &mut Vec<A1>,
    f: F,
    x: usize,
    i: int,
    p: int,
    q: int,
    op_p: Op1,
    op_q: Op1,
)
    requires
        call_ensures(execute_all2::<T, A0, A1, Op0, Op1, F>, (pool, data, aux0, aux1, f), ()),
        x < aux1@.len(),
        0 <= i < data@.len(),
        0 <= p < q < f.updates(i, data@[i]).len(),
        f.updates(i, data@[i])[p] == Update2::<Op0, Op1>::Second(x, op_p),
        f.updates(i, data@[i])[q] == Update2::<Op0, Op1>::Second(x, op_q),
        forall|j: int, r: int|
            0 <= j < data@.len() && 0 <= r < f.updates(j, data@[j]).len() && !(j == i && (r == p
                || r == q))
                ==> !(#[trigger] f.updates(j, data@[j])[r] matches Update2::Second(y, _) && y == x),
    ensures
        final(aux1)@[x as int] == op_q.applied(op_p.applied(old(aux1)@[x as int])),
{
    let g = updates_of_second(f, data@, x as int);
    assert forall|j: int| 0 <= j < data@.len() && j != i implies #[trigger] g(j) == Seq::<
        Op1,
    >::empty() by {
        lemma_pick_none(f.updates(j, data@[j]), second_at::<Op0, Op1>(x as int));
    }
    let at = second_at::<Op0, Op1>(x as int);
    lemma_pick_two(f.updates(i, data@[i]), at, p, q, op_p, op_q);
    law_updates_of_one_item_second2(f, data@, aux1@, x as int, i);
    lemma_two_ops(op_p, op_q, aux1@[x as int]);
}

/// After a run, an item of the second auxiliary vector that the visits of two items update, once
/// each, is what the update of the item whose turn is later makes of what that of the other one
/// makes of it. The turns are those of the channel in which the auxiliary item lies.
pub proof fn law_two_visits_second2<
    T,
    A0,
    A1,
    Op0: AuxOp<A0>,
    Op1: AuxOp<A1>,
    F: ItemFn2<T, Op0, Op1>,
>(
    pool: &mut Pool,
    data: &mut Vec<T>,
    aux0: &mut Vec<A0>,
    aux1: &mut Vec<A1>,
    f: F,
    x: usize,
    i: int,
    p: int,
    op_i: Op1,
    j: int,
    q: int,
    op_j: Op1,
)
    requires
        call_ensures(execute_all2::<T, A0, A1, Op0, Op1, F>, (pool, data, aux0, aux1, f), ()),
        x < aux1@.len(),
        0 <= i < data@.len(),
        0 <= j < data@.len(),
        comes_before(
            data@.len() as int,
            x as int / ((aux1@.len() as int + 7) / 8),
            i,
            j,
        ),
        0 <= p < f.updates(i, data@[i]).len(),
        0 <= q < f.updates(j, data@[j]).len(),
        f.updates(i, data@[i])[p] == Update2::<Op0, Op1>::Second(x, op_i),
        f.updates(j, data@[j])[q] == Update2::<Op0, Op1>::Second(x, op_j),
        forall|k: int, r: int|
            0 <= k < data@.len() && 0 <= r < f.updates(k, data@[k]).len() && !(k == i && r == p)
                && !(k == j && r == q)
                ==> !(#[trigger] f.updates(k, data@[k])[r] matches Update2::Second(y, _) && y == x),
    ensures
        final(aux1)@[x as int] == op_j.applied(op_i.applied(old(aux1)@[x as int])),
{
    let g = updates_of_second(f, data@, x as int);
    let len = data@.len() as int;
    let c = x as int / ceil_div(aux1@.len() as int, ring_len());
    let order = application_order(len, c);
    lemma_item_part(aux1@, x as int);
    law_every_item_has_one_turn(len, c);
    assert forall|k: int| order.contains(k) && k != i && k != j implies #[trigger] g(k) == Seq::<
        Op1,
    >::empty() by {
        lemma_pick_none(f.updates(k, data@[k]), second_at::<Op0, Op1>(x as int));
    }
    lemma_pick_only(f.updates(i, data@[i]), second_at::<Op0, Op1>(x as int), p, op_i);
    lemma_pick_only(f.updates(j, data@[j]), second_at::<Op0, Op1>(x as int), q, op_j);
    let (a, b) = lemma_turns_in_order(len, c, i, j);
    lemma_joined_two(order, g, a, b);
    assert(g(i) + g(j) =~= seq![op_i, op_j]);
    lemma_two_ops(op_i, op_j, aux1@[x as int]);
}

/// The last update of an item of the auxiliary vector is applied to what a run leaves that makes
/// all the updates but this one. With what is said of items that no visit updates, this determines
/// what any run leaves.
pub proof fn law_last_update1<T, A0, Op: AuxOp<A0>, F: ItemFn1<T, Op>, G: ItemFn1<T, Op>>(
    pool: &mut Pool,
    data: &mut Vec<T>,
    aux0: &mut Vec<A0>,
    f: F,
    pool_without: &mut Pool,
    data_without: &mut Vec<T>,
    aux0_without: &mut Vec<A0>,
    g: G,
    x: usize,
    i: int,
    p: int,
    op: Op,
)
    requires
        call_ensures(execute_all::<T, A0, Op, F>, (pool, data, aux0, f), ()),
        call_ensures(
            execute_all::<T, A0, Op, G>,
            (pool_without, data_without, aux0_without, g),
            (),
        ),
        data_without@ == data@,
        aux0_without@ == aux0@,
        x < aux0@.len(),
        0 <= i < data@.len(),
        0 <= p < f.updates(i, data@[i]).len(),
        f.updates(i, data@[i])[p] == (x, op),
        g.updates(i, data@[i]) == f.updates(i, data@[i]).remove(p),
        forall|j: int|
            0 <= j < data@.len() && j != i ==> g.updates(j, #[trigger] data@[j]) == f.updates(
                j,
                data@[j],
            ),
        forall|j: int, q: int|
            0 <= j < data@.len() && 0 <= q < f.updates(j, data@[j]).len() && (
            #[trigger] f.updates(j, data@[j])[q]).0 == x ==> (j == i && q <= p) || (j != i
                && comes_before(
                data@.len() as int,
                x as int / ((aux0@.len() as int + 7) / 8),
                j,
                i,
            )),
    ensures
        final(aux0)@[x as int] == op.applied(final(aux0_without)@[x as int]),
{
    let len = data@.len() as int;
    let c = x as int / ceil_div(aux0@.len() as int, ring_len());
    let order = application_order(len, c);
    let all = updates_of(f, data@, x as int);
    let rest = updates_of(g, data@, x as int);
    lemma_item_part(aux0@, x as int);
    law_every_item_has_one_turn(len, c);
    assert(order.contains(i));
    let a = choose|a: int| 0 <= a < order.len() && order[a] == i;
    assert forall|q: int| 0 <= q < order.len() && q != a implies all(#[trigger] order[q]) == rest(
        order[q],
    ) by {
        assert(order.contains(order[q]));
        assert(g.updates(order[q], data@[order[q]]) == f.updates(order[q], data@[order[q]]));
    }
    assert forall|q: int| a < q < order.len() implies rest(#[trigger] order[q]) == Seq::<
        Op,
    >::empty() by {
        let j = order[q];
        assert(order.contains(j));
        law_order_by_turns(len, c, a, q);
        assert(!comes_before(len, c, j, i));
        assert(g.updates(j, data@[j]) == f.updates(j, data@[j]));
        lemma_pick_none(f.updates(j, data@[j]), aimed_at::<Op>(x as int));
    }
    lemma_pick_last(f.updates(i, data@[i]), aimed_at::<Op>(x as int), p, op);
    lemma_joined_push(order, all, rest, a, op);
    lemma_pushed_op(joined(order, rest), op, aux0@[x as int]);
}

/// The last update of an item of the first auxiliary vector is applied to what a run leaves that
/// makes all the updates but this one. With what is said of items that no visit updates, this
/// determines what any run leaves.
pub proof fn law_last_update_first2<
    T,
    A0,
    A1,
    Op0: AuxOp<A0>,
    Op1: AuxOp<A1>,
    F: ItemFn2<T, Op0, Op1>,
    G: ItemFn2<T, Op0, Op1>,
>(
    pool: &mut Pool,
    data: &mut Vec<T>,
    aux0: &mut Vec<A0>,
    aux1: &mut Vec<A1>,
    f: F,
    pool_without: &mut Pool,
    data_without: &mut Vec<T>,
    aux0_without: &mut Vec<A0>,
    aux1_without: &mut Vec<A1>,
    g: G,
    x: usize,
    i: int,
    p: int,
    op: Op0,
)
    requires
        call_ensures(execute_all2::<T, A0, A1, Op0, Op1, F>, (pool, data, aux0, aux1, f), ()),
        call_ensures(
            execute_all2::<T, A0, A1, Op0, Op1, G>,
            (pool_without, data_without, aux0_without, aux1_without, g),
            (),
        ),
        data_without@ == data@,
        aux0_without@ == aux0@,
        x < aux0@.len(),
        0 <= i < data@.len(),
        0 <= p < f.updates(i, data@[i]).len(),
        f.updates(i, data@[i])[p] == Update2::<Op0, Op1>::First(x, op),
        g.updates(i, data@[i]) == f.updates(i, data@[i]).remove(p),
        forall|j: int|
            0 <= j < data@.len() && j != i ==> g.updates(j, #[trigger] data@[j]) == f.updates(
                j,
                data@[j],
            ),
        forall|j: int, q: int|
            0 <= j < data@.len() && 0 <= q < f.updates(j, data@[j]).len() && (
            (#[trigger] f.updates(j, data@[j])[q]) matches Update2::First(y, _) && y == x)
                ==> (j == i && q <= p) || (j != i && comes_before(
                data@.len() as int,
                x as int / ((aux0@.len() as int + 7) / 8),
                j,
                i,
            )),
    ensures
        final(aux0)@[x as int] == op.applied(final(aux0_without)@[x as int]),
{
    let len = data@.len() as int;
    let c = x as int / ceil_div(aux0@.len() as int, ring_len());
    let order = application_order(len, c);
    let all = updates_of_first(f, data@, x as int);
    let rest = updates_of_first(g, data@, x as int);
    lemma_item_part(aux0@, x as int);
    law_every_item_has_one_turn(len, c);
    assert(order.contains(i));
    let a = choose|a: int| 0 <= a < order.len() && order[a] == i;
    assert forall|q: int| 0 <= q < order.len() && q != a implies all(#[trigger] order[q]) == rest(
        order[q],
    ) by {
        assert(order.contains(order[q]));
        assert(g.updates(order[q], data@[order[q]]) == f.updates(order[q], data@[order[q]]));
    }
    assert forall|q: int| a < q < order.len() implies rest(#[trigger] order[q]) == Seq::<
        Op0,
    >::empty() by {
        let j = order[q];
        assert(order.contains(j));
        law_order_by_turns(len, c, a, q);
        assert(!comes_before(len, c, j, i));
        assert(g.updates(j, data@[j]) == f.updates(j, data@[j]));
        lemma_pick_none(f.updates(j, data@[j]), first_at::<Op0, Op1>(x as int));
    }
    lemma_pick_last(f.updates(i, data@[i]), first_at::<Op0, Op1>(x as int), p, op);
    lemma_joined_push(order, all, rest, a, op);
    lemma_pushed_op(joined(order, rest), op, aux0@[x as int]);
}

/// The last update of an item of the second auxiliary vector is applied to what a run leaves that
/// makes all the updates but this one. With what is said of items that no visit updates, this
/// determines what any run leaves.
pub proof fn law_last_update_second2<
    T,
    A0,
    A1,
    Op0: AuxOp<A0>,
    Op1: AuxOp<A1>,
    F: ItemFn2<T, Op0, Op1>,
    G: ItemFn2<T, Op0, Op1>,
>(
    pool: &mut Pool,
    data: &mut Vec<T>,
    aux0: &mut Vec<A0>,
    aux1: &mut Vec<A1>,
    f: F,
    pool_without: &mut Pool,
    data_without: &mut Vec<T>,
    aux0_without: &mut Vec<A0>,
    aux1_without: &mut Vec<A1>,
    g: G,
    x: usize,
    i: int,
    p: int,
    op: Op1,
)
    requires
        call_ensures(execute_all2::<T, A0, A1, Op0, Op1, F>, (pool, data, aux0, aux1, f), ()),
        call_ensures(
            execute_all2::<T, A0, A1, Op0, Op1, G>,
            (pool_without, data_without, aux0_without, aux1_without, g),
            (),
        ),
        data_without@ == data@,
        aux1_without@ == aux1@,
        x < aux1@.len(),
        0 <= i < data@.len(),
        0 <= p < f.updates(i, data@[i]).len(),
        f.updates(i, data@[i])[p] == Update2::<Op0, Op1>::Second(x, op),
        g.updates(i, data@[i]) == f.updates(i, data@[i]).remove(p),
        forall|j: int|
            0 <= j < data@.len() && j != i ==> g.updates(j, #[trigger] data@[j]) == f.updates(
                j,
                data@[j],
            ),
        forall|j: int, q: int|
            0 <= j < data@.len() && 0 <= q < f.updates(j, data@[j]).len() && (
            (#[trigger] f.updates(j, data@[j])[q]) matches Update2::Second(y, _) && y == x)
                ==> (j == i && q <= p) || (j != i && comes_before(
                data@.len() as int,
                x as int / ((aux1@.len() as int + 7) / 8),
                j,
                i,
            )),
    ensures
        final(aux1)@[x as int] == op.applied(final(aux1_without)@[x as int]),
{
    let len = data@.len() as int;
    let c = x as int / ceil_div(aux1@.len() as int, ring_len());
    let order = application_order(len, c);
    let all = updates_of_second(f, data@, x as int);
    let rest = updates_of_second(g, data@, x as int);
    lemma_item_part(aux1@, x as int);
    law_every_item_has_one_turn(len, c);
    assert(order.contains(i));
    let a = choose|a: int| 0 <= a < order.len() && order[a] == i;
    assert forall|q: int| 0 <= q < order.len() && q != a implies all(#[trigger] order[q]) == rest(
        order[q],
    ) by {
        assert(order.contains(order[q]));
        assert(g.updates(order[q], data@[order[q]]) == f.updates(order[q], data@[order[q]]));
    }
    assert forall|q: int| a < q < order.len() implies rest(#[trigger] order[q]) == Seq::<
        Op1,
    >::empty() by {
        let j = order[q];
        assert(order.contains(j));
        law_order_by_turns(len, c, a, q);
        assert(!comes_before(len, c, j, i));
        assert(g.updates(j, data@[j]) == f.updates(j, data@[j]));
        lemma_pick_none(f.updates(j, data@[j]), second_at::<Op0, Op1>(x as int));
    }
    lemma_pick_last(f.updates(i, data@[i]), second_at::<Op0, Op1>(x as int), p, op);
    lemma_joined_push(order, all, rest, a, op);
    lemma_pushed_op(joined(order, rest), op, aux1@[x as int]);
}

/// After a run, every item of the data is what its visit makes of it.
pub proof fn law_every_item_is_visited_once1<T, A0, Op: AuxOp<A0>, F: ItemFn1<T, Op>>(
    pool: &mut Pool,
    data: &mut Vec<T>,
    aux0: &mut Vec<A0>,
    f: F,
    i: int,
)
    requires
        call_ensures(execute_all::<T, A0, Op, F>, (pool, data, aux0, f), ()),
        0 <= i < data@.len(),
    ensures
        final(data)@.len() == old(data)@.len(),
        final(data)@[i] == f.item_after(i, old(data)@[i]),
{
}

/// After a run, every item of the data is what its visit makes of it.
pub proof fn law_every_item_is_visited_once2<
    T,
    A0,
    A1,
    Op0: AuxOp<A0>,
    Op1: AuxOp<A1>,
    F: ItemFn2<T, Op0, Op1>,
>(
    pool: &mut Pool,
    data: &mut Vec<T>,
    aux0: &mut Vec<A0>,
    aux1: &mut Vec<A1>,
    f: F,
    i: int,
)
    requires
        call_ensures(execute_all2::<T, A0, A1, Op0, Op1, F>, (pool, data, aux0, aux1, f), ()),
        0 <= i < data@.len(),
    ensures
        final(data)@.len() == old(data)@.len(),
        final(data)@[i] == f.item_after(i, old(data)@[i]),
{
}

} // verus!
