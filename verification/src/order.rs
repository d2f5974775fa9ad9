//! The order in which the items of the data have their deferred tasks run.
use vstd::prelude::*;

use crate::chunks::lemma_ceil_div;
use crate::ring::{channel_at, owner, ring_len};
use crate::schedule::{
    at_least_zero, batch_len, chunk_len, chunk_start, lemma_division, lemma_visited, on_channel,
    step_count, thread_chunk, undivided, visited, Job,
};
use crate::seqs::{joined, lemma_joined_add, lemma_pick_add, lemma_upto_split, upto};

verus! {

/// The items whose tasks are run in step `k` of channel `c`: from the first number up to, not
/// including, the second.
pub open spec fn items_in_step(len: int, c: int, k: int) -> (int, int) {
    let w = owner(c, k);
    (
        chunk_start(len, w) + visited(chunk_len(len, w), k - ring_len() + 1),
        chunk_start(len, w) + visited(chunk_len(len, w), k + 1),
    )
}

/// The items whose tasks are run in the first `k` steps of channel `c`, in order.
pub open spec fn order_upto(len: int, c: int, k: int) -> Seq<int>
    decreases k,
{
    if k <= 0 {
        Seq::empty()
    } else {
        order_upto(len, c, k - 1) + upto(
            items_in_step(len, c, k - 1).0,
            items_in_step(len, c, k - 1).1,
        )
    }
}

/// The items of an input of `len` items, in the order in which their tasks on channel `c` are
/// run.
pub open spec fn application_order(len: int, c: int) -> Seq<int> {
    if len == 0 {
        Seq::empty()
    } else if undivided(len) {
        upto(0, len)
    } else {
        order_upto(len, c, step_count(len))
    }
}

/// What a visit does to each item, and the tasks that it schedules for it, do not depend on
/// the stretch that the item is visited with.
pub open spec fn itemwise<T, FA>(
    job: Job<T, FA>,
    item_after: spec_fn(int) -> T,
    item_tasks: spec_fn(int) -> Seq<(u32, FA)>,
) -> bool {
    forall|a: int, b: int|
        #![trigger job.data.subrange(a, b)]
        0 <= a <= b <= job.len() ==> {
            &&& (job.after)(a, job.data.subrange(a, b)) == Seq::new(
                (b - a) as nat,
                |i: int| item_after(a + i),
            )
            &&& (job.tasks)(a, job.data.subrange(a, b)) == joined(upto(a, b), item_tasks)
        }
}

proof fn lemma_between_items<T, FA>(
    job: Job<T, FA>,
    item_after: spec_fn(int) -> T,
    item_tasks: spec_fn(int) -> Seq<(u32, FA)>,
    w: int,
    lo: int,
    hi: int,
)
    requires
        itemwise(job, item_after, item_tasks),
        !undivided(job.len()),
        0 <= w < ring_len(),
        0 <= lo <= hi,
    ensures
        job.tasks_between(w, lo, hi) == joined(
            upto(
                chunk_start(job.len(), w) + visited(chunk_len(job.len(), w), lo),
                chunk_start(job.len(), w) + visited(chunk_len(job.len(), w), hi),
            ),
            item_tasks,
        ),
        visited(chunk_len(job.len(), w), lo) <= visited(chunk_len(job.len(), w), hi),
    decreases hi - lo,
{
    let s = chunk_start(job.len(), w);
    let len = chunk_len(job.len(), w);
    if hi > lo {
        lemma_between_items(job, item_after, item_tasks, w, lo, hi - 1);
        lemma_visited(job.len(), w, hi - 1);
        lemma_division(job.len());
        let a = s + visited(len, lo);
        let b = s + visited(len, hi - 1);
        let c = s + visited(len, hi);
        assert(0 <= s && s + len <= job.len());
        assert(job.batch(w, hi - 1) == job.data.subrange(b, c));
        lemma_upto_split(a, b, c);
        lemma_joined_add(upto(a, b), upto(b, c), item_tasks);
        if b == c {
            assert(upto(b, c) =~= Seq::<int>::empty());
        }
    } else {
        assert(upto(s + visited(len, lo), s + visited(len, hi)) =~= Seq::<int>::empty());
    }
}

proof fn lemma_channel_items<T, FA>(
    job: Job<T, FA>,
    item_after: spec_fn(int) -> T,
    item_tasks: spec_fn(int) -> Seq<(u32, FA)>,
    c: int,
    k: int,
)
    requires
        itemwise(job, item_after, item_tasks),
        !undivided(job.len()),
        0 <= c < ring_len(),
    ensures
        job.run_on_channel(c, k) == joined(order_upto(job.len(), c, k), item_tasks).filter_map(
            on_channel(c),
        ),
    decreases k,
{
    if k > 0 {
        lemma_channel_items(job, item_after, item_tasks, c, k - 1);
        let w = owner(c, k - 1);
        let lo = at_least_zero(k - ring_len());
        lemma_between_items(job, item_after, item_tasks, w, lo, k);
        let before = order_upto(job.len(), c, k - 1);
        let (a, b) = items_in_step(job.len(), c, k - 1);
        assert(channel_at(w, k - 1) == c);
        assert(visited(chunk_len(job.len(), w), lo) == visited(
            chunk_len(job.len(), w),
            k - ring_len(),
        ));
        lemma_joined_add(before, upto(a, b), item_tasks);
        lemma_pick_add(joined(before, item_tasks), joined(upto(a, b), item_tasks), on_channel(c));
    }
}

/// The tasks run on a channel, item by item.
pub proof fn lemma_tasks_run<T, FA>(
    job: Job<T, FA>,
    item_after: spec_fn(int) -> T,
    item_tasks: spec_fn(int) -> Seq<(u32, FA)>,
    c: int,
)
    requires
        itemwise(job, item_after, item_tasks),
        0 <= c < ring_len(),
    ensures
        job.tasks_run(c) == joined(application_order(job.len(), c), item_tasks).filter_map(
            on_channel(c),
        ),
{
    if job.len() > 0 {
        if undivided(job.len()) {
            assert(job.data.subrange(0, job.len()) =~= job.data);
        } else {
            lemma_channel_items(job, item_after, item_tasks, c, step_count(job.len()));
        }
    }
}

proof fn lemma_batches_items<T, FA>(
    job: Job<T, FA>,
    item_after: spec_fn(int) -> T,
    item_tasks: spec_fn(int) -> Seq<(u32, FA)>,
    w: int,
    j: int,
)
    requires
        itemwise(job, item_after, item_tasks),
        !undivided(job.len()),
        0 <= w < ring_len(),
        0 <= j,
    ensures
        job.batches_after(w, j) == Seq::new(
            visited(chunk_len(job.len(), w), j) as nat,
            |i: int| item_after(chunk_start(job.len(), w) + i),
        ),
    decreases j,
{
    let s = chunk_start(job.len(), w);
    let len = chunk_len(job.len(), w);
    let expected = Seq::new(visited(len, j) as nat, |i: int| item_after(s + i));
    if j > 0 {
        lemma_batches_items(job, item_after, item_tasks, w, j - 1);
        lemma_visited(job.len(), w, j - 1);
        lemma_division(job.len());
        assert(0 <= s && s + len <= job.len());
        let (a, b) = job.batch_bounds(w, j - 1);
        assert(job.batch(w, j - 1) == job.data.subrange(a, b));
    }
    assert(job.batches_after(w, j) =~= expected);
}

proof fn lemma_chunks_items<T, FA>(
    job: Job<T, FA>,
    item_after: spec_fn(int) -> T,
    item_tasks: spec_fn(int) -> Seq<(u32, FA)>,
    m: int,
)
    requires
        itemwise(job, item_after, item_tasks),
        !undivided(job.len()),
        0 < m <= ring_len(),
    ensures
        job.chunks_after(m) == Seq::new(
            (chunk_start(job.len(), m - 1) + chunk_len(job.len(), m - 1)) as nat,
            |i: int| item_after(i),
        ),
    decreases m,
{
    let n = step_count(job.len());
    let w = m - 1;
    lemma_division(job.len());
    lemma_ceil_div(thread_chunk(job.len()), batch_len());
    lemma_visited(job.len(), w, n);
    lemma_batches_items(job, item_after, item_tasks, w, n);
    assert(chunk_start(job.len(), w) >= 0);
    if m > 1 {
        lemma_chunks_items(job, item_after, item_tasks, m - 1);
        assert(chunk_start(job.len(), m - 2) + chunk_len(job.len(), m - 2) == chunk_start(
            job.len(),
            m - 1,
        ));
    } else {
        assert(job.chunks_after(0) =~= Seq::<T>::empty());
    }
    assert(job.chunks_after(m) =~= Seq::new(
        (chunk_start(job.len(), w) + chunk_len(job.len(), w)) as nat,
        |i: int| item_after(i),
    ));
}

/// The data at the end of a run, item by item.
pub proof fn lemma_data_after<T, FA>(
    job: Job<T, FA>,
    item_after: spec_fn(int) -> T,
    item_tasks: spec_fn(int) -> Seq<(u32, FA)>,
)
    requires
        itemwise(job, item_after, item_tasks),
    ensures
        job.data_after() == Seq::new(job.data.len(), |i: int| item_after(i)),
{
    let expected = Seq::new(job.data.len(), |i: int| item_after(i));
    if job.len() > 0 {
        if undivided(job.len()) {
            assert(job.data.subrange(0, job.len()) =~= job.data);
            assert(job.data_after() =~= expected);
        } else {
            lemma_chunks_items(job, item_after, item_tasks, ring_len());
            lemma_division(job.len());
            assert(job.data_after() =~= expected);
        }
    } else {
        assert(job.data_after() =~= expected);
    }
}

/// The tasks of item `i` on channel `c` are run in step `k` of the channel.
pub open spec fn is_run_in_step(len: int, c: int, k: int, i: int) -> bool {
    items_in_step(len, c, k).0 <= i < items_in_step(len, c, k).1
}

proof fn lemma_visited_monotone(len: int, j: int, k: int)
    requires
        len >= 0,
        j <= k,
    ensures
        visited(len, j) <= visited(len, k),
{
}

/// Two items of one chunk whose tasks are run in different steps are run in their order.
proof fn lemma_steps_apart(len: int, c: int, j: int, k: int, i1: int, i2: int)
    requires
        !undivided(len),
        0 <= c < ring_len(),
        0 <= j < k,
        is_run_in_step(len, c, j, i1),
        is_run_in_step(len, c, k, i2),
        owner(c, j) == owner(c, k),
    ensures
        i1 < i2,
{
    let w = owner(c, j);
    lemma_division(len);
    assert(k >= j + ring_len());
    assert(chunk_len(len, w) > 0);
    lemma_visited_monotone(chunk_len(len, w), j + 1, k - ring_len() + 1);
}

/// The thread whose chunk an item lies in.
proof fn lemma_item_owner(len: int, c: int, k: int, i: int)
    requires
        !undivided(len),
        0 <= c < ring_len(),
        0 <= k,
        is_run_in_step(len, c, k, i),
    ensures
        owner(c, k) == i / thread_chunk(len),
        0 <= i < len,
{
    let w = owner(c, k);
    let d = thread_chunk(len);
    lemma_division(len);
    lemma_visited(len, w, k);
    lemma_visited(len, w, k - ring_len() + 1);
    assert(chunk_start(len, w) >= 0);
    assert(0 <= i - w * d < d);
    vstd::arithmetic::div_mod::lemma_fundamental_div_mod_converse(i, d, w, i - w * d);
}

proof fn lemma_order_contains(len: int, c: int, k: int, i: int)
    requires
        !undivided(len),
        0 <= c < ring_len(),
    ensures
        order_upto(len, c, k).contains(i) <==> exists|j: int|
            0 <= j < k && #[trigger] is_run_in_step(len, c, j, i),
    decreases k,
{
    if k > 0 {
        lemma_order_contains(len, c, k - 1, i);
        let before = order_upto(len, c, k - 1);
        let (a, b) = items_in_step(len, c, k - 1);
        let all = order_upto(len, c, k);
        if before.contains(i) {
            let p = choose|p: int| 0 <= p < before.len() && before[p] == i;
            assert(all[p] == i);
        }
        if is_run_in_step(len, c, k - 1, i) {
            assert(upto(a, b)[i - a] == i);
            assert(all[before.len() + (i - a)] == i);
        }
        if all.contains(i) {
            let p = choose|p: int| 0 <= p < all.len() && all[p] == i;
            if p < before.len() {
                assert(before[p] == i);
            } else {
                assert(upto(a, b)[p - before.len()] == i);
                assert(is_run_in_step(len, c, k - 1, i));
            }
        }
    }
}

proof fn lemma_order_in_chunk(len: int, c: int, k: int, p: int, q: int)
    requires
        !undivided(len),
        0 <= c < ring_len(),
        0 <= p < q < order_upto(len, c, k).len(),
        order_upto(len, c, k)[p] / thread_chunk(len) == order_upto(len, c, k)[q] / thread_chunk(
            len,
        ),
    ensures
        order_upto(len, c, k)[p] < order_upto(len, c, k)[q],
    decreases k,
{
    if k > 0 {
        let before = order_upto(len, c, k - 1);
        let (a, b) = items_in_step(len, c, k - 1);
        let all = order_upto(len, c, k);
        if q < before.len() {
            assert(all[p] == before[p] && all[q] == before[q]);
            lemma_order_in_chunk(len, c, k - 1, p, q);
        } else {
            assert(all[q] == upto(a, b)[q - before.len()]);
            assert(is_run_in_step(len, c, k - 1, all[q]));
            if p < before.len() {
                assert(all[p] == before[p]);
                assert(before.contains(all[p]));
                lemma_order_contains(len, c, k - 1, all[p]);
                let j = choose|j: int|
                    0 <= j < k - 1 && #[trigger] is_run_in_step(len, c, j, all[p]);
                lemma_item_owner(len, c, j, all[p]);
                lemma_item_owner(len, c, k - 1, all[q]);
                lemma_steps_apart(len, c, j, k - 1, all[p], all[q]);
            } else {
                assert(all[p] == upto(a, b)[p - before.len()]);
            }
        }
    }
}

/// An item has its turn within one round of the channels after its visit.
proof fn lemma_item_covered(len: int, c: int, i: int) -> (k: int)
    requires
        !undivided(len),
        0 <= c < ring_len(),
        0 <= i < len,
    ensures
        0 <= k < step_count(len),
        is_run_in_step(len, c, k, i),
{
    let d = thread_chunk(len);
    lemma_division(len);
    lemma_ceil_div(len, ring_len());
    lemma_ceil_div(d, batch_len());
    let w = i / d;
    vstd::arithmetic::div_mod::lemma_fundamental_div_mod(i, d);
    assert(w * d <= i < w * d + d && 0 <= w < ring_len()) by (nonlinear_arith)
        requires
            i == d * w + i % d,
            0 <= i % d < d,
            w == i / d,
            0 <= i < len,
            ring_len() * d >= len,
            d > 0,
    ;
    let l = i - w * d;
    let j = l / batch_len();
    let k = j + (c - w - j) % ring_len();
    assert(owner(c, k) == w);
    let n = chunk_len(len, w);
    assert(0 <= l < n);
    lemma_visited_monotone(n, k - ring_len() + 1, j);
    lemma_visited_monotone(n, j + 1, k + 1);
    assert(visited(n, j) <= l < visited(n, j + 1));
    k
}

/// On every channel, each item has its tasks run exactly once.
pub proof fn law_every_item_has_one_turn(len: int, c: int)
    requires
        len >= 0,
        0 <= c < ring_len(),
    ensures
        application_order(len, c).no_duplicates(),
        forall|i: int| #[trigger] application_order(len, c).contains(i) <==> 0 <= i < len,
{
    let order = application_order(len, c);
    if len > 0 {
        if undivided(len) {
            assert forall|i: int| #[trigger] order.contains(i) <==> 0 <= i < len by {
                if 0 <= i < len {
                    assert(order[i] == i);
                }
            }
        } else {
            let n = step_count(len);
            assert forall|i: int| #[trigger] order.contains(i) <==> 0 <= i < len by {
                lemma_order_contains(len, c, n, i);
                if order.contains(i) {
                    let k = choose|k: int| 0 <= k < n && #[trigger] is_run_in_step(len, c, k, i);
                    lemma_item_owner(len, c, k, i);
                }
                if 0 <= i < len {
                    let k = lemma_item_covered(len, c, i);
                }
            }
            assert forall|p: int, q: int|
                0 <= p < q < order.len() implies order[p] != order[q] by {
                if order[p] == order[q] {
                    lemma_order_in_chunk(len, c, n, p, q);
                }
            }
        }
    }
}

/// Items of one chunk have their tasks run in the order of the items.
pub proof fn law_order_within_a_chunk(len: int, c: int, p: int, q: int)
    requires
        len >= 0,
        0 <= c < ring_len(),
        0 <= p < q < application_order(len, c).len(),
        application_order(len, c)[p] / thread_chunk(len) == application_order(len, c)[q]
            / thread_chunk(len),
    ensures
        application_order(len, c)[p] < application_order(len, c)[q],
{
    if len > 0 && !undivided(len) {
        lemma_order_in_chunk(len, c, step_count(len), p, q);
    }
}

/// An input that is not divided has its tasks run in the order of the items.
pub proof fn law_short_inputs_keep_their_order(len: int, c: int)
    requires
        len >= 0,
        undivided(len),
    ensures
        application_order(len, c) == upto(0, len),
{
    if len == 0 {
        assert(upto(0, 0) =~= Seq::<int>::empty());
    }
}

/// The step in which the updates of item `i` on channel `c` have their turn, out of an input of
/// `len` items that is divided among eight threads. Thread `w` has batch number `b` visited in
/// its step `b`, and works on channel `w + k`, counted round, in its step `k`.
pub open spec fn turn(len: int, c: int, i: int) -> int {
    let chunk = (len + 7) / 8;
    let w = i / chunk;
    let b = (i % chunk) / 1024;
    b + (c - w - b) % 8
}

/// The updates of item `i` on channel `c` come before those of item `j`.
pub open spec fn comes_before(len: int, c: int, i: int, j: int) -> bool {
    if len < 256 || (len + 7) / 8 * 7 >= len {
        i < j
    } else {
        turn(len, c, i) < turn(len, c, j) || (turn(len, c, i) == turn(len, c, j) && i < j)
    }
}

proof fn lemma_turn(len: int, c: int, k: int, i: int)
    requires
        !undivided(len),
        0 <= c < ring_len(),
        0 <= k,
        is_run_in_step(len, c, k, i),
    ensures
        turn(len, c, i) == k,
{
    let w = owner(c, k);
    let d = thread_chunk(len);
    lemma_division(len);
    lemma_item_owner(len, c, k, i);
    vstd::arithmetic::div_mod::lemma_fundamental_div_mod(i, d);
    let l = i % d;
    assert(i == w * d + l) by (nonlinear_arith)
        requires
            i == d * w + l,
    ;
    let b = l / batch_len();
    assert(visited(chunk_len(len, w), k - ring_len() + 1) <= l < visited(
        chunk_len(len, w),
        k + 1,
    ));
    assert(0 <= k - b < ring_len());
}

proof fn lemma_order_by_turns(len: int, c: int, k: int, p: int, q: int)
    requires
        !undivided(len),
        0 <= c < ring_len(),
        0 <= p < q < order_upto(len, c, k).len(),
    ensures
        comes_before(len, c, order_upto(len, c, k)[p], order_upto(len, c, k)[q]),
    decreases k,
{
    if k > 0 {
        let before = order_upto(len, c, k - 1);
        let (a, b) = items_in_step(len, c, k - 1);
        let all = order_upto(len, c, k);
        if q < before.len() {
            assert(all[p] == before[p] && all[q] == before[q]);
            lemma_order_by_turns(len, c, k - 1, p, q);
        } else {
            assert(all[q] == upto(a, b)[q - before.len()]);
            assert(is_run_in_step(len, c, k - 1, all[q]));
            lemma_turn(len, c, k - 1, all[q]);
            if p < before.len() {
                assert(all[p] == before[p]);
                assert(before.contains(all[p]));
                lemma_order_contains(len, c, k - 1, all[p]);
                let j = choose|j: int|
                    0 <= j < k - 1 && #[trigger] is_run_in_step(len, c, j, all[p]);
                lemma_turn(len, c, j, all[p]);
            } else {
                assert(all[p] == upto(a, b)[p - before.len()]);
                assert(is_run_in_step(len, c, k - 1, all[p]));
                lemma_turn(len, c, k - 1, all[p]);
            }
        }
    }
}

/// The items have their tasks run in the order of their turns, and those of one turn in their
/// own order.
pub proof fn law_order_by_turns(len: int, c: int, p: int, q: int)
    requires
        len >= 0,
        0 <= c < ring_len(),
        0 <= p < q < application_order(len, c).len(),
    ensures
        comes_before(len, c, application_order(len, c)[p], application_order(len, c)[q]),
{
    if len > 0 && !undivided(len) {
        lemma_order_by_turns(len, c, step_count(len), p, q);
    }
}

} // verus!
