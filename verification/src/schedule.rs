//! What each thread does in each of its steps, and what that adds up to.
//!
//! Every thread walks through its own chunk of the data in batches. In step `k` it visits
//! batch `k`, if there is one, and then runs the tasks that it has collected for the channel
//! whose turn it is, see [`crate::ring`].
use vstd::prelude::*;
use vstd::seq_lib::lemma_multiset_commutative;

use crate::chunks::{ceil_div, chunk_seq, lemma_ceil_div, min};
use crate::ring::{channel_at, lemma_owner, owner, ring_len};
use crate::seqs::lemma_pick_add;

verus! {

/// The number of items that a thread visits between two channels.
#[verifier::inline]
pub open spec fn batch_len() -> int {
    1024
}

/// Inputs with fewer items than this are not worth dividing.
#[verifier::inline]
pub open spec fn least_divided() -> int {
    256
}

/// The channel selection: the tasks that were scheduled on channel `c`.
pub open spec fn on_channel<FA>(c: int) -> spec_fn((u32, FA)) -> Option<FA> {
    |t: (u32, FA)|
        if t.0 == c {
            Some(t.1)
        } else {
            None
        }
}

/// The number of items visited in the first `j` batches of a chunk of `len` items.
pub open spec fn visited(len: int, j: int) -> int {
    if j <= 0 {
        0
    } else {
        min(len, j * batch_len())
    }
}

/// `k`, or zero if that is greater.
pub open spec fn at_least_zero(k: int) -> int {
    if k < 0 {
        0
    } else {
        k
    }
}

/// The number of items in the chunk of each thread but the last.
pub open spec fn thread_chunk(len: int) -> int {
    ceil_div(len, ring_len())
}

/// The first item of the chunk of thread `w`.
pub open spec fn chunk_start(len: int, w: int) -> int {
    w * thread_chunk(len)
}

/// The number of items in the chunk of thread `w`.
pub open spec fn chunk_len(len: int, w: int) -> int {
    min(thread_chunk(len), len - chunk_start(len, w))
}

/// The number of steps of each thread: enough to visit its chunk, and then once round all
/// the channels.
pub open spec fn step_count(len: int) -> int {
    ceil_div(thread_chunk(len), batch_len()) + ring_len()
}

/// There is too little data for every thread to get some.
pub open spec fn undivided(len: int) -> bool {
    len < least_divided() || thread_chunk(len) * (ring_len() - 1) >= len
}

/// The number of the first batch of thread `w` whose tasks for channel `c` the thread has not
/// run when it has completed `k` steps.
pub open spec fn first_pending(w: int, k: int, c: int) -> int {
    at_least_zero(k + (c - w - k) % ring_len() - ring_len() + 1)
}

/// What a run is to do: the data, what visiting a stretch of it makes of that stretch, and
/// the tasks that the visit schedules, each with its channel. A stretch is given by the
/// index of its first item and by its items.
#[verifier::reject_recursive_types(T)]
pub struct Job<T, FA> {
    pub data: Seq<T>,
    pub after: spec_fn(int, Seq<T>) -> Seq<T>,
    pub tasks: spec_fn(int, Seq<T>) -> Seq<(u32, FA)>,
}

impl<T, FA> Job<T, FA> {
    pub open spec fn len(self) -> int {
        self.data.len() as int
    }

    /// A visit changes items but neither adds nor removes any.
    pub open spec fn keeps_len(self) -> bool {
        forall|a: int, s: Seq<T>| (#[trigger] (self.after)(a, s)).len() == s.len()
    }

    /// Bounds of batch `j` of thread `w`.
    pub open spec fn batch_bounds(self, w: int, j: int) -> (int, int) {
        (
            chunk_start(self.len(), w) + visited(chunk_len(self.len(), w), j),
            chunk_start(self.len(), w) + visited(chunk_len(self.len(), w), j + 1),
        )
    }

    /// The items of batch `j` of thread `w`, before the visit.
    pub open spec fn batch(self, w: int, j: int) -> Seq<T> {
        self.data.subrange(self.batch_bounds(w, j).0, self.batch_bounds(w, j).1)
    }

    /// The tasks that the visit of batch `j` of thread `w` schedules.
    pub open spec fn batch_tasks(self, w: int, j: int) -> Seq<(u32, FA)> {
        if self.batch_bounds(w, j).0 < self.batch_bounds(w, j).1 {
            (self.tasks)(self.batch_bounds(w, j).0, self.batch(w, j))
        } else {
            Seq::empty()
        }
    }

    /// The tasks of the batches of thread `w` from `lo` up to, not including, `hi`.
    pub open spec fn tasks_between(self, w: int, lo: int, hi: int) -> Seq<(u32, FA)>
        decreases hi - lo,
    {
        if hi <= lo {
            Seq::empty()
        } else {
            self.tasks_between(w, lo, hi - 1) + self.batch_tasks(w, hi - 1)
        }
    }

    /// The tasks that thread `w` runs in step `k`: those for the channel of that step which
    /// it has collected since it last had that channel.
    pub open spec fn run_in_step(self, w: int, k: int) -> Seq<FA> {
        self.tasks_between(w, at_least_zero(k - ring_len() + 1), k + 1).filter_map(
            on_channel(channel_at(w, k)),
        )
    }

    /// The tasks run on channel `c` in its first `k` steps, in order.
    pub open spec fn run_on_channel(self, c: int, k: int) -> Seq<FA>
        decreases k,
    {
        if k <= 0 {
            Seq::empty()
        } else {
            self.run_on_channel(c, k - 1) + self.run_in_step(owner(c, k - 1), k - 1)
        }
    }

    /// What thread `w` holds back for channel `c` when it has completed `k` steps and
    /// visited `j` batches.
    pub open spec fn pending(self, w: int, k: int, j: int, c: int) -> Seq<FA> {
        self.tasks_between(w, first_pending(w, k, c), j).filter_map(on_channel(c))
    }

    /// The first `j` batches of thread `w` after their visits, joined.
    pub open spec fn batches_after(self, w: int, j: int) -> Seq<T>
        decreases j,
    {
        if j <= 0 {
            Seq::empty()
        } else {
            let (a, b) = self.batch_bounds(w, j - 1);
            self.batches_after(w, j - 1) + (if a < b {
                (self.after)(a, self.batch(w, j - 1))
            } else {
                Seq::empty()
            })
        }
    }

    /// The chunk of thread `w` when the first `j` batches have been visited.
    pub open spec fn chunk_after(self, w: int, j: int) -> Seq<T> {
        self.batches_after(w, j) + self.data.subrange(
            self.batch_bounds(w, j).0,
            chunk_start(self.len(), w) + chunk_len(self.len(), w),
        )
    }

    /// The chunks of the first `m` threads when all their items have been visited, joined.
    pub open spec fn chunks_after(self, m: int) -> Seq<T>
        decreases m,
    {
        if m <= 0 {
            Seq::empty()
        } else {
            self.chunks_after(m - 1) + self.chunk_after(m - 1, step_count(self.len()))
        }
    }

    /// The data at the end of a run.
    pub open spec fn data_after(self) -> Seq<T> {
        if self.len() == 0 {
            self.data
        } else if undivided(self.len()) {
            (self.after)(0, self.data)
        } else {
            self.chunks_after(ring_len())
        }
    }

    /// All the tasks run on channel `c`, in order.
    pub open spec fn tasks_run(self, c: int) -> Seq<FA> {
        if self.len() == 0 {
            Seq::empty()
        } else if undivided(self.len()) {
            (self.tasks)(0, self.data).filter_map(on_channel(c))
        } else {
            self.run_on_channel(c, step_count(self.len()))
        }
    }
}

/// How the chunks of a divided input lie.
pub proof fn lemma_division(len: int)
    requires
        !undivided(len),
    ensures
        thread_chunk(len) >= 32,
        forall|w: int|
            0 <= w < ring_len() ==> 0 < #[trigger] chunk_len(len, w) <= thread_chunk(len),
        forall|w: int|
            #![trigger chunk_start(len, w)]
            0 <= w < ring_len() ==> 0 <= chunk_start(len, w) && chunk_start(len, w) + chunk_len(
                len,
                w,
            ) <= len,
        forall|w: int|
            0 <= w < ring_len() - 1 ==> #[trigger] chunk_start(len, w) + chunk_len(len, w)
                == chunk_start(len, w + 1),
        chunk_start(len, 0) == 0,
        chunk_start(len, ring_len() - 1) + chunk_len(len, ring_len() - 1) == len,
{
    lemma_ceil_div(len, ring_len());
    let c = thread_chunk(len);
    assert forall|w: int| 0 <= w < ring_len() implies 0 <= #[trigger] chunk_start(len, w) <= c * (
    ring_len() - 1) by {
        assert(w * c <= (ring_len() - 1) * c) by (nonlinear_arith)
            requires
                0 <= w <= ring_len() - 1,
                c >= 0,
        ;
        assert(w * c >= 0) by (nonlinear_arith)
            requires
                0 <= w,
                c >= 0,
        ;
    }
    assert forall|w: int| 0 <= w < ring_len() - 1 implies #[trigger] chunk_start(len, w)
        + chunk_len(len, w) == chunk_start(len, w + 1) by {
        assert((w + 1) * c == w * c + c) by (nonlinear_arith);
        assert(chunk_start(len, w + 1) <= c * (ring_len() - 1));
    }
    assert forall|w: int| 0 <= w < ring_len() implies 0 < #[trigger] chunk_len(len, w) <= c by {
        assert(chunk_start(len, w) <= c * (ring_len() - 1));
    }
}

/// The chunks of different threads do not overlap.
pub proof fn lemma_disjoint(len: int, v: int, w: int)
    requires
        !undivided(len),
        0 <= v < w < ring_len(),
    ensures
        chunk_start(len, v) + chunk_len(len, v) <= chunk_start(len, w),
{
    lemma_division(len);
    let c = thread_chunk(len);
    assert((v + 1) * c <= w * c) by (nonlinear_arith)
        requires
            v + 1 <= w,
            c >= 0,
    ;
    assert((v + 1) * c == v * c + c) by (nonlinear_arith);
}

/// Sequences that agree on every chunk are equal.
pub proof fn lemma_equal_by_chunks<T>(s: Seq<T>, t: Seq<T>)
    requires
        !undivided(s.len() as int),
        s.len() == t.len(),
        forall|w: int|
            #![trigger chunk_start(s.len() as int, w)]
            0 <= w < ring_len() ==> s.subrange(
                chunk_start(s.len() as int, w),
                chunk_start(s.len() as int, w) + chunk_len(s.len() as int, w),
            ) == t.subrange(
                chunk_start(s.len() as int, w),
                chunk_start(s.len() as int, w) + chunk_len(s.len() as int, w),
            ),
    ensures
        s == t,
{
    let len = s.len() as int;
    let c = thread_chunk(len);
    lemma_division(len);
    lemma_ceil_div(len, ring_len());
    assert forall|i: int| 0 <= i < len implies s[i] == t[i] by {
        let w = i / c;
        vstd::arithmetic::div_mod::lemma_fundamental_div_mod(i, c);
        assert(w * c <= i < w * c + c && 0 <= w < ring_len()) by (nonlinear_arith)
            requires
                i == c * w + i % c,
                0 <= i % c < c,
                w == i / c,
                0 <= i < len,
                ring_len() * c >= len,
                c > 0,
        ;
        let a = chunk_start(len, w);
        let b = a + chunk_len(len, w);
        assert(a <= i < b);
        assert(s.subrange(a, b)[i - a] == t.subrange(a, b)[i - a]);
    }
    assert(s =~= t);
}

/// A divided input has one chunk for each thread.
pub proof fn lemma_chunk_seq(len: int)
    requires
        !undivided(len),
        len <= usize::MAX,
    ensures
        ceil_div(len, thread_chunk(len)) == ring_len(),
        chunk_seq(len, thread_chunk(len)).len() == ring_len(),
        forall|w: int|
            0 <= w < ring_len() ==> #[trigger] chunk_seq(len, thread_chunk(len))[w] == (
                chunk_start(len, w) as usize,
                (chunk_start(len, w) + chunk_len(len, w)) as usize,
            ),
{
    let c = thread_chunk(len);
    lemma_division(len);
    lemma_ceil_div(len, ring_len());
    lemma_ceil_div(len, c);
    let m = ceil_div(len, c);
    assert(m > ring_len() - 1) by (nonlinear_arith)
        requires
            m * c >= len,
            c * (ring_len() - 1) < len,
            c > 0,
    ;
    assert(m - 1 < ring_len()) by (nonlinear_arith)
        requires
            (m - 1) * c < len,
            ring_len() * c >= len,
            c > 0,
    ;
    assert forall|w: int| 0 <= w < ring_len() implies #[trigger] chunk_seq(len, c)[w] == (
        chunk_start(len, w) as usize,
        (chunk_start(len, w) + chunk_len(len, w)) as usize,
    ) by {
        assert((w + 1) * c == w * c + c) by (nonlinear_arith);
    }
}

/// Every input that is long enough is divided.
pub proof fn lemma_undivided(len: int)
    requires
        len >= 0,
    ensures
        undivided(len) <==> len < least_divided(),
{
    lemma_ceil_div(len, ring_len());
}

/// The batches of the last round of steps are empty.
pub proof fn lemma_visited(len: int, w: int, j: int)
    requires
        !undivided(len),
        0 <= w < ring_len(),
    ensures
        0 <= visited(chunk_len(len, w), j) <= visited(chunk_len(len, w), j + 1) <= chunk_len(
            len,
            w,
        ),
        visited(chunk_len(len, w), j + 1) - visited(chunk_len(len, w), j) <= batch_len(),
        j >= step_count(len) - ring_len() ==> visited(chunk_len(len, w), j) == chunk_len(len, w),
        j >= 0 ==> visited(chunk_len(len, w), j + 1) - visited(chunk_len(len, w), j) == min(
            chunk_len(len, w) - visited(chunk_len(len, w), j),
            batch_len(),
        ),
{
    lemma_division(len);
    lemma_ceil_div(thread_chunk(len), batch_len());
}

proof fn lemma_first_pending(w: int, k: int, c: int)
    requires
        0 <= w < ring_len(),
        0 <= c < ring_len(),
        k >= 0,
    ensures
        c == channel_at(w, k) ==> first_pending(w, k, c) == at_least_zero(k - ring_len() + 1),
        c == channel_at(w, k) ==> first_pending(w, k + 1, c) == k + 1,
        c != channel_at(w, k) ==> first_pending(w, k + 1, c) == first_pending(w, k, c),
{
    let d = (c - w - k) % ring_len();
    let e = (c - w - (k + 1)) % ring_len();
    assert(d == 0 ==> e == ring_len() - 1);
    assert(d > 0 ==> e == d - 1);
    assert(c == (w + k) % ring_len() <==> d == 0);
}

impl<T, FA> Job<T, FA> {
    /// A new batch is added at the end of what is held back.
    pub proof fn lemma_pending_visit(self, w: int, k: int, c: int)
        requires
            k >= 0,
        ensures
            self.pending(w, k, k + 1, c) == self.pending(w, k, k, c) + self.batch_tasks(
                w,
                k,
            ).filter_map(on_channel(c)),
    {
        let lo = first_pending(w, k, c);
        assert(lo <= k);
        lemma_pick_add(self.tasks_between(w, lo, k), self.batch_tasks(w, k), on_channel(c));
    }

    /// In step `k` everything held back for the channel of that step is run, and what is
    /// held back for the other channels stays.
    pub proof fn lemma_pending_run(self, w: int, k: int)
        requires
            k >= 0,
            0 <= w < ring_len(),
        ensures
            self.pending(w, k, k + 1, channel_at(w, k)) == self.run_in_step(w, k),
            self.pending(w, k + 1, k + 1, channel_at(w, k)) == Seq::<FA>::empty(),
            forall|c: int|
                0 <= c < ring_len() && c != channel_at(w, k) ==> #[trigger] self.pending(
                    w,
                    k + 1,
                    k + 1,
                    c,
                ) == self.pending(w, k, k + 1, c),
    {
        let c0 = channel_at(w, k);
        lemma_first_pending(w, k, c0);
        assert forall|c: int|
            0 <= c < ring_len() && c != channel_at(w, k) implies #[trigger] self.pending(
            w,
            k + 1,
            k + 1,
            c,
        ) == self.pending(w, k, k + 1, c) by {
            lemma_first_pending(w, k, c);
        }
    }

    /// Nothing is held back before the first step.
    pub proof fn lemma_pending_start(self, w: int, c: int)
        ensures
            self.pending(w, 0, 0, c) == Seq::<FA>::empty(),
    {
    }

    proof fn lemma_tasks_between_empty(self, w: int, lo: int, hi: int)
        requires
            !undivided(self.len()),
            0 <= w < ring_len(),
            lo >= step_count(self.len()) - ring_len(),
        ensures
            self.tasks_between(w, lo, hi) == Seq::<(u32, FA)>::empty(),
        decreases hi - lo,
    {
        if hi > lo {
            self.lemma_tasks_between_empty(w, lo, hi - 1);
            lemma_visited(self.len(), w, hi - 1);
            lemma_visited(self.len(), w, hi);
        }
    }

    /// Nothing is held back after the last step.
    pub proof fn lemma_pending_end(self, w: int, c: int)
        requires
            !undivided(self.len()),
            0 <= w < ring_len(),
        ensures
            self.pending(w, step_count(self.len()), step_count(self.len()), c)
                == Seq::<FA>::empty(),
    {
        let k = step_count(self.len());
        lemma_division(self.len());
        lemma_ceil_div(thread_chunk(self.len()), batch_len());
        self.lemma_tasks_between_empty(w, first_pending(w, k, c), k);
    }
}

impl<T, FA> Job<T, FA> {
    /// The tasks that the first `m` threads schedule on channel `c`, thread by thread.
    pub open spec fn scheduled_by(self, m: int, c: int) -> Seq<FA>
        decreases m,
    {
        if m <= 0 {
            Seq::empty()
        } else {
            self.scheduled_by(m - 1, c) + self.tasks_between(
                m - 1,
                0,
                step_count(self.len()),
            ).filter_map(on_channel(c))
        }
    }

    /// All the tasks that the visits schedule on channel `c`, in the order of the data.
    pub open spec fn scheduled(self, c: int) -> Seq<FA> {
        if self.len() == 0 {
            Seq::empty()
        } else if undivided(self.len()) {
            (self.tasks)(0, self.data).filter_map(on_channel(c))
        } else {
            self.scheduled_by(ring_len(), c)
        }
    }

    /// The tasks of the first `m` threads on channel `c` that have been run when each thread
    /// has completed `k` steps, thread by thread.
    spec fn collected(self, m: int, k: int, c: int) -> Seq<FA>
        decreases m,
    {
        if m <= 0 {
            Seq::empty()
        } else {
            self.collected(m - 1, k, c) + self.tasks_between(
                m - 1,
                0,
                first_pending(m - 1, k, c),
            ).filter_map(on_channel(c))
        }
    }

    proof fn lemma_tasks_between_split(self, w: int, a: int, b: int, d: int)
        requires
            a <= b <= d,
        ensures
            self.tasks_between(w, a, d) == self.tasks_between(w, a, b) + self.tasks_between(
                w,
                b,
                d,
            ),
        decreases d - b,
    {
        if b < d {
            self.lemma_tasks_between_split(w, a, b, d - 1);
        }
        assert(self.tasks_between(w, a, d) =~= self.tasks_between(w, a, b) + self.tasks_between(
            w,
            b,
            d,
        ));
    }

    proof fn lemma_collected_step(self, m: int, k: int, c: int)
        requires
            0 <= m <= ring_len(),
            k >= 0,
            0 <= c < ring_len(),
        ensures
            self.collected(m, k + 1, c).to_multiset() == (if owner(c, k) < m {
                self.collected(m, k, c).to_multiset().add(
                    self.run_in_step(owner(c, k), k).to_multiset(),
                )
            } else {
                self.collected(m, k, c).to_multiset()
            }),
        decreases m,
    {
        if m > 0 {
            let w = m - 1;
            let before = self.tasks_between(w, 0, first_pending(w, k, c));
            let after = self.tasks_between(w, 0, first_pending(w, k + 1, c));
            let on = on_channel::<FA>(c);
            self.lemma_collected_step(w, k, c);
            lemma_owner(w, c, k);
            lemma_first_pending(w, k, c);
            lemma_multiset_commutative(self.collected(w, k, c), before.filter_map(on));
            lemma_multiset_commutative(self.collected(w, k + 1, c), after.filter_map(on));
            if owner(c, k) == w {
                let lo = first_pending(w, k, c);
                let new = self.tasks_between(w, lo, k + 1);
                self.lemma_tasks_between_split(w, 0, lo, k + 1);
                lemma_pick_add(before, new, on);
                lemma_multiset_commutative(before.filter_map(on), new.filter_map(on));
                assert(self.run_in_step(w, k) == new.filter_map(on));
            }
            assert(self.collected(m, k + 1, c).to_multiset() =~= if owner(c, k) < m {
                self.collected(m, k, c).to_multiset().add(
                    self.run_in_step(owner(c, k), k).to_multiset(),
                )
            } else {
                self.collected(m, k, c).to_multiset()
            });
        } else {
            lemma_owner(0, c, k);
        }
    }

    proof fn lemma_collected_none(self, m: int, c: int)
        requires
            0 <= m <= ring_len(),
        ensures
            self.collected(m, 0, c) == Seq::<FA>::empty(),
        decreases m,
    {
        if m > 0 {
            self.lemma_collected_none(m - 1, c);
            assert(first_pending(m - 1, 0, c) == 0);
            assert(self.collected(m, 0, c) =~= Seq::<FA>::empty());
        }
    }

    proof fn lemma_collected_all(self, m: int, c: int)
        requires
            !undivided(self.len()),
            0 <= m <= ring_len(),
        ensures
            self.collected(m, step_count(self.len()), c) == self.scheduled_by(m, c),
        decreases m,
    {
        if m > 0 {
            let n = step_count(self.len());
            let w = m - 1;
            let lo = first_pending(w, n, c);
            lemma_division(self.len());
            lemma_ceil_div(thread_chunk(self.len()), batch_len());
            self.lemma_collected_all(w, c);
            self.lemma_tasks_between_split(w, 0, lo, n);
            self.lemma_tasks_between_empty(w, lo, n);
            assert(self.tasks_between(w, 0, n) =~= self.tasks_between(w, 0, lo));
        }
    }

    proof fn lemma_run_once(self, k: int, c: int)
        requires
            k >= 0,
            0 <= c < ring_len(),
        ensures
            self.run_on_channel(c, k).to_multiset() == self.collected(
                ring_len(),
                k,
                c,
            ).to_multiset(),
        decreases k,
    {
        if k == 0 {
            self.lemma_collected_none(ring_len(), c);
        } else {
            let w = owner(c, k - 1);
            self.lemma_run_once(k - 1, c);
            self.lemma_collected_step(ring_len(), k - 1, c);
            lemma_owner(w, c, k - 1);
            lemma_multiset_commutative(
                self.run_on_channel(c, k - 1),
                self.run_in_step(w, k - 1),
            );
        }
    }

    /// Every task that a visit schedules on a channel is run on that channel, exactly once, and
    /// nothing else is run there.
    pub proof fn law_every_task_is_run_once(self, c: int)
        requires
            0 <= c < ring_len(),
        ensures
            self.tasks_run(c).to_multiset() == self.scheduled(c).to_multiset(),
    {
        if self.len() > 0 && !undivided(self.len()) {
            let n = step_count(self.len());
            lemma_division(self.len());
            lemma_ceil_div(thread_chunk(self.len()), batch_len());
            self.lemma_run_once(n, c);
            self.lemma_collected_all(ring_len(), c);
        }
    }
}

} // verus!
