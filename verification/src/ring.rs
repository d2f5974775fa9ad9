//! The order in which the threads of a pool take turns at the channels.
//!
//! The auxiliary data is divided into as many channels as there are threads. In its step
//! number `k`, thread `w` works on channel `w + k`, counted round the ring. It may do so as
//! soon as its friend, thread `w + 1`, has completed `k` steps, because the friend's step
//! `k - 1` was on that same channel. Nothing else synchronises the threads.
use vstd::prelude::*;

verus! {

/// The number of threads in the ring, and of channels.
#[verifier::inline]
pub open spec fn ring_len() -> int {
    8
}

/// The thread that must have released a channel before thread `w` takes it.
pub open spec fn friend(w: int) -> int {
    (w + 1) % ring_len()
}

/// The channel on which thread `w` works in its step `k`.
pub open spec fn channel_at(w: int, k: int) -> int {
    (w + k) % ring_len()
}

/// The thread whose step `k` is on channel `c`.
pub open spec fn owner(c: int, k: int) -> int {
    (c - k) % ring_len()
}

/// No thread is more than one step ahead of its friend. `done[w]` is the number of steps
/// that thread `w` has completed.
pub open spec fn in_step(done: Seq<int>) -> bool {
    &&& done.len() == ring_len()
    &&& forall|w: int| 0 <= w < ring_len() ==> 0 <= #[trigger] done[w]
    &&& forall|w: int| 0 <= w < ring_len() ==> done[w] <= done[#[trigger] friend(w)] + 1
}

/// Thread `w` may work on the channel of its next step.
pub open spec fn may_step(done: Seq<int>, w: int) -> bool {
    done[w] <= done[friend(w)]
}

/// Exactly the first `p` steps on channel `c` have been completed.
pub open spec fn is_progress(done: Seq<int>, c: int, p: int) -> bool {
    &&& p >= 0
    &&& forall|k: int| 0 <= k < p ==> done[#[trigger] owner(c, k)] > k
    &&& forall|k: int| k >= p ==> done[#[trigger] owner(c, k)] <= k
}

/// Step `k` is on channel `c` for exactly one thread.
pub proof fn lemma_owner(w: int, c: int, k: int)
    requires
        0 <= w < ring_len(),
        0 <= c < ring_len(),
    ensures
        0 <= owner(c, k) < ring_len(),
        owner(c, k) == w <==> channel_at(w, k) == c,
{
}

proof fn lemma_ahead(done: Seq<int>, w: int, m: int)
    requires
        in_step(done),
        0 <= w < ring_len(),
        may_step(done, w),
        m >= 1,
    ensures
        done[(w + m) % ring_len()] >= done[w] - m + 1,
    decreases m,
{
    if m > 1 {
        lemma_ahead(done, w, m - 1);
        let v = (w + m - 1) % ring_len();
        assert(friend(v) == (w + m) % ring_len());
        assert(done[v] <= done[friend(v)] + 1);
    }
}

proof fn lemma_behind(done: Seq<int>, w: int, m: int)
    requires
        in_step(done),
        0 <= w < ring_len(),
        m >= 0,
    ensures
        done[(w - m) % ring_len()] <= done[w] + m,
    decreases m,
{
    if m > 0 {
        lemma_behind(done, w, m - 1);
        let v = (w - m) % ring_len();
        assert(friend(v) == (w - m + 1) % ring_len());
        assert(done[v] <= done[friend(v)] + 1);
    }
}

/// A thread that may step finds its channel with exactly the earlier steps completed: none
/// of them is missing, and no later step has been taken.
pub proof fn lemma_turn(done: Seq<int>, w: int)
    requires
        in_step(done),
        0 <= w < ring_len(),
        may_step(done, w),
    ensures
        is_progress(done, channel_at(w, done[w]), done[w]),
{
    let p = done[w];
    let c = channel_at(w, p);
    assert forall|k: int| 0 <= k < p implies done[#[trigger] owner(c, k)] > k by {
        lemma_ahead(done, w, p - k);
        assert(owner(c, k) == (w + (p - k)) % ring_len());
    }
    assert forall|k: int| k >= p implies done[#[trigger] owner(c, k)] <= k by {
        lemma_behind(done, w, k - p);
        assert(owner(c, k) == (w - (k - p)) % ring_len());
    }
}

/// Completing a step keeps the threads in step and moves one channel on by one step.
pub proof fn lemma_advance(done: Seq<int>, w: int)
    requires
        in_step(done),
        0 <= w < ring_len(),
        may_step(done, w),
    ensures
        in_step(done.update(w, done[w] + 1)),
        is_progress(done.update(w, done[w] + 1), channel_at(w, done[w]), done[w] + 1),
        forall|c: int, p: int|
            0 <= c < ring_len() && c != channel_at(w, done[w]) ==> is_progress(done, c, p)
                == #[trigger] is_progress(done.update(w, done[w] + 1), c, p),
{
    let next = done.update(w, done[w] + 1);
    let k0 = done[w];
    lemma_turn(done, w);
    assert forall|v: int| 0 <= v < ring_len() implies next[v] <= next[#[trigger] friend(v)] + 1 by {
        assert(done[v] <= done[friend(v)] + 1);
    }
    assert forall|k: int| 0 <= k < k0 + 1 implies next[#[trigger] owner(
        channel_at(w, k0),
        k,
    )] > k by {
        if k < k0 {
            assert(done[owner(channel_at(w, k0), k)] > k);
        }
    }
    assert forall|k: int| k >= k0 + 1 implies next[#[trigger] owner(
        channel_at(w, k0),
        k,
    )] <= k by {
        assert(done[owner(channel_at(w, k0), k)] <= k);
    }
    assert forall|c: int, p: int|
        0 <= c < ring_len() && c != channel_at(w, k0) implies is_progress(done, c, p)
        == #[trigger] is_progress(next, c, p) by {
        assert forall|k: int| k >= 0 implies (done[#[trigger] owner(c, k)] > k) == (next[owner(
            c,
            k,
        )] > k) by {
            lemma_owner(w, c, k);
        }
        if is_progress(done, c, p) {
            assert forall|k: int| 0 <= k < p implies next[#[trigger] owner(c, k)] > k by {
                assert(done[owner(c, k)] > k);
            }
            assert forall|k: int| k >= p implies next[#[trigger] owner(c, k)] <= k by {
                assert(done[owner(c, k)] <= k);
            }
        }
        if is_progress(next, c, p) {
            assert forall|k: int| 0 <= k < p implies done[#[trigger] owner(c, k)] > k by {
                assert(next[owner(c, k)] > k);
            }
            assert forall|k: int| k >= p implies done[#[trigger] owner(c, k)] <= k by {
                assert(next[owner(c, k)] <= k);
            }
        }
    }
}

/// The number of completed steps on a channel is unique.
pub proof fn lemma_progress_unique(done: Seq<int>, c: int, p: int, q: int)
    requires
        is_progress(done, c, p),
        is_progress(done, c, q),
    ensures
        p == q,
{
    if p < q {
        assert(done[owner(c, p)] > p);
    }
    if q < p {
        assert(done[owner(c, q)] > q);
    }
}

/// Two threads that may step at the same time do so on different channels.
pub proof fn law_no_two_threads_on_one_channel(done: Seq<int>, v: int, w: int)
    requires
        in_step(done),
        0 <= v < ring_len(),
        0 <= w < ring_len(),
        v != w,
        may_step(done, v),
        may_step(done, w),
    ensures
        channel_at(v, done[v]) != channel_at(w, done[w]),
{
    lemma_turn(done, v);
    lemma_turn(done, w);
    if channel_at(v, done[v]) == channel_at(w, done[w]) {
        lemma_progress_unique(done, channel_at(v, done[v]), done[v], done[w]);
    }
}

} // verus!
