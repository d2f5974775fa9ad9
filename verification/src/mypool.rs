//! A pool to which jobs are handed one by one, each for a thread of its own.
use vstd::prelude::*;

use crate::each::{apply_range, is_index};

verus! {

/// A pool of threads. Of each thread it keeps the range of items on which the thread last ran a
/// job.
pub struct Pool {
    ran: Vec<(usize, usize)>,
}

impl Pool {
    /// The range of items on which each thread last ran a job, from the first number up to, not
    /// including, the second.
    pub closed spec fn ran(self) -> Seq<(usize, usize)> {
        self.ran@
    }

    /// The number of threads.
    pub open spec fn threads(self) -> nat {
        self.ran().len()
    }

    /// A pool of `thread_count` threads, none of which has run a job.
    pub fn new(thread_count: usize) -> (pool: Pool)
        ensures
            pool.ran() == Seq::new(thread_count as nat, |i: int| (0usize, 0usize)),
    {
        let mut ran: Vec<(usize, usize)> = Vec::new();
        let mut i: usize = 0;
        while i < thread_count
            invariant
                i <= thread_count,
                ran@ =~= Seq::new(i as nat, |j: int| (0usize, 0usize)),
            decreases thread_count - i,
        {
            ran.push((0, 0));
            i = i + 1;
        }
        Pool { ran }
    }

    /// The number of threads.
    pub fn thread_count(&self) -> (count: usize)
        ensures
            count == self.threads(),
    {
        self.ran.len()
    }

    /// The range of items on which a thread last ran a job.
    pub fn last_range(&self, thread_index: usize) -> (range: (usize, usize))
        requires
            thread_index < self.threads(),
        ensures
            range == self.ran()[thread_index as int],
    {
        self.ran[thread_index]
    }

    /// Runs a job of the thread with the given number: `f` is applied, in order, to the items
    /// from `start` up to, not including, `end`.
    pub fn execute<T, F: Fn(&mut T)>(
        &mut self,
        thread_index: usize,
        data: &mut [T],
        start: usize,
        end: usize,
        f: &F,
    )
        requires
            thread_index < old(self).threads(),
            start <= end <= old(data)@.len(),
            forall|i: int, x: &mut T| #[trigger]
                is_index(i, old(data)@.len()) && start <= i < end && *x == old(data)@[i]
                    ==> #[trigger] call_requires(*f, (x,)),
        ensures
            final(self).ran() == old(self).ran().update(thread_index as int, (start, end)),
            final(data)@.len() == old(data)@.len(),
            forall|i: int| #[trigger]
                is_index(i, old(data)@.len()) && start <= i < end ==> exists|x: &mut T| #[trigger]
                    call_ensures(*f, (x,), ()) && *x == old(data)@[i] && *final(x)
                        == final(data)@[i],
            forall|i: int|
                0 <= i < old(data)@.len() && !(start <= i < end) ==> final(data)@[i]
                    == old(data)@[i],
    {
        apply_range(data, start, end, f);
        self.ran[thread_index] = (start, end);
    }
}

} // verus!
