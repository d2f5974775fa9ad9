//! Jobs that are handed to the threads of other crates.
use rayon::Scope as RayonScope;
use scoped_threadpool::Scope as ThreadPoolScope;
use vstd::prelude::*;

use crate::each::{apply_each, is_index};

verus! {

/// `rayon::Scope`, of which nothing is known here but how jobs are spawned in it.
#[verifier::external_type_specification]
#[verifier::external_body]
pub struct ExRayonScope<'scope>(RayonScope<'scope>);

/// `scoped_threadpool::Scope`, of which nothing is known here but how jobs are executed in it.
#[verifier::external_type_specification]
#[verifier::external_body]
pub struct ExThreadPoolScope<'pool, 'scope>(ThreadPoolScope<'pool, 'scope>);

/// A job that has been handed out. There is no way to get one but to hand a job out.
pub struct HandedJob {
    start: usize,
    end: usize,
}

impl HandedJob {
    /// The items of the job: from the first number up to, not including, the second.
    pub closed spec fn range(self) -> (usize, usize) {
        (self.start, self.end)
    }

    /// The items of the job: from the first number up to, not including, the second.
    pub fn bounds(&self) -> (range: (usize, usize))
        ensures
            range == self.range(),
    {
        (self.start, self.end)
    }
}

/// The items of each job, in the order in which the jobs were handed out.
pub open spec fn handed(jobs: Seq<HandedJob>) -> Seq<(usize, usize)> {
    jobs.map_values(|job: HandedJob| job.range())
}

/// `rayon::Scope::spawn`: the job is run once, on some thread, before the scope ends. The
/// borrow of `chunk` lasts as long as the scope, so its final value is what the job leaves.
/// The items of the chunk have the numbers from `start` up to, not including, `end`.
#[verifier::external_body]
pub(crate) fn rayon_spawn<'scope, T: Send, F: Fn(&mut T) + Sync>(
    s: &RayonScope<'scope>,
    chunk: &'scope mut [T],
    start: usize,
    end: usize,
    f: &'scope F,
) -> (job: HandedJob)
    requires
        end - start == old(chunk)@.len(),
        forall|i: int, x: &mut T| #[trigger]
            is_index(i, old(chunk)@.len()) && *x == old(chunk)@[i] ==> #[trigger] call_requires(
                *f,
                (x,),
            ),
    ensures
        job.range() == (start, end),
        final(chunk)@.len() == old(chunk)@.len(),
        forall|i: int| #[trigger]
            is_index(i, old(chunk)@.len()) ==> exists|x: &mut T| #[trigger]
                call_ensures(*f, (x,), ()) && *x == old(chunk)@[i] && *final(x)
                    == final(chunk)@[i],
{
    s.spawn(move |_| apply_each(chunk, f));
    HandedJob { start, end }
}

/// `scoped_threadpool::Scope::execute`: the job is run once, on some thread of the pool,
/// before the scope ends. The borrow of `chunk` lasts as long as the scope, so its final
/// value is what the job leaves. The items of the chunk have the numbers from `start` up to,
/// not including, `end`.
#[verifier::external_body]
pub(crate) fn pool_execute<'pool, 'scope, T: Send, F: Fn(&mut T) + Sync>(
    scope: &ThreadPoolScope<'pool, 'scope>,
    chunk: &'scope mut [T],
    start: usize,
    end: usize,
    f: &'scope F,
) -> (job: HandedJob)
    requires
        end - start == old(chunk)@.len(),
        forall|i: int, x: &mut T| #[trigger]
            is_index(i, old(chunk)@.len()) && *x == old(chunk)@[i] ==> #[trigger] call_requires(
                *f,
                (x,),
            ),
    ensures
        job.range() == (start, end),
        final(chunk)@.len() == old(chunk)@.len(),
        forall|i: int| #[trigger]
            is_index(i, old(chunk)@.len()) ==> exists|x: &mut T| #[trigger]
                call_ensures(*f, (x,), ()) && *x == old(chunk)@[i] && *final(x)
                    == final(chunk)@[i],
{
    scope.execute(move || apply_each(chunk, f));
    HandedJob { start, end }
}

} // verus!
