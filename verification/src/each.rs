//! Applying a function to every item of a slice.
use rayon::Scope as RayonScope;
use scoped_threadpool::{Pool as ThreadPool, Scope as ThreadPoolScope};
use vstd::prelude::*;

use crate::chunks::{chunk_seq, lemma_chunk_at, lemma_chunk_seq_bounds};
use crate::handed::{handed, pool_execute, rayon_spawn, HandedJob};

verus! {

/// `i` is an index of a sequence of `len` items.
pub open spec fn is_index(i: int, len: nat) -> bool {
    0 <= i < len
}

/// Applies `f` to the items from `start` up to, not including, `end`, in order.
pub fn apply_range<T, F: Fn(&mut T)>(data: &mut [T], start: usize, end: usize, f: &F)
    requires
        start <= end <= old(data)@.len(),
        forall|i: int, x: &mut T| #[trigger]
            is_index(i, old(data)@.len()) && start <= i < end && *x == old(data)@[i]
                ==> #[trigger] call_requires(*f, (x,)),
    ensures
        final(data)@.len() == old(data)@.len(),
        forall|i: int| #[trigger]
            is_index(i, old(data)@.len()) && start <= i < end ==> exists|x: &mut T| #[trigger]
                call_ensures(*f, (x,), ()) && *x == old(data)@[i] && *final(x) == final(data)@[i],
        forall|i: int|
            0 <= i < old(data)@.len() && !(start <= i < end) ==> final(data)@[i] == old(data)@[i],
{
    let ghost len = data@.len();
    let mut i: usize = start;
    while i < end
        invariant
            start <= i <= end <= len,
            len == data@.len(),
            len == old(data)@.len(),
            forall|j: int, x: &mut T| #[trigger]
                is_index(j, len) && start <= j < end && *x == old(data)@[j]
                    ==> #[trigger] call_requires(*f, (x,)),
            forall|j: int|
                0 <= j < len && !(start <= j < i) ==> data@[j] == old(data)@[j],
            forall|j: int| #[trigger]
                is_index(j, len) && start <= j < i ==> exists|x: &mut T| #[trigger]
                    call_ensures(*f, (x,), ()) && *x == old(data)@[j] && *final(x) == data@[j],
        decreases end - i,
    {
        assert(is_index(i as int, len));
        let item = &mut data[i];
        f(item);
        i = i + 1;
    }
}

/// Applies `f` to every item, in order.
pub fn apply_each<T, F: Fn(&mut T)>(data: &mut [T], f: &F)
    requires
        forall|i: int, x: &mut T| #[trigger]
            is_index(i, old(data)@.len()) && *x == old(data)@[i] ==> #[trigger] call_requires(
                *f,
                (x,),
            ),
    ensures
        final(data)@.len() == old(data)@.len(),
        forall|i: int| #[trigger]
            is_index(i, old(data)@.len()) ==> exists|x: &mut T| #[trigger]
                call_ensures(*f, (x,), ()) && *x == old(data)@[i] && *final(x) == final(data)@[i],
{
    let end: usize = data.len();
    apply_range(data, 0, end, f);
}

/// Spawns a job for each chunk of the data.
fn rayon_spawn_chunks<'scope, T: Send, F: Fn(&mut T) + Sync>(
    s: &RayonScope<'scope>,
    data: &'scope mut [T],
    chunk_size: usize,
    f: &'scope F,
) -> (jobs: Vec<HandedJob>)
    requires
        chunk_size > 0,
        old(data)@.len() > 0,
        forall|i: int, x: &mut T| #[trigger]
            is_index(i, old(data)@.len()) && *x == old(data)@[i] ==> #[trigger] call_requires(
                *f,
                (x,),
            ),
    ensures
        handed(jobs@) == chunk_seq(old(data)@.len() as int, chunk_size as int),
        final(data)@.len() == old(data)@.len(),
        forall|i: int| #[trigger]
            is_index(i, old(data)@.len()) ==> exists|x: &mut T| #[trigger]
                call_ensures(*f, (x,), ()) && *x == old(data)@[i] && *final(x) == final(data)@[i],
{
    let data_len: usize = data.len();
    let ghost data0 = data@;
    let ghost end_data = final(data)@;
    let ghost len = data_len as int;
    let ghost n = chunk_size as int;
    let ghost all = chunk_seq(len, n);
    let ghost mut k: int = 0;
    let mut jobs: Vec<HandedJob> = Vec::new();
    let mut start: usize = 0;
    let mut rest: &'scope mut [T] = data;
    proof {
        assert(handed(jobs@) =~= all.take(0));
        assert(rest@ =~= data0.skip(0));
        assert(end_data.skip(0) =~= end_data);
    }
    while rest.len() > chunk_size
        invariant
            chunk_size == n,
            n > 0,
            len == data_len,
            len == data0.len(),
            all == chunk_seq(len, n),
            0 <= k,
            start == k * n,
            start < len,
            rest@ == data0.skip(start as int),
            final(rest)@ == end_data.skip(start as int),
            start <= end_data.len(),
            handed(jobs@) == all.take(k),
            forall|i: int, x: &mut T| #[trigger]
                is_index(i, data0.len()) && *x == data0[i] ==> #[trigger] call_requires(
                    *f,
                    (x,),
                ),
            forall|i: int| #[trigger]
                is_index(i, data0.len()) && i < start ==> exists|x: &mut T| #[trigger]
                    call_ensures(*f, (x,), ()) && *x == data0[i] && *final(x) == end_data[i],
        decreases rest@.len(),
    {
        let end: usize = start + chunk_size;
        let ghost end_rest = final(rest)@;
        let (chunk, tail) = rest.split_at_mut(chunk_size);
        let ghost end_chunk = final(chunk)@;
        let ghost end_tail = final(tail)@;
        let ghost jobs0 = jobs@;
        proof {
            lemma_chunk_seq_bounds(len, n);
            lemma_chunk_at(len, n, k);
            assert(all.take(k + 1) =~= all.take(k).push(all[k]));
            assert(end_rest =~= end_chunk + end_tail);
        }
        assert forall|i: int, x: &mut T| #[trigger]
            is_index(i, chunk@.len()) && *x == chunk@[i] implies #[trigger] call_requires(
            *f,
            (x,),
        ) by {
            assert(is_index(i + start, data0.len()));
        }
        let ghost chunk0 = chunk@;
        let job = rayon_spawn(s, chunk, start, end, f);
        jobs.push(job);
        rest = tail;
        proof {
            assert(handed(jobs@) =~= handed(jobs0).push((start, end)));
            assert(end_chunk.len() == n);
            assert(end_data.len() == start + end_rest.len());
            assert(rest@ =~= data0.skip(end as int));
            assert forall|j: int| 0 <= j < end_tail.len() implies end_tail[j] == end_data.skip(
                end as int,
            )[j] by {
                assert(end_rest[n + j] == end_tail[j]);
                assert(end_data.skip(start as int)[n + j] == end_data[start + n + j]);
            }
            assert(end_tail =~= end_data.skip(end as int));
            assert forall|i: int| #[trigger] is_index(i, data0.len()) && i
                < end implies exists|x: &mut T| #[trigger]
                call_ensures(*f, (x,), ()) && *x == data0[i] && *final(x) == end_data[i] by {
                if i >= start {
                    assert(is_index(i - start, chunk0.len()));
                    assert(end_data[i] == end_data.skip(start as int)[i - start]);
                    assert(end_chunk[i - start] == end_data[i]);
                }
            }
            k = k + 1;
        }
        start = end;
    }
    let end: usize = start + rest.len();
    let ghost rest0 = rest@;
    let ghost end_rest = final(rest)@;
    let ghost jobs0 = jobs@;
    proof {
        lemma_chunk_seq_bounds(len, n);
        lemma_chunk_at(len, n, k);
        assert(all.take(k + 1) =~= all.take(k).push(all[k]));
        assert(all.take(k + 1) =~= all);
    }
    assert forall|i: int, x: &mut T| #[trigger]
        is_index(i, rest@.len()) && *x == rest@[i] implies #[trigger] call_requires(*f, (x,)) by {
        assert(is_index(i + start, data0.len()));
    }
    let job = rayon_spawn(s, rest, start, end, f);
    jobs.push(job);
    proof {
        assert(handed(jobs@) =~= handed(jobs0).push((start, end)));
        assert forall|i: int| #[trigger] is_index(i, data0.len()) implies exists|x: &mut T|
            #[trigger]
            call_ensures(*f, (x,), ()) && *x == data0[i] && *final(x) == end_data[i] by {
            if i >= start {
                assert(is_index(i - start, rest0.len()));
                assert(end_rest[i - start] == end_data[i]);
            }
        }
    }
    jobs
}

/// `rayon::scope`: calls the closure, and returns what it returns when all the jobs that it
/// spawned have been run.
#[verifier::external_body]
pub(crate) fn rayon_scope<T: Send, F: Fn(&mut T) + Sync>(
    data: &mut [T],
    chunk_size: usize,
    f: &F,
) -> (jobs: Vec<HandedJob>)
    requires
        chunk_size > 0,
        old(data)@.len() > 0,
        forall|i: int, x: &mut T| #[trigger]
            is_index(i, old(data)@.len()) && *x == old(data)@[i] ==> #[trigger] call_requires(
                *f,
                (x,),
            ),
    ensures
        handed(jobs@) == chunk_seq(old(data)@.len() as int, chunk_size as int),
        final(data)@.len() == old(data)@.len(),
        forall|i: int| #[trigger]
            is_index(i, old(data)@.len()) ==> exists|x: &mut T| #[trigger]
                call_ensures(*f, (x,), ()) && *x == old(data)@[i] && *final(x) == final(data)@[i],
{
    rayon::scope(|s| rayon_spawn_chunks(s, data, chunk_size, f))
}

/// `scoped_threadpool::Pool`, of which only the number of threads is known here.
#[verifier::external_type_specification]
#[verifier::external_body]
pub struct ExThreadPool(ThreadPool);

/// The number of threads of a pool.
pub uninterp spec fn threads_of(pool: ThreadPool) -> u32;

/// `scoped_threadpool::Pool::thread_count`: the number of threads that the pool was made
/// with, which is at least one.
pub assume_specification[ ThreadPool::thread_count ](
    pool: &ThreadPool,
) -> (count: u32)
    ensures
        count == threads_of(*pool),
        count >= 1,
;

/// Executes a job for each chunk of the data.
fn pool_execute_chunks<'pool, 'scope, T: Send, F: Fn(&mut T) + Sync>(
    scope: &ThreadPoolScope<'pool, 'scope>,
    data: &'scope mut [T],
    chunk_size: usize,
    f: &'scope F,
) -> (jobs: Vec<HandedJob>)
    requires
        chunk_size > 0,
        old(data)@.len() > 0,
        forall|i: int, x: &mut T| #[trigger]
            is_index(i, old(data)@.len()) && *x == old(data)@[i] ==> #[trigger] call_requires(
                *f,
                (x,),
            ),
    ensures
        handed(jobs@) == chunk_seq(old(data)@.len() as int, chunk_size as int),
        final(data)@.len() == old(data)@.len(),
        forall|i: int| #[trigger]
            is_index(i, old(data)@.len()) ==> exists|x: &mut T| #[trigger]
                call_ensures(*f, (x,), ()) && *x == old(data)@[i] && *final(x) == final(data)@[i],
{
    let data_len: usize = data.len();
    let ghost data0 = data@;
    let ghost end_data = final(data)@;
    let ghost len = data_len as int;
    let ghost n = chunk_size as int;
    let ghost all = chunk_seq(len, n);
    let ghost mut k: int = 0;
    let mut jobs: Vec<HandedJob> = Vec::new();
    let mut start: usize = 0;
    let mut rest: &'scope mut [T] = data;
    proof {
        assert(handed(jobs@) =~= all.take(0));
        assert(rest@ =~= data0.skip(0));
        assert(end_data.skip(0) =~= end_data);
    }
    while rest.len() > chunk_size
        invariant
            chunk_size == n,
            n > 0,
            len == data_len,
            len == data0.len(),
            all == chunk_seq(len, n),
            0 <= k,
            start == k * n,
            start < len,
            rest@ == data0.skip(start as int),
            final(rest)@ == end_data.skip(start as int),
            start <= end_data.len(),
            handed(jobs@) == all.take(k),
            forall|i: int, x: &mut T| #[trigger]
                is_index(i, data0.len()) && *x == data0[i] ==> #[trigger] call_requires(
                    *f,
                    (x,),
                ),
            forall|i: int| #[trigger]
                is_index(i, data0.len()) && i < start ==> exists|x: &mut T| #[trigger]
                    call_ensures(*f, (x,), ()) && *x == data0[i] && *final(x) == end_data[i],
        decreases rest@.len(),
    {
        let end: usize = start + chunk_size;
        let ghost end_rest = final(rest)@;
        let (chunk, tail) = rest.split_at_mut(chunk_size);
        let ghost end_chunk = final(chunk)@;
        let ghost end_tail = final(tail)@;
        let ghost jobs0 = jobs@;
        proof {
            lemma_chunk_seq_bounds(len, n);
            lemma_chunk_at(len, n, k);
            assert(all.take(k + 1) =~= all.take(k).push(all[k]));
            assert(end_rest =~= end_chunk + end_tail);
        }
        assert forall|i: int, x: &mut T| #[trigger]
            is_index(i, chunk@.len()) && *x == chunk@[i] implies #[trigger] call_requires(
            *f,
            (x,),
        ) by {
            assert(is_index(i + start, data0.len()));
        }
        let ghost chunk0 = chunk@;
        let job = pool_execute(scope, chunk, start, end, f);
        jobs.push(job);
        rest = tail;
        proof {
            assert(handed(jobs@) =~= handed(jobs0).push((start, end)));
            assert(end_chunk.len() == n);
            assert(end_data.len() == start + end_rest.len());
            assert(rest@ =~= data0.skip(end as int));
            assert forall|j: int| 0 <= j < end_tail.len() implies end_tail[j] == end_data.skip(
                end as int,
            )[j] by {
                assert(end_rest[n + j] == end_tail[j]);
                assert(end_data.skip(start as int)[n + j] == end_data[start + n + j]);
            }
            assert(end_tail =~= end_data.skip(end as int));
            assert forall|i: int| #[trigger] is_index(i, data0.len()) && i
                < end implies exists|x: &mut T| #[trigger]
                call_ensures(*f, (x,), ()) && *x == data0[i] && *final(x) == end_data[i] by {
                if i >= start {
                    assert(is_index(i - start, chunk0.len()));
                    assert(end_data[i] == end_data.skip(start as int)[i - start]);
                    assert(end_chunk[i - start] == end_data[i]);
                }
            }
            k = k + 1;
        }
        start = end;
    }
    let end: usize = start + rest.len();
    let ghost rest0 = rest@;
    let ghost end_rest = final(rest)@;
    let ghost jobs0 = jobs@;
    proof {
        lemma_chunk_seq_bounds(len, n);
        lemma_chunk_at(len, n, k);
        assert(all.take(k + 1) =~= all.take(k).push(all[k]));
        assert(all.take(k + 1) =~= all);
    }
    assert forall|i: int, x: &mut T| #[trigger]
        is_index(i, rest@.len()) && *x == rest@[i] implies #[trigger] call_requires(*f, (x,)) by {
        assert(is_index(i + start, data0.len()));
    }
    let job = pool_execute(scope, rest, start, end, f);
    jobs.push(job);
    proof {
        assert(handed(jobs@) =~= handed(jobs0).push((start, end)));
        assert forall|i: int| #[trigger] is_index(i, data0.len()) implies exists|x: &mut T|
            #[trigger]
            call_ensures(*f, (x,), ()) && *x == data0[i] && *final(x) == end_data[i] by {
            if i >= start {
                assert(is_index(i - start, rest0.len()));
                assert(end_rest[i - start] == end_data[i]);
            }
        }
    }
    jobs
}

/// `scoped_threadpool::Pool::scoped`: calls the closure, and returns what it returns when all
/// the jobs that it executed have been run. The pool keeps its threads.
#[verifier::external_body]
pub(crate) fn pool_scoped<T: Send, F: Fn(&mut T) + Sync>(
    pool: &mut ThreadPool,
    data: &mut [T],
    chunk_size: usize,
    f: &F,
) -> (jobs: Vec<HandedJob>)
    requires
        chunk_size > 0,
        old(data)@.len() > 0,
        forall|i: int, x: &mut T| #[trigger]
            is_index(i, old(data)@.len()) && *x == old(data)@[i] ==> #[trigger] call_requires(
                *f,
                (x,),
            ),
    ensures
        threads_of(*final(pool)) == threads_of(*old(pool)),
        handed(jobs@) == chunk_seq(old(data)@.len() as int, chunk_size as int),
        final(data)@.len() == old(data)@.len(),
        forall|i: int| #[trigger]
            is_index(i, old(data)@.len()) ==> exists|x: &mut T| #[trigger]
                call_ensures(*f, (x,), ()) && *x == old(data)@[i] && *final(x) == final(data)@[i],
{
    pool.scoped(|scope| pool_execute_chunks(scope, data, chunk_size, f))
}

/// Where the effect of `f` on an item is determined by the item, the items after `f` has been
/// applied once to each of them are determined by the items before.
pub proof fn law_determined_effect<T, F: Fn(&mut T)>(
    f: F,
    effect: spec_fn(T) -> T,
    before: Seq<T>,
    after: Seq<T>,
)
    requires
        forall|x: &mut T| #[trigger] call_ensures(f, (x,), ()) ==> *final(x) == effect(*x),
        after.len() == before.len(),
        forall|i: int| #[trigger]
            is_index(i, before.len()) ==> exists|x: &mut T| #[trigger]
                call_ensures(f, (x,), ()) && *x == before[i] && *final(x) == after[i],
    ensures
        after == before.map_values(effect),
{
    assert forall|i: int| 0 <= i < before.len() implies after[i] == effect(before[i]) by {
        assert(is_index(i, before.len()));
    }
    assert(after =~= before.map_values(effect));
}

} // verus!
