//! Iterating over large vectors on a fixed set of threads, with deferred updates of
//! auxiliary vectors that are applied in one fixed order.
use scoped_threadpool::Pool as ThreadPool;
use vstd::prelude::*;

use crate::chunk_list::{chunk_list, list_slice, ChunkList};
use crate::chunks::{
    ceil_div, chunk_seq, chunk_size, lemma_ceil_div, lemma_chunk_at, lemma_chunk_count,
    lemma_chunk_seq_bounds,
};
use crate::each::{is_index, pool_scoped, rayon_scope, threads_of};
use crate::handed::{handed, HandedJob};

pub mod aux_op;
pub mod checks;
pub mod chunk_list;
pub mod chunk_processor;
pub mod calls;
pub mod chunks;
pub mod cores;
pub mod double_aux;
pub mod each;
pub mod example;
pub mod fuzz;
pub mod handed;
pub mod job_slot;
pub mod laws;
pub mod machine;
pub mod mypool;
pub mod mypool2;
pub mod mypool3;
pub mod order;
pub mod parts;
pub mod passes;
pub mod ptr_holder_1;
pub mod ptr_holder_2;
pub mod ring;
pub mod schedule;
pub mod scheduler;
pub mod seqs;
pub mod trials;
pub mod xor_rng;

verus! {

/// The number of items in the data sets of [`make_data`] and its relatives.
pub const PROB_SIZE: usize = 100000;

/// The number of threads that the pools are meant for.
pub const THREADS: usize = 8;

/// Applies `f` once to every item. The items are divided evenly into chunks, at most
/// `thread_count` of them, and rayon runs a job per chunk. Returns the jobs that rayon was
/// handed.
pub fn run_rayon_scoped<T: Sync + Send, F: Fn(&mut T) + Send + Sync + 'static>(
    data: &mut [T],
    f: F,
    thread_count: usize,
) -> (jobs: Vec<HandedJob>)
    requires
        old(data)@.len() > 0,
        thread_count > 0,
        forall|i: int, x: &mut T| #[trigger]
            is_index(i, old(data)@.len()) && *x == old(data)@[i] ==> #[trigger] call_requires(
                f,
                (x,),
            ),
    ensures
        handed(jobs@) == chunk_seq(
            old(data)@.len() as int,
            ceil_div(old(data)@.len() as int, thread_count as int),
        ),
        jobs@.len() <= thread_count,
        final(data)@.len() == old(data)@.len(),
        forall|i: int| #[trigger]
            is_index(i, old(data)@.len()) ==> exists|x: &mut T| #[trigger]
                call_ensures(f, (x,), ()) && *x == old(data)@[i] && *final(x) == final(data)@[i],
{
    let size: usize = chunk_size(data.len(), thread_count);
    proof {
        lemma_ceil_div(data@.len() as int, thread_count as int);
        lemma_chunk_count(data@.len() as int, thread_count as int);
    }
    let jobs: Vec<HandedJob> = rayon_scope(data, size, &f);
    assert(jobs@.len() == handed(jobs@).len());
    jobs
}

/// Applies `f` once to every item. The items are divided evenly into chunks, at most as many
/// as the pool has threads, and the pool runs a job per chunk. Returns the jobs that the pool
/// was handed.
pub fn run_scoped_threadpool<T: Sync + Send, F: Fn(&mut T) + Send + Sync + 'static>(
    data: &mut [T],
    pool: &mut ThreadPool,
    f: F,
) -> (jobs: Vec<HandedJob>)
    requires
        old(data)@.len() > 0,
        forall|i: int, x: &mut T| #[trigger]
            is_index(i, old(data)@.len()) && *x == old(data)@[i] ==> #[trigger] call_requires(
                f,
                (x,),
            ),
    ensures
        threads_of(*final(pool)) == threads_of(*old(pool)),
        handed(jobs@) == chunk_seq(
            old(data)@.len() as int,
            ceil_div(old(data)@.len() as int, threads_of(*old(pool)) as int),
        ),
        jobs@.len() <= threads_of(*old(pool)),
        final(data)@.len() == old(data)@.len(),
        forall|i: int| #[trigger]
            is_index(i, old(data)@.len()) ==> exists|x: &mut T| #[trigger]
                call_ensures(f, (x,), ()) && *x == old(data)@[i] && *final(x) == final(data)@[i],
{
    let thread_count: usize = pool.thread_count() as usize;
    let size: usize = chunk_size(data.len(), thread_count);
    proof {
        lemma_ceil_div(data@.len() as int, thread_count as int);
        lemma_chunk_count(data@.len() as int, thread_count as int);
    }
    let jobs: Vec<HandedJob> = pool_scoped(pool, data, size, &f);
    assert(jobs@.len() == handed(jobs@).len());
    jobs
}

/// Applies `f` once to every item. The items are divided evenly into chunks, and each is the
/// job of the thread that has its number. The other threads run nothing.
pub fn run_mypool<T: Send + Sync, F: Fn(&mut T) + Send + Sync + 'static>(
    data: &mut [T],
    pool: &mut mypool::Pool,
    f: F,
)
    requires
        old(data)@.len() > 0,
        old(pool).threads() > 0,
        forall|i: int, x: &mut T| #[trigger]
            is_index(i, old(data)@.len()) && *x == old(data)@[i] ==> #[trigger] call_requires(
                f,
                (x,),
            ),
    ensures
        final(pool).threads() == old(pool).threads(),
        ({
            let chunks = chunk_seq(
                old(data)@.len() as int,
                ceil_div(old(data)@.len() as int, old(pool).threads() as int),
            );
            &&& chunks.len() <= old(pool).threads()
            &&& final(pool).ran() == chunks + old(pool).ran().skip(chunks.len() as int)
        }),
        final(data)@.len() == old(data)@.len(),
        forall|i: int| #[trigger]
            is_index(i, old(data)@.len()) ==> exists|x: &mut T| #[trigger]
                call_ensures(f, (x,), ()) && *x == old(data)@[i] && *final(x) == final(data)@[i],
{
    let thread_count: usize = pool.thread_count();
    let len: usize = data.len();
    let size: usize = chunk_size(len, thread_count);
    let ghost n = len as int;
    let ghost d = size as int;
    let ghost all = chunk_seq(n, d);
    let ghost ran0 = pool.ran();
    let ghost data0 = data@;
    proof {
        lemma_ceil_div(n, thread_count as int);
        lemma_chunk_count(n, thread_count as int);
        lemma_chunk_seq_bounds(n, d);
        lemma_ceil_div(n, d);
        assert(all.take(0) + ran0.skip(0) =~= ran0);
    }
    let mut thread_index: usize = 0;
    let mut start: usize = 0;
    while start < len
        invariant
            n == len,
            n == data0.len(),
            d == size,
            d > 0,
            all == chunk_seq(n, d),
            all.len() == ceil_div(n, d),
            all.len() <= ran0.len() == thread_count,
            data0 == old(data)@,
            data@.len() == data0.len(),
            start <= len,
            thread_index <= all.len(),
            start < len ==> start == thread_index * d,
            start == len ==> thread_index == all.len(),
            pool.ran() == all.take(thread_index as int) + ran0.skip(thread_index as int),
            forall|i: int, x: &mut T| #[trigger]
                is_index(i, data0.len()) && *x == data0[i] ==> #[trigger] call_requires(f, (x,)),
            forall|i: int| start <= i < len ==> data@[i] == data0[i],
            forall|i: int| #[trigger]
                is_index(i, data0.len()) && i < start ==> exists|x: &mut T| #[trigger]
                    call_ensures(f, (x,), ()) && *x == data0[i] && *final(x) == data@[i],
        decreases len - start,
    {
        let end: usize = if len - start > size {
            start + size
        } else {
            len
        };
        let ghost k = thread_index as int;
        proof {
            lemma_chunk_at(n, d, k);
            lemma_chunk_seq_bounds(n, d);
            assert(all[k] == (start, end));
            assert((all.take(k) + ran0.skip(k)).update(k, (start, end)) =~= all.take(k + 1)
                + ran0.skip(k + 1));
        }
        pool.execute(thread_index, data, start, end, &f);
        start = end;
        thread_index = thread_index + 1;
    }
    proof {
        assert(all.take(all.len() as int) =~= all);
    }
}

/// Applies `f` once to every item. The items are divided evenly into chunks, and each is the
/// job of the thread that has its number. There may be no more than [`THREADS`] chunks.
pub fn run_mypool2<T: Send + Sync, F: Fn(&mut T) + Send + Sync + 'static>(
    data: &mut [T],
    pool: &mut mypool2::Pool,
    f: F,
)
    requires
        old(data)@.len() > 0,
        old(pool).threads().len() > 0,
        old(pool).idle(),
        ceil_div(
            old(data)@.len() as int,
            ceil_div(old(data)@.len() as int, old(pool).threads().len() as int),
        ) <= THREADS,
        forall|i: int, x: &mut T| #[trigger]
            is_index(i, old(data)@.len()) && *x == old(data)@[i] ==> #[trigger] call_requires(
                f,
                (x,),
            ),
    ensures
        final(pool).idle(),
        final(pool).same_cores(*old(pool)),
        final(pool).calls() == old(pool).calls(),
        forall|k: int|
            0 <= k < ceil_div(
                old(data)@.len() as int,
                ceil_div(old(data)@.len() as int, old(pool).threads().len() as int),
            ) ==> {
                &&& (#[trigger] final(pool).threads()[k]).cur_job.cur_job1 == k
                &&& final(pool).threads()[k].ran == chunk_seq(
                    old(data)@.len() as int,
                    ceil_div(old(data)@.len() as int, old(pool).threads().len() as int),
                )[k]
            },
        final(data)@.len() == old(data)@.len(),
        forall|i: int| #[trigger]
            is_index(i, old(data)@.len()) ==> exists|x: &mut T| #[trigger]
                call_ensures(f, (x,), ()) && *x == old(data)@[i] && *final(x) == final(data)@[i],
{
    let thread_count: usize = pool.thread_count();
    let size: usize = chunk_size(data.len(), thread_count);
    let ghost len = data@.len() as int;
    proof {
        lemma_ceil_div(len, thread_count as int);
        lemma_chunk_count(len, thread_count as int);
    }
    let args: ChunkList = chunk_list(data.len(), size);
    proof {
        mypool2::law_chunks_cover(len, size as int);
    }
    pool.execute_ranges(data, list_slice(&args), &f);
}

/// The numbers from zero up to, not including, [`PROB_SIZE`].
pub fn make_data() -> (data: Vec<u64>)
    ensures
        data@ == Seq::new(PROB_SIZE as nat, |i: int| i as u64),
{
    let mut data: Vec<u64> = Vec::new();
    let data_size: u64 = PROB_SIZE as u64;
    let mut i: u64 = 0;
    while i < data_size
        invariant
            i <= data_size,
            data_size == PROB_SIZE,
            data@ =~= Seq::new(i as nat, |j: int| j as u64),
        decreases data_size - i,
    {
        data.push(i);
        i = i + 1;
    }
    data
}

} // verus!
