//! The list of the chunks of an input. It has room for one chunk per thread.
use arrayvec::ArrayVec;
use vstd::prelude::*;

use crate::THREADS;
use crate::chunks::{ceil_div, chunk_seq, lemma_ceil_div, min};

verus! {

/// `arrayvec::ArrayVec`, whose contents are given by [`ranges`].
#[verifier::external_type_specification]
#[verifier::external_body]
#[verifier::reject_recursive_types(T)]
pub struct ExArrayVec<T, const CAP: usize>(arrayvec::ArrayVec<T, CAP>);

/// A list of half-open index ranges.
pub type ChunkList = ArrayVec<(usize, usize), THREADS>;

/// The ranges in a list, in order.
pub uninterp spec fn ranges(list: ArrayVec<(usize, usize), THREADS>) -> Seq<(usize, usize)>;

/// `ArrayVec::new`: a new list holds nothing.
#[verifier::external_body]
fn list_new() -> (list: ChunkList)
    ensures
        ranges(list) == Seq::<(usize, usize)>::empty(),
{
    ArrayVec::new()
}

/// `ArrayVec::push`: the element is added at the end. A push onto a full list panics, hence
/// the bound.
#[verifier::external_body]
fn list_push(list: &mut ChunkList, range: (usize, usize))
    requires
        ranges(*old(list)).len() < THREADS,
    ensures
        ranges(*final(list)) == ranges(*old(list)).push(range),
{
    list.push(range)
}

/// `ArrayVec::as_slice`: all the elements, in order.
#[verifier::external_body]
pub(crate) fn list_slice(list: &ChunkList) -> (slice: &[(usize, usize)])
    ensures
        slice@ == ranges(*list),
{
    list.as_slice()
}

/// The chunks of `len` items, in order.
pub fn chunk_list(len: usize, chunk_size: usize) -> (list: ChunkList)
    requires
        chunk_size > 0,
        ceil_div(len as int, chunk_size as int) <= THREADS,
    ensures
        ranges(list) == chunk_seq(len as int, chunk_size as int),
{
    let ghost n = len as int;
    let ghost d = chunk_size as int;
    let ghost all = chunk_seq(n, d);
    let ghost mut i: int = 0;
    let mut list: ChunkList = list_new();
    let mut start: usize = 0;
    proof {
        lemma_ceil_div(n, d);
        assert(0 * d == 0) by (nonlinear_arith);
        assert(all.take(0) =~= Seq::<(usize, usize)>::empty());
    }
    while start < len
        invariant
            n == len,
            d == chunk_size,
            d > 0,
            0 <= i <= ceil_div(n, d) <= THREADS,
            ceil_div(n, d) * d >= n,
            n > 0 ==> (ceil_div(n, d) - 1) * d < n,
            n == 0 ==> ceil_div(n, d) == 0,
            start == min(i * d, n),
            all == chunk_seq(n, d),
            ranges(list) == all.take(i),
        decreases len - start,
    {
        let end: usize = if len - start > chunk_size {
            start + chunk_size
        } else {
            len
        };
        proof {
            assert(i < ceil_div(n, d)) by (nonlinear_arith)
                requires
                    i * d < n,
                    ceil_div(n, d) * d >= n,
                    d > 0,
            ;
            assert((i + 1) * d == i * d + d) by (nonlinear_arith);
            assert(all[i] == (start, end));
            assert(all.take(i + 1) =~= all.take(i).push(all[i]));
        }
        list_push(&mut list, (start, end));
        start = end;
        proof {
            i = i + 1;
        }
    }
    proof {
        if i < ceil_div(n, d) {
            assert(i * d <= (ceil_div(n, d) - 1) * d) by (nonlinear_arith)
                requires
                    i <= ceil_div(n, d) - 1,
                    d > 0,
            ;
        }
        assert(all.take(i) =~= all);
    }
    list
}

} // verus!
