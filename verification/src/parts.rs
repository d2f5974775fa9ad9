//! Cutting an auxiliary vector into the parts that the channels stand for, and joining them
//! again.
use vstd::prelude::*;

use crate::chunks::{ceil_div, lemma_ceil_div, min};
use crate::mypool3::MAX_THREADS;
use crate::ring::ring_len;

verus! {

/// The part of a sequence that channel `c` stands for, when each channel has `size` items.
pub open spec fn part_of<T>(s: Seq<T>, size: int, c: int) -> Seq<T> {
    s.subrange(min(c * size, s.len() as int), min((c + 1) * size, s.len() as int))
}

/// Where the item at `x` lies: `c` is its channel.
pub proof fn lemma_part_index(x: int, size: int, c: int)
    requires
        size > 0,
        c * size <= x < (c + 1) * size,
    ensures
        x / size == c,
        x % size == x - c * size,
{
    assert((c + 1) * size == c * size + size) by (nonlinear_arith);
    vstd::arithmetic::div_mod::lemma_fundamental_div_mod_converse(x, size, c, x - c * size);
}

/// Where the item at `x` of `len` items lies, when the items are cut into as many parts as
/// there are channels.
pub proof fn lemma_item_part<T>(s: Seq<T>, x: int)
    requires
        0 <= x < s.len(),
    ensures
        ({
            let size = ceil_div(s.len() as int, ring_len());
            let c = x / size;
            &&& size > 0
            &&& 0 <= c < ring_len()
            &&& 0 <= x % size < part_of(s, size, c).len()
            &&& part_of(s, size, c)[x % size] == s[x]
            &&& c * size + x % size == x
        }),
{
    let len = s.len() as int;
    let size = ceil_div(len, ring_len());
    lemma_ceil_div(len, ring_len());
    let c = x / size;
    vstd::arithmetic::div_mod::lemma_fundamental_div_mod(x, size);
    assert(c * size + x % size == x && c * size <= x < (c + 1) * size && 0 <= c < ring_len())
        by (nonlinear_arith)
        requires
            x == size * c + x % size,
            0 <= x % size < size,
            c == x / size,
            0 <= x < len,
            ring_len() * size >= len,
            size > 0,
    ;
}

/// Cuts a vector into parts of `size` items.
pub fn split<T>(aux: &mut Vec<T>, size: usize) -> (parts: Vec<Vec<T>>)
    requires
        size == ceil_div(old(aux)@.len() as int, ring_len()),
    ensures
        final(aux)@ == Seq::<T>::empty(),
        parts@.len() == MAX_THREADS,
        forall|c: int|
            0 <= c < MAX_THREADS ==> (#[trigger] parts@[c])@ == part_of(
                old(aux)@,
                size as int,
                c,
            ),
{
    let ghost all = aux@;
    let ghost len = all.len() as int;
    proof {
        lemma_ceil_div(len, ring_len());
        assert(all.subrange(0, len) =~= all);
    }
    let total: usize = aux.len();
    let mut parts: Vec<Vec<T>> = Vec::new();
    let mut c: usize = MAX_THREADS;
    while c > 0
        invariant
            c <= MAX_THREADS,
            total == len,
            len == all.len(),
            size == ceil_div(len, ring_len()),
            ring_len() * size >= len,
            aux@ == all.subrange(0, min(c * size, len)),
            parts@.len() == MAX_THREADS - c,
            forall|d: int|
                c <= d < MAX_THREADS ==> (#[trigger] parts@[d - c])@ == part_of(
                    all,
                    size as int,
                    d,
                ),
        decreases c,
    {
        let ghost before = parts@;
        let ghost kept = aux@;
        assert((c - 1) * size <= 7 * size) by (nonlinear_arith)
            requires
                0 < c <= 8,
        ;
        assert(0 <= (c - 1) * size <= c * size) by (nonlinear_arith)
            requires
                0 < c,
        ;
        assert(7 * size <= usize::MAX);
        let start: usize = (c - 1) * size;
        let at: usize = if start < aux.len() {
            start
        } else {
            aux.len()
        };
        assert(at == min((c - 1) * size, len));
        let part: Vec<T> = aux.split_off(at);
        assert(part@ =~= part_of(all, size as int, c - 1));
        assert(aux@ =~= all.subrange(0, min((c - 1) * size, len)));
        parts.insert(0, part);
        assert forall|d: int| c - 1 <= d < MAX_THREADS implies (#[trigger] parts@[d - (c
            - 1)])@ == part_of(all, size as int, d) by {
            if d >= c {
                assert(parts@[d - (c - 1)] == before[d - c]);
            }
        }
        c = c - 1;
    }
    assert(aux@ =~= Seq::<T>::empty());
    assert forall|d: int| 0 <= d < MAX_THREADS implies (#[trigger] parts@[d])@ == part_of(
        all,
        size as int,
        d,
    ) by {
        assert(parts@[d - c]@ == part_of(all, size as int, d));
    }
    parts
}

/// The first `m` of the given parts, joined.
pub open spec fn parts_joined<T>(parts: Seq<Vec<T>>, m: int) -> Seq<T>
    decreases m,
{
    if m <= 0 {
        Seq::empty()
    } else {
        parts_joined(parts, m - 1) + parts[m - 1]@
    }
}

/// Adds all the parts to the end of a vector.
pub fn join<T>(aux: &mut Vec<T>, parts: Vec<Vec<T>>)
    ensures
        final(aux)@ == old(aux)@ + parts_joined(parts@, parts@.len() as int),
{
    let ghost parts0 = parts@;
    let mut parts: Vec<Vec<T>> = parts;
    let mut c: usize = 0;
    assert(aux@ =~= old(aux)@ + parts_joined(parts0, 0));
    while c < parts.len()
        invariant
            c <= parts@.len(),
            parts@.len() == parts0.len(),
            aux@ == old(aux)@ + parts_joined(parts0, c as int),
            forall|d: int| c <= d < parts@.len() ==> #[trigger] parts@[d] == parts0[d],
        decreases parts@.len() - c,
    {
        let part = &mut parts[c];
        aux.append(part);
        c = c + 1;
        assert(aux@ =~= old(aux)@ + parts_joined(parts0, c as int));
    }
}

proof fn lemma_joined_prefix<T>(parts: Seq<Vec<T>>, all: Seq<T>, size: int, m: int)
    requires
        0 <= m <= parts.len(),
        size >= 0,
        forall|c: int| 0 <= c < parts.len() ==> (#[trigger] parts[c])@ == part_of(all, size, c),
    ensures
        parts_joined(parts, m) == all.subrange(0, min(m * size, all.len() as int)),
    decreases m,
{
    if m > 0 {
        lemma_joined_prefix(parts, all, size, m - 1);
        assert(0 <= (m - 1) * size <= m * size) by (nonlinear_arith)
            requires
                0 < m,
                size >= 0,
        ;
        assert(parts[m - 1]@ == part_of(all, size, m - 1));
    } else {
        assert(m * size == 0) by (nonlinear_arith)
            requires
                m == 0,
        ;
    }
    assert(parts_joined(parts, m) =~= all.subrange(0, min(m * size, all.len() as int)));
}

/// The parts of a sequence, joined again, are the sequence.
pub proof fn law_join_undoes_split<T>(parts: Seq<Vec<T>>, all: Seq<T>)
    requires
        parts.len() == ring_len(),
        forall|c: int|
            0 <= c < parts.len() ==> (#[trigger] parts[c])@ == part_of(
                all,
                ceil_div(all.len() as int, ring_len()),
                c,
            ),
    ensures
        parts_joined(parts, parts.len() as int) == all,
{
    lemma_ceil_div(all.len() as int, ring_len());
    lemma_joined_prefix(parts, all, ceil_div(all.len() as int, ring_len()), ring_len());
    assert(all.subrange(0, all.len() as int) =~= all);
}

} // verus!
