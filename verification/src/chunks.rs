//! Dividing a range of indices into consecutive chunks.
use vstd::prelude::*;

verus! {

/// `n / d`, rounded up.
pub open spec fn ceil_div(n: int, d: int) -> int {
    (n + d - 1) / d
}

pub open spec fn min(a: int, b: int) -> int {
    if a <= b {
        a
    } else {
        b
    }
}

/// The half-open index range of chunk `i`, when `len` items are cut into chunks of
/// `chunk_size` items each (the last one may be shorter).
pub open spec fn chunk_bounds(len: int, chunk_size: int, i: int) -> (int, int) {
    (i * chunk_size, min((i + 1) * chunk_size, len))
}

/// All the chunks of `len` items, in order.
pub open spec fn chunk_seq(len: int, chunk_size: int) -> Seq<(usize, usize)> {
    Seq::new(
        ceil_div(len, chunk_size) as nat,
        |i: int|
            (
                chunk_bounds(len, chunk_size, i).0 as usize,
                chunk_bounds(len, chunk_size, i).1 as usize,
            ),
    )
}

/// The smallest chunk size with which `parts` chunks are enough for `len` items.
pub fn chunk_size(len: usize, parts: usize) -> (size: usize)
    requires
        parts > 0,
    ensures
        size == ceil_div(len as int, parts as int),
{
    proof {
        lemma_ceil_div(len as int, parts as int);
        vstd::arithmetic::div_mod::lemma_fundamental_div_mod(len as int, parts as int);
    }
    let whole: usize = len / parts;
    if len % parts == 0 {
        whole
    } else {
        assert(whole < len) by (nonlinear_arith)
            requires
                len == parts * whole + len % parts,
                parts > 0,
                len % parts > 0,
        ;
        whole + 1
    }
}

/// `ceil_div` by its quotient and remainder, and as the least multiple that covers `n`.
pub proof fn lemma_ceil_div(n: int, d: int)
    requires
        n >= 0,
        d > 0,
    ensures
        ceil_div(n, d) == n / d + (if n % d == 0 {
            0int
        } else {
            1int
        }),
        ceil_div(n, d) * d >= n,
        n > 0 ==> (ceil_div(n, d) - 1) * d < n,
        n > 0 ==> ceil_div(n, d) > 0,
        ceil_div(n, d) >= 0,
        n == 0 ==> ceil_div(n, d) == 0,
{
    let q = n / d;
    let r = n % d;
    vstd::arithmetic::div_mod::lemma_fundamental_div_mod(n, d);
    assert(n == d * q + r);
    assert(q >= 0) by (nonlinear_arith)
        requires
            n >= 0,
            d > 0,
            q == n / d,
    ;
    if r == 0 {
        assert(n + d - 1 == d * q + (d - 1));
        vstd::arithmetic::div_mod::lemma_fundamental_div_mod_converse(n + d - 1, d, q, d - 1);
        assert((q - 1) * d == d * q - d) by (nonlinear_arith);
    } else {
        assert(d * (q + 1) == d * q + d) by (nonlinear_arith);
        assert(n + d - 1 == d * (q + 1) + (r - 1));
        vstd::arithmetic::div_mod::lemma_fundamental_div_mod_converse(n + d - 1, d, q + 1, r - 1);
    }
    assert(d * q == q * d) by (nonlinear_arith);
    assert((q + 1) * d == q * d + d) by (nonlinear_arith);
    if n == 0 {
        assert(q == 0 && r == 0) by (nonlinear_arith)
            requires
                0 == d * q + r,
                d > 0,
                q >= 0,
                r >= 0,
        ;
    }
    if n > 0 && r == 0 {
        assert(q > 0) by (nonlinear_arith)
            requires
                n == d * q,
                n > 0,
                d > 0,
        ;
    }
}

/// Chunks whose size allows for `parts` of them are no more than that.
pub proof fn lemma_chunk_count(n: int, parts: int)
    requires
        n > 0,
        parts > 0,
    ensures
        ceil_div(n, ceil_div(n, parts)) <= parts,
{
    let size = ceil_div(n, parts);
    lemma_ceil_div(n, parts);
    lemma_ceil_div(n, size);
    let count = ceil_div(n, size);
    assert(count <= parts) by (nonlinear_arith)
        requires
            (count - 1) * size < n,
            n <= size * parts,
            size > 0,
    ;
}

/// The bounds of the chunks: each lies within the items, and ends where the next begins.
pub proof fn lemma_chunk_seq_bounds(len: int, size: int)
    requires
        0 <= len <= usize::MAX,
        size > 0,
    ensures
        forall|i: int|
            0 <= i < ceil_div(len, size) ==> {
                &&& (#[trigger] chunk_seq(len, size)[i]).0 == i * size
                &&& chunk_seq(len, size)[i].1 == min((i + 1) * size, len)
                &&& i * size < len
            },
{
    let count = ceil_div(len, size);
    lemma_ceil_div(len, size);
    assert forall|i: int| 0 <= i < count implies {
        &&& (#[trigger] chunk_seq(len, size)[i]).0 == i * size
        &&& chunk_seq(len, size)[i].1 == min((i + 1) * size, len)
        &&& i * size < len
    } by {
        assert(0 <= i * size <= (count - 1) * size && (i + 1) * size > 0) by (nonlinear_arith)
            requires
                0 <= i <= count - 1,
                size > 0,
        ;
    }
}

/// Which chunk begins at item `k * size`, and whether it is the last.
pub proof fn lemma_chunk_at(len: int, size: int, k: int)
    requires
        size > 0,
        0 <= k,
        k * size < len,
    ensures
        k < ceil_div(len, size),
        k + 1 == ceil_div(len, size) <==> len - k * size <= size,
        (k + 1) * size == k * size + size,
{
    let count = ceil_div(len, size);
    assert(0 <= k * size) by (nonlinear_arith)
        requires
            0 <= k,
            size > 0,
    ;
    lemma_ceil_div(len, size);
    assert(k < count) by (nonlinear_arith)
        requires
            k * size < len,
            len <= count * size,
            size > 0,
    ;
    assert((k + 1) * size == k * size + size) by (nonlinear_arith);
    assert((count - 1) * size == count * size - size) by (nonlinear_arith);
    if k + 1 < count {
        assert((k + 1) * size <= (count - 1) * size) by (nonlinear_arith)
            requires
                k + 1 <= count - 1,
                size > 0,
        ;
    }
}

} // verus!
