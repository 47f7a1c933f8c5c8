//! Byte strings cut into chunks of one size, the last one possibly shorter.

use rayon::iter::{IndexedParallelIterator, ParallelIterator};
use rayon::slice::ParallelSlice;
use vstd::arithmetic::div_mod;
use vstd::prelude::*;

verus! {

/// Number of chunks of `size` that `len` elements make.
pub open spec fn chunk_count(len: int, size: int) -> int {
    (len + size - 1) / size
}

/// Where chunk `k` ends.
pub open spec fn chunk_end(len: int, size: int, k: int) -> int {
    if (k + 1) * size <= len {
        (k + 1) * size
    } else {
        len
    }
}

/// Chunk `k` of `s`.
pub open spec fn chunk<T>(s: Seq<T>, size: int, k: int) -> Seq<T> {
    s.subrange(k * size, chunk_end(s.len() as int, size, k))
}

/// The chunks before the last are full, and the last one is not empty.
pub proof fn lemma_chunk_bounds(len: int, size: int, k: int)
    requires
        0 <= len,
        0 < size,
        0 <= k < chunk_count(len, size),
    ensures
        0 <= k * size < chunk_end(len, size, k) <= len,
        chunk_end(len, size, k) - k * size <= size,
        k + 1 < chunk_count(len, size) ==> chunk_end(len, size, k) == (k + 1) * size,
        k + 1 == chunk_count(len, size) ==> chunk_end(len, size, k) == len,
        (k + 1) * size == k * size + size,
        k < len,
{
    let n = chunk_count(len, size);
    div_mod::lemma_fundamental_div_mod(len + size - 1, size);
    let r = (len + size - 1) % size;
    assert(len + size - 1 == size * n + r);
    assert(size * n == n * size) by (nonlinear_arith);
    assert((k + 1) * size == k * size + size) by (nonlinear_arith);
    assert((k + 1) * size <= n * size) by (nonlinear_arith)
        requires
            k + 1 <= n,
            0 < size,
    ;
    assert(0 <= k * size) by (nonlinear_arith)
        requires
            0 <= k,
            0 < size,
    ;
    assert(k <= k * size) by (nonlinear_arith)
        requires
            0 <= k,
            0 < size,
    ;
    if k + 1 < n {
        assert((k + 2) * size <= n * size) by (nonlinear_arith)
            requires
                k + 2 <= n,
                0 < size,
        ;
        assert((k + 2) * size == k * size + 2 * size) by (nonlinear_arith);
    }
}

/// `n` chunks are enough for `len` elements exactly where `n` is the chunk count.
pub proof fn lemma_chunk_count(len: int, size: int, n: int)
    requires
        0 <= len,
        0 < size,
        0 <= n,
        len <= n * size,
        n * size < len + size,
    ensures
        chunk_count(len, size) == n,
{
    div_mod::lemma_fundamental_div_mod_converse(len + size - 1, size, n, len + size - 1 - n * size);
}

/// The number of chunks grows with whole chunks put in front.
pub proof fn lemma_chunk_count_add(a: int, len: int, size: int)
    requires
        0 <= a,
        0 <= len,
        0 < size,
    ensures
        chunk_count(a * size + len, size) == a + chunk_count(len, size),
{
    assert(a * size + len + size - 1 == size * a + (len + size - 1)) by (nonlinear_arith);
    div_mod::lemma_hoist_over_denominator(len + size - 1, a, size as nat);
}

/// The number of chunks is the least that holds everything, and the chunks, one
/// after the other, are everything: each element stands in one of them, at its
/// place, and all chunks but the last are full.
pub proof fn theorem_chunks<T>(s: Seq<T>, size: int, i: int)
    requires
        0 < size,
        0 <= i < s.len(),
    ensures
        ({
            let n = chunk_count(s.len() as int, size);
            &&& (n - 1) * size < s.len() <= n * size
            &&& 0 <= i / size < n
            &&& chunk(s, size, i / size)[i % size] == s[i]
            &&& 0 <= i % size < chunk(s, size, i / size).len() <= size
            &&& i / size < n - 1 ==> chunk(s, size, i / size).len() == size
        }),
{
    let len = s.len() as int;
    let n = chunk_count(len, size);
    let k = i / size;
    div_mod::lemma_fundamental_div_mod(len + size - 1, size);
    div_mod::lemma_fundamental_div_mod(i, size);
    div_mod::lemma_div_pos_is_pos(i, size);
    assert((n - 1) * size < len <= n * size) by (nonlinear_arith)
        requires
            len + size - 1 == size * n + (len + size - 1) % size,
            0 <= (len + size - 1) % size < size,
    ;
    assert(size * k == k * size) by (nonlinear_arith);
    assert(k < n) by (nonlinear_arith)
        requires
            i == size * k + i % size,
            0 <= i % size,
            i < len <= n * size,
            0 < size,
    ;
    lemma_chunk_bounds(len, size, k);
    assert((k + 1) * size == k * size + size) by (nonlinear_arith);
    if k < n - 1 {
        assert((k + 1) * size <= (n - 1) * size) by (nonlinear_arith)
            requires
                k + 1 <= n - 1,
                0 < size,
        ;
    }
}

/// `len / size`, rounded up.
pub fn count_chunks(len: usize, size: usize) -> (n: usize)
    requires
        0 < size,
    ensures
        n == chunk_count(len as int, size as int),
{
    let whole: usize = len / size;
    let rest: usize = len % size;
    proof {
        div_mod::lemma_fundamental_div_mod(len as int, size as int);
        assert(size * whole == whole * size) by (nonlinear_arith);
        assert(whole <= whole * size) by (nonlinear_arith)
            requires
                0 < size,
                0 <= whole,
        ;
        if rest == 0 {
            lemma_chunk_count(len as int, size as int, whole as int);
        } else {
            assert((whole + 1) * size == whole * size + size) by (nonlinear_arith);
            lemma_chunk_count(len as int, size as int, whole + 1);
        }
    }
    if rest == 0 {
        whole
    } else {
        whole + 1
    }
}

/// Applies `f` to the number and the bytes of each chunk of `data`, on rayon's
/// thread pool: `par_chunks`, `enumerate`, `map` and `collect`. Claimed is that
/// there is one result per chunk, in the order of the chunks, and that each is
/// what some call of `f` on that chunk returned.
#[verifier::external_body]
pub(crate) fn par_map_chunks<R: Send, F: Fn(usize, &[u8]) -> R + Sync + Send>(
    data: &[u8],
    size: usize,
    f: F,
) -> (out: Vec<R>)
    requires
        0 < size,
        forall|k: usize, c: &[u8]|
            k < chunk_count(data@.len() as int, size as int) && c@ == chunk(
                data@,
                size as int,
                k as int,
            ) ==> #[trigger] call_requires(f, (k, c)),
    ensures
        out@.len() == chunk_count(data@.len() as int, size as int),
        forall|k: int|
            0 <= k < out@.len() ==> exists|c: &[u8]| #[trigger]
                c@ == chunk(data@, size as int, k) && call_ensures(
                    f,
                    (k as usize, c),
                    #[trigger] out@[k],
                ),
{
    data.par_chunks(size).enumerate().map(|(k, c)| f(k, c)).collect()
}

} // verus!
