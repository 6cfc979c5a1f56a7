//! Cutting a buffer of a given length into fixed-size index ranges.

use vstd::prelude::*;
use vstd::arithmetic::div_mod::{lemma_fundamental_div_mod, lemma_fundamental_div_mod_converse, lemma_mod_bound};

verus! {

/// A half-open index interval `[start, end)` into a buffer.
#[derive(Clone, Copy, Debug, PartialEq, Eq, Structural)]
pub struct ChunkRange {
    pub start: usize,
    pub end: usize,
}

/// The number of chunks of a buffer of `len` bytes: `len / c`, rounded up.
pub open spec fn chunk_count(len: int, c: int) -> int {
    (len + c - 1) / c
}

/// Where chunk `i` begins.
pub open spec fn range_start(i: int, c: int) -> int {
    i * c
}

/// Where chunk `i` ends: a whole chunk further on, or at the buffer's end.
pub open spec fn range_end(i: int, len: int, c: int) -> int {
    if (i + 1) * c < len {
        (i + 1) * c
    } else {
        len
    }
}

/// The ranges of a buffer of `len` bytes cut into chunks of `c` bytes.
pub open spec fn ranges(len: int, c: int) -> Seq<ChunkRange> {
    Seq::new(
        chunk_count(len, c) as nat,
        |i: int| ChunkRange { start: range_start(i, c) as usize, end: range_end(i, len, c) as usize },
    )
}

/// The chunk count `n` is the one number with `(n - 1) * c < len <= n * c`.
pub proof fn lemma_chunk_count(len: int, c: int)
    requires
        len >= 0,
        c >= 1,
    ensures
        chunk_count(len, c) >= 0,
        len == 0 <==> chunk_count(len, c) == 0,
        (chunk_count(len, c) - 1) * c < len <= chunk_count(len, c) * c,
{
    let x = len + c - 1;
    let n = x / c;
    lemma_fundamental_div_mod(x, c);
    lemma_mod_bound(x, c);
    assert(c * n == n * c) by (nonlinear_arith);
    assert((n - 1) * c == n * c - c) by (nonlinear_arith);
    assert(n >= 0 && (len == 0 <==> n == 0)) by (nonlinear_arith)
        requires
            n * c - c < len <= n * c,
            len >= 0,
            c >= 1,
    ;
}

/// A number `k` with `(k - 1) * c < len <= k * c` is the chunk count.
pub proof fn lemma_chunk_count_unique(len: int, c: int, k: int)
    requires
        len >= 0,
        c >= 1,
        (k - 1) * c < len <= k * c,
    ensures
        k == chunk_count(len, c),
{
    let x = len + c - 1;
    assert((k - 1) * c == k * c - c) by (nonlinear_arith);
    lemma_fundamental_div_mod_converse(x, c, k, x - k * c);
}

/// The ranges follow one another without gap or overlap from 0 to `len`, none
/// is empty, all but the last hold `c` bytes, and the last holds what is
/// left: `len % c` bytes, or `c` where that is zero.
pub proof fn lemma_partition_covers(len: int, c: int)
    requires
        len >= 0,
        c >= 1,
    ensures
        len > 0 ==> range_start(0, c) == 0,
        len > 0 ==> range_end(chunk_count(len, c) - 1, len, c) == len,
        forall|i: int|
            0 <= i < chunk_count(len, c) ==> 0 <= range_start(i, c) < #[trigger] range_end(
                i,
                len,
                c,
            ) <= len,
        forall|i: int|
            0 <= i < chunk_count(len, c) - 1 ==> #[trigger] range_end(i, len, c) == range_start(
                i + 1,
                c,
            ) && range_end(i, len, c) - range_start(i, c) == c,
        len > 0 ==> range_end(chunk_count(len, c) - 1, len, c) - range_start(
            chunk_count(len, c) - 1,
            c,
        ) == if len % c != 0 {
            len % c
        } else {
            c
        },
{
    let n = chunk_count(len, c);
    lemma_chunk_count(len, c);
    assert(n * c == (n - 1) * c + c) by (nonlinear_arith);
    assert forall|i: int| 0 <= i < n implies 0 <= range_start(i, c) < #[trigger] range_end(
        i,
        len,
        c,
    ) <= len by {
        assert(0 <= i * c <= (n - 1) * c && (i + 1) * c == i * c + c) by (nonlinear_arith)
            requires
                0 <= i <= n - 1,
                c >= 1,
        ;
    }
    assert forall|i: int| 0 <= i < n - 1 implies #[trigger] range_end(i, len, c) == range_start(
        i + 1,
        c,
    ) && range_end(i, len, c) - range_start(i, c) == c by {
        assert((i + 1) * c <= (n - 1) * c && (i + 1) * c == i * c + c) by (nonlinear_arith)
            requires
                0 <= i + 1 <= n - 1,
                c >= 1,
        ;
    }
    if len > 0 {
        let last = len - (n - 1) * c;
        if last == c {
            lemma_fundamental_div_mod_converse(len, c, n, 0);
        } else {
            lemma_fundamental_div_mod_converse(len, c, n - 1, last);
        }
    }
}

/// Cuts a buffer of `len` bytes into ranges of `chunk_size` bytes, the last
/// one shorter where `len` is no multiple of `chunk_size`.
pub fn partition(len: usize, chunk_size: usize) -> (out: Vec<ChunkRange>)
    requires
        chunk_size >= 1,
    ensures
        out@ == ranges(len as int, chunk_size as int),
        forall|i: int| 0 <= i < out@.len() ==> (#[trigger] out@[i]).start < out@[i].end <= len,
{
    let mut out: Vec<ChunkRange> = Vec::new();
    let mut start: usize = 0;
    assert(0 * chunk_size == 0) by (nonlinear_arith);
    while start < len
        invariant
            chunk_size >= 1,
            start <= len,
            start == if out@.len() * chunk_size < len {
                out@.len() * chunk_size
            } else {
                len as int
            },
            out@.len() > 0 ==> (out@.len() - 1) * chunk_size < len,
            forall|j: int|
                0 <= j < out@.len() ==> (#[trigger] out@[j]).start == range_start(
                    j,
                    chunk_size as int,
                ) && out@[j].end == range_end(j, len as int, chunk_size as int) && out@[j].start
                    < out@[j].end <= len,
        decreases len - start,
    {
        let ghost n = out@.len() as int;
        proof {
            assert((n + 1) * chunk_size == n * chunk_size + chunk_size) by (nonlinear_arith);
        }
        let end: usize = if len - start <= chunk_size {
            len
        } else {
            start + chunk_size
        };
        out.push(ChunkRange { start, end });
        start = end;
    }
    proof {
        let n = out@.len() as int;
        let c = chunk_size as int;
        assert((n - 1) * c < len <= n * c) by (nonlinear_arith)
            requires
                n >= 0,
                c >= 1,
                len >= 0,
                n == 0 ==> len == 0,
                n > 0 ==> (n - 1) * c < len,
                n * c >= len,
        ;
        lemma_chunk_count_unique(len as int, c, n);
        assert(out@ =~= ranges(len as int, c));
    }
    out
}

} // verus!
