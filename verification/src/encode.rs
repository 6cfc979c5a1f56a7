//! Encoding a whole buffer: every chunk on its own, joined in chunk order.

use vstd::prelude::*;
use rayon::iter::{IntoParallelRefIterator, ParallelIterator};
use crate::partition::{
    chunk_count, lemma_chunk_count, lemma_chunk_count_unique, lemma_partition_covers, partition,
    range_end, range_start, ChunkRange,
};
use crate::runs::{
    encode_range, expand, is_buffer, lemma_expand_concat, lemma_rle_expand, lemma_rle_repeat,
    lemma_rle_valid, repeat, rle, total_count, valid_runs, Run,
};

verus! {

/// The chunk size used where none is chosen.
pub const DEFAULT_CHUNK_SIZE: usize = 4096;

/// Why a buffer was not encoded.
#[derive(Clone, Copy, Debug, PartialEq, Eq, Structural)]
pub enum EncodeError {
    /// The chunk size is zero.
    ZeroChunkSize,
}

/// How a buffer is cut up for encoding.
#[derive(Clone, Copy, Debug, PartialEq, Eq, Structural)]
pub struct Config {
    /// Bytes per chunk, at least 1.
    pub chunk_size: usize,
}

impl Config {
    /// A configuration that the encoder accepts.
    pub open spec fn valid(&self) -> bool {
        self.chunk_size >= 1
    }

    /// A configuration with the given chunk size, which must not be zero.
    pub fn new(chunk_size: usize) -> (r: Result<Config, EncodeError>)
        ensures
            chunk_size >= 1 ==> r == Ok::<Config, EncodeError>(Config { chunk_size }),
            chunk_size == 0 ==> r == Err::<Config, EncodeError>(EncodeError::ZeroChunkSize),
    {
        if chunk_size == 0 {
            Err(EncodeError::ZeroChunkSize)
        } else {
            Ok(Config { chunk_size })
        }
    }
}

impl Default for Config {
    fn default() -> (c: Config)
        ensures
            c.chunk_size == DEFAULT_CHUNK_SIZE,
            c.valid(),
    {
        Config { chunk_size: DEFAULT_CHUNK_SIZE }
    }
}

/// The bytes of chunk `i` of `s`, for chunks of `c` bytes.
pub open spec fn chunk_bytes(s: Seq<u8>, i: int, c: int) -> Seq<u8> {
    s.subrange(range_start(i, c), range_end(i, s.len() as int, c))
}

/// The encoding of every chunk of `s`, in chunk order.
pub open spec fn chunk_runs(s: Seq<u8>, c: int) -> Seq<Seq<Run>> {
    Seq::new(chunk_count(s.len() as int, c) as nat, |i: int| rle(chunk_bytes(s, i, c)))
}

/// The parts one after the other, as they stand.
pub open spec fn join(parts: Seq<Seq<Run>>) -> Seq<Run>
    decreases parts.len(),
{
    if parts.len() == 0 {
        Seq::empty()
    } else {
        join(parts.drop_last()) + parts.last()
    }
}

/// The encoding of `s` with chunks of `c` bytes.
pub open spec fn encoding(s: Seq<u8>, c: int) -> Seq<Run> {
    join(chunk_runs(s, c))
}

/// Every chunk's encoding is valid, and its counts add up to the chunk's
/// length.
pub proof fn lemma_chunk_runs_valid(s: Seq<u8>, c: int, i: int)
    requires
        is_buffer(s),
        c >= 1,
        0 <= i < chunk_count(s.len() as int, c),
    ensures
        valid_runs(chunk_runs(s, c)[i]),
        total_count(chunk_runs(s, c)[i]) == chunk_bytes(s, i, c).len(),
        expand(chunk_runs(s, c)[i]) == chunk_bytes(s, i, c),
        chunk_runs(s, c)[i].len() >= 1,
{
    lemma_partition_covers(s.len() as int, c);
    lemma_rle_valid(chunk_bytes(s, i, c));
    lemma_rle_expand(chunk_bytes(s, i, c));
}

/// Expanding the encodings of the first `k` chunks gives the bytes of those
/// chunks.
pub proof fn lemma_round_trip_prefix(s: Seq<u8>, c: int, k: int)
    requires
        is_buffer(s),
        c >= 1,
        0 <= k <= chunk_count(s.len() as int, c),
    ensures
        0 <= range_end(k - 1, s.len() as int, c) <= s.len(),
        expand(join(chunk_runs(s, c).take(k))) == s.take(range_end(k - 1, s.len() as int, c)),
    decreases k,
{
    let len = s.len() as int;
    let parts = chunk_runs(s, c);
    lemma_partition_covers(len, c);
    lemma_chunk_count(len, c);
    if k == 0 {
        assert(0 * c == 0) by (nonlinear_arith);
        assert(parts.take(0) =~= Seq::<Seq<Run>>::empty());
        assert(expand(join(parts.take(0))) =~= s.take(range_end(k - 1, len, c)));
    } else {
        lemma_round_trip_prefix(s, c, k - 1);
        lemma_chunk_runs_valid(s, c, k - 1);
        assert(parts.take(k).drop_last() =~= parts.take(k - 1));
        lemma_expand_concat(join(parts.take(k - 1)), parts[k - 1]);
        if k == 1 {
            assert(0 * c == 0) by (nonlinear_arith);
        } else {
            assert(range_end(k - 2, len, c) == range_start(k - 2 + 1, c));
        }
        assert(range_end(k - 2, len, c) == range_start(k - 1, c));
        assert(s.take(range_start(k - 1, c)) + chunk_bytes(s, k - 1, c) =~= s.take(
            range_end(k - 1, len, c),
        ));
    }
}

/// Expanding the encoding of a buffer gives the buffer back, whatever the
/// chunk size.
pub proof fn lemma_round_trip(s: Seq<u8>, c: int)
    requires
        is_buffer(s),
        c >= 1,
    ensures
        expand(encoding(s, c)) == s,
{
    let len = s.len() as int;
    let n = chunk_count(len, c);
    lemma_chunk_count(len, c);
    lemma_partition_covers(len, c);
    lemma_round_trip_prefix(s, c, n);
    assert(chunk_runs(s, c).take(n) =~= chunk_runs(s, c));
    if len == 0 {
        assert((n - 1 + 1) * c == 0) by (nonlinear_arith)
            requires
                n == 0,
        ;
    }
    assert(s.take(len) =~= s);
}

/// A run that crosses a chunk boundary is cut there: a buffer of two chunks
/// that repeats one byte is encoded as two runs of one chunk each.
pub proof fn lemma_boundary_not_merged(value: u8, c: int)
    requires
        c >= 1,
        2 * c <= usize::MAX,
    ensures
        encoding(repeat(value, (2 * c) as nat), c) == seq![
            (value, c as u64),
            (value, c as u64),
        ],
{
    let s = repeat(value, (2 * c) as nat);
    let parts = chunk_runs(s, c);
    assert((2 - 1) * c == c && 2 * c == c + c && 0 * c == 0 && (0 + 1) * c == c && (1 + 1) * c
        == c + c) by (nonlinear_arith);
    lemma_chunk_count_unique(2 * c, c, 2);
    lemma_rle_repeat(value, c as nat);
    assert(chunk_bytes(s, 0, c) =~= repeat(value, c as nat));
    assert(chunk_bytes(s, 1, c) =~= repeat(value, c as nat));
    assert(parts.drop_last().drop_last() =~= Seq::<Seq<Run>>::empty());
    assert(join(parts.drop_last().drop_last()) =~= Seq::<Run>::empty());
    assert(parts.drop_last().last() == parts[0]);
    assert(join(parts.drop_last()) =~= parts[0]);
    assert(join(parts) =~= parts[0] + parts[1]);
    assert(join(parts) =~= seq![(value, c as u64), (value, c as u64)]);
}

/// An empty buffer has no chunks and an empty encoding.
pub proof fn lemma_empty_input(c: int)
    requires
        c >= 1,
    ensures
        chunk_count(0, c) == 0,
        chunk_runs(Seq::<u8>::empty(), c).len() == 0,
        encoding(Seq::<u8>::empty(), c) == Seq::<Run>::empty(),
{
    lemma_chunk_count(0, c);
}

/// What each of the vectors holds.
pub open spec fn part_views(parts: Seq<Vec<Run>>) -> Seq<Seq<Run>> {
    Seq::new(parts.len(), |i: int| parts[i]@)
}

/// Joins the per-chunk results in the order in which they stand.
pub fn combine(parts: &Vec<Vec<Run>>) -> (out: Vec<Run>)
    ensures
        out@ == join(part_views(parts@)),
{
    let mut out: Vec<Run> = Vec::new();
    let mut i: usize = 0;
    while i < parts.len()
        invariant
            i <= parts@.len(),
            out@ == join(part_views(parts@).take(i as int)),
        decreases parts@.len() - i,
    {
        let part = &parts[i];
        let mut j: usize = 0;
        while j < part.len()
            invariant
                i < parts@.len(),
                *part == parts@[i as int],
                j <= part@.len(),
                out@ == join(part_views(parts@).take(i as int)) + part@.take(j as int),
            decreases part@.len() - j,
        {
            out.push(part[j]);
            proof {
                assert(part@.take(j + 1) =~= part@.take(j as int).push(part@[j as int]));
            }
            j = j + 1;
        }
        proof {
            let all = part_views(parts@);
            assert(part@.take(part@.len() as int) =~= part@);
            assert(all.take(i + 1).drop_last() =~= all.take(i as int));
            assert(all.take(i + 1).last() == part@);
        }
        i = i + 1;
    }
    proof {
        assert(part_views(parts@).take(parts@.len() as int) =~= part_views(parts@));
    }
    out
}

/// Encodes every range of `contents` on rayon's worker pool, one task for
/// each range: `par_iter` on the ranges, `map`, and `collect` into a `Vec`.
/// Not proved, but taken from rayon: collecting a parallel iterator over a
/// slice into a `Vec` puts the item made for position `i` at position `i`,
/// so there is one result for each range, in the order of the ranges,
/// whatever the order in which the workers finish. Each result is what
/// `encode_range` returns for that range.
#[verifier::external_body]
fn encode_ranges(contents: &[u8], ranges: &Vec<ChunkRange>) -> (parts: Vec<Vec<Run>>)
    requires
        forall|i: int|
            0 <= i < ranges@.len() ==> (#[trigger] ranges@[i]).start <= ranges@[i].end
                <= contents@.len(),
    ensures
        parts@.len() == ranges@.len(),
        forall|i: int|
            0 <= i < ranges@.len() ==> (#[trigger] parts@[i])@ == rle(
                contents@.subrange(ranges@[i].start as int, ranges@[i].end as int),
            ),
{
    ranges.par_iter().map(|r| encode_range(contents, r.start, r.end)).collect()
}

/// Run-length encodes `contents` chunk by chunk, the chunks in parallel. The
/// result depends on the bytes and the chunk size alone.
pub fn run_length_encode(contents: &[u8], config: &Config) -> (r: Result<Vec<Run>, EncodeError>)
    ensures
        !config.valid() ==> r == Err::<Vec<Run>, EncodeError>(EncodeError::ZeroChunkSize),
        config.valid() ==> r is Ok && r->Ok_0@ == encoding(
            contents@,
            config.chunk_size as int,
        ),
{
    if config.chunk_size == 0 {
        return Err(EncodeError::ZeroChunkSize);
    }
    let ranges = partition(contents.len(), config.chunk_size);
    let parts = encode_ranges(contents, &ranges);
    proof {
        let c = config.chunk_size as int;
        lemma_chunk_count(contents@.len() as int, c);
        lemma_partition_covers(contents@.len() as int, c);
        assert(part_views(parts@) =~= chunk_runs(contents@, c));
    }
    Ok(combine(&parts))
}

} // verus!
