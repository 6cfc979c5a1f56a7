//! Runs of equal bytes, and the single-pass scan that encodes one chunk.

use vstd::prelude::*;

verus! {

/// A byte value and the number of times it repeats at this place.
pub type Run = (u8, u64);

/// A byte sequence that fits in memory.
pub open spec fn is_buffer(s: Seq<u8>) -> bool {
    s.len() <= usize::MAX
}

/// `count` copies of `value`.
pub open spec fn repeat(value: u8, count: nat) -> Seq<u8> {
    Seq::new(count, |i: int| value)
}

/// The bytes that a sequence of runs stands for.
pub open spec fn expand(runs: Seq<Run>) -> Seq<u8>
    decreases runs.len(),
{
    if runs.len() == 0 {
        Seq::empty()
    } else {
        expand(runs.drop_last()) + repeat(runs.last().0, runs.last().1 as nat)
    }
}

/// The sum of the counts of a sequence of runs.
pub open spec fn total_count(runs: Seq<Run>) -> nat
    decreases runs.len(),
{
    if runs.len() == 0 {
        0
    } else {
        total_count(runs.drop_last()) + runs.last().1 as nat
    }
}

/// No run is empty, and no run has the value of the run before it.
pub open spec fn valid_runs(runs: Seq<Run>) -> bool {
    &&& forall|i: int| 0 <= i < runs.len() ==> (#[trigger] runs[i]).1 >= 1
    &&& forall|i: int, j: int|
        0 <= i && j == i + 1 && j < runs.len() ==> (#[trigger] runs[i]).0 != (#[trigger] runs[j]).0
}

/// The run-length encoding of `s`: its maximal runs, in order.
pub open spec fn rle(s: Seq<u8>) -> Seq<Run>
    decreases s.len(),
{
    if s.len() == 0 {
        Seq::empty()
    } else {
        let before = rle(s.drop_last());
        if before.len() > 0 && before.last().0 == s.last() {
            before.drop_last().push((s.last(), (before.last().1 + 1) as u64))
        } else {
            before.push((s.last(), 1u64))
        }
    }
}

/// One more byte after `s` either lengthens the last run or opens a new one.
pub proof fn lemma_rle_push(s: Seq<u8>, b: u8)
    ensures
        rle(s.push(b)) == if rle(s).len() > 0 && rle(s).last().0 == b {
            rle(s).drop_last().push((b, (rle(s).last().1 + 1) as u64))
        } else {
            rle(s).push((b, 1u64))
        },
{
    assert(s.push(b).drop_last() =~= s);
}

/// The encoding of a buffer has no more runs than the buffer has bytes, its
/// counts add up to the buffer's length, and it is valid.
pub proof fn lemma_rle_valid(s: Seq<u8>)
    requires
        is_buffer(s),
    ensures
        valid_runs(rle(s)),
        total_count(rle(s)) == s.len(),
        rle(s).len() <= s.len(),
        s.len() > 0 ==> rle(s).len() > 0 && rle(s).last().0 == s.last(),
    decreases s.len(),
{
    if s.len() > 0 {
        let t = s.drop_last();
        lemma_rle_valid(t);
        let before = rle(t);
        let out = rle(s);
        if before.len() > 0 && before.last().0 == s.last() {
            let c = before.last().1;
            assert(c <= total_count(before));
            assert(out.drop_last() =~= before.drop_last());
            assert forall|i: int, j: int| 0 <= i && j == i + 1 && j < out.len() implies (
            #[trigger] out[i]).0 != (#[trigger] out[j]).0 by {
                assert(out[i] == before[i]);
                assert(out[j].0 == before[j].0);
            }
            assert forall|i: int| 0 <= i < out.len() implies (#[trigger] out[i]).1 >= 1 by {
                if i < out.len() - 1 {
                    assert(out[i] == before[i]);
                }
            }
        } else {
            assert(out.drop_last() =~= before);
            assert forall|i: int, j: int| 0 <= i && j == i + 1 && j < out.len() implies (
            #[trigger] out[i]).0 != (#[trigger] out[j]).0 by {
                if j < out.len() - 1 {
                    assert(out[i] == before[i]);
                    assert(out[j] == before[j]);
                } else {
                    assert(out[i] == before.last());
                }
            }
            assert forall|i: int| 0 <= i < out.len() implies (#[trigger] out[i]).1 >= 1 by {
                if i < out.len() - 1 {
                    assert(out[i] == before[i]);
                }
            }
        }
    }
}

/// Expanding the encoding of a buffer gives the buffer back.
pub proof fn lemma_rle_expand(s: Seq<u8>)
    requires
        is_buffer(s),
    ensures
        expand(rle(s)) == s,
    decreases s.len(),
{
    if s.len() > 0 {
        let t = s.drop_last();
        lemma_rle_expand(t);
        lemma_rle_valid(t);
        let before = rle(t);
        let out = rle(s);
        if before.len() > 0 && before.last().0 == s.last() {
            let c = before.last().1;
            assert(c <= total_count(before));
            assert(out.drop_last() =~= before.drop_last());
            assert(repeat(s.last(), (c + 1) as nat) =~= repeat(s.last(), c as nat).push(s.last()));
            assert(expand(out) =~= expand(before).push(s.last()));
        } else {
            assert(out.drop_last() =~= before);
            assert(repeat(s.last(), 1) =~= seq![s.last()]);
            assert(expand(out) =~= expand(before).push(s.last()));
        }
        assert(t.push(s.last()) =~= s);
    }
}

/// Expanding two sequences of runs one after the other expands their
/// concatenation.
pub proof fn lemma_expand_concat(a: Seq<Run>, b: Seq<Run>)
    ensures
        expand(a + b) == expand(a) + expand(b),
    decreases b.len(),
{
    if b.len() == 0 {
        assert(a + b =~= a);
        assert(expand(a) + expand(b) =~= expand(a));
    } else {
        lemma_expand_concat(a, b.drop_last());
        assert((a + b).drop_last() =~= a + b.drop_last());
        assert(expand(a + b) =~= expand(a) + expand(b));
    }
}

/// A buffer that repeats one byte is encoded as a single run.
pub proof fn lemma_rle_repeat(value: u8, count: nat)
    requires
        1 <= count <= usize::MAX,
    ensures
        rle(repeat(value, count)) == seq![(value, count as u64)],
    decreases count,
{
    let s = repeat(value, count);
    assert(s.drop_last() =~= repeat(value, (count - 1) as nat));
    if count == 1 {
        assert(rle(s.drop_last()) =~= Seq::<Run>::empty());
        assert(rle(s) =~= seq![(value, 1u64)]);
    } else {
        lemma_rle_repeat(value, (count - 1) as nat);
        assert(rle(s) =~= seq![(value, count as u64)]);
    }
}

/// Valid runs stay valid without the last of them.
pub proof fn lemma_valid_drop_last(runs: Seq<Run>)
    requires
        valid_runs(runs),
        runs.len() > 0,
    ensures
        valid_runs(runs.drop_last()),
{
    let front = runs.drop_last();
    assert forall|i: int| 0 <= i < front.len() implies (#[trigger] front[i]).1 >= 1 by {
        assert(front[i] == runs[i]);
    }
    assert forall|i: int, j: int| 0 <= i && j == i + 1 && j < front.len() implies (
    #[trigger] front[i]).0 != (#[trigger] front[j]).0 by {
        assert(front[i] == runs[i]);
        assert(front[j] == runs[j]);
    }
}

/// The expansion of valid runs ends with the bytes of the last run.
pub proof fn lemma_expand_last(runs: Seq<Run>)
    requires
        valid_runs(runs),
        runs.len() > 0,
    ensures
        expand(runs).len() == expand(runs.drop_last()).len() + runs.last().1,
        expand(runs).take(expand(runs.drop_last()).len() as int) == expand(runs.drop_last()),
        forall|k: int|
            expand(runs.drop_last()).len() <= k < expand(runs).len() ==> #[trigger] expand(
                runs,
            )[k] == runs.last().0,
        expand(runs).last() == runs.last().0,
{
    let front = expand(runs.drop_last());
    assert(runs[runs.len() - 1].1 >= 1);
    assert(expand(runs).take(front.len() as int) =~= front);
}

/// A byte sequence has one valid encoding only: two valid sequences of runs
/// that expand to the same bytes are the same.
pub proof fn lemma_valid_runs_unique(a: Seq<Run>, b: Seq<Run>)
    requires
        valid_runs(a),
        valid_runs(b),
        expand(a) == expand(b),
    ensures
        a == b,
    decreases a.len(),
{
    if a.len() == 0 || b.len() == 0 {
        if a.len() > 0 {
            lemma_expand_last(a);
        }
        if b.len() > 0 {
            lemma_expand_last(b);
        }
        assert(a =~= b);
    } else {
        lemma_expand_last(a);
        lemma_expand_last(b);
        lemma_valid_drop_last(a);
        lemma_valid_drop_last(b);
        let whole = expand(a);
        let ea = expand(a.drop_last());
        let eb = expand(b.drop_last());
        assert(a.last().0 == b.last().0) by {
            assert(whole[whole.len() - 1] == a.last().0);
            assert(whole[whole.len() - 1] == b.last().0);
        }
        if ea.len() > eb.len() {
            assert(a.drop_last().len() > 0);
            lemma_expand_last(a.drop_last());
            assert(a.drop_last().last() == a[a.len() - 2]);
            assert(a[a.len() - 2].0 != a[a.len() - 1].0);
            assert(ea.last() == whole.take(ea.len() as int)[ea.len() - 1]);
            assert(whole[ea.len() - 1] == b.last().0);
            assert(false);
        }
        if eb.len() > ea.len() {
            assert(b.drop_last().len() > 0);
            lemma_expand_last(b.drop_last());
            assert(b.drop_last().last() == b[b.len() - 2]);
            assert(b[b.len() - 2].0 != b[b.len() - 1].0);
            assert(eb.last() == whole.take(eb.len() as int)[eb.len() - 1]);
            assert(whole[eb.len() - 1] == a.last().0);
            assert(false);
        }
        assert(a.last() == b.last());
        lemma_valid_runs_unique(a.drop_last(), b.drop_last());
        assert(a =~= a.drop_last().push(a.last()));
        assert(b =~= b.drop_last().push(b.last()));
    }
}

/// The encoding of a buffer is its one valid encoding: valid runs that
/// expand to the buffer are the encoding itself.
pub proof fn lemma_rle_is_the_valid_encoding(s: Seq<u8>, runs: Seq<Run>)
    requires
        is_buffer(s),
        valid_runs(runs),
        expand(runs) == s,
    ensures
        runs == rle(s),
{
    lemma_rle_valid(s);
    lemma_rle_expand(s);
    lemma_valid_runs_unique(runs, rle(s));
}

/// Encodes the bytes of `contents` from `start` up to `end` in one pass.
pub fn encode_range(contents: &[u8], start: usize, end: usize) -> (out: Vec<Run>)
    requires
        start <= end <= contents@.len(),
    ensures
        out@ == rle(contents@.subrange(start as int, end as int)),
{
    let ghost chunk = contents@.subrange(start as int, end as int);
    let mut out: Vec<Run> = Vec::new();
    if start == end {
        return out;
    }
    let mut current: u8 = contents[start];
    let mut count: u64 = 1;
    let mut i: usize = start + 1;
    proof {
        assert(chunk.take(1).drop_last() =~= Seq::<u8>::empty());
        assert(rle(chunk.take(1).drop_last()) =~= Seq::<Run>::empty());
        assert(rle(chunk.take(1)) =~= seq![(current, 1u64)]);
    }
    while i < end
        invariant
            start < i <= end <= contents@.len(),
            chunk == contents@.subrange(start as int, end as int),
            1 <= count <= i - start,
            out@.push((current, count)) == rle(chunk.take(i - start)),
        decreases end - i,
    {
        let byte = contents[i];
        proof {
            lemma_rle_push(chunk.take(i - start), byte);
            assert(chunk.take(i - start).push(byte) =~= chunk.take(i + 1 - start));
            assert(out@.push((current, count)).drop_last() =~= out@);
        }
        if byte == current {
            count = count + 1;
        } else {
            out.push((current, count));
            current = byte;
            count = 1;
        }
        i = i + 1;
    }
    out.push((current, count));
    proof {
        assert(chunk.take(end - start) =~= chunk);
    }
    out
}

/// Encodes one chunk: the maximal runs of `bytes`, in order.
pub fn encode_chunk(bytes: &[u8]) -> (out: Vec<Run>)
    ensures
        out@ == rle(bytes@),
        valid_runs(out@),
        expand(out@) == bytes@,
        total_count(out@) == bytes@.len(),
        out@.len() <= bytes@.len(),
{
    let out = encode_range(bytes, 0, bytes.len());
    proof {
        assert(bytes@.subrange(0, bytes@.len() as int) =~= bytes@);
        lemma_rle_valid(bytes@);
        lemma_rle_expand(bytes@);
    }
    out
}

} // verus!
