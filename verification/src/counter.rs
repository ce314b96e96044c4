//! Counting passes over a file given as a sequence of lines: a single
//! sequential pass, and a chunked pass that partitions the lines into
//! per-worker ranges whose partial counts are merged. Both are proved to
//! yield, for every word, exactly its number of occurrences in the file.

use vstd::prelude::*;

use crate::counts::WordCounts;
use crate::tokens::file_tokens;
use crate::tokens::lemma_file_tokens_concat;
use crate::tokens::lemma_file_tokens_singleton;
use crate::tokens::lemma_occ_concat;
use crate::tokens::lemma_occ_push;
use crate::tokens::line_views;
use crate::tokens::occ;
use crate::tokens::tokenize;
use crate::tokens::tokens_of;

verus! {

/// The tokens contributed by the lines with index in `[start, end)`.
pub open spec fn range_tokens(lines: Seq<Vec<u8>>, start: int, end: int) -> Seq<Seq<u8>> {
    file_tokens(line_views(lines.subrange(start, end)))
}

/// A range splits at any midpoint: its tokens are the tokens of the two
/// half-ranges, in order.
pub proof fn lemma_range_split(lines: Seq<Vec<u8>>, a: int, b: int, c: int)
    requires
        0 <= a <= b <= c <= lines.len(),
    ensures
        range_tokens(lines, a, c) == range_tokens(lines, a, b) + range_tokens(lines, b, c),
{
    assert(lines.subrange(a, c) =~= lines.subrange(a, b) + lines.subrange(b, c));
    assert(line_views(lines.subrange(a, b) + lines.subrange(b, c)) =~= line_views(
        lines.subrange(a, b),
    ) + line_views(lines.subrange(b, c)));
    lemma_file_tokens_concat(
        line_views(lines.subrange(a, b)),
        line_views(lines.subrange(b, c)),
    );
}

/// A range of one line contributes exactly that line's tokens.
pub proof fn lemma_range_one(lines: Seq<Vec<u8>>, k: int)
    requires
        0 <= k < lines.len(),
    ensures
        range_tokens(lines, k, k + 1) == tokens_of(lines[k]@),
{
    assert(line_views(lines.subrange(k, k + 1)) =~= seq![lines[k]@]);
    lemma_file_tokens_singleton(lines[k]@);
}

/// Tally every token of `line` into `counts`.
pub fn count_line(counts: &mut WordCounts, line: &Vec<u8>)
    requires
        old(counts).wf(),
        old(counts).total() + tokens_of(line@).len() <= u64::MAX,
    ensures
        final(counts).wf(),
        forall|w: Seq<u8>|
            final(counts).spec_count(w) == old(counts).spec_count(w) + occ(tokens_of(line@), w),
        final(counts).total() == old(counts).total() + tokens_of(line@).len(),
{
    let ghost base = *old(counts);
    let ghost tv = tokens_of(line@);
    let toks = tokenize(line);
    let mut j: usize = 0;
    while j < toks.len()
        invariant
            counts.wf(),
            j <= toks@.len(),
            line_views(toks@) == tv,
            base.total() + tv.len() <= u64::MAX,
            counts.total() == base.total() + j,
            forall|w: Seq<u8>|
                counts.spec_count(w) == base.spec_count(w) + occ(tv.take(j as int), w),
        decreases toks@.len() - j,
    {
        let ghost mid = *counts;
        counts.add_count(&toks[j], 1);
        proof {
            assert(tv.take(j as int + 1) =~= tv.take(j as int).push(tv[j as int]));
            assert(tv[j as int] == toks@[j as int]@);
            assert forall|w: Seq<u8>| counts.spec_count(w) == base.spec_count(w) + occ(
                tv.take(j as int + 1),
                w,
            ) by {
                lemma_occ_push(tv.take(j as int), tv[j as int], w);
                if w != toks@[j as int]@ {
                    assert(counts.spec_count(w) == mid.spec_count(w));
                }
            }
        }
        j = j + 1;
    }
    proof {
        assert(tv.take(j as int) =~= tv);
    }
}

/// Count the words of the lines with index in `[start, end)`: a worker's
/// share of the file.
pub fn count_range(lines: &Vec<Vec<u8>>, start: usize, end: usize) -> (r: WordCounts)
    requires
        start <= end <= lines@.len(),
        range_tokens(lines@, start as int, end as int).len() <= u64::MAX,
    ensures
        r.wf(),
        forall|w: Seq<u8>|
            r.spec_count(w) == occ(range_tokens(lines@, start as int, end as int), w),
        r.total() == range_tokens(lines@, start as int, end as int).len(),
{
    let mut counts = WordCounts::new();
    let mut k: usize = start;
    proof {
        assert(lines@.subrange(start as int, start as int) =~= Seq::<Vec<u8>>::empty());
        assert(line_views(Seq::<Vec<u8>>::empty()) =~= Seq::<Seq<u8>>::empty());
    }
    while k < end
        invariant
            start <= k <= end <= lines@.len(),
            counts.wf(),
            range_tokens(lines@, start as int, end as int).len() <= u64::MAX,
            counts.total() == range_tokens(lines@, start as int, k as int).len(),
            forall|w: Seq<u8>|
                counts.spec_count(w) == occ(range_tokens(lines@, start as int, k as int), w),
        decreases end - k,
    {
        proof {
            lemma_range_split(lines@, start as int, k as int, k as int + 1);
            lemma_range_one(lines@, k as int);
            lemma_range_split(lines@, start as int, k as int + 1, end as int);
        }
        let ghost mid = counts;
        count_line(&mut counts, &lines[k]);
        proof {
            assert forall|w: Seq<u8>| counts.spec_count(w) == occ(
                range_tokens(lines@, start as int, k as int + 1),
                w,
            ) by {
                lemma_occ_concat(
                    range_tokens(lines@, start as int, k as int),
                    tokens_of(lines@[k as int]@),
                    w,
                );
            }
        }
        k = k + 1;
    }
    counts
}

/// Sequential mode: one pass over the whole file, line by line. For every
/// word the result records exactly its number of occurrences among the
/// file's whitespace-delimited tokens, and the total of all counts is the
/// file's token count.
pub fn count_words_sync(lines: &Vec<Vec<u8>>) -> (r: WordCounts)
    requires
        file_tokens(line_views(lines@)).len() <= u64::MAX,
    ensures
        r.wf(),
        forall|w: Seq<u8>| r.spec_count(w) == occ(file_tokens(line_views(lines@)), w),
        r.total() == file_tokens(line_views(lines@)).len(),
{
    proof {
        assert(lines@.subrange(0, lines@.len() as int) =~= lines@);
    }
    count_range(lines, 0, lines.len())
}

/// Chunked mode: the partition-and-merge discipline of a fixed worker pool.
/// The lines are split into at most `workers` contiguous chunks; each chunk
/// is counted on its own (as one worker would) and the partial counts are
/// merged. The result is the same mapping the sequential pass produces,
/// whatever the pool size.
pub fn count_words_chunked(lines: &Vec<Vec<u8>>, workers: usize) -> (r: WordCounts)
    requires
        1 <= workers,
        file_tokens(line_views(lines@)).len() <= u64::MAX,
    ensures
        r.wf(),
        forall|w: Seq<u8>| r.spec_count(w) == occ(file_tokens(line_views(lines@)), w),
        r.total() == file_tokens(line_views(lines@)).len(),
{
    let n = lines.len();
    let chunk = if workers <= 1 || n == 0 {
        n
    } else {
        proof {
            assert(n / workers < n) by (nonlinear_arith)
                requires
                    workers >= 2,
                    n >= 1,
            ;
        }
        n / workers + 1
    };
    proof {
        assert(lines@.subrange(0, n as int) =~= lines@);
        assert(lines@.subrange(0, 0) =~= Seq::<Vec<u8>>::empty());
        assert(line_views(Seq::<Vec<u8>>::empty()) =~= Seq::<Seq<u8>>::empty());
    }
    let mut result = WordCounts::new();
    let mut start: usize = 0;
    while start < n
        invariant
            start <= n,
            n == lines@.len(),
            n > 0 ==> chunk >= 1,
            result.wf(),
            file_tokens(line_views(lines@)).len() <= u64::MAX,
            range_tokens(lines@, 0, n as int) == file_tokens(line_views(lines@)),
            result.total() == range_tokens(lines@, 0, start as int).len(),
            forall|w: Seq<u8>|
                result.spec_count(w) == occ(range_tokens(lines@, 0, start as int), w),
        decreases n - start,
    {
        let end = if n - start < chunk {
            n
        } else {
            start + chunk
        };
        proof {
            lemma_range_split(lines@, 0, start as int, end as int);
            lemma_range_split(lines@, 0, end as int, n as int);
        }
        let partial = count_range(lines, start, end);
        let ghost mid = result;
        result.merge(&partial);
        proof {
            assert forall|w: Seq<u8>| result.spec_count(w) == occ(
                range_tokens(lines@, 0, end as int),
                w,
            ) by {
                lemma_occ_concat(
                    range_tokens(lines@, 0, start as int),
                    range_tokens(lines@, start as int, end as int),
                    w,
                );
            }
        }
        start = end;
    }
    result
}

} // verus!
