//! Laws relating the counting modes. Each lemma takes results whose
//! contracts the counting functions establish (every word is mapped to its
//! number of occurrences among the file's tokens) and concludes that the
//! mappings agree word for word.

use vstd::prelude::*;

use crate::counts::WordCounts;
use crate::tokens::file_tokens;
use crate::tokens::occ;

verus! {

/// Mode independence: a result of the sequential pass and a result of the
/// chunked (worker-pool) pass over the same lines record the same count for
/// every word.
pub proof fn lemma_mode_independence(
    sequential: WordCounts,
    chunked: WordCounts,
    lines: Seq<Seq<u8>>,
)
    requires
        forall|w: Seq<u8>| sequential.spec_count(w) == occ(file_tokens(lines), w),
        forall|w: Seq<u8>| chunked.spec_count(w) == occ(file_tokens(lines), w),
    ensures
        forall|w: Seq<u8>| sequential.spec_count(w) == chunked.spec_count(w),
{
}

/// Idempotence: two runs of a counting pass over the same unmodified lines
/// yield identical mappings, since each maps every word to its occurrence
/// count in those lines.
pub proof fn lemma_repeat_run(first: WordCounts, second: WordCounts, lines: Seq<Seq<u8>>)
    requires
        forall|w: Seq<u8>| first.spec_count(w) == occ(file_tokens(lines), w),
        forall|w: Seq<u8>| second.spec_count(w) == occ(file_tokens(lines), w),
    ensures
        forall|w: Seq<u8>| first.spec_count(w) == second.spec_count(w),
{
}

/// Pool-size independence: chunked results for any two worker counts agree,
/// since the chunked pass's contract does not depend on the pool size.
pub proof fn lemma_pool_size_independence(
    wide: WordCounts,
    narrow: WordCounts,
    lines: Seq<Seq<u8>>,
)
    requires
        forall|w: Seq<u8>| wide.spec_count(w) == occ(file_tokens(lines), w),
        forall|w: Seq<u8>| narrow.spec_count(w) == occ(file_tokens(lines), w),
    ensures
        forall|w: Seq<u8>| wide.spec_count(w) == narrow.spec_count(w),
{
}

} // verus!
