//! The word-count mapping: each word (a byte vector) is paired with the
//! number of times it has been seen. Keys are distinct and counts are
//! positive, so the table behaves as a finite map from words to counts.

use vstd::prelude::*;

verus! {

/// A mapping from words to occurrence counts.
pub struct WordCounts {
    entries: Vec<(Vec<u8>, u64)>,
}

/// The count recorded for `w` in the entry table, summed over all entries
/// whose key is `w` (well-formed tables have at most one such entry).
spec fn seq_count(es: Seq<(Vec<u8>, u64)>, w: Seq<u8>) -> nat
    decreases es.len(),
{
    if es.len() == 0 {
        0
    } else {
        seq_count(es.drop_last(), w) + if es.last().0@ == w {
            es.last().1 as nat
        } else {
            0nat
        }
    }
}

/// The sum of all counts in the entry table.
spec fn sum_counts(es: Seq<(Vec<u8>, u64)>) -> nat
    decreases es.len(),
{
    if es.len() == 0 {
        0
    } else {
        sum_counts(es.drop_last()) + es.last().1 as nat
    }
}

proof fn lemma_seq_count_absent(es: Seq<(Vec<u8>, u64)>, w: Seq<u8>)
    requires
        forall|i: int| 0 <= i < es.len() ==> es[i].0@ != w,
    ensures
        seq_count(es, w) == 0,
    decreases es.len(),
{
    if es.len() > 0 {
        assert(es.last() == es[es.len() - 1]);
        lemma_seq_count_absent(es.drop_last(), w);
    }
}

proof fn lemma_seq_count_at(es: Seq<(Vec<u8>, u64)>, i: int)
    requires
        0 <= i < es.len(),
        forall|j: int, k: int| 0 <= j < k < es.len() ==> es[j].0@ != es[k].0@,
    ensures
        seq_count(es, es[i].0@) == es[i].1,
    decreases es.len(),
{
    if i == es.len() - 1 {
        lemma_seq_count_absent(es.drop_last(), es[i].0@);
    } else {
        lemma_seq_count_at(es.drop_last(), i);
    }
}

proof fn lemma_seq_count_push(es: Seq<(Vec<u8>, u64)>, p: (Vec<u8>, u64), w: Seq<u8>)
    ensures
        seq_count(es.push(p), w) == seq_count(es, w) + if p.0@ == w {
            p.1 as nat
        } else {
            0nat
        },
{
    assert(es.push(p).drop_last() =~= es);
    assert(es.push(p).last() == p);
}

proof fn lemma_sum_push(es: Seq<(Vec<u8>, u64)>, p: (Vec<u8>, u64))
    ensures
        sum_counts(es.push(p)) == sum_counts(es) + p.1,
{
    assert(es.push(p).drop_last() =~= es);
    assert(es.push(p).last() == p);
}

proof fn lemma_seq_count_update(es: Seq<(Vec<u8>, u64)>, i: int, p: (Vec<u8>, u64), w: Seq<u8>)
    requires
        0 <= i < es.len(),
    ensures
        seq_count(es.update(i, p), w) + (if es[i].0@ == w {
            es[i].1 as nat
        } else {
            0nat
        }) == seq_count(es, w) + (if p.0@ == w {
            p.1 as nat
        } else {
            0nat
        }),
    decreases es.len(),
{
    if i == es.len() - 1 {
        assert(es.update(i, p).drop_last() =~= es.drop_last());
        assert(es.update(i, p).last() == p);
        assert(es.last() == es[i]);
    } else {
        lemma_seq_count_update(es.drop_last(), i, p, w);
        assert(es.update(i, p).drop_last() =~= es.drop_last().update(i, p));
        assert(es.update(i, p).last() == es.last());
        assert(es.drop_last()[i] == es[i]);
    }
}

proof fn lemma_sum_update(es: Seq<(Vec<u8>, u64)>, i: int, p: (Vec<u8>, u64))
    requires
        0 <= i < es.len(),
    ensures
        sum_counts(es.update(i, p)) + es[i].1 == sum_counts(es) + p.1,
    decreases es.len(),
{
    if i == es.len() - 1 {
        assert(es.update(i, p).drop_last() =~= es.drop_last());
        assert(es.update(i, p).last() == p);
        assert(es.last() == es[i]);
    } else {
        lemma_sum_update(es.drop_last(), i, p);
        assert(es.update(i, p).drop_last() =~= es.drop_last().update(i, p));
        assert(es.update(i, p).last() == es.last());
        assert(es.drop_last()[i] == es[i]);
    }
}

proof fn lemma_seq_count_le_sum(es: Seq<(Vec<u8>, u64)>, w: Seq<u8>)
    ensures
        seq_count(es, w) <= sum_counts(es),
    decreases es.len(),
{
    if es.len() > 0 {
        lemma_seq_count_le_sum(es.drop_last(), w);
    }
}

proof fn lemma_sum_take_le(es: Seq<(Vec<u8>, u64)>, j: int)
    requires
        0 <= j <= es.len(),
    ensures
        sum_counts(es.take(j)) <= sum_counts(es),
    decreases es.len() - j,
{
    if j == es.len() {
        assert(es.take(j) =~= es);
    } else {
        assert(es.take(j + 1) =~= es.take(j).push(es[j]));
        lemma_sum_push(es.take(j), es[j]);
        lemma_sum_take_le(es, j + 1);
    }
}

/// Compare two byte vectors for equality of contents.
fn words_eq(a: &Vec<u8>, b: &Vec<u8>) -> (r: bool)
    ensures
        r == (a@ == b@),
{
    let r = a == b;
    proof {
        if r {
            assert(a@ =~= b@);
        }
    }
    r
}

impl WordCounts {
    /// How often the word `w` is recorded; zero when `w` is absent.
    pub closed spec fn spec_count(self, w: Seq<u8>) -> nat {
        seq_count(self.entries@, w)
    }

    /// The sum of all recorded counts.
    pub closed spec fn total(self) -> nat {
        sum_counts(self.entries@)
    }

    /// Well-formedness: keys are distinct, counts are positive, and the
    /// total fits a `u64`.
    pub closed spec fn wf(self) -> bool {
        &&& forall|j: int, k: int|
            0 <= j < k < self.entries@.len() ==> self.entries@[j].0@ != self.entries@[k].0@
        &&& forall|i: int| 0 <= i < self.entries@.len() ==> self.entries@[i].1 >= 1
        &&& sum_counts(self.entries@) <= u64::MAX
    }

    /// An empty mapping: every word has count zero.
    pub fn new() -> (r: WordCounts)
        ensures
            r.wf(),
            r.total() == 0,
            forall|w: Seq<u8>| r.spec_count(w) == 0,
    {
        let r = WordCounts { entries: Vec::new() };
        proof {
            assert forall|w: Seq<u8>| r.spec_count(w) == 0 by {
                assert(seq_count(r.entries@, w) == 0);
            }
        }
        r
    }

    /// The index of the entry for `w`, if one exists.
    fn find_word(&self, w: &Vec<u8>) -> (r: Option<usize>)
        ensures
            match r {
                Some(i) => i < self.entries@.len() && self.entries@[i as int].0@ == w@,
                None => forall|i: int| 0 <= i < self.entries@.len() ==> self.entries@[i].0@ != w@,
            },
    {
        let mut i: usize = 0;
        while i < self.entries.len()
            invariant
                i <= self.entries@.len(),
                forall|j: int| 0 <= j < i ==> self.entries@[j].0@ != w@,
            decreases self.entries@.len() - i,
        {
            if words_eq(&self.entries[i].0, w) {
                return Some(i);
            }
            i = i + 1;
        }
        None
    }

    /// Record `c` further occurrences of the word `w`.
    pub fn add_count(&mut self, w: &Vec<u8>, c: u64)
        requires
            old(self).wf(),
            1 <= c,
            old(self).total() + c <= u64::MAX,
        ensures
            final(self).wf(),
            final(self).spec_count(w@) == old(self).spec_count(w@) + c,
            forall|v: Seq<u8>| v != w@ ==> final(self).spec_count(v) == old(self).spec_count(v),
            final(self).total() == old(self).total() + c,
    {
        match self.find_word(w) {
            Some(i) => {
                proof {
                    lemma_seq_count_at(self.entries@, i as int);
                    lemma_seq_count_le_sum(self.entries@, w@);
                }
                let old_c = self.entries[i].1;
                let key = self.entries[i].0.clone();
                proof {
                    assert(key@ =~= self.entries@[i as int].0@);
                }
                let ghost before = self.entries@;
                self.entries[i] = (key, old_c + c);
                proof {
                    assert forall|v: Seq<u8>|
                        #[trigger] seq_count(self.entries@, v) + (if before[i as int].0@ == v {
                            before[i as int].1 as nat
                        } else {
                            0nat
                        }) == seq_count(before, v) + (if w@ == v {
                            (old_c + c) as nat
                        } else {
                            0nat
                        }) by {
                        lemma_seq_count_update(
                            before,
                            i as int,
                            self.entries@[i as int],
                            v,
                        );
                    }
                    lemma_sum_update(before, i as int, self.entries@[i as int]);
                }
            },
            None => {
                proof {
                    lemma_seq_count_absent(self.entries@, w@);
                }
                let key = w.clone();
                proof {
                    assert(key@ =~= w@);
                }
                let ghost before = self.entries@;
                self.entries.push((key, c));
                proof {
                    assert forall|v: Seq<u8>| #[trigger] seq_count(self.entries@, v) == seq_count(
                        before,
                        v,
                    ) + (if w@ == v {
                        c as nat
                    } else {
                        0nat
                    }) by {
                        lemma_seq_count_push(before, (key, c), v);
                    }
                    lemma_sum_push(before, (key, c));
                    assert(self.entries@.drop_last() =~= before);
                }
            },
        }
    }

    /// Look up how often `w` has been recorded; zero when it never was.
    pub fn get(&self, w: &Vec<u8>) -> (r: u64)
        requires
            self.wf(),
        ensures
            r == self.spec_count(w@),
    {
        match self.find_word(w) {
            Some(i) => {
                proof {
                    lemma_seq_count_at(self.entries@, i as int);
                }
                self.entries[i].1
            },
            None => {
                proof {
                    lemma_seq_count_absent(self.entries@, w@);
                }
                0
            },
        }
    }

    /// Add every count of `other` into `self`.
    pub fn merge(&mut self, other: &WordCounts)
        requires
            old(self).wf(),
            other.wf(),
            old(self).total() + other.total() <= u64::MAX,
        ensures
            final(self).wf(),
            forall|w: Seq<u8>|
                final(self).spec_count(w) == old(self).spec_count(w) + other.spec_count(w),
            final(self).total() == old(self).total() + other.total(),
    {
        let ghost base = *old(self);
        let mut j: usize = 0;
        while j < other.entries.len()
            invariant
                self.wf(),
                other.wf(),
                j <= other.entries@.len(),
                base.total() + other.total() <= u64::MAX,
                self.total() == base.total() + sum_counts(other.entries@.take(j as int)),
                forall|w: Seq<u8>|
                    self.spec_count(w) == base.spec_count(w) + seq_count(
                        other.entries@.take(j as int),
                        w,
                    ),
            decreases other.entries@.len() - j,
        {
            let c = other.entries[j].1;
            proof {
                assert(other.entries@.take(j as int + 1) =~= other.entries@.take(j as int).push(
                    other.entries@[j as int],
                ));
                lemma_sum_push(other.entries@.take(j as int), other.entries@[j as int]);
                lemma_sum_take_le(other.entries@, j as int + 1);
            }
            let ghost mid = *self;
            self.add_count(&other.entries[j].0, c);
            proof {
                assert forall|w: Seq<u8>| self.spec_count(w) == base.spec_count(w) + seq_count(
                    other.entries@.take(j as int + 1),
                    w,
                ) by {
                    lemma_seq_count_push(
                        other.entries@.take(j as int),
                        other.entries@[j as int],
                        w,
                    );
                    if w != other.entries@[j as int].0@ {
                        assert(self.spec_count(w) == mid.spec_count(w));
                    }
                }
            }
            j = j + 1;
        }
        proof {
            assert(other.entries@.take(j as int) =~= other.entries@);
        }
    }

    /// Whether the two mappings record the same count for every word.
    pub fn counts_eq(&self, other: &WordCounts) -> (r: bool)
        requires
            self.wf(),
            other.wf(),
        ensures
            r == (forall|w: Seq<u8>| self.spec_count(w) == other.spec_count(w)),
    {
        let mut i: usize = 0;
        while i < self.entries.len()
            invariant
                self.wf(),
                other.wf(),
                i <= self.entries@.len(),
                forall|j: int|
                    0 <= j < i ==> other.spec_count(#[trigger] self.entries@[j].0@)
                        == self.entries@[j].1,
            decreases self.entries@.len() - i,
        {
            let c = other.get(&self.entries[i].0);
            if c != self.entries[i].1 {
                proof {
                    lemma_seq_count_at(self.entries@, i as int);
                }
                return false;
            }
            i = i + 1;
        }
        let mut j: usize = 0;
        while j < other.entries.len()
            invariant
                self.wf(),
                other.wf(),
                j <= other.entries@.len(),
                forall|k: int|
                    0 <= k < self.entries@.len() ==> other.spec_count(
                        #[trigger] self.entries@[k].0@,
                    ) == self.entries@[k].1,
                forall|k: int|
                    0 <= k < j ==> self.spec_count(#[trigger] other.entries@[k].0@)
                        == other.entries@[k].1,
            decreases other.entries@.len() - j,
        {
            let c = self.get(&other.entries[j].0);
            if c != other.entries[j].1 {
                proof {
                    lemma_seq_count_at(other.entries@, j as int);
                }
                return false;
            }
            j = j + 1;
        }
        proof {
            assert forall|w: Seq<u8>| self.spec_count(w) == other.spec_count(w) by {
                if exists|k: int| 0 <= k < self.entries@.len() && self.entries@[k].0@ == w {
                    let k = choose|k: int|
                        0 <= k < self.entries@.len() && self.entries@[k].0@ == w;
                    lemma_seq_count_at(self.entries@, k);
                } else {
                    lemma_seq_count_absent(self.entries@, w);
                    if exists|k: int| 0 <= k < other.entries@.len() && other.entries@[k].0@ == w {
                        let k = choose|k: int|
                            0 <= k < other.entries@.len() && other.entries@[k].0@ == w;
                        lemma_seq_count_at(other.entries@, k);
                    } else {
                        lemma_seq_count_absent(other.entries@, w);
                    }
                }
            }
        }
        true
    }

    /// The sum of all recorded counts, i.e. how many tokens were tallied.
    pub fn total_count(&self) -> (r: u64)
        requires
            self.wf(),
        ensures
            r == self.total(),
    {
        let mut acc: u64 = 0;
        let mut i: usize = 0;
        while i < self.entries.len()
            invariant
                self.wf(),
                i <= self.entries@.len(),
                acc == sum_counts(self.entries@.take(i as int)),
            decreases self.entries@.len() - i,
        {
            proof {
                assert(self.entries@.take(i as int + 1) =~= self.entries@.take(i as int).push(
                    self.entries@[i as int],
                ));
                lemma_sum_push(self.entries@.take(i as int), self.entries@[i as int]);
                lemma_sum_take_le(self.entries@, i as int + 1);
            }
            acc = acc + self.entries[i].1;
            i = i + 1;
        }
        proof {
            assert(self.entries@.take(i as int) =~= self.entries@);
        }
        acc
    }

    /// Whether no word has been recorded at all.
    pub fn is_empty(&self) -> (r: bool)
        requires
            self.wf(),
        ensures
            r == (forall|w: Seq<u8>| self.spec_count(w) == 0),
    {
        if self.entries.len() == 0 {
            proof {
                assert forall|w: Seq<u8>| self.spec_count(w) == 0 by {
                    lemma_seq_count_absent(self.entries@, w);
                }
            }
            true
        } else {
            proof {
                lemma_seq_count_at(self.entries@, 0);
                assert(self.spec_count(self.entries@[0].0@) >= 1);
            }
            false
        }
    }
}

} // verus!
