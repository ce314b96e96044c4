//! Tokenization: splitting a line of bytes into maximal runs of
//! non-whitespace bytes, and the specification of token occurrence counts.

use vstd::prelude::*;

verus! {

/// A byte that separates tokens: ASCII whitespace.
pub open spec fn is_ws(b: u8) -> bool {
    b == 32 || b == 9 || b == 10 || b == 13 || b == 11 || b == 12
}

/// Runtime test for a separator byte.
pub fn byte_is_ws(b: u8) -> (r: bool)
    ensures
        r == is_ws(b),
{
    b == 32 || b == 9 || b == 10 || b == 13 || b == 11 || b == 12
}

/// The tokens of `line` from position `i` onward, where `cur` is the partial
/// token accumulated so far from the bytes just before `i`.
pub open spec fn tokens_from(line: Seq<u8>, i: int, cur: Seq<u8>) -> Seq<Seq<u8>>
    decreases line.len() - i,
{
    if i < 0 || i >= line.len() {
        if cur.len() == 0 {
            Seq::empty()
        } else {
            seq![cur]
        }
    } else if is_ws(line[i]) {
        if cur.len() == 0 {
            tokens_from(line, i + 1, Seq::empty())
        } else {
            seq![cur] + tokens_from(line, i + 1, Seq::empty())
        }
    } else {
        tokens_from(line, i + 1, cur.push(line[i]))
    }
}

/// The tokens of one line: its maximal runs of non-whitespace bytes, in order.
pub open spec fn tokens_of(line: Seq<u8>) -> Seq<Seq<u8>> {
    tokens_from(line, 0, Seq::empty())
}

/// The views of a sequence of byte vectors.
pub open spec fn line_views(lines: Seq<Vec<u8>>) -> Seq<Seq<u8>> {
    lines.map_values(|l: Vec<u8>| l@)
}

/// All tokens of a file, line by line, in order.
pub open spec fn file_tokens(lines: Seq<Seq<u8>>) -> Seq<Seq<u8>>
    decreases lines.len(),
{
    if lines.len() == 0 {
        Seq::empty()
    } else {
        tokens_of(lines[0]) + file_tokens(lines.drop_first())
    }
}

/// How many times the word `w` occurs among `tokens`.
pub open spec fn occ(tokens: Seq<Seq<u8>>, w: Seq<u8>) -> nat
    decreases tokens.len(),
{
    if tokens.len() == 0 {
        0
    } else {
        occ(tokens.drop_last(), w) + if tokens.last() == w {
            1nat
        } else {
            0nat
        }
    }
}

/// Appending one token raises the count of exactly that word by one.
pub proof fn lemma_occ_push(ts: Seq<Seq<u8>>, t: Seq<u8>, w: Seq<u8>)
    ensures
        occ(ts.push(t), w) == occ(ts, w) + if t == w {
            1nat
        } else {
            0nat
        },
{
    assert(ts.push(t).drop_last() =~= ts);
    assert(ts.push(t).last() == t);
}

/// Occurrence counts add up across a concatenation of token sequences.
pub proof fn lemma_occ_concat(a: Seq<Seq<u8>>, b: Seq<Seq<u8>>, w: Seq<u8>)
    ensures
        occ(a + b, w) == occ(a, w) + occ(b, w),
    decreases b.len(),
{
    if b.len() == 0 {
        assert(a + b =~= a);
    } else {
        lemma_occ_concat(a, b.drop_last(), w);
        assert((a + b).drop_last() =~= a + b.drop_last());
        assert((a + b).last() == b.last());
    }
}

/// The tokens of a concatenation of two files are the tokens of the first
/// followed by the tokens of the second.
pub proof fn lemma_file_tokens_concat(a: Seq<Seq<u8>>, b: Seq<Seq<u8>>)
    ensures
        file_tokens(a + b) == file_tokens(a) + file_tokens(b),
    decreases a.len(),
{
    if a.len() == 0 {
        assert(a + b =~= b);
        assert(file_tokens(a) + file_tokens(b) =~= file_tokens(b));
    } else {
        lemma_file_tokens_concat(a.drop_first(), b);
        assert((a + b).drop_first() =~= a.drop_first() + b);
        assert((a + b)[0] == a[0]);
        assert(tokens_of(a[0]) + (file_tokens(a.drop_first()) + file_tokens(b)) =~= (tokens_of(
            a[0],
        ) + file_tokens(a.drop_first())) + file_tokens(b));
    }
}

/// A one-line file has exactly that line's tokens.
pub proof fn lemma_file_tokens_singleton(l: Seq<u8>)
    ensures
        file_tokens(seq![l]) == tokens_of(l),
{
    let s = seq![l];
    assert(s.drop_first() =~= Seq::<Seq<u8>>::empty());
    assert(file_tokens(s.drop_first()) =~= Seq::<Seq<u8>>::empty());
    assert(tokens_of(l) + Seq::<Seq<u8>>::empty() =~= tokens_of(l));
}

/// Split a line into its whitespace-delimited tokens, in order.
pub fn tokenize(line: &Vec<u8>) -> (r: Vec<Vec<u8>>)
    ensures
        line_views(r@) == tokens_of(line@),
{
    let mut toks: Vec<Vec<u8>> = Vec::new();
    let mut cur: Vec<u8> = Vec::new();
    let mut i: usize = 0;
    while i < line.len()
        invariant
            i <= line@.len(),
            tokens_of(line@) == line_views(toks@) + tokens_from(line@, i as int, cur@),
        decreases line@.len() - i,
    {
        let b = line[i];
        if byte_is_ws(b) {
            if cur.len() > 0 {
                proof {
                    assert(tokens_from(line@, i as int, cur@) == seq![cur@] + tokens_from(
                        line@,
                        i as int + 1,
                        Seq::empty(),
                    ));
                    assert(line_views(toks@.push(cur)) =~= line_views(toks@).push(cur@));
                    assert(line_views(toks@) + (seq![cur@] + tokens_from(
                        line@,
                        i as int + 1,
                        Seq::empty(),
                    )) =~= line_views(toks@).push(cur@) + tokens_from(
                        line@,
                        i as int + 1,
                        Seq::empty(),
                    ));
                }
                toks.push(cur);
                cur = Vec::new();
            } else {
                proof {
                    assert(tokens_from(line@, i as int, cur@) == tokens_from(
                        line@,
                        i as int + 1,
                        Seq::empty(),
                    ));
                    assert(cur@ =~= Seq::<u8>::empty());
                }
            }
        } else {
            proof {
                assert(tokens_from(line@, i as int, cur@) == tokens_from(
                    line@,
                    i as int + 1,
                    cur@.push(b),
                ));
            }
            cur.push(b);
        }
        i = i + 1;
    }
    if cur.len() > 0 {
        proof {
            assert(tokens_from(line@, i as int, cur@) == seq![cur@]);
            assert(line_views(toks@.push(cur)) =~= line_views(toks@).push(cur@));
            assert(line_views(toks@) + seq![cur@] =~= line_views(toks@).push(cur@));
        }
        toks.push(cur);
    } else {
        proof {
            assert(tokens_from(line@, i as int, cur@) =~= Seq::<Seq<u8>>::empty());
            assert(line_views(toks@) + Seq::<Seq<u8>>::empty() =~= line_views(toks@));
        }
    }
    toks
}

} // verus!
