//! Mathematical model of a corpus: boundary framing, adjacent-token
//! pairs, first-seen vocabulary growth, and transition counts.

use vstd::prelude::*;
use crate::TOKEN_END;
use crate::TOKEN_START;

verus! {

/// The character sequences of a list of lines.
pub open spec fn char_views(lines: Seq<String>) -> Seq<Seq<char>> {
    lines.map_values(|s: String| s@)
}

/// A line framed by the boundary token on both sides.
pub open spec fn framed_line(line: Seq<char>) -> Seq<char> {
    seq![TOKEN_START] + line + seq![TOKEN_END]
}

/// The adjacent-token pairs of one framed line: a line of length `L`
/// yields `L + 1` pairs.
pub open spec fn line_pairs(line: Seq<char>) -> Seq<(char, char)> {
    Seq::new(line.len() + 1, |i: int| (framed_line(line)[i], framed_line(line)[i + 1]))
}

/// All adjacent-token pairs of a corpus, line by line.
pub open spec fn corpus_pairs(lines: Seq<Seq<char>>) -> Seq<(char, char)>
    decreases lines.len(),
{
    if lines.len() == 0 {
        Seq::empty()
    } else {
        corpus_pairs(lines.drop_last()) + line_pairs(lines.last())
    }
}

/// The pair total of a corpus: the sum of `length + 1` over its lines.
pub open spec fn total_pairs(lines: Seq<Seq<char>>) -> int
    decreases lines.len(),
{
    if lines.len() == 0 {
        0
    } else {
        total_pairs(lines.drop_last()) + lines.last().len() + 1
    }
}

/// Law: a corpus of lines with lengths `L1 .. Ln` yields exactly
/// `(L1 + 1) + .. + (Ln + 1)` adjacent-token pairs.
pub proof fn lemma_corpus_pairs_count(lines: Seq<Seq<char>>)
    ensures
        corpus_pairs(lines).len() == total_pairs(lines),
    decreases lines.len(),
{
    if lines.len() > 0 {
        lemma_corpus_pairs_count(lines.drop_last());
    }
}

/// Adds one token to a vocabulary unless it is already present.
pub open spec fn extend_one(v: Seq<char>, c: char) -> Seq<char> {
    if v.contains(c) {
        v
    } else {
        v.push(c)
    }
}

/// Adds the tokens of `cs` to `v` in order, each unless already present.
pub open spec fn extend_vocab(v: Seq<char>, cs: Seq<char>) -> Seq<char>
    decreases cs.len(),
{
    if cs.len() == 0 {
        v
    } else {
        extend_one(extend_vocab(v, cs.drop_last()), cs.last())
    }
}

/// The vocabulary a corpus induces: the boundary token first, then every
/// line's tokens in first-seen order.
pub open spec fn corpus_vocab(lines: Seq<Seq<char>>) -> Seq<char>
    decreases lines.len(),
{
    if lines.len() == 0 {
        seq![TOKEN_START]
    } else {
        extend_vocab(corpus_vocab(lines.drop_last()), lines.last())
    }
}

/// The vocabulary induced by a pair sequence: each pair's tokens in
/// order, each added when first seen.
pub open spec fn pairs_vocab(ps: Seq<(char, char)>) -> Seq<char>
    decreases ps.len(),
{
    if ps.len() == 0 {
        Seq::empty()
    } else {
        extend_one(extend_one(pairs_vocab(ps.drop_last()), ps.last().0), ps.last().1)
    }
}

/// `extend_one` keeps the old vocabulary as a prefix, keeps it free of
/// duplicates, and makes `c` present.
pub proof fn lemma_extend_one(v: Seq<char>, c: char)
    ensures
        v.is_prefix_of(extend_one(v, c)),
        v.no_duplicates() ==> extend_one(v, c).no_duplicates(),
        extend_one(v, c).contains(c),
        forall|t: char| v.contains(t) ==> extend_one(v, c).contains(t),
        forall|t: char| extend_one(v, c).contains(t) ==> v.contains(t) || t == c,
        extend_one(v, c).len() >= v.len(),
{
    if !v.contains(c) {
        let w = v.push(c);
        assert(v.is_prefix_of(w)) by {
            assert(w.subrange(0, v.len() as int) =~= v);
        }
        assert forall|t: char| v.contains(t) implies w.contains(t) by {
            let i = choose|i: int| 0 <= i < v.len() && v[i] == t;
            assert(w[i] == t);
        }
        assert(w[v.len() as int] == c);
        assert forall|t: char| w.contains(t) implies v.contains(t) || t == c by {
            let i = choose|i: int| 0 <= i < w.len() && w[i] == t;
            if i < v.len() {
                assert(v[i] == t);
            }
        }
    }
}

/// Extending a vocabulary adds at most one token per character.
pub proof fn lemma_extend_vocab_len(v: Seq<char>, cs: Seq<char>)
    ensures
        v.len() <= extend_vocab(v, cs).len() <= v.len() + cs.len(),
    decreases cs.len(),
{
    if cs.len() > 0 {
        lemma_extend_vocab_len(v, cs.drop_last());
    }
}

/// A prefix of a corpus yields at most as many pairs as the whole.
pub proof fn lemma_total_pairs_prefix(lines: Seq<Seq<char>>, i: int)
    requires
        0 <= i <= lines.len(),
    ensures
        0 <= total_pairs(lines.take(i)) <= total_pairs(lines),
    decreases lines.len(),
{
    if i == lines.len() {
        assert(lines.take(i) =~= lines);
        if lines.len() > 0 {
            lemma_total_pairs_prefix(lines.drop_last(), i - 1);
        }
    } else {
        assert(lines.take(i) =~= lines.drop_last().take(i));
        lemma_total_pairs_prefix(lines.drop_last(), i);
    }
}

/// A corpus vocabulary holds at most one token more than the corpus has
/// pairs.
pub proof fn lemma_corpus_vocab_len(lines: Seq<Seq<char>>)
    ensures
        corpus_vocab(lines).len() <= 1 + total_pairs(lines),
    decreases lines.len(),
{
    if lines.len() > 0 {
        lemma_corpus_vocab_len(lines.drop_last());
        lemma_extend_vocab_len(corpus_vocab(lines.drop_last()), lines.last());
    }
}

/// A prefix of a corpus contributes a prefix of its pairs.
pub proof fn lemma_corpus_pairs_prefix(lines: Seq<Seq<char>>, i: int)
    requires
        0 <= i <= lines.len(),
    ensures
        corpus_pairs(lines.take(i)).is_prefix_of(corpus_pairs(lines)),
    decreases lines.len(),
{
    if i == lines.len() {
        assert(lines.take(i) =~= lines);
        assert(corpus_pairs(lines.take(i)).is_prefix_of(corpus_pairs(lines))) by {
            assert(corpus_pairs(lines).take(corpus_pairs(lines).len() as int) =~= corpus_pairs(
                lines,
            ));
        }
    } else {
        assert(lines.take(i) =~= lines.drop_last().take(i));
        lemma_corpus_pairs_prefix(lines.drop_last(), i);
        let a = corpus_pairs(lines.take(i));
        let b = corpus_pairs(lines.drop_last());
        let c = corpus_pairs(lines);
        assert(a =~= b.take(a.len() as int));
        assert(a =~= c.take(a.len() as int));
    }
}

/// The vocabulary of a prefix of a pair sequence is a prefix of the
/// vocabulary of the whole.
pub proof fn lemma_pairs_vocab_prefix(ps: Seq<(char, char)>, k: int)
    requires
        0 <= k <= ps.len(),
    ensures
        pairs_vocab(ps.take(k)).is_prefix_of(pairs_vocab(ps)),
    decreases ps.len(),
{
    if k == ps.len() {
        assert(ps.take(k) =~= ps);
        assert(pairs_vocab(ps.take(k)).is_prefix_of(pairs_vocab(ps))) by {
            assert(pairs_vocab(ps).take(pairs_vocab(ps).len() as int) =~= pairs_vocab(ps));
        }
    } else {
        assert(ps.take(k) =~= ps.drop_last().take(k));
        lemma_pairs_vocab_prefix(ps.drop_last(), k);
        let a = pairs_vocab(ps.take(k));
        let b = pairs_vocab(ps.drop_last());
        lemma_extend_one(b, ps.last().0);
        lemma_extend_one(extend_one(b, ps.last().0), ps.last().1);
        let c = pairs_vocab(ps);
        assert(a =~= b.take(a.len() as int));
        assert(b =~= c.take(b.len() as int));
        assert(a =~= c.take(a.len() as int));
    }
}

/// A pair sequence's vocabulary grows by at most two tokens per pair.
pub proof fn lemma_pairs_vocab_len(ps: Seq<(char, char)>)
    ensures
        pairs_vocab(ps).len() <= 2 * ps.len(),
    decreases ps.len(),
{
    if ps.len() > 0 {
        lemma_pairs_vocab_len(ps.drop_last());
    }
}

/// A pair sequence's vocabulary holds both tokens of each of its pairs.
pub proof fn lemma_pairs_vocab_contains(ps: Seq<(char, char)>, k: int)
    requires
        0 <= k < ps.len(),
    ensures
        pairs_vocab(ps).contains(ps[k].0),
        pairs_vocab(ps).contains(ps[k].1),
    decreases ps.len(),
{
    let b = pairs_vocab(ps.drop_last());
    lemma_extend_one(b, ps.last().0);
    lemma_extend_one(extend_one(b, ps.last().0), ps.last().1);
    if k < ps.len() - 1 {
        lemma_pairs_vocab_contains(ps.drop_last(), k);
        assert(ps.drop_last()[k] == ps[k]);
    }
}

/// How many times the id pair `(a, b)` occurs in `ps`.
pub open spec fn count_pair(ps: Seq<(int, int)>, a: int, b: int) -> int
    decreases ps.len(),
{
    if ps.len() == 0 {
        0
    } else {
        count_pair(ps.drop_last(), a, b) + if ps.last() == (a, b) {
            1int
        } else {
            0int
        }
    }
}

/// How many pairs of `ps` start at id `a`.
pub open spec fn count_first(ps: Seq<(int, int)>, a: int) -> int
    decreases ps.len(),
{
    if ps.len() == 0 {
        0
    } else {
        count_first(ps.drop_last(), a) + if ps.last().0 == a {
            1int
        } else {
            0int
        }
    }
}

/// A pair count lies between zero and the number of pairs.
pub proof fn lemma_count_pair_bounds(ps: Seq<(int, int)>, a: int, b: int)
    ensures
        0 <= count_pair(ps, a, b) <= ps.len(),
    decreases ps.len(),
{
    if ps.len() > 0 {
        lemma_count_pair_bounds(ps.drop_last(), a, b);
    }
}

/// The sum of the entries of a count row.
pub open spec fn row_sum(row: Seq<u64>) -> int
    decreases row.len(),
{
    if row.len() == 0 {
        0
    } else {
        row_sum(row.drop_last()) + row.last()
    }
}

/// A row of zeroes sums to zero.
pub proof fn lemma_row_sum_zero(row: Seq<u64>)
    requires
        forall|j: int| 0 <= j < row.len() ==> row[j] == 0,
    ensures
        row_sum(row) == 0,
    decreases row.len(),
{
    if row.len() > 0 {
        lemma_row_sum_zero(row.drop_last());
    }
}

/// Replacing one entry of a row shifts its sum by the difference.
pub proof fn lemma_row_sum_update(row: Seq<u64>, i: int, v: u64)
    requires
        0 <= i < row.len(),
    ensures
        row_sum(row.update(i, v)) == row_sum(row) - row[i] + v,
    decreases row.len(),
{
    let updated = row.update(i, v);
    if i == row.len() - 1 {
        assert(updated.drop_last() =~= row.drop_last());
    } else {
        assert(updated.drop_last() =~= row.drop_last().update(i, v));
        lemma_row_sum_update(row.drop_last(), i, v);
    }
}

/// The total of a count matrix: the sum of all its rows' sums.
pub open spec fn matrix_total(freqs: Seq<Seq<u64>>) -> int
    decreases freqs.len(),
{
    if freqs.len() == 0 {
        0
    } else {
        matrix_total(freqs.drop_last()) + row_sum(freqs.last())
    }
}

/// A matrix whose rows each sum to zero totals zero.
proof fn lemma_matrix_total_zero(m: Seq<Seq<u64>>)
    requires
        forall|r: int| 0 <= r < m.len() ==> row_sum(#[trigger] m[r]) == 0,
    ensures
        matrix_total(m) == 0,
    decreases m.len(),
{
    if m.len() > 0 {
        assert forall|r: int| 0 <= r < m.drop_last().len() implies row_sum(
            #[trigger] m.drop_last()[r],
        ) == 0 by {
            assert(m.drop_last()[r] == m[r]);
        }
        lemma_matrix_total_zero(m.drop_last());
    }
}

/// Replacing one row shifts the matrix total by the row-sum difference.
proof fn lemma_matrix_total_update(m: Seq<Seq<u64>>, r: int, row: Seq<u64>)
    requires
        0 <= r < m.len(),
    ensures
        matrix_total(m.update(r, row)) == matrix_total(m) - row_sum(m[r]) + row_sum(row),
    decreases m.len(),
{
    let updated = m.update(r, row);
    if r == m.len() - 1 {
        assert(updated.drop_last() =~= m.drop_last());
    } else {
        assert(updated.drop_last() =~= m.drop_last().update(r, row));
        assert(updated.last() == m.last());
        lemma_matrix_total_update(m.drop_last(), r, row);
    }
}

/// Law: a matrix whose cells are the per-pair counts of a pair sequence
/// totals exactly the number of pairs.
pub proof fn lemma_matrix_total_invariant(ps: Seq<(int, int)>, m: Seq<Seq<u64>>, cols: int)
    requires
        forall|i: int| 0 <= i < m.len() ==> (#[trigger] m[i]).len() == cols,
        forall|i: int, j: int|
            0 <= i < m.len() && 0 <= j < cols ==> #[trigger] m[i][j] == count_pair(ps, i, j),
        forall|k: int|
            0 <= k < ps.len() ==> 0 <= (#[trigger] ps[k]).0 < m.len() && 0 <= ps[k].1 < cols,
    ensures
        matrix_total(m) == ps.len(),
    decreases ps.len(),
{
    if ps.len() == 0 {
        assert forall|r: int| 0 <= r < m.len() implies row_sum(#[trigger] m[r]) == 0 by {
            lemma_row_sum_zero(m[r]);
        }
        lemma_matrix_total_zero(m);
    } else {
        let t = ps.drop_last();
        let p = ps.last();
        let r0 = p.0;
        let c0 = p.1;
        lemma_count_pair_bounds(t, r0, c0);
        let prev_row = m[r0].update(c0, (m[r0][c0] - 1) as u64);
        let prev = m.update(r0, prev_row);
        assert forall|i: int, j: int|
            0 <= i < prev.len() && 0 <= j < cols implies #[trigger] prev[i][j] == count_pair(
            t,
            i,
            j,
        ) by {
            if i != r0 || j != c0 {
                assert(count_pair(ps, i, j) == count_pair(t, i, j));
                assert(prev[i][j] == m[i][j]);
            }
        }
        assert(forall|k: int|
            0 <= k < t.len() ==> 0 <= (#[trigger] t[k]).0 < prev.len() && 0 <= t[k].1 < cols);
        lemma_matrix_total_invariant(t, prev, cols);
        lemma_row_sum_update(m[r0], c0, (m[r0][c0] - 1) as u64);
        lemma_matrix_total_update(m, r0, prev_row);
    }
}

/// Law: a row whose entries are the per-target counts of a pair sequence
/// sums to the number of pairs that start at that row's id.
pub proof fn lemma_row_sum_invariant(ps: Seq<(int, int)>, r: int, row: Seq<u64>)
    requires
        forall|c: int| 0 <= c < row.len() ==> row[c] == count_pair(ps, r, c),
        forall|k: int| 0 <= k < ps.len() ==> 0 <= (#[trigger] ps[k]).1 < row.len(),
    ensures
        row_sum(row) == count_first(ps, r),
    decreases ps.len(),
{
    if ps.len() == 0 {
        lemma_row_sum_zero(row);
    } else {
        let t = ps.drop_last();
        let p = ps.last();
        assert(forall|k: int| 0 <= k < t.len() ==> 0 <= (#[trigger] t[k]).1 < row.len());
        if p.0 == r {
            let j = p.1;
            lemma_count_pair_bounds(t, r, j);
            let prev = row.update(j, (row[j] - 1) as u64);
            assert forall|c: int| 0 <= c < prev.len() implies prev[c] == count_pair(t, r, c) by {
                if c != j {
                    assert(count_pair(ps, r, c) == count_pair(t, r, c));
                }
            }
            lemma_row_sum_invariant(t, r, prev);
            lemma_row_sum_update(row, j, (row[j] - 1) as u64);
            assert(row_sum(prev) == row_sum(row) - 1);
        } else {
            assert forall|c: int| 0 <= c < row.len() implies row[c] == count_pair(t, r, c) by {
                assert(count_pair(ps, r, c) == count_pair(t, r, c));
            }
            lemma_row_sum_invariant(t, r, row);
        }
    }
}

} // verus!
