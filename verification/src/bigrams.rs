//! Bigram frequency model: transition counting over a corpus and
//! weighted-random text generation.

use vstd::prelude::*;
use rand::distr::Distribution;
use rand::distr::weighted::WeightedIndex;
use rand::rngs::StdRng;
use crate::TOKEN_END;
use crate::TOKEN_START;
use crate::VOCAB_SIZE;
use crate::corpus::char_views;
use crate::corpus::corpus_pairs;
use crate::corpus::count_first;
use crate::corpus::count_pair;
use crate::corpus::extend_one;
use crate::corpus::framed_line;
use crate::corpus::lemma_corpus_pairs_prefix;
use crate::corpus::lemma_pairs_vocab_prefix;
use crate::corpus::lemma_total_pairs_prefix;
use crate::corpus::matrix_total;
use crate::corpus::lemma_matrix_total_invariant;
use crate::corpus::lemma_row_sum_invariant;
use crate::corpus::lemma_row_sum_zero;
use crate::corpus::line_pairs;
use crate::corpus::pairs_vocab;
use crate::corpus::row_sum;
use crate::corpus::total_pairs;
use crate::vocabulary::Vocabulary;
use crate::vocabulary::lemma_token_index_distinct;
use crate::vocabulary::lemma_token_index_prefix;
use crate::vocabulary::lemma_token_index_spec;
use crate::vocabulary::lemma_token_index_unique;
use crate::vocabulary::token_index;

verus! {

/// Declaration of rand's standard random number generator type.
#[verifier::external_type_specification]
#[verifier::external_body]
pub struct ExStdRng(StdRng);

/// A weighted-sampling distribution over a row of counts, backed by
/// rand's `WeightedIndex`.
#[verifier::external_body]
pub struct WeightedRow {
    wi: WeightedIndex<u64>,
}

/// The weights a weighted-sampling distribution was built from.
pub uninterp spec fn wi_weights(wi: WeightedRow) -> Seq<u64>;

/// Relies on rand's `SeedableRng::seed_from_u64` for `StdRng`: builds a
/// generator from the seed.
#[verifier::external_body]
fn std_rng_from_seed(seed: u64) -> StdRng {
    rand::SeedableRng::seed_from_u64(seed)
}

/// Relies on rand's `WeightedIndex::new`: it succeeds exactly when the
/// weights are non-empty with a positive total that fits the weight
/// type, and the distribution draws over the given weights.
#[verifier::external_body]
fn weighted_index_new(weights: &Vec<u64>) -> (r: Option<WeightedRow>)
    ensures
        (r is Some) == (weights@.len() > 0 && 0 < row_sum(weights@) && row_sum(weights@)
            <= u64::MAX),
        r is Some ==> wi_weights(r->0) == weights@,
{
    WeightedIndex::new(weights.iter()).ok().map(|wi| WeightedRow { wi })
}

/// Relies on rand's `Distribution::sample` for `WeightedIndex`: the
/// drawn index is in range and never lands on a zero weight.
#[verifier::external_body]
fn weighted_index_sample(wi: &WeightedRow, rng: &mut StdRng) -> (r: usize)
    ensures
        r < wi_weights(*wi).len(),
        wi_weights(*wi)[r as int] > 0,
{
    wi.wi.sample(rng)
}

/// Relies on `String`'s `FromIterator<char>` implementation: collecting
/// chars yields the string of exactly those chars, in order.
#[verifier::external_body]
fn string_from_chars(chars: &Vec<char>) -> (s: String)
    ensures
        s@ == chars@,
{
    chars.iter().collect()
}

/// The ways the bigram model rejects an operation.
#[derive(Clone, Copy, Debug, PartialEq, Eq, Structural)]
pub enum BigramsError {
    /// A token was looked up that the vocabulary never assigned an id.
    UnknownToken,
    /// A token id reached the pre-allocated bound of the count matrix.
    TokenOutOfBounds,
    /// A sampling row has no positive weight total that the weighted
    /// sampler accepts: no outgoing transition was ever observed, or the
    /// row total does not fit the weight type.
    NoObservedTransitions,
    /// Generation ran for the maximum allowed length without drawing
    /// the boundary token.
    GenerationLimitExceeded,
}

/// How long a generated line may grow before generation is abandoned.
pub const GENERATION_LIMIT: usize = 10000;

/// A pair of adjacent tokens whose transition has been recorded: both
/// tokens have ids inside the count matrix and the matching count is
/// positive.
pub open spec fn observed(freqs: Seq<Seq<u64>>, v: Seq<char>, p: (char, char)) -> bool {
    &&& v.contains(p.0)
    &&& v.contains(p.1)
    &&& token_index(v, p.0) < VOCAB_SIZE
    &&& token_index(v, p.1) < VOCAB_SIZE
    &&& freqs[token_index(v, p.0)][token_index(v, p.1)] > 0
}

/// The boundary token can seed a draw: its id lies inside the count
/// matrix and its row has a weight total the sampler accepts.
pub open spec fn start_sampleable(freqs: Seq<Seq<u64>>, v: Seq<char>) -> bool {
    &&& token_index(v, TOKEN_START) < VOCAB_SIZE
    &&& 0 < row_sum(freqs[token_index(v, TOKEN_START)])
    &&& row_sum(freqs[token_index(v, TOKEN_START)]) <= u64::MAX
}

/// A row with exactly one positive cell: the draw over it is forced.
pub open spec fn single_positive(row: Seq<u64>) -> bool {
    &&& exists|j: int| 0 <= j < row.len() && #[trigger] row[j] > 0
    &&& forall|j: int, k: int|
        0 <= j < row.len() && 0 <= k < row.len() && #[trigger] row[j] > 0 && #[trigger] row[k]
            > 0 ==> j == k
}

/// The column of the single positive cell.
pub open spec fn positive_column(row: Seq<u64>) -> int {
    choose|j: int| 0 <= j < row.len() && #[trigger] row[j] > 0
}

/// A row with a single positive cell sums to exactly that cell.
proof fn lemma_single_positive_row_sum(row: Seq<u64>)
    requires
        single_positive(row),
    ensures
        0 <= positive_column(row) < row.len(),
        row[positive_column(row)] > 0,
        row_sum(row) == row[positive_column(row)],
    decreases row.len(),
{
    let j = positive_column(row);
    assert(0 <= j < row.len() && row[j] > 0);
    if j == row.len() - 1 {
        assert forall|k: int| 0 <= k < row.drop_last().len() implies row.drop_last()[k] == 0 by {
            assert(row.drop_last()[k] == row[k]);
            if row[k] > 0 {
                assert(k == j);
            }
        }
        lemma_row_sum_zero(row.drop_last());
    } else {
        assert(row.last() == 0) by {
            if row[row.len() - 1] > 0 {
                assert(row.len() - 1 == j);
            }
        }
        assert(single_positive(row.drop_last())) by {
            assert(row.drop_last()[j] == row[j]);
            assert(forall|k: int|
                0 <= k < row.drop_last().len() ==> row.drop_last()[k] == row[k]);
        }
        lemma_single_positive_row_sum(row.drop_last());
        assert(positive_column(row.drop_last()) == j) by {
            let j2 = positive_column(row.drop_last());
            assert(row.drop_last()[j2] == row[j2]);
        }
        assert(row.drop_last()[j] == row[j]);
    }
}

/// The text that generation is forced to produce starting after `c`:
/// as long as each current token's row has a single positive cell the
/// draw is pinned, and the text ends when the boundary token is drawn.
/// Anything else — an unresolvable token, an ambiguous row, or `fuel`
/// characters appended without reaching the boundary — forces nothing.
pub open spec fn forced_text(freqs: Seq<Seq<u64>>, v: Seq<char>, c: char, fuel: nat) -> Option<
    Seq<char>,
>
    decreases fuel,
{
    if !v.contains(c) || token_index(v, c) >= VOCAB_SIZE {
        None
    } else if !single_positive(freqs[token_index(v, c)]) {
        None
    } else {
        let nxt = v[positive_column(freqs[token_index(v, c)])];
        if nxt == TOKEN_END {
            Some(Seq::<char>::empty())
        } else if fuel == 0 {
            None
        } else {
            match forced_text(freqs, v, nxt, (fuel - 1) as nat) {
                None => None,
                Some(rest) => Some(seq![nxt] + rest),
            }
        }
    }
}

/// Unfolds one step of a forced text: the guards that let it exist and
/// the shape of its first character.
proof fn lemma_forced_text_step(freqs: Seq<Seq<u64>>, v: Seq<char>, c: char, fuel: nat)
    requires
        forced_text(freqs, v, c, fuel) is Some,
    ensures
        v.contains(c),
        0 <= token_index(v, c) < VOCAB_SIZE,
        single_positive(freqs[token_index(v, c)]),
        ({
            let nxt = v[positive_column(freqs[token_index(v, c)])];
            let s = forced_text(freqs, v, c, fuel)->0;
            if nxt == TOKEN_END {
                s == Seq::<char>::empty()
            } else {
                &&& fuel > 0
                &&& forced_text(freqs, v, nxt, (fuel - 1) as nat) is Some
                &&& s == seq![nxt] + forced_text(freqs, v, nxt, (fuel - 1) as nat)->0
                &&& s.len() >= 1
                &&& s[0] == nxt
            }
        }),
{
    assert(v.contains(c) && token_index(v, c) < VOCAB_SIZE);
    lemma_token_index_spec(v, c);
    assert(single_positive(freqs[token_index(v, c)]));
    let nxt = v[positive_column(freqs[token_index(v, c)])];
    if nxt != TOKEN_END {
        let s = forced_text(freqs, v, c, fuel)->0;
        assert(fuel > 0);
        assert(s == seq![nxt] + forced_text(freqs, v, nxt, (fuel - 1) as nat)->0);
        assert(s[0] == nxt);
    }
}

/// A forced text holds at most `fuel` characters.
proof fn lemma_forced_text_len(freqs: Seq<Seq<u64>>, v: Seq<char>, c: char, fuel: nat)
    requires
        forced_text(freqs, v, c, fuel) is Some,
    ensures
        forced_text(freqs, v, c, fuel)->0.len() <= fuel,
    decreases fuel,
{
    let nxt = v[positive_column(freqs[token_index(v, c)])];
    if nxt != TOKEN_END {
        lemma_forced_text_len(freqs, v, nxt, (fuel - 1) as nat);
    }
}

/// Frequency table over adjacent token pairs, with its vocabulary and
/// the seeded random source used for sampling.
pub struct Bigrams {
    frequencies: Vec<Vec<u64>>,
    vocabulary: Vocabulary,
    rng: StdRng,
}

impl Bigrams {
    /// The count matrix, row-indexed by the previous token's id and
    /// column-indexed by the next token's id.
    pub closed spec fn freqs(&self) -> Seq<Seq<u64>> {
        self.frequencies@.map_values(|r: Vec<u64>| r@)
    }

    /// The tokens seen so far, in first-seen order; a token's id is its
    /// position.
    pub closed spec fn vocab(&self) -> Seq<char> {
        self.vocabulary@
    }

    /// The count matrix is square with the pre-allocated bound, the
    /// vocabulary holds no duplicates, and every positive count points
    /// at ids the vocabulary has assigned.
    pub open spec fn wf(&self) -> bool {
        &&& self.freqs().len() == VOCAB_SIZE
        &&& forall|i: int| 0 <= i < VOCAB_SIZE ==> (#[trigger] self.freqs()[i]).len() == VOCAB_SIZE
        &&& self.vocab().no_duplicates()
        &&& forall|i: int, j: int|
            0 <= i < VOCAB_SIZE && 0 <= j < VOCAB_SIZE && #[trigger] self.freqs()[i][j] > 0 ==> i
                < self.vocab().len() && j < self.vocab().len()
    }

    /// Creates an empty model whose sampler is seeded with `seed`.
    pub fn new(seed: u64) -> (b: Bigrams)
        ensures
            b.wf(),
            b.vocab() == Seq::<char>::empty(),
            forall|i: int, j: int|
                0 <= i < VOCAB_SIZE && 0 <= j < VOCAB_SIZE ==> #[trigger] b.freqs()[i][j] == 0,
    {
        let mut frequencies: Vec<Vec<u64>> = Vec::new();
        let mut i: usize = 0;
        while i < VOCAB_SIZE
            invariant
                0 <= i <= VOCAB_SIZE,
                frequencies@.len() == i,
                forall|a: int|
                    0 <= a < i ==> (#[trigger] frequencies@[a])@.len() == VOCAB_SIZE,
                forall|a: int, c: int|
                    0 <= a < i && 0 <= c < VOCAB_SIZE ==> #[trigger] frequencies@[a]@[c] == 0,
            decreases VOCAB_SIZE - i,
        {
            let mut row: Vec<u64> = Vec::new();
            let mut j: usize = 0;
            while j < VOCAB_SIZE
                invariant
                    0 <= j <= VOCAB_SIZE,
                    row@.len() == j,
                    forall|c: int| 0 <= c < j ==> row@[c] == 0,
                decreases VOCAB_SIZE - j,
            {
                row.push(0);
                j = j + 1;
            }
            frequencies.push(row);
            i = i + 1;
        }
        Bigrams { frequencies, vocabulary: Vocabulary::new(), rng: std_rng_from_seed(seed) }
    }

    /// The vocabulary the model has built so far.
    pub fn vocabulary(&self) -> (v: &Vocabulary)
        ensures
            v@ == self.vocab(),
    {
        &self.vocabulary
    }

    /// The recorded count of the transition `prev_id -> next_id`.
    pub fn frequency(&self, prev_id: usize, next_id: usize) -> (r: Option<u64>)
        requires
            self.wf(),
        ensures
            r == (if prev_id < VOCAB_SIZE && next_id < VOCAB_SIZE {
                Some(self.freqs()[prev_id as int][next_id as int])
            } else {
                None
            }),
    {
        if prev_id < VOCAB_SIZE && next_id < VOCAB_SIZE {
            proof {
                assert(self.frequencies@.len() == self.freqs().len());
                assert(self.frequencies@[prev_id as int]@ == self.freqs()[prev_id as int]);
            }
            Some(self.frequencies[prev_id][next_id])
        } else {
            None
        }
    }

    /// Records one observed transition from `token1` to `token2`.
    ///
    /// Both tokens are resolved to ids, each added to the vocabulary
    /// when new; when either id reaches the pre-allocated matrix bound
    /// the count matrix is left unchanged and the sizing violation is
    /// reported, with the vocabulary still extended.
    pub fn increment(&mut self, token1: char, token2: char) -> (r: Result<(), BigramsError>)
        requires
            old(self).wf(),
            old(self).vocab().len() + 2 < usize::MAX,
            forall|i: int, j: int|
                0 <= i < VOCAB_SIZE && 0 <= j < VOCAB_SIZE ==> #[trigger] old(self).freqs()[i][j]
                    < u64::MAX,
        ensures
            final(self).wf(),
            final(self).vocab() == extend_one(extend_one(old(self).vocab(), token1), token2),
            ({
                let v2 = extend_one(extend_one(old(self).vocab(), token1), token2);
                let i1 = token_index(v2, token1);
                let i2 = token_index(v2, token2);
                if i1 < VOCAB_SIZE && i2 < VOCAB_SIZE {
                    &&& r is Ok
                    &&& final(self).freqs() == old(self).freqs().update(
                        i1,
                        old(self).freqs()[i1].update(
                            i2,
                            (old(self).freqs()[i1][i2] + 1) as u64,
                        ),
                    )
                } else {
                    &&& r == Err::<(), BigramsError>(BigramsError::TokenOutOfBounds)
                    &&& final(self).freqs() == old(self).freqs()
                }
            }),
    {
        let ghost v0 = self.vocab();
        let token1_id = if self.vocabulary.has_token(token1) {
            self.vocabulary.token_to_id(token1).unwrap()
        } else {
            self.vocabulary.add_token(token1)
        };
        let ghost v1 = self.vocab();
        proof {
            assert(v1 == extend_one(v0, token1));
            crate::corpus::lemma_extend_one(v0, token1);
            if !v0.contains(token1) {
                lemma_token_index_unique(v1, token1, v0.len() as int);
            }
            assert(token1_id == token_index(v1, token1));
            assert(v1.contains(token1));
        }
        let token2_id = if self.vocabulary.has_token(token2) {
            self.vocabulary.token_to_id(token2).unwrap()
        } else {
            self.vocabulary.add_token(token2)
        };
        let ghost v2 = self.vocab();
        proof {
            assert(v2 == extend_one(v1, token2));
            if !v1.contains(token2) {
                lemma_token_index_unique(v2, token2, v1.len() as int);
            }
            assert(token2_id == token_index(v2, token2));
            crate::corpus::lemma_extend_one(v1, token2);
            lemma_token_index_prefix(v1, v2, token1);
            assert(token1_id == token_index(v2, token1));
            lemma_token_index_spec(v2, token1);
            lemma_token_index_spec(v2, token2);
        }
        if token1_id >= VOCAB_SIZE || token2_id >= VOCAB_SIZE {
            return Err(BigramsError::TokenOutOfBounds);
        }
        let ghost f0 = self.freqs();
        proof {
            assert(self.frequencies@.len() == f0.len());
            assert(self.frequencies@[token1_id as int]@ == f0[token1_id as int]);
        }
        let current = self.frequencies[token1_id][token2_id];
        self.frequencies[token1_id][token2_id] = current + 1;
        proof {
            assert(self.freqs() =~= f0.update(
                token1_id as int,
                f0[token1_id as int].update(
                    token2_id as int,
                    (f0[token1_id as int][token2_id as int] + 1) as u64,
                ),
            ));
        }
        Ok(())
    }

    /// Draws the next token after `token`, with probability proportional
    /// to the recorded transition counts out of `token`.
    ///
    /// Fails when `token` was never seen, when its id lies outside the
    /// count matrix, or when its row has no positive weight total the
    /// sampler accepts.
    pub fn sample_next_token(&mut self, token: char) -> (r: Result<char, BigramsError>)
        requires
            old(self).wf(),
        ensures
            final(self).wf(),
            final(self).vocab() == old(self).vocab(),
            final(self).freqs() == old(self).freqs(),
            !old(self).vocab().contains(token) ==> r == Err::<char, BigramsError>(
                BigramsError::UnknownToken,
            ),
            old(self).vocab().contains(token) && token_index(old(self).vocab(), token)
                >= VOCAB_SIZE ==> r == Err::<char, BigramsError>(BigramsError::TokenOutOfBounds),
            old(self).vocab().contains(token) && token_index(old(self).vocab(), token)
                < VOCAB_SIZE ==> ({
                let row = old(self).freqs()[token_index(old(self).vocab(), token)];
                if 0 < row_sum(row) && row_sum(row) <= u64::MAX {
                    &&& r is Ok
                    &&& observed(old(self).freqs(), old(self).vocab(), (token, r->Ok_0))
                } else {
                    r == Err::<char, BigramsError>(BigramsError::NoObservedTransitions)
                }
            }),
    {
        let token_id = match self.vocabulary.token_to_id(token) {
            None => {
                return Err(BigramsError::UnknownToken);
            },
            Some(i) => i,
        };
        if token_id >= VOCAB_SIZE {
            return Err(BigramsError::TokenOutOfBounds);
        }
        proof {
            assert(self.frequencies@.len() == self.freqs().len());
            assert(self.frequencies@[token_id as int]@ == self.freqs()[token_id as int]);
        }
        let wr = match weighted_index_new(&self.frequencies[token_id]) {
            None => {
                return Err(BigramsError::NoObservedTransitions);
            },
            Some(w) => w,
        };
        let next_id = weighted_index_sample(&wr, &mut self.rng);
        proof {
            assert(self.freqs()[token_id as int][next_id as int] > 0);
        }
        let c = self.vocabulary.id_to_token(next_id).unwrap();
        proof {
            lemma_token_index_distinct(self.vocab(), next_id as int);
        }
        Ok(c)
    }

    /// Generates one line: starting at the boundary token, repeatedly
    /// draws the next token and appends it, stopping the moment the
    /// boundary token is drawn, which is never appended.
    ///
    /// Every adjacent pair of the boundary-framed result is an observed
    /// transition. A line that reaches the maximum allowed length
    /// without drawing the boundary token is abandoned. The fate of the
    /// first draw is fixed by the model alone: an unknown boundary
    /// token, a boundary id past the matrix bound, and a boundary row
    /// the sampler rejects each force their error; after a first
    /// successful draw only the rejected-row and length-cap errors can
    /// occur, since every drawn token's id is in bounds. And on a table
    /// whose rows pin every draw, generation is guaranteed to succeed
    /// and return the one forced line.
    pub fn generate_new_text(&mut self) -> (r: Result<String, BigramsError>)
        requires
            old(self).wf(),
        ensures
            final(self).wf(),
            final(self).vocab() == old(self).vocab(),
            final(self).freqs() == old(self).freqs(),
            (r == Err::<String, BigramsError>(BigramsError::UnknownToken)) <==> !old(
                self,
            ).vocab().contains(TOKEN_START),
            (r == Err::<String, BigramsError>(BigramsError::TokenOutOfBounds)) <==> (old(
                self,
            ).vocab().contains(TOKEN_START) && token_index(old(self).vocab(), TOKEN_START)
                >= VOCAB_SIZE),
            old(self).vocab().contains(TOKEN_START) && token_index(old(self).vocab(), TOKEN_START)
                < VOCAB_SIZE && !start_sampleable(old(self).freqs(), old(self).vocab()) ==> r
                == Err::<String, BigramsError>(BigramsError::NoObservedTransitions),
            ({
                let ft = forced_text(
                    old(self).freqs(),
                    old(self).vocab(),
                    TOKEN_START,
                    (GENERATION_LIMIT - 1) as nat,
                );
                ft is Some ==> r is Ok && r->Ok_0@ == ft->0
            }),
            r is Ok ==> ({
                let s = r->Ok_0;
                &&& s@.len() <= GENERATION_LIMIT
                &&& forall|k: int| 0 <= k < s@.len() ==> s@[k] != TOKEN_END
                &&& forall|k: int|
                    0 <= k < line_pairs(s@).len() ==> observed(
                        old(self).freqs(),
                        old(self).vocab(),
                        #[trigger] line_pairs(s@)[k],
                    )
            }),
    {
        if !self.vocabulary.has_token(TOKEN_START) {
            return Err(BigramsError::UnknownToken);
        }
        let mut text: Vec<char> = Vec::new();
        let mut last_token = TOKEN_START;
        let ghost ft = forced_text(
            old(self).freqs(),
            old(self).vocab(),
            TOKEN_START,
            (GENERATION_LIMIT - 1) as nat,
        );
        proof {
            assert(framed_line(text@)[0] == TOKEN_START);
            if ft is Some {
                lemma_forced_text_len(
                    old(self).freqs(),
                    old(self).vocab(),
                    TOKEN_START,
                    (GENERATION_LIMIT - 1) as nat,
                );
                assert(ft->0.take(0) =~= Seq::<char>::empty());
                assert(ft->0.skip(0) =~= ft->0);
            }
        }
        while text.len() < GENERATION_LIMIT
            invariant
                self.wf(),
                self.vocab() == old(self).vocab(),
                self.freqs() == old(self).freqs(),
                self.vocab().contains(TOKEN_START),
                text@.len() <= GENERATION_LIMIT,
                forall|k: int| 0 <= k < text@.len() ==> text@[k] != TOKEN_END,
                last_token == framed_line(text@)[text@.len() as int],
                self.vocab().contains(last_token),
                text@.len() == 0 ==> last_token == TOKEN_START,
                text@.len() > 0 ==> token_index(self.vocab(), last_token) < VOCAB_SIZE,
                text@.len() > 0 ==> start_sampleable(self.freqs(), self.vocab()),
                ft == forced_text(
                    old(self).freqs(),
                    old(self).vocab(),
                    TOKEN_START,
                    (GENERATION_LIMIT - 1) as nat,
                ),
                ft is Some ==> {
                    &&& ft->0.len() <= GENERATION_LIMIT - 1
                    &&& text@.len() <= ft->0.len()
                    &&& text@ == ft->0.take(text@.len() as int)
                    &&& forced_text(
                        old(self).freqs(),
                        old(self).vocab(),
                        last_token,
                        (GENERATION_LIMIT - 1 - text@.len()) as nat,
                    ) == Some(ft->0.skip(text@.len() as int))
                },
                forall|k: int|
                    0 <= k < text@.len() ==> observed(
                        self.freqs(),
                        self.vocab(),
                        #[trigger] line_pairs(text@)[k],
                    ),
            decreases GENERATION_LIMIT - text@.len(),
        {
            let sampled = self.sample_next_token(last_token);
            let next = match sampled {
                Err(e) => {
                    proof {
                        // The draw's token is in the vocabulary, so the
                        // unknown-token error is impossible here; past
                        // the first draw its id is in bounds too, and
                        // the boundary row has already been accepted.
                        if text@.len() == 0 {
                            assert(last_token == TOKEN_START);
                        } else {
                            assert(e == BigramsError::NoObservedTransitions);
                        }
                        // A forced table pins a successful draw, so no
                        // error can coexist with it.
                        if ft is Some {
                            let f = (GENERATION_LIMIT - 1 - text@.len()) as nat;
                            lemma_forced_text_step(
                                old(self).freqs(),
                                old(self).vocab(),
                                last_token,
                                f,
                            );
                            let idx = token_index(old(self).vocab(), last_token);
                            lemma_single_positive_row_sum(old(self).freqs()[idx]);
                            assert(false);
                        }
                    }
                    return Err(e);
                },
                Ok(t) => t,
            };
            proof {
                // A successful draw pins the sampled row as accepted.
                if text@.len() == 0 {
                    assert(token_index(self.vocab(), TOKEN_START) < VOCAB_SIZE);
                    assert(start_sampleable(self.freqs(), self.vocab()));
                }
                // On a forced table the drawn token is the pinned one.
                if ft is Some {
                    let f = (GENERATION_LIMIT - 1 - text@.len()) as nat;
                    lemma_forced_text_step(old(self).freqs(), old(self).vocab(), last_token, f);
                    let idx = token_index(self.vocab(), last_token);
                    let row = self.freqs()[idx];
                    lemma_single_positive_row_sum(row);
                    assert(self.vocab().contains(next));
                    lemma_token_index_spec(self.vocab(), next);
                    assert(row[token_index(self.vocab(), next)] > 0);
                    assert(token_index(self.vocab(), next) == positive_column(row));
                    assert(next == self.vocab()[positive_column(row)]);
                }
            }
            if next == TOKEN_END {
                proof {
                    let lp = line_pairs(text@);
                    assert(lp[text@.len() as int] == (last_token, next));
                    assert(forall|k: int|
                        0 <= k < lp.len() ==> observed(
                            self.freqs(),
                            self.vocab(),
                            #[trigger] lp[k],
                        ));
                    if ft is Some {
                        let f = (GENERATION_LIMIT - 1 - text@.len()) as nat;
                        lemma_forced_text_step(
                            old(self).freqs(),
                            old(self).vocab(),
                            last_token,
                            f,
                        );
                        let rem = ft->0.skip(text@.len() as int);
                        assert(rem =~= Seq::<char>::empty());
                        assert(ft->0.len() == text@.len());
                        assert(text@ =~= ft->0);
                    }
                }
                return Ok(string_from_chars(&text));
            }
            let ghost told = text@;
            text.push(next);
            proof {
                assert forall|i: int| 0 <= i <= told.len() implies framed_line(text@)[i]
                    == framed_line(told)[i] by {
                    if i > 0 {
                        assert(framed_line(text@)[i] == told[i - 1]);
                        assert(framed_line(told)[i] == told[i - 1]);
                    }
                }
                assert forall|k: int| 0 <= k < text@.len() implies observed(
                    self.freqs(),
                    self.vocab(),
                    #[trigger] line_pairs(text@)[k],
                ) by {
                    if k < told.len() {
                        assert(line_pairs(text@)[k] == line_pairs(told)[k]);
                        assert(observed(self.freqs(), self.vocab(), line_pairs(told)[k]));
                    } else {
                        assert(framed_line(text@)[k] == last_token);
                        assert(framed_line(text@)[k + 1] == next);
                        assert(line_pairs(text@)[k] == (last_token, next));
                    }
                }
                assert(framed_line(text@)[text@.len() as int] == next);
                assert(observed(self.freqs(), self.vocab(), (last_token, next)));
                assert(token_index(self.vocab(), next) < VOCAB_SIZE);
                if ft is Some {
                    let f = (GENERATION_LIMIT - 1 - told.len()) as nat;
                    lemma_forced_text_step(old(self).freqs(), old(self).vocab(), last_token, f);
                    let rem = ft->0.skip(told.len() as int);
                    let rest = forced_text(old(self).freqs(), old(self).vocab(), next, (f - 1) as nat);
                    assert(f > 0);
                    assert(rest is Some);
                    assert(rem == seq![next] + rest->0);
                    assert(ft->0[told.len() as int] == rem[0]);
                    assert(text@ =~= ft->0.take(text@.len() as int));
                    assert(rest->0 =~= rem.skip(1));
                    assert(rem.skip(1) =~= ft->0.skip(text@.len() as int));
                    assert(forced_text(
                        old(self).freqs(),
                        old(self).vocab(),
                        next,
                        (GENERATION_LIMIT - 1 - text@.len()) as nat,
                    ) == Some(ft->0.skip(text@.len() as int)));
                }
            }
            last_token = next;
        }
        proof {
            if ft is Some {
                assert(false);
            }
        }
        Err(BigramsError::GenerationLimitExceeded)
    }
}

/// Ingests a corpus: frames every line with the boundary token and
/// records one transition per adjacent token pair.
///
/// Succeeds exactly when the corpus fits the pre-allocated matrix
/// bound, and then returns a model whose vocabulary lists the corpus
/// tokens in first-seen order and whose cell `(i, j)` counts exactly
/// the occurrences of the id pair `(i, j)` among the corpus pairs. The
/// sampler is seeded with a fixed seed, so generation from equal
/// corpora is reproducible.
#[verifier::rlimit(60)]
pub fn count_frequencies(lines: &Vec<String>) -> (r: Result<Bigrams, BigramsError>)
    requires
        total_pairs(char_views(lines@)) <= u64::MAX,
        2 * total_pairs(char_views(lines@)) + 2 < usize::MAX,
    ensures
        ({
            let ps = corpus_pairs(char_views(lines@));
            let v = pairs_vocab(ps);
            &&& (r is Ok <==> v.len() <= VOCAB_SIZE)
            &&& (r is Err ==> r->Err_0 == BigramsError::TokenOutOfBounds)
            &&& (r is Ok ==> ({
                let b = r->Ok_0;
                &&& b.wf()
                &&& b.vocab() == v
                &&& forall|i: int, j: int|
                    0 <= i < VOCAB_SIZE && 0 <= j < VOCAB_SIZE ==> #[trigger] b.freqs()[i][j]
                        == count_pair(id_pairs(ps, v), i, j)
                &&& forall|k: int|
                    0 <= k < ps.len() ==> 0 <= (#[trigger] id_pairs(ps, v)[k]).0 < VOCAB_SIZE
                        && 0 <= id_pairs(ps, v)[k].1 < VOCAB_SIZE
            }))
        }),
{
    let ghost lv = char_views(lines@);
    let ghost full = corpus_pairs(lv);
    let mut bigrams = Bigrams::new(10);
    let mut li: usize = 0;
    while li < lines.len()
        invariant
            lv == char_views(lines@),
            full == corpus_pairs(lv),
            total_pairs(lv) <= u64::MAX,
            2 * total_pairs(lv) + 2 < usize::MAX,
            0 <= li <= lines@.len(),
            bigrams.wf(),
            bigrams.vocab().len() <= VOCAB_SIZE,
            bigrams.vocab() == pairs_vocab(corpus_pairs(lv.take(li as int))),
            corpus_pairs(lv.take(li as int)) == full.take(corpus_pairs(lv.take(li as int)).len() as int),
            forall|i: int, j: int|
                0 <= i < VOCAB_SIZE && 0 <= j < VOCAB_SIZE ==> #[trigger] bigrams.freqs()[i][j]
                    == count_pair(
                    id_pairs(corpus_pairs(lv.take(li as int)), bigrams.vocab()),
                    i,
                    j,
                ),
            forall|k: int|
                0 <= k < corpus_pairs(lv.take(li as int)).len() ==> bigrams.vocab().contains(
                    (#[trigger] corpus_pairs(lv.take(li as int))[k]).0,
                ) && bigrams.vocab().contains(corpus_pairs(lv.take(li as int))[k].1),
        decreases lines@.len() - li,
    {
        let ghost vprev = bigrams.vocab();
        let ghost pprev = corpus_pairs(lv.take(li as int));
        let line = &lines[li];
        let ghost lseq = lv[li as int];
        let ghost framed = framed_line(lseq);
        let ghost lp = line_pairs(lseq);
        let n = line.as_str().unicode_len();
        let mut last_token = TOKEN_START;
        let mut ci: usize = 0;
        proof {
            assert(framed[0] == TOKEN_START);
            assert(lv.take(li as int + 1).drop_last() =~= lv.take(li as int));
            assert(lv.take(li as int + 1).last() == lseq);
            assert(total_pairs(lv.take(li as int + 1)) == total_pairs(lv.take(li as int)) + n
                + 1);
            lemma_total_pairs_prefix(lv, li as int + 1);
            lemma_total_pairs_prefix(lv, li as int);
            assert(n + 1 < usize::MAX);
            assert(lp.take(0) =~= Seq::<(char, char)>::empty());
            assert(pprev + lp.take(0) =~= pprev);
            crate::corpus::lemma_corpus_pairs_count(lv.take(li as int));
        }
        while ci <= n
            invariant
                lv == char_views(lines@),
                full == corpus_pairs(lv),
                total_pairs(lv) <= u64::MAX,
                2 * total_pairs(lv) + 2 < usize::MAX,
                n + 1 < usize::MAX,
                0 <= li < lines@.len(),
                lseq == lv[li as int],
                line@ == lseq,
                framed == framed_line(lseq),
                lp == line_pairs(lseq),
                n == lseq.len(),
                vprev == pairs_vocab(corpus_pairs(lv.take(li as int))),
                pprev == corpus_pairs(lv.take(li as int)),
                total_pairs(lv.take(li as int)) + n + 1 <= total_pairs(lv),
                0 <= ci <= n + 1,
                pprev.len() + ci <= total_pairs(lv.take(li as int)) + n + 1,
                bigrams.wf(),
                bigrams.vocab().len() <= VOCAB_SIZE,
                bigrams.vocab() == pairs_vocab(pprev + lp.take(ci as int)),
                pprev + lp.take(ci as int) == full.take((pprev.len() + ci) as int),
                last_token == framed[ci as int],
                forall|i: int, j: int|
                    0 <= i < VOCAB_SIZE && 0 <= j < VOCAB_SIZE ==> #[trigger] bigrams.freqs()[i][j] == count_pair(
                        id_pairs(pprev + lp.take(ci as int), bigrams.vocab()),
                        i,
                        j,
                    ),
                forall|k: int|
                    0 <= k < (pprev + lp.take(ci as int)).len() ==> bigrams.vocab().contains(
                        (#[trigger] (pprev + lp.take(ci as int))[k]).0,
                    ) && bigrams.vocab().contains((pprev + lp.take(ci as int))[k].1),
            decreases n + 1 - ci,
        {
            let token = if ci < n {
                line.as_str().get_char(ci)
            } else {
                TOKEN_END
            };
            proof {
                assert(framed[ci + 1] == token);
            }
            let ghost vold = bigrams.vocab();
            let ghost fold = bigrams.freqs();
            let ghost pold = pprev + lp.take(ci as int);
            let ghost pnew = pprev + lp.take(ci as int + 1);
            proof {
                // The pair about to be recorded extends the processed
                // prefix of the corpus pairs.
                assert(lp.take(ci as int + 1) =~= lp.take(ci as int).push(lp[ci as int]));
                assert(pnew =~= pold.push((last_token, token)));
                assert(lv.take(li as int + 1).drop_last() =~= lv.take(li as int));
                assert(lv.take(li as int + 1).last() == lseq);
                assert(corpus_pairs(lv.take(li as int + 1)) == pprev + lp);
                lemma_corpus_pairs_prefix(lv, li as int + 1);
                assert(pnew =~= corpus_pairs(lv.take(li as int + 1)).take(pnew.len() as int));
                assert(pnew =~= full.take(pnew.len() as int));
                // Count capacity: every cell holds at most the number
                // of pairs processed so far, which the requires bound.
                crate::corpus::lemma_corpus_pairs_count(lv.take(li as int));
                assert(pold.len() < total_pairs(lv));
                assert forall|i: int, j: int|
                    0 <= i < VOCAB_SIZE && 0 <= j < VOCAB_SIZE implies #[trigger] bigrams.freqs()[i][j] < u64::MAX by {
                    crate::corpus::lemma_count_pair_bounds(id_pairs(pold, vold), i, j);
                }
                crate::corpus::lemma_pairs_vocab_len(pold);
            }
            let result = bigrams.increment(last_token, token);
            proof {
                let vnew = bigrams.vocab();
                assert(pnew.drop_last() =~= pold);
                assert(pnew.last() == (last_token, token));
                assert(pairs_vocab(pnew) == extend_one(
                    extend_one(pairs_vocab(pold), last_token),
                    token,
                ));
                assert(vnew == pairs_vocab(pnew));
                assert forall|k: int| 0 <= k < pold.len() implies vnew.contains(
                    (#[trigger] pold[k]).0,
                ) && vnew.contains(pold[k].1) && token_index(vnew, pold[k].0) == token_index(
                    vold,
                    pold[k].0,
                ) && token_index(vnew, pold[k].1) == token_index(vold, pold[k].1) by {
                    crate::corpus::lemma_extend_one(vold, last_token);
                    crate::corpus::lemma_extend_one(extend_one(vold, last_token), token);
                    lemma_token_index_prefix(vold, vnew, pold[k].0);
                    lemma_token_index_prefix(vold, vnew, pold[k].1);
                }
                assert(id_pairs(pold, vnew) =~= id_pairs(pold, vold));
                assert(id_pairs(pnew, vnew) =~= id_pairs(pold, vnew).push(
                    (token_index(vnew, last_token), token_index(vnew, token)),
                ));
            }
            if let Err(e) = result {
                proof {
                    // The offending id lies past the matrix bound, so
                    // the full corpus vocabulary is too large as well.
                    let vnew = bigrams.vocab();
                    crate::corpus::lemma_extend_one(vold, last_token);
                    crate::corpus::lemma_extend_one(extend_one(vold, last_token), token);
                    assert(vnew.contains(last_token));
                    assert(vnew.contains(token));
                    lemma_token_index_spec(vnew, last_token);
                    lemma_token_index_spec(vnew, token);
                    assert(vnew.len() > VOCAB_SIZE);
                    lemma_pairs_vocab_prefix(full, pnew.len() as int);
                    assert(pairs_vocab(full.take(pnew.len() as int)) == vnew);
                    assert(pairs_vocab(full).len() >= vnew.len());
                }
                return Err(e);
            }
            proof {
                let vnew = bigrams.vocab();
                crate::corpus::lemma_extend_one(vold, last_token);
                crate::corpus::lemma_extend_one(extend_one(vold, last_token), token);
                assert(vnew.contains(last_token));
                assert(vnew.contains(token));
                lemma_token_index_spec(vnew, last_token);
                lemma_token_index_spec(vnew, token);
                let i1 = token_index(vnew, last_token);
                let i2 = token_index(vnew, token);
                assert(bigrams.freqs() == fold.update(
                    i1,
                    fold[i1].update(i2, (fold[i1][i2] + 1) as u64),
                ));
                assert forall|i: int, j: int|
                    0 <= i < VOCAB_SIZE && 0 <= j < VOCAB_SIZE implies #[trigger] bigrams.freqs()[i][j] == count_pair(id_pairs(pnew, vnew), i, j) by {
                    let ids = id_pairs(pnew, vnew);
                    assert(ids == id_pairs(pold, vold).push((i1, i2)));
                    assert(ids.drop_last() =~= id_pairs(pold, vold));
                    assert(ids.last() == (i1, i2));
                    assert(count_pair(ids, i, j) == count_pair(id_pairs(pold, vold), i, j) + if (
                    i1, i2) == (i, j) {
                        1int
                    } else {
                        0int
                    });
                }
                assert(vnew.len() <= VOCAB_SIZE) by {
                    crate::corpus::lemma_extend_one(vold, last_token);
                    crate::corpus::lemma_extend_one(extend_one(vold, last_token), token);
                    if !vold.contains(last_token) {
                        lemma_token_index_unique(
                            extend_one(vold, last_token),
                            last_token,
                            vold.len() as int,
                        );
                        lemma_token_index_prefix(extend_one(vold, last_token), vnew, last_token);
                    }
                    if !extend_one(vold, last_token).contains(token) {
                        lemma_token_index_unique(
                            vnew,
                            token,
                            extend_one(vold, last_token).len() as int,
                        );
                    }
                }
            }
            last_token = token;
            ci = ci + 1;
        }
        proof {
            assert(lp.take(n as int + 1) =~= lp);
            assert(corpus_pairs(lv.take(li as int + 1)) == pprev + lp);
        }
        li = li + 1;
    }
    proof {
        assert(lv.take(lines@.len() as int) =~= lv);
        let v = bigrams.vocab();
        assert forall|k: int| 0 <= k < full.len() implies 0 <= (#[trigger] id_pairs(full, v)[
        k]).0 < VOCAB_SIZE && 0 <= id_pairs(full, v)[k].1 < VOCAB_SIZE by {
            lemma_token_index_spec(v, full[k].0);
            lemma_token_index_spec(v, full[k].1);
        }
    }
    Ok(bigrams)
}

/// The id pairs of a token pair sequence, with each token resolved to
/// its id in the vocabulary `v`.
pub open spec fn id_pairs(ps: Seq<(char, char)>, v: Seq<char>) -> Seq<(int, int)> {
    ps.map_values(|p: (char, char)| (token_index(v, p.0), token_index(v, p.1)))
}

/// Law: after ingesting any corpus, every row of the count matrix sums
/// to the number of observed transitions that start at that row's id.
pub proof fn lemma_bigram_row_sum(b: Bigrams, ps: Seq<(int, int)>, r: int)
    requires
        b.wf(),
        0 <= r < VOCAB_SIZE,
        forall|i: int, j: int|
            0 <= i < VOCAB_SIZE && 0 <= j < VOCAB_SIZE ==> #[trigger] b.freqs()[i][j]
                == count_pair(ps, i, j),
        forall|k: int|
            0 <= k < ps.len() ==> 0 <= (#[trigger] ps[k]).0 < VOCAB_SIZE && 0 <= ps[k].1
                < VOCAB_SIZE,
    ensures
        row_sum(b.freqs()[r]) == count_first(ps, r),
{
    lemma_row_sum_invariant(ps, r, b.freqs()[r]);
}

/// Law: after ingesting any corpus, the count matrix totals exactly the
/// corpus's pair count: the sum of `length + 1` over its lines.
pub proof fn lemma_bigram_matrix_total(b: Bigrams, lines: Seq<Seq<char>>)
    requires
        b.wf(),
        forall|i: int, j: int|
            0 <= i < VOCAB_SIZE && 0 <= j < VOCAB_SIZE ==> #[trigger] b.freqs()[i][j]
                == count_pair(id_pairs(corpus_pairs(lines), b.vocab()), i, j),
        forall|k: int|
            0 <= k < corpus_pairs(lines).len() ==> 0 <= (#[trigger] id_pairs(
                corpus_pairs(lines),
                b.vocab(),
            )[k]).0 < VOCAB_SIZE && 0 <= id_pairs(corpus_pairs(lines), b.vocab())[k].1
                < VOCAB_SIZE,
    ensures
        matrix_total(b.freqs()) == total_pairs(lines),
{
    let ps = id_pairs(corpus_pairs(lines), b.vocab());
    assert(ps.len() == corpus_pairs(lines).len());
    lemma_matrix_total_invariant(ps, b.freqs(), VOCAB_SIZE as int);
    crate::corpus::lemma_corpus_pairs_count(lines);
}

} // verus!
