//! Dataset construction, one-hot encoding and computation-graph assembly
//! for the average negative log-likelihood model.

use vstd::prelude::*;
use alpha_micrograd_rust::value::Expr;
use crate::TOKEN_END;
use crate::TOKEN_START;
use crate::corpus::char_views;
use crate::corpus::corpus_pairs;
use crate::corpus::corpus_vocab;
use crate::corpus::extend_one;
use crate::corpus::extend_vocab;
use crate::corpus::framed_line;
use crate::corpus::lemma_corpus_vocab_len;
use crate::corpus::lemma_extend_one;
use crate::corpus::lemma_extend_vocab_len;
use crate::corpus::lemma_total_pairs_prefix;
use crate::corpus::line_pairs;
use crate::corpus::total_pairs;
use crate::vocabulary::Vocabulary;
use crate::vocabulary::lemma_token_index_prefix;
use crate::vocabulary::lemma_token_index_spec;
use crate::vocabulary::token_index;

verus! {

/// Turns raw lines into ordered (input id, target id) pairs, building
/// the vocabulary as a side effect.
///
/// The boundary token is registered first, so it always gets id 0. Each
/// line is framed by the boundary token on both sides and scanned with a
/// sliding window of size 2: a line of length `L` yields `L + 1` pairs.
pub fn generate_dataset(lines: &Vec<String>) -> (r: (Vec<usize>, Vec<usize>, Vocabulary))
    requires
        total_pairs(char_views(lines@)) < usize::MAX,
    ensures
        ({
            let (xs, ys, voc) = r;
            let lv = char_views(lines@);
            let ps = corpus_pairs(lv);
            &&& voc@ == corpus_vocab(lv)
            &&& voc.wf()
            &&& voc@.len() >= 1
            &&& voc@[0] == TOKEN_START
            &&& xs@.len() == ps.len()
            &&& ys@.len() == ps.len()
            &&& forall|k: int|
                0 <= k < ps.len() ==> xs@[k] == token_index(voc@, (#[trigger] ps[k]).0)
                    && voc@.contains(ps[k].0) && xs@[k] < voc@.len()
            &&& forall|k: int|
                0 <= k < ps.len() ==> ys@[k] == token_index(voc@, (#[trigger] ps[k]).1)
                    && voc@.contains(ps[k].1) && ys@[k] < voc@.len()
        }),
{
    let ghost lv = char_views(lines@);
    let mut vocabulary = Vocabulary::new();
    vocabulary.add_token(TOKEN_START);
    assert(vocabulary@ =~= corpus_vocab(lv.take(0)));
    assert(vocabulary@.contains(TOKEN_START)) by {
        assert(vocabulary@[0] == TOKEN_START);
    }
    let mut xs: Vec<usize> = Vec::new();
    let mut ys: Vec<usize> = Vec::new();
    let mut li: usize = 0;
    while li < lines.len()
        invariant
            lv == char_views(lines@),
            total_pairs(lv) < usize::MAX,
            0 <= li <= lines@.len(),
            vocabulary.wf(),
            vocabulary@ == corpus_vocab(lv.take(li as int)),
            vocabulary@.len() >= 1,
            vocabulary@[0] == TOKEN_START,
            vocabulary@.contains(TOKEN_START),
            xs@.len() == corpus_pairs(lv.take(li as int)).len(),
            ys@.len() == corpus_pairs(lv.take(li as int)).len(),
            forall|k: int|
                0 <= k < xs@.len() ==> xs@[k] == token_index(
                    vocabulary@,
                    (#[trigger] corpus_pairs(lv.take(li as int))[k]).0,
                ) && vocabulary@.contains(corpus_pairs(lv.take(li as int))[k].0),
            forall|k: int|
                0 <= k < ys@.len() ==> ys@[k] == token_index(
                    vocabulary@,
                    (#[trigger] corpus_pairs(lv.take(li as int))[k]).1,
                ) && vocabulary@.contains(corpus_pairs(lv.take(li as int))[k].1),
        decreases lines@.len() - li,
    {
        let ghost vprev = vocabulary@;
        let ghost pprev = corpus_pairs(lv.take(li as int));
        let line = &lines[li];
        let ghost lseq = lv[li as int];
        assert(lseq == line@);
        let ghost framed = framed_line(lseq);
        let ghost lp = line_pairs(lseq);
        let n = line.as_str().unicode_len();
        let mut last_token = TOKEN_START;
        let mut ci: usize = 0;
        proof {
            assert(framed[0] == TOKEN_START);
            assert(lseq.take(0) =~= Seq::<char>::empty());
            assert(lv.take(li as int + 1).drop_last() =~= lv.take(li as int));
            assert(lv.take(li as int + 1).last() == lseq);
            assert(total_pairs(lv.take(li as int + 1)) == total_pairs(lv.take(li as int)) + n
                + 1);
            lemma_total_pairs_prefix(lv, li as int + 1);
            lemma_total_pairs_prefix(lv, li as int);
            assert(n + 1 < usize::MAX);
        }
        while ci <= n
            invariant
                lv == char_views(lines@),
                total_pairs(lv) < usize::MAX,
                n + 1 < usize::MAX,
                0 <= li < lines@.len(),
                lseq == lv[li as int],
                line@ == lseq,
                framed == framed_line(lseq),
                lp == line_pairs(lseq),
                n == lseq.len(),
                vprev == corpus_vocab(lv.take(li as int)),
                pprev == corpus_pairs(lv.take(li as int)),
                0 <= ci <= n + 1,
                vocabulary.wf(),
                vocabulary@ == extend_vocab(
                    vprev,
                    lseq.take(if ci <= n { ci as int } else { n as int }),
                ),
                vocabulary@.len() >= 1,
                vocabulary@[0] == TOKEN_START,
                vocabulary@.contains(TOKEN_START),
                vocabulary@.contains(last_token),
                last_token == framed[ci as int],
                xs@.len() == pprev.len() + ci,
                ys@.len() == pprev.len() + ci,
                forall|k: int|
                    0 <= k < xs@.len() ==> xs@[k] == token_index(
                        vocabulary@,
                        (#[trigger] (pprev + lp.take(ci as int))[k]).0,
                    ) && vocabulary@.contains((pprev + lp.take(ci as int))[k].0),
                forall|k: int|
                    0 <= k < ys@.len() ==> ys@[k] == token_index(
                        vocabulary@,
                        (#[trigger] (pprev + lp.take(ci as int))[k]).1,
                    ) && vocabulary@.contains((pprev + lp.take(ci as int))[k].1),
            decreases n + 1 - ci,
        {
            let token = if ci < n {
                line.as_str().get_char(ci)
            } else {
                TOKEN_END
            };
            proof {
                assert(framed[ci + 1] == token);
            }
            let ghost vold = vocabulary@;
            if !vocabulary.has_token(token) {
                proof {
                    // The vocabulary never outgrows one token per pair
                    // of the corpus, so the next id fits in usize.
                    lemma_corpus_vocab_len(lv.take(li as int));
                    lemma_extend_vocab_len(vprev, lseq.take(ci as int));
                    assert(lv.take(li as int + 1).drop_last() =~= lv.take(li as int));
                    assert(lv.take(li as int + 1).last() == lseq);
                    assert(total_pairs(lv.take(li as int + 1)) == total_pairs(lv.take(li as int))
                        + n + 1);
                    lemma_total_pairs_prefix(lv, li as int + 1);
                    assert(vocabulary@.len() < usize::MAX);
                }
                vocabulary.add_token(token);
            }
            proof {
                assert(vocabulary@ == extend_one(vold, token));
                lemma_extend_one(vold, token);
            }
            let ix1 = vocabulary.token_to_id(last_token).unwrap();
            let ix2 = vocabulary.token_to_id(token).unwrap();
            xs.push(ix1);
            ys.push(ix2);
            proof {
                let vnew = vocabulary@;
                let pold = pprev + lp.take(ci as int);
                let pnew = pprev + lp.take(ci as int + 1);
                assert(lp.take(ci as int + 1) =~= lp.take(ci as int).push(lp[ci as int]));
                assert(pnew =~= pold.push((last_token, token)));
                assert forall|k: int| 0 <= k < pold.len() implies token_index(
                    vnew,
                    (#[trigger] pold[k]).0,
                ) == token_index(vold, pold[k].0) && token_index(vnew, pold[k].1) == token_index(
                    vold,
                    pold[k].1,
                ) && vnew.contains(pold[k].0) && vnew.contains(pold[k].1) by {
                    lemma_token_index_prefix(vold, vnew, pold[k].0);
                    lemma_token_index_prefix(vold, vnew, pold[k].1);
                }
                if ci < n {
                    assert(lseq.take(ci as int + 1).drop_last() =~= lseq.take(ci as int));
                    assert(extend_vocab(vprev, lseq.take(ci as int + 1)) == extend_one(
                        extend_vocab(vprev, lseq.take(ci as int)),
                        lseq[ci as int],
                    ));
                } else {
                    assert(token == TOKEN_START);
                    assert(vold.contains(token));
                    assert(vnew == vold);
                }
            }
            last_token = token;
            ci = ci + 1;
        }
        proof {
            assert(lseq.take(n as int) =~= lseq);
            assert(lv.take(li as int + 1).drop_last() =~= lv.take(li as int));
            assert(lv.take(li as int + 1).last() == lseq);
            assert(corpus_vocab(lv.take(li as int + 1)) == extend_vocab(vprev, lseq));
            assert(lp.take(n as int + 1) =~= lp);
            assert(corpus_pairs(lv.take(li as int + 1)) == pprev + lp);
        }
        li = li + 1;
    }
    proof {
        assert(lv.take(lines@.len() as int) =~= lv);
        let ps = corpus_pairs(lv);
        assert forall|k: int| 0 <= k < ps.len() implies token_index(
            vocabulary@,
            (#[trigger] ps[k]).0,
        ) < vocabulary@.len() && token_index(vocabulary@, ps[k].1) < vocabulary@.len() by {
            lemma_token_index_spec(vocabulary@, ps[k].0);
            lemma_token_index_spec(vocabulary@, ps[k].1);
        }
    }
    (xs, ys, vocabulary)
}

/// The one-hot row for `id` among `n` classes: 1 at column `id`, else 0.
pub open spec fn one_hot_row(id: int, n: int) -> Seq<u64> {
    Seq::new(n as nat, |j: int| if j == id { 1u64 } else { 0u64 })
}

/// The index of the greatest entry of `s`, ties broken toward the front.
pub open spec fn arg_max(s: Seq<u64>) -> int
    decreases s.len(),
{
    if s.len() <= 1 {
        0
    } else if s.last() > s[arg_max(s.drop_last())] {
        s.len() - 1
    } else {
        arg_max(s.drop_last())
    }
}

/// The arg max of a non-empty row is a valid index.
pub proof fn lemma_arg_max_bounds(s: Seq<u64>)
    requires
        s.len() >= 1,
    ensures
        0 <= arg_max(s) < s.len(),
    decreases s.len(),
{
    if s.len() > 1 {
        lemma_arg_max_bounds(s.drop_last());
    }
}

/// Law: one-hot encoding round-trips through arg max; the greatest entry
/// of the one-hot row for `id` stands at column `id`.
pub proof fn lemma_one_hot_round_trip(id: int, n: int)
    requires
        0 <= id < n,
    ensures
        arg_max(one_hot_row(id, n)) == id,
    decreases n,
{
    let s = one_hot_row(id, n);
    if n > 1 {
        if id == n - 1 {
            assert(s.drop_last() =~= one_hot_row(n as int, n - 1));
            lemma_arg_max_bounds(s.drop_last());
            assert(s.last() == 1);
            assert(s[arg_max(s.drop_last())] == 0);
        } else {
            assert(s.drop_last() =~= one_hot_row(id, n - 1));
            lemma_one_hot_round_trip(id, n - 1);
            assert(s.last() == 0);
            assert(s[id] == 1);
        }
    }
}

/// One-hot encodes a single id among `num_classes` classes.
pub fn one_hot_encode_single(value: usize, num_classes: usize) -> (r: Vec<u64>)
    requires
        value < num_classes,
    ensures
        r@ == one_hot_row(value as int, num_classes as int),
{
    let mut row: Vec<u64> = Vec::new();
    let mut j: usize = 0;
    while j < num_classes
        invariant
            0 <= j <= num_classes,
            row@.len() == j,
            forall|k: int| 0 <= k < j ==> row@[k] == (if k == value { 1u64 } else { 0u64 }),
        decreases num_classes - j,
    {
        if j == value {
            row.push(1);
        } else {
            row.push(0);
        }
        j = j + 1;
    }
    proof {
        assert(row@ =~= one_hot_row(value as int, num_classes as int));
    }
    row
}

/// One-hot encodes every id of `values`: one row per id, `num_classes`
/// columns, a single 1 per row at the column equal to the id.
pub fn one_hot_encode(values: &Vec<usize>, num_classes: usize) -> (r: Vec<Vec<u64>>)
    requires
        forall|i: int| 0 <= i < values@.len() ==> values@[i] < num_classes,
    ensures
        r@.len() == values@.len(),
        forall|i: int|
            0 <= i < r@.len() ==> (#[trigger] r@[i])@ == one_hot_row(
                values@[i] as int,
                num_classes as int,
            ),
{
    let mut rows: Vec<Vec<u64>> = Vec::new();
    let mut i: usize = 0;
    while i < values.len()
        invariant
            0 <= i <= values@.len(),
            forall|k: int| 0 <= k < values@.len() ==> values@[k] < num_classes,
            rows@.len() == i,
            forall|k: int|
                0 <= k < i ==> (#[trigger] rows@[k])@ == one_hot_row(
                    values@[k] as int,
                    num_classes as int,
                ),
        decreases values@.len() - i,
    {
        let row = one_hot_encode_single(values[i], num_classes);
        rows.push(row);
        i = i + 1;
    }
    rows
}

/// Declaration of the external autodiff engine's graph node type.
#[verifier::external_type_specification]
#[verifier::external_body]
pub struct ExExpr(Expr);

/// Relies on alpha_micrograd_rust's `Add for Expr`: builds the graph node
/// for the sum of `a` and `b`.
#[verifier::external_body]
fn expr_add(a: Expr, b: Expr) -> Expr {
    a + b
}

/// Relies on alpha_micrograd_rust's `Mul for Expr`: builds the graph node
/// for the product of `a` and `b`.
#[verifier::external_body]
fn expr_mul(a: Expr, b: Expr) -> Expr {
    a * b
}

/// Relies on alpha_micrograd_rust's `Div for Expr`: builds the graph node
/// for the quotient of `a` and `b`.
#[verifier::external_body]
fn expr_div(a: Expr, b: Expr) -> Expr {
    a / b
}

/// Relies on alpha_micrograd_rust's `Expr::exp`: builds the graph node
/// that exponentiates `a`.
#[verifier::external_body]
fn expr_exp(a: Expr) -> Expr {
    a.exp()
}

/// Relies on alpha_micrograd_rust's `Expr::log`: builds the graph node
/// for the natural logarithm of `a`.
#[verifier::external_body]
fn expr_log(a: Expr) -> Expr {
    a.log()
}

/// Relies on alpha_micrograd_rust's `Expr::neg`: builds the graph node
/// that negates `a`.
#[verifier::external_body]
fn expr_neg(a: Expr) -> Expr {
    a.neg()
}

/// Relies on alpha_micrograd_rust's `Clone for Expr`: duplicates a node.
#[verifier::external_body]
fn expr_clone(a: &Expr) -> Expr {
    a.clone()
}

/// Builds the logit nodes: for every example row of `xs` and every row
/// of `w`, the dot product of the two rows as a multiply-accumulate
/// chain of graph nodes, so every term stays differentiable.
///
/// Row `i` of the result has one logit node per row of `w`.
pub fn mat_mul(xs: &Vec<Vec<Expr>>, w: &Vec<Vec<Expr>>) -> (r: Vec<Vec<Expr>>)
    requires
        forall|i: int, j: int|
            0 <= i < xs@.len() && 0 <= j < w@.len() ==> (#[trigger] xs@[i])@.len() == (
            #[trigger] w@[j])@.len(),
        forall|j: int| 0 <= j < w@.len() ==> (#[trigger] w@[j])@.len() >= 1,
    ensures
        r@.len() == xs@.len(),
        forall|i: int| 0 <= i < r@.len() ==> (#[trigger] r@[i])@.len() == w@.len(),
{
    let mut result: Vec<Vec<Expr>> = Vec::new();
    let mut i: usize = 0;
    while i < xs.len()
        invariant
            forall|i2: int, j: int|
                0 <= i2 < xs@.len() && 0 <= j < w@.len() ==> (#[trigger] xs@[i2])@.len() == (
                #[trigger] w@[j])@.len(),
            forall|j: int| 0 <= j < w@.len() ==> (#[trigger] w@[j])@.len() >= 1,
            0 <= i <= xs@.len(),
            result@.len() == i,
            forall|i2: int| 0 <= i2 < i ==> (#[trigger] result@[i2])@.len() == w@.len(),
        decreases xs@.len() - i,
    {
        let x_row = &xs[i];
        let mut logits: Vec<Expr> = Vec::new();
        let mut j: usize = 0;
        while j < w.len()
            invariant
                forall|i2: int, j2: int|
                    0 <= i2 < xs@.len() && 0 <= j2 < w@.len() ==> (#[trigger] xs@[i2])@.len() == (
                    #[trigger] w@[j2])@.len(),
                forall|j2: int| 0 <= j2 < w@.len() ==> (#[trigger] w@[j2])@.len() >= 1,
                0 <= i < xs@.len(),
                x_row == xs@[i as int],
                0 <= j <= w@.len(),
                logits@.len() == j,
            decreases w@.len() - j,
        {
            let w_row = &w[j];
            let mut acc = expr_mul(expr_clone(&x_row[0]), expr_clone(&w_row[0]));
            let mut k: usize = 1;
            while k < w_row.len()
                invariant
                    0 <= i < xs@.len(),
                    0 <= j < w@.len(),
                    x_row == xs@[i as int],
                    w_row == w@[j as int],
                    x_row@.len() == w_row@.len(),
                    1 <= k <= w_row@.len(),
                decreases w_row@.len() - k,
            {
                let term = expr_mul(expr_clone(&x_row[k]), expr_clone(&w_row[k]));
                acc = expr_add(acc, term);
                k = k + 1;
            }
            logits.push(acc);
            j = j + 1;
        }
        result.push(logits);
        i = i + 1;
    }
    result
}

/// Builds the softmax nodes for every logit row: one exponential node
/// per logit, one sum node over the row's exponentials, and one division
/// node per class, yielding a probability node per class.
pub fn softmax(logits: &Vec<Vec<Expr>>) -> (r: Vec<Vec<Expr>>)
    requires
        forall|i: int| 0 <= i < logits@.len() ==> (#[trigger] logits@[i])@.len() >= 1,
    ensures
        r@.len() == logits@.len(),
        forall|i: int|
            0 <= i < r@.len() ==> (#[trigger] r@[i])@.len() == (#[trigger] logits@[i])@.len(),
{
    let mut result: Vec<Vec<Expr>> = Vec::new();
    let mut i: usize = 0;
    while i < logits.len()
        invariant
            forall|i2: int| 0 <= i2 < logits@.len() ==> (#[trigger] logits@[i2])@.len() >= 1,
            0 <= i <= logits@.len(),
            result@.len() == i,
            forall|i2: int|
                0 <= i2 < i ==> (#[trigger] result@[i2])@.len() == (
                #[trigger] logits@[i2])@.len(),
        decreases logits@.len() - i,
    {
        let logit_row = &logits[i];
        let mut exps: Vec<Expr> = Vec::new();
        let mut j: usize = 0;
        while j < logit_row.len()
            invariant
                0 <= i < logits@.len(),
                logit_row == logits@[i as int],
                logit_row@.len() >= 1,
                0 <= j <= logit_row@.len(),
                exps@.len() == j,
            decreases logit_row@.len() - j,
        {
            exps.push(expr_exp(expr_clone(&logit_row[j])));
            j = j + 1;
        }
        let mut sum_exp = expr_clone(&exps[0]);
        let mut k: usize = 1;
        while k < exps.len()
            invariant
                0 <= i < logits@.len(),
                logit_row == logits@[i as int],
                exps@.len() == logit_row@.len(),
                1 <= k <= exps@.len(),
            decreases exps@.len() - k,
        {
            sum_exp = expr_add(sum_exp, expr_clone(&exps[k]));
            k = k + 1;
        }
        let mut probs: Vec<Expr> = Vec::new();
        let mut m: usize = 0;
        while m < exps.len()
            invariant
                0 <= i < logits@.len(),
                logit_row == logits@[i as int],
                exps@.len() == logit_row@.len(),
                0 <= m <= exps@.len(),
                probs@.len() == m,
            decreases exps@.len() - m,
        {
            probs.push(expr_div(expr_clone(&exps[m]), expr_clone(&sum_exp)));
            m = m + 1;
        }
        result.push(probs);
        i = i + 1;
    }
    result
}

/// Assembles the average negative log-likelihood loss node: for every
/// example it selects the probability node of the true target class,
/// chains a log node and a negation node, accumulates the per-example
/// terms onto `zero`, and divides by `example_count`.
///
/// Leaf creation takes a raw scalar, which only the engine's caller can
/// supply; `zero` must be a zero-valued leaf and `example_count` a leaf
/// holding the number of examples.
pub fn build_average_nll(
    probs: &Vec<Vec<Expr>>,
    ys: &Vec<usize>,
    zero: Expr,
    example_count: Expr,
) -> Expr
    requires
        probs@.len() == ys@.len(),
        forall|i: int| 0 <= i < ys@.len() ==> ys@[i] < (#[trigger] probs@[i])@.len(),
{
    let mut total = zero;
    let mut i: usize = 0;
    while i < probs.len()
        invariant
            probs@.len() == ys@.len(),
            forall|i2: int| 0 <= i2 < ys@.len() ==> ys@[i2] < (#[trigger] probs@[i2])@.len(),
            0 <= i <= probs@.len(),
        decreases probs@.len() - i,
    {
        let y = ys[i];
        let p = expr_clone(&probs[i][y]);
        let log_likelihood = expr_log(p);
        let nll = expr_neg(log_likelihood);
        total = expr_add(total, nll);
        i = i + 1;
    }
    expr_div(total, example_count)
}

} // verus!
