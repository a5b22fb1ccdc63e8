use alpha_micrograd_rust::value::Expr;
use makemore_rust::nll::build_average_nll;
use makemore_rust::nll::generate_dataset;
use makemore_rust::nll::mat_mul;
use makemore_rust::nll::one_hot_encode;
use makemore_rust::nll::one_hot_encode_single;
use makemore_rust::nll::softmax;

#[test]
fn dataset_end_to_end() {
    // Corpus ["ab"]: boundary gets id 0, then 'a' and 'b' in order;
    // the framed line yields the pairs (0,1), (1,2), (2,0).
    let lines = vec!["ab".to_string()];
    let (xs, ys, vocabulary) = generate_dataset(&lines);
    assert_eq!(vocabulary.token_to_id('.'), Some(0));
    assert_eq!(vocabulary.token_to_id('a'), Some(1));
    assert_eq!(vocabulary.token_to_id('b'), Some(2));
    assert_eq!(xs, vec![0, 1, 2]);
    assert_eq!(ys, vec![1, 2, 0]);
}

#[test]
fn dataset_pair_count() {
    // Lines of lengths 2, 1 and 0 yield (2+1) + (1+1) + (0+1) pairs.
    let lines = vec!["ab".to_string(), "c".to_string(), String::new()];
    let (xs, ys, _) = generate_dataset(&lines);
    assert_eq!(xs.len(), 6);
    assert_eq!(ys.len(), 6);
}

#[test]
fn dataset_reuses_ids_across_lines() {
    let lines = vec!["ab".to_string(), "ba".to_string()];
    let (xs, ys, vocabulary) = generate_dataset(&lines);
    assert_eq!(vocabulary.len(), 3);
    assert_eq!(xs, vec![0, 1, 2, 0, 2, 1]);
    assert_eq!(ys, vec![1, 2, 0, 2, 1, 0]);
}

#[test]
fn one_hot_single_row() {
    assert_eq!(one_hot_encode_single(2, 4), vec![0, 0, 1, 0]);
    assert_eq!(one_hot_encode_single(0, 1), vec![1]);
}

#[test]
fn one_hot_round_trip() {
    // The greatest entry of each one-hot row stands at the encoded id.
    for n in 1..6usize {
        for id in 0..n {
            let row = one_hot_encode_single(id, n);
            let argmax = row
                .iter()
                .enumerate()
                .max_by_key(|(_, v)| **v)
                .map(|(i, _)| i)
                .unwrap();
            assert_eq!(argmax, id);
        }
    }
}

#[test]
fn one_hot_matrix() {
    let values = vec![1usize, 0, 2];
    let rows = one_hot_encode(&values, 3);
    assert_eq!(rows, vec![vec![0, 1, 0], vec![1, 0, 0], vec![0, 0, 1]]);
}

fn leaf_rows(rows: &[Vec<u64>]) -> Vec<Vec<Expr>> {
    rows.iter()
        .map(|row| row.iter().map(|&v| Expr::new_leaf(v as f64)).collect())
        .collect()
}

#[test]
fn mat_mul_builds_dot_products() {
    // One-hot inputs select one weight per class, so each logit value
    // equals one weight value.
    let xenc = leaf_rows(&one_hot_encode(&vec![0usize, 1], 2));
    let w = vec![
        vec![Expr::new_leaf(0.25), Expr::new_leaf(-1.5)],
        vec![Expr::new_leaf(2.0), Expr::new_leaf(0.5)],
    ];
    let logits = mat_mul(&xenc, &w);
    assert_eq!(logits.len(), 2);
    assert_eq!(logits[0].len(), 2);
    assert_eq!(logits[0][0].result, 0.25);
    assert_eq!(logits[0][1].result, 2.0);
    assert_eq!(logits[1][0].result, -1.5);
    assert_eq!(logits[1][1].result, 0.5);
}

#[test]
fn softmax_rows_are_distributions() {
    let logits = vec![vec![Expr::new_leaf(0.0), Expr::new_leaf(1.0), Expr::new_leaf(-1.0)]];
    let probs = softmax(&logits);
    assert_eq!(probs.len(), 1);
    assert_eq!(probs[0].len(), 3);
    let total: f64 = probs[0].iter().map(|p| p.result).sum();
    assert!((total - 1.0).abs() < 1e-9);
    for p in &probs[0] {
        assert!(p.result > 0.0);
    }
    // Larger logits get larger probabilities.
    assert!(probs[0][1].result > probs[0][0].result);
    assert!(probs[0][0].result > probs[0][2].result);
}

#[test]
fn training_lowers_the_loss() {
    // A single repeated example: train the linear layer against the
    // average negative log-likelihood and watch the loss fall.
    let lines = vec!["ab".to_string()];
    let (xs, ys, vocabulary) = generate_dataset(&lines);
    let vocab_size = vocabulary.len();
    let xenc = leaf_rows(&one_hot_encode(&xs, vocab_size));
    let w: Vec<Vec<Expr>> = (0..vocab_size)
        .map(|i| {
            (0..vocab_size)
                .map(|j| Expr::new_leaf(0.05 * ((i * vocab_size + j) as f64) - 0.2))
                .collect()
        })
        .collect();
    let logits = mat_mul(&xenc, &w);
    let probs = softmax(&logits);
    let mut loss = build_average_nll(
        &probs,
        &ys,
        Expr::new_leaf(0.0),
        Expr::new_leaf(xenc.len() as f64),
    );
    let before = loss.result;
    assert!(before.is_finite());
    assert!(before > 0.0);
    for _ in 0..100 {
        loss.learn(0.5);
        loss.recalculate();
    }
    assert!(loss.result.is_finite());
    assert!(loss.result < before);
}
