use makemore_rust::bigrams::Bigrams;
use makemore_rust::bigrams::BigramsError;
use makemore_rust::bigrams::count_frequencies;
use makemore_rust::VOCAB_SIZE;

#[test]
fn single_line_corpus_counts() {
    // Corpus ["ab"]: boundary -> 'a' -> 'b' -> boundary.
    let lines = vec!["ab".to_string()];
    let b = count_frequencies(&lines).expect("corpus fits the matrix");
    let v = b.vocabulary();
    assert_eq!(v.token_to_id('.'), Some(0));
    assert_eq!(v.token_to_id('a'), Some(1));
    assert_eq!(v.token_to_id('b'), Some(2));
    for i in 0..VOCAB_SIZE {
        for j in 0..VOCAB_SIZE {
            let expected = match (i, j) {
                (0, 1) | (1, 2) | (2, 0) => 1,
                _ => 0,
            };
            assert_eq!(b.frequency(i, j), Some(expected));
        }
    }
}

#[test]
fn row_sums_match_outgoing_transitions() {
    // "aa" and "ab": transitions . -> a (twice), a -> a, a -> b,
    // a -> . and b -> . ; row sums are the outgoing counts.
    let lines = vec!["aa".to_string(), "ab".to_string()];
    let b = count_frequencies(&lines).expect("corpus fits the matrix");
    let v = b.vocabulary();
    let dot = v.token_to_id('.').unwrap();
    let a = v.token_to_id('a').unwrap();
    let b_id = v.token_to_id('b').unwrap();
    let row_sum = |r: usize| -> u64 { (0..VOCAB_SIZE).map(|c| b.frequency(r, c).unwrap()).sum() };
    assert_eq!(row_sum(dot), 2);
    assert_eq!(row_sum(a), 3);
    assert_eq!(row_sum(b_id), 1);
    assert_eq!(b.frequency(dot, a), Some(2));
    assert_eq!(b.frequency(a, a), Some(1));
    assert_eq!(b.frequency(a, b_id), Some(1));
    assert_eq!(b.frequency(a, dot), Some(1));
    assert_eq!(b.frequency(b_id, dot), Some(1));
    // The whole matrix totals the corpus's pair count: (2+1) + (2+1).
    let total: u64 = (0..VOCAB_SIZE).map(row_sum).sum();
    assert_eq!(total, 6);
}

#[test]
fn generate_follows_the_only_path() {
    // With corpus ["ab"] every row has a single positive count, so
    // generation has exactly one possible outcome.
    let lines = vec!["ab".to_string()];
    let mut b = count_frequencies(&lines).expect("corpus fits the matrix");
    assert_eq!(b.generate_new_text().expect("one path exists"), "ab");
    assert_eq!(b.generate_new_text().expect("one path exists"), "ab");
}

#[test]
fn generate_is_deterministic_for_equal_corpora() {
    let lines = vec!["emma".to_string(), "olivia".to_string(), "ava".to_string()];
    let mut b1 = count_frequencies(&lines).expect("corpus fits the matrix");
    let mut b2 = count_frequencies(&lines).expect("corpus fits the matrix");
    for _ in 0..10 {
        let t1 = b1.generate_new_text().expect("boundary is reachable");
        let t2 = b2.generate_new_text().expect("boundary is reachable");
        assert_eq!(t1, t2);
    }
}

#[test]
fn generated_text_uses_observed_transitions() {
    let lines = vec!["emma".to_string(), "olivia".to_string(), "ava".to_string()];
    let mut b = count_frequencies(&lines).expect("corpus fits the matrix");
    for _ in 0..20 {
        let text = b.generate_new_text().expect("boundary is reachable");
        let framed: Vec<char> =
            std::iter::once('.').chain(text.chars()).chain(std::iter::once('.')).collect();
        let v = b.vocabulary();
        for w in framed.windows(2) {
            let prev = v.token_to_id(w[0]).expect("token was observed");
            let next = v.token_to_id(w[1]).expect("token was observed");
            assert!(b.frequency(prev, next).unwrap() > 0);
        }
    }
}

#[test]
fn sample_unknown_token_is_rejected() {
    let lines = vec!["ab".to_string()];
    let mut b = count_frequencies(&lines).expect("corpus fits the matrix");
    assert_eq!(b.sample_next_token('z'), Err(BigramsError::UnknownToken));
}

#[test]
fn sample_from_single_positive_row() {
    let lines = vec!["ab".to_string()];
    let mut b = count_frequencies(&lines).expect("corpus fits the matrix");
    // 'a' has exactly one observed successor, so the draw is forced.
    assert_eq!(b.sample_next_token('a'), Ok('b'));
}

#[test]
fn sample_without_observed_transitions_is_rejected() {
    let mut b = Bigrams::new(7);
    b.increment('a', 'b').expect("ids fit the matrix");
    // 'b' was seen but never followed by anything.
    assert_eq!(b.sample_next_token('b'), Err(BigramsError::NoObservedTransitions));
}

#[test]
fn increment_beyond_the_matrix_bound_is_rejected() {
    let mut b = Bigrams::new(7);
    // 27 distinct tokens fill the matrix; the 28th id is out of bounds.
    for c in "abcdefghijklmnopqrstuvwxyz.".chars() {
        b.increment(c, c).expect("ids fit the matrix");
    }
    assert_eq!(b.increment('A', 'A'), Err(BigramsError::TokenOutOfBounds));
}

#[test]
fn oversized_corpus_is_rejected() {
    // A line with 27 distinct characters needs 28 ids with the boundary.
    let lines = vec!["abcdefghijklmnopqrstuvwxyz0".to_string()];
    match count_frequencies(&lines) {
        Err(e) => assert_eq!(e, BigramsError::TokenOutOfBounds),
        Ok(_) => panic!("expected a sizing violation"),
    }
}

#[test]
fn generate_without_boundary_token_is_rejected() {
    let mut b = Bigrams::new(7);
    assert_eq!(b.generate_new_text(), Err(BigramsError::UnknownToken));
}

#[test]
fn generation_with_boundary_past_the_bound_is_rejected() {
    // 27 other tokens take every id inside the matrix; the boundary
    // token then gets id 27 and the first draw cannot be seeded.
    let mut b = Bigrams::new(3);
    for c in "abcdefghijklmnopqrstuvwxyz0".chars() {
        b.increment(c, c).expect("ids fit the matrix");
    }
    assert_eq!(b.increment('.', 'a'), Err(BigramsError::TokenOutOfBounds));
    assert_eq!(b.generate_new_text(), Err(BigramsError::TokenOutOfBounds));
}

#[test]
fn generation_from_an_empty_boundary_row_is_rejected() {
    // The boundary token is known but has no outgoing transition.
    let mut b = Bigrams::new(3);
    b.increment('a', '.').expect("ids fit the matrix");
    assert_eq!(b.generate_new_text(), Err(BigramsError::NoObservedTransitions));
}

#[test]
fn generation_without_reachable_boundary_is_abandoned() {
    // Every observed transition leads to 'a', so the boundary token is
    // never drawn and generation runs into the length cap.
    let mut b = Bigrams::new(3);
    b.increment('.', 'a').expect("ids fit the matrix");
    b.increment('a', 'a').expect("ids fit the matrix");
    assert_eq!(b.generate_new_text(), Err(BigramsError::GenerationLimitExceeded));
}

#[test]
fn empty_corpus_has_no_counts() {
    let lines: Vec<String> = Vec::new();
    let b = count_frequencies(&lines).expect("empty corpus fits");
    for i in 0..VOCAB_SIZE {
        for j in 0..VOCAB_SIZE {
            assert_eq!(b.frequency(i, j), Some(0));
        }
    }
    assert_eq!(b.vocabulary().len(), 0);
}

#[test]
fn empty_line_counts_boundary_loop() {
    let lines = vec![String::new()];
    let b = count_frequencies(&lines).expect("corpus fits the matrix");
    assert_eq!(b.frequency(0, 0), Some(1));
    assert_eq!(b.vocabulary().len(), 1);
}
