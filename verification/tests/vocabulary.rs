use makemore_rust::vocabulary::Vocabulary;

#[test]
fn vocabulary_round_trip() {
    let mut v = Vocabulary::new();
    let ids: Vec<usize> = "handle".chars().map(|c| v.add_token(c)).collect();
    // "handle" has 6 distinct characters, seen in order.
    assert_eq!(ids, vec![0, 1, 2, 3, 4, 5]);
    for c in "handle".chars() {
        let id = v.token_to_id(c).expect("token was added");
        assert_eq!(v.id_to_token(id), Some(c));
    }
}

#[test]
fn vocabulary_ids_are_dense_and_first_seen() {
    let mut v = Vocabulary::new();
    assert_eq!(v.add_token('.'), 0);
    assert_eq!(v.add_token('a'), 1);
    assert_eq!(v.add_token('b'), 2);
    assert_eq!(v.len(), 3);
    assert_eq!(v.id_to_token(0), Some('.'));
    assert_eq!(v.id_to_token(1), Some('a'));
    assert_eq!(v.id_to_token(2), Some('b'));
    assert_eq!(v.id_to_token(3), None);
}

#[test]
fn vocabulary_add_is_idempotent() {
    let mut v = Vocabulary::new();
    assert_eq!(v.add_token('x'), 0);
    assert_eq!(v.add_token('y'), 1);
    assert_eq!(v.add_token('x'), 0);
    assert_eq!(v.len(), 2);
}

#[test]
fn vocabulary_absent_lookups() {
    let mut v = Vocabulary::new();
    assert!(!v.has_token('q'));
    assert_eq!(v.token_to_id('q'), None);
    assert_eq!(v.id_to_token(0), None);
    v.add_token('q');
    assert!(v.has_token('q'));
    assert_eq!(v.token_to_id('q'), Some(0));
}
