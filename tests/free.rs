use permutation_rs::group::free::Word;
use permutation_rs::group::GroupElement;

#[test]
fn free_permutaion_should_know_when_it_is_the_identity() {
    let not_identity = Word::generator('g');

    assert!(!not_identity.is_identity());

    let identity = Word::identity();

    assert!(identity.is_identity());
}

#[test]
fn free_multiplication_should_be_from_left_to_right() {
    let first = Word::generator('g');
    let second = Word::generator('h');

    let product = first.times(&second);

    let expected = Word::new(vec![('g', 1), ('h', 1)]);

    assert_eq!(product, expected);
}

#[test]
fn free_inverse_should_multiply_to_identity() {
    let first = Word::new(vec![('g', 1), ('h', 1)]);

    let second = first.inverse();

    let product = first.times(&second);

    assert!(product.is_identity());
}

#[test]
fn word_keeps_terms_with_different_symbols() {
    let word = Word::new(vec![('x', 2), ('y', -3), ('x', -2), ('y', 3)]);

    assert_eq!(word.terms(), &vec![('x', 2), ('y', -3), ('x', -2), ('y', 3)]);
}

#[test]
fn word_cancels_in_cascade() {
    let word = Word::new(vec![('a', 1), ('b', 1), ('b', -1), ('a', -1)]);

    assert!(word.is_identity());
    assert_eq!(word, Word::identity());
}

#[test]
fn word_merges_equal_symbols() {
    let left = Word::new(vec![('a', 1), ('b', 1), ('c', 1)]);
    let right = Word::new(vec![('c', -1), ('b', 1), ('c', 1)]);

    let answer = left.times(&right);

    assert_eq!(answer.terms(), &vec![('a', 1), ('b', 2), ('c', 1)]);
}

#[test]
fn word_drops_zero_exponents() {
    let word = Word::new(vec![('a', 0)]);
    assert!(word.is_identity());

    let word = Word::new(vec![('a', 1), ('b', 0), ('a', 1)]);
    assert_eq!(word.terms(), &vec![('a', 2)]);
}

#[test]
fn normalize_is_idempotent_on_examples() {
    let input = vec![('a', 2), ('b', 1), ('b', -1), ('a', -1), ('c', 3), ('c', -3)];
    let once = permutation_rs::group::free::normalize(&input);
    assert_eq!(once, vec![('a', 1)]);
    let twice = permutation_rs::group::free::normalize(&once);
    assert_eq!(once, twice);
}

#[test]
fn word_inverse_reverses_and_negates() {
    let word = Word::new(vec![('a', 2), ('b', -1)]);

    assert_eq!(word.inverse().terms(), &vec![('b', 1), ('a', -2)]);
}

#[test]
fn word_should_display_correctly() {
    let identity = Word::identity();

    let word = Word::new(vec![('x', 2), ('y', -3), ('x', -2), ('y', 3)]);

    assert_eq!("Id", identity.to_string());
    assert_eq!("x^2y^-3x^-2y^3", word.to_string());
}

#[test]
fn word_with_the_largest_exponent_inverts() {
    let word = Word::new(vec![('a', i64::MAX)]);

    assert_eq!(word.inverse().terms(), &vec![('a', -i64::MAX)]);
    assert_eq!(word.weight(), i64::MAX as u64);
}

#[test]
fn word_weight_sums_absolute_exponents() {
    let word = Word::new(vec![('a', 2), ('b', -3), ('a', 1)]);

    assert_eq!(word.weight(), 6);
}
