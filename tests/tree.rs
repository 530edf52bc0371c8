use permutation_rs::group::free::Word;
use permutation_rs::group::tree::SLP;
use permutation_rs::group::{GroupElement, Morphism};
use std::collections::HashMap;

#[test]
fn slp_should_know_when_it_is_the_identity() {
    let not_identity = SLP::Generator(1);

    assert!(!not_identity.is_identity());

    let identity = SLP::Identity;

    assert!(identity.is_identity());
}

#[test]
fn tree_multiplication_should_be_from_left_to_right() {
    let first = SLP::Generator(1);

    let second = SLP::Generator(2);

    let product = first.times(&second);

    let expected = SLP::Product(Box::new(first), Box::new(second));

    assert_eq!(product, expected);
}

#[test]
fn tree_inverse_should_multiply_to_identity() {
    let first = SLP::Generator(1);

    let inverse = first.inverse();

    let expected = SLP::Inverse(Box::new(first));

    assert_eq!(inverse, expected);
}

#[test]
fn slp_transforms_through_a_morphism() {
    let left = SLP::Generator(0);
    let right = SLP::Generator(1);
    let expression = left.times(&right.inverse());

    let mut images = HashMap::new();
    images.insert(0u64, Word::generator('a'));
    images.insert(1u64, Word::generator('b'));
    let morphism = Morphism::new(images);

    let word = expression.transform(&morphism);

    let expected = Word::new(vec![('a', 1), ('b', -1)]);

    assert_eq!(word, expected);
}

#[test]
fn slp_transform_agrees_with_words() {
    let a = SLP::Generator(0);
    let b = SLP::Generator(1);
    let expression = a.times(&b).times(&a.inverse()).inverse();

    let mut images = HashMap::new();
    images.insert(0u64, Word::new(vec![('x', 2)]));
    images.insert(1u64, Word::new(vec![('x', -1), ('y', 1)]));
    let morphism = Morphism::new(images);

    let x = Word::new(vec![('x', 2)]);
    let y = Word::new(vec![('x', -1), ('y', 1)]);
    let direct = x.times(&y).times(&x.inverse()).inverse();

    assert_eq!(expression.transform(&morphism), direct);
    assert_eq!(direct.terms(), &vec![('x', 2), ('y', -1), ('x', -1)]);
    assert_eq!(SLP::Identity.transform(&morphism), Word::identity());
}

#[test]
fn should_display_correctly() {
    let identity = SLP::Identity;
    let generator = SLP::Generator(1);
    let product = SLP::Product(Box::new(SLP::Generator(1)), Box::new(SLP::Generator(2)));
    let inverse = SLP::Inverse(Box::new(SLP::Generator(1)));

    assert_eq!("Id", identity.to_string());
    assert_eq!("G_1", generator.to_string());
    assert_eq!("(G_1) * (G_2)", product.to_string());
    assert_eq!("(G_1)^-1", inverse.to_string());
}

#[test]
fn slp_renders_large_generator_numbers() {
    assert_eq!("G_1234567890", SLP::Generator(1234567890).to_string());
}

#[test]
fn checked_transform_reports_missing_images() {
    let mut images = HashMap::new();
    images.insert(0u64, Word::generator('a'));
    let morphism = Morphism::new(images);

    let known = SLP::Generator(0).times(&SLP::Generator(0).inverse());
    let unknown = SLP::Generator(0).times(&SLP::Generator(5));

    assert_eq!(known.try_transform(&morphism), Some(Word::identity()));
    assert_eq!(unknown.try_transform(&morphism), None);
}
