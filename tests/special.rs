use permutation_rs::group::permutation::Permutation;
use permutation_rs::group::special::SLPPermutation;
use permutation_rs::group::tree::SLP;
use permutation_rs::group::{GroupAction, GroupElement};
use std::collections::HashMap;

#[test]
fn slp_permutaion_should_know_when_it_is_the_identity() {
    let mut not_identity_images = HashMap::new();
    not_identity_images.insert(0u64, 1u64);
    not_identity_images.insert(1u64, 0u64);
    let not_identity: SLPPermutation =
        SLPPermutation::new(SLP::Generator(1), Permutation::new(not_identity_images));

    assert!(!not_identity.is_identity());

    let mut identity_images = HashMap::new();
    identity_images.insert(0u64, 0u64);
    identity_images.insert(1u64, 1u64);
    let identity: SLPPermutation =
        SLPPermutation::new(SLP::Identity, Permutation::new(identity_images));

    assert!(identity.is_identity());
}

#[test]
fn special_multiplication_should_be_from_left_to_right() {
    let mut first_images = HashMap::new();
    first_images.insert(0u64, 1u64);
    first_images.insert(1u64, 0u64);
    first_images.insert(2u64, 2u64);
    let first: SLPPermutation =
        SLPPermutation::new(SLP::Generator(1), Permutation::new(first_images));

    let mut second_images = HashMap::new();
    second_images.insert(0u64, 0u64);
    second_images.insert(1u64, 2u64);
    second_images.insert(2u64, 1u64);
    let second: SLPPermutation =
        SLPPermutation::new(SLP::Generator(2), Permutation::new(second_images));

    let product = first.times(&second);

    let mut expected_images = HashMap::new();
    expected_images.insert(0u64, 2u64);
    expected_images.insert(1u64, 0u64);
    expected_images.insert(2u64, 1u64);
    let expected: SLPPermutation = SLPPermutation::new(
        SLP::Product(Box::new(SLP::Generator(1)), Box::new(SLP::Generator(2))),
        Permutation::new(expected_images),
    );

    assert_eq!(product, expected);
}

#[test]
fn special_inverse_should_multiply_to_identity() {
    let mut first_images = HashMap::new();
    first_images.insert(0u64, 1u64);
    first_images.insert(1u64, 2u64);
    first_images.insert(2u64, 0u64);
    let first: SLPPermutation =
        SLPPermutation::new(SLP::Generator(1), Permutation::new(first_images));

    let second = first.inverse();

    let product = first.times(&second);

    assert!(product.is_identity());
}

#[test]
fn special_permutation_should_act_upon_integers() {
    let mut permutation_images = HashMap::new();
    permutation_images.insert(0u64, 1u64);
    permutation_images.insert(1u64, 2u64);
    permutation_images.insert(2u64, 0u64);
    let permutation: SLPPermutation =
        SLPPermutation::new(SLP::Generator(1), Permutation::new(permutation_images));

    assert_eq!(permutation.act_on(&0u64), 1u64);
    assert_eq!(permutation.act_on(&1u64), 2u64);
    assert_eq!(permutation.act_on(&2u64), 0u64);
}
