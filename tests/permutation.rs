use permutation_rs::group::permutation::Permutation;
use permutation_rs::group::{GroupAction, GroupElement};
use std::collections::HashMap;

fn permute(pairs: &[(u64, u64)]) -> Permutation {
    let mut images = HashMap::new();
    for (from, to) in pairs {
        images.insert(*from, *to);
    }
    Permutation::new(images)
}

#[test]
fn permutation_permutaion_should_know_when_it_is_the_identity() {
    let mut not_identity_images = HashMap::new();
    not_identity_images.insert(0u64, 1u64);
    not_identity_images.insert(1u64, 0u64);
    let not_identity = Permutation::new(not_identity_images);

    assert!(!not_identity.is_identity());

    let mut identity_images = HashMap::new();
    identity_images.insert(0u64, 0u64);
    identity_images.insert(1u64, 1u64);
    let identity = Permutation::new(identity_images);

    assert!(identity.is_identity());
}

#[test]
fn permutation_multiplication_should_be_from_left_to_right() {
    let mut first_images = HashMap::new();
    first_images.insert(0u64, 1u64);
    first_images.insert(1u64, 0u64);
    first_images.insert(2u64, 2u64);
    let first = Permutation::new(first_images);

    let mut second_images = HashMap::new();
    second_images.insert(0u64, 0u64);
    second_images.insert(1u64, 2u64);
    second_images.insert(2u64, 1u64);
    let second = Permutation::new(second_images);

    let product = first.times(&second);

    let mut expected_images = HashMap::new();
    expected_images.insert(0u64, 2u64);
    expected_images.insert(1u64, 0u64);
    expected_images.insert(2u64, 1u64);
    let expected = Permutation::new(expected_images);

    assert_eq!(product, expected);
}

#[test]
fn permutation_inverse_should_multiply_to_identity() {
    let mut first_images = HashMap::new();
    first_images.insert(0u64, 1u64);
    first_images.insert(1u64, 2u64);
    first_images.insert(2u64, 0u64);
    let first = Permutation::new(first_images);

    let second = first.inverse();

    let product = first.times(&second);

    assert!(product.is_identity());
}

#[test]
fn permutation_permutation_should_act_upon_integers() {
    let mut permutation_images = HashMap::new();
    permutation_images.insert(0u64, 1u64);
    permutation_images.insert(1u64, 2u64);
    permutation_images.insert(2u64, 0u64);
    let permutation = Permutation::new(permutation_images);

    assert_eq!(permutation.act_on(&0u64), 1u64);
    assert_eq!(permutation.act_on(&1u64), 2u64);
    assert_eq!(permutation.act_on(&2u64), 0u64);
}

#[test]
fn permutation_fixes_points_without_entry() {
    let permutation = permute(&[(0, 1), (1, 0)]);

    assert_eq!(permutation.act_on(&7u64), 7u64);
    assert_eq!(permutation.n(), 2);
}

#[test]
fn permutation_inverse_inverts_a_cycle() {
    let permutation = permute(&[(0, 1), (1, 2), (2, 0)]);

    let inverse = permutation.inverse();

    assert_eq!(inverse, permute(&[(1, 0), (2, 1), (0, 2)]));
}

#[test]
fn permutation_product_is_associative_on_example() {
    let a = permute(&[(0, 1), (1, 0), (2, 2)]);
    let b = permute(&[(0, 1), (1, 2), (2, 0)]);
    let c = permute(&[(0, 0), (1, 2), (2, 1)]);

    assert_eq!(a.times(&b).times(&c), a.times(&b.times(&c)));
    assert!(a.times(&a.inverse()).is_identity());
}

#[test]
fn permutation_decomposes_into_cycles() {
    let permutation = permute(&[(0, 1), (1, 2), (2, 0), (3, 4), (4, 3)]);

    assert_eq!(permutation.cycles(), vec![vec![0, 1, 2], vec![3, 4]]);

    let identity = permute(&[(0, 0), (1, 1)]);
    assert!(identity.cycles().is_empty());
}

#[test]
fn permutation_should_display_correctly() {
    let mut identity_images = HashMap::new();
    identity_images.insert(0u64, 0u64);
    identity_images.insert(1u64, 1u64);
    let identity = Permutation::new(identity_images);

    let mut permutation_images = HashMap::new();
    permutation_images.insert(0u64, 1u64);
    permutation_images.insert(1u64, 2u64);
    permutation_images.insert(2u64, 0u64);
    permutation_images.insert(3u64, 4u64);
    permutation_images.insert(4u64, 3u64);
    let permutation = Permutation::new(permutation_images);

    assert_eq!("Id", identity.to_string());
    assert_eq!("(0 1 2)(3 4)", permutation.to_string());
}
