use permutation_rs::group::permutation::Permutation;
use permutation_rs::group::{transversal_for, BaseStrongGeneratorLevel, Group, GroupAction, GroupElement};
use std::collections::HashMap;

fn d3() -> Group<Permutation> {
    let mut transposition_images = HashMap::new();
    transposition_images.insert(0u64, 1u64);
    transposition_images.insert(1u64, 0u64);
    transposition_images.insert(2u64, 2u64);
    let transposition = Permutation::new(transposition_images);

    let mut rotation_images = HashMap::new();
    rotation_images.insert(0u64, 1u64);
    rotation_images.insert(1u64, 2u64);
    rotation_images.insert(2u64, 0u64);
    let rotation = Permutation::new(rotation_images);

    let gset = vec![0u64, 1u64, 2u64];
    let generators = vec![transposition, rotation];

    Group::new(gset, generators).expect("generators should move something")
}

fn permute(pairs: &[(u64, u64)]) -> Permutation {
    let mut images = HashMap::new();
    for (from, to) in pairs {
        images.insert(*from, *to);
    }
    Permutation::new(images)
}

fn d6() -> Group<Permutation> {
    let reflection = permute(&[(0, 1), (1, 0), (2, 5), (3, 4), (4, 3), (5, 2)]);
    let rotation = permute(&[(0, 1), (1, 2), (2, 3), (3, 4), (4, 5), (5, 0)]);
    Group::new(vec![0, 1, 2, 3, 4, 5], vec![reflection, rotation]).expect("generators should move something")
}

#[test]
fn group_should_have_a_size() {
    let group = d3();

    assert_eq!(group.size(), 6);
}

#[test]
fn group_should_determine_if_an_element_is_a_member() {
    let mut transposition_images = HashMap::new();
    transposition_images.insert(0u64, 2u64);
    transposition_images.insert(1u64, 1u64);
    transposition_images.insert(2u64, 0u64);
    let transposition = Permutation::new(transposition_images);

    let group = d3();

    assert!(group.is_member(transposition));
}

#[test]
fn transversal_for_should_correctly_determine_transversal() {
    let image = 4u64;
    let mut a_image: HashMap<u64, u64> = HashMap::new();
    a_image.insert(0u64, 1u64);
    a_image.insert(1u64, 2u64);
    a_image.insert(2u64, 0u64);
    a_image.insert(3u64, 4u64);
    a_image.insert(4u64, 5u64);
    a_image.insert(5u64, 3u64);
    let a = Permutation::new(a_image);
    let mut b_image: HashMap<u64, u64> = HashMap::new();
    b_image.insert(0u64, 3u64);
    b_image.insert(1u64, 1u64);
    b_image.insert(2u64, 2u64);
    b_image.insert(3u64, 0u64);
    b_image.insert(4u64, 4u64);
    b_image.insert(5u64, 5u64);
    let b = Permutation::new(b_image);
    let generators = vec![a.clone(), b.clone()];
    let mut indices: HashMap<u64, isize> = HashMap::new();
    indices.insert(0u64, -1isize);
    indices.insert(1u64, 0isize);
    indices.insert(2u64, 0isize);
    indices.insert(3u64, 1isize);
    indices.insert(4u64, 0isize);
    indices.insert(5u64, 0isize);

    let transversal = transversal_for(&image, &generators, &indices).unwrap();

    let expected = b.times(&a);
    assert_eq!(transversal, expected);
}

#[test]
fn transversal_for_a_point_outside_the_orbit_is_none() {
    let a = permute(&[(0, 1), (1, 0)]);
    let mut indices: HashMap<u64, isize> = HashMap::new();
    indices.insert(0u64, -1isize);
    indices.insert(1u64, 0isize);

    assert!(transversal_for(&5u64, &vec![a], &indices).is_none());
}

#[test]
fn dihedral_group_of_six_points_has_twelve_elements() {
    assert_eq!(d6().size(), 12);
}

#[test]
fn products_of_generators_are_members() {
    let group = d6();
    let reflection = permute(&[(0, 1), (1, 0), (2, 5), (3, 4), (4, 3), (5, 2)]);
    let rotation = permute(&[(0, 1), (1, 2), (2, 3), (3, 4), (4, 5), (5, 0)]);

    let product = reflection.times(&rotation).times(&rotation.inverse()).times(&rotation);
    assert!(group.is_member(product));
    assert!(group.is_member(rotation.inverse()));
    assert!(group.is_member(reflection.times(&reflection)));
}

#[test]
fn a_lone_transposition_is_not_a_member() {
    let group = d6();
    let transposition = permute(&[(0, 1), (1, 0), (2, 2), (3, 3), (4, 4), (5, 5)]);

    assert!(!group.is_member(transposition));
}

#[test]
fn stripping_a_residue_again_changes_nothing() {
    let group = d6();
    let transposition = permute(&[(0, 1), (1, 0), (2, 2), (3, 3), (4, 4), (5, 5)]);

    let residue = group.strip(transposition);
    let again = group.strip(residue.clone());

    assert_eq!(again, residue);
}

#[test]
fn generators_that_move_nothing_are_refused() {
    let identity = permute(&[(0, 0), (1, 1)]);

    assert!(Group::new(vec![0u64, 1u64], vec![identity]).is_none());
}

#[test]
fn no_generators_give_the_trivial_group() {
    let group: Group<Permutation> = Group::new(vec![0u64, 1u64], vec![]).unwrap();

    assert_eq!(group.size(), 1);
}

#[test]
fn a_universe_of_one_point_still_builds_the_chain() {
    let transposition = permute(&[(0, 1), (1, 0), (2, 2)]);
    let rotation = permute(&[(0, 1), (1, 2), (2, 0)]);

    let group = Group::new(vec![0u64], vec![transposition, rotation]).unwrap();

    assert_eq!(group.size(), 6);
}

#[test]
fn levels_report_their_orbits() {
    let rotation = permute(&[(0, 1), (1, 2), (2, 3), (3, 0)]);

    let (level, stabilizers) = BaseStrongGeneratorLevel::new(1, vec![rotation.clone()]);

    assert_eq!(level.length(), 4);
    assert!(stabilizers.is_empty());
    assert!(level.has_transversal_for(&rotation));
    let transversal = level.transversal_for(&rotation).unwrap();
    assert_eq!(transversal.act_on(&1u64), 2u64);
}
