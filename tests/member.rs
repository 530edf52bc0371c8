use permutation_rs::group::permutation::Permutation;
use permutation_rs::group::Group;
use std::collections::HashMap;

fn permute(pairs: &[(u64, u64)]) -> Permutation {
    let mut images = HashMap::new();
    for (from, to) in pairs {
        images.insert(*from, *to);
    }
    Permutation::new(images)
}

#[test]
fn check_that_a_certain_permutation_is_an_member() {
    let group = d6();

    let element = permute(&[(0, 1), (1, 0), (2, 5), (3, 4), (4, 3), (5, 2)]);

    assert!(group.is_member(element));
}

fn d6() -> Group<Permutation> {
    let transposition = permute(&[(0, 1), (1, 0), (2, 5), (3, 4), (4, 3), (5, 2)]);

    let rotation = permute(&[(0, 1), (1, 2), (2, 3), (3, 4), (4, 5), (5, 0)]);

    let gset = vec![0u64, 1u64, 2u64, 3u64, 4u64, 5u64];
    let generators = vec![transposition, rotation];

    Group::new(gset, generators).expect("generators should move something")
}
