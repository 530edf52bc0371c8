use permutation_rs::group::permutation::Permutation;
use permutation_rs::group::tree::{SLPCollection, SLPElement, SLPFactory};
use permutation_rs::group::{GroupAction, GroupElement};
use std::collections::HashMap;

fn permute(pairs: &[(u64, u64)]) -> Permutation {
    let mut images = HashMap::new();
    for (from, to) in pairs {
        images.insert(*from, *to);
    }
    Permutation::new(images)
}

#[test]
fn should_correctly_evaluate_to_elements() {
    let factory = SLPFactory::new();

    let g = permute(&[(0, 1), (1, 2), (2, 3), (3, 0)]);
    let h = permute(&[(0, 1), (1, 0), (2, 2), (3, 3)]);

    let u = factory.generator(g);
    let v = factory.generator(h);

    let expression = u.times(&v).inverse();
    let g = expression.evaluate();

    let expected = permute(&[(0, 0), (1, 3), (2, 1), (3, 2)]);

    assert_eq!(g, expected);
}

#[test]
fn slp_words_act_like_their_values() {
    let factory = SLPFactory::new();
    let u = factory.generator(permute(&[(0, 1), (1, 2), (2, 3), (3, 0)]));
    let v = factory.generator(permute(&[(0, 1), (1, 0), (2, 2), (3, 3)]));

    let expression = u.times(&v).inverse();
    let value = expression.evaluate();

    for p in 0u64..4 {
        assert_eq!(expression.act_on(&p), value.act_on(&p));
    }
    assert!(!expression.is_identity());
}

#[test]
fn collection_registers_and_evaluates() {
    let mut collection: SLPCollection<Permutation> = SLPCollection::new();

    let a = collection.generator(permute(&[(0, 1), (1, 2), (2, 0)]));
    let b = collection.generator(permute(&[(0, 1), (1, 0), (2, 2)]));
    let product = collection.register(SLPElement::Product(a, b));
    let inverse = collection.register(SLPElement::Inverse(product));

    assert_eq!((a, b, product, inverse), (0, 1, 2, 3));
    assert_eq!(collection.evaluate(&product), Some(permute(&[(0, 0), (1, 2), (2, 1)])));
    assert_eq!(collection.evaluate(&inverse), Some(permute(&[(0, 0), (1, 2), (2, 1)])));
    assert_eq!(collection.evaluate(&7), None);
}
