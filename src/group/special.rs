//! Home for special groups.
use vstd::prelude::*;

use super::free::Word;
use super::permutation::{is_bijection, Permutation};
use super::tree::{transform_defined, transform_view, SLP};
use super::{GroupAction, GroupElement, Morphism};

verus! {

/// A special product of a `SLP` and a `Permutation`: the permutation does the
/// work, the `SLP` records how it was formed from the generators.
#[derive(Debug)]
pub struct SLPPermutation {
    /// The product of a SLP and a Permutation.
    pub element: (SLP, Permutation),
}

impl View for SLPPermutation {
    type V = (SLP, Map<u64, u64>);

    open spec fn view(&self) -> (SLP, Map<u64, u64>) {
        (self.element.0, self.element.1@)
    }
}

impl PartialEq for SLPPermutation {
    fn eq(&self, other: &SLPPermutation) -> (r: bool)
        ensures
            r == (self@ == other@),
    {
        self.element.0.eq(&other.element.0) && self.element.1.eq(&other.element.1)
    }
}

impl vstd::std_specs::cmp::PartialEqSpecImpl for SLPPermutation {
    open spec fn obeys_eq_spec() -> bool {
        true
    }

    open spec fn eq_spec(&self, other: &SLPPermutation) -> bool {
        self@ == other@
    }
}

/// `==` on these elements is equality of their SLPs and mappings.
pub proof fn lemma_eq_is_model()
    ensures
        super::eq_is_model::<SLPPermutation>(),
{
}

impl SLPPermutation {
    /// Create an `SLPPermutation`.
    pub fn new(slp: SLP, permutation: Permutation) -> (r: SLPPermutation)
        ensures
            r@ == (slp, permutation@),
    {
        SLPPermutation { element: (slp, permutation) }
    }

    /// Map the `SLPPermutation` in to a `Word` according to the `Morphism`.
    pub fn transform(&self, morphism: &Morphism) -> (r: Word)
        requires
            transform_defined(self@.0, morphism@),
        ensures
            r@ == transform_view(self@.0, morphism@),
    {
        self.element.0.transform(morphism)
    }
}

impl GroupElement for SLPPermutation {
    open spec fn identity_view(v: (SLP, Map<u64, u64>)) -> bool {
        Permutation::identity_view(v.1)
    }

    open spec fn times_view(a: (SLP, Map<u64, u64>), b: (SLP, Map<u64, u64>)) -> (
        SLP,
        Map<u64, u64>,
    ) {
        (SLP::times_view(a.0, b.0), Permutation::times_view(a.1, b.1))
    }

    open spec fn inverse_view(a: (SLP, Map<u64, u64>)) -> (SLP, Map<u64, u64>) {
        (SLP::inverse_view(a.0), Permutation::inverse_view(a.1))
    }

    open spec fn times_defined(a: (SLP, Map<u64, u64>), b: (SLP, Map<u64, u64>)) -> bool {
        true
    }

    fn is_identity(&self) -> (r: bool) {
        self.element.1.is_identity()
    }

    fn times(&self, multiplicant: &SLPPermutation) -> (r: SLPPermutation) {
        SLPPermutation::new(
            self.element.0.times(&multiplicant.element.0),
            self.element.1.times(&multiplicant.element.1),
        )
    }

    fn inverse(&self) -> (r: SLPPermutation) {
        SLPPermutation::new(self.element.0.inverse(), self.element.1.inverse())
    }
}

impl GroupAction for SLPPermutation {
    type Domain = u64;

    open spec fn act_view(v: (SLP, Map<u64, u64>), p: u64) -> u64 {
        Permutation::act_view(v.1, p)
    }

    fn act_on(&self, point: &u64) -> (r: u64) {
        self.element.1.act_on(point)
    }
}

/// An element times its inverse is the identity when its permutation is a
/// bijection of `0..n`; the recorded SLP does not matter.
pub proof fn lemma_times_inverse_is_identity(g: (SLP, Map<u64, u64>))
    requires
        is_bijection(g.1),
    ensures
        SLPPermutation::identity_view(SLPPermutation::times_view(g, SLPPermutation::inverse_view(g))),
{
    super::permutation::lemma_times_inverse_is_identity(g.1);
}

} // verus!
