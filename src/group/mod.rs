//! Group elements, group actions, and the stabilizer chain built from them.
use vstd::prelude::*;

pub mod free;
pub mod permutation;
pub mod special;
pub mod stripping;
pub mod text;
pub mod tree;

use std::collections::HashMap;
use vstd::std_specs::cmp::PartialEqSpec;

use self::free::Word;
use self::tree::SLP;

verus! {

/// The contract for a group element. Each element type carries a mathematical
/// model (its view); the operations are stated over that model.
pub trait GroupElement: Sized + View {
    /// Whether the model is the identity.
    spec fn identity_view(v: Self::V) -> bool;

    /// The model of `a.times(b)`.
    spec fn times_view(a: Self::V, b: Self::V) -> Self::V;

    /// The model of `a.inverse()`.
    spec fn inverse_view(a: Self::V) -> Self::V;

    /// Whether `a.times(b)` can be computed within machine limits.
    spec fn times_defined(a: Self::V, b: Self::V) -> bool;

    /// Determine if the group element is the identity.
    fn is_identity(&self) -> (r: bool)
        ensures
            r == Self::identity_view(self@),
    ;

    /// The associated operation of the group: first `self`, then `multiplicant`.
    fn times(&self, multiplicant: &Self) -> (r: Self)
        requires
            Self::times_defined(self@, multiplicant@),
        ensures
            r@ == Self::times_view(self@, multiplicant@),
    ;

    /// Returns the inverse of the group element.
    fn inverse(&self) -> (r: Self)
        ensures
            r@ == Self::inverse_view(self@),
    ;
}

/// A group can act on a set: each element moves the points of its domain.
pub trait GroupAction: View {
    /// The set the group acts on.
    type Domain;

    /// The model of `g.act_on(p)`.
    spec fn act_view(v: Self::V, p: Self::Domain) -> Self::Domain;

    /// The action that the group has on the domain.
    fn act_on(&self, element: &Self::Domain) -> (r: Self::Domain)
        ensures
            r == Self::act_view(self@, *element),
    ;
}

/// Every product of two elements of `G` can be computed.
pub open spec fn times_total<G: GroupElement>() -> bool {
    forall|a: G::V, b: G::V| #[trigger] G::times_defined(a, b)
}

/// The models of a sequence of elements.
pub open spec fn views<G: View>(s: Seq<G>) -> Seq<G::V> {
    s.map_values(|g: G| g@)
}

/// The first generator of `gens` (in order) that moves `x`, applied to `x`.
pub open spec fn first_image<G: GroupAction<Domain = u64>>(gens: Seq<G::V>, x: u64) -> Option<u64>
    decreases gens.len(),
{
    if gens.len() == 0 {
        None
    } else if G::act_view(gens[0], x) != x {
        Some(G::act_view(gens[0], x))
    } else {
        first_image::<G>(gens.skip(1), x)
    }
}

/// The base chosen for a generating set: for the first point of `gset` (in
/// order) that some generator moves, its image under the first such
/// generator.
pub open spec fn base_choice<G: GroupAction<Domain = u64>>(gset: Seq<u64>, gens: Seq<G::V>) -> Option<u64>
    decreases gset.len(),
{
    if gset.len() == 0 {
        None
    } else {
        match first_image::<G>(gens, gset[0]) {
            Some(image) => Some(image),
            None => base_choice::<G>(gset.skip(1), gens),
        }
    }
}

/// The identity as the transversal walk starts it: the first generator times
/// its inverse.
pub open spec fn identity_of<G: GroupElement>(gens: Seq<G::V>) -> G::V {
    G::times_view(gens[0], G::inverse_view(gens[0]))
}

/// Walks a Schreier vector back from `p` to the base, at most `fuel` steps,
/// multiplying `acc` by the inverse of each generator on the way; the result
/// is the inverse of the product, a transversal from the base to `p`.
pub open spec fn walk<G: GroupElement + GroupAction<Domain = u64>>(
    gens: Seq<G::V>,
    indices: Map<u64, isize>,
    p: u64,
    acc: G::V,
    fuel: nat,
) -> Option<G::V>
    decreases fuel,
{
    if !indices.contains_key(p) {
        None
    } else if indices[p] == -1 {
        Some(G::inverse_view(acc))
    } else if fuel == 0 || indices[p] < 0 || indices[p] >= gens.len() {
        None
    } else {
        let inv = G::inverse_view(gens[indices[p] as int]);
        walk::<G>(gens, indices, G::act_view(inv, p), G::times_view(acc, inv), (fuel - 1) as nat)
    }
}

/// The transversal for `p` that `transversal_for` computes.
pub open spec fn transversal_view<G: GroupElement + GroupAction<Domain = u64>>(
    gens: Seq<G::V>,
    indices: Map<u64, isize>,
    p: u64,
) -> Option<G::V> {
    if gens.len() == 0 {
        None
    } else {
        walk::<G>(gens, indices, p, identity_of::<G>(gens), indices.len())
    }
}

/// Reconstructs, from a Schreier vector, the element that maps the base to
/// `start`: `None` when `start` is not in the orbit, or when the vector does
/// not lead back to the base.
pub fn transversal_for<G>(start: &u64, generators: &Vec<G>, indices: &HashMap<u64, isize>) -> (r:
    Option<G>)
    where
        G: GroupElement + GroupAction<Domain = u64>,
    requires
        times_total::<G>(),
    ensures
        match r {
            Some(t) => transversal_view::<G>(views(generators@), indices@, *start) == Some(t@),
            None => transversal_view::<G>(views(generators@), indices@, *start) is None,
        },
{
    broadcast use vstd::std_specs::hash::group_hash_axioms;

    let ghost gens = views(generators@);
    if generators.len() == 0 {
        return None;
    }
    let first = &generators[0];
    let mut transversal = first.times(&first.inverse());
    let mut image: u64 = *start;
    let limit = indices.len();
    let mut steps: usize = 0;
    loop
        invariant
            gens == views(generators@),
            gens.len() > 0,
            times_total::<G>(),
            limit == indices@.len(),
            steps <= limit,
            transversal_view::<G>(gens, indices@, *start) == walk::<G>(
                gens,
                indices@,
                image,
                transversal@,
                (limit - steps) as nat,
            ),
        decreases limit - steps,
    {
        let index: isize = match indices.get(&image) {
            Some(i) => *i,
            None => {
                return None;
            },
        };
        if index == -1 {
            return Some(transversal.inverse());
        }
        if steps >= limit || index < 0 || index as usize >= generators.len() {
            return None;
        }
        let inverse = generators[index as usize].inverse();
        image = inverse.act_on(&image);
        proof {
            assert(G::times_defined(transversal@, inverse@));
        }
        transversal = transversal.times(&inverse);
        steps += 1;
    }
}

/// Picks a base for a generating set: the image of the first point of `gset`
/// that some generator moves, under the first generator that moves it.
pub fn find_base<G>(gset: &Vec<u64>, generators: &Vec<G>) -> (r: Option<u64>)
    where
        G: GroupElement + GroupAction<Domain = u64>,
    ensures
        r == base_choice::<G>(gset@, views(generators@)),
{
    let ghost gens = views(generators@);
    let mut i: usize = 0;
    assert(gset@.skip(0) =~= gset@);
    while i < gset.len()
        invariant
            i <= gset@.len(),
            gens == views(generators@),
            base_choice::<G>(gset@, gens) == base_choice::<G>(gset@.skip(i as int), gens),
        decreases gset@.len() - i,
    {
        let point = gset[i];
        let mut j: usize = 0;
        assert(gens.skip(0) =~= gens);
        while j < generators.len()
            invariant
                i < gset@.len(),
                point == gset@[i as int],
                j <= generators@.len(),
                gens == views(generators@),
                first_image::<G>(gens, point) == first_image::<G>(gens.skip(j as int), point),
                base_choice::<G>(gset@, gens) == base_choice::<G>(gset@.skip(i as int), gens),
            decreases generators@.len() - j,
        {
            let image = generators[j].act_on(&point);
            proof {
                assert(gens.skip(j as int)[0] == gens[j as int]);
                assert(gens.skip(j as int).skip(1) =~= gens.skip(j + 1));
            }
            if image != point {
                proof {
                    assert(gset@.skip(i as int)[0] == point);
                    assert(first_image::<G>(gens.skip(j as int), point) == Some(image));
                    assert(first_image::<G>(gens, gset@.skip(i as int)[0]) == Some(image));
                    assert(gset@.skip(i as int).len() > 0);
                    assert(base_choice::<G>(gset@.skip(i as int), gens) == Some(image));
                }
                return Some(image);
            }
            j += 1;
        }
        proof {
            assert(gens.skip(j as int).len() == 0);
            assert(gset@.skip(i as int)[0] == point);
            assert(gset@.skip(i as int).skip(1) =~= gset@.skip(i + 1));
        }
        i += 1;
    }
    proof {
        assert(gset@.skip(i as int).len() == 0);
    }
    None
}

/// `t` is the transversal that the Schreier vector yields for `p`, with enough
/// steps allowed.
pub open spec fn reaches<G: GroupElement + GroupAction<Domain = u64>>(
    gens: Seq<G::V>,
    indices: Map<u64, isize>,
    p: u64,
    t: G::V,
) -> bool {
    exists|fuel: nat| walk::<G>(gens, indices, p, identity_of::<G>(gens), fuel) == Some(t)
}

/// `s` is a Schreier generator: the transversal for an orbit point `p`, times
/// a generator, times the inverse of the transversal for the image of `p`.
pub open spec fn is_schreier_generator<G: GroupElement + GroupAction<Domain = u64>>(
    gens: Seq<G::V>,
    indices: Map<u64, isize>,
    s: G::V,
) -> bool {
    exists|p: u64, i: int, t: G::V, u: G::V|
        0 <= i < gens.len() && reaches::<G>(gens, indices, p, t) && reaches::<G>(
            gens,
            indices,
            G::act_view(gens[i], p),
            u,
        ) && s == G::times_view(G::times_view(t, gens[i]), G::inverse_view(u))
}

/// A walk that succeeds keeps its result when the Schreier vector gains a
/// point.
proof fn lemma_walk_extends<G: GroupElement + GroupAction<Domain = u64>>(
    gens: Seq<G::V>,
    indices: Map<u64, isize>,
    k: u64,
    v: isize,
    p: u64,
    acc: G::V,
    fuel: nat,
)
    requires
        !indices.contains_key(k),
        walk::<G>(gens, indices, p, acc, fuel) is Some,
    ensures
        walk::<G>(gens, indices.insert(k, v), p, acc, fuel) == walk::<G>(gens, indices, p, acc, fuel),
    decreases fuel,
{
    if indices[p] != -1 && fuel > 0 {
        let inv = G::inverse_view(gens[indices[p] as int]);
        lemma_walk_extends::<G>(gens, indices, k, v, G::act_view(inv, p), G::times_view(acc, inv), (fuel - 1) as nat);
    }
}

/// A Schreier generator stays one when the Schreier vector gains a point.
proof fn lemma_schreier_extends<G: GroupElement + GroupAction<Domain = u64>>(
    gens: Seq<G::V>,
    indices: Map<u64, isize>,
    k: u64,
    v: isize,
    s: G::V,
)
    requires
        !indices.contains_key(k),
        is_schreier_generator::<G>(gens, indices, s),
    ensures
        is_schreier_generator::<G>(gens, indices.insert(k, v), s),
{
    let (p, i, t, u) = choose|p: u64, i: int, t: G::V, u: G::V|
        0 <= i < gens.len() && reaches::<G>(gens, indices, p, t) && reaches::<G>(
            gens,
            indices,
            G::act_view(gens[i], p),
            u,
        ) && s == G::times_view(G::times_view(t, gens[i]), G::inverse_view(u));
    let f1 = choose|fuel: nat| walk::<G>(gens, indices, p, identity_of::<G>(gens), fuel) == Some(t);
    let q = G::act_view(gens[i], p);
    let f2 = choose|fuel: nat| walk::<G>(gens, indices, q, identity_of::<G>(gens), fuel) == Some(u);
    lemma_walk_extends::<G>(gens, indices, k, v, p, identity_of::<G>(gens), f1);
    lemma_walk_extends::<G>(gens, indices, k, v, q, identity_of::<G>(gens), f2);
    let m = indices.insert(k, v);
    assert(reaches::<G>(gens, m, p, t));
    assert(reaches::<G>(gens, m, q, u));
}

/// The inverse of each generator undoes it on every point.
pub open spec fn inverses_undo<G: GroupElement + GroupAction<Domain = u64>>(gens: Seq<G::V>) -> bool {
    forall|i: int, q: u64|
        0 <= i < gens.len() ==> #[trigger] G::act_view(G::inverse_view(gens[i]), G::act_view(gens[i], q)) == q
}

/// Depths of the points of a Schreier vector: the base has depth zero, and
/// stepping back from any other point by the inverse of its generator reaches
/// a point of smaller depth; every depth is below the number of points.
pub open spec fn depths_wf<G: GroupElement + GroupAction<Domain = u64>>(
    base: u64,
    gens: Seq<G::V>,
    indices: Map<u64, isize>,
    depth: Map<u64, nat>,
) -> bool {
    &&& depth.dom() == indices.dom()
    &&& depth.contains_key(base) ==> depth[base] == 0
    &&& forall|p: u64| #[trigger] depth.contains_key(p) ==> depth[p] < indices.len()
    &&& forall|p: u64| #[trigger]
        indices.contains_key(p) && p != base ==> {
            let q = G::act_view(G::inverse_view(gens[indices[p] as int]), p);
            &&& indices.contains_key(q)
            &&& depth[q] < depth[p]
        }
}

/// With depths, a walk with at least as many steps as the depth succeeds.
proof fn lemma_walk_succeeds<G: GroupElement + GroupAction<Domain = u64>>(
    base: u64,
    gens: Seq<G::V>,
    indices: Map<u64, isize>,
    depth: Map<u64, nat>,
    p: u64,
    acc: G::V,
    fuel: nat,
)
    requires
        indices.contains_key(base) && indices[base] == -1,
        forall|x: u64| #[trigger] indices.contains_key(x) && x != base ==> 0 <= indices[x] < gens.len(),
        depths_wf::<G>(base, gens, indices, depth),
        indices.contains_key(p),
        fuel >= depth[p],
    ensures
        walk::<G>(gens, indices, p, acc, fuel) is Some,
    decreases depth[p],
{
    if indices[p] != -1 {
        assert(p != base);
        let inv = G::inverse_view(gens[indices[p] as int]);
        let q = G::act_view(inv, p);
        lemma_walk_succeeds::<G>(base, gens, indices, depth, q, G::times_view(acc, inv), (fuel - 1) as nat);
    }
}

/// `p` is reached from `base` by `steps` applications of generators.
pub open spec fn reachable<G: GroupAction<Domain = u64>>(
    base: u64,
    gens: Seq<G::V>,
    p: u64,
    steps: nat,
) -> bool
    decreases steps,
{
    if steps == 0 {
        p == base
    } else {
        exists|q: u64, i: int|
            0 <= i < gens.len() && reachable::<G>(base, gens, q, (steps - 1) as nat) && #[trigger] G::act_view(
                gens[i],
                q,
            ) == p
    }
}

/// `p` lies in the orbit of `base` under `gens`.
pub open spec fn in_orbit<G: GroupAction<Domain = u64>>(base: u64, gens: Seq<G::V>, p: u64) -> bool {
    exists|steps: nat| reachable::<G>(base, gens, p, steps)
}

/// A key set that holds the base and is closed under the generators holds
/// the whole orbit.
proof fn lemma_closed_holds_orbit<G: GroupAction<Domain = u64>>(
    base: u64,
    gens: Seq<G::V>,
    indices: Map<u64, isize>,
    p: u64,
    steps: nat,
)
    requires
        schreier_vector_wf::<G>(base, gens, indices),
        reachable::<G>(base, gens, p, steps),
    ensures
        indices.contains_key(p),
    decreases steps,
{
    if steps > 0 {
        let (q, i) = choose|q: u64, i: int|
            0 <= i < gens.len() && reachable::<G>(base, gens, q, (steps - 1) as nat) && #[trigger] G::act_view(
                gens[i],
                q,
            ) == p;
        lemma_closed_holds_orbit::<G>(base, gens, indices, q, (steps - 1) as nat);
    }
}

/// A walk that succeeds keeps its result when allowed more steps.
proof fn lemma_walk_more_fuel<G: GroupElement + GroupAction<Domain = u64>>(
    gens: Seq<G::V>,
    indices: Map<u64, isize>,
    p: u64,
    acc: G::V,
    fuel: nat,
    more: nat,
)
    requires
        walk::<G>(gens, indices, p, acc, fuel) is Some,
        more >= fuel,
    ensures
        walk::<G>(gens, indices, p, acc, more) == walk::<G>(gens, indices, p, acc, fuel),
    decreases fuel,
{
    if indices[p] != -1 {
        let inv = G::inverse_view(gens[indices[p] as int]);
        lemma_walk_more_fuel::<G>(gens, indices, G::act_view(inv, p), G::times_view(acc, inv), (fuel - 1) as nat, (more - 1) as nat);
    }
}

/// The Schreier generator of the pair `(p, i)` from the transversals of the
/// vector: the transversal for `p`, times generator `i`, times the inverse of
/// the transversal for the image.
pub open spec fn schreier_of<G: GroupElement + GroupAction<Domain = u64>>(
    gens: Seq<G::V>,
    indices: Map<u64, isize>,
    p: u64,
    i: int,
) -> Option<G::V> {
    match (
        transversal_view::<G>(gens, indices, p),
        transversal_view::<G>(gens, indices, G::act_view(gens[i], p)),
    ) {
        (Some(t), Some(u)) => Some(G::times_view(G::times_view(t, gens[i]), G::inverse_view(u))),
        _ => None,
    }
}

/// `==` on elements of `G` is equality of their models.
pub open spec fn eq_is_model<G: View + PartialEq>() -> bool {
    &&& G::obeys_eq_spec()
    &&& forall|a: G, b: G| #[trigger] a.eq_spec(&b) <==> a@ == b@
}

/// `s` is an entry of `stabs`.
pub open spec fn listed<V>(stabs: Seq<V>, s: V) -> bool {
    exists|k: int| 0 <= k < stabs.len() && stabs[k] == s
}

/// The pair `(p, i)` is accounted for: either it discovered its image (the
/// image is not the base and records generator `i`), or its Schreier generator
/// is the identity or listed, or the list is full.
pub open spec fn pair_done<G: GroupElement + GroupAction<Domain = u64> + PartialEq>(
    base: u64,
    gens: Seq<G::V>,
    indices: Map<u64, isize>,
    stabs: Seq<G::V>,
    p: u64,
    i: int,
) -> bool {
    let q = G::act_view(gens[i], p);
    ||| q != base && indices.contains_key(q) && indices[q] == i as isize
    ||| stabs.len() >= isize::MAX
    ||| match schreier_of::<G>(gens, indices, p, i) {
        Some(s) => G::identity_view(s) || listed(stabs, s),
        None => false,
    }
}

/// An accounted pair stays accounted when the vector gains a point.
proof fn lemma_pair_done_extends<G: GroupElement + GroupAction<Domain = u64> + PartialEq>(
    base: u64,
    gens: Seq<G::V>,
    indices: Map<u64, isize>,
    k: u64,
    v: isize,
    stabs: Seq<G::V>,
    p: u64,
    i: int,
)
    requires
        pair_done::<G>(base, gens, indices, stabs, p, i),
        indices.contains_key(G::act_view(gens[i], p)),
        !indices.contains_key(k),
        indices.dom().finite(),
    ensures
        pair_done::<G>(base, gens, indices.insert(k, v), stabs, p, i),
{
    let m = indices.insert(k, v);
    assert(m.len() >= indices.len()) by {
        assert(m.dom() =~= indices.dom().insert(k));
    }
    let q = G::act_view(gens[i], p);
    if gens.len() > 0 {
        let id = identity_of::<G>(gens);
        if walk::<G>(gens, indices, p, id, indices.len()) is Some {
            lemma_walk_extends::<G>(gens, indices, k, v, p, id, indices.len());
            lemma_walk_more_fuel::<G>(gens, m, p, id, indices.len(), m.len());
        }
        if walk::<G>(gens, indices, q, id, indices.len()) is Some {
            lemma_walk_extends::<G>(gens, indices, k, v, q, id, indices.len());
            lemma_walk_more_fuel::<G>(gens, m, q, id, indices.len(), m.len());
        }
    }
}

/// An accounted pair stays accounted when the list grows.
proof fn lemma_pair_done_push<G: GroupElement + GroupAction<Domain = u64> + PartialEq>(
    base: u64,
    gens: Seq<G::V>,
    indices: Map<u64, isize>,
    stabs: Seq<G::V>,
    x: G::V,
    p: u64,
    i: int,
)
    requires
        pair_done::<G>(base, gens, indices, stabs, p, i),
    ensures
        pair_done::<G>(base, gens, indices, stabs.push(x), p, i),
{
    if let Some(s) = schreier_of::<G>(gens, indices, p, i) {
        if listed(stabs, s) {
            let k = choose|k: int| 0 <= k < stabs.len() && stabs[k] == s;
            assert(stabs.push(x)[k] == stabs[k]);
        }
    }
}

/// A Schreier vector for `base` and `gens`: the base maps to `-1`, every other
/// point of the orbit to the index of a generator that carries some orbit point
/// to it, and the orbit is closed under every generator.
pub open spec fn schreier_vector_wf<G: GroupAction<Domain = u64>>(
    base: u64,
    gens: Seq<G::V>,
    indices: Map<u64, isize>,
) -> bool {
    &&& indices.dom().finite()
    &&& indices.contains_key(base)
    &&& indices[base] == -1
    &&& forall|p: u64| #[trigger]
        indices.contains_key(p) && p != base ==> 0 <= indices[p] < gens.len() && exists|q: u64|
            indices.contains_key(q) && G::act_view(gens[indices[p] as int], q) == p
    &&& forall|p: u64, i: int|
        indices.contains_key(p) && 0 <= i < gens.len() ==> indices.contains_key(
            #[trigger] G::act_view(gens[i], p),
        )
}

/// A finite set of `u64` has at most 2^64 elements.
pub proof fn lemma_u64_set_len(s: Set<u64>)
    requires
        s.finite(),
    ensures
        s.len() <= 0x1_0000_0000_0000_0000,
{
    let f = |x: u64| x as int;
    let t = s.map(f);
    assert(vstd::relations::injective_on(f, s));
    vstd::set_lib::lemma_map_size(s, t, f);
    vstd::set_lib::lemma_int_range(0, 0x1_0000_0000_0000_0000);
    assert(t.subset_of(vstd::set_lib::set_int_range(0, 0x1_0000_0000_0000_0000)));
    vstd::set_lib::lemma_len_subset(t, vstd::set_lib::set_int_range(0, 0x1_0000_0000_0000_0000));
}

/// Decides whether a new Schreier generator joins the list: it must not be the
/// identity, nor equal to one already there.
fn add_to_stabilizers<G>(stabilizer: &G, stabilizers: &Vec<G>) -> (r: bool)
    where
        G: GroupElement + PartialEq,
    ensures
        r ==> !G::identity_view(stabilizer@),
        G::obeys_eq_spec() ==> (r <==> !G::identity_view(stabilizer@) && forall|k: int|
            0 <= k < stabilizers@.len() ==> !(#[trigger] stabilizers@[k]).eq_spec(stabilizer)),
{
    if stabilizer.is_identity() {
        return false;
    }
    let mut k: usize = 0;
    while k < stabilizers.len()
        invariant
            k <= stabilizers@.len(),
            G::obeys_eq_spec() ==> forall|j: int| 0 <= j < k ==> !(#[trigger] stabilizers@[j]).eq_spec(stabilizer),
        decreases stabilizers@.len() - k,
    {
        if stabilizers[k] == *stabilizer {
            return false;
        }
        k += 1;
    }
    true
}

/// A level in the Schreier-Sims base and strong generating set: an orbit of
/// the base with its Schreier vector.
pub struct BaseStrongGeneratorLevel<G>
    where
        G: GroupElement + GroupAction<Domain = u64> + PartialEq,
{
    /// The base element for this level.
    base: u64,
    /// Generators that act on the base to form the orbit.
    generators: Vec<G>,
    /// A Schreier vector for this base and generators; its keys are the orbit.
    indices: HashMap<u64, isize>,
    /// The models of the Schreier generators this level produced.
    stabilizers: Ghost<Seq<G::V>>,
}

impl<G> View for BaseStrongGeneratorLevel<G>
    where
        G: GroupElement + GroupAction<Domain = u64> + PartialEq,
{
    type V = (u64, Seq<G::V>, Map<u64, isize>);

    closed spec fn view(&self) -> (u64, Seq<G::V>, Map<u64, isize>) {
        (self.base, views(self.generators@), self.indices@)
    }
}

impl<G> BaseStrongGeneratorLevel<G>
    where
        G: GroupElement + GroupAction<Domain = u64> + PartialEq,
{
    /// The models of the Schreier generators this level produced when built.
    pub closed spec fn schreier_generators(&self) -> Seq<G::V> {
        self.stabilizers@
    }

    /// Explores the orbit of `base` breadth first, generators in order, and
    /// returns the level together with the non-trivial Schreier generators of
    /// the stabilizer of `base`, without repetitions (a list that holds
    /// `isize::MAX` of them, which no memory can, takes no more).
    pub fn new(base: u64, generators: Vec<G>) -> (r: (Self, Vec<G>))
        requires
            times_total::<G>(),
            generators@.len() <= isize::MAX,
        ensures
            r.0.schreier_generators() == views(r.1@),
            r.1@.len() <= isize::MAX,
            r.0@.0 == base,
            r.0@.1 == views(generators@),
            schreier_vector_wf::<G>(r.0@.0, r.0@.1, r.0@.2),
            forall|p: u64| #[trigger] r.0@.2.contains_key(p) <==> in_orbit::<G>(base, r.0@.1, p),
            r.0@.1.len() > 0 && inverses_undo::<G>(r.0@.1) ==> forall|p: u64| #[trigger]
                r.0@.2.contains_key(p) ==> transversal_view::<G>(r.0@.1, r.0@.2, p) is Some,
            inverses_undo::<G>(r.0@.1) && eq_is_model::<G>() ==> forall|p: u64, i: int|
                r.0@.2.contains_key(p) && 0 <= i < r.0@.1.len() ==> #[trigger] pair_done::<G>(
                    base,
                    r.0@.1,
                    r.0@.2,
                    views(r.1@),
                    p,
                    i,
                ),
            forall|k: int| 0 <= k < r.1@.len() ==> !G::identity_view(#[trigger] r.1@[k]@),
            forall|k: int|
                0 <= k < r.1@.len() ==> is_schreier_generator::<G>(r.0@.1, r.0@.2, #[trigger] r.1@[k]@),
            G::obeys_eq_spec() ==> forall|k: int, l: int| #![trigger r.1@[k], r.1@[l]]
                0 <= k < l < r.1@.len() ==> !r.1@[k].eq_spec(&r.1@[l]),
    {
        broadcast use vstd::std_specs::hash::group_hash_axioms;

        let ghost gens = views(generators@);
        let mut orbit: Vec<u64> = Vec::new();
        let mut indices: HashMap<u64, isize> = HashMap::new();
        let mut stabilizers: Vec<G> = Vec::new();
        orbit.push(base);
        indices.insert(base, -1);
        let ghost mut depth: Map<u64, nat> = map![base => 0nat];
        proof {
            assert(indices@.dom() =~= set![base]);
            assert(depth.dom() =~= set![base]);
            assert(orbit@[0] == base);
            assert(reachable::<G>(base, gens, base, 0));
        }
        let mut head: usize = 0;
        while head < orbit.len()
            invariant
                gens == views(generators@),
                times_total::<G>(),
                generators@.len() <= isize::MAX,
                stabilizers@.len() <= isize::MAX,
                indices@.dom().finite(),
                orbit@.len() == indices@.len(),
                head <= orbit@.len(),
                indices@.contains_key(base),
                indices@[base] == -1,
                forall|j: int| 0 <= j < orbit@.len() ==> indices@.contains_key(#[trigger] orbit@[j]),
                forall|p: u64| #[trigger]
                    indices@.contains_key(p) ==> exists|j: int| 0 <= j < orbit@.len() && orbit@[j] == p,
                forall|p: u64| #[trigger]
                    indices@.contains_key(p) && p != base ==> 0 <= indices@[p] < gens.len() && exists|q: u64|
                        indices@.contains_key(q) && G::act_view(gens[indices@[p] as int], q) == p,
                forall|j: int, i: int|
                    0 <= j < head && 0 <= i < gens.len() ==> indices@.contains_key(
                        #[trigger] G::act_view(gens[i], orbit@[j]),
                    ),
                forall|k: int| 0 <= k < stabilizers@.len() ==> !G::identity_view(#[trigger] stabilizers@[k]@),
                forall|k: int|
                    0 <= k < stabilizers@.len() ==> is_schreier_generator::<G>(gens, indices@, #[trigger] stabilizers@[k]@),
                G::obeys_eq_spec() ==> forall|k: int, l: int| #![trigger stabilizers@[k], stabilizers@[l]]
                    0 <= k < l < stabilizers@.len() ==> !stabilizers@[k].eq_spec(&stabilizers@[l]),
                forall|p: u64| #[trigger] indices@.contains_key(p) ==> in_orbit::<G>(base, gens, p),
                inverses_undo::<G>(gens) ==> depths_wf::<G>(base, gens, indices@, depth),
                inverses_undo::<G>(gens) && eq_is_model::<G>() ==> forall|j: int, i: int|
                    0 <= j < head && 0 <= i < gens.len() ==> #[trigger] pair_done::<G>(
                        base,
                        gens,
                        indices@,
                        views(stabilizers@),
                        orbit@[j],
                        i,
                    ),
            decreases 2 * (0x1_0000_0000_0000_0000 - indices@.len()) + (orbit@.len() - head),
        {
            proof {
                lemma_u64_set_len(indices@.dom());
            }
            let element = orbit[head];
            let ghost start_len = orbit@.len();
            let mut index: usize = 0;
            while index < generators.len()
                invariant
                    gens == views(generators@),
                    times_total::<G>(),
                    generators@.len() <= isize::MAX,
                    stabilizers@.len() <= isize::MAX,
                    indices@.dom().finite(),
                    orbit@.len() == indices@.len(),
                    head < orbit@.len(),
                    element == orbit@[head as int],
                    orbit@.len() >= start_len,
                    index <= generators@.len(),
                    indices@.contains_key(base),
                    indices@[base] == -1,
                    forall|j: int| 0 <= j < orbit@.len() ==> indices@.contains_key(#[trigger] orbit@[j]),
                    forall|p: u64| #[trigger]
                        indices@.contains_key(p) ==> exists|j: int| 0 <= j < orbit@.len() && orbit@[j] == p,
                    forall|p: u64| #[trigger]
                        indices@.contains_key(p) && p != base ==> 0 <= indices@[p] < gens.len() && exists|q: u64|
                            indices@.contains_key(q) && G::act_view(gens[indices@[p] as int], q) == p,
                    forall|j: int, i: int|
                        0 <= j < head && 0 <= i < gens.len() ==> indices@.contains_key(
                            #[trigger] G::act_view(gens[i], orbit@[j]),
                        ),
                    forall|i: int| 0 <= i < index ==> indices@.contains_key(
                        #[trigger] G::act_view(gens[i], element),
                    ),
                    forall|k: int| 0 <= k < stabilizers@.len() ==> !G::identity_view(#[trigger] stabilizers@[k]@),
                    forall|k: int|
                        0 <= k < stabilizers@.len() ==> is_schreier_generator::<G>(gens, indices@, #[trigger] stabilizers@[k]@),
                    G::obeys_eq_spec() ==> forall|k: int, l: int| #![trigger stabilizers@[k], stabilizers@[l]]
                        0 <= k < l < stabilizers@.len() ==> !stabilizers@[k].eq_spec(&stabilizers@[l]),
                    forall|p: u64| #[trigger] indices@.contains_key(p) ==> in_orbit::<G>(base, gens, p),
                    inverses_undo::<G>(gens) ==> depths_wf::<G>(base, gens, indices@, depth),
                    inverses_undo::<G>(gens) && eq_is_model::<G>() ==> forall|j: int, i: int|
                        0 <= j < head && 0 <= i < gens.len() ==> #[trigger] pair_done::<G>(
                            base,
                            gens,
                            indices@,
                            views(stabilizers@),
                            orbit@[j],
                            i,
                        ),
                    inverses_undo::<G>(gens) && eq_is_model::<G>() ==> forall|i: int|
                        0 <= i < index ==> #[trigger] pair_done::<G>(base, gens, indices@, views(stabilizers@), element, i),
                decreases generators@.len() - index,
            {
                let generator = &generators[index];
                let image = generator.act_on(&element);
                if !indices.contains_key(&image) {
                    let ghost old_indices = indices@;
                    let ghost old_orbit = orbit@;
                    indices.insert(image, index as isize);
                    orbit.push(image);
                    proof {
                        if inverses_undo::<G>(gens) && eq_is_model::<G>() {
                            assert forall|j: int, i: int|
                                0 <= j < head && 0 <= i < gens.len() implies #[trigger] pair_done::<G>(
                                    base,
                                    gens,
                                    indices@,
                                    views(stabilizers@),
                                    orbit@[j],
                                    i,
                                ) by {
                                assert(orbit@[j] == old_orbit[j]);
                                assert(old_indices.contains_key(G::act_view(gens[i], old_orbit[j])));
                                lemma_pair_done_extends::<G>(base, gens, old_indices, image, index as isize, views(stabilizers@), old_orbit[j], i);
                            }
                            assert forall|i: int| 0 <= i < index + 1 implies #[trigger] pair_done::<G>(
                                base,
                                gens,
                                indices@,
                                views(stabilizers@),
                                element,
                                i,
                            ) by {
                                if i < index {
                                    assert(old_indices.contains_key(G::act_view(gens[i], element)));
                                    lemma_pair_done_extends::<G>(base, gens, old_indices, image, index as isize, views(stabilizers@), element, i);
                                } else {
                                    assert(gens[i] == generator@);
                                    assert(image != base);
                                }
                            }
                        }
                        if inverses_undo::<G>(gens) {
                            let d = depth[element];
                            let old_depth = depth;
                            depth = depth.insert(image, d + 1);
                            assert(depth.dom() =~= indices@.dom());
                            assert(G::act_view(G::inverse_view(gens[index as int]), G::act_view(gens[index as int], element))
                                == element);
                            assert(gens[index as int] == generator@);
                            assert forall|p: u64| #[trigger] indices@.contains_key(p) && p != base implies {
                                let q = G::act_view(G::inverse_view(gens[indices@[p] as int]), p);
                                &&& indices@.contains_key(q)
                                &&& depth[q] < depth[p]
                            } by {
                                if p != image {
                                    assert(old_indices.contains_key(p));
                                    let q = G::act_view(G::inverse_view(gens[old_indices[p] as int]), p);
                                    assert(old_indices.contains_key(q));
                                    assert(q != image);
                                }
                            }
                            assert forall|p: u64| #[trigger] depth.contains_key(p) implies depth[p] < indices@.len() by {
                                if p != image {
                                    assert(old_depth.contains_key(p));
                                }
                            }
                        }
                        assert forall|p: u64| #[trigger] indices@.contains_key(p) implies in_orbit::<G>(base, gens, p) by {
                            if p == image {
                                assert(old_indices.contains_key(element));
                                let s = choose|s: nat| reachable::<G>(base, gens, element, s);
                                assert(gens[index as int] == generator@);
                                assert(reachable::<G>(base, gens, image, s + 1));
                            } else {
                                assert(old_indices.contains_key(p));
                            }
                        }
                        assert forall|k: int| 0 <= k < stabilizers@.len() implies is_schreier_generator::<G>(
                            gens, indices@, #[trigger] stabilizers@[k]@) by {
                            lemma_schreier_extends::<G>(gens, old_indices, image, index as isize, stabilizers@[k]@);
                        }
                        assert(indices@.dom() =~= old_indices.dom().insert(image));
                        assert(orbit@[orbit@.len() - 1] == image);
                        assert forall|j: int| 0 <= j < orbit@.len() implies indices@.contains_key(#[trigger] orbit@[j]) by {
                            if j < old_orbit.len() {
                                assert(orbit@[j] == old_orbit[j]);
                            }
                        }
                        assert forall|p: u64| #[trigger] indices@.contains_key(p) implies exists|j: int| 0 <= j < orbit@.len() && orbit@[j] == p by {
                            if p != image {
                                assert(old_indices.contains_key(p));
                                let j = choose|j: int| 0 <= j < old_orbit.len() && old_orbit[j] == p;
                                assert(orbit@[j] == p);
                            } else {
                                assert(orbit@[orbit@.len() - 1] == p);
                            }
                        }
                        assert forall|p: u64| #[trigger] indices@.contains_key(p) && p != base implies 0 <= indices@[p] < gens.len() && exists|q: u64|
                            indices@.contains_key(q) && G::act_view(gens[indices@[p] as int], q) == p by {
                            if p != image {
                                assert(old_indices.contains_key(p));
                                let q = choose|q: u64| old_indices.contains_key(q) && G::act_view(gens[old_indices[p] as int], q) == p;
                                assert(indices@.contains_key(q));
                            } else {
                                assert(indices@[p] == index as isize);
                                assert(indices@.contains_key(element));
                            }
                        }
                    }
                } else {
                    let to = transversal_for(&element, &generators, &indices);
                    let fro = transversal_for(&image, &generators, &indices);
                    let ghost before_all = stabilizers@;
                    proof {
                        if inverses_undo::<G>(gens) {
                            lemma_walk_succeeds::<G>(base, gens, indices@, depth, element, identity_of::<G>(gens), indices@.len());
                            lemma_walk_succeeds::<G>(base, gens, indices@, depth, image, identity_of::<G>(gens), indices@.len());
                        }
                    }
                    match (to, fro) {
                        (Some(to), Some(fro)) => {
                            let ghost u = fro@;
                            let fro = fro.inverse();
                            let stabilizer = to.times(generator).times(&fro);
                            proof {
                                let idx = indices@;
                                let f = idx.len();
                                assert(gens[index as int] == generator@);
                                assert(walk::<G>(gens, idx, element, identity_of::<G>(gens), f) == Some(to@));
                                assert(reaches::<G>(gens, idx, element, to@));
                                assert(walk::<G>(gens, idx, image, identity_of::<G>(gens), f) == Some(u));
                                assert(reaches::<G>(gens, idx, G::act_view(gens[index as int], element), u));
                                assert(is_schreier_generator::<G>(gens, idx, stabilizer@));
                            }
                            let ghost before = stabilizers@;
                            proof {
                                assert(gens[index as int] == generator@);
                                assert(schreier_of::<G>(gens, indices@, element, index as int) == Some(stabilizer@));
                            }
                            let full = stabilizers.len() >= isize::MAX as usize;
                            let added = if full {
                                false
                            } else {
                                add_to_stabilizers(&stabilizer, &stabilizers)
                            };
                            let ghost sv = stabilizer@;
                            proof {
                                if inverses_undo::<G>(gens) && eq_is_model::<G>() && !added && !full
                                    && !G::identity_view(sv) {
                                    let k = choose|k: int| 0 <= k < before.len() && before[k].eq_spec(&stabilizer);
                                    assert(before[k]@ == sv);
                                    assert(views(before)[k] == sv);
                                    assert(listed(views(before), sv));
                                }
                            }
                            if added {
                                stabilizers.push(stabilizer);
                                proof {
                                    assert(views(stabilizers@)[stabilizers@.len() - 1] == stabilizer@);
                                    assert(listed(views(stabilizers@), stabilizer@));
                                    assert forall|k: int| 0 <= k < stabilizers@.len() implies is_schreier_generator::<G>(
                                        gens, indices@, #[trigger] stabilizers@[k]@) by {
                                        if k < before.len() {
                                            assert(stabilizers@[k] == before[k]);
                                        }
                                    }
                                    if G::obeys_eq_spec() {
                                        assert forall|k: int, l: int| #![trigger stabilizers@[k], stabilizers@[l]]
                                            0 <= k < l < stabilizers@.len() implies !stabilizers@[k].eq_spec(
                                            &stabilizers@[l]) by {
                                            assert(stabilizers@[k] == before[k]);
                                            if l < before.len() {
                                                assert(stabilizers@[l] == before[l]);
                                            }
                                        }
                                    }
                                }
                            }
                        },
                        _ => {},
                    }
                    proof {
                        if inverses_undo::<G>(gens) && eq_is_model::<G>() {
                            let cur = views(stabilizers@);
                            let prev = views(before_all);
                            assert(cur == prev || (cur.len() == prev.len() + 1 && cur.drop_last() =~= prev)) by {
                                if stabilizers@.len() != before_all.len() {
                                    assert(stabilizers@.drop_last() =~= before_all);
                                } else {
                                    assert(stabilizers@ =~= before_all);
                                }
                            }
                            assert forall|j: int, i: int|
                                0 <= j < head && 0 <= i < gens.len() implies #[trigger] pair_done::<G>(
                                    base,
                                    gens,
                                    indices@,
                                    views(stabilizers@),
                                    orbit@[j],
                                    i,
                                ) by {
                                if cur != prev {
                                    lemma_pair_done_push::<G>(base, gens, indices@, prev, cur.last(), orbit@[j], i);
                                    assert(prev.push(cur.last()) =~= cur);
                                }
                            }
                            assert forall|i: int| 0 <= i < index + 1 implies #[trigger] pair_done::<G>(
                                base,
                                gens,
                                indices@,
                                views(stabilizers@),
                                element,
                                i,
                            ) by {
                                if i < index {
                                    if cur != prev {
                                        lemma_pair_done_push::<G>(base, gens, indices@, prev, cur.last(), element, i);
                                        assert(prev.push(cur.last()) =~= cur);
                                    }
                                }
                            }
                        }
                    }
                }
                index += 1;
            }
            proof {
                lemma_u64_set_len(indices@.dom());
                if inverses_undo::<G>(gens) && eq_is_model::<G>() {
                    assert forall|j: int, i: int|
                        0 <= j < head + 1 && 0 <= i < gens.len() implies #[trigger] pair_done::<G>(
                            base,
                            gens,
                            indices@,
                            views(stabilizers@),
                            orbit@[j],
                            i,
                        ) by {
                        if j == head {
                            assert(orbit@[j] == element);
                        }
                    }
                }
            }
            head += 1;
        }
        proof {
            assert forall|p: u64, i: int| indices@.contains_key(p) && 0 <= i < gens.len() implies indices@.contains_key(
                #[trigger] G::act_view(gens[i], p)) by {
                let j = choose|j: int| 0 <= j < orbit@.len() && orbit@[j] == p;
                assert(indices@.contains_key(G::act_view(gens[i], orbit@[j])));
            }
            assert forall|p: u64| in_orbit::<G>(base, gens, p) implies #[trigger] indices@.contains_key(p) by {
                let s = choose|s: nat| reachable::<G>(base, gens, p, s);
                lemma_closed_holds_orbit::<G>(base, gens, indices@, p, s);
            }
            if inverses_undo::<G>(gens) && eq_is_model::<G>() {
                assert forall|p: u64, i: int| indices@.contains_key(p) && 0 <= i < gens.len() implies #[trigger] pair_done::<G>(
                    base,
                    gens,
                    indices@,
                    views(stabilizers@),
                    p,
                    i,
                ) by {
                    let j = choose|j: int| 0 <= j < orbit@.len() && orbit@[j] == p;
                    assert(pair_done::<G>(base, gens, indices@, views(stabilizers@), orbit@[j], i));
                }
            }
            if gens.len() > 0 && inverses_undo::<G>(gens) {
                assert forall|p: u64| #[trigger] indices@.contains_key(p) implies transversal_view::<G>(
                    gens,
                    indices@,
                    p,
                ) is Some by {
                    lemma_walk_succeeds::<G>(base, gens, indices@, depth, p, identity_of::<G>(gens), indices@.len());
                }
            }
        }
        let ghost produced = views(stabilizers@);
        (BaseStrongGeneratorLevel { base, generators, indices, stabilizers: Ghost(produced) }, stabilizers)
    }

    /// Whether `g` carries the base into this level's orbit.
    pub fn has_transversal_for(&self, g: &G) -> (r: bool)
        ensures
            r == self@.2.contains_key(G::act_view(g@, self@.0)),
    {
        broadcast use vstd::std_specs::hash::group_hash_axioms;

        let image = g.act_on(&self.base);
        self.indices.contains_key(&image)
    }

    /// The transversal that carries the base to where `g` carries it.
    pub fn transversal_for(&self, g: &G) -> (r: Option<G>)
        requires
            times_total::<G>(),
        ensures
            match r {
                Some(t) => transversal_view::<G>(self@.1, self@.2, G::act_view(g@, self@.0)) == Some(t@),
                None => transversal_view::<G>(self@.1, self@.2, G::act_view(g@, self@.0)) is None,
            },
    {
        let image = g.act_on(&self.base);
        transversal_for(&image, &self.generators, &self.indices)
    }

    /// Length of the orbit.
    pub fn length(&self) -> (r: usize)
        ensures
            r == self@.2.len(),
    {
        broadcast use vstd::std_specs::hash::group_hash_axioms;

        self.indices.len()
    }
}

/// The product of the orbit lengths of a chain of levels.
pub open spec fn size_view<V>(levels: Seq<(u64, Seq<V>, Map<u64, isize>)>) -> int
    decreases levels.len(),
{
    if levels.len() == 0 {
        1
    } else {
        size_view(levels.drop_last()) * levels.last().2.len()
    }
}

/// Sifting `e` through `levels`: at each level, while the image of the base
/// lies in the orbit, multiply by the inverse of the transversal for it.
pub open spec fn strip_view<G: GroupElement + GroupAction<Domain = u64>>(
    levels: Seq<(u64, Seq<G::V>, Map<u64, isize>)>,
    e: G::V,
) -> G::V
    decreases levels.len(),
{
    if levels.len() == 0 {
        e
    } else {
        let level = levels[0];
        let image = G::act_view(e, level.0);
        if level.2.contains_key(image) {
            match transversal_view::<G>(level.1, level.2, image) {
                Some(t) => strip_view::<G>(levels.skip(1), G::times_view(e, G::inverse_view(t))),
                None => e,
            }
        } else {
            e
        }
    }
}

/// A stabilizer chain for generators `gens` over the points `gset`: the first
/// level is built from `gens`, each level from a non-empty generating set
/// whose base is chosen as `base_choice` says, each with a Schreier vector.
pub open spec fn chain_wf<G: GroupElement + GroupAction<Domain = u64>>(
    gset: Seq<u64>,
    gens: Seq<G::V>,
    levels: Seq<(u64, Seq<G::V>, Map<u64, isize>)>,
) -> bool {
    &&& (levels.len() == 0 <==> gens.len() == 0)
    &&& levels.len() > 0 ==> levels[0].1 == gens
    &&& forall|i: int|
        0 <= i < levels.len() ==> {
            &&& (#[trigger] levels[i]).1.len() > 0
            &&& base_choice::<G>(gset, levels[i].1) == Some(levels[i].0)
            &&& schreier_vector_wf::<G>(levels[i].0, levels[i].1, levels[i].2)
            &&& forall|p: u64| #[trigger]
                levels[i].2.contains_key(p) <==> in_orbit::<G>(levels[i].0, levels[i].1, p)
            &&& inverses_undo::<G>(levels[i].1) ==> forall|p: u64| #[trigger]
                levels[i].2.contains_key(p) ==> transversal_view::<G>(levels[i].1, levels[i].2, p) is Some
        }
    &&& forall|i: int, k: int|
        0 < i < levels.len() && 0 <= k < levels[i].1.len() ==> is_schreier_generator::<G>(
            levels[i - 1].1,
            levels[i - 1].2,
            #[trigger] levels[i].1[k],
        )
}

/// A chain whose orbits are all non-empty has a positive size.
proof fn lemma_size_pos<V>(levels: Seq<(u64, Seq<V>, Map<u64, isize>)>)
    requires
        forall|i: int| 0 <= i < levels.len() ==> (#[trigger] levels[i]).2.len() >= 1,
    ensures
        size_view(levels) >= 1,
    decreases levels.len(),
{
    if levels.len() > 0 {
        let d = levels.drop_last();
        assert forall|i: int| 0 <= i < d.len() implies (#[trigger] d[i]).2.len() >= 1 by {
            assert(d[i] == levels[i]);
        }
        lemma_size_pos(d);
        let a = size_view(d);
        let b = levels.last().2.len() as int;
        assert(b >= 1);
        assert(a * b >= 1) by (nonlinear_arith)
            requires
                b >= 1,
                a >= 1,
        ;
    }
}

/// The chain is complete: `lists[i]` is the list of non-trivial Schreier
/// generators that level `i` produced, the next level is built from exactly
/// that list, and the last level produced none. Where `==` is equality of
/// models and inverses undo the generators, each list accounts for every
/// pair of an orbit point and a generator.
pub open spec fn chain_complete<G: GroupElement + GroupAction<Domain = u64> + PartialEq>(
    levels: Seq<(u64, Seq<G::V>, Map<u64, isize>)>,
    lists: Seq<Seq<G::V>>,
) -> bool {
    &&& eq_is_model::<G>() ==> forall|i: int, p: u64, k: int|
        0 <= i < levels.len() && inverses_undo::<G>(levels[i].1) && levels[i].2.contains_key(p) && 0 <= k
            < levels[i].1.len() ==> #[trigger] pair_done::<G>(
            levels[i].0,
            levels[i].1,
            levels[i].2,
            lists[i],
            p,
            k,
        )
    &&& lists.len() == levels.len()
    &&& forall|i: int| 0 <= i < levels.len() - 1 ==> (#[trigger] levels[i + 1]).1 == lists[i]
    &&& levels.len() > 0 ==> lists[levels.len() - 1].len() == 0
    &&& forall|i: int, k: int|
        0 <= i < lists.len() && 0 <= k < lists[i].len() ==> is_schreier_generator::<G>(
            levels[i].1,
            levels[i].2,
            #[trigger] lists[i][k],
        ) && !G::identity_view(lists[i][k])
}

/// A stage of building the chain: `levels` built so far, each from the
/// Schreier generators of the one before, and `gs` the generating set to be
/// handled next: `gens` at first, later the non-trivial Schreier generators of
/// the last level.
pub open spec fn chain_stage<G: GroupElement + GroupAction<Domain = u64>>(
    gset: Seq<u64>,
    gens: Seq<G::V>,
    levels: Seq<(u64, Seq<G::V>, Map<u64, isize>)>,
    gs: Seq<G::V>,
) -> bool {
    &&& levels.len() == 0 ==> gs == gens
    &&& levels.len() > 0 ==> levels[0].1 == gens
    &&& levels.len() > 0 ==> forall|k: int|
        0 <= k < gs.len() ==> is_schreier_generator::<G>(
            levels[levels.len() - 1].1,
            levels[levels.len() - 1].2,
            #[trigger] gs[k],
        ) && !G::identity_view(gs[k])
    &&& forall|i: int|
        0 <= i < levels.len() ==> {
            &&& (#[trigger] levels[i]).1.len() > 0
            &&& base_choice::<G>(gset, levels[i].1) == Some(levels[i].0)
            &&& schreier_vector_wf::<G>(levels[i].0, levels[i].1, levels[i].2)
            &&& forall|p: u64| #[trigger]
                levels[i].2.contains_key(p) <==> in_orbit::<G>(levels[i].0, levels[i].1, p)
            &&& inverses_undo::<G>(levels[i].1) ==> forall|p: u64| #[trigger]
                levels[i].2.contains_key(p) ==> transversal_view::<G>(levels[i].1, levels[i].2, p) is Some
        }
    &&& forall|i: int, k: int|
        0 < i < levels.len() && 0 <= k < levels[i].1.len() ==> is_schreier_generator::<G>(
            levels[i - 1].1,
            levels[i - 1].2,
            #[trigger] levels[i].1[k],
        )
}

/// Every factor is at least one, so a prefix of the chain has no larger size.
proof fn lemma_size_prefix<V>(levels: Seq<(u64, Seq<V>, Map<u64, isize>)>, k: int)
    requires
        0 <= k <= levels.len(),
        forall|i: int| 0 <= i < levels.len() ==> (#[trigger] levels[i]).2.len() >= 1,
    ensures
        1 <= size_view(levels.take(k)) <= size_view(levels),
    decreases levels.len() - k,
{
    let t = levels.take(k);
    assert forall|i: int| 0 <= i < t.len() implies (#[trigger] t[i]).2.len() >= 1 by {
        assert(t[i] == levels[i]);
    }
    lemma_size_pos(t);
    if k < levels.len() {
        lemma_size_prefix(levels, k + 1);
        let t1 = levels.take(k + 1);
        assert(t1.drop_last() =~= t);
        let a = size_view(t);
        let b = t1.last().2.len() as int;
        assert(t1.last() == levels[k]);
        assert(b >= 1);
        assert(a * b >= a) by (nonlinear_arith)
            requires
                b >= 1,
                a >= 0,
        ;
    } else {
        assert(t =~= levels);
    }
}

/// A group given by a stabilizer chain.
pub struct Group<G>
    where
        G: GroupElement + GroupAction<Domain = u64> + PartialEq,
{
    levels: Vec<BaseStrongGeneratorLevel<G>>,
}

impl<G> View for Group<G>
    where
        G: GroupElement + GroupAction<Domain = u64> + PartialEq,
{
    type V = Seq<(u64, Seq<G::V>, Map<u64, isize>)>;

    closed spec fn view(&self) -> Seq<(u64, Seq<G::V>, Map<u64, isize>)> {
        self.levels@.map_values(|l: BaseStrongGeneratorLevel<G>| l@)
    }
}

impl<G> Group<G>
    where
        G: GroupElement + GroupAction<Domain = u64> + PartialEq,
{
    /// The lists of Schreier generators the levels produced, level by level.
    pub closed spec fn stage_lists(&self) -> Seq<Seq<G::V>> {
        self.levels@.map_values(|l: BaseStrongGeneratorLevel<G>| l.schreier_generators())
    }

    /// Every level holds a Schreier vector for its base.
    #[verifier::type_invariant]
    closed spec fn wf(self) -> bool {
        forall|i: int|
            0 <= i < self.levels@.len() ==> schreier_vector_wf::<G>(
                (#[trigger] self.levels@[i])@.0,
                self.levels@[i]@.1,
                self.levels@[i]@.2,
            )
    }

    /// Creates a group with a given set of generators acting on the points
    /// `gset`, by building the stabilizer chain level after level until no
    /// Schreier generator is left. Fails with `None` when a generating set on
    /// the way moves no point of `gset`, or when the chain would reach
    /// `usize::MAX` levels. For bijections of `0..n`, with every point below
    /// `n` in `gset`, it does not fail: see `lemma_construction_succeeds`.
    pub fn new(gset: Vec<u64>, generators: Vec<G>) -> (r: Option<Group<G>>)
        requires
            times_total::<G>(),
            generators@.len() <= isize::MAX,
        ensures
            generators@.len() == 0 ==> (r matches Some(g) && g@.len() == 0),
            generators@.len() > 0 && base_choice::<G>(gset@, views(generators@)) is None ==> r is None,
            (r matches Some(g) ==> chain_wf::<G>(gset@, views(generators@), g@) && chain_complete::<G>(
                g@,
                g.stage_lists(),
            )),
            r is None ==> exists|levels: Seq<(u64, Seq<G::V>, Map<u64, isize>)>, gs: Seq<G::V>|
                {
                    &&& chain_stage::<G>(gset@, views(generators@), levels, gs)
                    &&& gs.len() > 0
                    &&& base_choice::<G>(gset@, gs) is None || levels.len() == usize::MAX
                },
    {
        let ghost gens0 = views(generators@);
        let ghost n0 = generators@.len();
        let mut levels: Vec<BaseStrongGeneratorLevel<G>> = Vec::new();
        let mut gs = generators;
        while gs.len() > 0
            invariant
                times_total::<G>(),
                n0 == gens0.len(),
                gens0 == views(generators@),
                n0 == 0 ==> levels@.len() == 0 && gs@.len() == 0,
                gs@.len() <= isize::MAX,
                levels@.len() == 0 ==> views(gs@) == gens0,
                levels@.len() > 0 ==> levels@[0]@.1 == gens0,
                levels@.len() > 0 ==> views(gs@) == levels@[levels@.len() - 1].schreier_generators(),
                forall|i: int| 0 <= i < levels@.len() - 1 ==> (#[trigger] levels@[i + 1])@.1 == levels@[i].schreier_generators(),
                eq_is_model::<G>() ==> forall|i: int, p: u64, k: int|
                    0 <= i < levels@.len() && inverses_undo::<G>(levels@[i]@.1) && levels@[i]@.2.contains_key(p) && 0
                        <= k < levels@[i]@.1.len() ==> #[trigger] pair_done::<G>(
                        levels@[i]@.0,
                        levels@[i]@.1,
                        levels@[i]@.2,
                        levels@[i].schreier_generators(),
                        p,
                        k,
                    ),
                forall|i: int, k: int|
                    0 <= i < levels@.len() && 0 <= k < levels@[i].schreier_generators().len() ==> is_schreier_generator::<G>(
                        levels@[i]@.1,
                        levels@[i]@.2,
                        #[trigger] levels@[i].schreier_generators()[k],
                    ) && !G::identity_view(levels@[i].schreier_generators()[k]),
                forall|i: int|
                    0 <= i < levels@.len() ==> {
                        &&& (#[trigger] levels@[i])@.1.len() > 0
                        &&& base_choice::<G>(gset@, levels@[i]@.1) == Some(levels@[i]@.0)
                        &&& schreier_vector_wf::<G>(levels@[i]@.0, levels@[i]@.1, levels@[i]@.2)
                        &&& forall|p: u64| #[trigger]
                            levels@[i]@.2.contains_key(p) <==> in_orbit::<G>(levels@[i]@.0, levels@[i]@.1, p)
                        &&& inverses_undo::<G>(levels@[i]@.1) ==> forall|p: u64| #[trigger]
                            levels@[i]@.2.contains_key(p) ==> transversal_view::<G>(levels@[i]@.1, levels@[i]@.2, p) is Some
                    },
                forall|i: int, k: int|
                    0 < i < levels@.len() && 0 <= k < levels@[i]@.1.len() ==> is_schreier_generator::<G>(
                        levels@[i - 1]@.1,
                        levels@[i - 1]@.2,
                        #[trigger] levels@[i]@.1[k],
                    ),
                levels@.len() > 0 ==> forall|k: int|
                    0 <= k < gs@.len() ==> is_schreier_generator::<G>(
                        levels@[levels@.len() - 1]@.1,
                        levels@[levels@.len() - 1]@.2,
                        #[trigger] gs@[k]@,
                    ) && !G::identity_view(gs@[k]@),
            decreases usize::MAX - levels@.len(),
        {
            proof {
                let lv = levels@.map_values(|l: BaseStrongGeneratorLevel<G>| l@);
                assert forall|i: int| 0 <= i < lv.len() implies #[trigger] lv[i] == levels@[i]@ by {}
                assert(chain_stage::<G>(gset@, gens0, lv, views(gs@)));
            }
            if levels.len() == usize::MAX {
                return None;
            }
            let base = match find_base(&gset, &gs) {
                Some(b) => b,
                None => {
                    return None;
                },
            };
            let ghost gs_view = views(gs@);
            let ghost old_gs = gs@;
            let ghost before = levels@;
            let (level, stabilizers) = BaseStrongGeneratorLevel::new(base, gs);
            levels.push(level);
            gs = stabilizers;
            proof {
                assert(levels@[levels@.len() - 1] == level);
                assert forall|i: int, k: int|
                    0 < i < levels@.len() && 0 <= k < levels@[i]@.1.len() implies is_schreier_generator::<G>(
                        levels@[i - 1]@.1,
                        levels@[i - 1]@.2,
                        #[trigger] levels@[i]@.1[k],
                    ) by {
                    assert(levels@[i - 1] == if i - 1 < before.len() { before[i - 1] } else { level });
                    if i < before.len() {
                        assert(levels@[i] == before[i]);
                    } else {
                        assert(levels@[i] == level);
                        assert(level@.1 == gs_view);
                        assert(gs_view[k] == old_gs[k]@);
                    }
                }
                if eq_is_model::<G>() {
                    assert forall|i: int, p: u64, k: int|
                        0 <= i < levels@.len() && inverses_undo::<G>(levels@[i]@.1) && levels@[i]@.2.contains_key(p)
                            && 0 <= k < levels@[i]@.1.len() implies #[trigger] pair_done::<G>(
                            levels@[i]@.0,
                            levels@[i]@.1,
                            levels@[i]@.2,
                            levels@[i].schreier_generators(),
                            p,
                            k,
                        ) by {
                        if i < before.len() {
                            assert(levels@[i] == before[i]);
                        }
                    }
                }
                assert forall|i: int| 0 <= i < levels@.len() - 1 implies (#[trigger] levels@[i + 1])@.1
                    == levels@[i].schreier_generators() by {
                    assert(levels@[i] == before[i]);
                    if i + 1 < before.len() {
                        assert(levels@[i + 1] == before[i + 1]);
                    }
                }
                assert forall|i: int, k: int|
                    0 <= i < levels@.len() && 0 <= k < levels@[i].schreier_generators().len() implies is_schreier_generator::<G>(
                        levels@[i]@.1,
                        levels@[i]@.2,
                        #[trigger] levels@[i].schreier_generators()[k],
                    ) && !G::identity_view(levels@[i].schreier_generators()[k]) by {
                    if i < before.len() {
                        assert(levels@[i] == before[i]);
                    } else {
                        assert(levels@[i].schreier_generators()[k] == gs@[k]@);
                    }
                }
            }
        }
        let group = Group { levels };
        proof {
            assert(group@.len() == levels@.len());
            assert forall|i: int| 0 <= i < group@.len() implies #[trigger] group@[i] == levels@[i]@ by {}
            assert forall|i: int| 0 <= i < group@.len() implies #[trigger] group.stage_lists()[i]
                == levels@[i].schreier_generators() by {}
            if eq_is_model::<G>() {
                assert forall|i: int, p: u64, k: int|
                    0 <= i < group@.len() && inverses_undo::<G>(group@[i].1) && group@[i].2.contains_key(p) && 0 <= k
                        < group@[i].1.len() implies #[trigger] pair_done::<G>(
                        group@[i].0,
                        group@[i].1,
                        group@[i].2,
                        group.stage_lists()[i],
                        p,
                        k,
                    ) by {
                    assert(group@[i] == levels@[i]@);
                    assert(group.stage_lists()[i] == levels@[i].schreier_generators());
                    assert(pair_done::<G>(
                        levels@[i]@.0,
                        levels@[i]@.1,
                        levels@[i]@.2,
                        levels@[i].schreier_generators(),
                        p,
                        k,
                    ));
                }
            }
        }
        Some(group)
    }

    /// The order of the group, i.e. the number of elements this group has:
    /// the product of the orbit lengths.
    pub fn size(&self) -> (r: usize)
        requires
            size_view(self@) <= usize::MAX,
        ensures
            r == size_view(self@),
    {
        proof {
            use_type_invariant(self);
        }
        let ghost lv = self@;
        proof {
            assert forall|i: int| 0 <= i < lv.len() implies (#[trigger] lv[i]).2.len() >= 1 by {
                assert(self.levels@[i]@ == lv[i]);
                assert(lv[i].2.dom().contains(lv[i].0));
                vstd::set_lib::lemma_set_empty_equivalency_len(lv[i].2.dom());
            }
        }
        let mut acc: usize = 1;
        let mut i: usize = 0;
        assert(lv.take(0) =~= Seq::<(u64, Seq<G::V>, Map<u64, isize>)>::empty());
        while i < self.levels.len()
            invariant
                lv == self@,
                i <= lv.len(),
                lv.len() == self.levels@.len(),
                size_view(lv) <= usize::MAX,
                forall|k: int| 0 <= k < lv.len() ==> (#[trigger] lv[k]).2.len() >= 1,
                acc == size_view(lv.take(i as int)),
            decreases lv.len() - i,
        {
            let length = self.levels[i].length();
            proof {
                assert(self.levels@[i as int]@ == lv[i as int]);
                lemma_size_prefix(lv, i + 1);
                assert(lv.take(i + 1).drop_last() =~= lv.take(i as int));
            }
            acc = acc * length;
            i += 1;
        }
        assert(lv.take(i as int) =~= lv);
        acc
    }

    /// Determine if a group element is a member of this group: it strips down
    /// to the identity.
    pub fn is_member(&self, element: G) -> (r: bool)
        requires
            times_total::<G>(),
        ensures
            r == G::identity_view(strip_view::<G>(self@, element@)),
    {
        let candidate = self.strip(element);
        candidate.is_identity()
    }

    /// Strip (sift) an element through the chain.
    pub fn strip(&self, element: G) -> (r: G)
        requires
            times_total::<G>(),
        ensures
            r@ == strip_view::<G>(self@, element@),
    {
        let ghost lv = self@;
        let ghost e0 = element@;
        let mut candidate = element;
        let mut i: usize = 0;
        assert(lv.skip(0) =~= lv);
        while i < self.levels.len()
            invariant
                lv == self@,
                e0 == element@,
                times_total::<G>(),
                i <= lv.len(),
                lv.len() == self.levels@.len(),
                strip_view::<G>(lv, e0) == strip_view::<G>(lv.skip(i as int), candidate@),
            decreases lv.len() - i,
        {
            let level = &self.levels[i];
            proof {
                assert(level@ == lv[i as int]);
                assert(lv.skip(i as int)[0] == lv[i as int]);
                assert(lv.skip(i as int).skip(1) =~= lv.skip(i + 1));
            }
            if level.has_transversal_for(&candidate) {
                match level.transversal_for(&candidate) {
                    Some(transversal) => {
                        let inverse = transversal.inverse();
                        candidate = candidate.times(&inverse);
                    },
                    None => {
                        assert(strip_view::<G>(lv.skip(i as int), candidate@) == candidate@);
                        return candidate;
                    },
                }
            } else {
                assert(strip_view::<G>(lv.skip(i as int), candidate@) == candidate@);
                return candidate;
            }
            i += 1;
        }
        assert(lv.skip(i as int).len() == 0);
        candidate
    }
}

/// Maps generator tags of straight-line programs to words of a free group.
pub struct Morphism {
    generator_images: HashMap<u64, Word>,
}

impl View for Morphism {
    type V = Map<u64, Word>;

    closed spec fn view(&self) -> Map<u64, Word> {
        self.generator_images@
    }
}

impl Morphism {
    /// Create a new morphism with a given set of images.
    pub fn new(generator_images: HashMap<u64, Word>) -> (r: Morphism)
        ensures
            r@ == generator_images@,
    {
        Morphism { generator_images }
    }

    /// Whether the generator tag has an image.
    pub fn has_image(&self, tag: u64) -> (r: bool)
        ensures
            r == self@.contains_key(tag),
    {
        broadcast use vstd::std_specs::hash::group_hash_axioms;

        self.generator_images.contains_key(&tag)
    }

    /// Maps a generator to its image.
    pub fn transform(&self, element: &SLP) -> (r: Word)
        requires
            *element matches SLP::Generator(tag) && self@.contains_key(tag),
        ensures
            *element matches SLP::Generator(tag) && r@ == self@[tag]@,
    {
        broadcast use vstd::std_specs::hash::group_hash_axioms;

        match element {
            SLP::Generator(tag) => {
                let image = self.generator_images.get(tag);
                match image {
                    Some(w) => w.clone(),
                    None => Word::identity(),
                }
            },
            _ => Word::identity(),
        }
    }
}

} // verus!
