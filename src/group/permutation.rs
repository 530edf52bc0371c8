//! A permutation is a bijection of a set. Together with function composition
//! this forms a group. Composition runs from left to right: `a.times(b)`
//! first applies `a`, then `b`.
use std::collections::HashMap;
use std::collections::HashSet;
use vstd::prelude::*;

use super::text::{decimal, identity_text, new_identity_text, push_char, push_text, u64_text};
use super::{GroupAction, GroupElement};

verus! {

broadcast use vstd::std_specs::hash::group_hash_axioms;

/// The image of `p` under a mapping; points without an entry are fixed.
pub open spec fn act(m: Map<u64, u64>, p: u64) -> u64 {
    if m.contains_key(p) {
        m[p]
    } else {
        p
    }
}

/// The mapping of `0..k` under first `a`, then `b`.
pub open spec fn compose_upto(a: Map<u64, u64>, b: Map<u64, u64>, k: nat) -> Map<u64, u64>
    decreases k,
{
    if k == 0 {
        Map::empty()
    } else {
        compose_upto(a, b, (k - 1) as nat).insert((k - 1) as u64, act(b, act(a, (k - 1) as u64)))
    }
}

/// The mapping that sends the image of each point of `0..k` back to it; where
/// two points share an image the larger one wins.
pub open spec fn invert_upto(a: Map<u64, u64>, k: nat) -> Map<u64, u64>
    decreases k,
{
    if k == 0 {
        Map::empty()
    } else {
        invert_upto(a, (k - 1) as nat).insert(act(a, (k - 1) as u64), (k - 1) as u64)
    }
}

/// A permutation of the set 0..n for a suitable choice of n: n is the number
/// of entries of its mapping, and points without an entry are fixed.
#[derive(Debug)]
pub struct Permutation {
    images: HashMap<u64, u64>,
}

impl View for Permutation {
    type V = Map<u64, u64>;

    closed spec fn view(&self) -> Map<u64, u64> {
        self.images@
    }
}

impl Permutation {
    /// Create a permutation with a given image.
    pub fn new(images: HashMap<u64, u64>) -> (r: Permutation)
        ensures
            r@ == images@,
    {
        Permutation { images }
    }

    /// The non-trivial cycles of the permutation on `0..n`, each starting at
    /// its smallest point, in order of their first points. For a bijection
    /// each cycle closes, and every moved point lies on a cycle.
    pub fn cycles(&self) -> (r: Vec<Vec<u64>>)
        ensures
            forall|k: int| 0 <= k < r@.len() ==> is_cycle_walk(self@, #[trigger] r@[k]@, self@.len()),
            forall|k: int, l: int| 0 <= k < l < r@.len() ==> (#[trigger] r@[k]@)[0] < (#[trigger] r@[l]@)[0],
            is_bijection(self@) ==> {
                &&& forall|k: int| 0 <= k < r@.len() ==> act(self@, (#[trigger] r@[k]@).last()) == r@[k]@[0]
                &&& forall|k: int, j: int| #![trigger r@[k]@[j]]
                    0 <= k < r@.len() && 0 <= j < r@[k]@.len() ==> r@[k]@[0] <= r@[k]@[j]
                &&& forall|x: u64| (x as int) < self@.len() && #[trigger] act(self@, x) != x ==> in_cycles(
                    cycle_views(r@),
                    x,
                )
            },
    {
        cycles(self.images.len(), &self.images)
    }

    /// Renders the permutation by its cycles, such as `(0 1 2)(3 4)`, or `Id`
    /// when it moves no point of `0..n`.
    pub fn to_string(&self) -> (r: String)
        ensures
            exists|cs: Seq<Seq<u64>>|
                {
                    &&& forall|k: int| 0 <= k < cs.len() ==> is_cycle_walk(self@, #[trigger] cs[k], self@.len())
                    &&& forall|k: int, l: int| 0 <= k < l < cs.len() ==> (#[trigger] cs[k])[0] < (#[trigger] cs[l])[0]
                    &&& is_bijection(self@) ==> {
                        &&& forall|k: int| 0 <= k < cs.len() ==> act(self@, (#[trigger] cs[k]).last()) == cs[k][0]
                        &&& forall|k: int, j: int| #![trigger cs[k][j]]
                            0 <= k < cs.len() && 0 <= j < cs[k].len() ==> cs[k][0] <= cs[k][j]
                        &&& forall|x: u64| (x as int) < self@.len() && #[trigger] act(self@, x) != x ==> in_cycles(cs, x)
                    }
                    &&& r@ == permutation_text(cs)
                },
    {
        let cs = self.cycles();
        let r = render_cycles(&cs);
        let ghost v = cycle_views(cs@);
        assert(forall|k: int| 0 <= k < v.len() ==> is_cycle_walk(self@, #[trigger] v[k], self@.len()));
        assert(forall|k: int, l: int| 0 <= k < l < v.len() ==> (#[trigger] v[k])[0] < (#[trigger] v[l])[0]);
        proof {
            if is_bijection(self@) {
                assert(forall|k: int| 0 <= k < v.len() ==> act(self@, (#[trigger] v[k]).last()) == v[k][0]);
                assert(forall|k: int, j: int| #![trigger v[k][j]]
                    0 <= k < v.len() && 0 <= j < v[k].len() ==> v[k][0] <= v[k][j]);
            }
        }
        r
    }

    /// The number of entries of the mapping.
    pub fn n(&self) -> (r: usize)
        ensures
            r == self@.len(),
    {
        self.images.len()
    }
}

/// `c` follows the mapping from a point below `n`: each entry is the image of
/// the one before it, it has at least two entries, and no point repeats.
pub open spec fn is_cycle_walk(m: Map<u64, u64>, c: Seq<u64>, n: nat) -> bool {
    &&& c.len() >= 2
    &&& c[0] < n
    &&& forall|j: int| 0 <= j < c.len() - 1 ==> #[trigger] c[j + 1] == act(m, c[j])
    &&& forall|j1: int, j2: int| 0 <= j1 < j2 < c.len() ==> #[trigger] c[j1] != #[trigger] c[j2]
}

/// The points of a cycle in decimal, separated by single spaces.
pub open spec fn points_text(c: Seq<u64>) -> Seq<char>
    decreases c.len(),
{
    if c.len() == 0 {
        Seq::empty()
    } else if c.len() == 1 {
        decimal(c[0] as int)
    } else {
        points_text(c.drop_last()) + seq![' '] + decimal(c.last() as int)
    }
}

/// Each cycle in parentheses, one after the other.
pub open spec fn cycles_text(cs: Seq<Seq<u64>>) -> Seq<char>
    decreases cs.len(),
{
    if cs.len() == 0 {
        Seq::empty()
    } else {
        cycles_text(cs.drop_last()) + seq!['('] + points_text(cs.last()) + seq![')']
    }
}

/// The text of a permutation from its cycles: `Id` when there are none.
pub open spec fn permutation_text(cs: Seq<Seq<u64>>) -> Seq<char> {
    if cs.len() == 0 {
        identity_text()
    } else {
        cycles_text(cs)
    }
}

/// Renders a list of cycles, such as `(0 1 2)(3 4)`, or `Id` when empty.
fn render_cycles(cs: &Vec<Vec<u64>>) -> (r: String)
    ensures
        r@ == permutation_text(cycle_views(cs@)),
{
    let ghost v = cycle_views(cs@);
    if cs.len() == 0 {
        return new_identity_text();
    }
    let mut out = String::new();
    let mut k: usize = 0;
    assert(v.take(0) =~= Seq::<Seq<u64>>::empty());
    while k < cs.len()
        invariant
            v == cycle_views(cs@),
            k <= cs@.len(),
            out@ == cycles_text(v.take(k as int)),
        decreases cs@.len() - k,
    {
        let cycle = &cs[k];
        let ghost before = out@;
        push_char(&mut out, '(');
        let mut j: usize = 0;
        let ghost c = cycle@;
        assert(c.take(0) =~= Seq::<u64>::empty());
        while j < cycle.len()
            invariant
                c == cycle@,
                j <= c.len(),
                out@ == before + seq!['('] + points_text(c.take(j as int)),
            decreases c.len() - j,
        {
            if j > 0 {
                push_char(&mut out, ' ');
            }
            let digits = u64_text(cycle[j]);
            push_text(&mut out, &digits);
            proof {
                assert(c.take(j + 1).drop_last() =~= c.take(j as int));
                if j == 0 {
                    assert(c.take(1) =~= seq![c[0]]);
                }
                assert(out@ =~= before + seq!['('] + points_text(c.take(j + 1)));
            }
            j += 1;
        }
        push_char(&mut out, ')');
        proof {
            assert(c.take(j as int) =~= c);
            assert(v.take(k + 1).drop_last() =~= v.take(k as int));
            assert(v.take(k + 1).last() == c);
            assert(out@ =~= cycles_text(v.take(k + 1)));
        }
        k += 1;
    }
    assert(v.take(k as int) =~= v);
    out
}

/// Inserting a point of `v` that `w` lacks shrinks what `v` holds beyond `w`.
proof fn lemma_difference_shrinks(v: Set<u64>, w: Set<u64>, x: u64)
    requires
        v.finite(),
        v.contains(x),
        !w.contains(x),
    ensures
        v.difference(w.insert(x)).len() < v.difference(w).len(),
{
    assert(v.difference(w.insert(x)) =~= v.difference(w).remove(x));
    vstd::set_lib::lemma_len_subset(v.difference(w), v);
}

/// `x` is an entry of one of the cycles.
pub open spec fn in_cycles(cs: Seq<Seq<u64>>, x: u64) -> bool {
    exists|k: int, j: int| 0 <= k < cs.len() && 0 <= j < cs[k].len() && cs[k][j] == x
}

/// The models of a list of cycles.
pub open spec fn cycle_views(cs: Seq<Vec<u64>>) -> Seq<Seq<u64>> {
    cs.map_values(|c: Vec<u64>| c@)
}

/// The non-trivial cycles of the mapping on `0..n`, each starting at its
/// smallest point, in order of their first points. For a bijection of `0..n`
/// each cycle closes, and every point it moves lies on a cycle.
fn cycles(n: usize, images: &HashMap<u64, u64>) -> (r: Vec<Vec<u64>>)
    ensures
        forall|k: int| 0 <= k < r@.len() ==> is_cycle_walk(images@, #[trigger] r@[k]@, n as nat),
        forall|k: int, l: int| 0 <= k < l < r@.len() ==> (#[trigger] r@[k]@)[0] < (#[trigger] r@[l]@)[0],
        is_bijection(images@) && images@.len() == n ==> {
            &&& forall|k: int| 0 <= k < r@.len() ==> act(images@, (#[trigger] r@[k]@).last()) == r@[k]@[0]
            &&& forall|k: int, j: int| #![trigger r@[k]@[j]]
                0 <= k < r@.len() && 0 <= j < r@[k]@.len() ==> r@[k]@[0] <= r@[k]@[j]
            &&& forall|x: u64| (x as int) < n && #[trigger] act(images@, x) != x ==> in_cycles(cycle_views(r@), x)
        },
{
    let ghost m = images@;
    let ghost bij = is_bijection(m) && m.len() == n;
    proof {
        vstd::map_lib::lemma_values_finite(m);
        if bij {
            lemma_bijection_acts(m);
        }
    }
    let mut result: Vec<Vec<u64>> = Vec::new();
    let mut visited: HashSet<u64> = HashSet::new();
    let mut i: usize = 0;
    while i < n
        invariant
            m == images@,
            bij == (is_bijection(m) && m.len() == n),
            m.values().finite(),
            i <= n,
            forall|k: int| 0 <= k < result@.len() ==> is_cycle_walk(m, #[trigger] result@[k]@, n as nat),
            forall|k: int| 0 <= k < result@.len() ==> (#[trigger] result@[k]@)[0] < i,
            forall|k: int, l: int| 0 <= k < l < result@.len() ==> (#[trigger] result@[k]@)[0] < (#[trigger] result@[l]@)[0],
            bij ==> forall|x: u64| #[trigger] visited@.contains(x) ==> (x as int) < n,
            bij ==> forall|x: u64| #![trigger act(m, x)]
                (x as int) < n && visited@.contains(act(m, x)) ==> visited@.contains(x),
            bij ==> forall|x: u64| #[trigger] visited@.contains(x) ==> act(m, x) == x || in_cycles(cycle_views(result@), x),
            bij ==> forall|x: u64| (x as int) < i ==> #[trigger] visited@.contains(x),
            bij ==> forall|k: int| 0 <= k < result@.len() ==> act(m, (#[trigger] result@[k]@).last()) == result@[k]@[0],
            bij ==> forall|k: int, j: int| #![trigger result@[k]@[j]]
                0 <= k < result@.len() && 0 <= j < result@[k]@.len() ==> result@[k]@[0] <= result@[k]@[j],
        decreases n - i,
    {
        let point = i as u64;
        if !visited.contains(&point) {
            let ghost v0 = visited@;
            visited.insert(point);
            let mut cycle: Vec<u64> = vec![point];
            let mut image = image_of(images, point);
            while !visited.contains(&image)
                invariant
                    m == images@,
                    bij == (is_bijection(m) && m.len() == n),
                    m.values().finite(),
                    cycle@.len() >= 1,
                    cycle@[0] == point,
                    point < n,
                    image == act(m, cycle@[cycle@.len() - 1]),
                    forall|j: int| 0 <= j < cycle@.len() ==> visited@.contains(#[trigger] cycle@[j]),
                    forall|j: int| 0 <= j < cycle@.len() - 1 ==> #[trigger] cycle@[j + 1] == act(m, cycle@[j]),
                    visited@ == v0.union(cycle@.to_set()),
                    forall|j: int| 0 <= j < cycle@.len() ==> !v0.contains(#[trigger] cycle@[j]),
                    forall|j1: int, j2: int| 0 <= j1 < j2 < cycle@.len() ==> #[trigger] cycle@[j1] != #[trigger] cycle@[j2],
                    bij ==> forall|j: int| 0 <= j < cycle@.len() ==> (#[trigger] cycle@[j] as int) < n,
                    bij ==> forall|x: u64| (x as int) < (point as int) ==> #[trigger] v0.contains(x),
                decreases m.values().difference(visited@).len(),
            {
                proof {
                    let last = cycle@[cycle@.len() - 1];
                    assert(visited@.contains(last));
                    assert(m.contains_key(last));
                    assert(m.values().contains(m[last]));
                    lemma_difference_shrinks(m.values(), visited@, image);
                }
                let ghost before = cycle@;
                visited.insert(image);
                cycle.push(image);
                proof {
                    assert forall|j: int| 0 <= j < cycle@.len() implies visited@.contains(#[trigger] cycle@[j]) by {
                        if j < before.len() {
                            assert(cycle@[j] == before[j]);
                        }
                    }
                    assert forall|j: int| 0 <= j < cycle@.len() - 1 implies #[trigger] cycle@[j + 1] == act(m, cycle@[j]) by {
                        if j + 1 < before.len() {
                            assert(cycle@[j + 1] == before[j + 1]);
                            assert(cycle@[j] == before[j]);
                        } else {
                            assert(cycle@[j] == before[before.len() - 1]);
                        }
                    }
                    assert(cycle@.to_set() =~= before.to_set().insert(image)) by {
                        assert forall|x: u64| cycle@.to_set().contains(x) <==> before.to_set().insert(image).contains(x) by {
                            if cycle@.to_set().contains(x) {
                                let j = choose|j: int| 0 <= j < cycle@.len() && cycle@[j] == x;
                                if j < before.len() {
                                    assert(before[j] == x);
                                }
                            }
                            if before.to_set().contains(x) {
                                let j = choose|j: int| 0 <= j < before.len() && before[j] == x;
                                assert(cycle@[j] == x);
                            }
                            if x == image {
                                assert(cycle@[cycle@.len() - 1] == x);
                            }
                        }
                    }
                    assert(visited@ =~= v0.union(cycle@.to_set()));
                    assert forall|j: int| 0 <= j < cycle@.len() implies !v0.contains(#[trigger] cycle@[j]) by {
                        if j < before.len() {
                            assert(cycle@[j] == before[j]);
                        }
                    }
                    assert forall|j1: int, j2: int| 0 <= j1 < j2 < cycle@.len() implies #[trigger] cycle@[j1]
                        != #[trigger] cycle@[j2] by {
                        assert(cycle@[j1] == before[j1]);
                        if j2 < before.len() {
                            assert(cycle@[j2] == before[j2]);
                        } else {
                            assert(before.to_set().contains(before[j1]));
                        }
                    }
                    if bij {
                        assert forall|j: int| 0 <= j < cycle@.len() implies (#[trigger] cycle@[j] as int) < n by {
                            if j < before.len() {
                                assert(cycle@[j] == before[j]);
                            } else {
                                assert((before[before.len() - 1] as int) < n);
                            }
                        }
                    }
                }
                image = image_of(images, image);
            }
            proof {
                if bij {
                    let c = cycle@;
                    let last = c[c.len() - 1];
                    assert(visited@.contains(image));
                    assert(!v0.contains(last));
                    assert(!v0.contains(image));
                    assert(c.to_set().contains(image));
                    let j = choose|j: int| 0 <= j < c.len() && c[j] == image;
                    if j > 0 {
                        let jm = j - 1;
                        assert(c[jm + 1] == act(m, c[jm]));
                        assert(c[j] == act(m, c[j - 1]));
                        assert(m.contains_key(c[j - 1]) && m.contains_key(last));
                        assert(m[c[j - 1]] == m[last]);
                        assert(c[j - 1] == last);
                        if j - 1 < c.len() - 1 {
                            assert(c[j - 1] != c[c.len() - 1]);
                        }
                    }
                    assert(image == point);
                }
            }
            let ghost closed = cycle@;
            let ghost before_result = result@;
            if cycle.len() > 1 {
                result.push(cycle);
            }
            proof {
                assert forall|k: int| 0 <= k < before_result.len() implies #[trigger] cycle_views(result@)[k] == cycle_views(before_result)[k] by {
                    assert(result@[k] == before_result[k]);
                }
                if bij {
                    let c = closed;
                    assert forall|x: u64| #![trigger act(m, x)]
                        (x as int) < n && visited@.contains(act(m, x)) implies visited@.contains(x) by {
                        if v0.contains(act(m, x)) {
                        } else {
                            assert(c.to_set().contains(act(m, x)));
                            let j = choose|j: int| 0 <= j < c.len() && c[j] == act(m, x);
                            assert(m.contains_key(x));
                            if j > 0 {
                                let jm = j - 1;
                                assert(c[jm + 1] == act(m, c[jm]));
                                assert(c[j] == act(m, c[j - 1]));
                                assert(m.contains_key(c[j - 1]));
                                assert(m[c[j - 1]] == m[x]);
                                assert(c.to_set().contains(c[j - 1]));
                            } else {
                                let last = c[c.len() - 1];
                                assert(m.contains_key(last));
                                assert(m[last] == m[x]);
                                assert(c.to_set().contains(last));
                            }
                        }
                    }
                    assert forall|x: u64| #[trigger] visited@.contains(x) implies act(m, x) == x || in_cycles(
                        cycle_views(result@),
                        x,
                    ) by {
                        if v0.contains(x) {
                            if act(m, x) != x {
                                let (k, j) = choose|k: int, j: int| 0 <= k < cycle_views(before_result).len() && 0 <= j
                                    < cycle_views(before_result)[k].len() && cycle_views(before_result)[k][j] == x;
                                assert(cycle_views(result@)[k] == cycle_views(before_result)[k]);
                            }
                        } else {
                            assert(c.to_set().contains(x));
                            let j = choose|j: int| 0 <= j < c.len() && c[j] == x;
                            if c.len() > 1 {
                                let k = result@.len() - 1;
                                assert(result@[k]@ == c);
                                assert(cycle_views(result@)[k] == c);
                            } else {
                                assert(x == point);
                            }
                        }
                    }
                    assert forall|x: u64| (x as int) < i + 1 implies #[trigger] visited@.contains(x) by {
                        if x == point {
                            assert(c.to_set().contains(c[0]));
                        }
                    }
                    assert forall|k: int| 0 <= k < result@.len() implies act(m, (#[trigger] result@[k]@).last())
                        == result@[k]@[0] by {
                        if k < before_result.len() {
                            assert(result@[k] == before_result[k]);
                        }
                    }
                    assert forall|k: int, j: int| #![trigger result@[k]@[j]]
                        0 <= k < result@.len() && 0 <= j < result@[k]@.len() implies result@[k]@[0] <= result@[k]@[j] by {
                        if k < before_result.len() {
                            assert(result@[k] == before_result[k]);
                        } else {
                            assert(result@[k]@ == c);
                            assert(!v0.contains(c[j]));
                        }
                    }
                    assert forall|x: u64| #[trigger] visited@.contains(x) implies (x as int) < n by {
                        if !v0.contains(x) {
                            assert(c.to_set().contains(x));
                        }
                    }
                }
            }
        }
        i += 1;
    }
    proof {
        if bij {
            assert forall|x: u64| (x as int) < n && #[trigger] act(images@, x) != x implies in_cycles(
                cycle_views(result@),
                x,
            ) by {
                assert(visited@.contains(x));
            }
        }
    }
    result
}

/// Relies on `PartialEq` for `HashMap`: two maps are equal when they hold the
/// same keys with the same values.
#[verifier::external_body]
fn same_images(a: &HashMap<u64, u64>, b: &HashMap<u64, u64>) -> (r: bool)
    ensures
        r == (a@ == b@),
{
    a == b
}

impl PartialEq for Permutation {
    fn eq(&self, other: &Permutation) -> (r: bool)
        ensures
            r == (self@ == other@),
    {
        same_images(&self.images, &other.images)
    }
}

impl vstd::std_specs::cmp::PartialEqSpecImpl for Permutation {
    open spec fn obeys_eq_spec() -> bool {
        true
    }

    open spec fn eq_spec(&self, other: &Permutation) -> bool {
        self@ == other@
    }
}

/// `==` on permutations is equality of their mappings.
pub proof fn lemma_eq_is_model()
    ensures
        super::eq_is_model::<Permutation>(),
{
}

impl Clone for Permutation {
    fn clone(&self) -> (r: Permutation)
        ensures
            r@ == self@,
    {
        Permutation { images: self.images.clone() }
    }
}

/// Looks up the image of a point, which is fixed when it has no entry.
fn image_of(images: &HashMap<u64, u64>, p: u64) -> (r: u64)
    ensures
        r == act(images@, p),
{
    match images.get(&p) {
        Some(v) => *v,
        None => p,
    }
}

impl GroupElement for Permutation {
    open spec fn identity_view(v: Map<u64, u64>) -> bool {
        forall|i: u64| i < v.len() ==> act(v, i) == i
    }

    open spec fn times_view(a: Map<u64, u64>, b: Map<u64, u64>) -> Map<u64, u64> {
        compose_upto(a, b, if a.len() > b.len() { a.len() } else { b.len() })
    }

    open spec fn inverse_view(a: Map<u64, u64>) -> Map<u64, u64> {
        invert_upto(a, a.len())
    }

    open spec fn times_defined(a: Map<u64, u64>, b: Map<u64, u64>) -> bool {
        true
    }

    fn is_identity(&self) -> (r: bool) {
        let n = self.images.len();
        let mut i: usize = 0;
        while i < n
            invariant
                n == self@.len(),
                i <= n,
                forall|j: u64| j < i ==> act(self@, j) == j,
            decreases n - i,
        {
            let point = i as u64;
            if image_of(&self.images, point) != point {
                return false;
            }
            i += 1;
        }
        true
    }

    fn times(&self, multiplicant: &Permutation) -> (r: Permutation) {
        let max_n = if self.images.len() > multiplicant.images.len() {
            self.images.len()
        } else {
            multiplicant.images.len()
        };
        let mut images: HashMap<u64, u64> = HashMap::new();
        let mut i: usize = 0;
        while i < max_n
            invariant
                i <= max_n,
                images@ == compose_upto(self@, multiplicant@, i as nat),
            decreases max_n - i,
        {
            let point = i as u64;
            let image = image_of(&self.images, point);
            let image = image_of(&multiplicant.images, image);
            images.insert(point, image);
            i += 1;
        }
        Permutation::new(images)
    }

    fn inverse(&self) -> (r: Permutation) {
        let n = self.images.len();
        let mut images: HashMap<u64, u64> = HashMap::new();
        let mut i: usize = 0;
        while i < n
            invariant
                n == self@.len(),
                i <= n,
                images@ == invert_upto(self@, i as nat),
            decreases n - i,
        {
            let point = i as u64;
            let image = image_of(&self.images, point);
            images.insert(image, point);
            i += 1;
        }
        Permutation::new(images)
    }
}

impl GroupAction for Permutation {
    type Domain = u64;

    open spec fn act_view(v: Map<u64, u64>, p: u64) -> u64 {
        act(v, p)
    }

    fn act_on(&self, point: &u64) -> (r: u64) {
        image_of(&self.images, *point)
    }
}

/// The keys of the mapping are exactly `0..n`, where `n` is its size.
pub open spec fn has_prefix_domain(m: Map<u64, u64>) -> bool {
    forall|k: u64| #[trigger] m.contains_key(k) <==> (k as int) < m.len()
}

/// The mapping is a bijection of `0..n` onto itself.
pub open spec fn is_bijection(m: Map<u64, u64>) -> bool {
    &&& m.dom().finite()
    &&& has_prefix_domain(m)
    &&& forall|i: u64| #![trigger m[i]] (i as int) < m.len() ==> (m[i] as int) < m.len()
    &&& forall|i: u64, j: u64|
        (i as int) < m.len() && (j as int) < m.len() && #[trigger] m[i] == #[trigger] m[j] ==> i == j
    &&& forall|y: u64| (y as int) < m.len() ==> #[trigger] has_preimage(m, y)
}

/// Some point of `0..n` is mapped to `y`.
pub open spec fn has_preimage(m: Map<u64, u64>, y: u64) -> bool {
    exists|i: u64| (i as int) < m.len() && m[i] == y
}

/// `compose_upto` has the keys `0..k`, and there it maps by `a`, then `b`.
proof fn lemma_compose_upto(a: Map<u64, u64>, b: Map<u64, u64>, k: nat)
    requires
        k <= 0x1_0000_0000_0000_0000,
    ensures
        forall|x: u64| #[trigger]
            compose_upto(a, b, k).contains_key(x) <==> (x as int) < k,
        forall|x: u64|
            (x as int) < k ==> #[trigger] compose_upto(a, b, k)[x] == act(b, act(a, x)),
        compose_upto(a, b, k).dom().finite(),
        compose_upto(a, b, k).len() == k,
    decreases k,
{
    if k > 0 {
        lemma_compose_upto(a, b, (k - 1) as nat);
        let prev = compose_upto(a, b, (k - 1) as nat);
        assert(!prev.dom().contains((k - 1) as u64));
        assert(compose_upto(a, b, k).dom() =~= prev.dom().insert((k - 1) as u64));
    } else {
        assert(compose_upto(a, b, k).dom() =~= Set::<u64>::empty());
    }
}

/// The points below `n` form a set of `n` elements.
pub proof fn lemma_points_below(n: nat)
    requires
        n <= 0x1_0000_0000_0000_0000,
    ensures
        Set::new(|x: u64| (x as int) < n).finite(),
        Set::new(|x: u64| (x as int) < n).len() == n,
{
    let e = Map::<u64, u64>::empty();
    lemma_compose_upto(e, e, n);
    assert(compose_upto(e, e, n).dom() =~= Set::new(|x: u64| (x as int) < n));
}

/// Under an injective mapping, `invert_upto` sends the image of each point of
/// `0..k` back to it, and has no other keys.
proof fn lemma_invert_upto(a: Map<u64, u64>, k: nat)
    requires
        k <= a.len(),
        is_bijection(a),
    ensures
        forall|y: u64| #[trigger]
            invert_upto(a, k).contains_key(y) <==> exists|i: u64| (i as int) < k && a[i] == y,
        forall|i: u64| (i as int) < k ==> #[trigger] invert_upto(a, k)[a[i]] == i,
    decreases k,
{
    lemma_u64_map_len(a);
    if k > 0 {
        lemma_invert_upto(a, (k - 1) as nat);
        let last = (k - 1) as u64;
        assert(a.contains_key(last));
        assert forall|y: u64| #[trigger] invert_upto(a, k).contains_key(y) <==> exists|i: u64|
            (i as int) < k && a[i] == y by {
            if invert_upto(a, k).contains_key(y) {
                if y != a[last] {
                    assert(invert_upto(a, (k - 1) as nat).contains_key(y));
                }
            }
            if exists|i: u64| (i as int) < k && a[i] == y {
                let i = choose|i: u64| (i as int) < k && a[i] == y;
                if i != last {
                    assert((i as int) < k - 1);
                    assert(invert_upto(a, (k - 1) as nat).contains_key(y));
                }
            }
        }
        assert forall|i: u64| (i as int) < k implies #[trigger] invert_upto(a, k)[a[i]] == i by {
            let prev = invert_upto(a, (k - 1) as nat);
            assert(act(a, last) == a[last]);
            assert(invert_upto(a, k) == prev.insert(a[last], last));
            if i != last {
                assert(a.contains_key(i));
                assert((i as int) < a.len() && (last as int) < a.len());
                assert(a[i] != a[last]);
                assert((i as int) < k - 1);
                assert(prev[a[i]] == i);
            }
        }
    }
}

/// A permutation followed by its inverse is the identity: for a bijection
/// of `0..n`, `g.times(g.inverse())` fixes every point of `0..n`.
pub proof fn lemma_times_inverse_is_identity(g: Map<u64, u64>)
    requires
        is_bijection(g),
    ensures
        Permutation::identity_view(Permutation::times_view(g, Permutation::inverse_view(g))),
{
    let n = g.len();
    let inv = invert_upto(g, n);
    lemma_u64_map_len(g);
    lemma_invert_upto(g, n);
    lemma_compose_upto(g, g, n);
    assert(inv.dom() =~= compose_upto(g, g, n).dom()) by {
        assert forall|y: u64| inv.contains_key(y) <==> compose_upto(g, g, n).contains_key(y) by {
            if (y as int) < n {
                assert(has_preimage(g, y));
                let i = choose|i: u64| (i as int) < n && g[i] == y;
                assert(inv.contains_key(g[i]));
            }
            if inv.contains_key(y) {
                let i = choose|i: u64| (i as int) < n && g[i] == y;
                assert(g.contains_key(i));
            }
        }
    }
    assert(inv.len() == n);
    let p = compose_upto(g, inv, n);
    lemma_compose_upto(g, inv, n);
    assert forall|i: u64| (i as int) < p.len() implies act(p, i) == i by {
        assert(g.contains_key(i));
        assert(inv[g[i]] == i);
    }
}

/// The size of a mapping over `u64` keys is at most 2^64.
pub proof fn lemma_u64_map_len(m: Map<u64, u64>)
    requires
        m.dom().finite(),
    ensures
        m.len() <= 0x1_0000_0000_0000_0000,
{
    super::lemma_u64_set_len(m.dom());
}

/// Outside its keys a mapping with keys `0..n` fixes every point, so a
/// product acts as its two factors in turn on every point.
proof fn lemma_times_acts(a: Map<u64, u64>, b: Map<u64, u64>)
    requires
        has_prefix_domain(a),
        has_prefix_domain(b),
        a.dom().finite(),
        b.dom().finite(),
    ensures
        has_prefix_domain(Permutation::times_view(a, b)),
        Permutation::times_view(a, b).dom().finite(),
        forall|x: u64| #[trigger] act(Permutation::times_view(a, b), x) == act(b, act(a, x)),
        Permutation::times_view(a, b).len() == if a.len() > b.len() { a.len() } else { b.len() },
{
    lemma_u64_map_len(a);
    lemma_u64_map_len(b);
    let k = if a.len() > b.len() { a.len() } else { b.len() };
    lemma_compose_upto(a, b, k);
    assert forall|x: u64| #[trigger] act(Permutation::times_view(a, b), x) == act(b, act(a, x)) by {
        if (x as int) >= k {
            assert(!a.contains_key(x));
            assert(!b.contains_key(x));
        }
    }
}

/// A bijection of `0..n` keeps `0..n` and fixes every other point.
pub proof fn lemma_bijection_acts(a: Map<u64, u64>)
    requires
        is_bijection(a),
    ensures
        forall|x: u64| #![trigger act(a, x)] (x as int) < a.len() ==> (act(a, x) as int) < a.len(),
        forall|x: u64| #![trigger act(a, x)] (x as int) >= a.len() ==> act(a, x) == x,
{
    assert forall|x: u64| #![trigger act(a, x)] (x as int) < a.len() implies (act(a, x) as int) < a.len() by {
        assert(a.contains_key(x));
    }
}

/// The product of two bijections of `0..n` is one, and acts as its factors
/// in turn.
pub proof fn lemma_times_bijection(a: Map<u64, u64>, b: Map<u64, u64>)
    requires
        is_bijection(a),
        is_bijection(b),
        a.len() == b.len(),
    ensures
        is_bijection(Permutation::times_view(a, b)),
        Permutation::times_view(a, b).len() == a.len(),
        forall|x: u64| #[trigger] act(Permutation::times_view(a, b), x) == act(b, act(a, x)),
{
    lemma_times_acts(a, b);
    lemma_bijection_acts(a);
    lemma_bijection_acts(b);
    let p = Permutation::times_view(a, b);
    let n = a.len();
    assert forall|i: u64| #![trigger p[i]] (i as int) < p.len() implies (p[i] as int) < p.len() by {
        assert(p.contains_key(i));
        assert(act(p, i) == act(b, act(a, i)));
    }
    assert forall|i: u64, j: u64|
        (i as int) < p.len() && (j as int) < p.len() && #[trigger] p[i] == #[trigger] p[j] implies i == j by {
        assert(p.contains_key(i) && p.contains_key(j));
        assert(act(p, i) == act(b, act(a, i)));
        assert(act(p, j) == act(b, act(a, j)));
        assert(a.contains_key(i) && a.contains_key(j));
        let ai = act(a, i);
        let aj = act(a, j);
        assert(b.contains_key(ai) && b.contains_key(aj));
        assert(b[ai] == b[aj]);
        assert(ai == aj);
    }
    assert forall|y: u64| (y as int) < p.len() implies #[trigger] has_preimage(p, y) by {
        assert(has_preimage(b, y));
        let z = choose|z: u64| (z as int) < n && b[z] == y;
        assert(has_preimage(a, z));
        let i = choose|i: u64| (i as int) < n && a[i] == z;
        assert(a.contains_key(i));
        assert(act(p, i) == act(b, act(a, i)));
        assert(p.contains_key(i));
        assert(p[i] == y);
    }
    assert(p.dom().finite());
    assert(has_prefix_domain(p));
}

/// The inverse of a bijection of `0..n` is one, and undoes it.
pub proof fn lemma_inverse_bijection(a: Map<u64, u64>)
    requires
        is_bijection(a),
    ensures
        is_bijection(Permutation::inverse_view(a)),
        Permutation::inverse_view(a).len() == a.len(),
        forall|x: u64| #[trigger] act(Permutation::inverse_view(a), act(a, x)) == x,
        forall|x: u64| #[trigger] act(a, act(Permutation::inverse_view(a), x)) == x,
{
    let n = a.len();
    let inv = Permutation::inverse_view(a);
    lemma_u64_map_len(a);
    lemma_invert_upto(a, n);
    lemma_bijection_acts(a);
    lemma_compose_upto(a, a, n);
    assert(inv.dom() =~= compose_upto(a, a, n).dom()) by {
        assert forall|y: u64| inv.contains_key(y) <==> compose_upto(a, a, n).contains_key(y) by {
            if (y as int) < n {
                assert(has_preimage(a, y));
                let i = choose|i: u64| (i as int) < n && a[i] == y;
                assert(inv.contains_key(a[i]));
            }
            if inv.contains_key(y) {
                let i = choose|i: u64| (i as int) < n && a[i] == y;
                assert(a.contains_key(i));
            }
        }
    }
    assert(inv.len() == n);
    assert forall|x: u64| #[trigger] act(inv, act(a, x)) == x by {
        if (x as int) < n {
            assert(a.contains_key(x));
            assert(inv[a[x]] == x);
        } else {
            assert(!inv.contains_key(x));
        }
    }
    assert forall|x: u64| #[trigger] act(a, act(inv, x)) == x by {
        if (x as int) < n {
            assert(has_preimage(a, x));
            let i = choose|i: u64| (i as int) < n && a[i] == x;
            assert(a.contains_key(i));
            assert(inv[a[i]] == i);
        } else {
            assert(!inv.contains_key(x));
        }
    }
    assert forall|i: u64| #![trigger inv[i]] (i as int) < inv.len() implies (inv[i] as int) < inv.len() by {
        assert(has_preimage(a, i));
        let j = choose|j: u64| (j as int) < n && a[j] == i;
        assert(a.contains_key(j));
        assert(inv[a[j]] == j);
    }
    assert forall|i: u64, j: u64|
        (i as int) < inv.len() && (j as int) < inv.len() && #[trigger] inv[i] == #[trigger] inv[j] implies i == j by {
        assert(inv.contains_key(i) && inv.contains_key(j));
        assert(act(a, act(inv, i)) == i);
        assert(act(a, act(inv, j)) == j);
    }
    assert forall|y: u64| (y as int) < inv.len() implies #[trigger] has_preimage(inv, y) by {
        assert(a.contains_key(y));
        assert(inv[a[y]] == y);
        assert(inv.contains_key(a[y]));
    }
    assert(inv.dom().finite());
    assert(has_prefix_domain(inv));
}

/// Composition of permutations is associative, for mappings whose keys are
/// `0..n`.
pub proof fn lemma_times_associative(a: Map<u64, u64>, b: Map<u64, u64>, c: Map<u64, u64>)
    requires
        has_prefix_domain(a),
        has_prefix_domain(b),
        has_prefix_domain(c),
        a.dom().finite(),
        b.dom().finite(),
        c.dom().finite(),
    ensures
        Permutation::times_view(Permutation::times_view(a, b), c) == Permutation::times_view(
            a,
            Permutation::times_view(b, c),
        ),
{
    let ab = Permutation::times_view(a, b);
    let bc = Permutation::times_view(b, c);
    lemma_times_acts(a, b);
    lemma_times_acts(b, c);
    lemma_times_acts(ab, c);
    lemma_times_acts(a, bc);
    let left = Permutation::times_view(ab, c);
    let right = Permutation::times_view(a, bc);
    assert(left.len() == right.len());
    assert(left.dom() =~= right.dom());
    assert forall|x: u64| left.contains_key(x) implies left[x] == right[x] by {
        assert(act(left, x) == act(c, act(ab, x)));
        assert(act(right, x) == act(bc, act(a, x)));
    }
    assert(left =~= right);
}

} // verus!
