//! Facts about stripping through a stabilizer chain of permutations: the
//! transversals carry the base where they should, the Schreier generators fix
//! the base, and stripping a residue again leaves it as it is.
use vstd::prelude::*;

use super::permutation::{
    act, is_bijection, lemma_bijection_acts, lemma_inverse_bijection, lemma_points_below,
    lemma_times_bijection, lemma_u64_map_len, Permutation,
};
use super::tree::{node_act, node_value, SLPNode};
use super::{
    base_choice, chain_stage, chain_wf, first_image, identity_of, inverses_undo, is_schreier_generator, reaches,
    schreier_vector_wf, strip_view, transversal_view, walk, GroupAction, GroupElement,
};

verus! {

/// Every mapping of `gens` is a bijection of `0..n`.
pub open spec fn all_bijections(gens: Seq<Map<u64, u64>>, n: nat) -> bool {
    forall|k: int| 0 <= k < gens.len() ==> is_bijection(#[trigger] gens[k]) && gens[k].len() == n
}

/// Every mapping of `gens` fixes `b`.
pub open spec fn all_fix(gens: Seq<Map<u64, u64>>, b: u64) -> bool {
    forall|k: int| 0 <= k < gens.len() ==> act(#[trigger] gens[k], b) == b
}

/// A bijection of `0..n` that fixes every point.
pub open spec fn is_identity_bijection(m: Map<u64, u64>, n: nat) -> bool {
    &&& is_bijection(m)
    &&& m.len() == n
    &&& forall|x: u64| #[trigger] act(m, x) == x
}

/// Bijections of `0..n` are undone by their inverses, so every point of each
/// orbit of a chain built from them has a transversal.
pub proof fn lemma_bijections_invert(gens: Seq<Map<u64, u64>>, n: nat)
    requires
        all_bijections(gens, n),
    ensures
        inverses_undo::<Permutation>(gens),
{
    assert forall|i: int, q: u64| 0 <= i < gens.len() implies #[trigger] Permutation::act_view(
        Permutation::inverse_view(gens[i]),
        Permutation::act_view(gens[i], q),
    ) == q by {
        assert(is_bijection(gens[i]));
        lemma_inverse_bijection(gens[i]);
        assert(act(Permutation::inverse_view(gens[i]), act(gens[i], q)) == q);
    }
}

/// The inverse of a bijection that fixes `b` fixes `b`.
proof fn lemma_inverse_fixes(a: Map<u64, u64>, b: u64)
    requires
        is_bijection(a),
        act(a, b) == b,
    ensures
        act(Permutation::inverse_view(a), b) == b,
{
    lemma_inverse_bijection(a);
    assert(act(Permutation::inverse_view(a), act(a, b)) == b);
}

/// The identity the walk starts from is a bijection that fixes every point,
/// and so is its inverse.
proof fn lemma_identity_of(gens: Seq<Map<u64, u64>>, n: nat)
    requires
        gens.len() > 0,
        all_bijections(gens, n),
    ensures
        is_identity_bijection(identity_of::<Permutation>(gens), n),
        is_identity_bijection(Permutation::inverse_view(identity_of::<Permutation>(gens)), n),
{
    let g = gens[0];
    assert(is_bijection(g) && g.len() == n);
    lemma_inverse_bijection(g);
    let inv = Permutation::inverse_view(g);
    lemma_times_bijection(g, inv);
    let id = identity_of::<Permutation>(gens);
    assert forall|x: u64| #[trigger] act(id, x) == x by {
        assert(act(id, x) == act(inv, act(g, x)));
    }
    lemma_inverse_bijection(id);
    let ii = Permutation::inverse_view(id);
    assert forall|x: u64| #[trigger] act(ii, x) == x by {
        assert(act(id, act(ii, x)) == x);
    }
}

/// A successful walk yields a bijection that carries the base to where the
/// inverse of the start carries the starting point, and that fixes every
/// point fixed by the start and by all generators.
proof fn lemma_walk(
    base: u64,
    gens: Seq<Map<u64, u64>>,
    indices: Map<u64, isize>,
    n: nat,
    p: u64,
    acc: Map<u64, u64>,
    fuel: nat,
)
    requires
        all_bijections(gens, n),
        schreier_vector_wf::<Permutation>(base, gens, indices),
        is_bijection(acc),
        acc.len() == n,
        walk::<Permutation>(gens, indices, p, acc, fuel) is Some,
    ensures
        ({
            let t = walk::<Permutation>(gens, indices, p, acc, fuel)->Some_0;
            &&& is_bijection(t)
            &&& t.len() == n
            &&& act(t, base) == act(Permutation::inverse_view(acc), p)
            &&& forall|b: u64|
                act(acc, b) == b && all_fix(gens, b) ==> #[trigger] act(t, b) == b
        }),
    decreases fuel,
{
    lemma_inverse_bijection(acc);
    if indices[p] == -1 {
        assert(p == base);
        assert forall|b: u64| act(acc, b) == b && all_fix(gens, b) implies #[trigger] act(
            Permutation::inverse_view(acc),
            b,
        ) == b by {
            lemma_inverse_fixes(acc, b);
        }
    } else {
        let g = gens[indices[p] as int];
        assert(is_bijection(g) && g.len() == n);
        let inv = Permutation::inverse_view(g);
        lemma_inverse_bijection(g);
        let q = act(inv, p);
        let acc2 = Permutation::times_view(acc, inv);
        lemma_times_bijection(acc, inv);
        lemma_walk(base, gens, indices, n, q, acc2, (fuel - 1) as nat);
        let t = walk::<Permutation>(gens, indices, q, acc2, (fuel - 1) as nat)->Some_0;
        let y = act(Permutation::inverse_view(acc2), q);
        lemma_inverse_bijection(acc2);
        assert(act(acc2, y) == q);
        assert(act(acc2, y) == act(inv, act(acc, y)));
        assert(act(g, act(inv, act(acc, y))) == act(acc, y));
        assert(act(g, q) == p);
        assert(act(acc, y) == p);
        assert(act(Permutation::inverse_view(acc), act(acc, y)) == y);
        assert forall|b: u64| act(acc, b) == b && all_fix(gens, b) implies #[trigger] act(t, b) == b by {
            assert(act(g, b) == b);
            lemma_inverse_fixes(g, b);
            assert(act(acc2, b) == act(inv, act(acc, b)));
        }
    }
}

/// A transversal that the Schreier vector yields for `p` is a bijection that
/// carries the base to `p` and fixes every point all generators fix.
proof fn lemma_reaches(
    base: u64,
    gens: Seq<Map<u64, u64>>,
    indices: Map<u64, isize>,
    n: nat,
    p: u64,
    t: Map<u64, u64>,
)
    requires
        gens.len() > 0,
        all_bijections(gens, n),
        schreier_vector_wf::<Permutation>(base, gens, indices),
        reaches::<Permutation>(gens, indices, p, t),
    ensures
        is_bijection(t),
        t.len() == n,
        act(t, base) == p,
        forall|b: u64| all_fix(gens, b) ==> #[trigger] act(t, b) == b,
{
    let id = identity_of::<Permutation>(gens);
    lemma_identity_of(gens, n);
    let fuel = choose|fuel: nat| walk::<Permutation>(gens, indices, p, id, fuel) == Some(t);
    lemma_walk(base, gens, indices, n, p, id, fuel);
    assert forall|b: u64| all_fix(gens, b) implies #[trigger] act(t, b) == b by {
        assert(act(id, b) == b);
    }
}

/// A Schreier generator of a level is a bijection of `0..n` that fixes the
/// base, and every point that all generators of the level fix.
pub proof fn lemma_schreier_generator_fixes_base(
    base: u64,
    gens: Seq<Map<u64, u64>>,
    indices: Map<u64, isize>,
    n: nat,
    s: Map<u64, u64>,
)
    requires
        gens.len() > 0,
        all_bijections(gens, n),
        schreier_vector_wf::<Permutation>(base, gens, indices),
        is_schreier_generator::<Permutation>(gens, indices, s),
    ensures
        is_bijection(s),
        s.len() == n,
        act(s, base) == base,
        forall|b: u64| all_fix(gens, b) ==> #[trigger] act(s, b) == b,
{
    let (p, i, t, u) = choose|p: u64, i: int, t: Map<u64, u64>, u: Map<u64, u64>|
        0 <= i < gens.len() && reaches::<Permutation>(gens, indices, p, t) && reaches::<Permutation>(
            gens,
            indices,
            Permutation::act_view(gens[i], p),
            u,
        ) && s == Permutation::times_view(
            Permutation::times_view(t, gens[i]),
            Permutation::inverse_view(u),
        );
    let g = gens[i];
    assert(is_bijection(g) && g.len() == n);
    lemma_reaches(base, gens, indices, n, p, t);
    lemma_reaches(base, gens, indices, n, act(g, p), u);
    lemma_times_bijection(t, g);
    let tg = Permutation::times_view(t, g);
    lemma_inverse_bijection(u);
    let iu = Permutation::inverse_view(u);
    lemma_times_bijection(tg, iu);
    assert(act(s, base) == act(iu, act(tg, base)));
    assert(act(tg, base) == act(g, act(t, base)));
    assert(act(iu, act(u, base)) == base);
    assert forall|b: u64| all_fix(gens, b) implies #[trigger] act(s, b) == b by {
        assert(act(g, b) == b);
        lemma_inverse_fixes(u, b);
        assert(act(s, b) == act(iu, act(tg, b)));
        assert(act(tg, b) == act(g, act(t, b)));
    }
}

/// The generators of every level of a chain built from bijections of `0..n`
/// are bijections of `0..n`, and fix the bases of all earlier levels.
proof fn lemma_chain_levels(
    gset: Seq<u64>,
    gens: Seq<Map<u64, u64>>,
    levels: Seq<(u64, Seq<Map<u64, u64>>, Map<u64, isize>)>,
    gs: Seq<Map<u64, u64>>,
    n: nat,
    i: int,
)
    requires
        chain_stage::<Permutation>(gset, gens, levels, gs),
        all_bijections(gens, n),
        0 <= i < levels.len(),
    ensures
        all_bijections(levels[i].1, n),
        forall|j: int| 0 <= j < i ==> all_fix(levels[i].1, #[trigger] levels[j].0),
    decreases i,
{
    if i > 0 {
        lemma_chain_levels(gset, gens, levels, gs, n, i - 1);
        let prev = levels[i - 1];
        assert(prev.1.len() > 0);
        assert(schreier_vector_wf::<Permutation>(prev.0, prev.1, prev.2));
        assert forall|k: int| 0 <= k < levels[i].1.len() implies is_bijection(#[trigger] levels[i].1[k])
            && levels[i].1[k].len() == n && act(levels[i].1[k], prev.0) == prev.0 && forall|j: int|
            0 <= j < i - 1 ==> act(levels[i].1[k], #[trigger] levels[j].0) == levels[j].0 by {
            let s = levels[i].1[k];
            lemma_schreier_generator_fixes_base(prev.0, prev.1, prev.2, n, s);
            assert forall|j: int| 0 <= j < i - 1 implies act(s, #[trigger] levels[j].0) == levels[j].0 by {
                assert(all_fix(prev.1, levels[j].0));
            }
        }
        assert forall|j: int| 0 <= j < i implies all_fix(levels[i].1, #[trigger] levels[j].0) by {
            assert forall|k: int| 0 <= k < levels[i].1.len() implies act(#[trigger] levels[i].1[k], levels[j].0)
                == levels[j].0 by {
                if j < i - 1 {
                } else {
                    assert(levels[j] == prev);
                }
            }
        }
    }
}

/// What stripping through `levels` needs to be idempotent: a Schreier vector at
/// each level, generators that are bijections of `0..n`, and each level's base
/// fixed by the generators of every later level.
pub open spec fn strippable(levels: Seq<(u64, Seq<Map<u64, u64>>, Map<u64, isize>)>, n: nat) -> bool {
    &&& forall|i: int|
        0 <= i < levels.len() ==> {
            &&& (#[trigger] levels[i]).1.len() > 0
            &&& all_bijections(levels[i].1, n)
            &&& schreier_vector_wf::<Permutation>(levels[i].0, levels[i].1, levels[i].2)
        }
    &&& forall|i: int, j: int|
        0 <= j < i < levels.len() ==> all_fix((#[trigger] levels[i]).1, (#[trigger] levels[j]).0)
}

/// Stripping keeps a bijection of `0..n` one, and keeps every point fixed that
/// the element and all generators of the levels fix.
proof fn lemma_strip_keeps(
    levels: Seq<(u64, Seq<Map<u64, u64>>, Map<u64, isize>)>,
    n: nat,
    c: Map<u64, u64>,
)
    requires
        strippable(levels, n),
        is_bijection(c),
        c.len() == n,
    ensures
        is_bijection(strip_view::<Permutation>(levels, c)),
        strip_view::<Permutation>(levels, c).len() == n,
        forall|b: u64|
            act(c, b) == b && (forall|i: int| 0 <= i < levels.len() ==> all_fix(#[trigger] levels[i].1, b))
                ==> #[trigger] act(strip_view::<Permutation>(levels, c), b) == b,
    decreases levels.len(),
{
    if levels.len() > 0 {
        let level = levels[0];
        let rest = levels.skip(1);
        assert forall|i: int| 0 <= i < rest.len() implies (#[trigger] rest[i]) == levels[i + 1] by {}
        assert(strippable(rest, n)) by {
            assert forall|i: int, j: int| 0 <= j < i < rest.len() implies all_fix(
                (#[trigger] rest[i]).1,
                (#[trigger] rest[j]).0,
            ) by {
                assert(all_fix(levels[i + 1].1, levels[j + 1].0));
            }
        }
        let image = act(c, level.0);
        if level.2.contains_key(image) {
            match transversal_view::<Permutation>(level.1, level.2, image) {
                Some(t) => {
                    lemma_identity_of(level.1, n);
                    let id = identity_of::<Permutation>(level.1);
                    assert(reaches::<Permutation>(level.1, level.2, image, t)) by {
                        assert(walk::<Permutation>(level.1, level.2, image, id, level.2.len()) == Some(t));
                    }
                    lemma_reaches(level.0, level.1, level.2, n, image, t);
                    lemma_inverse_bijection(t);
                    let it = Permutation::inverse_view(t);
                    lemma_times_bijection(c, it);
                    let c2 = Permutation::times_view(c, it);
                    lemma_strip_keeps(rest, n, c2);
                    assert forall|b: u64|
                        act(c, b) == b && (forall|i: int| 0 <= i < levels.len() ==> all_fix(#[trigger] levels[i].1, b))
                        implies #[trigger] act(strip_view::<Permutation>(levels, c), b) == b by {
                        assert(all_fix(levels[0].1, b));
                        lemma_inverse_fixes(t, b);
                        assert(act(c2, b) == act(it, act(c, b)));
                        assert forall|i: int| 0 <= i < rest.len() implies all_fix(#[trigger] rest[i].1, b) by {
                            assert(all_fix(levels[i + 1].1, b));
                        }
                    }
                },
                None => {},
            }
        }
    }
}

/// Multiplying by a bijection that fixes every point changes nothing.
proof fn lemma_times_identity(r: Map<u64, u64>, x: Map<u64, u64>, n: nat)
    requires
        is_bijection(r),
        r.len() == n,
        is_identity_bijection(x, n),
    ensures
        Permutation::times_view(r, x) == r,
{
    lemma_times_bijection(r, x);
    let p = Permutation::times_view(r, x);
    assert(p.dom() =~= r.dom());
    assert forall|k: u64| p.contains_key(k) implies p[k] == r[k] by {
        assert(act(p, k) == act(x, act(r, k)));
    }
    assert(p =~= r);
}

/// Stripping is idempotent on levels that satisfy `strippable`, for an element
/// that is a bijection of `0..n`.
proof fn lemma_strip_idempotent_levels(
    levels: Seq<(u64, Seq<Map<u64, u64>>, Map<u64, isize>)>,
    n: nat,
    c: Map<u64, u64>,
)
    requires
        strippable(levels, n),
        is_bijection(c),
        c.len() == n,
    ensures
        strip_view::<Permutation>(levels, strip_view::<Permutation>(levels, c)) == strip_view::<
            Permutation,
        >(levels, c),
    decreases levels.len(),
{
    if levels.len() > 0 {
        let level = levels[0];
        let rest = levels.skip(1);
        assert forall|i: int| 0 <= i < rest.len() implies (#[trigger] rest[i]) == levels[i + 1] by {}
        assert(strippable(rest, n)) by {
            assert forall|i: int, j: int| 0 <= j < i < rest.len() implies all_fix(
                (#[trigger] rest[i]).1,
                (#[trigger] rest[j]).0,
            ) by {
                assert(all_fix(levels[i + 1].1, levels[j + 1].0));
            }
        }
        let image = act(c, level.0);
        if level.2.contains_key(image) {
            match transversal_view::<Permutation>(level.1, level.2, image) {
                Some(t) => {
                    lemma_identity_of(level.1, n);
                    let id = identity_of::<Permutation>(level.1);
                    assert(reaches::<Permutation>(level.1, level.2, image, t)) by {
                        assert(walk::<Permutation>(level.1, level.2, image, id, level.2.len()) == Some(t));
                    }
                    lemma_reaches(level.0, level.1, level.2, n, image, t);
                    lemma_inverse_bijection(t);
                    let it = Permutation::inverse_view(t);
                    lemma_times_bijection(c, it);
                    let c2 = Permutation::times_view(c, it);
                    assert(act(c2, level.0) == act(it, act(t, level.0)));
                    assert(act(c2, level.0) == level.0);
                    let r = strip_view::<Permutation>(rest, c2);
                    lemma_strip_keeps(rest, n, c2);
                    assert forall|i: int| 0 <= i < rest.len() implies all_fix(#[trigger] rest[i].1, level.0) by {
                        assert(all_fix(levels[i + 1].1, levels[0].0));
                    }
                    assert(act(r, level.0) == level.0);
                    assert(strip_view::<Permutation>(levels, c) == r);
                    let ii = Permutation::inverse_view(id);
                    assert(walk::<Permutation>(level.1, level.2, level.0, id, level.2.len()) == Some(ii));
                    assert(transversal_view::<Permutation>(level.1, level.2, level.0) == Some(ii));
                    lemma_inverse_bijection(ii);
                    let iii = Permutation::inverse_view(ii);
                    assert forall|x: u64| #[trigger] act(iii, x) == x by {
                        assert(act(iii, act(ii, x)) == x);
                    }
                    lemma_times_identity(r, iii, n);
                    assert(strip_view::<Permutation>(levels, r) == strip_view::<Permutation>(rest, r));
                    lemma_strip_idempotent_levels(rest, n, c2);
                },
                None => {},
            }
        }
    }
}

/// Stripping is idempotent: for a stabilizer chain built from generators that
/// are bijections of `0..n`, and an element that is a bijection of `0..n`,
/// stripping the residue again yields the same residue.
pub proof fn lemma_strip_idempotent(
    gset: Seq<u64>,
    gens: Seq<Map<u64, u64>>,
    levels: Seq<(u64, Seq<Map<u64, u64>>, Map<u64, isize>)>,
    n: nat,
    e: Map<u64, u64>,
)
    requires
        chain_wf::<Permutation>(gset, gens, levels),
        all_bijections(gens, n),
        is_bijection(e),
        e.len() == n,
    ensures
        strip_view::<Permutation>(levels, strip_view::<Permutation>(levels, e)) == strip_view::<
            Permutation,
        >(levels, e),
{
    let none = Seq::<Map<u64, u64>>::empty();
    if levels.len() == 0 {
        assert(gens =~= none);
    }
    assert(chain_stage::<Permutation>(gset, gens, levels, none));
    assert forall|i: int| 0 <= i < levels.len() implies all_bijections((#[trigger] levels[i]).1, n) by {
        lemma_chain_levels(gset, gens, levels, none, n, i);
    }
    assert forall|i: int, j: int| 0 <= j < i < levels.len() implies all_fix(
        (#[trigger] levels[i]).1,
        (#[trigger] levels[j]).0,
    ) by {
        lemma_chain_levels(gset, gens, levels, none, n, i);
    }
    lemma_strip_idempotent_levels(levels, n, e);
}

/// The first image is some generator's image of a point it moves.
proof fn lemma_first_image_moved(gens: Seq<Map<u64, u64>>, x: u64)
    requires
        first_image::<Permutation>(gens, x) is Some,
    ensures
        exists|k: int|
            0 <= k < gens.len() && act(#[trigger] gens[k], x) != x && first_image::<Permutation>(gens, x)
                == Some(act(gens[k], x)),
    decreases gens.len(),
{
    if act(gens[0], x) == x {
        lemma_first_image_moved(gens.skip(1), x);
        let k = choose|k: int|
            0 <= k < gens.skip(1).len() && act(#[trigger] gens.skip(1)[k], x) != x && first_image::<
                Permutation,
            >(gens.skip(1), x) == Some(act(gens.skip(1)[k], x));
        assert(gens.skip(1)[k] == gens[k + 1]);
    }
}

/// A chosen base is the image of a point of `gset` under a generator that
/// moves it.
proof fn lemma_base_moved(gset: Seq<u64>, gens: Seq<Map<u64, u64>>, b: u64)
    requires
        base_choice::<Permutation>(gset, gens) == Some(b),
    ensures
        exists|k: int, y: u64| 0 <= k < gens.len() && #[trigger] act(gens[k], y) == b && b != y,
    decreases gset.len(),
{
    if first_image::<Permutation>(gens, gset[0]) is Some {
        lemma_first_image_moved(gens, gset[0]);
    } else {
        lemma_base_moved(gset.skip(1), gens, b);
    }
}

/// A generator that moves a point of `gset` makes the base choice succeed.
proof fn lemma_base_exists(gset: Seq<u64>, gens: Seq<Map<u64, u64>>, k: int, x: u64)
    requires
        gset.contains(x),
        0 <= k < gens.len(),
        act(gens[k], x) != x,
    ensures
        base_choice::<Permutation>(gset, gens) is Some,
    decreases gset.len(),
{
    if first_image::<Permutation>(gens, gset[0]) is None {
        if gset[0] == x {
            lemma_first_image_none(gens, x, k);
        } else {
            let j = choose|j: int| 0 <= j < gset.len() && gset[j] == x;
            assert(gset.skip(1)[j - 1] == x);
            lemma_base_exists(gset.skip(1), gens, k, x);
        }
    }
}

/// When no generator moves `x`, there is no first image; so a generator that
/// moves it contradicts an empty first image.
proof fn lemma_first_image_none(gens: Seq<Map<u64, u64>>, x: u64, k: int)
    requires
        0 <= k < gens.len(),
        act(gens[k], x) != x,
    ensures
        first_image::<Permutation>(gens, x) is Some,
    decreases gens.len(),
{
    if act(gens[0], x) == x {
        assert(k > 0);
        assert(gens.skip(1)[k - 1] == gens[k]);
        lemma_first_image_none(gens.skip(1), x, k - 1);
    }
}

/// Building the chain never fails on bijections of `0..n` when `gset` holds
/// every point below `n` and some generator moves a point: at every stage a
/// base exists, and the chain stays shorter than `usize::MAX` levels. With the
/// failure clause of `Group::new`, the construction then returns `Some`.
pub proof fn lemma_construction_succeeds(
    gset: Seq<u64>,
    gens: Seq<Map<u64, u64>>,
    levels: Seq<(u64, Seq<Map<u64, u64>>, Map<u64, isize>)>,
    gs: Seq<Map<u64, u64>>,
    n: nat,
)
    requires
        chain_stage::<Permutation>(gset, gens, levels, gs),
        gs.len() > 0,
        all_bijections(gens, n),
        exists|k: int| 0 <= k < gens.len() && !Permutation::identity_view(#[trigger] gens[k]),
        forall|x: u64| (x as int) < n ==> gset.contains(x),
        gset.len() <= usize::MAX,
    ensures
        base_choice::<Permutation>(gset, gs) is Some,
        levels.len() < usize::MAX,
{
    assert forall|i: int| 0 <= i < levels.len() implies all_bijections((#[trigger] levels[i]).1, n) && forall|j: int|
        0 <= j < i ==> all_fix(levels[i].1, #[trigger] levels[j].0) by {
        lemma_chain_levels(gset, gens, levels, gs, n, i);
    }
    // The next generating set: bijections that fix every base so far.
    assert(all_bijections(gs, n) && forall|j: int| 0 <= j < levels.len() ==> all_fix(gs, #[trigger] levels[j].0)) by {
        if levels.len() > 0 {
            let last = levels[levels.len() - 1];
            assert forall|k: int| 0 <= k < gs.len() implies is_bijection(#[trigger] gs[k]) && gs[k].len() == n
                && forall|j: int| 0 <= j < levels.len() ==> act(gs[k], #[trigger] levels[j].0) == levels[j].0 by {
                lemma_schreier_generator_fixes_base(last.0, last.1, last.2, n, gs[k]);
                assert forall|j: int| 0 <= j < levels.len() implies act(gs[k], #[trigger] levels[j].0) == levels[j].0 by {
                    if j < levels.len() - 1 {
                        assert(all_fix(last.1, levels[j].0));
                    }
                }
            }
        }
    }
    // A generator of `gs` that moves a point below `n`.
    let k = if levels.len() == 0 {
        choose|k: int| 0 <= k < gens.len() && !Permutation::identity_view(#[trigger] gens[k])
    } else {
        0
    };
    assert(0 <= k < gs.len() && !Permutation::identity_view(gs[k]));
    let g = gs[k];
    assert(is_bijection(g) && g.len() == n);
    let x = choose|x: u64| (x as int) < g.len() && act(g, x) != x;
    lemma_base_exists(gset, gs, k, x);
    // The bases, and then `x`, are distinct points below `n`.
    let bases = Seq::new(levels.len(), |i: int| levels[i].0);
    let all = bases.push(x);
    assert forall|i: int| 0 <= i < levels.len() implies (#[trigger] bases[i] as int) < n && exists|h: int|
        0 <= h < levels[i].1.len() && act(#[trigger] levels[i].1[h], bases[i]) != bases[i] by {
        let lv = levels[i];
        lemma_base_moved(gset, lv.1, lv.0);
        let (h, y) = choose|h: int, y: u64| 0 <= h < lv.1.len() && #[trigger] act(lv.1[h], y) == lv.0 && lv.0 != y;
        let m = lv.1[h];
        assert(is_bijection(m) && m.len() == n);
        lemma_bijection_acts(m);
        if act(m, lv.0) == lv.0 {
            assert(m.contains_key(y) && m.contains_key(lv.0));
        }
    }
    assert(all.no_duplicates()) by {
        assert forall|a: int, b: int| 0 <= a < b < all.len() implies all[a] != all[b] by {
            if b < levels.len() {
                let h = choose|h: int| 0 <= h < levels[b].1.len() && act(#[trigger] levels[b].1[h], bases[b]) != bases[b];
                assert(all_fix(levels[b].1, levels[a].0));
            } else {
                assert(all_fix(gs, levels[a].0));
            }
        }
    }
    lemma_bijection_acts(g);
    assert((x as int) < n);
    lemma_u64_map_len(g);
    lemma_points_below(n);
    let below = Set::new(|y: u64| (y as int) < n);
    all.unique_seq_to_set();
    assert(all.to_set().subset_of(below)) by {
        assert forall|y: u64| all.to_set().contains(y) implies below.contains(y) by {
            let i = choose|i: int| 0 <= i < all.len() && all[i] == y;
            if i < levels.len() {
                assert(all[i] == bases[i]);
            }
        }
    }
    vstd::set_lib::lemma_len_subset(all.to_set(), below);
    assert(below.subset_of(gset.to_set()));
    gset.lemma_cardinality_of_set();
    vstd::set_lib::lemma_len_subset(below, gset.to_set());
}

/// Every generator leaf of the expression is a bijection of `0..n`.
pub open spec fn leaves_are_bijections(e: SLPNode<Permutation>, n: nat) -> bool
    decreases e,
{
    match e {
        SLPNode::Generator(g) => is_bijection(g@) && g@.len() == n,
        SLPNode::Product(l, r) => leaves_are_bijections(*l, n) && leaves_are_bijections(*r, n),
        SLPNode::Inverse(t) => leaves_are_bijections(*t, n),
    }
}

/// The first sub-expression of a product or inverse.
pub open spec fn first_child(e: SLPNode<Permutation>) -> SLPNode<Permutation> {
    match e {
        SLPNode::Product(l, _) => *l,
        SLPNode::Inverse(t) => *t,
        SLPNode::Generator(_) => e,
    }
}

/// The second sub-expression of a product.
pub open spec fn second_child(e: SLPNode<Permutation>) -> SLPNode<Permutation> {
    match e {
        SLPNode::Product(_, r) => *r,
        _ => e,
    }
}

/// A shared expression over bijections of `0..n` acts on every point as the
/// permutation it evaluates to, and its inverse action is that of the inverse
/// permutation.
pub proof fn lemma_node_acts_as_value(e: SLPNode<Permutation>, n: nat, p: u64)
    requires
        leaves_are_bijections(e, n),
    ensures
        is_bijection(node_value::<Permutation>(e)),
        node_value::<Permutation>(e).len() == n,
        node_act::<Permutation>(e, p, false) == act(node_value::<Permutation>(e), p),
        node_act::<Permutation>(e, p, true) == act(Permutation::inverse_view(node_value::<Permutation>(e)), p),
    decreases e,
{
    if e is Generator {
        lemma_inverse_bijection(node_value::<Permutation>(e));
    } else if e is Product {
        let l = first_child(e);
        let r = second_child(e);
        let a = node_value::<Permutation>(l);
        let b = node_value::<Permutation>(r);
        lemma_node_acts_as_value(l, n, p);
        lemma_node_acts_as_value(r, n, p);
        let q = node_act::<Permutation>(l, p, false);
        lemma_node_acts_as_value(r, n, q);
        let q2 = node_act::<Permutation>(r, p, true);
        lemma_node_acts_as_value(l, n, q2);
        lemma_times_bijection(a, b);
        let ab = Permutation::times_view(a, b);
        lemma_inverse_bijection(ab);
        lemma_inverse_bijection(a);
        lemma_inverse_bijection(b);
        let y = act(Permutation::inverse_view(ab), p);
        assert(act(ab, y) == p);
        assert(act(ab, y) == act(b, act(a, y)));
        assert(act(Permutation::inverse_view(b), act(b, act(a, y))) == act(a, y));
        assert(act(Permutation::inverse_view(a), act(a, y)) == y);
    } else {
        let t = first_child(e);
        let a = node_value::<Permutation>(t);
        lemma_node_acts_as_value(t, n, p);
        lemma_inverse_bijection(a);
        let ia = Permutation::inverse_view(a);
        lemma_inverse_bijection(ia);
        assert forall|x: u64| #[trigger] act(Permutation::inverse_view(ia), x) == act(a, x) by {
            assert(act(ia, act(a, x)) == x);
            assert(act(Permutation::inverse_view(ia), act(ia, act(a, x))) == act(a, x));
        }
    }
}

} // verus!
