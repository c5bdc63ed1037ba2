//! What holds of every curve, whatever the points and the turn.

use crate::curve::{
    can_curve, can_fold, curve_len, is_curve, is_level, lemma_level_agrees, mirror, single_valued,
    total,
};
use vstd::arithmetic::power2::{
    lemma2_to64, lemma_pow2_strictly_increases, lemma_pow2_unfold, pow2,
};
use vstd::prelude::*;

verus! {

/// Functions that answer every question can fold every path that has a vertex,
/// and can make a curve of any number of folds from any base segment.
pub proof fn lemma_total_suffices<P, T, K: Fn(P) -> T, A: Fn(&T, P) -> P>(
    path: Seq<P>,
    folds: nat,
    origin: P,
    unit: P,
    about: K,
    apply: A,
)
    requires
        total(about, apply),
    ensures
        path.len() >= 1 ==> can_fold(path, about, apply),
        can_curve(folds, origin, unit, about, apply),
{
}

/// Curves get longer with every fold, and the shortest has two vertices.
pub proof fn lemma_curve_len_grows(shorter: nat, folds: nat)
    requires
        shorter <= folds,
    ensures
        2 <= curve_len(shorter) <= curve_len(folds),
        shorter < folds ==> pow2(shorter) < pow2(folds),
{
    lemma2_to64();
    if 0 < shorter {
        lemma_pow2_strictly_increases(0, shorter);
    }
    if shorter < folds {
        lemma_pow2_strictly_increases(shorter, folds);
    }
}

/// A curve of `folds` folds has `2^folds + 1` vertices: two when it is not
/// folded at all, and an odd number of them after that.
pub proof fn lemma_curve_len<P, T, K: Fn(P) -> T, A: Fn(&T, P) -> P>(
    s: Seq<P>,
    folds: nat,
    origin: P,
    unit: P,
    about: K,
    apply: A,
)
    requires
        is_curve(s, folds, origin, unit, about, apply),
    ensures
        s.len() == pow2(folds) + 1,
        folds == 0 ==> s.len() == 2,
        folds > 0 ==> s.len() % 2 == 1,
{
    if folds == 0 {
        lemma2_to64();
    } else {
        lemma_pow2_unfold(folds);
    }
}

/// The unfolded curve is the base segment and nothing else.
pub proof fn lemma_curve_unfolded<P, T, K: Fn(P) -> T, A: Fn(&T, P) -> P>(
    s: Seq<P>,
    origin: P,
    unit: P,
    about: K,
    apply: A,
)
    ensures
        is_curve(s, 0, origin, unit, about, apply) <==> s == seq![origin, unit],
{
    lemma2_to64();
    if is_curve(s, 0, origin, unit, about, apply) {
        assert(s =~= seq![origin, unit]);
    }
}

/// Folding keeps what is there: the front of a curve, cut where a curve of
/// fewer folds ends, is that curve of fewer folds. So the first vertex is the
/// origin however often the curve is folded.
pub proof fn lemma_curve_front<P, T, K: Fn(P) -> T, A: Fn(&T, P) -> P>(
    s: Seq<P>,
    shorter: nat,
    folds: nat,
    origin: P,
    unit: P,
    about: K,
    apply: A,
)
    requires
        shorter <= folds,
        is_curve(s, folds, origin, unit, about, apply),
    ensures
        curve_len(shorter) <= s.len(),
        is_curve(s.take(curve_len(shorter)), shorter, origin, unit, about, apply),
        s[0] == origin,
{
    lemma_curve_len_grows(shorter, folds);
    let front = s.take(curve_len(shorter));
    assert forall|level: nat| level < shorter implies is_level(front, level, about, apply) by {
        assert(is_level(s, level, about, apply));
        lemma_curve_len_grows(level + 1, shorter);
        lemma_level_agrees(s, front, level, about, apply);
    }
}

/// With a turn that gives every point one image, the inputs decide the curve:
/// two curves of the same folds from the same base segment are equal, vertex
/// for vertex.
pub proof fn lemma_curve_unique<P, T, K: Fn(P) -> T, A: Fn(&T, P) -> P>(
    first: Seq<P>,
    second: Seq<P>,
    folds: nat,
    origin: P,
    unit: P,
    about: K,
    apply: A,
)
    requires
        single_valued(about, apply),
        is_curve(first, folds, origin, unit, about, apply),
        is_curve(second, folds, origin, unit, about, apply),
    ensures
        first == second,
    decreases folds,
{
    if folds == 0 {
        lemma2_to64();
        assert(first =~= second);
    } else {
        let level = (folds - 1) as nat;
        let n = curve_len(level);
        lemma_pow2_unfold(folds);
        lemma_curve_front(first, level, folds, origin, unit, about, apply);
        lemma_curve_front(second, level, folds, origin, unit, about, apply);
        lemma_curve_unique(first.take(n), second.take(n), level, origin, unit, about, apply);
        assert(is_level(first, level, about, apply));
        assert(is_level(second, level, about, apply));
        let transform_a = choose|transform: T| #[trigger]
            about.ensures((first[n - 1],), transform) && forall|j: int|
                n <= j < 2 * n - 1 ==> apply.ensures(
                    (&transform, first[#[trigger] mirror(n, j)]),
                    first[j],
                );
        let transform_b = choose|transform: T| #[trigger]
            about.ensures((second[n - 1],), transform) && forall|j: int|
                n <= j < 2 * n - 1 ==> apply.ensures(
                    (&transform, second[#[trigger] mirror(n, j)]),
                    second[j],
                );
        assert forall|j: int| 0 <= j < first.len() implies first[j] == second[j] by {
            if j < n {
                assert(first[j] == first.take(n)[j]);
                assert(second[j] == second.take(n)[j]);
            } else {
                let i = mirror(n, j);
                assert(first[i] == first.take(n)[i]);
                assert(second[i] == second.take(n)[i]);
                assert(first[n - 1] == first.take(n)[n - 1]);
                assert(second[n - 1] == second.take(n)[n - 1]);
                assert(apply.ensures((&transform_a, first[i]), first[j]));
                assert(apply.ensures((&transform_b, second[i]), second[j]));
            }
        }
        assert(first =~= second);
    }
}

/// With such a turn, folding further never changes a vertex that is there: the
/// curve of fewer folds is the front of the curve of more folds.
pub proof fn lemma_curve_extends<P, T, K: Fn(P) -> T, A: Fn(&T, P) -> P>(
    short: Seq<P>,
    shorter: nat,
    long: Seq<P>,
    folds: nat,
    origin: P,
    unit: P,
    about: K,
    apply: A,
)
    requires
        shorter <= folds,
        single_valued(about, apply),
        is_curve(short, shorter, origin, unit, about, apply),
        is_curve(long, folds, origin, unit, about, apply),
    ensures
        short.len() <= long.len(),
        long.take(short.len() as int) == short,
{
    lemma_curve_front(long, shorter, folds, origin, unit, about, apply);
    lemma_curve_unique(long.take(curve_len(shorter)), short, shorter, origin, unit, about, apply);
}

/// Every vertex behind the base segment is a turned image of an earlier one.
/// Fold number `level + 1` found `n = 2^level + 1` vertices and made vertex `j`,
/// for `n <= j <= 2n - 2`: it turned about vertex `n - 1`, and `j` is the image of
/// the vertex as far before that pivot as `j` is behind it.
pub proof fn lemma_curve_vertex<P, T, K: Fn(P) -> T, A: Fn(&T, P) -> P>(
    s: Seq<P>,
    folds: nat,
    level: nat,
    j: int,
    origin: P,
    unit: P,
    about: K,
    apply: A,
)
    requires
        is_curve(s, folds, origin, unit, about, apply),
        level < folds,
        curve_len(level) <= j < curve_len(level + 1),
    ensures
        j < s.len(),
        0 <= mirror(curve_len(level), j) < curve_len(level) - 1,
        exists|transform: T| #[trigger]
            about.ensures((s[curve_len(level) - 1],), transform) && apply.ensures(
                (&transform, s[mirror(curve_len(level), j)]),
                s[j],
            ),
{
    let n = curve_len(level);
    lemma_curve_len_grows(level + 1, folds);
    lemma_pow2_unfold(level + 1);
    assert(is_level(s, level, about, apply));
    let transform = choose|transform: T| #[trigger]
        about.ensures((s[n - 1],), transform) && forall|j: int|
            n <= j < 2 * n - 1 ==> apply.ensures((&transform, s[#[trigger] mirror(n, j)]), s[j]);
    assert(apply.ensures((&transform, s[mirror(n, j)]), s[j]));
}

/// The path has no gap at a seam. The pivot of fold number `level + 1` was the
/// last vertex before that fold and is there once; the vertex behind it is the
/// image of the vertex before it, under the transform about the pivot.
pub proof fn lemma_curve_seam<P, T, K: Fn(P) -> T, A: Fn(&T, P) -> P>(
    s: Seq<P>,
    folds: nat,
    level: nat,
    origin: P,
    unit: P,
    about: K,
    apply: A,
)
    requires
        level < folds,
        is_curve(s, folds, origin, unit, about, apply),
    ensures
        2 <= curve_len(level) < s.len(),
        s.take(curve_len(level)).last() == s[curve_len(level) - 1],
        exists|transform: T| #[trigger]
            about.ensures((s[curve_len(level) - 1],), transform) && apply.ensures(
                (&transform, s[curve_len(level) - 2]),
                s[curve_len(level)],
            ),
{
    let n = curve_len(level);
    lemma_curve_len_grows(0, level);
    lemma_curve_len_grows(level + 1, folds);
    lemma_pow2_unfold(level + 1);
    lemma_curve_vertex(s, folds, level, n, origin, unit, about, apply);
    assert(mirror(n, n) == n - 2);
}

} // verus!
