//! The curve itself: its vertices, one fold, and a whole curve of a given
//! number of folds.
//!
//! Two functions of the caller stand for the turn. `about` is asked once per
//! fold, with the pivot, and gives the transform that turns about it; `apply`
//! gives the image of one point under such a transform.

use vstd::arithmetic::power2::{
    lemma2_to64, lemma_pow2_strictly_increases, lemma_pow2_unfold, pow2,
};
use vstd::prelude::*;

verus! {

/// The index that vertex `j` of the new half mirrors, in a path that had `n`
/// vertices before the fold: the reflection of `j` in the pivot's index `n - 1`.
pub open spec fn mirror(n: int, j: int) -> int {
    2 * (n - 1) - j
}

/// The lengths that occur in a curve: odd, or the two vertices of the base
/// segment.
pub open spec fn foldable(n: int) -> bool {
    n == 2 || (n >= 1 && n % 2 == 1)
}

/// The number of vertices of a curve of `folds` folds.
pub open spec fn curve_len(folds: nat) -> int {
    pow2(folds) as int + 1
}

/// `about` can be asked for the transform about any pivot, and `apply` can
/// apply what it gives to any point.
pub open spec fn total<P, T, K: Fn(P) -> T, A: Fn(&T, P) -> P>(about: K, apply: A) -> bool {
    &&& forall|pivot: P| #[trigger] about.requires((pivot,))
    &&& forall|pivot: P, transform: T, p: P| #[trigger]
        about.ensures((pivot,), transform) ==> #[trigger] apply.requires((&transform, p))
}

/// A point has one image under the turn about a pivot: whichever transform
/// `about` gives for the pivot, and however often `apply` is asked.
pub open spec fn single_valued<P, T, K: Fn(P) -> T, A: Fn(&T, P) -> P>(about: K, apply: A) -> bool {
    forall|pivot: P, first: T, second: T, p: P, q: P, r: P|
        #![trigger about.ensures((pivot,), first), about.ensures((pivot,), second), apply.ensures((&first, p), q), apply.ensures((&second, p), r)]
        about.ensures((pivot,), first) && about.ensures((pivot,), second) && apply.ensures(
            (&first, p),
            q,
        ) && apply.ensures((&second, p), r) ==> q == r
}

/// `after` is `before` folded once with `transform`: the old vertices stay
/// where they are, and behind them stand the images of the old vertices but
/// the last, in reverse order.
pub open spec fn is_fold<P, T, A: Fn(&T, P) -> P>(
    before: Seq<P>,
    transform: T,
    apply: A,
    after: Seq<P>,
) -> bool {
    &&& before.len() >= 1
    &&& after.len() == 2 * before.len() - 1
    &&& forall|i: int| 0 <= i < before.len() ==> #[trigger] after[i] == before[i]
    &&& forall|j: int|
        before.len() <= j < after.len() ==> apply.ensures(
            (&transform, before[mirror(before.len() as int, j)]),
            #[trigger] after[j],
        )
}

/// `after` is `before` folded once about its last vertex: `about` was asked for
/// the transform about that vertex, and the whole new half was made with the
/// one transform that it gave.
pub open spec fn is_doubling<P, T, K: Fn(P) -> T, A: Fn(&T, P) -> P>(
    before: Seq<P>,
    about: K,
    apply: A,
    after: Seq<P>,
) -> bool {
    &&& before.len() >= 1
    &&& exists|transform: T| #[trigger]
        about.ensures((before.last(),), transform) && is_fold(before, transform, apply, after)
}

/// Fold number `level + 1` made its share of `s`. Before it the curve had `n =
/// 2^level + 1` vertices. The fold asked `about` for the transform about the
/// last of them, the pivot, and each vertex from `n` to `2n - 2` is the image of
/// the vertex that stands as far before the pivot as it stands behind it.
pub open spec fn is_level<P, T, K: Fn(P) -> T, A: Fn(&T, P) -> P>(
    s: Seq<P>,
    level: nat,
    about: K,
    apply: A,
) -> bool {
    let n = curve_len(level);
    exists|transform: T| #[trigger]
        about.ensures((s[n - 1],), transform) && forall|j: int|
            n <= j < 2 * n - 1 ==> apply.ensures((&transform, s[#[trigger] mirror(n, j)]), s[j])
}

/// `s` is the curve of `folds` folds from the base segment `origin`, `unit`: it
/// has `2^folds + 1` vertices, begins with the base segment, and each fold made
/// its share of the rest.
pub open spec fn is_curve<P, T, K: Fn(P) -> T, A: Fn(&T, P) -> P>(
    s: Seq<P>,
    folds: nat,
    origin: P,
    unit: P,
    about: K,
    apply: A,
) -> bool {
    &&& s.len() == curve_len(folds)
    &&& s.len() >= 2
    &&& s[0] == origin
    &&& s[1] == unit
    &&& forall|level: nat| level < folds ==> #[trigger] is_level(s, level, about, apply)
}

/// `before` can be folded: it has a last vertex, `about` can be asked for the
/// transform about it, and `apply` can apply whatever `about` gives to each of
/// the vertices before it.
pub open spec fn can_fold<P, T, K: Fn(P) -> T, A: Fn(&T, P) -> P>(
    before: Seq<P>,
    about: K,
    apply: A,
) -> bool {
    &&& before.len() >= 1
    &&& about.requires((before.last(),))
    &&& forall|transform: T, i: int|
        #![trigger about.ensures((before.last(),), transform), before[i]]
        about.ensures((before.last(),), transform) && 0 <= i < before.len() - 1
            ==> apply.requires((&transform, before[i]))
}

/// The base segment can be folded `folds` times: whatever curve of fewer folds
/// comes of it can be folded once more.
pub open spec fn can_curve<P, T, K: Fn(P) -> T, A: Fn(&T, P) -> P>(
    folds: nat,
    origin: P,
    unit: P,
    about: K,
    apply: A,
) -> bool {
    forall|s: Seq<P>, level: nat|
        level < folds && #[trigger] is_curve(s, level, origin, unit, about, apply) ==> can_fold(
            s,
            about,
            apply,
        )
}

/// What fold number `level + 1` made depends on the vertices up to `2^(level +
/// 1)` alone: a path that agrees with `s` on them has that level as `s` has it.
pub proof fn lemma_level_agrees<P, T, K: Fn(P) -> T, A: Fn(&T, P) -> P>(
    s: Seq<P>,
    other: Seq<P>,
    level: nat,
    about: K,
    apply: A,
)
    requires
        is_level(s, level, about, apply),
        forall|i: int| 0 <= i < curve_len(level + 1) ==> #[trigger] other[i] == s[i],
    ensures
        is_level(other, level, about, apply),
{
    lemma_pow2_unfold(level + 1);
    let n = curve_len(level);
    let transform = choose|transform: T| #[trigger]
        about.ensures((s[n - 1],), transform) && forall|j: int|
            n <= j < 2 * n - 1 ==> apply.ensures((&transform, s[#[trigger] mirror(n, j)]), s[j]);
    assert(other[n - 1] == s[n - 1]);
    assert forall|j: int| n <= j < 2 * n - 1 implies apply.ensures(
        (&transform, other[#[trigger] mirror(n, j)]),
        other[j],
    ) by {
        assert(other[j] == s[j]);
        assert(other[mirror(n, j)] == s[mirror(n, j)]);
    }
    assert(about.ensures((other[n - 1],), transform));
}

/// One fold more: a curve of `folds` folds, doubled, is the curve of `folds +
/// 1` folds.
pub proof fn lemma_curve_doubled<P, T, K: Fn(P) -> T, A: Fn(&T, P) -> P>(
    before: Seq<P>,
    after: Seq<P>,
    folds: nat,
    origin: P,
    unit: P,
    about: K,
    apply: A,
)
    requires
        is_curve(before, folds, origin, unit, about, apply),
        is_doubling(before, about, apply, after),
    ensures
        is_curve(after, folds + 1, origin, unit, about, apply),
{
    lemma_pow2_unfold(folds + 1);
    let n = curve_len(folds);
    let transform = choose|transform: T| #[trigger]
        about.ensures((before.last(),), transform) && is_fold(before, transform, apply, after);
    assert(after[0] == before[0]);
    assert(after[1] == before[1]);
    assert forall|level: nat| level < folds + 1 implies #[trigger] is_level(
        after,
        level,
        about,
        apply,
    ) by {
        if level < folds {
            assert(is_level(before, level, about, apply));
            if level + 1 < folds {
                lemma_pow2_strictly_increases(level + 1, folds);
            }
            lemma_level_agrees(before, after, level, about, apply);
        } else {
            assert(after[n - 1] == before[n - 1]);
            assert forall|j: int| n <= j < 2 * n - 1 implies apply.ensures(
                (&transform, after[#[trigger] mirror(n, j)]),
                after[j],
            ) by {
                assert(after[mirror(n, j)] == before[mirror(n, j)]);
            }
            assert(about.ensures((after[n - 1],), transform));
        }
    }
}

/// A curve under construction: the base segment it starts from, and the
/// vertices of the path so far.
pub struct Dragon<P> {
    pub origin: P,
    pub unit: P,
    pub vertices: Vec<P>,
}

impl<P: Copy> Dragon<P> {
    /// The unfolded curve: the base segment from `origin` to `unit`.
    pub fn new(origin: P, unit: P) -> (dragon: Self)
        ensures
            dragon.origin == origin,
            dragon.unit == unit,
            dragon.vertices@ == seq![origin, unit],
    {
        let mut vertices: Vec<P> = Vec::new();
        vertices.push(origin);
        vertices.push(unit);
        Dragon { origin, unit, vertices }
    }

    /// Folds the path once about its last vertex, the pivot. The pivot stays
    /// where it is, at the seam, and the vertices before it are mirrored
    /// behind it: the nearest first, each one turned about the pivot. Whatever
    /// the length was, it is odd afterwards.
    pub fn double<T, K: Fn(P) -> T, A: Fn(&T, P) -> P>(&mut self, about: &K, apply: &A)
        requires
            can_fold(old(self).vertices@, *about, *apply),
        ensures
            is_doubling(old(self).vertices@, *about, *apply, final(self).vertices@),
            final(self).vertices@.len() == 2 * old(self).vertices@.len() - 1,
            final(self).vertices@[old(self).vertices@.len() - 1] == old(self).vertices@.last(),
            foldable(final(self).vertices@.len() as int),
            final(self).origin == old(self).origin,
            final(self).unit == old(self).unit,
    {
        let start_len: usize = self.vertices.len();
        let pivot: P = self.vertices[start_len - 1];
        let transform: T = about(pivot);
        let mut k: usize = 0;
        while k < start_len - 1
            invariant
                start_len == old(self).vertices@.len(),
                start_len >= 1,
                k <= start_len - 1,
                self.vertices@.len() == start_len + k,
                self.origin == old(self).origin,
                self.unit == old(self).unit,
                forall|i: int|
                    0 <= i < start_len - 1 ==> apply.requires(
                        (&transform, #[trigger] old(self).vertices@[i]),
                    ),
                forall|i: int|
                    0 <= i < start_len ==> #[trigger] self.vertices@[i] == old(self).vertices@[i],
                forall|j: int|
                    start_len <= j < start_len + k ==> apply.ensures(
                        (&transform, old(self).vertices@[mirror(start_len as int, j)]),
                        #[trigger] self.vertices@[j],
                    ),
            decreases start_len - 1 - k,
        {
            let source: P = self.vertices[start_len - 2 - k];
            let image: P = apply(&transform, source);
            self.vertices.push(image);
            k = k + 1;
        }
        proof {
            assert(about.ensures((old(self).vertices@.last(),), transform));
            assert(is_fold(old(self).vertices@, transform, *apply, self.vertices@));
        }
    }

    /// Starts again from the base segment and folds it `folds` times.
    ///
    /// What a vertex of the result is can be read off [`is_curve`] fold by
    /// fold: name the fold with [`is_level`] and the vertex that is mirrored
    /// with [`mirror`]. Functions that are [`total`] meet the precondition.
    pub fn curve<T, K: Fn(P) -> T, A: Fn(&T, P) -> P>(
        &mut self,
        folds: usize,
        about: &K,
        apply: &A,
    )
        requires
            can_curve(folds as nat, old(self).origin, old(self).unit, *about, *apply),
        ensures
            is_curve(
                final(self).vertices@,
                folds as nat,
                old(self).origin,
                old(self).unit,
                *about,
                *apply,
            ),
            final(self).vertices@.len() == pow2(folds as nat) + 1,
            final(self).vertices@.len() >= 2,
            final(self).vertices@[0] == old(self).origin,
            final(self).vertices@[1] == old(self).unit,
            foldable(final(self).vertices@.len() as int),
            final(self).origin == old(self).origin,
            final(self).unit == old(self).unit,
    {
        self.vertices.clear();
        self.vertices.push(self.origin);
        self.vertices.push(self.unit);
        proof {
            lemma2_to64();
            assert(self.vertices@ =~= seq![self.origin, self.unit]);
        }
        for done in 0..folds
            invariant
                can_curve(folds as nat, self.origin, self.unit, *about, *apply),
                self.origin == old(self).origin,
                self.unit == old(self).unit,
                foldable(self.vertices@.len() as int),
                is_curve(self.vertices@, done as nat, self.origin, self.unit, *about, *apply),
        {
            let ghost before = self.vertices@;
            self.double(about, apply);
            proof {
                lemma_curve_doubled(
                    before,
                    self.vertices@,
                    done as nat,
                    self.origin,
                    self.unit,
                    *about,
                    *apply,
                );
            }
        }
    }
}

} // verus!
