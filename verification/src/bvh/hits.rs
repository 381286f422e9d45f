//! Nearest hit and any hit along a ray.

use super::keys::Aabb;
use super::walk::{admitted, awaits, inside, Walk};
use super::wide::Bvh;
use vstd::prelude::*;

verus! {

/// A hit: the primitive, the distance along the ray, and where on the primitive.
#[derive(Clone, Copy, Debug, PartialEq, Eq, Structural)]
pub struct RayHit {
    pub prim: usize,
    pub t: u64,
    pub u: u64,
    pub v: u64,
}

/// Whether primitive `i` is hit before the end of the interval and the hit is kept.
pub open spec fn candidate(
    n: int,
    hit: spec_fn(usize) -> Option<(u64, u64, u64)>,
    before: spec_fn(usize) -> bool,
    keep: spec_fn(usize) -> bool,
    i: usize,
) -> bool {
    &&& i < n
    &&& hit(i) is Some
    &&& before(i)
    &&& keep(i)
}

/// Whether a search may come to ask about primitive `i`, which is hit, up to `t`, and has to be
/// told of the hit: `t` is `tmax` and `i` is hit before it, or `t` is the reach of the hit of a
/// primitive that is no nearer than `i`.
pub open spec fn asked_up_to(
    n: int,
    tmax: u64,
    hit: spec_fn(usize) -> Option<(u64, u64, u64)>,
    before: spec_fn(usize) -> bool,
    reach: spec_fn(u64) -> u64,
    i: usize,
    t: u64,
) -> bool {
    ||| t == tmax && before(i)
    ||| exists|j: usize|
        j < n && #[trigger] hit(j) is Some && hit(i)->Some_0.0 <= hit(j)->Some_0.0 && t == reach(
            hit(j)->Some_0.0,
        )
}

/// Whether the caller's functions fit together, as answers about one ray do.
///
/// `hit` says where the ray meets a primitive, whatever the interval, and `before` whether that is
/// before `tmax`; `reach` is what `slack` makes of a distance. All of this is asked only of
/// primitives, of distances of hits, of intervals that the search may come to, and of boxes that
/// lie in the box around all primitives.
/// - A primitive is hit nowhere but where `hit` says, and before `tmax` only if `before` says so.
///   It is hit if it is hit before `tmax` and asked for up to there, or asked for up to the reach
///   of a hit that is no nearer.
/// - What is nearer than a hit before `tmax` is hit before `tmax` too.
/// - `reach` keeps the order of the distances of hits.
/// - The ray enters every box around a primitive that it hits before `tmax`, no later than at
///   `tmax` and no later than at `reach` of the distance of the hit.
pub open spec fn consistent_hits<
    E: Fn(Aabb, u64) -> Option<u64>,
    I: Fn(usize, u64) -> Option<(u64, u64, u64)>,
    K: Fn(u64) -> u64,
>(
    boxes: Seq<Aabb>,
    enter: E,
    intersect: I,
    slack: K,
    tmax: u64,
    hit: spec_fn(usize) -> Option<(u64, u64, u64)>,
    before: spec_fn(usize) -> bool,
    reach: spec_fn(u64) -> u64,
) -> bool {
    let n = boxes.len() as int;
    &&& forall|i: usize, t: u64, h: (u64, u64, u64)|
        i < n && #[trigger] intersect.ensures((i, t), Some(h)) ==> hit(i) == Some(h) && (t == tmax
            ==> before(i))
    &&& forall|i: usize, t: u64|
        i < n && #[trigger] intersect.ensures((i, t), None) && hit(i) is Some ==> !asked_up_to(
            n,
            tmax,
            hit,
            before,
            reach,
            i,
            t,
        )
    &&& forall|i: usize, j: usize|
        i < n && j < n && #[trigger] hit(i) is Some && #[trigger] hit(j) is Some && before(j)
            && hit(i)->Some_0.0 <= hit(j)->Some_0.0 ==> before(i)
    &&& forall|i: usize, s: u64|
        i < n && hit(i) is Some && #[trigger] slack.ensures((hit(i)->Some_0.0,), s) ==> s == reach(
            hit(i)->Some_0.0,
        )
    &&& forall|i: usize, j: usize|
        i < n && j < n && #[trigger] hit(i) is Some && #[trigger] hit(j) is Some && hit(i)->Some_0.0
            <= hit(j)->Some_0.0 ==> reach(hit(i)->Some_0.0) <= reach(hit(j)->Some_0.0)
    &&& forall|i: usize, b: Aabb, t: u64, r: Option<u64>|
        i < n && b.holds(boxes[i as int]) && inside(boxes, b) && #[trigger] hit(i) is Some && before(
            i,
        ) && asked_up_to(n, tmax, hit, before, reach, i, t) && #[trigger] enter.ensures((b, t), r)
            ==> (r matches Some(t0) && t0 <= tmax && t0 <= reach(hit(i)->Some_0.0))
}

/// Whether `keep` says which hits `accept` keeps.
pub open spec fn accepts<F: Fn(usize, u64, u64) -> bool>(
    n: int,
    accept: F,
    hit: spec_fn(usize) -> Option<(u64, u64, u64)>,
    keep: spec_fn(usize) -> bool,
) -> bool {
    forall|i: usize, u: u64, v: u64, b: bool|
        i < n && #[trigger] accept.ensures((i, u, v), b) && hit(i) is Some && hit(i)->Some_0.1 == u
            && hit(i)->Some_0.2 == v ==> b == keep(i)
}

/// [`consistent_hits`], and `keep` says which hits are kept.
pub open spec fn consistent<
    E: Fn(Aabb, u64) -> Option<u64>,
    I: Fn(usize, u64) -> Option<(u64, u64, u64)>,
    F: Fn(usize, u64, u64) -> bool,
    K: Fn(u64) -> u64,
>(
    boxes: Seq<Aabb>,
    enter: E,
    intersect: I,
    accept: F,
    slack: K,
    tmax: u64,
    hit: spec_fn(usize) -> Option<(u64, u64, u64)>,
    before: spec_fn(usize) -> bool,
    keep: spec_fn(usize) -> bool,
    reach: spec_fn(u64) -> u64,
) -> bool {
    &&& consistent_hits(boxes, enter, intersect, slack, tmax, hit, before, reach)
    &&& accepts(boxes.len() as int, accept, hit, keep)
}

/// What [`consistent`] asks where the interval does not change.
pub open spec fn consistent_any<
    E: Fn(Aabb, u64) -> Option<u64>,
    I: Fn(usize, u64) -> Option<(u64, u64, u64)>,
    F: Fn(usize, u64, u64) -> bool,
>(
    boxes: Seq<Aabb>,
    enter: E,
    intersect: I,
    accept: F,
    tmax: u64,
    hit: spec_fn(usize) -> Option<(u64, u64, u64)>,
    before: spec_fn(usize) -> bool,
    keep: spec_fn(usize) -> bool,
) -> bool {
    let n = boxes.len() as int;
    &&& forall|i: usize, h: (u64, u64, u64)|
        i < n && #[trigger] intersect.ensures((i, tmax), Some(h)) ==> hit(i) == Some(h) && before(i)
    &&& forall|i: usize|
        i < n && #[trigger] intersect.ensures((i, tmax), None) && hit(i) is Some ==> !before(i)
    &&& accepts(n, accept, hit, keep)
    &&& forall|i: usize, b: Aabb, r: Option<u64>|
        i < n && b.holds(boxes[i as int]) && inside(boxes, b) && #[trigger] hit(i) is Some && before(
            i,
        ) && #[trigger] enter.ensures((b, tmax), r) ==> (r matches Some(t0) && t0 <= tmax)
}

/// By when the ray has entered every box around primitive `i`: the reach of the hit, or `tmax`.
spec fn entered_by(
    tmax: u64,
    hit: spec_fn(usize) -> Option<(u64, u64, u64)>,
    reach: spec_fn(u64) -> u64,
    i: usize,
) -> u64 {
    if reach(hit(i)->Some_0.0) <= tmax {
        reach(hit(i)->Some_0.0)
    } else {
        tmax
    }
}

/// Every hit is kept.
pub open spec fn every_hit() -> spec_fn(usize) -> bool {
    |i: usize| true
}

/// Whether `best` is at least as good as a hit of primitive `i` at distance `t`: nearer, or as
/// near and of a number that is not greater.
pub open spec fn beaten(best: Option<RayHit>, t: u64, i: usize) -> bool {
    best matches Some(b) && (b.t < t || (b.t == t && b.prim <= i))
}

/// Whether `best` is the best of all candidates.
pub open spec fn is_winner(
    n: int,
    hit: spec_fn(usize) -> Option<(u64, u64, u64)>,
    before: spec_fn(usize) -> bool,
    keep: spec_fn(usize) -> bool,
    best: Option<RayHit>,
) -> bool {
    &&& best matches Some(b) ==> candidate(n, hit, before, keep, b.prim) && hit(b.prim) == Some(
        (b.t, b.u, b.v),
    )
    &&& forall|i: usize| #[trigger]
        candidate(n, hit, before, keep, i) ==> beaten(best, hit(i)->Some_0.0, i)
}

/// There is at most one best hit: two searches that both find the best of the same candidates find
/// the same hit, in whatever order they come to the primitives and whatever the hierarchy is like.
pub proof fn winner_is_unique(
    n: int,
    hit: spec_fn(usize) -> Option<(u64, u64, u64)>,
    before: spec_fn(usize) -> bool,
    keep: spec_fn(usize) -> bool,
    a: Option<RayHit>,
    b: Option<RayHit>,
)
    requires
        is_winner(n, hit, before, keep, a),
        is_winner(n, hit, before, keep, b),
    ensures
        a == b,
{
    if a is Some {
        assert(candidate(n, hit, before, keep, a->Some_0.prim));
    }
    if b is Some {
        assert(candidate(n, hit, before, keep, b->Some_0.prim));
    }
}

/// There is a best hit exactly if there is any.
pub proof fn nearest_exists_if_any_does(
    n: int,
    hit: spec_fn(usize) -> Option<(u64, u64, u64)>,
    before: spec_fn(usize) -> bool,
    keep: spec_fn(usize) -> bool,
    best: Option<RayHit>,
)
    requires
        is_winner(n, hit, before, keep, best),
    ensures
        best is Some <==> exists|i: usize| #[trigger] candidate(n, hit, before, keep, i),
{
    if best is Some {
        assert(candidate(n, hit, before, keep, best->Some_0.prim));
    }
}

/// Where the caller's functions fit together, a search for the nearest hit and a search for any
/// hit agree on whether the ray is blocked: `best` is what the one returns, `any` the other.
pub proof fn searches_agree<
    E: Fn(Aabb, u64) -> Option<u64>,
    I: Fn(usize, u64) -> Option<(u64, u64, u64)>,
    F: Fn(usize, u64, u64) -> bool,
    K: Fn(u64) -> u64,
>(
    boxes: Seq<Aabb>,
    enter: E,
    intersect: I,
    accept: F,
    slack: K,
    tmax: u64,
    hit: spec_fn(usize) -> Option<(u64, u64, u64)>,
    before: spec_fn(usize) -> bool,
    keep: spec_fn(usize) -> bool,
    reach: spec_fn(u64) -> u64,
    best: Option<RayHit>,
    any: Option<RayHit>,
)
    requires
        consistent(boxes, enter, intersect, accept, slack, tmax, hit, before, keep, reach),
        is_winner(boxes.len() as int, hit, before, keep, best),
        consistent_any(boxes, enter, intersect, accept, tmax, hit, before, keep) ==> (any is Some
            <==> exists|i: usize| #[trigger]
            candidate(boxes.len() as int, hit, before, keep, i)),
    ensures
        consistent_any(boxes, enter, intersect, accept, tmax, hit, before, keep),
        best is Some <==> any is Some,
{
    nearest_exists_if_any_does(boxes.len() as int, hit, before, keep, best);
    assert forall|i: usize, b: Aabb, r: Option<u64>|
        i < boxes.len() && b.holds(boxes[i as int]) && inside(boxes, b) && #[trigger] hit(i) is Some
            && before(i) && #[trigger] enter.ensures((b, tmax), r) implies (r matches Some(t0) && t0
        <= tmax) by {
        assert(asked_up_to(boxes.len() as int, tmax, hit, before, reach, i, tmax));
    }
    assert forall|i: usize|
        i < boxes.len() && #[trigger] intersect.ensures((i, tmax), None)
            && hit(i) is Some implies !before(i) by {
        assert(!asked_up_to(boxes.len() as int, tmax, hit, before, reach, i, tmax));
    }
}

/// What the search keeps: the best hit so far is a candidate, the interval ends where its slack
/// does, and every candidate that is not beaten still awaits its test.
spec fn search_ok(
    bvh: Bvh,
    tmax: u64,
    hit: spec_fn(usize) -> Option<(u64, u64, u64)>,
    before: spec_fn(usize) -> bool,
    keep: spec_fn(usize) -> bool,
    reach: spec_fn(u64) -> u64,
    walk: Walk,
    best: Option<RayHit>,
    limit: u64,
) -> bool {
    &&& limit == (match best {
        None => tmax,
        Some(b) => reach(b.t),
    })
    &&& best matches Some(b) ==> candidate(
        bvh.boxes@.len() as int,
        hit,
        before,
        keep,
        b.prim,
    ) && hit(b.prim) == Some((b.t, b.u, b.v))
    &&& forall|q: int|
        0 <= q < bvh.indices@.len() && candidate(
            bvh.boxes@.len() as int,
            hit,
            before,
            keep,
            #[trigger] bvh.indices@[q],
        ) ==> beaten(best, hit(bvh.indices@[q])->Some_0.0, bvh.indices@[q]) || awaits(
            bvh.wide@,
            walk,
            q,
            entered_by(tmax, hit, reach, bvh.indices@[q]),
        )
}

/// A candidate that is not beaten is admitted by the box test.
proof fn lemma_admitted<
    E: Fn(Aabb, u64) -> Option<u64>,
    I: Fn(usize, u64) -> Option<(u64, u64, u64)>,
    F: Fn(usize, u64, u64) -> bool,
    K: Fn(u64) -> u64,
>(
    boxes: Seq<Aabb>,
    enter: E,
    intersect: I,
    accept: F,
    slack: K,
    tmax: u64,
    hit: spec_fn(usize) -> Option<(u64, u64, u64)>,
    before: spec_fn(usize) -> bool,
    keep: spec_fn(usize) -> bool,
    reach: spec_fn(u64) -> u64,
    best: Option<RayHit>,
    limit: u64,
    i: usize,
)
    requires
        consistent(
            boxes,
            enter,
            intersect,
            accept,
            slack,
            tmax,
            hit,
            before,
            keep,
            reach,
        ),
        limit == (match best {
            None => tmax,
            Some(b) => reach(b.t),
        }),
        best matches Some(b) ==> b.prim < boxes.len() && hit(b.prim) == Some((b.t, b.u, b.v)),
        candidate(boxes.len() as int, hit, before, keep, i),
        !beaten(best, hit(i)->Some_0.0, i),
    ensures
        admitted(enter, boxes, i, entered_by(tmax, hit, reach, i), limit),
        !intersect.ensures((i, limit), None),
{
    let h = hit(i)->Some_0;
    assert(hit(i) == Some(h));
    if let Some(b) = best {
        assert(h.0 <= b.t);
        assert(hit(b.prim) is Some && hit(i) is Some);
        assert(reach(h.0) <= reach(b.t));
    }
    assert(asked_up_to(boxes.len() as int, tmax, hit, before, reach, i, limit));
    assert forall|b: Aabb, r: Option<u64>|
        b.holds(boxes[i as int]) && inside(boxes, b) && #[trigger] enter.ensures(
            (b, limit),
            r,
        ) implies (r matches Some(t0) && t0 <= entered_by(tmax, hit, reach, i)) by {
        assert(hit(i) is Some);
    }
}

impl Bvh {
    /// Every primitive has a position.
    proof fn lemma_position_of(&self, i: usize)
        requires
            self.wf(),
            i < self.boxes@.len(),
        ensures
            exists|q: int| 0 <= q < self.indices@.len() && #[trigger] self.indices@[q] == i,
    {
        let n = self.boxes@.len() as int;
        let all = super::construct::all_items(n);
        assert(all.no_duplicates());
        assert(super::split::shuffled(all, self.indices@)) by {
            assert forall|k: int| 0 <= k < self.indices@.len() implies all.contains(
                #[trigger] self.indices@[k],
            ) by {
                assert(all[self.indices@[k] as int] == self.indices@[k]);
            }
        }
        super::construct::lemma_shuffle_back(all, self.indices@);
        assert(self.indices@.contains(all[i as int]));
    }

    /// The nearest hit before `tmax` that `accept` keeps; of equally near ones, that of the
    /// primitive with the least number.
    ///
    /// - `enter`: where the ray enters a box before a distance, if it does;
    /// - `intersect`: where the ray hits a primitive before a distance, if it does;
    /// - `accept`: whether a hit of a primitive at a place is kept;
    /// - `slack`: a distance a little beyond the given one, so that a hit at the same distance is
    ///   not lost to rounding.
    pub fn hit_filtered<
        E: Fn(Aabb, u64) -> Option<u64>,
        I: Fn(usize, u64) -> Option<(u64, u64, u64)>,
        F: Fn(usize, u64, u64) -> bool,
        K: Fn(u64) -> u64,
    >(&self, enter: &E, intersect: &I, accept: &F, slack: &K, tmax: u64) -> (r: Option<RayHit>)
        requires
            self.wf(),
            forall|b: Aabb, t: u64| #[trigger] enter.requires((b, t)),
            forall|i: usize, t: u64|
                i < self.boxes@.len() ==> #[trigger] intersect.requires((i, t)),
            forall|i: usize, u: u64, v: u64|
                i < self.boxes@.len() ==> #[trigger] accept.requires((i, u, v)),
            forall|t: u64| #[trigger] slack.requires((t,)),
        ensures
            self.boxes@.len() == 0 ==> r is None,
            r matches Some(h) ==> h.prim < self.boxes@.len() && accept.ensures(
                (h.prim, h.u, h.v),
                true,
            ) && exists|t: u64| #[trigger]
                intersect.ensures((h.prim, t), Some((h.t, h.u, h.v))),
            forall|
                hit: spec_fn(usize) -> Option<(u64, u64, u64)>,
                before: spec_fn(usize) -> bool,
                keep: spec_fn(usize) -> bool,
                reach: spec_fn(u64) -> u64,
            | #[trigger]
                consistent(
                    self.boxes@,
                    *enter,
                    *intersect,
                    *accept,
                    *slack,
                    tmax,
                    hit,
                    before,
                    keep,
                    reach,
                ) ==> is_winner(
                    self.boxes@.len() as int,
                    hit,
                    before,
                    keep,
                    r,
                ),
    {
        let mut walk = self.start_walk(enter, tmax);
        let mut best: Option<RayHit> = None;
        let mut limit: u64 = tmax;
        proof {
            assert forall|
                hit: spec_fn(usize) -> Option<(u64, u64, u64)>,
                before: spec_fn(usize) -> bool,
                keep: spec_fn(usize) -> bool,
                reach: spec_fn(u64) -> u64,
            | #[trigger]
                consistent(
                    self.boxes@,
                    *enter,
                    *intersect,
                    *accept,
                    *slack,
                    tmax,
                    hit,
                    before,
                    keep,
                    reach,
                ) implies search_ok(
                    *self,
                    tmax,
                    hit,
                    before,
                    keep,
                    reach,
                    walk,
                    best,
                    limit,
                ) by {
                assert forall|q: int|
                    0 <= q < self.indices@.len() && candidate(
                        self.boxes@.len() as int,
                        hit,
                        before,
                        keep,
                        #[trigger] self.indices@[q],
                    ) implies awaits(
                    self.wide@,
                    walk,
                    q,
                    entered_by(tmax, hit, reach, self.indices@[q]),
                ) by {
                    lemma_admitted(
                        self.boxes@,
                        *enter,
                        *intersect,
                        *accept,
                        *slack,
                        tmax,
                        hit,
                        before,
                        keep,
                        reach,
                        best,
                        limit,
                        self.indices@[q],
                    );
                }
            }
        }
        loop
            invariant
                self.wf(),
                walk.wf(self),
                forall|b: Aabb, t: u64| #[trigger] enter.requires((b, t)),
                forall|i: usize, t: u64|
                    i < self.boxes@.len() ==> #[trigger] intersect.requires((i, t)),
                forall|i: usize, u: u64, v: u64|
                    i < self.boxes@.len() ==> #[trigger] accept.requires((i, u, v)),
                forall|t: u64| #[trigger] slack.requires((t,)),
                best matches Some(h) ==> h.prim < self.boxes@.len() && accept.ensures(
                    (h.prim, h.u, h.v),
                    true,
                ) && exists|t: u64| #[trigger]
                    intersect.ensures((h.prim, t), Some((h.t, h.u, h.v))),
                forall|
                    hit: spec_fn(usize) -> Option<(u64, u64, u64)>,
                    before: spec_fn(usize) -> bool,
                    keep: spec_fn(usize) -> bool,
                    reach: spec_fn(u64) -> u64,
                | #[trigger]
                    consistent(
                        self.boxes@,
                        *enter,
                        *intersect,
                        *accept,
                        *slack,
                        tmax,
                        hit,
                        before,
                        keep,
                        reach,
                    ) ==> search_ok(
                        *self,
                        tmax,
                        hit,
                        before,
                        keep,
                        reach,
                        walk,
                        best,
                        limit,
                    ),
            decreases walk.steps(self),
        {
            let ghost walk0 = walk;
            let ghost best0 = best;
            let ghost limit0 = limit;
            let next: Option<usize> = self.next_in_walk(&mut walk, enter, limit);
            let p: usize = match next {
                None => {
                    proof {
                        assert forall|
                            hit: spec_fn(usize) -> Option<(u64, u64, u64)>,
                            before: spec_fn(usize) -> bool,
                            keep: spec_fn(usize) -> bool,
                            reach: spec_fn(u64) -> u64,
                        | #[trigger]
                            consistent(
                                self.boxes@,
                                *enter,
                                *intersect,
                                *accept,
                                *slack,
                                tmax,
                                hit,
                                before,
                                keep,
                                reach,
                            ) implies is_winner(
                                self.boxes@.len() as int,
                                hit,
                                before,
                                keep,
                                best,
                            ) by {
                            self.lemma_search_over(
                                *enter,
                                *intersect,
                                *accept,
                                *slack,
                                tmax,
                                hit,
                                before,
                                keep,
                                reach,
                                walk0,
                                walk,
                                best,
                                limit,
                            );
                        }
                    }
                    return best;
                },
                Some(p) => p,
            };
            let found: Option<(u64, u64, u64)> = intersect(p, limit);
            let mut kept: bool = false;
            if let Some((t, u, v)) = found {
                kept = accept(p, u, v);
                if kept {
                    let better: bool = match best {
                        None => true,
                        Some(b) => t < b.t || (t == b.t && p < b.prim),
                    };
                    if better {
                        limit = slack(t);
                        best = Some(RayHit { prim: p, t, u, v });
                    }
                }
            }
            proof {
                assert forall|
                    hit: spec_fn(usize) -> Option<(u64, u64, u64)>,
                    before: spec_fn(usize) -> bool,
                    keep: spec_fn(usize) -> bool,
                    reach: spec_fn(u64) -> u64,
                | #[trigger]
                    consistent(
                        self.boxes@,
                        *enter,
                        *intersect,
                        *accept,
                        *slack,
                        tmax,
                        hit,
                        before,
                        keep,
                        reach,
                    ) implies search_ok(
                        *self,
                        tmax,
                        hit,
                        before,
                        keep,
                        reach,
                        walk,
                        best,
                        limit,
                    ) by {
                    self.lemma_search_step(
                        *enter,
                        *intersect,
                        *accept,
                        *slack,
                        tmax,
                        hit,
                        before,
                        keep,
                        reach,
                        walk0,
                        walk,
                        best0,
                        limit0,
                        p,
                        found,
                        kept,
                        best,
                        limit,
                    );
                }
            }
        }
    }

    /// When nothing is left to test, the best hit is the winner.
    proof fn lemma_search_over<
        E: Fn(Aabb, u64) -> Option<u64>,
        I: Fn(usize, u64) -> Option<(u64, u64, u64)>,
        F: Fn(usize, u64, u64) -> bool,
        K: Fn(u64) -> u64,
    >(
        &self,
        enter: E,
        intersect: I,
        accept: F,
        slack: K,
        tmax: u64,
        hit: spec_fn(usize) -> Option<(u64, u64, u64)>,
        before: spec_fn(usize) -> bool,
        keep: spec_fn(usize) -> bool,
        reach: spec_fn(u64) -> u64,
        earlier: Walk,
        later: Walk,
        best: Option<RayHit>,
        limit: u64,
    )
        requires
            self.wf(),
            consistent(
                self.boxes@,
                enter,
                intersect,
                accept,
                slack,
                tmax,
                hit,
                before,
                keep,
                reach,
            ),
            search_ok(
                *self,
                tmax,
                hit,
                before,
                keep,
                reach,
                earlier,
                best,
                limit,
            ),
            later.stack@.len() == 0,
            later.next == later.end,
            forall|q: int, t: u64|
                0 <= q < self.indices@.len() && #[trigger] awaits(self.wide@, earlier, q, t)
                    && admitted(enter, self.boxes@, self.indices@[q], t, limit) ==> awaits(
                    self.wide@,
                    later,
                    q,
                    t,
                ),
        ensures
            is_winner(
                self.boxes@.len() as int,
                hit,
                before,
                keep,
                best,
            ),
    {
        assert forall|i: usize| #[trigger]
            candidate(
                self.boxes@.len() as int,
                hit,
                before,
                keep,
                i,
            ) implies beaten(best, hit(i)->Some_0.0, i) by {
            self.lemma_position_of(i);
            let q = choose|q: int| 0 <= q < self.indices@.len() && #[trigger] self.indices@[q] == i;
            if !beaten(best, hit(i)->Some_0.0, i) {
                lemma_admitted(
                    self.boxes@,
                    enter,
                    intersect,
                    accept,
                    slack,
                    tmax,
                    hit,
                    before,
                    keep,
                    reach,
                    best,
                    limit,
                    i,
                );
                assert(awaits(self.wide@, earlier, q, entered_by(tmax, hit, reach, i)));
            }
        }
    }

    /// Testing one more primitive keeps the search going.
    proof fn lemma_search_step<
        E: Fn(Aabb, u64) -> Option<u64>,
        I: Fn(usize, u64) -> Option<(u64, u64, u64)>,
        F: Fn(usize, u64, u64) -> bool,
        K: Fn(u64) -> u64,
    >(
        &self,
        enter: E,
        intersect: I,
        accept: F,
        slack: K,
        tmax: u64,
        hit: spec_fn(usize) -> Option<(u64, u64, u64)>,
        before: spec_fn(usize) -> bool,
        keep: spec_fn(usize) -> bool,
        reach: spec_fn(u64) -> u64,
        earlier: Walk,
        later: Walk,
        best0: Option<RayHit>,
        limit0: u64,
        p: usize,
        found: Option<(u64, u64, u64)>,
        kept: bool,
        best: Option<RayHit>,
        limit: u64,
    )
        requires
            self.wf(),
            consistent(
                self.boxes@,
                enter,
                intersect,
                accept,
                slack,
                tmax,
                hit,
                before,
                keep,
                reach,
            ),
            search_ok(
                *self,
                tmax,
                hit,
                before,
                keep,
                reach,
                earlier,
                best0,
                limit0,
            ),
            p < self.boxes@.len(),
            forall|q: int, t: u64|
                0 <= q < self.indices@.len() && #[trigger] awaits(self.wide@, earlier, q, t)
                    && admitted(enter, self.boxes@, self.indices@[q], t, limit0) ==> Some(p)
                    == Some(self.indices@[q]) || awaits(self.wide@, later, q, t),
            intersect.ensures((p, limit0), found),
            found matches Some(h) ==> accept.ensures((p, h.1, h.2), kept),
            found is None ==> !kept,
            ({
                let better = kept && (match best0 {
                    None => true,
                    Some(b) => found->Some_0.0 < b.t || (found->Some_0.0 == b.t && p < b.prim),
                });
                if better {
                    &&& slack.ensures((found->Some_0.0,), limit)
                    &&& best == Some(
                        RayHit {
                            prim: p,
                            t: found->Some_0.0,
                            u: found->Some_0.1,
                            v: found->Some_0.2,
                        },
                    )
                } else {
                    best == best0 && limit == limit0
                }
            }),
        ensures
            search_ok(
                *self,
                tmax,
                hit,
                before,
                keep,
                reach,
                later,
                best,
                limit,
            ),
    {
        let n = self.boxes@.len() as int;
        if let Some(h) = found {
            assert(intersect.ensures((p, limit0), Some(h)));
            assert(hit(p) == Some(h));
            if kept {
                assert(keep(p));
                match best0 {
                    None => {},
                    Some(b) => {
                        if h.0 <= b.t {
                            assert(hit(b.prim) is Some);
                            assert(hit(p) is Some);
                            assert(before(p));
                        }
                    },
                }
            }
        }
        assert forall|q: int|
            0 <= q < self.indices@.len() && candidate(
                n,
                hit,
                before,
                keep,
                #[trigger] self.indices@[q],
            ) implies beaten(best, hit(self.indices@[q])->Some_0.0, self.indices@[q]) || awaits(
            self.wide@,
            later,
            q,
            entered_by(tmax, hit, reach, self.indices@[q]),
        ) by {
            let i = self.indices@[q];
            let t = hit(i)->Some_0.0;
            if !beaten(best0, t, i) {
                lemma_admitted(
                    self.boxes@,
                    enter,
                    intersect,
                    accept,
                    slack,
                    tmax,
                    hit,
                    before,
                    keep,
                    reach,
                    best0,
                    limit0,
                    i,
                );
                assert(awaits(self.wide@, earlier, q, entered_by(tmax, hit, reach, i)));
                if i == p {
                    assert(found is Some);
                }
            }
        }
    }

    /// The nearest hit before `tmax`, with every hit kept.
    pub fn hit<
        E: Fn(Aabb, u64) -> Option<u64>,
        I: Fn(usize, u64) -> Option<(u64, u64, u64)>,
        K: Fn(u64) -> u64,
    >(&self, enter: &E, intersect: &I, slack: &K, tmax: u64) -> (r: Option<RayHit>)
        requires
            self.wf(),
            forall|b: Aabb, t: u64| #[trigger] enter.requires((b, t)),
            forall|i: usize, t: u64|
                i < self.boxes@.len() ==> #[trigger] intersect.requires((i, t)),
            forall|t: u64| #[trigger] slack.requires((t,)),
        ensures
            self.boxes@.len() == 0 ==> r is None,
            r matches Some(h) ==> h.prim < self.boxes@.len() && exists|t: u64| #[trigger]
                intersect.ensures((h.prim, t), Some((h.t, h.u, h.v))),
            forall|
                hit: spec_fn(usize) -> Option<(u64, u64, u64)>,
                before: spec_fn(usize) -> bool,
                reach: spec_fn(u64) -> u64,
            | #[trigger]
                consistent_hits(
                    self.boxes@,
                    *enter,
                    *intersect,
                    *slack,
                    tmax,
                    hit,
                    before,
                    reach,
                ) ==> is_winner(
                    self.boxes@.len() as int,
                    hit,
                    before,
                    every_hit(),
                    r,
                ),
    {
        let accept = |i: usize, u: u64, v: u64| -> (b: bool)
            ensures
                b,
            { true };
        let r = self.hit_filtered(enter, intersect, &accept, slack, tmax);
        proof {
            let all = every_hit();
            assert forall|
                hit: spec_fn(usize) -> Option<(u64, u64, u64)>,
                before: spec_fn(usize) -> bool,
                reach: spec_fn(u64) -> u64,
            | #[trigger]
                consistent_hits(
                    self.boxes@,
                    *enter,
                    *intersect,
                    *slack,
                    tmax,
                    hit,
                    before,
                    reach,
                ) implies is_winner(
                    self.boxes@.len() as int,
                    hit,
                    before,
                    all,
                    r,
                ) by {
                assert(consistent(
                    self.boxes@,
                    *enter,
                    *intersect,
                    accept,
                    *slack,
                    tmax,
                    hit,
                    before,
                    all,
                    reach,
                ));
            }
        }
        r
    }

    /// Some hit before `tmax` that `accept` keeps, not always the nearest.
    pub fn any_hit_filtered<
        E: Fn(Aabb, u64) -> Option<u64>,
        I: Fn(usize, u64) -> Option<(u64, u64, u64)>,
        F: Fn(usize, u64, u64) -> bool,
    >(&self, enter: &E, intersect: &I, accept: &F, tmax: u64) -> (r: Option<RayHit>)
        requires
            self.wf(),
            forall|b: Aabb, t: u64| #[trigger] enter.requires((b, t)),
            forall|i: usize, t: u64|
                i < self.boxes@.len() ==> #[trigger] intersect.requires((i, t)),
            forall|i: usize, u: u64, v: u64|
                i < self.boxes@.len() ==> #[trigger] accept.requires((i, u, v)),
        ensures
            self.boxes@.len() == 0 ==> r is None,
            r matches Some(h) ==> h.prim < self.boxes@.len() && accept.ensures(
                (h.prim, h.u, h.v),
                true,
            ) && intersect.ensures((h.prim, tmax), Some((h.t, h.u, h.v))),
            forall|
                hit: spec_fn(usize) -> Option<(u64, u64, u64)>,
                before: spec_fn(usize) -> bool,
                keep: spec_fn(usize) -> bool,
            | #[trigger]
                consistent_any(
                    self.boxes@,
                    *enter,
                    *intersect,
                    *accept,
                    tmax,
                    hit,
                    before,
                    keep,
                ) ==> (r is Some <==> exists|i: usize| #[trigger]
                    candidate(
                        self.boxes@.len() as int,
                        hit,
                        before,
                        keep,
                        i,
                    )),
    {
        let mut walk = self.start_walk(enter, tmax);
        proof {
            assert forall|
                hit: spec_fn(usize) -> Option<(u64, u64, u64)>,
                before: spec_fn(usize) -> bool,
                keep: spec_fn(usize) -> bool,
                q: int,
            |
                #[trigger] consistent_any(
                    self.boxes@,
                    *enter,
                    *intersect,
                    *accept,
                    tmax,
                    hit,
                    before,
                    keep,
                ) && 0 <= q < self.indices@.len() && candidate(
                    self.boxes@.len() as int,
                    hit,
                    before,
                    keep,
                    #[trigger] self.indices@[q],
                ) implies awaits(self.wide@, walk, q, tmax) by {
                lemma_admitted_any(
                    self.boxes@,
                    *enter,
                    *intersect,
                    *accept,
                    tmax,
                    hit,
                    before,
                    keep,
                    self.indices@[q],
                );
            }
        }
        loop
            invariant
                self.wf(),
                walk.wf(self),
                forall|b: Aabb, t: u64| #[trigger] enter.requires((b, t)),
                forall|i: usize, t: u64|
                    i < self.boxes@.len() ==> #[trigger] intersect.requires((i, t)),
                forall|i: usize, u: u64, v: u64|
                    i < self.boxes@.len() ==> #[trigger] accept.requires((i, u, v)),
                forall|
                    hit: spec_fn(usize) -> Option<(u64, u64, u64)>,
                    before: spec_fn(usize) -> bool,
                    keep: spec_fn(usize) -> bool,
                    q: int,
                |
                    #[trigger] consistent_any(
                        self.boxes@,
                        *enter,
                        *intersect,
                        *accept,
                        tmax,
                        hit,
                        before,
                        keep,
                    ) && 0 <= q < self.indices@.len() && candidate(
                        self.boxes@.len() as int,
                        hit,
                        before,
                        keep,
                        #[trigger] self.indices@[q],
                    ) ==> awaits(self.wide@, walk, q, tmax),
            decreases walk.steps(self),
        {
            let ghost walk0 = walk;
            let next: Option<usize> = self.next_in_walk(&mut walk, enter, tmax);
            let p: usize = match next {
                None => {
                    proof {
                        assert forall|
                            hit: spec_fn(usize) -> Option<(u64, u64, u64)>,
                            before: spec_fn(usize) -> bool,
                            keep: spec_fn(usize) -> bool,
                        | #[trigger]
                            consistent_any(
                                self.boxes@,
                                *enter,
                                *intersect,
                                *accept,
                                tmax,
                                hit,
                                before,
                                keep,
                            ) implies !(exists|i: usize| #[trigger]
                            candidate(
                                self.boxes@.len() as int,
                                hit,
                                before,
                                keep,
                                i,
                            )) by {
                            if exists|i: usize| #[trigger]
                                candidate(
                                    self.boxes@.len() as int,
                                    hit,
                                    before,
                                    keep,
                                    i,
                                ) {
                                let i = choose|i: usize| #[trigger]
                                    candidate(
                                        self.boxes@.len() as int,
                                        hit,
                                        before,
                                        keep,
                                        i,
                                    );
                                self.lemma_position_of(i);
                                let q = choose|q: int|
                                    0 <= q < self.indices@.len() && #[trigger] self.indices@[q]
                                        == i;
                                lemma_admitted_any(
                                    self.boxes@,
                                    *enter,
                                    *intersect,
                                    *accept,
                                    tmax,
                                    hit,
                                    before,
                                    keep,
                                    i,
                                );
                                assert(awaits(self.wide@, walk0, q, tmax));
                                assert(awaits(self.wide@, walk, q, tmax));
                            }
                        }
                    }
                    return None;
                },
                Some(p) => p,
            };
            let found: Option<(u64, u64, u64)> = intersect(p, tmax);
            if let Some((t, u, v)) = found {
                if accept(p, u, v) {
                    let r = RayHit { prim: p, t, u, v };
                    proof {
                        assert forall|
                            hit: spec_fn(usize) -> Option<(u64, u64, u64)>,
                            before: spec_fn(usize) -> bool,
                            keep: spec_fn(usize) -> bool,
                        | #[trigger]
                            consistent_any(
                                self.boxes@,
                                *enter,
                                *intersect,
                                *accept,
                                tmax,
                                hit,
                                before,
                                keep,
                            ) implies candidate(
                                self.boxes@.len() as int,
                                hit,
                                before,
                                keep,
                                p,
                            ) by {
                            assert(hit(p) == Some((t, u, v)));
                        }
                    }
                    return Some(r);
                }
            }
            proof {
                assert forall|
                    hit: spec_fn(usize) -> Option<(u64, u64, u64)>,
                    before: spec_fn(usize) -> bool,
                    keep: spec_fn(usize) -> bool,
                    q: int,
                |
                    #[trigger] consistent_any(
                        self.boxes@,
                        *enter,
                        *intersect,
                        *accept,
                        tmax,
                        hit,
                        before,
                        keep,
                    ) && 0 <= q < self.indices@.len() && candidate(
                        self.boxes@.len() as int,
                        hit,
                        before,
                        keep,
                        #[trigger] self.indices@[q],
                    ) implies awaits(
                    self.wide@,
                    walk,
                    q,
                    tmax,
                ) by {
                    let i = self.indices@[q];
                    lemma_admitted_any(
                        self.boxes@,
                        *enter,
                        *intersect,
                        *accept,
                        tmax,
                        hit,
                        before,
                        keep,
                        i,
                    );
                    assert(awaits(self.wide@, walk0, q, tmax));
                    if i == p {
                        assert(found == hit(p));
                        assert(false);
                    }
                }
            }
        }
    }
}

proof fn lemma_admitted_any<
    E: Fn(Aabb, u64) -> Option<u64>,
    I: Fn(usize, u64) -> Option<(u64, u64, u64)>,
    F: Fn(usize, u64, u64) -> bool,
>(
    boxes: Seq<Aabb>,
    enter: E,
    intersect: I,
    accept: F,
    tmax: u64,
    hit: spec_fn(usize) -> Option<(u64, u64, u64)>,
    before: spec_fn(usize) -> bool,
    keep: spec_fn(usize) -> bool,
    i: usize,
)
    requires
        consistent_any(
            boxes,
            enter,
            intersect,
            accept,
            tmax,
            hit,
            before,
            keep,
        ),
        candidate(boxes.len() as int, hit, before, keep, i),
    ensures
        admitted(enter, boxes, i, tmax, tmax),
        !intersect.ensures((i, tmax), None),
{
    assert forall|b: Aabb, r: Option<u64>|
        b.holds(boxes[i as int]) && inside(boxes, b) && #[trigger] enter.ensures(
            (b, tmax),
            r,
        ) implies (r matches Some(t0) && t0 <= tmax) by {
        assert(hit(i) is Some);
    }
}

} // verus!
