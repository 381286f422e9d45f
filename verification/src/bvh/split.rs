//! Where a range of primitives is split in two: by the surface area heuristic over bins, or at
//! the median.

use super::keys::{Aabb, Point};
use super::order::{
    before_by, lemma_stable_order, sort_positions, span, stable_order, stable_order_is_unique,
};
use vstd::prelude::*;

verus! {

/// How many bins the surface area heuristic sorts centroids into.
pub const SAH_BINS: usize = 8;

/// The arithmetic on coordinates that a split decision needs, over order keys.
///
/// - `axis`: the axis on which a box of centroids is longest (0 is x, 1 is y, anything else z);
/// - `spread`: whether the interval between two coordinates is long enough to be cut into bins;
/// - `bin`: the bin of a coordinate in the interval from the first to the second argument;
/// - `cost`: the cost of a split into two boxes with so many primitives each, as a key that
///   orders costs, if it is finite.
pub struct Metric<A, S, B, C> {
    pub axis: A,
    pub spread: S,
    pub bin: B,
    pub cost: C,
}

/// Whether the functions of a metric may be called on every argument.
pub open spec fn total<
    A: Fn(Aabb) -> usize,
    S: Fn(u64, u64) -> bool,
    B: Fn(u64, u64, u64) -> usize,
    C: Fn(Aabb, usize, Aabb, usize) -> Option<u64>,
>(m: Metric<A, S, B, C>) -> bool {
    &&& forall|c: Aabb| #[trigger] m.axis.requires((c,))
    &&& forall|lo: u64, hi: u64| #[trigger] m.spread.requires((lo, hi))
    &&& forall|lo: u64, hi: u64, c: u64| #[trigger] m.bin.requires((lo, hi, c))
    &&& forall|a: Aabb, n: usize, b: Aabb, k: usize| #[trigger] m.cost.requires((a, n, b, k))
}

/// Whether the functions of a metric always answer the same to the same arguments.
pub open spec fn functional<
    A: Fn(Aabb) -> usize,
    S: Fn(u64, u64) -> bool,
    B: Fn(u64, u64, u64) -> usize,
    C: Fn(Aabb, usize, Aabb, usize) -> Option<u64>,
>(m: Metric<A, S, B, C>) -> bool {
    &&& forall|c: (Aabb,), r: usize, s: usize|
        #[trigger] m.axis.ensures(c, r) && #[trigger] m.axis.ensures(c, s) ==> r == s
    &&& forall|c: (u64, u64), r: bool, s: bool|
        #[trigger] m.spread.ensures(c, r) && #[trigger] m.spread.ensures(c, s) ==> r == s
    &&& forall|c: (u64, u64, u64), r: usize, s: usize|
        #[trigger] m.bin.ensures(c, r) && #[trigger] m.bin.ensures(c, s) ==> r == s
    &&& forall|c: (Aabb, usize, Aabb, usize), r: Option<u64>, s: Option<u64>|
        #[trigger] m.cost.ensures(c, r) && #[trigger] m.cost.ensures(c, s) ==> r == s
}

/// The smallest box around the boxes of `items`.
pub open spec fn hull(bounds: Seq<Aabb>, items: Seq<usize>) -> Aabb
    decreases items.len(),
{
    if items.len() == 0 {
        Aabb::nothing()
    } else {
        hull(bounds, items.drop_last()).joined(bounds[items.last() as int])
    }
}

/// The smallest box around the centroids of `items`.
pub open spec fn centroid_hull(centroids: Seq<Point>, items: Seq<usize>) -> Aabb
    decreases items.len(),
{
    if items.len() == 0 {
        Aabb::nothing()
    } else {
        centroid_hull(centroids, items.drop_last()).grown(centroids[items.last() as int])
    }
}

/// Whether every item has a box and a centroid.
pub open spec fn known(bounds: Seq<Aabb>, centroids: Seq<Point>, items: Seq<usize>) -> bool {
    &&& bounds.len() == centroids.len()
    &&& forall|i: int| 0 <= i < items.len() ==> #[trigger] items[i] < bounds.len()
}

/// The items of `items` whose bin lies below `k` (`left`), or does not.
pub open spec fn side(items: Seq<usize>, bins: Seq<u64>, k: int, left: bool) -> Seq<usize>
    decreases items.len(),
{
    if items.len() == 0 {
        Seq::empty()
    } else {
        let rest = side(items.drop_last(), bins, k, left);
        if (bins[items.len() - 1] < k) == left {
            rest.push(items.last())
        } else {
            rest
        }
    }
}

/// The coordinates of `items` on an axis.
pub open spec fn coordinates(centroids: Seq<Point>, items: Seq<usize>, axis: usize) -> Seq<u64> {
    Seq::new(items.len(), |i: int| centroids[items[i] as int].on(axis))
}

/// Whether `b` is the bin of the coordinate `c`: the last bin for anything beyond it.
pub open spec fn in_bin<B: Fn(u64, u64, u64) -> usize>(bin: B, lo: u64, hi: u64, c: u64, b: u64) -> bool {
    exists|raw: usize| #[trigger]
        bin.ensures((lo, hi, c), raw) && b == (if raw < SAH_BINS {
            raw as u64
        } else {
            (SAH_BINS - 1) as u64
        })
}

/// Whether `bins` holds the bin of each coordinate.
pub open spec fn binned<B: Fn(u64, u64, u64) -> usize>(
    bin: B,
    lo: u64,
    hi: u64,
    coords: Seq<u64>,
    bins: Seq<u64>,
) -> bool {
    &&& bins.len() == coords.len()
    &&& forall|i: int| 0 <= i < bins.len() ==> in_bin(bin, lo, hi, coords[i], #[trigger] bins[i])
}

/// The cost of the split before bin `k`, if both sides hold something and the cost is finite.
pub open spec fn costed<C: Fn(Aabb, usize, Aabb, usize) -> Option<u64>>(
    cost: C,
    bounds: Seq<Aabb>,
    items: Seq<usize>,
    bins: Seq<u64>,
    k: int,
    c: Option<u64>,
) -> bool {
    let l = side(items, bins, k, true);
    let r = side(items, bins, k, false);
    if l.len() == 0 || r.len() == 0 {
        c is None
    } else {
        cost.ensures((hull(bounds, l), l.len() as usize, hull(bounds, r), r.len() as usize), c)
    }
}

/// Whether `costs` holds the cost of every split between two bins.
pub open spec fn all_costed<C: Fn(Aabb, usize, Aabb, usize) -> Option<u64>>(
    cost: C,
    bounds: Seq<Aabb>,
    items: Seq<usize>,
    bins: Seq<u64>,
    costs: Seq<Option<u64>>,
) -> bool {
    &&& costs.len() == SAH_BINS - 1
    &&& forall|k: int|
        1 <= k < SAH_BINS ==> costed(cost, bounds, items, bins, k, #[trigger] costs[k - 1])
}

/// The cheapest of the first `n` splits and its cost, the first of equals.
pub open spec fn cheapest(costs: Seq<Option<u64>>, n: int) -> Option<(u64, int)>
    decreases n,
{
    if n <= 0 {
        None
    } else {
        let before = cheapest(costs, n - 1);
        match costs[n - 1] {
            None => before,
            Some(c) => match before {
                None => Some((c, n)),
                Some((b, _)) => if c < b {
                    Some((c, n))
                } else {
                    before
                },
            },
        }
    }
}

/// Whether `after` is `before` sorted by `keys`, equals in their order.
pub open spec fn reordered(before: Seq<usize>, keys: Seq<u64>, after: Seq<usize>) -> bool {
    exists|order: Seq<usize>|
        #[trigger] stable_order(keys, order) && after == Seq::new(
            before.len(),
            |i: int| before[order[i] as int],
        )
}

/// The split by the surface area heuristic: the items sorted by bin, cut before the bin of the
/// cheapest split.
pub open spec fn split_by_cost<
    A: Fn(Aabb) -> usize,
    S: Fn(u64, u64) -> bool,
    B: Fn(u64, u64, u64) -> usize,
    C: Fn(Aabb, usize, Aabb, usize) -> Option<u64>,
>(
    m: Metric<A, S, B, C>,
    bounds: Seq<Aabb>,
    lo: u64,
    hi: u64,
    coords: Seq<u64>,
    before: Seq<usize>,
    bins: Seq<u64>,
    costs: Seq<Option<u64>>,
) -> bool {
    &&& before.len() >= 2 * SAH_BINS
    &&& m.spread.ensures((lo, hi), true)
    &&& binned(m.bin, lo, hi, coords, bins)
    &&& all_costed(m.cost, bounds, before, bins, costs)
}

/// Whether splitting `before` may give `after`, cut at `mid`: by cost where there are enough
/// items, their centroids spread out and some split has a finite cost, else at the median of the
/// centroids on the longest axis.
pub open spec fn split<
    A: Fn(Aabb) -> usize,
    S: Fn(u64, u64) -> bool,
    B: Fn(u64, u64, u64) -> usize,
    C: Fn(Aabb, usize, Aabb, usize) -> Option<u64>,
>(
    m: Metric<A, S, B, C>,
    bounds: Seq<Aabb>,
    centroids: Seq<Point>,
    before: Seq<usize>,
    after: Seq<usize>,
    mid: int,
) -> bool {
    let cbox = centroid_hull(centroids, before);
    exists|axis: usize| #[trigger]
        m.axis.ensures((cbox,), axis) && {
            let lo = cbox.min.on(axis);
            let hi = cbox.max.on(axis);
            let coords = coordinates(centroids, before, axis);
            ||| exists|bins: Seq<u64>, costs: Seq<Option<u64>>| #[trigger]
                split_by_cost(m, bounds, lo, hi, coords, before, bins, costs) && cheapest(
                    costs,
                    SAH_BINS - 1,
                ) is Some && reordered(before, bins, after) && mid == side(
                    before,
                    bins,
                    cheapest(costs, SAH_BINS - 1)->Some_0.1,
                    true,
                ).len()
            ||| {
                &&& reordered(before, coords, after)
                &&& mid == before.len() / 2
                &&& {
                    ||| before.len() < 2 * SAH_BINS
                    ||| m.spread.ensures((lo, hi), false)
                    ||| exists|bins: Seq<u64>, costs: Seq<Option<u64>>| #[trigger]
                        split_by_cost(m, bounds, lo, hi, coords, before, bins, costs) && cheapest(
                            costs,
                            SAH_BINS - 1,
                        ) is None
                }
            }
        }
}

/// Whether `after` holds the items of `before`, none of them twice unless it was there twice.
pub open spec fn shuffled(before: Seq<usize>, after: Seq<usize>) -> bool {
    &&& after.len() == before.len()
    &&& forall|i: int| 0 <= i < after.len() ==> before.contains(#[trigger] after[i])
    &&& before.no_duplicates() ==> after.no_duplicates()
}

proof fn lemma_reordered(before: Seq<usize>, keys: Seq<u64>, after: Seq<usize>)
    requires
        keys.len() == before.len(),
        before.len() <= usize::MAX,
        reordered(before, keys, after),
    ensures
        shuffled(before, after),
{
    let order = choose|order: Seq<usize>| #[trigger]
        stable_order(keys, order) && after == Seq::new(
            before.len(),
            |i: int| before[order[i] as int],
        );
    lemma_stable_order(keys, order);
    assert forall|i: int| 0 <= i < after.len() implies before.contains(#[trigger] after[i]) by {
        assert(after[i] == before[order[i] as int]);
    }
    if before.no_duplicates() {
        assert forall|i: int, j: int| 0 <= i < after.len() && 0 <= j < after.len() && i
            != j implies after[i] != after[j] by {
            assert(order[i] != order[j]);
            assert(after[i] == before[order[i] as int]);
            assert(after[j] == before[order[j] as int]);
        }
    }
}

proof fn lemma_reordered_unique(
    before: Seq<usize>,
    keys: Seq<u64>,
    a: Seq<usize>,
    b: Seq<usize>,
)
    requires
        reordered(before, keys, a),
        reordered(before, keys, b),
    ensures
        a == b,
{
    let p = choose|order: Seq<usize>| #[trigger]
        stable_order(keys, order) && a == Seq::new(before.len(), |i: int| before[order[i] as int]);
    let q = choose|order: Seq<usize>| #[trigger]
        stable_order(keys, order) && b == Seq::new(before.len(), |i: int| before[order[i] as int]);
    stable_order_is_unique(keys, p, q);
}

proof fn lemma_side_len(items: Seq<usize>, bins: Seq<u64>, k: int)
    ensures
        side(items, bins, k, true).len() + side(items, bins, k, false).len() == items.len(),
    decreases items.len(),
{
    if items.len() > 0 {
        lemma_side_len(items.drop_last(), bins, k);
    }
}

proof fn lemma_cheapest(costs: Seq<Option<u64>>, n: int)
    requires
        0 <= n <= costs.len(),
    ensures
        cheapest(costs, n) matches Some((c, k)) ==> 1 <= k <= n && costs[k - 1] == Some(c),
    decreases n,
{
    if n > 0 {
        lemma_cheapest(costs, n - 1);
    }
}

/// A split keeps the items and leaves something on both sides.
pub proof fn lemma_split<
    A: Fn(Aabb) -> usize,
    S: Fn(u64, u64) -> bool,
    B: Fn(u64, u64, u64) -> usize,
    C: Fn(Aabb, usize, Aabb, usize) -> Option<u64>,
>(
    m: Metric<A, S, B, C>,
    bounds: Seq<Aabb>,
    centroids: Seq<Point>,
    before: Seq<usize>,
    after: Seq<usize>,
    mid: int,
)
    requires
        2 <= before.len() <= usize::MAX,
        split(m, bounds, centroids, before, after, mid),
    ensures
        shuffled(before, after),
        0 < mid < before.len(),
{
    let cbox = centroid_hull(centroids, before);
    let axis = choose|axis: usize| #[trigger]
        m.axis.ensures((cbox,), axis) && {
            let lo = cbox.min.on(axis);
            let hi = cbox.max.on(axis);
            let coords = coordinates(centroids, before, axis);
            ||| exists|bins: Seq<u64>, costs: Seq<Option<u64>>| #[trigger]
                split_by_cost(m, bounds, lo, hi, coords, before, bins, costs) && cheapest(
                    costs,
                    SAH_BINS - 1,
                ) is Some && reordered(before, bins, after) && mid == side(
                    before,
                    bins,
                    cheapest(costs, SAH_BINS - 1)->Some_0.1,
                    true,
                ).len()
            ||| (reordered(before, coords, after) && mid == before.len() / 2)
        };
    let lo = cbox.min.on(axis);
    let hi = cbox.max.on(axis);
    let coords = coordinates(centroids, before, axis);
    if reordered(before, coords, after) && mid == before.len() / 2 {
        lemma_reordered(before, coords, after);
    } else {
        let (bins, costs) = choose|bins: Seq<u64>, costs: Seq<Option<u64>>| #[trigger]
            split_by_cost(m, bounds, lo, hi, coords, before, bins, costs) && cheapest(
                costs,
                SAH_BINS - 1,
            ) is Some && reordered(before, bins, after) && mid == side(
                before,
                bins,
                cheapest(costs, SAH_BINS - 1)->Some_0.1,
                true,
            ).len();
        lemma_reordered(before, bins, after);
        lemma_cheapest(costs, SAH_BINS - 1);
        let k = cheapest(costs, SAH_BINS - 1)->Some_0.1;
        assert(costed(m.cost, bounds, before, bins, k, costs[k - 1]));
        lemma_side_len(before, bins, k);
    }
}

proof fn lemma_binned_unique<B: Fn(u64, u64, u64) -> usize>(
    bin: B,
    lo: u64,
    hi: u64,
    coords: Seq<u64>,
    a: Seq<u64>,
    b: Seq<u64>,
)
    requires
        forall|c: (u64, u64, u64), r: usize, s: usize|
            #[trigger] bin.ensures(c, r) && #[trigger] bin.ensures(c, s) ==> r == s,
        binned(bin, lo, hi, coords, a),
        binned(bin, lo, hi, coords, b),
    ensures
        a == b,
{
    assert forall|i: int| 0 <= i < a.len() implies a[i] == b[i] by {
        assert(in_bin(bin, lo, hi, coords[i], a[i]));
        assert(in_bin(bin, lo, hi, coords[i], b[i]));
    }
    assert(a =~= b);
}

proof fn lemma_costed_unique<C: Fn(Aabb, usize, Aabb, usize) -> Option<u64>>(
    cost: C,
    bounds: Seq<Aabb>,
    items: Seq<usize>,
    bins: Seq<u64>,
    a: Seq<Option<u64>>,
    b: Seq<Option<u64>>,
)
    requires
        forall|c: (Aabb, usize, Aabb, usize), r: Option<u64>, s: Option<u64>|
            #[trigger] cost.ensures(c, r) && #[trigger] cost.ensures(c, s) ==> r == s,
        all_costed(cost, bounds, items, bins, a),
        all_costed(cost, bounds, items, bins, b),
    ensures
        a == b,
{
    assert forall|i: int| 0 <= i < a.len() implies a[i] == b[i] by {
        let k = i + 1;
        assert(costed(cost, bounds, items, bins, k, a[k - 1]));
        assert(costed(cost, bounds, items, bins, k, b[k - 1]));
    }
    assert(a =~= b);
}

/// With functions that always answer the same, there is one split.
pub proof fn split_is_unique<
    A: Fn(Aabb) -> usize,
    S: Fn(u64, u64) -> bool,
    B: Fn(u64, u64, u64) -> usize,
    C: Fn(Aabb, usize, Aabb, usize) -> Option<u64>,
>(
    m: Metric<A, S, B, C>,
    bounds: Seq<Aabb>,
    centroids: Seq<Point>,
    before: Seq<usize>,
    a: Seq<usize>,
    mid_a: int,
    b: Seq<usize>,
    mid_b: int,
)
    requires
        functional(m),
        split(m, bounds, centroids, before, a, mid_a),
        split(m, bounds, centroids, before, b, mid_b),
    ensures
        a == b,
        mid_a == mid_b,
{
    let cbox = centroid_hull(centroids, before);
    let axis = choose|axis: usize| #[trigger] m.axis.ensures((cbox,), axis);
    let lo = cbox.min.on(axis);
    let hi = cbox.max.on(axis);
    let coords = coordinates(centroids, before, axis);
    let by_cost = exists|bins: Seq<u64>, costs: Seq<Option<u64>>| #[trigger]
        split_by_cost(m, bounds, lo, hi, coords, before, bins, costs) && cheapest(
            costs,
            SAH_BINS - 1,
        ) is Some;
    assert forall|b1: Seq<u64>, c1: Seq<Option<u64>>, b2: Seq<u64>, c2: Seq<Option<u64>>|
        #[trigger] split_by_cost(m, bounds, lo, hi, coords, before, b1, c1) && #[trigger]
        split_by_cost(m, bounds, lo, hi, coords, before, b2, c2) implies b1 == b2 && c1 == c2 by {
        lemma_binned_unique(m.bin, lo, hi, coords, b1, b2);
        lemma_costed_unique(m.cost, bounds, before, b1, c1, c2);
    }
    if by_cost {
        let (bins, costs) = choose|bins: Seq<u64>, costs: Seq<Option<u64>>| #[trigger]
            split_by_cost(m, bounds, lo, hi, coords, before, bins, costs) && cheapest(
                costs,
                SAH_BINS - 1,
            ) is Some;
        lemma_reordered_unique(before, bins, a, b);
    } else {
        lemma_reordered_unique(before, coords, a, b);
    }
}

/// The boxes around the boxes and around the centroids of `items`.
pub fn bounds_for_range(bounds: &Vec<Aabb>, centroids: &Vec<Point>, items: &Vec<usize>) -> (r: (
    Aabb,
    Aabb,
))
    requires
        known(bounds@, centroids@, items@),
    ensures
        r.0 == hull(bounds@, items@),
        r.1 == centroid_hull(centroids@, items@),
{
    let mut bbox = Aabb::empty();
    let mut cbox = Aabb::empty();
    let mut i: usize = 0;
    while i < items.len()
        invariant
            i <= items@.len(),
            known(bounds@, centroids@, items@),
            bbox == hull(bounds@, items@.take(i as int)),
            cbox == centroid_hull(centroids@, items@.take(i as int)),
        decreases items@.len() - i,
    {
        bbox = bbox.union(bounds[items[i]]);
        cbox = cbox.grow(centroids[items[i]]);
        proof {
            assert(items@.take(i + 1).drop_last() =~= items@.take(i as int));
        }
        i += 1;
    }
    proof {
        assert(items@.take(i as int) =~= items@);
    }
    (bbox, cbox)
}

/// The boxes and the sizes of the two sides of the split before bin `k`.
fn sides(bounds: &Vec<Aabb>, items: &Vec<usize>, bins: &Vec<u64>, k: u64) -> (r: (
    Aabb,
    usize,
    Aabb,
    usize,
))
    requires
        bins@.len() == items@.len(),
        forall|i: int| 0 <= i < items@.len() ==> #[trigger] items@[i] < bounds@.len(),
    ensures
        r.0 == hull(bounds@, side(items@, bins@, k as int, true)),
        r.1 == side(items@, bins@, k as int, true).len(),
        r.2 == hull(bounds@, side(items@, bins@, k as int, false)),
        r.3 == side(items@, bins@, k as int, false).len(),
{
    let mut lb = Aabb::empty();
    let mut ln: usize = 0;
    let mut rb = Aabb::empty();
    let mut rn: usize = 0;
    let mut i: usize = 0;
    while i < items.len()
        invariant
            i <= items@.len(),
            bins@.len() == items@.len(),
            forall|i: int| 0 <= i < items@.len() ==> #[trigger] items@[i] < bounds@.len(),
            lb == hull(bounds@, side(items@.take(i as int), bins@, k as int, true)),
            ln == side(items@.take(i as int), bins@, k as int, true).len(),
            rb == hull(bounds@, side(items@.take(i as int), bins@, k as int, false)),
            rn == side(items@.take(i as int), bins@, k as int, false).len(),
            ln + rn == i,
        decreases items@.len() - i,
    {
        let b: Aabb = bounds[items[i]];
        proof {
            let now = items@.take(i + 1);
            assert(now.drop_last() =~= items@.take(i as int));
            let l = side(items@.take(i as int), bins@, k as int, true);
            let r = side(items@.take(i as int), bins@, k as int, false);
            assert(l.push(items@[i as int]).drop_last() =~= l);
            assert(r.push(items@[i as int]).drop_last() =~= r);
        }
        if bins[i] < k {
            lb = lb.union(b);
            ln += 1;
        } else {
            rb = rb.union(b);
            rn += 1;
        }
        i += 1;
    }
    proof {
        assert(items@.take(i as int) =~= items@);
    }
    (lb, ln, rb, rn)
}

/// The items in the stable order of `keys`.
fn reorder(items: &Vec<usize>, keys: &Vec<u64>) -> (r: Vec<usize>)
    requires
        keys@.len() == items@.len(),
    ensures
        reordered(items@, keys@, r@),
{
    let n: usize = keys.len();
    let order: Vec<usize> = sort_positions(keys);
    proof {
        assert(keys@.len() == n);
        lemma_stable_order(keys@, order@);
    }
    let mut r: Vec<usize> = Vec::new();
    let mut i: usize = 0;
    while i < order.len()
        invariant
            i <= order@.len(),
            order@.len() == items@.len(),
            forall|i: int| 0 <= i < order@.len() ==> #[trigger] order@[i] < items@.len(),
            r@.len() == i,
            forall|j: int| 0 <= j < i ==> #[trigger] r@[j] == items@[order@[j] as int],
        decreases order@.len() - i,
    {
        r.push(items[order[i]]);
        i += 1;
    }
    proof {
        assert(r@ =~= Seq::new(items@.len(), |i: int| items@[order@[i] as int]));
    }
    r
}

/// The cost of every split between two bins.
fn split_costs<C: Fn(Aabb, usize, Aabb, usize) -> Option<u64>>(
    cost: &C,
    bounds: &Vec<Aabb>,
    items: &Vec<usize>,
    bins: &Vec<u64>,
) -> (costs: Vec<Option<u64>>)
    requires
        forall|a: Aabb, n: usize, b: Aabb, k: usize| #[trigger] cost.requires((a, n, b, k)),
        bins@.len() == items@.len(),
        forall|i: int| 0 <= i < items@.len() ==> #[trigger] items@[i] < bounds@.len(),
    ensures
        all_costed(*cost, bounds@, items@, bins@, costs@),
{
    let mut costs: Vec<Option<u64>> = Vec::new();
    let mut k: u64 = 1;
    while k < SAH_BINS as u64
        invariant
            1 <= k <= SAH_BINS,
            costs@.len() == k - 1,
            forall|a: Aabb, n: usize, b: Aabb, k: usize| #[trigger] cost.requires((a, n, b, k)),
            bins@.len() == items@.len(),
            forall|i: int| 0 <= i < items@.len() ==> #[trigger] items@[i] < bounds@.len(),
            forall|j: int|
                1 <= j < k ==> costed(*cost, bounds@, items@, bins@, j, #[trigger] costs@[j - 1]),
        decreases SAH_BINS - k,
    {
        let (lb, ln, rb, rn) = sides(bounds, items, bins, k);
        let c: Option<u64> = if ln == 0 || rn == 0 {
            None
        } else {
            cost(lb, ln, rb, rn)
        };
        costs.push(c);
        assert(costed(*cost, bounds@, items@, bins@, k as int, c));
        k += 1;
    }
    costs
}

/// The cheapest split and its cost.
fn cheapest_split(costs: &Vec<Option<u64>>) -> (r: Option<u64>)
    requires
        costs@.len() == SAH_BINS - 1,
    ensures
        match cheapest(costs@, SAH_BINS - 1) {
            None => r is None,
            Some((_, k)) => r == Some(k as u64) && 1 <= k < SAH_BINS,
        },
{
    let mut best: Option<(u64, u64)> = None;
    let mut n: usize = 0;
    while n < costs.len()
        invariant
            n <= costs@.len(),
            costs@.len() == SAH_BINS - 1,
            match cheapest(costs@, n as int) {
                None => best is None,
                Some((c, k)) => best == Some((c, k as u64)) && 1 <= k <= n,
            },
        decreases costs@.len() - n,
    {
        if let Some(c) = costs[n] {
            let better: bool = match best {
                None => true,
                Some((b, _)) => c < b,
            };
            if better {
                best = Some((c, n as u64 + 1));
            }
        }
        n += 1;
    }
    match best {
        None => None,
        Some((_, k)) => Some(k),
    }
}

/// Splits a range: sorts `items` so that one side comes before the other, and says where the
/// second one starts.
pub fn choose_split<
    A: Fn(Aabb) -> usize,
    S: Fn(u64, u64) -> bool,
    B: Fn(u64, u64, u64) -> usize,
    C: Fn(Aabb, usize, Aabb, usize) -> Option<u64>,
>(
    items: &mut Vec<usize>,
    bounds: &Vec<Aabb>,
    centroids: &Vec<Point>,
    cbox: Aabb,
    m: &Metric<A, S, B, C>,
) -> (mid: usize)
    requires
        total(*m),
        known(bounds@, centroids@, old(items)@),
        cbox == centroid_hull(centroids@, old(items)@),
        2 <= old(items)@.len(),
    ensures
        split(*m, bounds@, centroids@, old(items)@, final(items)@, mid as int),
        shuffled(old(items)@, final(items)@),
        0 < mid < old(items)@.len(),
{
    let n: usize = items.len();
    let axis: usize = (m.axis)(cbox);
    let lo: u64 = cbox.min.coordinate(axis);
    let hi: u64 = cbox.max.coordinate(axis);
    let mut coords: Vec<u64> = Vec::new();
    let mut i: usize = 0;
    while i < n
        invariant
            i <= n,
            n == items@.len(),
            known(bounds@, centroids@, items@),
            coords@ == coordinates(centroids@, items@, axis).take(i as int),
        decreases n - i,
    {
        coords.push(centroids[items[i]].coordinate(axis));
        i += 1;
        assert(coords@ =~= coordinates(centroids@, items@, axis).take(i as int));
    }
    assert(coords@ =~= coordinates(centroids@, items@, axis));
    let ghost before = items@;
    let wide: bool = n >= 2 * SAH_BINS && (m.spread)(lo, hi);
    if wide {
        let mut bins: Vec<u64> = Vec::new();
        let mut i: usize = 0;
        while i < n
            invariant
                i <= n,
                n == coords@.len(),
                total(*m),
                bins@.len() == i,
                binned(m.bin, lo, hi, coords@.take(i as int), bins@),
            decreases n - i,
        {
            let raw: usize = (m.bin)(lo, hi, coords[i]);
            let b: u64 = if raw < SAH_BINS {
                raw as u64
            } else {
                (SAH_BINS - 1) as u64
            };
            let ghost so_far = bins@;
            bins.push(b);
            proof {
                assert forall|j: int| 0 <= j < bins@.len() implies in_bin(
                    m.bin,
                    lo,
                    hi,
                    coords@.take(i + 1)[j],
                    #[trigger] bins@[j],
                ) by {
                    if j < i {
                        assert(bins@[j] == so_far[j]);
                        assert(coords@.take(i + 1)[j] == coords@.take(i as int)[j]);
                    } else {
                        assert(m.bin.ensures((lo, hi, coords@.take(i + 1)[j]), raw));
                    }
                }
            }
            i += 1;
        }
        assert(coords@.take(n as int) =~= coords@);
        let costs: Vec<Option<u64>> = split_costs(&m.cost, bounds, items, &bins);
        assert(split_by_cost(*m, bounds@, lo, hi, coords@, before, bins@, costs@));
        if let Some(k) = cheapest_split(&costs) {
            let (_, mid, _, _) = sides(bounds, items, &bins, k);
            let sorted: Vec<usize> = reorder(items, &bins);
            *items = sorted;
            proof {
                assert(split(*m, bounds@, centroids@, before, items@, mid as int));
                lemma_split(*m, bounds@, centroids@, before, items@, mid as int);
            }
            return mid;
        }
    }
    let sorted: Vec<usize> = reorder(items, &coords);
    *items = sorted;
    proof {
        assert(split(*m, bounds@, centroids@, before, items@, (n / 2) as int));
        lemma_split(*m, bounds@, centroids@, before, items@, (n / 2) as int);
    }
    n / 2
}

/// The positions with a key below `k`.
spec fn low_positions(keys: Seq<u64>, k: int) -> Set<usize> {
    Set::new(|x: usize| x < keys.len() && keys[x as int] < k)
}

proof fn lemma_side_counts(items: Seq<usize>, keys: Seq<u64>, k: int)
    requires
        items.len() == keys.len(),
        keys.len() <= usize::MAX,
    ensures
        low_positions(keys, k).finite(),
        low_positions(keys, k).len() == side(items, keys, k, true).len(),
    decreases items.len(),
{
    if items.len() == 0 {
        assert(low_positions(keys, k) =~= Set::empty());
    } else {
        let rest = keys.drop_last();
        let n = rest.len() as usize;
        lemma_side_counts(items.drop_last(), rest, k);
        lemma_side_frame(items.drop_last(), keys, rest, k);
        if keys[n as int] < k {
            assert(low_positions(keys, k) =~= low_positions(rest, k).insert(n));
        } else {
            assert(low_positions(keys, k) =~= low_positions(rest, k));
        }
    }
}

proof fn lemma_side_frame(items: Seq<usize>, a: Seq<u64>, b: Seq<u64>, k: int)
    requires
        items.len() <= a.len(),
        items.len() <= b.len(),
        forall|i: int| 0 <= i < items.len() ==> a[i] == b[i],
    ensures
        side(items, a, k, true) == side(items, b, k, true),
    decreases items.len(),
{
    if items.len() > 0 {
        lemma_side_frame(items.drop_last(), a, b, k);
    }
}

/// Sorting by key puts what lies below `k` first, and there is as much of it as the side holds.
proof fn lemma_low_first(items: Seq<usize>, keys: Seq<u64>, order: Seq<usize>, k: int, i: int)
    requires
        items.len() == keys.len(),
        keys.len() <= usize::MAX,
        stable_order(keys, order),
        0 <= i < keys.len(),
    ensures
        keys[order[i] as int] < k <==> i < side(items, keys, k, true).len(),
{
    broadcast use vstd::seq_lib::group_to_multiset_ensures;

    lemma_stable_order(keys, order);
    lemma_side_counts(items, keys, k);
    let low = low_positions(keys, k);
    if keys[order[i] as int] < k {
        let head = order.take(i + 1);
        assert(head.no_duplicates());
        head.unique_seq_to_set();
        assert(head.to_set().subset_of(low)) by {
            assert forall|x: usize| head.to_set().contains(x) implies low.contains(x) by {
                let p = head.index_of(x);
                assert(head[p] == order[p]);
                if p < i {
                    assert(before_by(keys)(order[p], order[i]));
                }
            }
        }
        vstd::set_lib::lemma_len_subset(head.to_set(), low);
    } else {
        let head = order.take(i);
        assert(head.no_duplicates());
        head.unique_seq_to_set();
        assert(low.subset_of(head.to_set())) by {
            assert forall|x: usize| low.contains(x) implies head.to_set().contains(x) by {
                let all = span(0, keys.len() as int);
                assert(all[x as int] == x);
                assert(all.contains(x));
                assert(all.to_multiset().count(x) > 0);
                assert(order.contains(x));
                let p = order.index_of(x);
                if p > i {
                    assert(before_by(keys)(order[i], order[p]));
                }
                assert(head[p] == x);
            }
        }
        vstd::set_lib::lemma_len_subset(low, head.to_set());
    }
}

/// Whether a coordinate that is no smaller has a bin that is no earlier.
pub open spec fn bins_grow<B: Fn(u64, u64, u64) -> usize>(
    bin: B,
    lo: u64,
    hi: u64,
    coords: Seq<u64>,
) -> bool {
    forall|i: int, j: int, r: usize, s: usize|
        0 <= i < coords.len() && 0 <= j < coords.len() && coords[i] <= coords[j]
            && #[trigger] bin.ensures((lo, hi, coords[i]), r) && #[trigger] bin.ensures(
            (lo, hi, coords[j]),
            s,
        ) ==> r <= s
}

/// Whether nothing before `mid` lies beyond anything behind it on an axis.
pub open spec fn apart_on(centroids: Seq<Point>, after: Seq<usize>, mid: int, axis: usize) -> bool {
    forall|i: int, j: int|
        0 <= i < mid <= j < after.len() ==> centroids[#[trigger] after[i] as int].on(axis)
            <= centroids[#[trigger] after[j] as int].on(axis)
}

/// The two sides of a split are apart on the axis that was split, where bins grow with the
/// coordinate.
pub proof fn sides_are_apart<
    A: Fn(Aabb) -> usize,
    S: Fn(u64, u64) -> bool,
    B: Fn(u64, u64, u64) -> usize,
    C: Fn(Aabb, usize, Aabb, usize) -> Option<u64>,
>(
    m: Metric<A, S, B, C>,
    bounds: Seq<Aabb>,
    centroids: Seq<Point>,
    before: Seq<usize>,
    after: Seq<usize>,
    mid: int,
)
    requires
        2 <= before.len() <= usize::MAX,
        split(m, bounds, centroids, before, after, mid),
        forall|axis: usize| #[trigger]
            m.axis.ensures((centroid_hull(centroids, before),), axis) ==> bins_grow(
                m.bin,
                centroid_hull(centroids, before).min.on(axis),
                centroid_hull(centroids, before).max.on(axis),
                coordinates(centroids, before, axis),
            ),
    ensures
        exists|axis: usize| #[trigger]
            m.axis.ensures((centroid_hull(centroids, before),), axis) && apart_on(
                centroids,
                after,
                mid,
                axis,
            ),
{
    let cbox = centroid_hull(centroids, before);
    let axis = choose|axis: usize| #[trigger]
        m.axis.ensures((cbox,), axis) && {
            let lo = cbox.min.on(axis);
            let hi = cbox.max.on(axis);
            let coords = coordinates(centroids, before, axis);
            ||| exists|bins: Seq<u64>, costs: Seq<Option<u64>>| #[trigger]
                split_by_cost(m, bounds, lo, hi, coords, before, bins, costs) && cheapest(
                    costs,
                    SAH_BINS - 1,
                ) is Some && reordered(before, bins, after) && mid == side(
                    before,
                    bins,
                    cheapest(costs, SAH_BINS - 1)->Some_0.1,
                    true,
                ).len()
            ||| (reordered(before, coords, after) && mid == before.len() / 2)
        };
    let lo = cbox.min.on(axis);
    let hi = cbox.max.on(axis);
    let coords = coordinates(centroids, before, axis);
    if reordered(before, coords, after) && mid == before.len() / 2 {
        let order = choose|order: Seq<usize>| #[trigger]
            stable_order(coords, order) && after == Seq::new(
                before.len(),
                |i: int| before[order[i] as int],
            );
        lemma_stable_order(coords, order);
        assert forall|i: int, j: int| 0 <= i < mid <= j < after.len() implies centroids[
        #[trigger] after[i] as int].on(axis) <= centroids[#[trigger] after[j] as int].on(axis) by {
            assert(before_by(coords)(order[i], order[j]));
            assert(after[i] == before[order[i] as int] && after[j] == before[order[j] as int]);
        }
    } else {
        let (bins, costs) = choose|bins: Seq<u64>, costs: Seq<Option<u64>>| #[trigger]
            split_by_cost(m, bounds, lo, hi, coords, before, bins, costs) && cheapest(
                costs,
                SAH_BINS - 1,
            ) is Some && reordered(before, bins, after) && mid == side(
                before,
                bins,
                cheapest(costs, SAH_BINS - 1)->Some_0.1,
                true,
            ).len();
        let k = cheapest(costs, SAH_BINS - 1)->Some_0.1;
        let order = choose|order: Seq<usize>| #[trigger]
            stable_order(bins, order) && after == Seq::new(
                before.len(),
                |i: int| before[order[i] as int],
            );
        lemma_stable_order(bins, order);
        assert forall|i: int, j: int| 0 <= i < mid <= j < after.len() implies centroids[
        #[trigger] after[i] as int].on(axis) <= centroids[#[trigger] after[j] as int].on(axis) by {
            lemma_low_first(before, bins, order, k, i);
            lemma_low_first(before, bins, order, k, j);
            let (a, b) = (order[i] as int, order[j] as int);
            assert(bins[a] < bins[b]);
            assert(after[i] == before[a] && after[j] == before[b]);
            if coords[b] < coords[a] {
                assert(in_bin(m.bin, lo, hi, coords[a], bins[a]));
                assert(in_bin(m.bin, lo, hi, coords[b], bins[b]));
            }
        }
    }
    assert(apart_on(centroids, after, mid, axis));
}

} // verus!
