//! Trees of boxes: boxes are tight, splits are the cheapest, and the nearest hit wins.

use crate::bvh::construct::{layout, Tree};
use crate::bvh::hits::{candidate, is_winner, RayHit};
use crate::bvh::keys::{Aabb, Point};
use crate::bvh::order::{before_by, stable_order};
use crate::bvh::split::{
    centroid_hull, cheapest, coordinates, hull, reordered, side, split, split_by_cost, Metric,
};
use crate::bvh::wide::{first_children, heaviest, opened};
use vstd::prelude::*;

verus! {

/// Two boxes are joined to the least box that holds both.
pub proof fn joined_boxes_are_tight(a: Aabb, b: Aabb, c: Aabb)
    ensures
        a.joined(b).holds(a),
        a.joined(b).holds(b),
        c.holds(a) && c.holds(b) ==> c.holds(a.joined(b)),
        a.joined(b) == b.joined(a),
{
}

/// A box that holds others reaches no less far on any axis and on either side.
pub proof fn held_boxes_are_inside(a: Aabb, b: Aabb, axis: usize)
    requires
        a.holds(b),
    ensures
        a.min.on(axis) <= b.min.on(axis),
        b.max.on(axis) <= a.max.on(axis),
        a.holds(a),
        b.holds(a) ==> a == b,
{
}

/// The axes are told apart.
pub proof fn axes_are_numbered(p: Point)
    ensures
        p.on(0) == p.x,
        p.on(1) == p.y,
        p.on(2) == p.z,
{
}

/// Whether a box lies between the infinities.
pub open spec fn reachable(b: Aabb) -> bool {
    b.holds(Aabb::nothing())
}

/// The box of some items is the least that holds them all.
pub proof fn hulls_are_tight(bounds: Seq<Aabb>, items: Seq<usize>, c: Aabb)
    requires
        items.len() > 0,
        forall|i: int| 0 <= i < items.len() ==> c.holds(#[trigger] bounds[items[i] as int]),
        forall|i: int| 0 <= i < items.len() ==> reachable(#[trigger] bounds[items[i] as int]),
    ensures
        c.holds(hull(bounds, items)),
    decreases items.len(),
{
    reveal_with_fuel(hull, 2);
    let d = items.drop_last();
    let b = bounds[items[items.len() - 1] as int];
    assert(c.holds(b) && reachable(b));
    if d.len() > 0 {
        assert forall|i: int| 0 <= i < d.len() implies c.holds(#[trigger] bounds[d[i] as int]) by {
            assert(c.holds(bounds[items[i] as int]));
        }
        assert forall|i: int| 0 <= i < d.len() implies reachable(#[trigger] bounds[d[i] as int]) by {
            assert(reachable(bounds[items[i] as int]));
        }
        hulls_are_tight(bounds, d, c);
    }
}

/// The cheapest place is taken, and the first of those that are equally cheap; a place without a
/// price is never taken.
pub proof fn the_cheapest_split_is_taken(costs: Seq<Option<u64>>, n: int)
    requires
        0 <= n <= costs.len(),
    ensures
        cheapest(costs, n) is None <==> (forall|j: int| 0 <= j < n ==> (#[trigger] costs[j]) is None),
        cheapest(costs, n) matches Some((c, k)) ==> {
            &&& 1 <= k <= n
            &&& costs[k - 1] == Some(c)
            &&& forall|j: int|
                0 <= j < n ==> ((#[trigger] costs[j]) matches Some(d) ==> c <= d && (j < k - 1
                    ==> c < d))
        },
    decreases n,
{
    if n > 0 {
        the_cheapest_split_is_taken(costs, n - 1);
        if cheapest(costs, n) is None {
            assert(costs[n - 1] is None);
        }
    }
}

/// Dividing items at a bin puts each on the side of its bin, and keeps their order on each side.
pub proof fn sides_are_by_bin(items: Seq<usize>, bins: Seq<u64>, k: int, x: usize)
    requires
        bins.len() == items.len(),
    ensures
        side(items, bins, k, true).len() + side(items, bins, k, false).len() == items.len(),
        side(items, bins, k, true).contains(x) <==> (exists|i: int|
            0 <= i < items.len() && #[trigger] items[i] == x && bins[i] < k),
        side(items, bins, k, false).contains(x) <==> (exists|i: int|
            0 <= i < items.len() && #[trigger] items[i] == x && bins[i] >= k),
    decreases items.len(),
{
    let (l, r) = (side(items, bins, k, true), side(items, bins, k, false));
    if items.len() > 0 {
        let d = items.drop_last();
        let e = bins.drop_last();
        let n = items.len() - 1;
        lemma_side_prefix(d, bins, e, k, true);
        lemma_side_prefix(d, bins, e, k, false);
        sides_are_by_bin(d, e, k, x);
        let (dl, dr) = (side(d, e, k, true), side(d, e, k, false));
        lemma_push_contains(dl, items[n], x);
        lemma_push_contains(dr, items[n], x);
        assert(forall|i: int| 0 <= i < d.len() ==> d[i] == #[trigger] items[i] && e[i] == bins[i]);
        if exists|i: int| 0 <= i < d.len() && #[trigger] d[i] == x && e[i] < k {
            let i = choose|i: int| 0 <= i < d.len() && #[trigger] d[i] == x && e[i] < k;
            assert(items[i] == x && bins[i] < k);
        }
        if exists|i: int| 0 <= i < d.len() && #[trigger] d[i] == x && e[i] >= k {
            let i = choose|i: int| 0 <= i < d.len() && #[trigger] d[i] == x && e[i] >= k;
            assert(items[i] == x && bins[i] >= k);
        }
        if exists|i: int| 0 <= i < items.len() && #[trigger] items[i] == x && bins[i] < k {
            let i = choose|i: int| 0 <= i < items.len() && #[trigger] items[i] == x && bins[i] < k;
            if i < n {
                assert(d[i] == x && e[i] < k);
            }
        }
        if exists|i: int| 0 <= i < items.len() && #[trigger] items[i] == x && bins[i] >= k {
            let i = choose|i: int| 0 <= i < items.len() && #[trigger] items[i] == x && bins[i] >= k;
            if i < n {
                assert(d[i] == x && e[i] >= k);
            }
        }
    }
}

proof fn lemma_push_contains(s: Seq<usize>, y: usize, x: usize)
    ensures
        s.push(y).contains(x) <==> s.contains(x) || x == y,
{
    if s.contains(x) {
        let i = choose|i: int| 0 <= i < s.len() && s[i] == x;
        assert(s.push(y)[i] == x);
    }
    if x == y {
        assert(s.push(y)[s.len() as int] == x);
    }
    if s.push(y).contains(x) {
        let i = choose|i: int| 0 <= i < s.push(y).len() && s.push(y)[i] == x;
        if i < s.len() {
            assert(s[i] == x);
        }
    }
}

proof fn lemma_side_prefix(items: Seq<usize>, a: Seq<u64>, b: Seq<u64>, k: int, left: bool)
    requires
        items.len() <= a.len(),
        items.len() <= b.len(),
        forall|i: int| 0 <= i < items.len() ==> a[i] == b[i],
    ensures
        side(items, a, k, left) == side(items, b, k, left),
    decreases items.len(),
{
    if items.len() > 0 {
        lemma_side_prefix(items.drop_last(), a, b, k, left);
        assert(a[items.len() - 1] == b[items.len() - 1]);
    }
}

/// An order by keys is one of growing keys; equal keys stay in the order of their positions.
pub proof fn orders_are_by_key(keys: Seq<u64>, order: Seq<usize>, i: int, j: int)
    requires
        stable_order(keys, order),
        0 <= i < j < order.len(),
    ensures
        keys[order[i] as int] <= keys[order[j] as int],
        keys[order[i] as int] == keys[order[j] as int] ==> order[i] <= order[j],
{
    assert(before_by(keys)(order[i], order[j]));
}

/// The fork that is opened is the one with the greatest weight, and the first of those that weigh
/// the same; there is none only if there is no fork.
pub proof fn the_heaviest_fork_is_opened(trees: Seq<Tree>, weights: Seq<Option<u64>>, n: int)
    requires
        0 <= n <= trees.len(),
        weights.len() == trees.len(),
        forall|j: int| 0 <= j < n && trees[j] is Fork ==> (#[trigger] weights[j]) is Some,
    ensures
        ({
            let k = heaviest(trees, weights, n);
            &&& k < n
            &&& k < 0 <==> (forall|j: int| 0 <= j < n ==> !((#[trigger] trees[j]) is Fork))
            &&& k >= 0 ==> trees[k] is Fork && (forall|j: int|
                0 <= j < n && (#[trigger] trees[j]) is Fork ==> weights[j]->Some_0
                    <= weights[k]->Some_0 && (j < k ==> weights[j]->Some_0 < weights[k]->Some_0))
        }),
    decreases n,
{
    if n > 0 {
        the_heaviest_fork_is_opened(trees, weights, n - 1);
        let k = heaviest(trees, weights, n);
        if trees[n - 1] is Fork {
            assert(weights[n - 1] is Some);
            if heaviest(trees, weights, n - 1) >= 0 {
                assert(weights[heaviest(trees, weights, n - 1)] is Some);
            }
        }
    }
}

/// A fork that is opened is replaced by its two children, where it stood; the others stay.
pub proof fn forks_are_opened_in_place(trees: Seq<Tree>, k: int, j: int)
    requires
        0 <= k < trees.len(),
        0 <= j < trees.len(),
        trees[k] is Fork,
    ensures
        opened(trees, k).len() == trees.len() + 1,
        opened(trees, k)[k] == *(trees[k]->left),
        opened(trees, k)[k + 1] == *(trees[k]->right),
        j < k ==> opened(trees, k)[j] == trees[j],
        j > k ==> opened(trees, k)[j + 1] == trees[j],
        first_children(trees[k]) == seq![*(trees[k]->left), *(trees[k]->right)],
{
}

/// A tree is laid out with its root first, then its left and its right part; the root says where
/// each of them starts, and a leaf says which items it holds.
pub proof fn trees_are_laid_out_root_first(t: Tree, at: int)
    requires
        at >= 0,
        at + t.nodes() <= i32::MAX,
    ensures
        layout(t, at).len() == t.nodes() && t.nodes() >= 1,
        layout(t, at)[0].bbox == t.bbox(),
        t matches Tree::Leaf { start, count, .. } ==> {
            let n = layout(t, at)[0];
            n.left == -1 && n.right == -1 && (0 <= start <= u32::MAX ==> n.start == start) && (0 <= count
                <= u32::MAX ==> n.count == count)
        },
        t matches Tree::Fork { left, right, .. } ==> {
            let s = layout(t, at);
            let n = s[0];
            &&& n.left == at + 1
            &&& n.right == at + 1 + left.nodes()
            &&& n.count == 0
            &&& s.subrange(n.left - at, n.right - at) == layout(*left, n.left as int)
            &&& s.subrange(n.right - at, s.len() as int) == layout(*right, n.right as int)
        },
    decreases t,
{
    match t {
        Tree::Leaf { .. } => {},
        Tree::Fork { left, right, .. } => {
            lemma_nodes(*left);
            lemma_nodes(*right);
            trees_are_laid_out_root_first(*left, at + 1);
            trees_are_laid_out_root_first(*right, at + 1 + left.nodes());
            let s = layout(t, at);
            let n = s[0];
            assert(s.subrange(n.left - at, n.right - at) =~= layout(*left, n.left as int));
            assert(s.subrange(n.right - at, s.len() as int) =~= layout(*right, n.right as int));
        },
    }
}

proof fn lemma_nodes(t: Tree)
    ensures
        t.nodes() >= 1,
    decreases t,
{
    match t {
        Tree::Leaf { .. } => {},
        Tree::Fork { left, right, .. } => {
            lemma_nodes(*left);
            lemma_nodes(*right);
        },
    }
}

/// The winner is a hit that counts, and none that counts is nearer; of equally near ones it has the
/// least number. There is no winner exactly if nothing counts.
pub proof fn the_nearest_hit_wins(
    n: int,
    hit: spec_fn(usize) -> Option<(u64, u64, u64)>,
    before: spec_fn(usize) -> bool,
    keep: spec_fn(usize) -> bool,
    best: Option<RayHit>,
    i: usize,
)
    requires
        is_winner(n, hit, before, keep, best),
    ensures
        best matches Some(b) ==> b.prim < n && before(b.prim) && keep(b.prim) && hit(b.prim) == Some(
            (b.t, b.u, b.v),
        ),
        i < n && hit(i) is Some && before(i) && keep(i) ==> best is Some && best->Some_0.t
            <= hit(i)->Some_0.0 && (best->Some_0.t == hit(i)->Some_0.0 ==> best->Some_0.prim <= i),
{
    if i < n && hit(i) is Some && before(i) && keep(i) {
        assert(candidate(n, hit, before, keep, i));
    }
}

/// A range of fewer than sixteen items is divided in the middle, in the order of their middles along
/// an axis.
pub proof fn small_ranges_are_halved<
    A: Fn(Aabb) -> usize,
    S: Fn(u64, u64) -> bool,
    B: Fn(u64, u64, u64) -> usize,
    C: Fn(Aabb, usize, Aabb, usize) -> Option<u64>,
>(
    m: Metric<A, S, B, C>,
    bounds: Seq<Aabb>,
    centroids: Seq<Point>,
    before: Seq<usize>,
    after: Seq<usize>,
    mid: int,
)
    requires
        split(m, bounds, centroids, before, after, mid),
        before.len() < 16,
    ensures
        mid == before.len() / 2,
        exists|axis: usize| #[trigger]
            m.axis.ensures((centroid_hull(centroids, before),), axis) && reordered(
                before,
                coordinates(centroids, before, axis),
                after,
            ),
{
    let cbox = centroid_hull(centroids, before);
    let axis = choose|axis: usize| #[trigger]
        m.axis.ensures((cbox,), axis) && {
            let lo = cbox.min.on(axis);
            let hi = cbox.max.on(axis);
            let coords = coordinates(centroids, before, axis);
            ||| exists|bins: Seq<u64>, costs: Seq<Option<u64>>| #[trigger]
                split_by_cost(m, bounds, lo, hi, coords, before, bins, costs) && cheapest(
                    costs,
                    7,
                ) is Some && reordered(before, bins, after) && mid == side(
                    before,
                    bins,
                    cheapest(costs, 7)->Some_0.1,
                    true,
                ).len()
            ||| reordered(before, coords, after) && mid == before.len() / 2
        };
    assert(m.axis.ensures((cbox,), axis));
}

} // verus!
