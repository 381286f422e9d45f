//! Building the binary tree over the boxes of primitives, sequentially or on several threads.
//!
//! Both ways lay out the same tree in the same order: a node, then everything below its left
//! child, then everything below its right child.

use super::keys::{Aabb, Point};
use super::split::{
    bounds_for_range, choose_split, functional, hull, known, lemma_split, shuffled, split,
    split_is_unique, total, Metric,
};
use vstd::prelude::*;

verus! {

/// The most primitives that a leaf holds.
pub const LEAF_SIZE: usize = 4;

/// Ranges with fewer primitives than this are built on one thread.
pub const PARALLEL_MIN_TRIS: usize = 50_000;

/// The most primitives that node numbers can address.
pub const MAX_PRIMITIVES: usize = 0x4000_0000;

/// A node of the binary tree, which is kept in one array.
///
/// An inner node names its children and has a `count` of zero. A leaf has -1 for both children,
/// and `start` and `count` say which positions of the index array it holds.
#[derive(Clone, Copy, Debug, PartialEq, Eq, Structural)]
pub struct BvhNode {
    pub bbox: Aabb,
    pub left: i32,
    pub right: i32,
    pub start: u32,
    pub count: u32,
}

/// The shape of a tree.
pub enum Tree {
    Leaf { bbox: Aabb, start: int, count: int },
    Fork { bbox: Aabb, left: Box<Tree>, right: Box<Tree> },
}

impl Tree {
    /// How many nodes the tree has.
    pub open spec fn nodes(self) -> int
        decreases self,
    {
        match self {
            Tree::Leaf { .. } => 1,
            Tree::Fork { left, right, .. } => 1 + left.nodes() + right.nodes(),
        }
    }

    /// How many positions the tree holds.
    pub open spec fn size(self) -> int
        decreases self,
    {
        match self {
            Tree::Leaf { count, .. } => count,
            Tree::Fork { left, right, .. } => left.size() + right.size(),
        }
    }

    /// The box of the root.
    pub open spec fn bbox(self) -> Aabb {
        match self {
            Tree::Leaf { bbox, .. } => bbox,
            Tree::Fork { bbox, .. } => bbox,
        }
    }

    /// Whether the leaves hold the positions from `start` on, in order and without a gap, each
    /// leaf between one and [`LEAF_SIZE`] of them.
    pub open spec fn tiles(self, start: int) -> bool
        decreases self,
    {
        match self {
            Tree::Leaf { start: s, count, .. } => s == start && 1 <= count <= LEAF_SIZE,
            Tree::Fork { left, right, .. } => left.tiles(start) && right.tiles(
                start + left.size(),
            ),
        }
    }

    /// Whether every node has the box around the primitives that it holds.
    pub open spec fn bounded(self, bounds: Seq<Aabb>, items: Seq<usize>) -> bool
        decreases self,
    {
        &&& self.bbox() == hull(bounds, items)
        &&& match self {
            Tree::Leaf { .. } => true,
            Tree::Fork { left, right, .. } => {
                &&& 0 <= left.size() <= items.len()
                &&& left.bounded(bounds, items.take(left.size()))
                &&& right.bounded(bounds, items.skip(left.size()))
            },
        }
    }
}

/// The array of a tree whose root gets number `at`.
pub open spec fn layout(t: Tree, at: int) -> Seq<BvhNode>
    decreases t,
{
    match t {
        Tree::Leaf { bbox, start, count } => seq![
            BvhNode { bbox, left: -1i32, right: -1i32, start: start as u32, count: count as u32 },
        ],
        Tree::Fork { bbox, left, right } => seq![
            BvhNode {
                bbox,
                left: (at + 1) as i32,
                right: (at + 1 + left.nodes()) as i32,
                start: 0,
                count: 0,
            },
        ] + layout(*left, at + 1) + layout(*right, at + 1 + left.nodes()),
    }
}

/// Whether building `before`, whose first position is `base`, may give the order `after` and the
/// tree `t`: a leaf for few primitives, else a split and both sides built.
pub open spec fn built<
    A: Fn(Aabb) -> usize,
    S: Fn(u64, u64) -> bool,
    B: Fn(u64, u64, u64) -> usize,
    C: Fn(Aabb, usize, Aabb, usize) -> Option<u64>,
>(
    m: Metric<A, S, B, C>,
    bounds: Seq<Aabb>,
    centroids: Seq<Point>,
    before: Seq<usize>,
    base: int,
    after: Seq<usize>,
    t: Tree,
) -> bool
    decreases before.len(),
{
    if before.len() <= LEAF_SIZE {
        &&& after == before
        &&& t == Tree::Leaf { bbox: hull(bounds, before), start: base, count: before.len() as int }
    } else {
        exists|order: Seq<usize>, mid: int| #[trigger]
            split(m, bounds, centroids, before, order, mid) && 0 < mid < before.len()
                && order.len() == before.len() && after.len() == before.len() && match t {
                Tree::Leaf { .. } => false,
                Tree::Fork { bbox, left, right } => {
                    &&& bbox == hull(bounds, before)
                    &&& built(m, bounds, centroids, order.take(mid), base, after.take(mid), *left)
                    &&& built(
                        m,
                        bounds,
                        centroids,
                        order.skip(mid),
                        base + mid,
                        after.skip(mid),
                        *right,
                    )
                },
            }
    }
}

/// With functions that always answer the same, there is one tree.
pub proof fn built_is_unique<
    A: Fn(Aabb) -> usize,
    S: Fn(u64, u64) -> bool,
    B: Fn(u64, u64, u64) -> usize,
    C: Fn(Aabb, usize, Aabb, usize) -> Option<u64>,
>(
    m: Metric<A, S, B, C>,
    bounds: Seq<Aabb>,
    centroids: Seq<Point>,
    before: Seq<usize>,
    base: int,
    after1: Seq<usize>,
    t1: Tree,
    after2: Seq<usize>,
    t2: Tree,
)
    requires
        functional(m),
        built(m, bounds, centroids, before, base, after1, t1),
        built(m, bounds, centroids, before, base, after2, t2),
    ensures
        after1 == after2,
        t1 == t2,
    decreases before.len(),
{
    if before.len() > LEAF_SIZE {
        let (o1, m1) = choose|order: Seq<usize>, mid: int| #[trigger]
            split(m, bounds, centroids, before, order, mid) && 0 < mid < before.len()
                && order.len() == before.len() && after1.len() == before.len() && match t1 {
                Tree::Leaf { .. } => false,
                Tree::Fork { bbox, left, right } => {
                    &&& bbox == hull(bounds, before)
                    &&& built(m, bounds, centroids, order.take(mid), base, after1.take(mid), *left)
                    &&& built(
                        m,
                        bounds,
                        centroids,
                        order.skip(mid),
                        base + mid,
                        after1.skip(mid),
                        *right,
                    )
                },
            };
        let (o2, m2) = choose|order: Seq<usize>, mid: int| #[trigger]
            split(m, bounds, centroids, before, order, mid) && 0 < mid < before.len()
                && order.len() == before.len() && after2.len() == before.len() && match t2 {
                Tree::Leaf { .. } => false,
                Tree::Fork { bbox, left, right } => {
                    &&& bbox == hull(bounds, before)
                    &&& built(m, bounds, centroids, order.take(mid), base, after2.take(mid), *left)
                    &&& built(
                        m,
                        bounds,
                        centroids,
                        order.skip(mid),
                        base + mid,
                        after2.skip(mid),
                        *right,
                    )
                },
            };
        split_is_unique(m, bounds, centroids, before, o1, m1, o2, m2);
        match (t1, t2) {
            (
                Tree::Fork { bbox: b1, left: l1, right: r1 },
                Tree::Fork { bbox: b2, left: l2, right: r2 },
            ) => {
                built_is_unique(
                    m,
                    bounds,
                    centroids,
                    o1.take(m1),
                    base,
                    after1.take(m1),
                    *l1,
                    after2.take(m1),
                    *l2,
                );
                built_is_unique(
                    m,
                    bounds,
                    centroids,
                    o1.skip(m1),
                    base + m1,
                    after1.skip(m1),
                    *r1,
                    after2.skip(m1),
                    *r2,
                );
                assert(after1 =~= after1.take(m1) + after1.skip(m1));
                assert(after2 =~= after2.take(m1) + after2.skip(m1));
            },
            _ => {},
        }
    }
}

pub proof fn lemma_hull_of_shuffle(bounds: Seq<Aabb>, a: Seq<usize>, b: Seq<usize>)
    requires
        shuffled(a, b),
        a.no_duplicates(),
    ensures
        hull(bounds, a) == hull(bounds, b),
    decreases a.len(),
{
    if a.len() > 0 {
        let x = a.last();
        let s = a.drop_last();
        assert(b.contains(x)) by {
            lemma_shuffle_back(a, b);
        }
        let k = choose|k: int| 0 <= k < b.len() && b[k] == x;
        let rest = b.take(k) + b.skip(k + 1);
        assert(shuffled(s, rest)) by {
            assert forall|i: int| 0 <= i < rest.len() implies s.contains(#[trigger] rest[i]) by {
                let j = if i < k {
                    i
                } else {
                    i + 1
                };
                assert(rest[i] == b[j]);
                assert(a.contains(b[j]));
                let p = choose|p: int| 0 <= p < a.len() && a[p] == b[j];
                assert(b[j] != x);
                assert(s[p] == b[j]);
            }
        }
        lemma_hull_of_shuffle(bounds, s, rest);
        lemma_hull_insert(bounds, b.take(k), x, b.skip(k + 1));
        assert(b =~= b.take(k) + seq![x] + b.skip(k + 1));
    } else {
        assert(a =~= b);
    }
}

/// Shuffling works both ways: what was there is still there.
pub proof fn lemma_shuffle_back(a: Seq<usize>, b: Seq<usize>)
    requires
        shuffled(a, b),
        a.no_duplicates(),
    ensures
        forall|i: int| 0 <= i < a.len() ==> b.contains(#[trigger] a[i]),
{
    a.unique_seq_to_set();
    b.unique_seq_to_set();
    assert(b.to_set().subset_of(a.to_set())) by {
        assert forall|x: usize| b.to_set().contains(x) implies a.to_set().contains(x) by {
            let i = choose|i: int| 0 <= i < b.len() && b[i] == x;
            assert(a.contains(b[i]));
        }
    }
    vstd::set_lib::lemma_subset_equality(b.to_set(), a.to_set());
    assert forall|i: int| 0 <= i < a.len() implies b.contains(#[trigger] a[i]) by {
        assert(a.to_set().contains(a[i]));
        assert(b.to_set().contains(a[i]));
    }
}

proof fn lemma_hull_insert(bounds: Seq<Aabb>, p: Seq<usize>, x: usize, q: Seq<usize>)
    ensures
        hull(bounds, p + seq![x] + q) == hull(bounds, p + q).joined(bounds[x as int]),
    decreases q.len(),
{
    if q.len() == 0 {
        assert(p + seq![x] + q =~= p.push(x));
        assert(p.push(x).drop_last() =~= p);
        assert(p + q =~= p);
    } else {
        assert((p + seq![x] + q).drop_last() =~= p + seq![x] + q.drop_last());
        assert((p + q).drop_last() =~= p + q.drop_last());
        lemma_hull_insert(bounds, p, x, q.drop_last());
    }
}

/// The box around a set of primitives holds the box of each of them.
pub proof fn hull_holds_every_item(bounds: Seq<Aabb>, items: Seq<usize>, i: int)
    requires
        0 <= i < items.len(),
    ensures
        hull(bounds, items).holds(bounds[items[i] as int]),
    decreases items.len(),
{
    if i < items.len() - 1 {
        hull_holds_every_item(bounds, items.drop_last(), i);
    }
}

/// A box that holds the box of every item, and the box of nothing, holds the box around them.
proof fn lemma_holds_hull(b: Aabb, bounds: Seq<Aabb>, items: Seq<usize>)
    requires
        b.holds(Aabb::nothing()),
        forall|i: int| 0 <= i < items.len() ==> b.holds(bounds[#[trigger] items[i] as int]),
    ensures
        b.holds(hull(bounds, items)),
    decreases items.len(),
{
    if items.len() > 0 {
        assert(b.holds(bounds[items[items.len() - 1] as int]));
        assert forall|i: int| 0 <= i < items.drop_last().len() implies b.holds(
            bounds[#[trigger] items.drop_last()[i] as int],
        ) by {
            assert(items.drop_last()[i] == items[i]);
        }
        lemma_holds_hull(b, bounds, items.drop_last());
    }
}

proof fn lemma_hull_holds_nothing(bounds: Seq<Aabb>, items: Seq<usize>)
    ensures
        hull(bounds, items).holds(Aabb::nothing()),
    decreases items.len(),
{
    if items.len() > 0 {
        lemma_hull_holds_nothing(bounds, items.drop_last());
    }
}

/// The box around a set of primitives holds the box around a part of them.
pub proof fn hull_holds_every_part(bounds: Seq<Aabb>, items: Seq<usize>, part: Seq<usize>)
    requires
        forall|i: int| 0 <= i < part.len() ==> items.contains(#[trigger] part[i]),
    ensures
        hull(bounds, items).holds(hull(bounds, part)),
{
    lemma_hull_holds_nothing(bounds, items);
    assert forall|i: int| 0 <= i < part.len() implies hull(bounds, items).holds(
        bounds[#[trigger] part[i] as int],
    ) by {
        assert(items.contains(part[i]));
        hull_holds_every_item(bounds, items, items.index_of(part[i]));
    }
    lemma_holds_hull(hull(bounds, items), bounds, part);
}

/// What holds of every built tree: the leaves tile the positions in order, the order is a
/// shuffle of the primitives, every box is the box around its primitives, and there are fewer
/// than two nodes per primitive.
pub proof fn lemma_built<
    A: Fn(Aabb) -> usize,
    S: Fn(u64, u64) -> bool,
    B: Fn(u64, u64, u64) -> usize,
    C: Fn(Aabb, usize, Aabb, usize) -> Option<u64>,
>(
    m: Metric<A, S, B, C>,
    bounds: Seq<Aabb>,
    centroids: Seq<Point>,
    before: Seq<usize>,
    base: int,
    after: Seq<usize>,
    t: Tree,
)
    requires
        1 <= before.len() <= usize::MAX,
        built(m, bounds, centroids, before, base, after, t),
    ensures
        t.tiles(base),
        t.size() == before.len(),
        1 <= t.nodes() <= 2 * before.len() - 1,
        shuffled(before, after),
        before.no_duplicates() ==> t.bounded(bounds, after),
    decreases before.len(),
{
    if before.len() > LEAF_SIZE {
        let (order, mid) = choose|order: Seq<usize>, mid: int| #[trigger]
            split(m, bounds, centroids, before, order, mid) && 0 < mid < before.len()
                && order.len() == before.len() && after.len() == before.len() && match t {
                Tree::Leaf { .. } => false,
                Tree::Fork { bbox, left, right } => {
                    &&& bbox == hull(bounds, before)
                    &&& built(m, bounds, centroids, order.take(mid), base, after.take(mid), *left)
                    &&& built(
                        m,
                        bounds,
                        centroids,
                        order.skip(mid),
                        base + mid,
                        after.skip(mid),
                        *right,
                    )
                },
            };
        lemma_split(m, bounds, centroids, before, order, mid);
        match t {
            Tree::Fork { bbox, left, right } => {
                lemma_built(
                    m,
                    bounds,
                    centroids,
                    order.take(mid),
                    base,
                    after.take(mid),
                    *left,
                );
                lemma_built(
                    m,
                    bounds,
                    centroids,
                    order.skip(mid),
                    base + mid,
                    after.skip(mid),
                    *right,
                );
                lemma_shuffled_halves(before, order, after, mid);
                if before.no_duplicates() {
                    lemma_hull_of_shuffle(bounds, before, after);
                }
            },
            _ => {},
        }
    }
}

proof fn lemma_shuffled_halves(
    before: Seq<usize>,
    order: Seq<usize>,
    after: Seq<usize>,
    mid: int,
)
    requires
        shuffled(before, order),
        0 <= mid <= before.len(),
        after.len() == before.len(),
        shuffled(order.take(mid), after.take(mid)),
        shuffled(order.skip(mid), after.skip(mid)),
    ensures
        shuffled(before, after),
        before.no_duplicates() ==> order.take(mid).no_duplicates() && order.skip(
            mid,
        ).no_duplicates(),
{
    assert forall|i: int| 0 <= i < after.len() implies exists|j: int|
        0 <= j < order.len() && #[trigger] order[j] == #[trigger] after[i] && (i < mid <==> j
            < mid) by {
        if i < mid {
            assert(after.take(mid)[i] == after[i]);
            assert(order.take(mid).contains(after.take(mid)[i]));
            let j = choose|j: int| 0 <= j < mid && order.take(mid)[j] == after[i];
            assert(order[j] == after[i]);
        } else {
            assert(after.skip(mid)[i - mid] == after[i]);
            assert(order.skip(mid).contains(after.skip(mid)[i - mid]));
            let j = choose|j: int|
                0 <= j < order.skip(mid).len() && order.skip(mid)[j] == after[i];
            assert(order[j + mid] == after[i]);
        }
    }
    assert forall|i: int| 0 <= i < after.len() implies before.contains(#[trigger] after[i]) by {
        let j = choose|j: int| 0 <= j < order.len() && #[trigger] order[j] == after[i];
        assert(before.contains(order[j]));
    }
    if before.no_duplicates() {
        assert forall|i: int, k: int| 0 <= i < after.len() && 0 <= k < after.len() && i
            != k implies after[i] != after[k] by {
            if i < mid && k < mid {
                assert(after.take(mid)[i] == after[i] && after.take(mid)[k] == after[k]);
            } else if i >= mid && k >= mid {
                assert(after.skip(mid)[i - mid] == after[i] && after.skip(mid)[k - mid]
                    == after[k]);
            } else {
                let j = choose|j: int|
                    0 <= j < order.len() && #[trigger] order[j] == after[i] && (i < mid <==> j
                        < mid);
                let l = choose|j: int|
                    0 <= j < order.len() && #[trigger] order[j] == after[k] && (k < mid <==> j
                        < mid);
                assert(order[j] != order[l]);
            }
        }
    }
}

pub proof fn lemma_layout_len(t: Tree, at: int)
    ensures
        layout(t, at).len() == t.nodes(),
        t.nodes() >= 1,
    decreases t,
{
    match t {
        Tree::Leaf { .. } => {},
        Tree::Fork { left, right, .. } => {
            lemma_layout_len(*left, at + 1);
            lemma_layout_len(*right, at + 1 + left.nodes());
        },
    }
}

/// A node with its children's numbers raised by `by`.
pub open spec fn raised(n: BvhNode, by: int) -> BvhNode {
    BvhNode {
        left: if n.left == -1 {
            -1i32
        } else {
            (n.left + by) as i32
        },
        right: if n.right == -1 {
            -1i32
        } else {
            (n.right + by) as i32
        },
        ..n
    }
}

/// Moving a tree in the array raises the numbers of the children.
proof fn lemma_layout_moved(t: Tree, at: int, by: int)
    requires
        0 <= at,
        0 <= by,
        at + by + t.nodes() <= i32::MAX,
    ensures
        layout(t, at + by) == layout(t, at).map_values(|n: BvhNode| raised(n, by)),
    decreases t,
{
    lemma_layout_len(t, at);
    lemma_layout_len(t, at + by);
    match t {
        Tree::Leaf { .. } => {
            assert(layout(t, at + by) =~= layout(t, at).map_values(|n: BvhNode| raised(n, by)));
        },
        Tree::Fork { left, right, .. } => {
            lemma_layout_len(*left, at + 1);
            lemma_layout_len(*right, at + 1 + left.nodes());
            lemma_layout_moved(*left, at + 1, by);
            lemma_layout_moved(*right, at + 1 + left.nodes(), by);
            assert(at + by + 1 == at + 1 + by);
            assert(at + by + 1 + left.nodes() == at + 1 + left.nodes() + by);
            assert(layout(t, at + by) =~= layout(t, at).map_values(|n: BvhNode| raised(n, by)));
        },
    }
}

/// A copy of part of `items`.
fn part(items: &Vec<usize>, from: usize, to: usize) -> (r: Vec<usize>)
    requires
        from <= to <= items@.len(),
    ensures
        r@ == items@.subrange(from as int, to as int),
{
    let mut r: Vec<usize> = Vec::new();
    let mut i: usize = from;
    while i < to
        invariant
            from <= i <= to <= items@.len(),
            r@ == items@.subrange(from as int, i as int),
        decreases to - i,
    {
        r.push(items[i]);
        i += 1;
        assert(r@ =~= items@.subrange(from as int, i as int));
    }
    r
}

/// Builds the tree of `items`, whose first position is `base`, at the end of `nodes`, and returns
/// the primitives in the order of its leaves.
pub fn build_node_sequential<
    A: Fn(Aabb) -> usize,
    S: Fn(u64, u64) -> bool,
    B: Fn(u64, u64, u64) -> usize,
    C: Fn(Aabb, usize, Aabb, usize) -> Option<u64>,
>(
    nodes: &mut Vec<BvhNode>,
    base: usize,
    items: &Vec<usize>,
    bounds: &Vec<Aabb>,
    centroids: &Vec<Point>,
    m: &Metric<A, S, B, C>,
) -> (after: Vec<usize>)
    requires
        total(*m),
        known(bounds@, centroids@, items@),
        1 <= items@.len(),
        base + items@.len() <= MAX_PRIMITIVES,
        old(nodes)@.len() + 2 * items@.len() - 1 <= i32::MAX,
    ensures
        exists|t: Tree| #[trigger]
            built(*m, bounds@, centroids@, items@, base as int, after@, t) && final(nodes)@ == old(
                nodes,
            )@ + layout(t, old(nodes)@.len() as int),
    decreases items@.len(),
{
    let n: usize = items.len();
    let (bbox, cbox) = bounds_for_range(bounds, centroids, items);
    let at: usize = nodes.len();
    let ghost start = nodes@;
    if n <= LEAF_SIZE {
        nodes.push(
            BvhNode { bbox, left: -1, right: -1, start: base as u32, count: n as u32 },
        );
        let after: Vec<usize> = part(items, 0, n);
        proof {
            assert(after@ =~= items@);
            let t = Tree::Leaf { bbox: hull(bounds@, items@), start: base as int, count: n as int };
            assert(built(*m, bounds@, centroids@, items@, base as int, after@, t));
            assert(nodes@ =~= start + layout(t, at as int));
        }
        return after;
    }
    nodes.push(BvhNode { bbox, left: -1, right: -1, start: 0, count: 0 });
    let mut order: Vec<usize> = part(items, 0, n);
    assert(order@ =~= items@);
    let mid: usize = choose_split(&mut order, bounds, centroids, cbox, m);
    let l: Vec<usize> = part(&order, 0, mid);
    let r: Vec<usize> = part(&order, mid, n);
    proof {
        assert(l@ =~= order@.take(mid as int));
        assert(r@ =~= order@.skip(mid as int));
        lemma_known_halves(bounds@, centroids@, items@, order@, mid as int);
    }
    let mut left: Vec<usize> = build_node_sequential(nodes, base, &l, bounds, centroids, m);
    let ghost lt = choose|t: Tree| #[trigger]
        built(*m, bounds@, centroids@, l@, base as int, left@, t) && nodes@ == start.push(
            BvhNode { bbox, left: -1i32, right: -1i32, start: 0, count: 0 },
        ) + layout(t, at + 1);
    proof {
        lemma_built(*m, bounds@, centroids@, l@, base as int, left@, lt);
        lemma_layout_len(lt, at + 1);
    }
    let ghost after_left = nodes@;
    let right_at: usize = nodes.len();
    let mut right: Vec<usize> = build_node_sequential(
        nodes,
        base + mid,
        &r,
        bounds,
        centroids,
        m,
    );
    let ghost rt = choose|t: Tree| #[trigger]
        built(*m, bounds@, centroids@, r@, base + mid, right@, t) && nodes@ == after_left + layout(
            t,
            right_at as int,
        );
    proof {
        lemma_built(*m, bounds@, centroids@, r@, base + mid, right@, rt);
    }
    nodes.set(
        at,
        BvhNode { bbox, left: at as i32 + 1, right: right_at as i32, start: 0, count: 0 },
    );
    let ghost left_order = left@;
    let ghost right_order = right@;
    left.append(&mut right);
    proof {
        let t = Tree::Fork { bbox, left: Box::new(lt), right: Box::new(rt) };
        assert(left@.take(mid as int) =~= left_order);
        assert(left@.skip(mid as int) =~= right_order);
        assert(built(*m, bounds@, centroids@, items@, base as int, left@, t)) by {
            assert(split(*m, bounds@, centroids@, items@, order@, mid as int));
        }
        assert(nodes@ =~= start + layout(t, at as int));
    }
    left
}

proof fn lemma_known_halves(
    bounds: Seq<Aabb>,
    centroids: Seq<Point>,
    items: Seq<usize>,
    order: Seq<usize>,
    mid: int,
)
    requires
        known(bounds, centroids, items),
        shuffled(items, order),
        0 <= mid <= order.len(),
    ensures
        known(bounds, centroids, order.take(mid)),
        known(bounds, centroids, order.skip(mid)),
{
    assert forall|i: int| 0 <= i < order.len() implies #[trigger] order[i] < bounds.len() by {
        assert(items.contains(order[i]));
    }
}

/// Calls `crossbeam::scope`: runs `a` on a thread of its own and `b` on the calling one, and
/// returns what the two returned. The contract claims of `Scope::spawn` that the thread runs the
/// closure it is given, and of `ScopedJoinHandle::join` that it hands back what that closure
/// returned. A thread that the system cannot start ends the program.
#[verifier::external_body]
fn in_parallel<X: Send, Y: Send, F: FnOnce() -> X + Send, G: FnOnce() -> Y + Send>(a: F, b: G) -> (r: (
    X,
    Y,
))
    requires
        a.requires(()),
        b.requires(()),
    ensures
        a.ensures((), r.0),
        b.ensures((), r.1),
{
    crossbeam::scope(
        |s| {
            let handle = s.spawn(|_| a());
            let y = b();
            (handle.join().expect("a subtree thread panicked"), y)
        },
    ).expect("a subtree thread panicked")
}

/// Whether `out` is a tree and an order that building `items` may give.
pub open spec fn subtree<
    A: Fn(Aabb) -> usize,
    S: Fn(u64, u64) -> bool,
    B: Fn(u64, u64, u64) -> usize,
    C: Fn(Aabb, usize, Aabb, usize) -> Option<u64>,
>(
    m: Metric<A, S, B, C>,
    bounds: Seq<Aabb>,
    centroids: Seq<Point>,
    items: Seq<usize>,
    base: int,
    nodes: Seq<BvhNode>,
    after: Seq<usize>,
) -> bool {
    exists|t: Tree| #[trigger]
        built(m, bounds, centroids, items, base, after, t) && nodes == layout(t, 0)
}

/// Appends `nodes` to `out`, the numbers of their children raised by `by`.
fn append_raised(out: &mut Vec<BvhNode>, nodes: &Vec<BvhNode>, by: usize)
    requires
        by <= i32::MAX,
        forall|i: int|
            0 <= i < nodes@.len() ==> -1 <= (#[trigger] nodes@[i]).left && nodes@[i].left + by
                <= i32::MAX && -1 <= nodes@[i].right && nodes@[i].right + by <= i32::MAX,
    ensures
        final(out)@ == old(out)@ + nodes@.map_values(|n: BvhNode| raised(n, by as int)),
{
    let mut i: usize = 0;
    while i < nodes.len()
        invariant
            i <= nodes@.len(),
            by <= i32::MAX,
            forall|i: int|
                0 <= i < nodes@.len() ==> -1 <= (#[trigger] nodes@[i]).left && nodes@[i].left + by
                    <= i32::MAX && -1 <= nodes@[i].right && nodes@[i].right + by <= i32::MAX,
            out@ == old(out)@ + nodes@.take(i as int).map_values(
                |n: BvhNode| raised(n, by as int),
            ),
        decreases nodes@.len() - i,
    {
        let mut n: BvhNode = nodes[i];
        if n.left != -1 {
            n.left = n.left + by as i32;
        }
        if n.right != -1 {
            n.right = n.right + by as i32;
        }
        out.push(n);
        i += 1;
        assert(out@ =~= old(out)@ + nodes@.take(i as int).map_values(
            |n: BvhNode| raised(n, by as int),
        ));
    }
    assert(nodes@.take(i as int) =~= nodes@);
}

proof fn lemma_layout_range(t: Tree, at: int)
    requires
        0 <= at,
        at + t.nodes() <= i32::MAX,
    ensures
        forall|i: int|
            0 <= i < layout(t, at).len() ==> -1 <= (#[trigger] layout(t, at)[i]).left <= at
                + t.nodes() && -1 <= layout(t, at)[i].right <= at + t.nodes(),
    decreases t,
{
    lemma_layout_len(t, at);
    match t {
        Tree::Leaf { .. } => {},
        Tree::Fork { bbox, left, right } => {
            lemma_layout_len(*left, at + 1);
            lemma_layout_len(*right, at + 1 + left.nodes());
            lemma_layout_range(*left, at + 1);
            lemma_layout_range(*right, at + 1 + left.nodes());
            let l = layout(*left, at + 1);
            let r = layout(*right, at + 1 + left.nodes());
            assert forall|i: int| 0 <= i < layout(t, at).len() implies -1 <= (#[trigger] layout(
                t,
                at,
            )[i]).left <= at + t.nodes() && -1 <= layout(t, at)[i].right <= at + t.nodes() by {
                if i == 0 {
                } else if i <= l.len() {
                    assert(layout(t, at)[i] == l[i - 1]);
                } else {
                    assert(layout(t, at)[i] == r[i - 1 - l.len()]);
                }
            }
        },
    }
}

/// Builds the tree of `items`, whose first position is `base`, as an array of its own: down to
/// `depth_budget` levels and for ranges large enough, the two sides are built at the same time.
pub fn build_range<
    A: Fn(Aabb) -> usize + Sync,
    S: Fn(u64, u64) -> bool + Sync,
    B: Fn(u64, u64, u64) -> usize + Sync,
    C: Fn(Aabb, usize, Aabb, usize) -> Option<u64> + Sync,
>(
    items: &Vec<usize>,
    base: usize,
    bounds: &Vec<Aabb>,
    centroids: &Vec<Point>,
    depth_budget: usize,
    m: &Metric<A, S, B, C>,
) -> (r: (Vec<BvhNode>, Vec<usize>))
    requires
        total(*m),
        known(bounds@, centroids@, items@),
        1 <= items@.len(),
        base + items@.len() <= MAX_PRIMITIVES,
    ensures
        subtree(*m, bounds@, centroids@, items@, base as int, r.0@, r.1@),
    decreases depth_budget,
{
    let n: usize = items.len();
    if depth_budget == 0 || n < PARALLEL_MIN_TRIS {
        let mut nodes: Vec<BvhNode> = Vec::new();
        let after = build_node_sequential(&mut nodes, base, items, bounds, centroids, m);
        proof {
            let t = choose|t: Tree| #[trigger]
                built(*m, bounds@, centroids@, items@, base as int, after@, t) && nodes@
                    == Seq::<BvhNode>::empty() + layout(t, 0);
            assert(nodes@ =~= layout(t, 0));
        }
        return (nodes, after);
    }
    let (bbox, cbox) = bounds_for_range(bounds, centroids, items);
    let mut order: Vec<usize> = part(items, 0, n);
    assert(order@ =~= items@);
    let mid: usize = choose_split(&mut order, bounds, centroids, cbox, m);
    let l: Vec<usize> = part(&order, 0, mid);
    let r: Vec<usize> = part(&order, mid, n);
    proof {
        assert(l@ =~= order@.take(mid as int));
        assert(r@ =~= order@.skip(mid as int));
        lemma_known_halves(bounds@, centroids@, items@, order@, mid as int);
    }
    let build_left = || -> (x: (Vec<BvhNode>, Vec<usize>))
        ensures
            subtree(*m, bounds@, centroids@, l@, base as int, x.0@, x.1@),
        { build_range(&l, base, bounds, centroids, depth_budget - 1, m) };
    let build_right = || -> (x: (Vec<BvhNode>, Vec<usize>))
        ensures
            subtree(*m, bounds@, centroids@, r@, base + mid, x.0@, x.1@),
        { build_range(&r, base + mid, bounds, centroids, depth_budget - 1, m) };
    let (left, right) = in_parallel(build_left, build_right);
    let (left_nodes, mut left_order) = left;
    let (right_nodes, mut right_order) = right;
    let ghost lo = left_order@;
    let ghost ro = right_order@;
    let ghost lt = choose|t: Tree| #[trigger]
        built(*m, bounds@, centroids@, l@, base as int, lo, t) && left_nodes@ == layout(t, 0);
    let ghost rt = choose|t: Tree| #[trigger]
        built(*m, bounds@, centroids@, r@, base + mid, ro, t) && right_nodes@ == layout(t, 0);
    proof {
        lemma_built(*m, bounds@, centroids@, l@, base as int, lo, lt);
        lemma_built(*m, bounds@, centroids@, r@, base + mid, ro, rt);
        lemma_layout_len(lt, 0);
        lemma_layout_len(rt, 0);
        lemma_layout_range(lt, 0);
        lemma_layout_range(rt, 0);
        lemma_layout_moved(lt, 0, 1);
        lemma_layout_moved(rt, 0, 1 + lt.nodes());
    }
    let right_at: usize = 1 + left_nodes.len();
    let mut out: Vec<BvhNode> = Vec::new();
    out.push(BvhNode { bbox, left: 1, right: right_at as i32, start: 0, count: 0 });
    append_raised(&mut out, &left_nodes, 1);
    append_raised(&mut out, &right_nodes, right_at);
    left_order.append(&mut right_order);
    proof {
        let t = Tree::Fork { bbox, left: Box::new(lt), right: Box::new(rt) };
        assert(left_order@.take(mid as int) =~= lo);
        assert(left_order@.skip(mid as int) =~= ro);
        assert(built(*m, bounds@, centroids@, items@, base as int, left_order@, t)) by {
            assert(split(*m, bounds@, centroids@, items@, order@, mid as int));
        }
        assert(out@ =~= layout(t, 0));
    }
    (out, left_order)
}

/// How many levels of the tree are built in parallel: the least `d` with 2^d threads or more, and
/// none for a single thread or few primitives.
pub fn parallel_depth_budget(threads: usize, n_tris: usize) -> (d: usize)
    requires
        threads <= usize::MAX / 2 + 1,
    ensures
        threads <= 1 || n_tris < PARALLEL_MIN_TRIS ==> d == 0,
        threads > 1 && n_tris >= PARALLEL_MIN_TRIS ==> vstd::arithmetic::power2::pow2(d as nat)
            >= threads && d > 0 && vstd::arithmetic::power2::pow2((d - 1) as nat) < threads,
{
    if threads <= 1 || n_tris < PARALLEL_MIN_TRIS {
        return 0;
    }
    proof {
        vstd::arithmetic::power2::lemma2_to64();
    }
    let mut d: usize = 0;
    let mut reach: usize = 1;
    while reach < threads
        invariant
            threads > 1,
            threads <= usize::MAX / 2 + 1,
            reach == vstd::arithmetic::power2::pow2(d as nat),
            reach >= 1,
            d < reach,
            d > 0 ==> vstd::arithmetic::power2::pow2((d - 1) as nat) < threads,
            d == 0 ==> reach == 1,
        decreases 2 * threads - reach,
    {
        proof {
            vstd::arithmetic::power2::lemma_pow2_unfold((d + 1) as nat);
        }
        d += 1;
        reach = reach * 2;
    }
    d
}

/// The primitives in the order of their numbers.
pub open spec fn all_items(n: int) -> Seq<usize> {
    Seq::new(n as nat, |i: int| i as usize)
}

/// Whether `nodes` and `indices` are a tree over all primitives and the order of its leaves.
pub open spec fn binary_tree<
    A: Fn(Aabb) -> usize,
    S: Fn(u64, u64) -> bool,
    B: Fn(u64, u64, u64) -> usize,
    C: Fn(Aabb, usize, Aabb, usize) -> Option<u64>,
>(
    m: Metric<A, S, B, C>,
    bounds: Seq<Aabb>,
    centroids: Seq<Point>,
    nodes: Seq<BvhNode>,
    indices: Seq<usize>,
) -> bool {
    if bounds.len() == 0 {
        nodes.len() == 0 && indices.len() == 0
    } else {
        subtree(m, bounds, centroids, all_items(bounds.len() as int), 0, nodes, indices)
    }
}

/// The binary tree over all primitives, built with so many threads.
pub fn build_binary<
    A: Fn(Aabb) -> usize + Sync,
    S: Fn(u64, u64) -> bool + Sync,
    B: Fn(u64, u64, u64) -> usize + Sync,
    C: Fn(Aabb, usize, Aabb, usize) -> Option<u64> + Sync,
>(bounds: &Vec<Aabb>, centroids: &Vec<Point>, threads: usize, m: &Metric<A, S, B, C>) -> (r: (
    Vec<BvhNode>,
    Vec<usize>,
))
    requires
        total(*m),
        bounds@.len() == centroids@.len(),
        bounds@.len() <= MAX_PRIMITIVES,
        threads <= usize::MAX / 2 + 1,
    ensures
        binary_tree(*m, bounds@, centroids@, r.0@, r.1@),
{
    let n: usize = bounds.len();
    let mut indices: Vec<usize> = Vec::new();
    let mut i: usize = 0;
    while i < n
        invariant
            i <= n,
            indices@ == all_items(i as int),
        decreases n - i,
    {
        indices.push(i);
        i += 1;
        assert(indices@ =~= all_items(i as int));
    }
    if n == 0 {
        return (Vec::new(), indices);
    }
    let depth_budget: usize = parallel_depth_budget(threads, n);
    build_range(&indices, 0, bounds, centroids, depth_budget, m)
}

/// A tree built on several threads is the tree built on one: with functions that always answer
/// the same, nodes and order do not depend on how the work was shared out.
pub proof fn threads_do_not_matter<
    A: Fn(Aabb) -> usize,
    S: Fn(u64, u64) -> bool,
    B: Fn(u64, u64, u64) -> usize,
    C: Fn(Aabb, usize, Aabb, usize) -> Option<u64>,
>(
    m: Metric<A, S, B, C>,
    bounds: Seq<Aabb>,
    centroids: Seq<Point>,
    nodes1: Seq<BvhNode>,
    indices1: Seq<usize>,
    nodes2: Seq<BvhNode>,
    indices2: Seq<usize>,
)
    requires
        functional(m),
        binary_tree(m, bounds, centroids, nodes1, indices1),
        binary_tree(m, bounds, centroids, nodes2, indices2),
    ensures
        nodes1 == nodes2,
        indices1 == indices2,
{
    if bounds.len() == 0 {
        assert(nodes1 =~= nodes2);
        assert(indices1 =~= indices2);
    } else {
        let items = all_items(bounds.len() as int);
        let t1 = choose|t: Tree| #[trigger]
            built(m, bounds, centroids, items, 0, indices1, t) && nodes1 == layout(t, 0);
        let t2 = choose|t: Tree| #[trigger]
            built(m, bounds, centroids, items, 0, indices2, t) && nodes2 == layout(t, 0);
        built_is_unique(m, bounds, centroids, items, 0, indices1, t1, indices2, t2);
    }
}

/// Whether node `j` is a leaf that holds position `p`.
pub open spec fn leaf_at(nodes: Seq<BvhNode>, j: int, p: int) -> bool {
    &&& 0 <= j < nodes.len()
    &&& nodes[j].left == -1
    &&& nodes[j].start <= p < nodes[j].start + nodes[j].count
}

/// Whether some leaf holds position `p`.
pub open spec fn held(nodes: Seq<BvhNode>, p: int) -> bool {
    exists|j: int| #[trigger] leaf_at(nodes, j, p)
}

/// Whether the leaves among `nodes` hold the positions from `from` up to `to`, each in exactly one
/// leaf of at most [`LEAF_SIZE`], and every other node has a count of zero and two children.
pub open spec fn leaves_partition(nodes: Seq<BvhNode>, from: int, to: int) -> bool {
    &&& forall|p: int| from <= p < to ==> #[trigger] held(nodes, p)
    &&& forall|p: int, j: int, k: int| #[trigger]
        leaf_at(nodes, j, p) && #[trigger] leaf_at(nodes, k, p) ==> j == k
    &&& forall|p: int, j: int| #[trigger] leaf_at(nodes, j, p) ==> from <= p < to
    &&& forall|j: int|
        0 <= j < nodes.len() ==> {
            if (#[trigger] nodes[j]).left == -1 {
                nodes[j].right == -1 && 1 <= nodes[j].count <= LEAF_SIZE
            } else {
                nodes[j].right != -1 && nodes[j].count == 0
            }
        }
}

proof fn lemma_layout_partition(t: Tree, at: int, base: int)
    requires
        t.tiles(base),
        0 <= base,
        base + t.size() <= u32::MAX,
        0 <= at,
        at + t.nodes() <= i32::MAX,
    ensures
        leaves_partition(layout(t, at), base, base + t.size()),
        t.size() >= 1,
    decreases t,
{
    lemma_layout_len(t, at);
    let nodes = layout(t, at);
    match t {
        Tree::Leaf { bbox, start, count } => {
            assert forall|p: int| base <= p < base + t.size() implies #[trigger] held(nodes, p) by {
                assert(leaf_at(nodes, 0, p));
            }
        },
        Tree::Fork { bbox, left, right } => {
            let l = layout(*left, at + 1);
            let r = layout(*right, at + 1 + left.nodes());
            lemma_layout_len(*left, at + 1);
            lemma_layout_len(*right, at + 1 + left.nodes());
            lemma_sizes(*left, base);
            lemma_sizes(*right, base + left.size());
            lemma_layout_partition(*left, at + 1, base);
            lemma_layout_partition(*right, at + 1 + left.nodes(), base + left.size());
            let n = l.len() as int;
            assert forall|j: int| 1 <= j <= n implies nodes[j] == l[j - 1] by {}
            assert forall|j: int| n < j < nodes.len() implies nodes[j] == r[j - 1 - n] by {}
            assert forall|p: int| base <= p < base + t.size() implies #[trigger] held(nodes, p) by {
                if p < base + left.size() {
                    assert(held(l, p));
                    let j = choose|j: int| #[trigger] leaf_at(l, j, p);
                    assert(leaf_at(nodes, j + 1, p));
                } else {
                    assert(held(r, p));
                    let j = choose|j: int| #[trigger] leaf_at(r, j, p);
                    assert(leaf_at(nodes, j + 1 + n, p));
                }
            }
            assert forall|p: int, j: int| #[trigger] leaf_at(nodes, j, p) implies base <= p < base
                + t.size() && (if p < base + left.size() {
                leaf_at(l, j - 1, p)
            } else {
                leaf_at(r, j - 1 - n, p)
            }) by {
                if 1 <= j <= n {
                    assert(leaf_at(l, j - 1, p));
                } else if j > n {
                    assert(leaf_at(r, j - 1 - n, p));
                }
            }
        },
    }
}

pub proof fn lemma_sizes(t: Tree, base: int)
    requires
        t.tiles(base),
    ensures
        t.size() >= 1,
    decreases t,
{
    match t {
        Tree::Leaf { .. } => {},
        Tree::Fork { left, right, .. } => {
            lemma_sizes(*left, base);
            lemma_sizes(*right, base + left.size());
        },
    }
}

/// Every primitive belongs to exactly one leaf: the leaves partition the positions of the index
/// array, and the index array holds every primitive once.
pub proof fn leaves_hold_every_primitive_once<
    A: Fn(Aabb) -> usize,
    S: Fn(u64, u64) -> bool,
    B: Fn(u64, u64, u64) -> usize,
    C: Fn(Aabb, usize, Aabb, usize) -> Option<u64>,
>(
    m: Metric<A, S, B, C>,
    bounds: Seq<Aabb>,
    centroids: Seq<Point>,
    nodes: Seq<BvhNode>,
    indices: Seq<usize>,
)
    requires
        bounds.len() <= MAX_PRIMITIVES,
        binary_tree(m, bounds, centroids, nodes, indices),
    ensures
        leaves_partition(nodes, 0, bounds.len() as int),
        indices.len() == bounds.len(),
        indices.no_duplicates(),
        forall|i: int| 0 <= i < indices.len() ==> #[trigger] indices[i] < bounds.len(),
{
    if bounds.len() > 0 {
        let items = all_items(bounds.len() as int);
        let t = choose|t: Tree| #[trigger]
            built(m, bounds, centroids, items, 0, indices, t) && nodes == layout(t, 0);
        lemma_built(m, bounds, centroids, items, 0, indices, t);
        lemma_layout_partition(t, 0, 0);
        assert forall|i: int| 0 <= i < indices.len() implies #[trigger] indices[i]
            < bounds.len() by {
            assert(items.contains(indices[i]));
        }
    }
}

/// A range built down to one depth with threads is the range built down to another: with functions
/// that always answer the same, nodes and order are the same.
pub proof fn depth_budget_does_not_matter<
    A: Fn(Aabb) -> usize,
    S: Fn(u64, u64) -> bool,
    B: Fn(u64, u64, u64) -> usize,
    C: Fn(Aabb, usize, Aabb, usize) -> Option<u64>,
>(
    m: Metric<A, S, B, C>,
    bounds: Seq<Aabb>,
    centroids: Seq<Point>,
    items: Seq<usize>,
    base: int,
    nodes1: Seq<BvhNode>,
    after1: Seq<usize>,
    nodes2: Seq<BvhNode>,
    after2: Seq<usize>,
)
    requires
        functional(m),
        subtree(m, bounds, centroids, items, base, nodes1, after1),
        subtree(m, bounds, centroids, items, base, nodes2, after2),
    ensures
        nodes1 == nodes2,
        after1 == after2,
{
    let t1 = choose|t: Tree| #[trigger]
        built(m, bounds, centroids, items, base, after1, t) && nodes1 == layout(t, 0);
    let t2 = choose|t: Tree| #[trigger]
        built(m, bounds, centroids, items, base, after2, t) && nodes2 == layout(t, 0);
    built_is_unique(m, bounds, centroids, items, base, after1, t1, after2, t2);
}

/// The leaves of a range partition its positions, its order is a shuffle of its items, and its
/// first node has the box around them.
pub proof fn range_is_partitioned<
    A: Fn(Aabb) -> usize,
    S: Fn(u64, u64) -> bool,
    B: Fn(u64, u64, u64) -> usize,
    C: Fn(Aabb, usize, Aabb, usize) -> Option<u64>,
>(
    m: Metric<A, S, B, C>,
    bounds: Seq<Aabb>,
    centroids: Seq<Point>,
    items: Seq<usize>,
    base: int,
    nodes: Seq<BvhNode>,
    after: Seq<usize>,
)
    requires
        1 <= items.len(),
        0 <= base,
        base + items.len() <= MAX_PRIMITIVES,
        subtree(m, bounds, centroids, items, base, nodes, after),
    ensures
        leaves_partition(nodes, base, base + items.len()),
        shuffled(items, after),
        nodes.len() >= 1,
        nodes[0].bbox == hull(bounds, items),
{
    let t = choose|t: Tree| #[trigger]
        built(m, bounds, centroids, items, base, after, t) && nodes == layout(t, 0);
    lemma_built(m, bounds, centroids, items, base, after, t);
    lemma_layout_len(t, 0);
    lemma_layout_partition(t, 0, base);
}

} // verus!
