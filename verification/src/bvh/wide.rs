//! Folding the binary tree into one whose nodes have up to four children.

use super::construct::{
    all_items, build_binary, built, hull_holds_every_item, hull_holds_every_part, layout, lemma_built, lemma_layout_len,
    lemma_sizes, BvhNode, Tree, LEAF_SIZE, MAX_PRIMITIVES,
};
use super::keys::{Aabb, Point};
use super::split::{hull, total, Metric};
use vstd::prelude::*;

verus! {

/// The most children that a wide node has.
pub const WIDE_WIDTH: usize = 4;

/// A child of a wide node. With a `count` above zero it is a leaf, and `child` is the first of
/// its positions in the index array; with a `count` of zero, `child` is the number of a node.
#[derive(Clone, Copy, Debug, PartialEq, Eq, Structural)]
pub struct WideSlot {
    pub bbox: Aabb,
    pub child: u32,
    pub count: u8,
}

/// A node of the wide tree.
pub struct WideNode {
    pub slots: Vec<WideSlot>,
}

/// Whether `weights` holds the weight of every fork among `trees`.
pub open spec fn weighed<W: Fn(Aabb, u32) -> Option<u64>>(
    weight: W,
    trees: Seq<Tree>,
    weights: Seq<Option<u64>>,
) -> bool {
    &&& weights.len() == trees.len()
    &&& forall|k: int|
        0 <= k < trees.len() && trees[k] is Fork ==> weight.ensures(
            (trees[k].bbox(), trees[k].size() as u32),
            #[trigger] weights[k],
        )
}

/// The heaviest fork among the first `n` trees, the first of equals, or -1. A fork without a
/// weight is taken only if it is the first one, and then stays.
pub open spec fn heaviest(trees: Seq<Tree>, weights: Seq<Option<u64>>, n: int) -> int
    decreases n,
{
    if n <= 0 {
        -1
    } else {
        let k = heaviest(trees, weights, n - 1);
        if !(trees[n - 1] is Fork) {
            k
        } else if k < 0 {
            n - 1
        } else {
            match (weights[n - 1], weights[k]) {
                (Some(a), Some(b)) => if a > b {
                    n - 1
                } else {
                    k
                },
                _ => k,
            }
        }
    }
}

/// The left child of a fork.
pub open spec fn left_of(t: Tree) -> Tree {
    match t {
        Tree::Leaf { .. } => t,
        Tree::Fork { left, .. } => *left,
    }
}

/// The right child of a fork.
pub open spec fn right_of(t: Tree) -> Tree {
    match t {
        Tree::Leaf { .. } => t,
        Tree::Fork { right, .. } => *right,
    }
}

/// `trees` with number `k` replaced by its two children.
pub open spec fn opened(trees: Seq<Tree>, k: int) -> Seq<Tree> {
    trees.take(k) + seq![left_of(trees[k]), right_of(trees[k])] + trees.skip(k + 1)
}

/// Whether opening the heaviest fork again and again, until there are [`WIDE_WIDTH`] trees or no
/// fork is left, may lead from `trees` to `done`.
pub open spec fn widened<W: Fn(Aabb, u32) -> Option<u64>>(
    weight: W,
    trees: Seq<Tree>,
    done: Seq<Tree>,
) -> bool
    decreases WIDE_WIDTH - trees.len(),
{
    if trees.len() >= WIDE_WIDTH {
        done == trees
    } else {
        exists|weights: Seq<Option<u64>>| #[trigger]
            weighed(weight, trees, weights) && {
                let k = heaviest(trees, weights, trees.len() as int);
                if k < 0 || k >= trees.len() {
                    done == trees
                } else {
                    widened(weight, opened(trees, k), done)
                }
            }
    }
}

/// The children that folding starts from: those of a fork, or the leaf itself.
pub open spec fn first_children(t: Tree) -> Seq<Tree> {
    match t {
        Tree::Leaf { .. } => seq![t],
        Tree::Fork { left, right, .. } => seq![*left, *right],
    }
}

/// Whether slot `s` stands for the tree `t`, at a node numbered above `w`.
pub open spec fn slot_for<W: Fn(Aabb, u32) -> Option<u64>>(
    weight: W,
    t: Tree,
    wide: Seq<WideNode>,
    w: int,
    s: WideSlot,
    limit: int,
) -> bool
    decreases limit, 0int,
{
    &&& s.bbox == t.bbox()
    &&& match t {
        Tree::Leaf { start, count, .. } => s.child == start && s.count == count,
        Tree::Fork { .. } => s.count == 0 && w < s.child < wide.len() && 0 <= t.nodes() < limit
            && folded(weight, t, wide, s.child as int),
    }
}

/// Whether node `w` of `wide` is the tree `t` folded.
pub open spec fn folded<W: Fn(Aabb, u32) -> Option<u64>>(
    weight: W,
    t: Tree,
    wide: Seq<WideNode>,
    w: int,
) -> bool
    decreases t.nodes(), 1int,
{
    0 <= w < wide.len() && exists|trees: Seq<Tree>| #[trigger]
        widened(weight, first_children(t), trees) && wide[w].slots@.len() == trees.len()
            && forall|k: int|
            0 <= k < trees.len() ==> slot_for(
                weight,
                trees[k],
                wide,
                w,
                #[trigger] wide[w].slots@[k],
                t.nodes(),
            )
}

/// The positions below the first `k` slots of node `w`, in order.
pub open spec fn positions(wide: Seq<WideNode>, w: int, k: int) -> Seq<int>
    decreases wide.len() - w, k,
{
    if k <= 0 || w < 0 || w >= wide.len() || k > wide[w].slots@.len() {
        Seq::empty()
    } else {
        let s = wide[w].slots@[k - 1];
        positions(wide, w, k - 1) + (if s.count > 0 {
            Seq::new(s.count as nat, |i: int| s.child + i)
        } else if w < s.child < wide.len() {
            positions(wide, s.child as int, wide[s.child as int].slots@.len() as int)
        } else {
            Seq::empty()
        })
    }
}

/// The positions below node `w`, in order.
pub open spec fn node_positions(wide: Seq<WideNode>, w: int) -> Seq<int> {
    positions(wide, w, wide[w].slots@.len() as int)
}

/// The positions below a slot of node `w`, in order.
pub open spec fn slot_positions(wide: Seq<WideNode>, w: int, s: WideSlot) -> Seq<int> {
    if s.count > 0 {
        Seq::new(s.count as nat, |i: int| s.child + i)
    } else if w < s.child < wide.len() {
        node_positions(wide, s.child as int)
    } else {
        Seq::empty()
    }
}

/// The positions from `from` up to `to`.
pub open spec fn run(from: int, to: int) -> Seq<int> {
    Seq::new((to - from) as nat, |i: int| from + i)
}

/// Whether node `i` has between one and [`WIDE_WIDTH`] slots, each a leaf of at most
/// [`LEAF_SIZE`] positions or a node numbered above `i` and below `end`.
pub open spec fn linked(wide: Seq<WideNode>, i: int, end: int) -> bool {
    &&& 1 <= wide[i].slots@.len() <= WIDE_WIDTH
    &&& forall|k: int|
        0 <= k < wide[i].slots@.len() ==> {
            let s = #[trigger] wide[i].slots@[k];
            s.count <= LEAF_SIZE && (s.count > 0 || i < s.child < end)
        }
}

/// Whether the box of every slot of node `i` holds the boxes of the primitives below it and lies
/// in the box around all primitives, and no position is below node `i` twice.
pub open spec fn slots_bounded(
    wide: Seq<WideNode>,
    i: int,
    bounds: Seq<Aabb>,
    indices: Seq<usize>,
) -> bool {
    &&& forall|k: int, q: int|
        0 <= k < wide[i].slots@.len() && #[trigger] slot_positions(
            wide,
            i,
            #[trigger] wide[i].slots@[k],
        ).contains(q) ==> 0 <= q < indices.len() && wide[i].slots@[k].bbox.holds(
            bounds[indices[q] as int],
        )
    &&& forall|k: int|
        0 <= k < wide[i].slots@.len() ==> hull(bounds, indices).holds(
            (#[trigger] wide[i].slots@[k]).bbox,
        )
    &&& node_positions(wide, i).no_duplicates()
}

/// The slots of every node.
pub open spec fn slot_table(wide: Seq<WideNode>) -> Seq<Seq<WideSlot>> {
    wide.map_values(|n: WideNode| n.slots@)
}

/// Whether slot `k` of row `p` is node `i`.
pub open spec fn leads(table: Seq<Seq<WideSlot>>, p: int, k: int, i: int) -> bool {
    &&& 0 <= p < table.len()
    &&& 0 <= k < table[p].len()
    &&& table[p][k].count == 0
    &&& table[p][k].child == i
}

/// Whether exactly one slot of the rows from `from` on is node `i`.
pub open spec fn one_parent(table: Seq<Seq<WideSlot>>, from: int, i: int) -> bool {
    exists|p: int, k: int|
        from <= p && #[trigger] leads(table, p, k, i) && forall|p2: int, k2: int|
            from <= p2 && #[trigger] leads(table, p2, k2, i) ==> p2 == p && k2 == k
}

/// The tree `t` stands at `root` in the array.
spec fn placed(nodes: Seq<BvhNode>, root: int, t: Tree) -> bool {
    &&& 0 <= root
    &&& root + t.nodes() <= nodes.len()
    &&& nodes.subrange(root, root + t.nodes()) == layout(t, root)
}

proof fn lemma_placed_children(nodes: Seq<BvhNode>, root: int, t: Tree)
    requires
        placed(nodes, root, t),
        nodes.len() <= i32::MAX,
    ensures
        match t {
            Tree::Leaf { bbox, start, count } => nodes[root] == (BvhNode {
                bbox,
                left: -1i32,
                right: -1i32,
                start: start as u32,
                count: count as u32,
            }),
            Tree::Fork { bbox, left, right } => {
                &&& nodes[root].bbox == bbox
                &&& nodes[root].left == root + 1
                &&& nodes[root].right == root + 1 + left.nodes()
                &&& placed(nodes, root + 1, *left)
                &&& placed(nodes, root + 1 + left.nodes(), *right)
                &&& left.nodes() >= 1
                &&& right.nodes() >= 1
            },
        },
        nodes[root].bbox == t.bbox(),
        t.nodes() >= 1,
{
    lemma_layout_len(t, root);
    let part = nodes.subrange(root, root + t.nodes());
    assert(part[0] == nodes[root]);
    match t {
        Tree::Leaf { .. } => {},
        Tree::Fork { bbox, left, right } => {
            lemma_layout_len(*left, root + 1);
            lemma_layout_len(*right, root + 1 + left.nodes());
            let l = layout(*left, root + 1);
            let r = layout(*right, root + 1 + left.nodes());
            assert(nodes.subrange(root + 1, root + 1 + left.nodes()) =~= l) by {
                assert forall|i: int| 0 <= i < l.len() implies nodes[root + 1 + i] == l[i] by {
                    assert(part[1 + i] == layout(t, root)[1 + i]);
                }
            }
            assert(nodes.subrange(
                root + 1 + left.nodes(),
                root + 1 + left.nodes() + right.nodes(),
            ) =~= r) by {
                assert forall|i: int| 0 <= i < r.len() implies nodes[root + 1 + left.nodes() + i]
                    == r[i] by {
                    assert(part[1 + left.nodes() + i] == layout(t, root)[1 + left.nodes() + i]);
                }
            }
        },
    }
}

/// The sizes of the subtrees below `at`, filled in.
spec fn counted(cnt: Seq<u32>, at: int, t: Tree) -> bool
    decreases t,
{
    &&& cnt[at] == t.size()
    &&& match t {
        Tree::Leaf { .. } => true,
        Tree::Fork { left, right, .. } => counted(cnt, at + 1, *left) && counted(
            cnt,
            at + 1 + left.nodes(),
            *right,
        ),
    }
}

proof fn lemma_counted_frame(a: Seq<u32>, b: Seq<u32>, at: int, t: Tree)
    requires
        counted(a, at, t),
        a.len() == b.len(),
        forall|i: int| at <= i < at + t.nodes() ==> a[i] == b[i],
    ensures
        counted(b, at, t),
    decreases t,
{
    lemma_layout_len(t, at);
    match t {
        Tree::Leaf { .. } => {},
        Tree::Fork { left, right, .. } => {
            lemma_layout_len(*left, at);
            lemma_layout_len(*right, at);
            lemma_counted_frame(a, b, at + 1, *left);
            lemma_counted_frame(a, b, at + 1 + left.nodes(), *right);
        },
    }
}

/// Fills in how many primitives each subtree holds.
fn fill(nodes: &Vec<BvhNode>, cnt: &mut Vec<u32>, i: usize, Ghost(t): Ghost<Tree>, Ghost(base): Ghost<int>) -> (c: u32)
    requires
        placed(nodes@, i as int, t),
        nodes@.len() <= i32::MAX,
        old(cnt)@.len() == nodes@.len(),
        t.tiles(base),
        0 <= base,
        base + t.size() <= MAX_PRIMITIVES,
    ensures
        c == t.size(),
        final(cnt)@.len() == old(cnt)@.len(),
        counted(final(cnt)@, i as int, t),
        forall|k: int|
            0 <= k < nodes@.len() && !(i <= k < i + t.nodes()) ==> final(cnt)@[k] == old(cnt)@[k],
    decreases t,
{
    proof {
        lemma_placed_children(nodes@, i as int, t);
        lemma_sizes(t, base);
    }
    let n: BvhNode = nodes[i];
    if n.left == -1 {
        proof {
            assert(t is Leaf);
        }
        cnt.set(i, n.count);
        return n.count;
    }
    let ghost l = left_of(t);
    let ghost r = right_of(t);
    proof {
        assert(t is Fork);
        lemma_sizes(l, base);
        lemma_sizes(r, base + l.size());
    }
    let a: u32 = fill(nodes, cnt, n.left as usize, Ghost(l), Ghost(base));
    let ghost mid = cnt@;
    let b: u32 = fill(nodes, cnt, n.right as usize, Ghost(r), Ghost(base + l.size()));
    let ghost before = cnt@;
    let c: u32 = a + b;
    cnt.set(i, c);
    proof {
        lemma_counted_frame(mid, before, i + 1, l);
        lemma_counted_frame(before, cnt@, i + 1, l);
        lemma_counted_frame(before, cnt@, i + 1 + l.nodes(), r);
    }
    c
}

/// The tree `t` holds the positions from `base` on, and its boxes hold the primitives there.
spec fn sound(t: Tree, base: int, bounds: Seq<Aabb>, indices: Seq<usize>) -> bool {
    &&& t.tiles(base)
    &&& 0 <= base
    &&& base + t.size() <= indices.len()
    &&& t.bounded(bounds, indices.subrange(base, base + t.size()))
}

proof fn lemma_sound_children(t: Tree, base: int, bounds: Seq<Aabb>, indices: Seq<usize>)
    requires
        sound(t, base, bounds, indices),
        t is Fork,
    ensures
        sound(left_of(t), base, bounds, indices),
        sound(right_of(t), base + left_of(t).size(), bounds, indices),
{
    let l = left_of(t);
    let r = right_of(t);
    lemma_sizes(l, base);
    lemma_sizes(r, base + l.size());
    let items = indices.subrange(base, base + t.size());
    assert(items.take(l.size()) =~= indices.subrange(base, base + l.size()));
    assert(items.skip(l.size()) =~= indices.subrange(base + l.size(), base + l.size() + r.size()));
}

/// A run of trees that hold the positions from `base` on, one after the other.
spec fn chain(trees: Seq<Tree>, base: int, bounds: Seq<Aabb>, indices: Seq<usize>) -> bool
    decreases trees.len(),
{
    trees.len() == 0 || (chain(trees.drop_last(), base, bounds, indices) && sound(
        trees.last(),
        base + chain_size(trees.drop_last()),
        bounds,
        indices,
    ))
}

spec fn chain_size(trees: Seq<Tree>) -> int
    decreases trees.len(),
{
    if trees.len() == 0 {
        0
    } else {
        chain_size(trees.drop_last()) + trees.last().size()
    }
}

proof fn lemma_chain_append(
    a: Seq<Tree>,
    b: Seq<Tree>,
    base: int,
    bounds: Seq<Aabb>,
    indices: Seq<usize>,
)
    ensures
        chain_size(a + b) == chain_size(a) + chain_size(b),
        chain(a + b, base, bounds, indices) <==> chain(a, base, bounds, indices) && chain(
            b,
            base + chain_size(a),
            bounds,
            indices,
        ),
    decreases b.len(),
{
    if b.len() == 0 {
        assert(a + b =~= a);
    } else {
        assert((a + b).drop_last() =~= a + b.drop_last());
        lemma_chain_append(a, b.drop_last(), base, bounds, indices);
    }
}

proof fn lemma_chain_two(x: Tree, y: Tree, base: int, bounds: Seq<Aabb>, indices: Seq<usize>)
    ensures
        chain_size(seq![x, y]) == x.size() + y.size(),
        chain(seq![x, y], base, bounds, indices) <==> sound(x, base, bounds, indices) && sound(
            y,
            base + x.size(),
            bounds,
            indices,
        ),
        chain_size(seq![x]) == x.size(),
        chain(seq![x], base, bounds, indices) <==> sound(x, base, bounds, indices),
{
    reveal_with_fuel(chain, 3);
    reveal_with_fuel(chain_size, 3);
    assert(seq![x, y].drop_last() =~= seq![x]);
    assert(seq![x].drop_last() =~= Seq::<Tree>::empty());
}

proof fn lemma_chain_opened(
    trees: Seq<Tree>,
    k: int,
    base: int,
    bounds: Seq<Aabb>,
    indices: Seq<usize>,
)
    requires
        chain(trees, base, bounds, indices),
        0 <= k < trees.len(),
        trees[k] is Fork,
    ensures
        chain(opened(trees, k), base, bounds, indices),
        chain_size(opened(trees, k)) == chain_size(trees),
{
    let a = trees.take(k);
    let c = trees.skip(k + 1);
    let l = left_of(trees[k]);
    let r = right_of(trees[k]);
    assert(trees =~= a + seq![trees[k]] + c);
    lemma_chain_append(a + seq![trees[k]], c, base, bounds, indices);
    lemma_chain_append(a, seq![trees[k]], base, bounds, indices);
    lemma_chain_two(trees[k], trees[k], base + chain_size(a), bounds, indices);
    lemma_sound_children(trees[k], base + chain_size(a), bounds, indices);
    lemma_chain_append(a + seq![l, r], c, base, bounds, indices);
    lemma_chain_append(a, seq![l, r], base, bounds, indices);
    lemma_chain_two(l, r, base + chain_size(a), bounds, indices);
}

proof fn lemma_chain_at(
    trees: Seq<Tree>,
    base: int,
    k: int,
    bounds: Seq<Aabb>,
    indices: Seq<usize>,
)
    requires
        chain(trees, base, bounds, indices),
        0 <= k < trees.len(),
    ensures
        sound(trees[k], base + chain_size(trees.take(k)), bounds, indices),
        chain_size(trees.take(k + 1)) == chain_size(trees.take(k)) + trees[k].size(),
        trees[k].size() >= 1,
        chain_size(trees.take(k + 1)) + (trees.len() - k - 1) <= chain_size(trees),
    decreases trees.len(),
{
    assert(trees.take(k + 1).drop_last() =~= trees.take(k));
    if k < trees.len() - 1 {
        lemma_chain_at(trees.drop_last(), base, k, bounds, indices);
        assert(trees.drop_last().take(k) =~= trees.take(k));
        assert(trees.drop_last().take(k + 1) =~= trees.take(k + 1));
        lemma_sizes(trees.last(), base + chain_size(trees.drop_last()));
    } else {
        assert(trees.drop_last() =~= trees.take(k));
        assert(trees.take(k + 1) =~= trees);
        lemma_sizes(trees[k], base + chain_size(trees.take(k)));
    }
}

/// What the search for the children of a wide node keeps: every slot is a subtree of `t`, smaller
/// than it unless `t` is a leaf, and together they hold what `t` holds.
spec fn children_ok(
    nodes: Seq<BvhNode>,
    cnt: Seq<u32>,
    slots: Seq<usize>,
    trees: Seq<Tree>,
    t: Tree,
    base: int,
    bounds: Seq<Aabb>,
    indices: Seq<usize>,
) -> bool {
    &&& slots.len() == trees.len()
    &&& 1 <= slots.len() <= WIDE_WIDTH
    &&& t is Fork ==> slots.len() >= 2
    &&& chain(trees, base, bounds, indices)
    &&& chain_size(trees) == t.size()
    &&& forall|k: int|
        0 <= k < trees.len() ==> {
            &&& placed(nodes, slots[k] as int, #[trigger] trees[k])
            &&& counted(cnt, slots[k] as int, trees[k])
            &&& trees[k] is Fork ==> trees[k].nodes() < t.nodes()
        }
}

/// The number of the heaviest inner child among `slots`.
fn heaviest_slot<W: Fn(Aabb, u32) -> Option<u64>>(
    nodes: &Vec<BvhNode>,
    cnt: &Vec<u32>,
    weight: &W,
    slots: &Vec<usize>,
    Ghost(trees): Ghost<Seq<Tree>>,
    Ghost(t): Ghost<Tree>,
    Ghost(base): Ghost<int>,
    Ghost(bounds): Ghost<Seq<Aabb>>,
    Ghost(indices): Ghost<Seq<usize>>,
) -> (r: (Option<usize>, Ghost<Seq<Option<u64>>>))
    requires
        forall|b: Aabb, n: u32| #[trigger] weight.requires((b, n)),
        nodes@.len() <= i32::MAX,
        cnt@.len() == nodes@.len(),
        children_ok(nodes@, cnt@, slots@, trees, t, base, bounds, indices),
    ensures
        weighed(*weight, trees, r.1@),
        heaviest(trees, r.1@, trees.len() as int) == (match r.0 {
            None => -1,
            Some(k) => k as int,
        }),
        r.0 matches Some(k) ==> k < trees.len() && trees[k as int] is Fork,
{
    let mut best: Option<(usize, Option<u64>)> = None;
    let ghost mut weights: Seq<Option<u64>> = Seq::empty();
    let mut k: usize = 0;
    while k < slots.len()
        invariant
            k <= slots@.len(),
            forall|b: Aabb, n: u32| #[trigger] weight.requires((b, n)),
            nodes@.len() <= i32::MAX,
            cnt@.len() == nodes@.len(),
            children_ok(nodes@, cnt@, slots@, trees, t, base, bounds, indices),
            weights.len() == k,
            weighed(*weight, trees.take(k as int), weights),
            match best {
                None => heaviest(trees, weights, k as int) == -1,
                Some((j, c)) => heaviest(trees, weights, k as int) == j && j < k
                    && trees[j as int] is Fork && weights[j as int] == c,
            },
        decreases slots@.len() - k,
    {
        let s: usize = slots[k];
        proof {
            assert(placed(nodes@, s as int, trees[k as int]));
            lemma_placed_children(nodes@, s as int, trees[k as int]);
        }
        let ghost before = weights;
        if nodes[s].left != -1 {
            let c: Option<u64> = weight(nodes[s].bbox, cnt[s]);
            let better: bool = match best {
                None => true,
                Some((_, b)) => match (c, b) {
                    (Some(x), Some(y)) => x > y,
                    _ => false,
                },
            };
            if better {
                best = Some((k, c));
            }
            proof {
                weights = weights.push(c);
            }
        } else {
            proof {
                weights = weights.push(None);
            }
        }
        proof {
            lemma_heaviest_frame(trees, before, weights, k as int);
            assert(weighed(*weight, trees.take(k + 1), weights)) by {
                assert forall|j: int| 0 <= j < trees.take(k + 1).len() && trees.take(
                    k + 1,
                )[j] is Fork implies weight.ensures(
                    (trees.take(k + 1)[j].bbox(), trees.take(k + 1)[j].size() as u32),
                    #[trigger] weights[j],
                ) by {
                    if j < k {
                        assert(weights[j] == before[j]);
                        assert(trees.take(k as int)[j] == trees[j]);
                    } else {
                        assert(trees.take(k + 1)[j] == trees[k as int]);
                    }
                }
            }
        }
        k += 1;
    }
    proof {
        assert(trees.take(k as int) =~= trees);
    }
    match best {
        None => (None, Ghost(weights)),
        Some((j, _)) => (Some(j), Ghost(weights)),
    }
}

proof fn lemma_heaviest_frame(
    trees: Seq<Tree>,
    a: Seq<Option<u64>>,
    b: Seq<Option<u64>>,
    n: int,
)
    requires
        0 <= n <= a.len(),
        a.len() <= b.len(),
        forall|i: int| 0 <= i < a.len() ==> a[i] == b[i],
    ensures
        heaviest(trees, a, n) == heaviest(trees, b, n),
        -1 <= heaviest(trees, a, n) < n || n == 0,
    decreases n,
{
    if n > 0 {
        lemma_heaviest_frame(trees, a, b, n - 1);
    }
}

/// The children of a wide node over the tree at `root`, as numbers of binary nodes.
fn widen<W: Fn(Aabb, u32) -> Option<u64>>(
    nodes: &Vec<BvhNode>,
    cnt: &Vec<u32>,
    weight: &W,
    root: usize,
    Ghost(t): Ghost<Tree>,
    Ghost(base): Ghost<int>,
    Ghost(bounds): Ghost<Seq<Aabb>>,
    Ghost(indices): Ghost<Seq<usize>>,
) -> (r: (Vec<usize>, Ghost<Seq<Tree>>))
    requires
        forall|b: Aabb, n: u32| #[trigger] weight.requires((b, n)),
        nodes@.len() <= i32::MAX,
        cnt@.len() == nodes@.len(),
        placed(nodes@, root as int, t),
        counted(cnt@, root as int, t),
        sound(t, base, bounds, indices),
    ensures
        children_ok(nodes@, cnt@, r.0@, r.1@, t, base, bounds, indices),
        widened(*weight, first_children(t), r.1@),
{
    proof {
        lemma_placed_children(nodes@, root as int, t);
    }
    let mut slots: Vec<usize> = Vec::new();
    let ghost mut trees: Seq<Tree> = first_children(t);
    if nodes[root].left == -1 {
        slots.push(root);
        proof {
            lemma_chain_two(t, t, base, bounds, indices);
        }
    } else {
        slots.push(nodes[root].left as usize);
        slots.push(nodes[root].right as usize);
        proof {
            lemma_chain_two(left_of(t), right_of(t), base, bounds, indices);
            lemma_sound_children(t, base, bounds, indices);
        }
    }
    let ghost first = trees;
    assert(children_ok(nodes@, cnt@, slots@, trees, t, base, bounds, indices));
    let mut go: bool = true;
    while go
        invariant
            forall|b: Aabb, n: u32| #[trigger] weight.requires((b, n)),
            nodes@.len() <= i32::MAX,
            cnt@.len() == nodes@.len(),
            children_ok(nodes@, cnt@, slots@, trees, t, base, bounds, indices),
            go ==> forall|done: Seq<Tree>| #[trigger]
                widened(*weight, trees, done) ==> widened(*weight, first, done),
            !go ==> widened(*weight, first, trees),
        decreases (if go {
            1int
        } else {
            0
        }) + WIDE_WIDTH - slots@.len(),
    {
        if slots.len() >= WIDE_WIDTH {
            assert(widened(*weight, trees, trees));
            go = false;
        } else {
            let (best, Ghost(weights)) = heaviest_slot(
                nodes,
                cnt,
                weight,
                &slots,
                Ghost(trees),
                Ghost(t),
                Ghost(base),
                Ghost(bounds),
                Ghost(indices),
            );
            match best {
                None => {
                    assert(widened(*weight, trees, trees)) by {
                        assert(weighed(*weight, trees, weights));
                    }
                    go = false;
                },
                Some(k) => {
                    let ghost old_slots = slots@;
                    let ghost old_trees = trees;
                    proof {
                        assert(placed(nodes@, slots@[k as int] as int, trees[k as int]));
                        lemma_placed_children(
                            nodes@,
                            slots@[k as int] as int,
                            trees[k as int],
                        );
                        lemma_chain_opened(trees, k as int, base, bounds, indices);
                        trees = opened(trees, k as int);
                    }
                    let n: BvhNode = nodes[slots[k]];
                    slots.set(k, n.left as usize);
                    slots.insert(k + 1, n.right as usize);
                    proof {
                        assert forall|j: int| 0 <= j < trees.len() implies {
                            &&& placed(nodes@, slots@[j] as int, #[trigger] trees[j])
                            &&& counted(cnt@, slots@[j] as int, trees[j])
                            &&& trees[j] is Fork ==> trees[j].nodes() < t.nodes()
                        } by {
                            if j < k {
                                assert(trees[j] == old_trees[j] && slots@[j] == old_slots[j]);
                            } else if j > k + 1 {
                                assert(trees[j] == old_trees[j - 1] && slots@[j] == old_slots[j
                                    - 1]);
                            } else {
                                assert(old_trees[k as int].nodes() < t.nodes());
                            }
                        }
                        assert forall|done: Seq<Tree>| #[trigger]
                            widened(*weight, trees, done) implies widened(
                            *weight,
                            first,
                            done,
                        ) by {
                            assert(weighed(*weight, old_trees, weights));
                            assert(widened(*weight, old_trees, done));
                        }
                    }
                },
            }
        }
    }
    (slots, Ghost(trees))
}

proof fn lemma_positions_frame(a: Seq<WideNode>, b: Seq<WideNode>, w: int, k: int)
    requires
        0 <= w < a.len() <= b.len(),
        0 <= k <= a[w].slots@.len(),
        forall|i: int| w <= i < a.len() ==> a[i] == b[i],
        forall|i: int| w <= i < a.len() ==> #[trigger] linked(a, i, a.len() as int),
    ensures
        positions(a, w, k) == positions(b, w, k),
    decreases a.len() - w, k,
{
    if k > 0 {
        lemma_positions_frame(a, b, w, k - 1);
        let s = a[w].slots@[k - 1];
        assert(linked(a, w, a.len() as int));
        if s.count == 0 {
            lemma_positions_frame(
                a,
                b,
                s.child as int,
                a[s.child as int].slots@.len() as int,
            );
        }
    }
}

proof fn lemma_folded_frame<W: Fn(Aabb, u32) -> Option<u64>>(
    weight: W,
    t: Tree,
    a: Seq<WideNode>,
    b: Seq<WideNode>,
    w: int,
)
    requires
        folded(weight, t, a, w),
        a.len() <= b.len(),
        forall|i: int| w <= i < a.len() ==> a[i] == b[i],
    ensures
        folded(weight, t, b, w),
    decreases t.nodes(),
{
    let trees = choose|trees: Seq<Tree>| #[trigger]
        widened(weight, first_children(t), trees) && a[w].slots@.len() == trees.len()
            && forall|k: int|
            0 <= k < trees.len() ==> slot_for(
                weight,
                trees[k],
                a,
                w,
                #[trigger] a[w].slots@[k],
                t.nodes(),
            );
    assert forall|k: int| 0 <= k < trees.len() implies slot_for(
        weight,
        trees[k],
        b,
        w,
        #[trigger] b[w].slots@[k],
        t.nodes(),
    ) by {
        let s = a[w].slots@[k];
        assert(slot_for(weight, trees[k], a, w, s, t.nodes()));
        if trees[k] is Fork {
            lemma_folded_frame(weight, trees[k], a, b, s.child as int);
        }
    }
}

/// Slot `s` of node `w` stands for the tree `t` over the positions from `base` on.
spec fn slot_made<W: Fn(Aabb, u32) -> Option<u64>>(
    weight: W,
    wide: Seq<WideNode>,
    w: int,
    s: WideSlot,
    t: Tree,
    base: int,
    limit: int,
) -> bool {
    &&& slot_for(weight, t, wide, w, s, limit)
    &&& s.count <= LEAF_SIZE
    &&& s.count > 0 || w < s.child < wide.len()
    &&& slot_positions(wide, w, s) == run(base, base + t.size())
}

proof fn lemma_slot_made_frame<W: Fn(Aabb, u32) -> Option<u64>>(
    weight: W,
    a: Seq<WideNode>,
    b: Seq<WideNode>,
    w: int,
    s: WideSlot,
    t: Tree,
    base: int,
    limit: int,
)
    requires
        0 <= w,
        slot_made(weight, a, w, s, t, base, limit),
        a.len() <= b.len(),
        forall|i: int| w < i < a.len() ==> a[i] == b[i],
        forall|i: int| w < i < a.len() ==> #[trigger] linked(a, i, a.len() as int),
    ensures
        slot_made(weight, b, w, s, t, base, limit),
{
    if t is Fork {
        lemma_folded_frame(weight, t, a, b, s.child as int);
    }
    if s.count == 0 {
        lemma_positions_frame(a, b, s.child as int, a[s.child as int].slots@.len() as int);
    }
}

/// The positions below the first `k` slots of a node are those of the trees that they stand for.
proof fn lemma_positions_made<W: Fn(Aabb, u32) -> Option<u64>>(
    weight: W,
    wide: Seq<WideNode>,
    w: int,
    trees: Seq<Tree>,
    base: int,
    limit: int,
    k: int,
    bounds: Seq<Aabb>,
    indices: Seq<usize>,
)
    requires
        0 <= w < wide.len(),
        0 <= k <= trees.len(),
        wide[w].slots@.len() == trees.len(),
        chain(trees, base, bounds, indices),
        forall|j: int|
            0 <= j < trees.len() ==> slot_made(
                weight,
                wide,
                w,
                #[trigger] wide[w].slots@[j],
                trees[j],
                base + chain_size(trees.take(j)),
                limit,
            ),
    ensures
        positions(wide, w, k) == run(base, base + chain_size(trees.take(k))),
        0 <= chain_size(trees.take(k)),
    decreases k,
{
    if k == 0 {
        assert(trees.take(0) =~= Seq::<Tree>::empty());
        assert(run(base, base + 0) =~= Seq::<int>::empty());
    } else {
        lemma_positions_made(weight, wide, w, trees, base, limit, k - 1, bounds, indices);
        lemma_chain_at(trees, base, k - 1, bounds, indices);
        let s = wide[w].slots@[k - 1];
        assert(slot_made(
            weight,
            wide,
            w,
            s,
            trees[k - 1],
            base + chain_size(trees.take(k - 1)),
            limit,
        ));
        assert(positions(wide, w, k) == positions(wide, w, k - 1) + slot_positions(wide, w, s));
        assert(positions(wide, w, k) =~= run(base, base + chain_size(trees.take(k))));
    }
}

proof fn lemma_slots_bounded_frame(
    a: Seq<WideNode>,
    b: Seq<WideNode>,
    i: int,
    bounds: Seq<Aabb>,
    indices: Seq<usize>,
)
    requires
        0 <= i < a.len() <= b.len(),
        slots_bounded(a, i, bounds, indices),
        forall|j: int| i <= j < a.len() ==> a[j] == b[j],
        forall|j: int| i <= j < a.len() ==> #[trigger] linked(a, j, a.len() as int),
    ensures
        slots_bounded(b, i, bounds, indices),
{
    assert forall|k: int, q: int|
        0 <= k < b[i].slots@.len() && #[trigger] slot_positions(
            b,
            i,
            #[trigger] b[i].slots@[k],
        ).contains(q) implies 0 <= q < indices.len() && b[i].slots@[k].bbox.holds(
        bounds[indices[q] as int],
    ) by {
        let s = a[i].slots@[k];
        assert(linked(a, i, a.len() as int));
        if s.count == 0 {
            lemma_positions_frame(a, b, s.child as int, a[s.child as int].slots@.len() as int);
        }
        assert(slot_positions(a, i, s) == slot_positions(b, i, s));
        assert(slot_positions(a, i, a[i].slots@[k]).contains(q));
    }
    assert forall|k: int| 0 <= k < b[i].slots@.len() implies hull(bounds, indices).holds(
        (#[trigger] b[i].slots@[k]).bbox,
    ) by {
        assert(hull(bounds, indices).holds(a[i].slots@[k].bbox));
    }
    lemma_positions_frame(a, b, i, a[i].slots@.len() as int);
}

/// What the nodes from `w` on keep: they are linked among themselves, and their boxes hold.
spec fn nodes_ok(wide: Seq<WideNode>, w: int, bounds: Seq<Aabb>, indices: Seq<usize>) -> bool {
    &&& forall|i: int| w <= i < wide.len() ==> #[trigger] linked(wide, i, wide.len() as int)
    &&& forall|i: int| w <= i < wide.len() ==> #[trigger] slots_bounded(wide, i, bounds, indices)
}

/// Folds the tree at `root` into wide nodes at the end of `out`, and returns the number of its
/// root.
fn emit<W: Fn(Aabb, u32) -> Option<u64>>(
    nodes: &Vec<BvhNode>,
    cnt: &Vec<u32>,
    weight: &W,
    out: &mut Vec<WideNode>,
    root: usize,
    Ghost(t): Ghost<Tree>,
    Ghost(base): Ghost<int>,
    Ghost(bounds): Ghost<Seq<Aabb>>,
    Ghost(indices): Ghost<Seq<usize>>,
) -> (w: usize)
    requires
        forall|b: Aabb, n: u32| #[trigger] weight.requires((b, n)),
        nodes@.len() <= i32::MAX,
        cnt@.len() == nodes@.len(),
        placed(nodes@, root as int, t),
        counted(cnt@, root as int, t),
        sound(t, base, bounds, indices),
        indices.len() <= MAX_PRIMITIVES,
        old(out)@.len() + t.size() <= MAX_PRIMITIVES + 1,
    ensures
        w == old(out)@.len(),
        w < final(out)@.len(),
        final(out)@.len() <= old(out)@.len() + (if t is Fork {
            t.size() - 1
        } else {
            1
        }),
        forall|i: int| 0 <= i < old(out)@.len() ==> final(out)@[i] == old(out)@[i],
        nodes_ok(final(out)@, w as int, bounds, indices),
        node_positions(final(out)@, w as int) == run(base, base + t.size()),
        folded(*weight, t, final(out)@, w as int),
        forall|i: int|
            w < i < final(out)@.len() ==> #[trigger] one_parent(
                slot_table(final(out)@),
                w as int,
                i,
            ),
    decreases t.nodes(),
{
    let (slots, Ghost(trees)) = widen(
        nodes,
        cnt,
        weight,
        root,
        Ghost(t),
        Ghost(base),
        Ghost(bounds),
        Ghost(indices),
    );
    let w: usize = out.len();
    let ghost start = out@;
    out.push(WideNode { slots: Vec::new() });
    let mut made: Vec<WideSlot> = Vec::new();
    let mut k: usize = 0;
    proof {
        lemma_sizes(t, base);
        assert(trees.take(0) =~= Seq::<Tree>::empty());
    }
    while k < slots.len()
        invariant
            forall|b: Aabb, n: u32| #[trigger] weight.requires((b, n)),
            nodes@.len() <= i32::MAX,
            cnt@.len() == nodes@.len(),
            children_ok(nodes@, cnt@, slots@, trees, t, base, bounds, indices),
            sound(t, base, bounds, indices),
            indices.len() <= MAX_PRIMITIVES,
            start.len() + t.size() <= MAX_PRIMITIVES + 1,
            k <= slots@.len(),
            w == start.len(),
            w < out@.len(),
            out@.len() <= w + 1 + chain_size(trees.take(k as int)) - k,
            t is Leaf ==> out@.len() == w + 1,
            forall|i: int| 0 <= i < w ==> out@[i] == start[i],
            nodes_ok(out@, w + 1, bounds, indices),
            made@.len() == k,
            forall|j: int|
                0 <= j < k ==> slot_made(
                    *weight,
                    out@,
                    w as int,
                    #[trigger] made@[j],
                    trees[j],
                    base + chain_size(trees.take(j)),
                    t.nodes(),
                ),
            forall|i: int|
                w < i < out@.len() ==> #[trigger] one_parent(
                    slot_table(out@).update(w as int, made@),
                    w as int,
                    i,
                ),
        decreases slots@.len() - k,
    {
        let s: usize = slots[k];
        let ghost made0 = made@;
        let ghost tk = trees[k as int];
        let ghost bk = base + chain_size(trees.take(k as int));
        proof {
            assert(placed(nodes@, s as int, trees[k as int]));
            lemma_placed_children(nodes@, s as int, tk);
            lemma_chain_at(trees, base, k as int, bounds, indices);
        }
        let bbox: Aabb = nodes[s].bbox;
        let ghost before = out@;
        if nodes[s].left == -1 {
            let slot = WideSlot { bbox, child: nodes[s].start, count: nodes[s].count as u8 };
            made.push(slot);
            proof {
                assert(slot_positions(out@, w as int, slot) =~= run(bk, bk + tk.size()));
                lemma_leaf_added(slot_table(out@), w as int, made0, slot);
            }
        } else {
            let ghost size_before = chain_size(trees.take(k as int));
            let c: usize = emit(
                nodes,
                cnt,
                weight,
                out,
                s,
                Ghost(tk),
                Ghost(bk),
                Ghost(bounds),
                Ghost(indices),
            );
            let slot = WideSlot { bbox, child: c as u32, count: 0 };
            made.push(slot);
            proof {
                assert forall|j: int| 0 <= j < k implies slot_made(
                    *weight,
                    out@,
                    w as int,
                    #[trigger] made@[j],
                    trees[j],
                    base + chain_size(trees.take(j)),
                    t.nodes(),
                ) by {
                    lemma_slot_made_frame(
                        *weight,
                        before,
                        out@,
                        w as int,
                        made@[j],
                        trees[j],
                        base + chain_size(trees.take(j)),
                        t.nodes(),
                    );
                }
                assert(slot_made(*weight, out@, w as int, slot, tk, bk, t.nodes()));
                assert forall|i: int| w + 1 <= i < out@.len() implies #[trigger] linked(
                    out@,
                    i,
                    out@.len() as int,
                ) by {
                    if i < before.len() {
                        assert(linked(before, i, before.len() as int));
                    }
                }
                assert forall|i: int| w + 1 <= i < out@.len() implies #[trigger] slots_bounded(
                    out@,
                    i,
                    bounds,
                    indices,
                ) by {
                    if i < before.len() {
                        lemma_slots_bounded_frame(before, out@, i, bounds, indices);
                    }
                }
                lemma_node_added(before, out@, w as int, made0, slot);
            }
        }
        k += 1;
    }
    let ghost before = out@;
    let ghost made0 = made@;
    out.set(w, WideNode { slots: made });
    proof {
        assert(trees.take(k as int) =~= trees);
        assert(slot_table(out@) =~= slot_table(before).update(w as int, made0));
        assert forall|j: int| 0 <= j < trees.len() implies slot_made(
            *weight,
            out@,
            w as int,
            #[trigger] out@[w as int].slots@[j],
            trees[j],
            base + chain_size(trees.take(j)),
            t.nodes(),
        ) by {
            assert(out@[w as int].slots@[j] == made@[j]);
            lemma_slot_made_frame(
                *weight,
                before,
                out@,
                w as int,
                made@[j],
                trees[j],
                base + chain_size(trees.take(j)),
                t.nodes(),
            );
        }
        lemma_positions_made(
            *weight,
            out@,
            w as int,
            trees,
            base,
            t.nodes(),
            trees.len() as int,
            bounds,
            indices,
        );
        assert(folded(*weight, t, out@, w as int)) by {
            assert(widened(*weight, first_children(t), trees));
        }
        lemma_root_bounded(*weight, out@, w as int, trees, base, t.nodes(), bounds, indices);
        assert forall|i: int| w <= i < out@.len() implies #[trigger] slots_bounded(
            out@,
            i,
            bounds,
            indices,
        ) by {
            if i > w {
                lemma_slots_bounded_frame(before, out@, i, bounds, indices);
            }
        }
        assert forall|i: int| w <= i < out@.len() implies #[trigger] linked(
            out@,
            i,
            out@.len() as int,
        ) by {
            if i > w {
                assert(linked(before, i, before.len() as int));
            }
        }
    }
    w
}

/// A leaf is no node's parent.
proof fn lemma_leaf_added(table: Seq<Seq<WideSlot>>, w: int, made: Seq<WideSlot>, slot: WideSlot)
    requires
        0 <= w < table.len(),
        slot.count > 0,
        forall|i: int|
            w < i < table.len() ==> #[trigger] one_parent(table.update(w, made), w, i),
    ensures
        forall|i: int|
            w < i < table.len() ==> #[trigger] one_parent(
                table.update(w, made.push(slot)),
                w,
                i,
            ),
{
    let a = table.update(w, made);
    let b = table.update(w, made.push(slot));
    assert forall|p: int, k: int, i: int| leads(b, p, k, i) == #[trigger] leads(a, p, k, i) by {
        if p == w && 0 <= k < made.len() {
            assert(b[w][k] == a[w][k]);
        }
    }
    assert forall|i: int| w < i < table.len() implies #[trigger] one_parent(b, w, i) by {
        assert(one_parent(a, w, i));
        let (p, k) = choose|p: int, k: int|
            w <= p && #[trigger] leads(a, p, k, i) && forall|p2: int, k2: int|
                w <= p2 && #[trigger] leads(a, p2, k2, i) ==> p2 == p && k2 == k;
        assert(leads(b, p, k, i));
        assert forall|p2: int, k2: int| w <= p2 && #[trigger] leads(b, p2, k2, i) implies p2 == p
            && k2 == k by {
            assert(leads(a, p2, k2, i));
        }
    }
}

/// A subtree behind the others, whose root one more slot of node `w` is, leaves every node with
/// one parent.
proof fn lemma_node_added(
    before: Seq<WideNode>,
    after: Seq<WideNode>,
    w: int,
    made: Seq<WideSlot>,
    slot: WideSlot,
)
    requires
        0 <= w < before.len() < after.len(),
        slot.count == 0,
        slot.child == before.len(),
        forall|i: int| 0 <= i < before.len() ==> after[i] == before[i],
        forall|i: int| w < i < before.len() ==> #[trigger] linked(before, i, before.len() as int),
        forall|i: int| w < i < after.len() ==> #[trigger] linked(after, i, after.len() as int),
        forall|j: int|
            0 <= j < made.len() && (#[trigger] made[j]).count == 0 ==> w < made[j].child
                < before.len(),
        forall|i: int|
            w < i < before.len() ==> #[trigger] one_parent(
                slot_table(before).update(w, made),
                w,
                i,
            ),
        forall|i: int|
            before.len() < i < after.len() ==> #[trigger] one_parent(
                slot_table(after),
                before.len() as int,
                i,
            ),
    ensures
        forall|i: int|
            w < i < after.len() ==> #[trigger] one_parent(
                slot_table(after).update(w, made.push(slot)),
                w,
                i,
            ),
{
    let c = before.len() as int;
    let a = slot_table(before).update(w, made);
    let m = slot_table(after);
    let b = m.update(w, made.push(slot));
    assert forall|p: int, k: int, i: int| w <= p && #[trigger] leads(b, p, k, i) implies (p == w && k
        == made.len() && i == c) || (p < c && leads(a, p, k, i) && i < c) || (p >= c && leads(
        m,
        p,
        k,
        i,
    ) && i > c) by {
        if p == w {
            if k < made.len() {
                assert(b[w][k] == made[k]);
                assert(made[k].count == 0);
            }
        } else {
            assert(b[p] == after[p].slots@);
            assert(linked(after, p, after.len() as int));
            assert(after[p].slots@[k].count == 0);
            if p < c {
                assert(linked(before, p, c));
                assert(before[p].slots@[k] == b[p][k]);
                assert(a[p] == before[p].slots@);
            }
        }
    }
    assert forall|i: int| w < i < after.len() implies #[trigger] one_parent(b, w, i) by {
        if i < c {
            assert(one_parent(a, w, i));
            let (p, k) = choose|p: int, k: int|
                w <= p && #[trigger] leads(a, p, k, i) && forall|p2: int, k2: int|
                    w <= p2 && #[trigger] leads(a, p2, k2, i) ==> p2 == p && k2 == k;
            if p == w {
                assert(b[w][k] == made[k]);
            } else {
                assert(a[p] == before[p].slots@ && b[p] == after[p].slots@);
            }
            assert(leads(b, p, k, i));
        } else if i == c {
            assert(b[w][made.len() as int] == slot);
            assert(leads(b, w, made.len() as int, i));
        } else {
            assert(one_parent(m, c, i));
            let (p, k) = choose|p: int, k: int|
                c <= p && #[trigger] leads(m, p, k, i) && forall|p2: int, k2: int|
                    c <= p2 && #[trigger] leads(m, p2, k2, i) ==> p2 == p && k2 == k;
            assert(b[p] == m[p]);
            assert(leads(b, p, k, i));
        }
    }
}

proof fn lemma_root_bounded<W: Fn(Aabb, u32) -> Option<u64>>(
    weight: W,
    wide: Seq<WideNode>,
    w: int,
    trees: Seq<Tree>,
    base: int,
    limit: int,
    bounds: Seq<Aabb>,
    indices: Seq<usize>,
)
    requires
        0 <= w < wide.len(),
        wide[w].slots@.len() == trees.len(),
        chain(trees, base, bounds, indices),
        forall|j: int|
            0 <= j < trees.len() ==> slot_made(
                weight,
                wide,
                w,
                #[trigger] wide[w].slots@[j],
                trees[j],
                base + chain_size(trees.take(j)),
                limit,
            ),
    ensures
        slots_bounded(wide, w, bounds, indices),
{
    lemma_positions_made(
        weight,
        wide,
        w,
        trees,
        base,
        limit,
        trees.len() as int,
        bounds,
        indices,
    );
    assert forall|k: int| 0 <= k < wide[w].slots@.len() implies hull(bounds, indices).holds(
        (#[trigger] wide[w].slots@[k]).bbox,
    ) by {
        let b = base + chain_size(trees.take(k));
        assert(slot_made(weight, wide, w, wide[w].slots@[k], trees[k], b, limit));
        lemma_chain_at(trees, base, k, bounds, indices);
        let items = indices.subrange(b, b + trees[k].size());
        assert forall|i: int| 0 <= i < items.len() implies indices.contains(
            #[trigger] items[i],
        ) by {
            assert(items[i] == indices[b + i]);
        }
        hull_holds_every_part(bounds, indices, items);
    }
    assert forall|k: int, q: int|
        0 <= k < wide[w].slots@.len() && #[trigger] slot_positions(
            wide,
            w,
            #[trigger] wide[w].slots@[k],
        ).contains(q) implies 0 <= q < indices.len() && wide[w].slots@[k].bbox.holds(
        bounds[indices[q] as int],
    ) by {
        let b = base + chain_size(trees.take(k));
        let s = wide[w].slots@[k];
        assert(slot_made(weight, wide, w, s, trees[k], b, limit));
        lemma_chain_at(trees, base, k, bounds, indices);
        let items = indices.subrange(b, b + trees[k].size());
        let i = run(b, b + trees[k].size()).index_of(q);
        assert(i == q - b);
        assert(items[i] == indices[q]);
        hull_holds_every_item(bounds, items, i);
    }
}

/// Folds a binary tree into wide nodes. `weight` estimates how costly a box with so many
/// primitives is, as a key that orders costs, if that is a number.
fn build_wide<W: Fn(Aabb, u32) -> Option<u64>>(
    nodes: &Vec<BvhNode>,
    weight: &W,
    Ghost(t): Ghost<Tree>,
    Ghost(bounds): Ghost<Seq<Aabb>>,
    Ghost(indices): Ghost<Seq<usize>>,
) -> (out: Vec<WideNode>)
    requires
        forall|b: Aabb, n: u32| #[trigger] weight.requires((b, n)),
        nodes@.len() <= i32::MAX,
        nodes@ == layout(t, 0),
        t.tiles(0),
        t.size() == indices.len(),
        t.bounded(bounds, indices),
        indices.len() <= MAX_PRIMITIVES,
    ensures
        out@.len() > 0,
        folded(*weight, t, out@, 0),
        forall|i: int| 0 <= i < out@.len() ==> #[trigger] linked(out@, i, out@.len() as int),
        forall|i: int| 0 <= i < out@.len() ==> #[trigger] slots_bounded(out@, i, bounds, indices),
        node_positions(out@, 0) == run(0, indices.len() as int),
        forall|i: int| 0 < i < out@.len() ==> #[trigger] one_parent(slot_table(out@), 0, i),
{
    proof {
        lemma_layout_len(t, 0);
        assert(nodes@.subrange(0, t.nodes()) =~= layout(t, 0));
        assert(indices.subrange(0, t.size()) =~= indices);
    }
    let mut cnt: Vec<u32> = Vec::new();
    let n: usize = nodes.len();
    let mut i: usize = 0;
    while i < n
        invariant
            i <= n,
            cnt@.len() == i,
        decreases n - i,
    {
        cnt.push(0);
        i += 1;
    }
    let _ = fill(nodes, &mut cnt, 0, Ghost(t), Ghost(0int));
    let mut out: Vec<WideNode> = Vec::new();
    let _ = emit(
        nodes,
        &cnt,
        weight,
        &mut out,
        0,
        Ghost(t),
        Ghost(0int),
        Ghost(bounds),
        Ghost(indices),
    );
    out
}

/// A bounding volume hierarchy: the wide tree, and the primitives in the order of its leaves.
pub struct Bvh {
    pub indices: Vec<usize>,
    pub wide: Vec<WideNode>,
    pub bounds: Option<Aabb>,
    /// The boxes of the primitives.
    pub boxes: Ghost<Seq<Aabb>>,
}

impl Bvh {
    /// Whether the nodes hold every position of the index array exactly once, in order, below
    /// boxes that hold the boxes of the primitives there, and every node but the first is the
    /// child of exactly one slot.
    pub open spec fn wf(&self) -> bool {
        let bounds = self.boxes@;
        &&& self.indices@.len() == bounds.len()
        &&& self.indices@.len() <= MAX_PRIMITIVES
        &&& self.indices@.no_duplicates()
        &&& forall|i: int| 0 <= i < self.indices@.len() ==> #[trigger] self.indices@[i] < bounds.len()
        &&& self.wide@.len() == 0 <==> bounds.len() == 0
        &&& forall|i: int|
            0 <= i < self.wide@.len() ==> #[trigger] linked(
                self.wide@,
                i,
                self.wide@.len() as int,
            )
        &&& forall|i: int|
            0 <= i < self.wide@.len() ==> #[trigger] slots_bounded(
                self.wide@,
                i,
                bounds,
                self.indices@,
            )
        &&& bounds.len() > 0 ==> node_positions(self.wide@, 0) == run(0, bounds.len() as int)
        &&& forall|i: int|
            0 < i < self.wide@.len() ==> #[trigger] one_parent(slot_table(self.wide@), 0, i)
        &&& self.bounds == (if bounds.len() == 0 {
            None::<Aabb>
        } else {
            Some(hull(bounds, all_items(bounds.len() as int)))
        })
    }

    /// The box around everything, if there is anything.
    pub fn root_bounds(&self) -> (r: Option<Aabb>)
        ensures
            r == self.bounds,
    {
        self.bounds
    }

    /// Builds the hierarchy over the boxes of primitives with so many threads: the binary tree,
    /// then folded.
    pub fn build_from_bounds<
        A: Fn(Aabb) -> usize + Sync,
        S: Fn(u64, u64) -> bool + Sync,
        B: Fn(u64, u64, u64) -> usize + Sync,
        C: Fn(Aabb, usize, Aabb, usize) -> Option<u64> + Sync,
        W: Fn(Aabb, u32) -> Option<u64>,
    >(
        bounds: &Vec<Aabb>,
        centroids: &Vec<Point>,
        threads: usize,
        m: &Metric<A, S, B, C>,
        weight: &W,
    ) -> (r: Bvh)
        requires
            total(*m),
            forall|b: Aabb, n: u32| #[trigger] weight.requires((b, n)),
            bounds@.len() == centroids@.len(),
            bounds@.len() <= MAX_PRIMITIVES,
            threads <= usize::MAX / 2 + 1,
        ensures
            r.wf(),
            r.boxes@ == bounds@,
            bounds@.len() > 0 ==> exists|t: Tree| #[trigger]
                built(
                    *m,
                    bounds@,
                    centroids@,
                    all_items(bounds@.len() as int),
                    0,
                    r.indices@,
                    t,
                ) && folded(*weight, t, r.wide@, 0),
    {
        let (nodes, indices) = build_binary(bounds, centroids, threads, m);
        proof {
            super::construct::leaves_hold_every_primitive_once(
                *m,
                bounds@,
                centroids@,
                nodes@,
                indices@,
            );
        }
        if nodes.len() == 0 {
            proof {
                if bounds@.len() > 0 {
                    let t = choose|t: Tree| #[trigger]
                        built(
                            *m,
                            bounds@,
                            centroids@,
                            all_items(bounds@.len() as int),
                            0,
                            indices@,
                            t,
                        ) && nodes@ == layout(t, 0);
                    lemma_layout_len(t, 0);
                }
            }
            return Bvh { indices, wide: Vec::new(), bounds: None, boxes: Ghost(bounds@) };
        }
        let ghost items = all_items(bounds@.len() as int);
        let ghost t = choose|t: Tree| #[trigger]
            built(*m, bounds@, centroids@, items, 0, indices@, t) && nodes@ == layout(t, 0);
        proof {
            lemma_built(*m, bounds@, centroids@, items, 0, indices@, t);
            lemma_layout_len(t, 0);
            super::construct::lemma_hull_of_shuffle(bounds@, items, indices@);
        }
        let wide = build_wide(&nodes, weight, Ghost(t), Ghost(bounds@), Ghost(indices@));
        let root: Aabb = nodes[0].bbox;
        Bvh { indices, wide, bounds: Some(root), boxes: Ghost(bounds@) }
    }
}

} // verus!
