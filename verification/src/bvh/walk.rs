//! Walking the hierarchy along a ray: nearest hit, any hit, and a walk that hands out primitives.
//!
//! The walk knows the ray only through the answers of the caller's functions, which speak of
//! distances along the ray as order keys. Where those answers fit together, the nearest hit is
//! the one with the least distance over all primitives and, among equal distances, the least
//! number: it does not depend on the order in which the nodes are visited.


use super::construct::{all_items, lemma_hull_of_shuffle};
use super::keys::Aabb;
use super::split::{hull, shuffled};
use super::wide::{
    linked, node_positions, positions, run, slot_positions, slots_bounded, Bvh, WideNode, WideSlot,
    WIDE_WIDTH,
};
use vstd::prelude::*;

verus! {

/// A child that is still to be visited, and the distance at which the ray enters its box.
#[derive(Clone, Copy)]
pub struct Entry {
    pub t0: u64,
    pub w: u32,
    pub slot: u32,
}

/// A walk in progress: the children still to be visited, the next one last, and the positions
/// left over of the leaf that is being visited.
pub struct Walk {
    pub stack: Vec<Entry>,
    pub next: u32,
    pub end: u32,
}

/// Whether `e` names a slot.
pub open spec fn entry_ok(wide: Seq<WideNode>, e: Entry) -> bool {
    e.w < wide.len() && e.slot < wide[e.w as int].slots@.len()
}

/// The slot that `e` names.
pub open spec fn entry_slot(wide: Seq<WideNode>, e: Entry) -> WideSlot {
    wide[e.w as int].slots@[e.slot as int]
}

/// The positions below `e`.
pub open spec fn entry_positions(wide: Seq<WideNode>, e: Entry) -> Seq<int> {
    slot_positions(wide, e.w as int, entry_slot(wide, e))
}

/// An upper bound on the steps that the nodes below a slot take.
pub open spec fn slot_steps(wide: Seq<WideNode>, w: int, k: int) -> int
    decreases wide.len() - w, k,
{
    if k <= 0 || w < 0 || w >= wide.len() || k > wide[w].slots@.len() {
        0
    } else {
        let s = wide[w].slots@[k - 1];
        1 + slot_steps(wide, w, k - 1) + (if s.count > 0 {
            s.count as int
        } else if w < s.child < wide.len() {
            slot_steps(wide, s.child as int, wide[s.child as int].slots@.len() as int)
        } else {
            0
        })
    }
}

/// An upper bound on the steps below `e`.
pub open spec fn entry_steps(wide: Seq<WideNode>, e: Entry) -> int {
    let s = entry_slot(wide, e);
    1 + (if s.count > 0 {
        s.count as int
    } else if e.w < s.child < wide.len() {
        slot_steps(wide, s.child as int, wide[s.child as int].slots@.len() as int)
    } else {
        0
    })
}

/// An upper bound on the steps below all of `stack`.
pub open spec fn stack_steps(wide: Seq<WideNode>, stack: Seq<Entry>) -> int
    decreases stack.len(),
{
    if stack.len() == 0 {
        0
    } else {
        stack_steps(wide, stack.drop_last()) + entry_steps(wide, stack.last())
    }
}

/// Whether position `q` may still come up at distance `t`: it is left over of the current leaf,
/// or below a child whose box the ray enters by then.
pub open spec fn awaits(wide: Seq<WideNode>, walk: Walk, q: int, t: u64) -> bool {
    ||| walk.next <= q < walk.end
    ||| exists|i: int|
        0 <= i < walk.stack@.len() && (#[trigger] walk.stack@[i]).t0 <= t && entry_positions(
            wide,
            walk.stack@[i],
        ).contains(q)
}

/// Whether position `q` is left over of the current leaf or below a child still to be visited.
pub open spec fn pends(wide: Seq<WideNode>, walk: Walk, q: int) -> bool {
    ||| walk.next <= q < walk.end
    ||| exists|i: int|
        0 <= i < walk.stack@.len() && entry_positions(wide, #[trigger] walk.stack@[i]).contains(q)
}

/// Whether primitive `p` may still be handed out.
pub open spec fn still_to_come(bvh: Bvh, walk: Walk, p: usize) -> bool {
    exists|q: int|
        0 <= q < bvh.indices@.len() && #[trigger] bvh.indices@[q] == p && pends(bvh.wide@, walk, q)
}

/// Whether no position is below both `a` and `b`.
pub open spec fn apart(wide: Seq<WideNode>, a: Entry, b: Entry) -> bool {
    forall|q: int| !(entry_positions(wide, a).contains(q) && entry_positions(wide, b).contains(q))
}

/// Whether `b` lies in the box around all of `bounds`.
pub open spec fn inside(bounds: Seq<Aabb>, b: Aabb) -> bool {
    hull(bounds, all_items(bounds.len() as int)).holds(b)
}

/// Whether the box test admits a primitive at distance `t`: it lets the ray into every box of the
/// hierarchy that holds the box of the primitive, at `t` or before.
pub open spec fn admitted<E: Fn(Aabb, u64) -> Option<u64>>(
    enter: E,
    bounds: Seq<Aabb>,
    prim: usize,
    t: u64,
    tmax: u64,
) -> bool {
    &&& t <= tmax
    &&& forall|b: Aabb, r: Option<u64>|
        b.holds(bounds[prim as int]) && inside(bounds, b) && #[trigger] enter.ensures((b, tmax), r)
            ==> (r matches Some(t0) && t0 <= t)
}

impl Walk {
    /// Whether everything on the stack is a slot, the current leaf lies in the index array, and no
    /// position is still to come twice.
    pub open spec fn wf(&self, bvh: &Bvh) -> bool {
        &&& forall|i: int|
            0 <= i < self.stack@.len() ==> entry_ok(bvh.wide@, #[trigger] self.stack@[i])
        &&& self.next <= self.end
        &&& self.next < self.end ==> self.end <= bvh.indices@.len()
        &&& forall|i: int, j: int|
            0 <= i < j < self.stack@.len() ==> apart(
                bvh.wide@,
                #[trigger] self.stack@[i],
                #[trigger] self.stack@[j],
            )
        &&& forall|i: int, q: int|
            0 <= i < self.stack@.len() && self.next <= q < self.end ==> !(#[trigger] entry_positions(
                bvh.wide@,
                self.stack@[i],
            ).contains(q))
    }

    /// An upper bound on the steps that are left.
    pub open spec fn steps(&self, bvh: &Bvh) -> int {
        stack_steps(bvh.wide@, self.stack@) + (self.end - self.next)
    }
}

proof fn lemma_steps_nonneg(wide: Seq<WideNode>, w: int, k: int)
    ensures
        slot_steps(wide, w, k) >= 0,
    decreases wide.len() - w, k,
{
    if !(k <= 0 || w < 0 || w >= wide.len() || k > wide[w].slots@.len()) {
        lemma_steps_nonneg(wide, w, k - 1);
        let s = wide[w].slots@[k - 1];
        if s.count == 0 && w < s.child < wide.len() {
            lemma_steps_nonneg(wide, s.child as int, wide[s.child as int].slots@.len() as int);
        }
    }
}

proof fn lemma_entry_steps(wide: Seq<WideNode>, e: Entry)
    ensures
        entry_steps(wide, e) >= 1,
{
    let s = entry_slot(wide, e);
    if s.count == 0 && e.w < s.child < wide.len() {
        lemma_steps_nonneg(wide, s.child as int, wide[s.child as int].slots@.len() as int);
    }
}

proof fn lemma_stack_steps(wide: Seq<WideNode>, stack: Seq<Entry>)
    ensures
        stack_steps(wide, stack) >= 0,
    decreases stack.len(),
{
    if stack.len() > 0 {
        lemma_stack_steps(wide, stack.drop_last());
        lemma_entry_steps(wide, stack.last());
    }
}

proof fn lemma_stack_steps_append(wide: Seq<WideNode>, a: Seq<Entry>, b: Seq<Entry>)
    ensures
        stack_steps(wide, a + b) == stack_steps(wide, a) + stack_steps(wide, b),
    decreases b.len(),
{
    if b.len() == 0 {
        assert(a + b =~= a);
    } else {
        assert((a + b).drop_last() =~= a + b.drop_last());
        lemma_stack_steps_append(wide, a, b.drop_last());
    }
}

/// Swapping two neighbours costs nothing.
proof fn lemma_stack_steps_swap(wide: Seq<WideNode>, a: Seq<Entry>, i: int)
    requires
        0 < i < a.len(),
    ensures
        stack_steps(wide, a.update(i - 1, a[i]).update(i, a[i - 1])) == stack_steps(wide, a),
{
    let b = a.update(i - 1, a[i]).update(i, a[i - 1]);
    let head = a.take(i - 1);
    let tail = a.skip(i + 1);
    let x = seq![a[i - 1], a[i]];
    let y = seq![a[i], a[i - 1]];
    assert(a =~= head + x + tail);
    assert(b =~= head + y + tail);
    lemma_stack_steps_append(wide, head + x, tail);
    lemma_stack_steps_append(wide, head, x);
    lemma_stack_steps_append(wide, head + y, tail);
    lemma_stack_steps_append(wide, head, y);
    reveal_with_fuel(stack_steps, 3);
    assert(x.drop_last() =~= seq![a[i - 1]] && y.drop_last() =~= seq![a[i]]);
    assert(seq![a[i]].drop_last() =~= Seq::<Entry>::empty());
    assert(seq![a[i - 1]].drop_last() =~= Seq::<Entry>::empty());
}

/// Whether the entries come farthest first.
pub open spec fn farthest_first(s: Seq<Entry>) -> bool {
    forall|i: int, j: int| 0 <= i < j < s.len() ==> (#[trigger] s[i]).t0 >= (#[trigger] s[j]).t0
}

/// Whether the entries name different slots.
spec fn slots_differ(s: Seq<Entry>) -> bool {
    forall|i: int, j: int|
        0 <= i < s.len() && 0 <= j < s.len() && i != j ==> (#[trigger] s[i]).slot != (
        #[trigger] s[j]).slot
}

/// Sorts a few entries, farthest first, equals in their order.
fn sort_entries(hits: &mut Vec<Entry>, Ghost(wide): Ghost<Seq<WideNode>>)
    ensures
        farthest_first(final(hits)@),
        final(hits)@.to_multiset() == old(hits)@.to_multiset(),
        final(hits)@.len() == old(hits)@.len(),
        slots_differ(old(hits)@) ==> slots_differ(final(hits)@),
        stack_steps(wide, final(hits)@) == stack_steps(wide, old(hits)@),
{
    let n: usize = hits.len();
    if n < 2 {
        return;
    }
    let mut a: usize = 1;
    while a < n
        invariant
            n == hits@.len(),
            n == old(hits)@.len(),
            1 <= a <= n,
            farthest_first(hits@.take(a as int)),
            hits@.to_multiset() == old(hits)@.to_multiset(),
            slots_differ(old(hits)@) ==> slots_differ(hits@),
            stack_steps(wide, hits@) == stack_steps(wide, old(hits)@),
        decreases n - a,
    {
        let mut b: usize = a;
        proof {
            let done = hits@.take(a as int);
            assert forall|i: int, j: int| 0 <= i < j < a implies (#[trigger] hits@[i]).t0 >= (
            #[trigger] hits@[j]).t0 by {
                assert(done[i] == hits@[i] && done[j] == hits@[j]);
            }
        }
        while b > 0 && hits[b - 1].t0 < hits[b].t0
            invariant
                n == hits@.len(),
                n == old(hits)@.len(),
                b <= a < n,
                hits@.to_multiset() == old(hits)@.to_multiset(),
                slots_differ(old(hits)@) ==> slots_differ(hits@),
                stack_steps(wide, hits@) == stack_steps(wide, old(hits)@),
                forall|i: int, j: int|
                    0 <= i < j <= a && i != b && j != b ==> (#[trigger] hits@[i]).t0 >= (
                    #[trigger] hits@[j]).t0,
                forall|j: int| b < j <= a ==> hits@[b as int].t0 >= (#[trigger] hits@[j]).t0,
            decreases b,
        {
            let x: Entry = hits[b - 1];
            let y: Entry = hits[b];
            let ghost before = hits@;
            hits.set(b - 1, y);
            hits.set(b, x);
            proof {
                lemma_stack_steps_swap(wide, before, b as int);
                lemma_swap_multiset(before, b as int);
            }
            b -= 1;
        }
        proof {
            assert forall|i: int, j: int| 0 <= i < j < hits@.take(a + 1).len() implies (
            #[trigger] hits@.take(a + 1)[i]).t0 >= (#[trigger] hits@.take(a + 1)[j]).t0 by {
                assert(hits@.take(a + 1)[i] == hits@[i] && hits@.take(a + 1)[j] == hits@[j]);
                if j == b {
                    if i < b - 1 {
                        assert(hits@[i].t0 >= hits@[b - 1].t0);
                    }
                }
            }
        }
        a += 1;
    }
    proof {
        assert(hits@.take(a as int) =~= hits@);
    }
}

proof fn lemma_swap_multiset(a: Seq<Entry>, i: int)
    requires
        0 < i < a.len(),
    ensures
        a.update(i - 1, a[i]).update(i, a[i - 1]).to_multiset() == a.to_multiset(),
{
    let b = a.update(i - 1, a[i]).update(i, a[i - 1]);
    let head = a.take(i - 1);
    let tail = a.skip(i + 1);
    let x = seq![a[i - 1]];
    let y = seq![a[i]];
    assert(a =~= head + (x + y) + tail);
    assert(b =~= head + (y + x) + tail);
    vstd::seq_lib::lemma_multiset_commutative(x, y);
    vstd::seq_lib::lemma_multiset_commutative(y, x);
    vstd::seq_lib::lemma_multiset_commutative(head, x + y);
    vstd::seq_lib::lemma_multiset_commutative(head, y + x);
    vstd::seq_lib::lemma_multiset_commutative(head + (x + y), tail);
    vstd::seq_lib::lemma_multiset_commutative(head + (y + x), tail);
    assert((x + y).to_multiset() =~= (y + x).to_multiset());
}

/// Where a position below a node stands among its slots.
proof fn lemma_position_slot(wide: Seq<WideNode>, w: int, k: int, q: int)
    requires
        0 <= w < wide.len(),
        0 <= k <= wide[w].slots@.len(),
        positions(wide, w, k).contains(q),
    ensures
        exists|j: int| 0 <= j < k && slot_positions(wide, w, #[trigger] wide[w].slots@[j]).contains(q),
    decreases k,
{
    if k > 0 {
        let s = wide[w].slots@[k - 1];
        let a = positions(wide, w, k - 1);
        let b = slot_positions(wide, w, s);
        assert(positions(wide, w, k) == a + b);
        let i = choose|i: int| 0 <= i < (a + b).len() && (a + b)[i] == q;
        if i < a.len() {
            assert(a[i] == q);
            lemma_position_slot(wide, w, k - 1, q);
        } else {
            assert(b[i - a.len()] == q);
            assert(slot_positions(wide, w, wide[w].slots@[k - 1]).contains(q));
        }
    }
}

/// What is below a slot is below its node.
proof fn lemma_slot_position(wide: Seq<WideNode>, w: int, k: int, j: int, q: int)
    requires
        0 <= w < wide.len(),
        0 <= j < k <= wide[w].slots@.len(),
        slot_positions(wide, w, wide[w].slots@[j]).contains(q),
    ensures
        positions(wide, w, k).contains(q),
    decreases k,
{
    let a = positions(wide, w, k - 1);
    let b = slot_positions(wide, w, wide[w].slots@[k - 1]);
    assert(positions(wide, w, k) == a + b);
    if j < k - 1 {
        lemma_slot_position(wide, w, k - 1, j, q);
        let i = a.index_of(q);
        assert((a + b)[i] == q);
    } else {
        let i = b.index_of(q);
        assert((a + b)[a.len() + i] == q);
    }
}

/// Two slots of a node have no position in common.
proof fn lemma_slots_apart(wide: Seq<WideNode>, w: int, k: int, i: int, j: int, q: int)
    requires
        0 <= w < wide.len(),
        0 <= i < j < k <= wide[w].slots@.len(),
        positions(wide, w, k).no_duplicates(),
        slot_positions(wide, w, wide[w].slots@[j]).contains(q),
    ensures
        !slot_positions(wide, w, wide[w].slots@[i]).contains(q),
    decreases k,
{
    let a = positions(wide, w, k - 1);
    let b = slot_positions(wide, w, wide[w].slots@[k - 1]);
    let all = positions(wide, w, k);
    assert(all == a + b);
    if j < k - 1 {
        assert(a.no_duplicates()) by {
            assert forall|x: int, y: int| 0 <= x < a.len() && 0 <= y < a.len() && x != y implies a[x]
                != a[y] by {
                assert(all[x] == a[x] && all[y] == a[y]);
            }
        }
        lemma_slots_apart(wide, w, k - 1, i, j, q);
    } else if slot_positions(wide, w, wide[w].slots@[i]).contains(q) {
        lemma_slot_position(wide, w, k - 1, i, q);
        let x = a.index_of(q);
        let y = b.index_of(q);
        assert(all[x] == q && all[a.len() + y] == q);
    }
}

impl Bvh {
    /// The box around the primitives in the order of the leaves is the box around all of them.
    proof fn lemma_order_hull(&self)
        requires
            self.wf(),
        ensures
            hull(self.boxes@, self.indices@) == hull(
                self.boxes@,
                all_items(self.boxes@.len() as int),
            ),
    {
        let all = all_items(self.boxes@.len() as int);
        assert(all.no_duplicates());
        assert(shuffled(all, self.indices@)) by {
            assert forall|k: int| 0 <= k < self.indices@.len() implies all.contains(
                #[trigger] self.indices@[k],
            ) by {
                assert(all[self.indices@[k] as int] == self.indices@[k]);
            }
        }
        lemma_hull_of_shuffle(self.boxes@, all, self.indices@);
    }

    /// The children of node `w` whose boxes the ray enters, farthest first.
    fn entered<E: Fn(Aabb, u64) -> Option<u64>>(
        &self,
        w: u32,
        enter: &E,
        tmax: u64,
    ) -> (hits: Vec<Entry>)
        requires
            self.wf(),
            w < self.wide@.len(),
            forall|b: Aabb, t: u64| #[trigger] enter.requires((b, t)),
        ensures
            farthest_first(hits@),
            forall|i: int|
                0 <= i < hits@.len() ==> entry_ok(self.wide@, #[trigger] hits@[i]) && hits@[i].w
                    == w && enter.ensures(
                    (entry_slot(self.wide@, hits@[i]).bbox, tmax),
                    Some(hits@[i].t0),
                ),
            forall|q: int, t: u64|
                node_positions(self.wide@, w as int).contains(q) && #[trigger] admitted(
                    *enter,
                    self.boxes@,
                    self.indices@[q],
                    t,
                    tmax,
                ) ==> exists|i: int|
                    0 <= i < hits@.len() && (#[trigger] hits@[i]).t0 <= t && entry_positions(
                        self.wide@,
                        hits@[i],
                    ).contains(q),
            stack_steps(self.wide@, hits@) <= slot_steps(
                self.wide@,
                w as int,
                self.wide@[w as int].slots@.len() as int,
            ),
            forall|i: int, j: int|
                0 <= i < j < hits@.len() ==> apart(
                    self.wide@,
                    #[trigger] hits@[i],
                    #[trigger] hits@[j],
                ),
            forall|i: int, q: int|
                0 <= i < hits@.len() && #[trigger] entry_positions(self.wide@, hits@[i]).contains(q)
                    ==> node_positions(self.wide@, w as int).contains(q),
    {
        let ghost wide = self.wide@;
        let mut hits: Vec<Entry> = Vec::new();
        let n: usize = self.wide[w as usize].slots.len();
        proof {
            assert(linked(wide, w as int, wide.len() as int));
            assert(slots_bounded(wide, w as int, self.boxes@, self.indices@));
            self.lemma_order_hull();
        }
        let mut k: usize = 0;
        while k < n
            invariant
                self.wf(),
                wide == self.wide@,
                w < wide.len(),
                forall|b: Aabb, t: u64| #[trigger] enter.requires((b, t)),
                n == wide[w as int].slots@.len(),
                n <= WIDE_WIDTH,
                slots_bounded(wide, w as int, self.boxes@, self.indices@),
                hull(self.boxes@, self.indices@) == hull(
                    self.boxes@,
                    all_items(self.boxes@.len() as int),
                ),
                k <= n,
                slots_differ(hits@),
                forall|i: int| 0 <= i < hits@.len() ==> (#[trigger] hits@[i]).slot < k,
                forall|i: int|
                    0 <= i < hits@.len() ==> entry_ok(wide, #[trigger] hits@[i]) && hits@[i].w == w
                        && enter.ensures(
                        (entry_slot(wide, hits@[i]).bbox, tmax),
                        Some(hits@[i].t0),
                    ),
                forall|j: int, q: int, t: u64|
                    0 <= j < k && #[trigger] slot_positions(
                        wide,
                        w as int,
                        wide[w as int].slots@[j],
                    ).contains(q) && #[trigger] admitted(
                        *enter,
                        self.boxes@,
                        self.indices@[q],
                        t,
                        tmax,
                    ) ==> exists|i: int|
                        0 <= i < hits@.len() && (#[trigger] hits@[i]).t0 <= t && entry_positions(
                            wide,
                            hits@[i],
                        ).contains(q),
                stack_steps(wide, hits@) <= slot_steps(wide, w as int, k as int),
            decreases n - k,
        {
            let slot: WideSlot = self.wide[w as usize].slots[k];
            let r: Option<u64> = enter(slot.bbox, tmax);
            let ghost before = hits@;
            match r {
                Some(t0) => {
                    let e = Entry { t0, w, slot: k as u32 };
                    hits.push(e);
                    proof {
                        assert(hits@.drop_last() =~= before);
                        assert(entry_slot(wide, e) == slot);
                    }
                },
                None => {
                    proof {
                        lemma_entry_steps(wide, Entry { t0: 0, w, slot: k as u32 });
                    }
                },
            }
            proof {
                assert forall|j: int, q: int, t: u64|
                    0 <= j < k + 1 && #[trigger] slot_positions(
                        wide,
                        w as int,
                        wide[w as int].slots@[j],
                    ).contains(q) && #[trigger] admitted(
                        *enter,
                        self.boxes@,
                        self.indices@[q],
                        t,
                        tmax,
                    ) implies exists|i: int|
                    0 <= i < hits@.len() && (#[trigger] hits@[i]).t0 <= t && entry_positions(
                        wide,
                        hits@[i],
                    ).contains(q) by {
                    if j < k {
                        let i = choose|i: int|
                            0 <= i < before.len() && (#[trigger] before[i]).t0 <= t
                                && entry_positions(wide, before[i]).contains(q);
                        assert(hits@[i] == before[i]);
                    } else {
                        assert(slot_positions(
                            wide,
                            w as int,
                            wide[w as int].slots@[j],
                        ).contains(q));
                        assert(slot.bbox.holds(self.boxes@[self.indices@[q] as int]));
                        assert(inside(self.boxes@, slot.bbox));
                        assert(enter.ensures((slot.bbox, tmax), r));
                        assert(hits@[hits@.len() - 1].t0 <= t);
                        assert(entry_positions(wide, hits@[hits@.len() - 1]).contains(q));
                    }
                }
            }
            k += 1;
        }
        let ghost before = hits@;
        sort_entries(&mut hits, Ghost(wide));
        proof {
            broadcast use vstd::seq_lib::group_to_multiset_ensures;

            assert forall|i: int| 0 <= i < hits@.len() implies exists|j: int|
                0 <= j < before.len() && before[j] == #[trigger] hits@[i] by {
                assert(hits@.contains(hits@[i]));
                assert(hits@.to_multiset().count(hits@[i]) > 0);
                assert(before.contains(hits@[i]));
            }
            assert forall|q: int, t: u64|
                node_positions(wide, w as int).contains(q) && #[trigger] admitted(
                    *enter,
                    self.boxes@,
                    self.indices@[q],
                    t,
                    tmax,
                ) implies exists|i: int|
                0 <= i < hits@.len() && (#[trigger] hits@[i]).t0 <= t && entry_positions(
                    wide,
                    hits@[i],
                ).contains(q) by {
                lemma_position_slot(wide, w as int, n as int, q);
                let j = choose|j: int|
                    0 <= j < n && slot_positions(
                        wide,
                        w as int,
                        #[trigger] wide[w as int].slots@[j],
                    ).contains(q);
                assert(slot_positions(wide, w as int, wide[w as int].slots@[j]).contains(q));
                let i = choose|i: int|
                    0 <= i < before.len() && (#[trigger] before[i]).t0 <= t && entry_positions(
                        wide,
                        before[i],
                    ).contains(q);
                assert(before.contains(before[i]));
                assert(before.to_multiset().count(before[i]) > 0);
                assert(hits@.contains(before[i]));
                let l = choose|l: int| 0 <= l < hits@.len() && hits@[l] == before[i];
                assert(hits@[l].t0 <= t);
            }
            assert forall|i: int, j: int| 0 <= i < j < hits@.len() implies apart(
                wide,
                #[trigger] hits@[i],
                #[trigger] hits@[j],
            ) by {
                let (a, b) = (hits@[i].slot as int, hits@[j].slot as int);
                assert forall|q: int| !(entry_positions(wide, hits@[i]).contains(q)
                    && entry_positions(wide, hits@[j]).contains(q)) by {
                    if entry_positions(wide, hits@[i]).contains(q) && entry_positions(
                        wide,
                        hits@[j],
                    ).contains(q) {
                        if a < b {
                            lemma_slots_apart(wide, w as int, n as int, a, b, q);
                        } else {
                            lemma_slots_apart(wide, w as int, n as int, b, a, q);
                        }
                    }
                }
            }
            assert forall|i: int, q: int|
                0 <= i < hits@.len() && #[trigger] entry_positions(wide, hits@[i]).contains(
                    q,
                ) implies node_positions(wide, w as int).contains(q) by {
                lemma_slot_position(wide, w as int, n as int, hits@[i].slot as int, q);
            }
        }
        hits
    }

    /// Starts a walk at the root: its children whose boxes the ray enters before `tmax`.
    pub fn start_walk<E: Fn(Aabb, u64) -> Option<u64>>(
        &self,
        enter: &E,
        tmax: u64,
    ) -> (walk: Walk)
        requires
            self.wf(),
            forall|b: Aabb, t: u64| #[trigger] enter.requires((b, t)),
        ensures
            walk.wf(self),
            forall|q: int, t: u64|
                0 <= q < self.indices@.len() && #[trigger] admitted(
                    *enter,
                    self.boxes@,
                    self.indices@[q],
                    t,
                    tmax,
                ) ==> awaits(self.wide@, walk, q, t),
    {
        if self.wide.len() == 0 {
            return Walk { stack: Vec::new(), next: 0, end: 0 };
        }
        let stack = self.entered(0, enter, tmax);
        let ghost first = stack@;
        let walk = Walk { stack, next: 0, end: 0 };
        proof {
            assert forall|q: int, t: u64|
                0 <= q < self.indices@.len() && #[trigger] admitted(
                    *enter,
                    self.boxes@,
                    self.indices@[q],
                    t,
                    tmax,
                ) implies awaits(self.wide@, walk, q, t) by {
                assert(run(0, self.boxes@.len() as int)[q] == q);
                assert(node_positions(self.wide@, 0).contains(q));
                let i = choose|i: int|
                    0 <= i < first.len() && (#[trigger] first[i]).t0 <= t && entry_positions(
                        self.wide@,
                        first[i],
                    ).contains(q);
                assert(walk.stack@[i] == first[i]);
            }
        }
        walk
    }

    /// The next primitive to test: the leaves are visited nearest box first, and boxes that the
    /// ray enters only beyond `tmax` are skipped.
    pub fn next_in_walk<E: Fn(Aabb, u64) -> Option<u64>>(
        &self,
        walk: &mut Walk,
        enter: &E,
        tmax: u64,
    ) -> (r: Option<usize>)
        requires
            self.wf(),
            old(walk).wf(self),
            forall|b: Aabb, t: u64| #[trigger] enter.requires((b, t)),
        ensures
            final(walk).wf(self),
            r is None ==> final(walk).stack@.len() == 0 && final(walk).next == final(walk).end,
            r matches Some(p) ==> p < self.boxes@.len() && final(walk).steps(self) < old(walk).steps(
                self,
            ) && final(walk).steps(self) >= 0,
            r matches Some(p) ==> still_to_come(*self, *old(walk), p) && !still_to_come(
                *self,
                *final(walk),
                p,
            ),
            forall|p: usize| #[trigger]
                still_to_come(*self, *final(walk), p) ==> still_to_come(*self, *old(walk), p),
            forall|q: int, t: u64|
                0 <= q < self.indices@.len() && #[trigger] awaits(self.wide@, *old(walk), q, t)
                    && admitted(*enter, self.boxes@, self.indices@[q], t, tmax) ==> r == Some(
                    self.indices@[q],
                ) || awaits(self.wide@, *final(walk), q, t),
    {
        let ghost wide = self.wide@;
        let ghost start = *walk;
        while walk.next == walk.end
            invariant
                self.wf(),
                wide == self.wide@,
                start == *old(walk),
                walk.wf(self),
                forall|b: Aabb, t: u64| #[trigger] enter.requires((b, t)),
                walk.steps(self) <= start.steps(self),
                forall|q: int| #[trigger] pends(wide, *walk, q) ==> pends(wide, start, q),
                forall|q: int, t: u64|
                    0 <= q < self.indices@.len() && #[trigger] awaits(wide, start, q, t)
                        && admitted(*enter, self.boxes@, self.indices@[q], t, tmax) ==> awaits(
                        wide,
                        *walk,
                        q,
                        t,
                    ),
            decreases walk.steps(self),
        {
            let ghost before = *walk;
            proof {
                lemma_stack_steps(wide, walk.stack@);
            }
            let e: Entry = match walk.stack.pop() {
                None => {
                    proof {
                        assert forall|q: int, t: u64|
                            0 <= q < self.indices@.len() && #[trigger] awaits(wide, start, q, t)
                                && admitted(
                                *enter,
                                self.boxes@,
                                self.indices@[q],
                                t,
                                tmax,
                            ) implies false by {
                            assert(awaits(wide, before, q, t));
                        }
                    }
                    return None;
                },
                Some(e) => e,
            };
            let ghost rest = walk.stack@;
            proof {
                assert(before.stack@.last() == e);
                assert(rest == before.stack@.drop_last());
                assert(entry_ok(wide, before.stack@[before.stack@.len() - 1]));
                lemma_entry_steps(wide, e);
                lemma_stack_steps(wide, rest);
                assert(linked(wide, e.w as int, wide.len() as int));
            }
            if e.t0 <= tmax {
                let slot: WideSlot = self.wide[e.w as usize].slots[e.slot as usize];
                if slot.count > 0 {
                    proof {
                        self.lemma_leaf_in_range(e);
                    }
                    walk.next = slot.child;
                    walk.end = slot.child + slot.count as u32;
                    proof {
                        assert forall|q: int| slot.child <= q < slot.child
                            + slot.count implies #[trigger] entry_positions(wide, e).contains(q) by {
                            assert(entry_positions(wide, e)[q - slot.child] == q);
                        }
                        assert forall|i: int, q: int|
                            0 <= i < rest.len() && walk.next <= q < walk.end implies !(
                        #[trigger] entry_positions(wide, walk.stack@[i]).contains(q)) by {
                            assert(apart(wide, before.stack@[i], before.stack@[rest.len() as int]));
                            assert(entry_positions(wide, e).contains(q));
                        }
                        assert forall|q: int, t: u64| #[trigger]
                            awaits(wide, before, q, t) implies awaits(wide, *walk, q, t) by {
                            lemma_awaits_popped(wide, before, *walk, q, t);
                            if e.t0 <= t && entry_positions(wide, e).contains(q) {
                                assert(slot.child <= q < slot.child + slot.count);
                            }
                        }
                    }
                } else {
                    let mut more: Vec<Entry> = self.entered(
                        slot.child,
                        enter,
                        tmax,
                    );
                    let ghost pushed = more@;
                    walk.stack.append(&mut more);
                    proof {
                        lemma_stack_steps_append(wide, rest, pushed);
                        assert forall|i: int| 0 <= i < walk.stack@.len() implies entry_ok(
                            wide,
                            #[trigger] walk.stack@[i],
                        ) by {
                            if i < rest.len() {
                                assert(walk.stack@[i] == before.stack@[i]);
                            } else {
                                assert(walk.stack@[i] == pushed[i - rest.len()]);
                            }
                        }
                        assert forall|i: int, q: int|
                            rest.len() <= i < walk.stack@.len() && #[trigger] entry_positions(
                                wide,
                                walk.stack@[i],
                            ).contains(q) implies entry_positions(wide, e).contains(q) by {
                            assert(walk.stack@[i] == pushed[i - rest.len()]);
                            assert(entry_positions(wide, pushed[i - rest.len()]).contains(q));
                        }
                        assert forall|i: int, j: int| 0 <= i < j < walk.stack@.len() implies apart(
                            wide,
                            #[trigger] walk.stack@[i],
                            #[trigger] walk.stack@[j],
                        ) by {
                            if i < rest.len() {
                                assert(walk.stack@[i] == before.stack@[i]);
                                assert(apart(
                                    wide,
                                    before.stack@[i],
                                    before.stack@[rest.len() as int],
                                ));
                                if j < rest.len() {
                                    assert(walk.stack@[j] == before.stack@[j]);
                                }
                            } else {
                                assert(walk.stack@[i] == pushed[i - rest.len()]);
                                assert(walk.stack@[j] == pushed[j - rest.len()]);
                            }
                        }
                        assert forall|q: int, t: u64|
                            0 <= q < self.indices@.len() && #[trigger] awaits(wide, before, q, t)
                                && admitted(
                                *enter,
                                self.boxes@,
                                self.indices@[q],
                                t,
                                tmax,
                            ) implies awaits(wide, *walk, q, t) by {
                            lemma_awaits_popped(wide, before, *walk, q, t);
                            if e.t0 <= t && entry_positions(wide, e).contains(q) {
                                assert(node_positions(wide, slot.child as int).contains(q));
                                let i = choose|i: int|
                                    0 <= i < pushed.len() && (#[trigger] pushed[i]).t0 <= t
                                        && entry_positions(wide, pushed[i]).contains(q);
                                assert(walk.stack@[rest.len() + i] == pushed[i]);
                            }
                        }
                    }
                }
            } else {
                proof {
                    assert forall|q: int, t: u64|
                        0 <= q < self.indices@.len() && #[trigger] awaits(wide, before, q, t)
                            && admitted(*enter, self.boxes@, self.indices@[q], t, tmax) implies awaits(
                        wide,
                        *walk,
                        q,
                        t,
                    ) by {
                        lemma_awaits_popped(wide, before, *walk, q, t);
                    }
                }
            }
            proof {
                lemma_stack_steps(wide, walk.stack@);
                assert forall|q: int| #[trigger] pends(wide, *walk, q) implies pends(
                    wide,
                    start,
                    q,
                ) by {
                    lemma_pends_popped(wide, before, *walk, q);
                    assert(pends(wide, before, q));
                }
            }
        }
        let ghost before = *walk;
        let at: u32 = walk.next;
        walk.next = at + 1;
        let p: usize = self.indices[at as usize];
        proof {
            lemma_stack_steps(wide, walk.stack@);
            assert(pends(wide, before, at as int));
            assert(still_to_come(*self, start, p));
            assert forall|q: int| #[trigger] pends(wide, *walk, q) implies pends(wide, start, q) && q
                != at by {
                if walk.next <= q < walk.end {
                } else {
                    let i = choose|i: int|
                        0 <= i < walk.stack@.len() && entry_positions(
                            wide,
                            #[trigger] walk.stack@[i],
                        ).contains(q);
                    assert(before.stack@[i] == walk.stack@[i]);
                    assert(entry_positions(wide, before.stack@[i]).contains(q));
                }
                assert(pends(wide, before, q));
            }
            assert forall|q: int, t: u64|
                0 <= q < self.indices@.len() && #[trigger] awaits(wide, start, q, t) && admitted(
                    *enter,
                    self.boxes@,
                    self.indices@[q],
                    t,
                    tmax,
                ) implies Some(p) == Some(self.indices@[q]) || awaits(wide, *walk, q, t) by {
                assert(awaits(wide, before, q, t));
                if !(before.next <= q < before.end) {
                    let i = choose|i: int|
                        0 <= i < before.stack@.len() && (#[trigger] before.stack@[i]).t0 <= t
                            && entry_positions(wide, before.stack@[i]).contains(q);
                    assert(walk.stack@[i] == before.stack@[i]);
                }
            }
        }
        Some(p)
    }

    /// A leaf lies inside the index array.
    proof fn lemma_leaf_in_range(&self, e: Entry)
        requires
            self.wf(),
            entry_ok(self.wide@, e),
            entry_slot(self.wide@, e).count > 0,
        ensures
            entry_slot(self.wide@, e).child + entry_slot(self.wide@, e).count
                <= self.indices@.len(),
    {
        let s = entry_slot(self.wide@, e);
        assert(slots_bounded(self.wide@, e.w as int, self.boxes@, self.indices@));
        let q = s.child + s.count - 1;
        assert(slot_positions(self.wide@, e.w as int, s)[s.count - 1] == q);
        assert(slot_positions(
            self.wide@,
            e.w as int,
            self.wide@[e.w as int].slots@[e.slot as int],
        ).contains(q));
    }
}

/// What is still to come after an entry was taken off the stack was so before, if nothing came in
/// for the entry but what was below it.
proof fn lemma_pends_popped(wide: Seq<WideNode>, before: Walk, after: Walk, q: int)
    requires
        before.stack@.len() > 0,
        after.stack@.len() >= before.stack@.len() - 1,
        forall|i: int|
            0 <= i < before.stack@.len() - 1 ==> after.stack@[i] == #[trigger] before.stack@[i],
        forall|i: int, x: int|
            before.stack@.len() - 1 <= i < after.stack@.len() && #[trigger] entry_positions(
                wide,
                after.stack@[i],
            ).contains(x) ==> entry_positions(wide, before.stack@.last()).contains(x),
        forall|x: int|
            after.next <= x < after.end ==> #[trigger] entry_positions(
                wide,
                before.stack@.last(),
            ).contains(x),
        pends(wide, after, q),
    ensures
        pends(wide, before, q),
{
    let last = before.stack@.len() - 1;
    assert(before.stack@[last] == before.stack@.last());
    if after.next <= q < after.end {
        assert(entry_positions(wide, before.stack@.last()).contains(q));
    } else {
        let i = choose|i: int|
            0 <= i < after.stack@.len() && entry_positions(
                wide,
                #[trigger] after.stack@[i],
            ).contains(q);
        if i < last {
            assert(after.stack@[i] == before.stack@[i]);
        } else {
            assert(entry_positions(wide, after.stack@[i]).contains(q));
        }
    }
}

/// What awaited before an entry was taken off the stack still awaits, or was below that entry.
proof fn lemma_awaits_popped(wide: Seq<WideNode>, before: Walk, after: Walk, q: int, t: u64)
    requires
        before.stack@.len() > 0,
        before.next == before.end,
        after.stack@.len() >= before.stack@.len() - 1,
        forall|i: int|
            0 <= i < before.stack@.len() - 1 ==> after.stack@[i] == #[trigger] before.stack@[i],
        awaits(wide, before, q, t),
    ensures
        awaits(wide, after, q, t) || (before.stack@.last().t0 <= t && entry_positions(
            wide,
            before.stack@.last(),
        ).contains(q)),
{
    let i = choose|i: int|
        0 <= i < before.stack@.len() && (#[trigger] before.stack@[i]).t0 <= t && entry_positions(
            wide,
            before.stack@[i],
        ).contains(q);
    if i < before.stack@.len() - 1 {
        assert(after.stack@[i] == before.stack@[i]);
    }
}

} // verus!
