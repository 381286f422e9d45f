//! A stable sort of positions by key.

use vstd::prelude::*;
use vstd::relations::{sorted_by, total_ordering};
use vstd::seq_lib::{lemma_multiset_commutative, lemma_sorted_unique};

verus! {

/// Whether position `a` may come before position `b`: by key, and by position among equals.
pub open spec fn before_by(keys: Seq<u64>) -> spec_fn(usize, usize) -> bool {
    |a: usize, b: usize|
        keys[a as int] < keys[b as int] || (keys[a as int] == keys[b as int] && a <= b)
}

/// The positions from `lo` up to `hi`.
pub open spec fn span(lo: int, hi: int) -> Seq<usize> {
    Seq::new((hi - lo) as nat, |i: int| (lo + i) as usize)
}

/// Whether `order` holds every position of `keys` once, sorted by key, equals in their order.
pub open spec fn stable_order(keys: Seq<u64>, order: Seq<usize>) -> bool {
    &&& sorted_by(order, before_by(keys))
    &&& order.to_multiset() == span(0, keys.len() as int).to_multiset()
}

pub proof fn lemma_before_by_total(keys: Seq<u64>)
    ensures
        total_ordering(before_by(keys)),
{
}

/// There is one stable order.
pub proof fn stable_order_is_unique(keys: Seq<u64>, a: Seq<usize>, b: Seq<usize>)
    requires
        stable_order(keys, a),
        stable_order(keys, b),
    ensures
        a == b,
{
    lemma_before_by_total(keys);
    lemma_sorted_unique(a, b, before_by(keys));
}

/// A stable order has one entry per position, each a position, none twice.
pub proof fn lemma_stable_order(keys: Seq<u64>, order: Seq<usize>)
    requires
        stable_order(keys, order),
        keys.len() <= usize::MAX,
    ensures
        order.len() == keys.len(),
        forall|i: int| 0 <= i < order.len() ==> #[trigger] order[i] < keys.len(),
        order.no_duplicates(),
{
    broadcast use vstd::seq_lib::group_to_multiset_ensures;

    let all = span(0, keys.len() as int);
    assert(order.len() == order.to_multiset().len());
    assert(all.len() == all.to_multiset().len());
    assert forall|i: int| 0 <= i < order.len() implies #[trigger] order[i] < keys.len() by {
        assert(order.contains(order[i]));
        assert(order.to_multiset().count(order[i]) > 0);
        assert(all.contains(order[i]));
    }
    assert(all.no_duplicates());
    all.lemma_multiset_has_no_duplicates();
    order.lemma_multiset_has_no_duplicates_conv();
}

/// Merges two sorted runs of positions.
fn merge(keys: &Vec<u64>, a: &Vec<usize>, b: &Vec<usize>) -> (r: Vec<usize>)
    requires
        sorted_by(a@, before_by(keys@)),
        sorted_by(b@, before_by(keys@)),
        forall|i: int| 0 <= i < a@.len() ==> #[trigger] a@[i] < keys@.len(),
        forall|i: int| 0 <= i < b@.len() ==> #[trigger] b@[i] < keys@.len(),
    ensures
        sorted_by(r@, before_by(keys@)),
        r@.to_multiset() == a@.to_multiset().add(b@.to_multiset()),
        forall|i: int| 0 <= i < r@.len() ==> #[trigger] r@[i] < keys@.len(),
{
    broadcast use vstd::seq_lib::group_to_multiset_ensures;

    let ghost leq = before_by(keys@);
    let mut r: Vec<usize> = Vec::new();
    let mut i: usize = 0;
    let mut j: usize = 0;
    proof {
        assert(a@.take(0) =~= Seq::<usize>::empty());
        assert(b@.take(0) =~= Seq::<usize>::empty());
        assert(r@.to_multiset() =~= a@.take(0).to_multiset().add(b@.take(0).to_multiset()));
    }
    while i < a.len() || j < b.len()
        invariant
            i <= a@.len(),
            j <= b@.len(),
            leq == before_by(keys@),
            sorted_by(a@, leq),
            sorted_by(b@, leq),
            forall|k: int| 0 <= k < a@.len() ==> #[trigger] a@[k] < keys@.len(),
            forall|k: int| 0 <= k < b@.len() ==> #[trigger] b@[k] < keys@.len(),
            forall|k: int| 0 <= k < r@.len() ==> #[trigger] r@[k] < keys@.len(),
            sorted_by(r@, leq),
            forall|k: int, l: int|
                0 <= k < r@.len() && i <= l < a@.len() ==> leq(#[trigger] r@[k], #[trigger] a@[l]),
            forall|k: int, l: int|
                0 <= k < r@.len() && j <= l < b@.len() ==> leq(#[trigger] r@[k], #[trigger] b@[l]),
            r@.to_multiset() == a@.take(i as int).to_multiset().add(
                b@.take(j as int).to_multiset(),
            ),
        decreases a@.len() - i + b@.len() - j,
    {
        let from_a: bool = if i >= a.len() {
            false
        } else if j >= b.len() {
            true
        } else {
            let p: usize = a[i];
            let q: usize = b[j];
            keys[p] < keys[q] || (keys[p] == keys[q] && p <= q)
        };
        let ghost r0 = r@;
        if from_a {
            let x: usize = a[i];
            r.push(x);
            proof {
                assert(a@.take(i + 1) =~= a@.take(i as int).push(x));
                r0.to_multiset_ensures();
                a@.take(i as int).to_multiset_ensures();
                assert(r@ == r0.push(x));
                assert(r@.to_multiset() =~= a@.take(i + 1).to_multiset().add(
                    b@.take(j as int).to_multiset(),
                ));
                assert forall|l: int| j <= l < b@.len() implies leq(x, #[trigger] b@[l]) by {
                    assert(leq(b@[j as int], b@[l]));
                }
            }
            i += 1;
        } else {
            let x: usize = b[j];
            r.push(x);
            proof {
                assert(b@.take(j + 1) =~= b@.take(j as int).push(x));
                r0.to_multiset_ensures();
                b@.take(j as int).to_multiset_ensures();
                assert(r@ == r0.push(x));
                assert(r@.to_multiset() =~= a@.take(i as int).to_multiset().add(
                    b@.take(j + 1).to_multiset(),
                ));
                assert forall|l: int| i <= l < a@.len() implies leq(x, #[trigger] a@[l]) by {
                    assert(leq(a@[i as int], a@[l]));
                }
            }
            j += 1;
        }
    }
    proof {
        assert(a@.take(i as int) =~= a@);
        assert(b@.take(j as int) =~= b@);
    }
    r
}

fn sort_span(keys: &Vec<u64>, lo: usize, hi: usize) -> (r: Vec<usize>)
    requires
        lo <= hi <= keys@.len(),
    ensures
        sorted_by(r@, before_by(keys@)),
        r@.to_multiset() == span(lo as int, hi as int).to_multiset(),
        forall|i: int| 0 <= i < r@.len() ==> #[trigger] r@[i] < keys@.len(),
    decreases hi - lo,
{
    if hi - lo <= 1 {
        let mut r: Vec<usize> = Vec::new();
        if lo < hi {
            r.push(lo);
        }
        assert(r@ =~= span(lo as int, hi as int));
        return r;
    }
    let mid: usize = lo + (hi - lo) / 2;
    let a = sort_span(keys, lo, mid);
    let b = sort_span(keys, mid, hi);
    proof {
        lemma_multiset_commutative(span(lo as int, mid as int), span(mid as int, hi as int));
        assert(span(lo as int, mid as int) + span(mid as int, hi as int) =~= span(
            lo as int,
            hi as int,
        ));
    }
    merge(keys, &a, &b)
}

/// The positions of `keys`, sorted by key, equals in their order.
pub fn sort_positions(keys: &Vec<u64>) -> (order: Vec<usize>)
    ensures
        stable_order(keys@, order@),
{
    sort_span(keys, 0, keys.len())
}

} // verus!
