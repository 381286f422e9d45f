//! Documents: the tree that is built is the tree that was written.

use crate::mitsuba::xml::{
    attached, element_of, good_attrs, growing, grown, tree, AttrModel, ErrorModel, EventModel,
    Growing, Node, TagModel,
};
use vstd::prelude::*;

verus! {

/// The tag that an element is written with.
pub open spec fn tag_for(n: Node) -> TagModel {
    TagModel {
        name: n.tag,
        attrs: n.attrs.map_values(|a: (Seq<char>, Seq<char>)| AttrModel::Good(a.0, a.1)),
    }
}

/// What an element is written as: its tag, its children in their order, and its end.
pub open spec fn written(n: Node) -> Seq<EventModel>
    decreases n, 0int,
{
    seq![EventModel::Start(tag_for(n))] + all_written(n.children) + seq![EventModel::End]
}

/// What elements are written as, one after the other.
pub open spec fn all_written(c: Seq<Node>) -> Seq<EventModel>
    decreases c, c.len(),
{
    if c.len() == 0 {
        Seq::empty()
    } else {
        all_written(c.drop_last()) + written(c.last())
    }
}

proof fn lemma_good(a: Seq<(Seq<char>, Seq<char>)>)
    ensures
        good_attrs(a.map_values(|a: (Seq<char>, Seq<char>)| AttrModel::Good(a.0, a.1))) == Ok::<
            Seq<(Seq<char>, Seq<char>)>,
            Seq<char>,
        >(a),
    decreases a.len(),
{
    let m = a.map_values(|a: (Seq<char>, Seq<char>)| AttrModel::Good(a.0, a.1));
    if a.len() > 0 {
        lemma_good(a.drop_last());
        assert(m.drop_last() =~= a.drop_last().map_values(
            |a: (Seq<char>, Seq<char>)| AttrModel::Good(a.0, a.1),
        ));
        assert(a.drop_last().push((a.last().0, a.last().1)) =~= a);
    } else {
        assert(a =~= Seq::empty());
    }
}

/// A tag is an element without children, with its attributes in their order.
pub proof fn tags_are_elements(n: Node)
    ensures
        element_of(tag_for(n)) == Ok::<Node, Seq<char>>(
            Node { tag: n.tag, attrs: n.attrs, children: Seq::empty() },
        ),
{
    lemma_good(n.attrs);
}

proof fn lemma_push(s: Seq<EventModel>, e: EventModel)
    ensures
        growing(s) is Ok ==> growing(s.push(e)) == grown(growing(s)->Ok_0, e),
{
    assert(s.push(e).drop_last() =~= s);
}

proof fn lemma_element(s: Seq<EventModel>, n: Node)
    requires
        growing(s) is Ok,
    ensures
        growing(s + written(n)) == Ok::<Growing, ErrorModel>(attached(growing(s)->Ok_0, n)),
    decreases n, 0int,
{
    let g = growing(s)->Ok_0;
    let start = EventModel::Start(tag_for(n));
    let bare = Node { tag: n.tag, attrs: n.attrs, children: Seq::empty() };
    tags_are_elements(n);
    lemma_push(s, start);
    let s1 = s.push(start);
    assert(growing(s1) == Ok::<Growing, ErrorModel>(
        Growing { open: g.open.push(bare), root: g.root },
    ));
    lemma_children(s1, g, bare, n.children);
    let s2 = s1 + all_written(n.children);
    lemma_push(s2, EventModel::End);
    assert(s + written(n) =~= s2.push(EventModel::End));
    let full = Growing {
        open: g.open.push(Node { children: bare.children + n.children, ..bare }),
        root: g.root,
    };
    assert(bare.children + n.children =~= n.children);
    assert(full.open.last() == n);
    assert(full.open.drop_last() =~= g.open);
}

proof fn lemma_children(s: Seq<EventModel>, g: Growing, p: Node, c: Seq<Node>)
    requires
        growing(s) == Ok::<Growing, ErrorModel>(Growing { open: g.open.push(p), root: g.root }),
    ensures
        growing(s + all_written(c)) == Ok::<Growing, ErrorModel>(
            Growing {
                open: g.open.push(Node { children: p.children + c, ..p }),
                root: g.root,
            },
        ),
    decreases c, c.len(),
{
    if c.len() == 0 {
        assert(s + all_written(c) =~= s);
        assert(p.children + c =~= p.children);
    } else {
        let d = c.drop_last();
        lemma_children(s, g, p, d);
        let t = s + all_written(d);
        lemma_element(t, c.last());
        assert(s + all_written(c) =~= t + written(c.last()));
        let q = Node { children: p.children + d, ..p };
        assert(g.open.push(q).drop_last() =~= g.open);
        assert(q.children.push(c.last()) =~= p.children + c);
    }
}

/// A document that writes an element is read as that element, with all of its attributes and all of
/// its children, in their order.
pub proof fn documents_are_read_as_written(n: Node)
    ensures
        tree(written(n)) == Ok::<Node, ErrorModel>(n),
{
    let none = Seq::<EventModel>::empty();
    lemma_element(none, n);
    assert(none + written(n) =~= written(n));
}

/// An element without children may be written as one tag, wherever it stands.
pub proof fn empty_tags_are_elements(s: Seq<EventModel>, n: Node)
    requires
        n.children.len() == 0,
    ensures
        growing(s + written(n)) == growing(s.push(EventModel::Empty(tag_for(n)))),
{
    assert(n.children =~= Seq::empty());
    if growing(s) is Ok {
        lemma_element(s, n);
        lemma_push(s, EventModel::Empty(tag_for(n)));
        tags_are_elements(n);
    } else {
        assert(s.push(EventModel::Empty(tag_for(n))).drop_last() =~= s);
        lemma_broken(s, written(n));
    }
}

proof fn lemma_broken(s: Seq<EventModel>, t: Seq<EventModel>)
    requires
        growing(s) is Err,
    ensures
        growing(s + t) == growing(s),
    decreases t.len(),
{
    if t.len() > 0 {
        lemma_broken(s, t.drop_last());
        assert((s + t).drop_last() =~= s + t.drop_last());
    } else {
        assert(s + t =~= s);
    }
}

/// What is neither a tag nor an error changes nothing; after an error nothing matters any more.
pub proof fn errors_are_final(s: Seq<EventModel>, t: Seq<EventModel>, e: Seq<char>)
    ensures
        growing(s) is Ok ==> growing(s.push(EventModel::Other)) == growing(s),
        growing(s) is Ok ==> growing(s.push(EventModel::Failed(e)) + t) == Err::<
            Growing,
            ErrorModel,
        >(ErrorModel::Malformed(e)),
        growing(s) is Ok && growing(s)->Ok_0.open.len() == 0 ==> growing(
            s.push(EventModel::End) + t,
        ) == Err::<Growing, ErrorModel>(ErrorModel::Unbalanced),
        growing(s) is Err ==> growing(s + t) == growing(s),
{
    lemma_push(s, EventModel::Other);
    lemma_push(s, EventModel::Failed(e));
    lemma_push(s, EventModel::End);
    if growing(s) is Err {
        lemma_broken(s, t);
    } else {
        lemma_broken(s.push(EventModel::Failed(e)), t);
        if growing(s)->Ok_0.open.len() == 0 {
            lemma_broken(s.push(EventModel::End), t);
        }
    }
}

/// A document without an element is empty.
pub proof fn documents_need_an_element()
    ensures
        tree(Seq::empty()) == Err::<Node, ErrorModel>(ErrorModel::Empty),
{
}

/// A tag with an attribute that cannot be read is an error, that of the first such attribute.
pub proof fn attributes_must_be_readable(name: Seq<char>, a: Seq<AttrModel>, i: int, e: Seq<char>)
    requires
        0 <= i < a.len(),
        a[i] == AttrModel::Bad(e),
        forall|j: int| 0 <= j < i ==> (#[trigger] a[j]) is Good,
    ensures
        element_of(TagModel { name, attrs: a }) == Err::<Node, Seq<char>>(e),
{
    lemma_bad(a, i, e);
}

proof fn lemma_bad(a: Seq<AttrModel>, i: int, e: Seq<char>)
    requires
        0 <= i < a.len(),
        a[i] == AttrModel::Bad(e),
        forall|j: int| 0 <= j < i ==> (#[trigger] a[j]) is Good,
    ensures
        good_attrs(a) == Err::<Seq<(Seq<char>, Seq<char>)>, Seq<char>>(e),
    decreases a.len(),
{
    if i < a.len() - 1 {
        assert forall|j: int| 0 <= j < i implies (#[trigger] a.drop_last()[j]) is Good by {
            assert(a[j] is Good);
        }
        lemma_bad(a.drop_last(), i, e);
    } else {
        lemma_all_good(a.drop_last());
    }
}

proof fn lemma_all_good(a: Seq<AttrModel>)
    requires
        forall|j: int| 0 <= j < a.len() ==> (#[trigger] a[j]) is Good,
    ensures
        good_attrs(a) is Ok,
    decreases a.len(),
{
    if a.len() > 0 {
        assert(a[a.len() - 1] is Good);
        assert forall|j: int| 0 <= j < a.drop_last().len() implies (#[trigger] a.drop_last()[j]) is Good by {
            assert(a[j] is Good);
        }
        lemma_all_good(a.drop_last());
    }
}

/// The end of the input changes nothing.
pub proof fn the_end_changes_nothing(s: Seq<EventModel>)
    ensures
        tree(s.push(EventModel::Eof)) == tree(s),
{
    assert(s.push(EventModel::Eof).drop_last() =~= s);
}

} // verus!
