//! Paths: the directory of a file.

use crate::mitsuba::paths::{
    ends_in_nothing, last_component, last_start, lead, parent_of, tidied, without_last,
};
use vstd::prelude::*;

verus! {

/// Whether a text is the name of a file.
pub open spec fn file_name(f: Seq<char>) -> bool {
    f.len() > 0 && !f.contains('/') && f != seq!['.']
}

proof fn lemma_last_start(d: Seq<char>, f: Seq<char>, from: int)
    requires
        d.len() == from || (d.len() > from && d.last() == '/'),
        0 <= from,
        !f.contains('/'),
    ensures
        last_start(d + f, from) == d.len(),
    decreases f.len(),
{
    let p = d + f;
    if f.len() == 0 {
        assert(p =~= d);
    } else {
        assert(f.contains(f.last()));
        assert(p.last() == f.last());
        let g = f.drop_last();
        assert(p.drop_last() =~= d + g);
        assert(!g.contains('/')) by {
            if g.contains('/') {
                let i = choose|i: int| 0 <= i < g.len() && g[i] == '/';
                assert(f[i] == '/');
            }
        }
        lemma_last_start(d, g, from);
    }
}

proof fn lemma_start_bound(d: Seq<char>, from: int)
    requires
        0 <= from <= d.len(),
    ensures
        from <= last_start(d, from) <= d.len(),
        d.len() > from && d.last() != '/' ==> last_start(d, from) < d.len(),
    decreases d.len(),
{
    if d.len() > from && d.last() != '/' {
        lemma_start_bound(d.drop_last(), from);
    }
}

proof fn lemma_tidy(d: Seq<char>)
    requires
        d.len() > 0,
        d.last() != '/',
        d.last() != '.',
    ensures
        tidied(d) == d,
{
    lemma_start_bound(d, lead(d));
    if d.len() > lead(d) {
        let c = last_component(d);
        assert(c.len() > 0);
        assert(c.last() == d.last());
        assert(c != seq!['.']);
    }
}

/// The directory of a file is what stands before the last slash of its path; of a file without one it
/// is empty, and of a file at the root it is the root.
pub proof fn directories_end_at_the_last_slash(d: Seq<char>, f: Seq<char>)
    requires
        file_name(f),
    ensures
        d.len() > 0 && d.last() != '/' && d.last() != '.' ==> parent_of(d + seq!['/'] + f) == d,
        parent_of(f) == Seq::<char>::empty(),
        parent_of(seq!['/'] + f) == seq!['/'],
{
    let none = Seq::<char>::empty();
    assert(f.contains(f[0]));
    assert(f != seq!['.']);
    // A file by itself.
    assert(lead(f) == 0) by {
        if f.len() == 1 && f[0] == '.' {
            assert(f =~= seq!['.']);
        }
        if f.len() > 1 {
            assert(f.contains(f[1]));
        }
    }
    lemma_last_start(none, f, 0);
    assert(none + f =~= f);
    assert(f.skip(0) =~= f);
    assert(!ends_in_nothing(f));
    assert(f.take(0) =~= none);
    assert(!ends_in_nothing(none));
    // A file at the root.
    let root = seq!['/'];
    let q = root + f;
    assert(lead(q) == 1);
    lemma_last_start(root, f, 1);
    assert(q.skip(1) =~= f);
    assert(!ends_in_nothing(q));
    assert(q.take(1) =~= root);
    assert(!ends_in_nothing(root));
    // A file in a directory.
    if d.len() > 0 && d.last() != '/' && d.last() != '.' {
        let e = d + seq!['/'];
        let p = e + f;
        assert(d + seq!['/'] + f =~= p);
        assert(p[0] == d[0]);
        assert(e.len() > lead(p) && e.last() == '/');
        lemma_last_start(e, f, lead(p));
        assert(p.skip(e.len() as int) =~= f);
        assert(!ends_in_nothing(p));
        assert(p.take(d.len() as int) =~= d);
        assert(without_last(p) == d);
        lemma_tidy(d);
    }
}

} // verus!
