//! Directories, and where a mesh file has its material libraries.
//!
//! Components of a path are separated by slashes. A component that is empty, or a dot that is not
//! the first one, says nothing.

use super::scene::{path_in, resolve_path};
use crate::text::{chars_of, replace_char, replaced, string_of};
use vstd::prelude::*;

verus! {

/// How many characters stand before the first component to come or go: one for the root, or for
/// the dot that a path may start with.
pub open spec fn lead(p: Seq<char>) -> int {
    if p.len() > 0 && (p[0] == '/' || (p[0] == '.' && (p.len() == 1 || p[1] == '/'))) {
        1
    } else {
        0
    }
}

/// Where the last component starts: behind the last slash from `from` on, or at `from`.
pub open spec fn last_start(p: Seq<char>, from: int) -> int
    decreases p.len(),
{
    if p.len() <= from || p.len() == 0 {
        from
    } else if p.last() == '/' {
        p.len() as int
    } else {
        last_start(p.drop_last(), from)
    }
}

/// The last component of a path.
pub open spec fn last_component(p: Seq<char>) -> Seq<char> {
    p.skip(last_start(p, lead(p)))
}

/// A path without its last component and the slash before it.
pub open spec fn without_last(p: Seq<char>) -> Seq<char> {
    if last_start(p, lead(p)) > lead(p) {
        p.take(last_start(p, lead(p)) - 1)
    } else {
        p.take(lead(p))
    }
}

/// Whether a path ends in a component that says nothing.
pub open spec fn ends_in_nothing(p: Seq<char>) -> bool {
    p.len() > lead(p) && (last_component(p).len() == 0 || last_component(p) == seq!['.'])
}

/// A path without the components at its end that say nothing.
pub open spec fn tidied(p: Seq<char>) -> Seq<char>
    decreases p.len(),
    via tidied_decreases
{
    if ends_in_nothing(p) {
        tidied(without_last(p))
    } else {
        p
    }
}

#[via_fn]
proof fn tidied_decreases(p: Seq<char>) {
    lemma_last_start(p, lead(p));
}

/// The directory of a path: the path without its last component. A path of one component is in
/// the directory without a name, and so is the root.
pub open spec fn parent_of(p: Seq<char>) -> Seq<char> {
    let t = tidied(p);
    if t.len() <= lead(t) {
        Seq::empty()
    } else {
        tidied(without_last(t))
    }
}

proof fn lemma_last_start(p: Seq<char>, from: int)
    requires
        0 <= from,
    ensures
        from <= last_start(p, from),
        from <= p.len() ==> last_start(p, from) <= p.len(),
    decreases p.len(),
{
    if p.len() > from && p.last() != '/' {
        lemma_last_start(p.drop_last(), from);
    }
}

fn lead_of(p: &[char]) -> (r: usize)
    ensures
        r == lead(p@),
        r <= p@.len(),
{
    if p.len() > 0 && (p[0] == '/' || (p[0] == '.' && (p.len() == 1 || p[1] == '/'))) {
        1
    } else {
        0
    }
}

fn find_last_start(p: &[char], from: usize) -> (r: usize)
    requires
        from <= p@.len(),
    ensures
        r == last_start(p@, from as int),
        from <= r <= p@.len(),
{
    let mut n: usize = p.len();
    assert(p@.take(n as int) =~= p@);
    while n > from
        invariant
            from <= n <= p@.len(),
            last_start(p@, from as int) == last_start(p@.take(n as int), from as int),
        decreases n,
    {
        let ghost t = p@.take(n as int);
        assert(t.last() == p@[n - 1]);
        if p[n - 1] == '/' {
            return n;
        }
        assert(t.drop_last() =~= p@.take(n - 1));
        n -= 1;
    }
    from
}

fn drop_component(p: &mut Vec<char>)
    requires
        old(p)@.len() > lead(old(p)@),
    ensures
        final(p)@ == without_last(old(p)@),
        final(p)@.len() < old(p)@.len(),
{
    let from: usize = lead_of(p);
    let start: usize = find_last_start(p, from);
    if start > from {
        p.truncate(start - 1);
    } else {
        p.truncate(from);
    }
}

fn says_nothing(p: &Vec<char>) -> (r: bool)
    ensures
        r == ends_in_nothing(p@),
{
    let from: usize = lead_of(p);
    if p.len() <= from {
        return false;
    }
    let start: usize = find_last_start(p, from);
    let ghost c = last_component(p@);
    if start == p.len() {
        return true;
    }
    assert(c[0] == p@[start as int]);
    let dot: bool = start + 1 == p.len() && p[start] == '.';
    assert(c.len() == p@.len() - start);
    assert(dot <==> c =~= seq!['.']);
    dot
}

fn tidy(p: &mut Vec<char>)
    ensures
        final(p)@ == tidied(old(p)@),
{
    let ghost start = p@;
    while says_nothing(p)
        invariant
            tidied(start) == tidied(p@),
        decreases p@.len(),
    {
        drop_component(p);
    }
}

/// The directory of a path.
pub fn directory_of(path: &str) -> (r: String)
    ensures
        r@ == parent_of(path@),
{
    let mut p = chars_of(path);
    tidy(&mut p);
    let from: usize = lead_of(&p);
    if p.len() <= from {
        return String::new();
    }
    drop_component(&mut p);
    tidy(&mut p);
    string_of(&p)
}

/// The material libraries that the mesh file at `obj_path` names: the path of each, which is
/// relative to the directory of the mesh, and the directory that it is in, which the paths in it
/// are relative to. Both kinds of slashes separate directories.
pub fn library_paths(obj_path: &str, mtllibs: &Vec<String>) -> (r: Vec<(String, String)>)
    ensures
        r@.len() == mtllibs@.len(),
        forall|k: int|
            0 <= k < r@.len() ==> (#[trigger] r@[k]).0@ == path_in(
                parent_of(obj_path@),
                replaced(mtllibs@[k]@, '\\', '/'),
            ) && r@[k].1@ == parent_of(r@[k].0@),
{
    let dir = directory_of(obj_path);
    let mut out: Vec<(String, String)> = Vec::new();
    let mut i: usize = 0;
    while i < mtllibs.len()
        invariant
            i <= mtllibs@.len(),
            dir@ == parent_of(obj_path@),
            out@.len() == i,
            forall|k: int|
                0 <= k < i ==> (#[trigger] out@[k]).0@ == path_in(
                    parent_of(obj_path@),
                    replaced(mtllibs@[k]@, '\\', '/'),
                ) && out@[k].1@ == parent_of(out@[k].0@),
        decreases mtllibs@.len() - i,
    {
        let name = chars_of(mtllibs[i].as_str());
        let file = replace_char(&name, '\\', '/');
        let path = resolve_path(dir.as_str(), file.as_str());
        let own = directory_of(path.as_str());
        out.push((path, own));
        i += 1;
    }
    out
}

} // verus!
