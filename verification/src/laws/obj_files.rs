//! Wavefront meshes: what each line of a file adds.

use super::text_rules::{
    blanks_are_space, decimals_are_read, pieces_come_one_by_one, solid, three_words, tight,
    tight_text_is_left_alone, trimming_takes_only_space, two_words, words_are_found_again,
};
use crate::decimal::decimal_text;
use crate::obj::{
    complete, corner_of, corners, dressed, group_materials, index_of, is_triangle, lemma_name_index,
    mapped, mismatch, model_of, model_ok, name_index, number_at, pairs, run_material, smooth,
    smoothed, triples, with_face, with_line, ObjModel, MeshData, ObjTriangle, Pair, ParsedObj,
    TopologyMismatch, Triple,
};
use crate::text::{is_float, is_space, parsed_signed, split_at_char, starts_with, trimmed, words};
use vstd::prelude::*;

verus! {

/// A word that is a number.
pub open spec fn number_word(s: Seq<char>) -> bool {
    solid(s) && is_float(s)
}

/// What trimming and cutting off its first word leaves of a line.
proof fn lemma_line(head: Seq<char>, rest: Seq<char>)
    requires
        head.len() > 0,
        !is_space(head[0]),
        head[0] != '#',
        tight(rest),
    ensures
        trimmed(head + rest) == head + rest,
        (head + rest).skip(head.len() as int) == rest,
        starts_with(head + rest, head),
        (head + rest).len() > 0 && (head + rest)[0] == head[0],
{
    let l = head + rest;
    assert(l[0] == head[0] && l.last() == rest.last());
    tight_text_is_left_alone(l);
    assert(l.skip(head.len() as int) =~= rest);
    assert(l.take(head.len() as int) =~= head);
}

/// How the words that lines start with are spelled.
proof fn lemma_heads()
    ensures
        "v "@ == seq!['v', ' '],
        "vt "@ == seq!['v', 't', ' '],
        "vn "@ == seq!['v', 'n', ' '],
        "f "@ == seq!['f', ' '],
        "usemtl "@ == seq!['u', 's', 'e', 'm', 't', 'l', ' '],
        "mtllib "@ == seq!['m', 't', 'l', 'l', 'i', 'b', ' '],
{
    reveal_strlit("v ");
    reveal_strlit("vt ");
    reveal_strlit("vn ");
    reveal_strlit("f ");
    reveal_strlit("usemtl ");
    reveal_strlit("mtllib ");
    assert("v "@ =~= seq!['v', ' ']);
    assert("vt "@ =~= seq!['v', 't', ' ']);
    assert("vn "@ =~= seq!['v', 'n', ' ']);
    assert("f "@ =~= seq!['f', ' ']);
    assert("usemtl "@ =~= seq!['u', 's', 'e', 'm', 't', 'l', ' ']);
    assert("mtllib "@ =~= seq!['m', 't', 'l', 'l', 'i', 'b', ' ']);
}

/// Two texts that start with different characters at some place do not start alike.
proof fn lemma_starts(l: Seq<char>, p: Seq<char>, k: int)
    requires
        0 <= k < p.len(),
        k < l.len(),
        l[k] != p[k],
    ensures
        !starts_with(l, p),
{
    if starts_with(l, p) {
        assert(l.take(p.len() as int)[k] == p[k]);
    }
}

/// A line `v a b c` adds the vertex `(a, b, c)`, and nothing else.
pub proof fn vertices_are_in_order(m: ObjModel, a: Seq<char>, b: Seq<char>, c: Seq<char>)
    requires
        number_word(a),
        number_word(b),
        number_word(c),
    ensures
        with_line(m, seq!['v', ' '] + three_words(a, b, c)) == (ObjModel {
            positions: m.positions.push((a, b, c)),
            ..m
        }),
{
    blanks_are_space();
    lemma_heads();
    words_are_found_again(a, b, c);
    lemma_line(seq!['v', ' '], three_words(a, b, c));
}

/// A line `vn a b c` adds the normal `(a, b, c)`, and nothing else.
pub proof fn normals_are_in_order(m: ObjModel, a: Seq<char>, b: Seq<char>, c: Seq<char>)
    requires
        number_word(a),
        number_word(b),
        number_word(c),
    ensures
        with_line(m, seq!['v', 'n', ' '] + three_words(a, b, c)) == (ObjModel {
            normals: m.normals.push((a, b, c)),
            ..m
        }),
{
    blanks_are_space();
    lemma_heads();
    words_are_found_again(a, b, c);
    lemma_line(seq!['v', 'n', ' '], three_words(a, b, c));
    let l = seq!['v', 'n', ' '] + three_words(a, b, c);
    lemma_starts(l, "v "@, 1);
    lemma_starts(l, "vt "@, 1);
}

/// A line `vt a b` adds the texture coordinate `(a, b)`, whatever third number follows, and
/// nothing else.
pub proof fn coordinates_are_in_order(m: ObjModel, a: Seq<char>, b: Seq<char>, c: Seq<char>)
    requires
        number_word(a),
        number_word(b),
        number_word(c),
    ensures
        with_line(m, seq!['v', 't', ' '] + two_words(a, b)) == (ObjModel {
            uvs: m.uvs.push((a, b)),
            ..m
        }),
        with_line(m, seq!['v', 't', ' '] + three_words(a, b, c)) == (ObjModel {
            uvs: m.uvs.push((a, b)),
            ..m
        }),
{
    blanks_are_space();
    lemma_heads();
    words_are_found_again(a, b, c);
    lemma_line(seq!['v', 't', ' '], two_words(a, b));
    lemma_line(seq!['v', 't', ' '], three_words(a, b, c));
    lemma_starts(seq!['v', 't', ' '] + two_words(a, b), "v "@, 1);
    lemma_starts(seq!['v', 't', ' '] + three_words(a, b, c), "v "@, 1);
}

/// A component that is missing or not a number is zero; the others keep their places.
pub proof fn what_is_no_number_is_zero(w: Seq<Seq<char>>, i: int)
    requires
        0 <= i,
    ensures
        i < w.len() && is_float(w[i]) ==> number_at(w, i) == w[i],
        i >= w.len() || !is_float(w[i]) ==> number_at(w, i) == seq!['0'],
{
    reveal_strlit("0");
    assert("0"@ =~= seq!['0']);
}

/// A line `usemtl name` chooses the material of the faces to come, a line `mtllib name` names a
/// library; neither changes anything else.
pub proof fn materials_are_chosen_by_name(m: ObjModel, name: Seq<char>)
    requires
        tight(name),
    ensures
        with_line(m, seq!['u', 's', 'e', 'm', 't', 'l', ' '] + name) == (ObjModel {
            material: name,
            ..m
        }),
        with_line(m, seq!['m', 't', 'l', 'l', 'i', 'b', ' '] + name) == (ObjModel {
            mtllibs: m.mtllibs.push(name),
            ..m
        }),
{
    blanks_are_space();
    lemma_heads();
    tight_text_is_left_alone(name);
    let u = seq!['u', 's', 'e', 'm', 't', 'l', ' '];
    let l = seq!['m', 't', 'l', 'l', 'i', 'b', ' '];
    lemma_line(u, name);
    lemma_line(l, name);
    lemma_starts(u + name, "v "@, 0);
    lemma_starts(u + name, "vt "@, 0);
    lemma_starts(u + name, "vn "@, 0);
    lemma_starts(l + name, "v "@, 0);
    lemma_starts(l + name, "vt "@, 0);
    lemma_starts(l + name, "vn "@, 0);
    lemma_starts(l + name, "usemtl "@, 0);
}

/// Empty lines and comments change nothing.
pub proof fn comments_are_skipped(m: ObjModel, rest: Seq<char>)
    requires
        rest.len() == 0 || !is_space(rest.last()),
    ensures
        with_line(m, Seq::empty()) == m,
        with_line(m, seq!['#'] + rest) == m,
{
    blanks_are_space();
    let l = seq!['#'] + rest;
    assert(l[0] == '#');
    if rest.len() > 0 {
        assert(l.last() == rest.last());
    }
    tight_text_is_left_alone(l);
    let none = Seq::<char>::empty();
    super::text_rules::trimming_takes_only_space(none, none, none);
    assert(none + none + none =~= none);
}

/// A file is read line by line, from nothing on.
pub proof fn files_are_read_line_by_line(l: Seq<Seq<char>>, line: Seq<char>)
    ensures
        model_of(l.push(line)) == with_line(model_of(l), line),
        model_of(Seq::empty()).positions.len() == 0,
        model_of(Seq::empty()).normals.len() == 0,
        model_of(Seq::empty()).uvs.len() == 0,
        model_of(Seq::empty()).tris.len() == 0,
        model_of(Seq::empty()).mat_names.len() == 0,
        model_of(Seq::empty()).mtllibs.len() == 0,
        model_of(Seq::empty()).material.len() == 0,
{
    assert(l.push(line).drop_last() =~= l);
}

/// A position counts from one on, or from the end backwards; outside there is none.
pub proof fn positions_count_from_one(i: int, len: int)
    requires
        0 <= len,
    ensures
        1 <= i <= len ==> index_of(i, len) == Some(i - 1),
        -len <= i <= -1 ==> index_of(i, len) == Some(len + i),
        i == 0 || i > len || i < -len ==> index_of(i, len) is None,
{
}

/// A corner names its vertex, its texture coordinate and its normal, in this order: `v`, `v/t`,
/// `v//n` or `v/t/n`.
pub proof fn corners_name_three_things(v: nat, t: nat, n: nat, nv: int, nt: int, nn: int)
    requires
        v <= i32::MAX && t <= i32::MAX && n <= i32::MAX,
        1 <= v <= nv,
        1 <= t <= nt,
        1 <= n <= nn,
    ensures
        corner_of(decimal_text(v), nv, nt, nn) == (Some(v - 1), None::<int>, None::<int>),
        corner_of(decimal_text(v) + seq!['/'] + decimal_text(t), nv, nt, nn) == (
            Some(v - 1),
            Some(t - 1),
            None::<int>,
        ),
        corner_of(decimal_text(v) + seq!['/'] + (seq!['/'] + decimal_text(n)), nv, nt, nn) == (
            Some(v - 1),
            None::<int>,
            Some(n - 1),
        ),
        corner_of(
            decimal_text(v) + seq!['/'] + (decimal_text(t) + seq!['/'] + decimal_text(n)),
            nv,
            nt,
            nn,
        ) == (Some(v - 1), Some(t - 1), Some(n - 1)),
{
    let (min, max) = (i32::MIN as int, i32::MAX as int);
    let (a, b, c) = (decimal_text(v), decimal_text(t), decimal_text(n));
    decimals_are_read(v, min, max);
    decimals_are_read(t, min, max);
    decimals_are_read(n, min, max);
    let none = Seq::<char>::empty();
    pieces_come_one_by_one(a, '/', b);
    pieces_come_one_by_one(b, '/', c);
    pieces_come_one_by_one(c, '/', none);
    pieces_come_one_by_one(none, '/', c);
    assert(none + seq!['/'] + c =~= seq!['/'] + c);
    pieces_come_one_by_one(a, '/', seq!['/'] + c);
    pieces_come_one_by_one(a, '/', b + seq!['/'] + c);
    assert(seq![a] + seq![b] =~= seq![a, b]);
    assert(seq![a] + (seq![none] + seq![c]) =~= seq![a, none, c]);
    assert(seq![a] + (seq![b] + seq![c]) =~= seq![a, b, c]);
}

/// The same with positions from the end, each counted in the list of its own kind.
pub proof fn corners_count_backwards(v: nat, t: nat, n: nat, nv: int, nt: int, nn: int)
    requires
        v <= i32::MAX && t <= i32::MAX && n <= i32::MAX,
        1 <= v <= nv,
        1 <= t <= nt,
        1 <= n <= nn,
    ensures
        corner_of(
            seq!['-'] + decimal_text(v) + seq!['/'] + (seq!['-'] + decimal_text(t) + seq!['/'] + (
            seq!['-'] + decimal_text(n))),
            nv,
            nt,
            nn,
        ) == (Some(nv - v), Some(nt - t), Some(nn - n)),
{
    let (min, max) = (i32::MIN as int, i32::MAX as int);
    let (a, b, c) = (
        seq!['-'] + decimal_text(v),
        seq!['-'] + decimal_text(t),
        seq!['-'] + decimal_text(n),
    );
    decimals_are_read(v, min, max);
    decimals_are_read(t, min, max);
    decimals_are_read(n, min, max);
    pieces_come_one_by_one(b, '/', c);
    pieces_come_one_by_one(c, '/', Seq::empty());
    pieces_come_one_by_one(a, '/', b + seq!['/'] + c);
    assert(seq![a] + (seq![b] + seq![c]) =~= seq![a, b, c]);
}

/// The position of something that a corner may lack.
pub open spec fn held(p: Option<int>) -> u32 {
    match p {
        Some(i) => i as u32,
        None => 0xFFFF_FFFF,
    }
}

proof fn lemma_corners(toks: Seq<Seq<char>>, nv: int, nt: int, nn: int)
    requires
        nt <= u32::MAX && nn <= u32::MAX,
        forall|i: int| 0 <= i < toks.len() ==> (#[trigger] corner_of(toks[i], nv, nt, nn)).0 is Some,
    ensures
        corners(toks, nv, nt, nn).len() == toks.len(),
        forall|i: int|
            0 <= i < toks.len() ==> {
                let c = corner_of(toks[i], nv, nt, nn);
                #[trigger] corners(toks, nv, nt, nn)[i] == (c.0->Some_0, held(c.1), held(c.2))
            },
    decreases toks.len(),
{
    if toks.len() > 0 {
        let d = toks.drop_last();
        assert forall|i: int| 0 <= i < d.len() implies (#[trigger] corner_of(d[i], nv, nt, nn)).0 is Some by {
            assert(corner_of(toks[i], nv, nt, nn).0 is Some);
        }
        lemma_corners(d, nv, nt, nn);
        assert(corner_of(toks[toks.len() - 1], nv, nt, nn).0 is Some);
        assert forall|i: int| 0 <= i < toks.len() implies {
            let c = corner_of(toks[i], nv, nt, nn);
            #[trigger] corners(toks, nv, nt, nn)[i] == (c.0->Some_0, held(c.1), held(c.2))
        } by {
            if i < d.len() {
                assert(corners(d, nv, nt, nn)[i] == corners(toks, nv, nt, nn)[i]);
            }
        }
    }
}

/// A line `f` with corners that exist adds a fan of triangles around the first: triangle `k` has
/// the corners `0`, `k + 1` and `k + 2`, and at each of them the vertex, the texture coordinate and
/// the normal that the corner names. Whatever was there before stays.
pub proof fn faces_are_fans(m: ObjModel, rest: Seq<char>, k: int)
    requires
        tight(rest),
        words(rest).len() >= 3,
        m.uvs.len() <= u32::MAX && m.normals.len() <= u32::MAX,
        forall|i: int|
            0 <= i < words(rest).len() ==> (#[trigger] corner_of(
                words(rest)[i],
                m.positions.len() as int,
                m.uvs.len() as int,
                m.normals.len() as int,
            )).0 is Some,
        0 <= k < words(rest).len() - 2,
        m.tri_uv.len() == m.tris.len() && m.tri_vn.len() == m.tris.len(),
    ensures
        ({
            let r = with_line(m, seq!['f', ' '] + rest);
            let at = |i: int|
                corner_of(
                    words(rest)[i],
                    m.positions.len() as int,
                    m.uvs.len() as int,
                    m.normals.len() as int,
                );
            let n = m.tris.len() as int;
            &&& r.tris.len() == n + words(rest).len() - 2
            &&& r.tri_uv.len() == r.tris.len() && r.tri_vn.len() == r.tris.len()
            &&& r.tris[n + k] == (at(0).0->Some_0, at(k + 1).0->Some_0, at(k + 2).0->Some_0)
            &&& r.tri_uv[n + k] == (held(at(0).1), held(at(k + 1).1), held(at(k + 2).1))
            &&& r.tri_vn[n + k] == (held(at(0).2), held(at(k + 1).2), held(at(k + 2).2))
            &&& m.tris.is_prefix_of(r.tris) && m.tri_uv.is_prefix_of(r.tri_uv)
                && m.tri_vn.is_prefix_of(r.tri_vn)
            &&& r.positions == m.positions && r.normals == m.normals && r.uvs == m.uvs
            &&& r.mtllibs == m.mtllibs && r.material == m.material
        }),
{
    blanks_are_space();
    lemma_heads();
    let l = seq!['f', ' '] + rest;
    lemma_line(seq!['f', ' '], rest);
    lemma_starts(l, "v "@, 0);
    lemma_starts(l, "vt "@, 0);
    lemma_starts(l, "vn "@, 0);
    lemma_starts(l, "usemtl "@, 0);
    lemma_starts(l, "mtllib "@, 0);
    let (nv, nt, nn) = (m.positions.len() as int, m.uvs.len() as int, m.normals.len() as int);
    let w = words(rest);
    lemma_corners(w, nv, nt, nn);
    let c = corners(w, nv, nt, nn);
    assert(c[0] == (corner_of(w[0], nv, nt, nn).0->Some_0, held(corner_of(w[0], nv, nt, nn).1), held(
        corner_of(w[0], nv, nt, nn).2,
    )));
    assert(c[k + 1].0 == corner_of(w[k + 1], nv, nt, nn).0->Some_0);
    assert(c[k + 2].0 == corner_of(w[k + 2], nv, nt, nn).0->Some_0);
}

/// A corner whose vertex does not exist is left out, and a face of fewer than three corners adds
/// nothing.
pub proof fn broken_faces_add_nothing(m: ObjModel, c: Seq<(int, u32, u32)>)
    requires
        c.len() < 3,
    ensures
        with_face(m, c) == m,
{
}

/// The triangles of a face have the material that was chosen last, by its place among the names;
/// triangles before keep theirs. A name is listed once, when a face first uses it.
pub proof fn faces_have_the_chosen_material(m: ObjModel, c: Seq<(int, u32, u32)>)
    requires
        model_ok(m),
        c.len() >= 3,
    ensures
        ({
            let r = with_face(m, c);
            let last = r.mat_runs.last();
            &&& r.mat_runs.len() > 0
            &&& last.0 <= m.tris.len()
            &&& 0 <= last.1 < r.mat_names.len() && r.mat_names[last.1] == m.material
            &&& m.mat_names.is_prefix_of(r.mat_names)
            &&& m.mat_names.contains(m.material) ==> r.mat_names == m.mat_names
            &&& !m.mat_names.contains(m.material) ==> r.mat_names == m.mat_names.push(m.material)
            &&& r.mat_runs == m.mat_runs || (r.mat_runs == m.mat_runs.push(
                (m.tris.len() as int, last.1),
            ))
        }),
{
    lemma_name_index(m.mat_names, m.material);
    if m.mat_runs.len() > 0 {
        assert(0 <= m.mat_runs[m.mat_runs.len() - 1].0 < m.tris.len());
    }
}

/// Where a name stands in a list is where it stands first.
pub proof fn names_stand_where_they_first_stand(names: Seq<Seq<char>>, i: int)
    requires
        0 <= i < names.len(),
        forall|j: int| 0 <= j < i ==> #[trigger] names[j] != names[i],
    ensures
        name_index(names, names[i]) == i,
    decreases i,
{
    if i > 0 {
        assert(names[0] != names[i]);
        let s = names.skip(1);
        assert(s[i - 1] == names[i]);
        assert forall|j: int| 0 <= j < i - 1 implies #[trigger] s[j] != s[i - 1] by {
            assert(names[j + 1] != names[i]);
        }
        names_stand_where_they_first_stand(s, i - 1);
    }
}

/// A triangle has the material of the last run that starts no later.
pub proof fn runs_reach_to_the_next(runs: Seq<(usize, usize)>, ti: int, j: int)
    requires
        0 <= j < runs.len(),
        runs[j].0 <= ti,
        forall|k: int| j < k < runs.len() ==> ti < (#[trigger] runs[k]).0,
    ensures
        run_material(runs, ti, runs.len() as int) == runs[j].1,
{
    lemma_run(runs, ti, j, runs.len() as int);
}

proof fn lemma_run(runs: Seq<(usize, usize)>, ti: int, j: int, n: int)
    requires
        0 <= j < n <= runs.len(),
        runs[j].0 <= ti,
        forall|k: int| j < k < runs.len() ==> ti < (#[trigger] runs[k]).0,
    ensures
        run_material(runs, ti, n) == runs[j].1,
    decreases n,
{
    if n - 1 > j {
        assert(ti < runs[n - 1].0);
        lemma_run(runs, ti, j, n - 1);
    }
}

/// A triangle is shaded by its normals only if all three of its corners have one that is usable,
/// and textured only if all three have a coordinate; it then has them at the corners where the file
/// has them.
pub proof fn incomplete_triangles_have_nothing(
    t: Seq<(u32, u32, u32)>,
    usable: Seq<bool>,
    k: int,
)
    requires
        0 <= k < t.len(),
    ensures
        smoothed(t, usable).len() == t.len() && mapped(t).len() == t.len(),
        t[k].0 < 0xFFFF_FFFF && t[k].1 < 0xFFFF_FFFF && t[k].2 < 0xFFFF_FFFF ==> mapped(t)[k] == t[k],
        t[k].0 == 0xFFFF_FFFF || t[k].1 == 0xFFFF_FFFF || t[k].2 == 0xFFFF_FFFF ==> mapped(t)[k] == (
            0xFFFF_FFFFu32,
            0xFFFF_FFFFu32,
            0xFFFF_FFFFu32,
        ) && smoothed(t, usable)[k] == mapped(t)[k],
        t[k].0 < 0xFFFF_FFFF && t[k].1 < 0xFFFF_FFFF && t[k].2 < 0xFFFF_FFFF
            && usable[t[k].0 as int] && usable[t[k].1 as int] && usable[t[k].2 as int] ==> smoothed(
            t,
            usable,
        )[k] == t[k],
        t[k].0 < 0xFFFF_FFFF && !usable[t[k].0 as int] ==> smoothed(t, usable)[k].0 == 0xFFFF_FFFF,
        t[k].1 < 0xFFFF_FFFF && !usable[t[k].1 as int] ==> smoothed(t, usable)[k].0 == 0xFFFF_FFFF,
        t[k].2 < 0xFFFF_FFFF && !usable[t[k].2 as int] ==> smoothed(t, usable)[k].0 == 0xFFFF_FFFF,
{
}

/// Two meshes make a motion exactly if they have as many vertices and the same triangles.
pub proof fn motions_need_the_same_triangles(a: ParsedObj, b: ParsedObj)
    ensures
        mismatch(a, b) is None <==> a.positions@.len() == b.positions@.len() && a.tris@ == b.tris@,
        a.positions@.len() != b.positions@.len() ==> mismatch(a, b) == Some(
            TopologyMismatch::Counts,
        ),
        a.tris@.len() != b.tris@.len() ==> mismatch(a, b) == Some(TopologyMismatch::Counts),
{
}

/// A corner whose vertex is missing or not a number is left out; the others stay as they are.
pub proof fn corners_need_a_vertex(
    toks: Seq<Seq<char>>,
    tok: Seq<char>,
    nv: int,
    nt: int,
    nn: int,
)
    ensures
        corner_of(tok, nv, nt, nn).0 is None ==> corners(toks.push(tok), nv, nt, nn) == corners(
            toks,
            nv,
            nt,
            nn,
        ),
        corner_of(tok, nv, nt, nn).0 is Some ==> corners(toks.push(tok), nv, nt, nn).len() == corners(
            toks,
            nv,
            nt,
            nn,
        ).len() + 1,
        parsed_signed(split_at_char(tok, '/')[0], i32::MIN as int, i32::MAX as int) is None
            ==> corner_of(tok, nv, nt, nn).0 is None,
{
    assert(toks.push(tok).drop_last() =~= toks);
}

/// A triangle has the three vertices that it names, in their order, and the material it is given.
pub proof fn triangles_have_their_vertices(r: ObjTriangle, p: ParsedObj, k: int, mat_id: usize)
    requires
        is_triangle(r, p, k, mat_id),
    ensures
        r.v0@ == p.positions@[p.tris@[k].0 as int]@,
        r.v1@ == p.positions@[p.tris@[k].1 as int]@,
        r.v2@ == p.positions@[p.tris@[k].2 as int]@,
        r.mat_id == mat_id,
{
}

/// Every triangle of a group has the material of its run.
pub proof fn groups_follow_their_runs(p: ParsedObj, t: int, j: int)
    requires
        0 <= t < p.tris@.len(),
        0 <= j < p.mat_runs@.len(),
        p.mat_runs@[j].0 <= t,
        forall|k: int| j < k < p.mat_runs@.len() ==> t < (#[trigger] p.mat_runs@[k]).0,
    ensures
        group_materials(p).len() == p.tris@.len(),
        group_materials(p)[t] == p.mat_runs@[j].1,
{
    runs_reach_to_the_next(p.mat_runs@, t, j);
}

/// The parts of a vertex and of a texture coordinate are seen in their order.
pub proof fn parts_are_seen_in_order(t: Triple, p: Pair)
    ensures
        t@ == (t.x@, t.y@, t.z@),
        p@ == (p.u@, p.v@),
{
}

/// White space around a line does not matter, nor how much of it stands before a name.
pub proof fn space_around_lines_is_skipped(
    m: ObjModel,
    before: Seq<char>,
    line: Seq<char>,
    after: Seq<char>,
    name: Seq<char>,
)
    requires
        forall|i: int| 0 <= i < before.len() ==> is_space(#[trigger] before[i]),
        forall|i: int| 0 <= i < after.len() ==> is_space(#[trigger] after[i]),
        tight(line),
        tight(name),
    ensures
        with_line(m, before + line + after) == with_line(m, line),
        with_line(m, seq!['u', 's', 'e', 'm', 't', 'l', ' '] + (before + name)) == (ObjModel {
            material: name,
            ..m
        }),
        with_line(m, seq!['m', 't', 'l', 'l', 'i', 'b', ' '] + (before + name)) == (ObjModel {
            mtllibs: m.mtllibs.push(name),
            ..m
        }),
{
    trimming_takes_only_space(before, line, after);
    tight_text_is_left_alone(line);
    let none = Seq::<char>::empty();
    trimming_takes_only_space(before, name, none);
    assert(before + name + none =~= before + name);
    blanks_are_space();
    lemma_heads();
    let u = seq!['u', 's', 'e', 'm', 't', 'l', ' '];
    let l = seq!['m', 't', 'l', 'l', 'i', 'b', ' '];
    let r = before + name;
    assert(r.last() == name.last());
    lemma_words(u, r);
    lemma_words(l, r);
    lemma_starts(u + r, "v "@, 0);
    lemma_starts(u + r, "vt "@, 0);
    lemma_starts(u + r, "vn "@, 0);
    lemma_starts(l + r, "v "@, 0);
    lemma_starts(l + r, "vt "@, 0);
    lemma_starts(l + r, "vn "@, 0);
    lemma_starts(l + r, "usemtl "@, 0);
}

/// The same as for lines whose second word follows at once, without that.
proof fn lemma_words(head: Seq<char>, rest: Seq<char>)
    requires
        head.len() > 0,
        !is_space(head[0]),
        head[0] != '#',
        rest.len() > 0,
        !is_space(rest.last()),
    ensures
        trimmed(head + rest) == head + rest,
        (head + rest).skip(head.len() as int) == rest,
        starts_with(head + rest, head),
        (head + rest).len() > 0 && (head + rest)[0] == head[0],
{
    let l = head + rest;
    assert(l[0] == head[0] && l.last() == rest.last());
    tight_text_is_left_alone(l);
    assert(l.skip(head.len() as int) =~= rest);
    assert(l.take(head.len() as int) =~= head);
}

/// A mesh keeps the normals of its file where some triangle uses them, and its texture coordinates
/// likewise; otherwise it has none.
pub proof fn meshes_keep_what_is_used(r: MeshData, p: ParsedObj, usable: Seq<bool>, k: int)
    requires
        dressed(r, p, usable),
        0 <= k < p.tri_vn@.len(),
        0 <= k < p.tri_uv@.len(),
    ensures
        smoothed(p.tri_vn@, usable)[k].0 != 0xFFFF_FFFF ==> triples(r.vn@) == triples(p.normals@)
            && r.tri_vn@ == smoothed(p.tri_vn@, usable),
        mapped(p.tri_uv@)[k].0 != 0xFFFF_FFFF ==> pairs(r.uv@) == pairs(p.uvs@) && r.tri_uv@ == mapped(
            p.tri_uv@,
        ),
{
    assert(smoothed(p.tri_vn@, usable)[k].0 != 0xFFFF_FFFF ==> smooth(p.tri_vn@[k], usable));
    assert(mapped(p.tri_uv@)[k].0 != 0xFFFF_FFFF ==> complete(p.tri_uv@[k]));
}

} // verus!
