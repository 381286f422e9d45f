//! Wavefront OBJ meshes: vertices, normals, texture coordinates, faces and their materials.
//!
//! Coordinates are kept as the text of the numbers; what refers to them is resolved to positions
//! in the lists.

use crate::text::{
    after_prefix, chars_of, copied, float, is_float, is_word, lines, parse_i32, parsed_signed,
    split_at_char, split_char, split_lines, split_words, starts_with, string_of, texts, trim,
    trimmed, words,
};
use vstd::prelude::*;

verus! {

/// The normal of a triangle corner that has none.
pub const NO_NORMAL: u32 = u32::MAX;

/// The texture coordinate of a triangle corner that has none.
pub const NO_UV: u32 = u32::MAX;

/// Three coordinates as text.
pub struct Triple {
    pub x: String,
    pub y: String,
    pub z: String,
}

impl View for Triple {
    type V = (Seq<char>, Seq<char>, Seq<char>);

    open spec fn view(&self) -> Self::V {
        (self.x@, self.y@, self.z@)
    }
}

/// Two texture coordinates as text.
pub struct Pair {
    pub u: String,
    pub v: String,
}

impl View for Pair {
    type V = (Seq<char>, Seq<char>);

    open spec fn view(&self) -> Self::V {
        (self.u@, self.v@)
    }
}

/// Word `i` if it is a number, else zero.
pub open spec fn number_at(w: Seq<Seq<char>>, i: int) -> Seq<char> {
    if i < w.len() && is_float(w[i]) {
        w[i]
    } else {
        "0"@
    }
}

fn number(w: &Vec<&[char]>, i: usize) -> (r: String)
    ensures
        r@ == number_at(texts(w@), i as int),
{
    if i < w.len() {
        assert(texts(w@)[i as int] == w@[i as int]@);
        if float(w[i]) {
            return string_of(w[i]);
        }
    }
    copied("0")
}

/// The position that the number `i` of a list of `len` entries stands for: counted from one, or
/// backwards from the end if it is negative.
pub open spec fn index_of(i: int, len: int) -> Option<int> {
    if 0 < i <= len {
        Some(i - 1)
    } else if i < 0 && 0 <= len + i {
        Some(len + i)
    } else {
        None
    }
}

/// The position that a number in the file stands for.
pub fn parse_obj_index(i: i32, len: usize) -> (r: Option<usize>)
    ensures
        match index_of(i as int, len as int) {
            Some(p) => r == Some(p as usize) && p < len,
            None => r is None,
        },
{
    if i > 0 {
        let u: usize = i as usize;
        if u <= len {
            Some(u - 1)
        } else {
            None
        }
    } else if i < 0 {
        let back: u32 = (-(i as i64)) as u32;
        if back as u64 <= len as u64 {
            Some(len - back as usize)
        } else {
            None
        }
    } else {
        None
    }
}

/// Part `k` of a face token as a position in a list of `len` entries.
pub open spec fn part_index(parts: Seq<Seq<char>>, k: int, len: int) -> Option<int> {
    if k >= parts.len() {
        None
    } else {
        match parsed_signed(parts[k], i32::MIN as int, i32::MAX as int) {
            None => None,
            Some(i) => index_of(i, len),
        }
    }
}

fn parse_part(parts: &Vec<&[char]>, k: usize, len: usize) -> (r: Option<usize>)
    ensures
        match part_index(texts(parts@), k as int, len as int) {
            Some(p) => r == Some(p as usize) && 0 <= p < len,
            None => r is None,
        },
{
    if k >= parts.len() {
        return None;
    }
    assert(texts(parts@)[k as int] == parts@[k as int]@);
    match parse_i32(parts[k]) {
        None => None,
        Some(i) => parse_obj_index(i, len),
    }
}

/// A corner of a face: vertex, texture coordinate and normal.
pub open spec fn corner_of(tok: Seq<char>, nv: int, nt: int, nn: int) -> (
    Option<int>,
    Option<int>,
    Option<int>,
) {
    let p = split_at_char(tok, '/');
    (part_index(p, 0, nv), part_index(p, 1, nt), part_index(p, 2, nn))
}

/// A corner of a face, written `v`, `v/vt`, `v//vn` or `v/vt/vn`, with the lists as long as they
/// are by then.
pub fn parse_face_token(tok: &[char], nv: usize, nt: usize, nn: usize) -> (r: (
    Option<usize>,
    Option<usize>,
    Option<usize>,
))
    ensures
        ({
            let c = corner_of(tok@, nv as int, nt as int, nn as int);
            &&& r.0 == as_position(c.0)
            &&& r.1 == as_position(c.1)
            &&& r.2 == as_position(c.2)
            &&& r.0 matches Some(v) ==> v < nv
            &&& r.1 matches Some(t) ==> t < nt
            &&& r.2 matches Some(n) ==> n < nn
        }),
{
    let parts = split_char(tok, '/');
    (parse_part(&parts, 0, nv), parse_part(&parts, 1, nt), parse_part(&parts, 2, nn))
}

/// A position as a machine number.
pub open spec fn as_position(p: Option<int>) -> Option<usize> {
    match p {
        Some(i) => Some(i as usize),
        None => None,
    }
}

/// A position in 32 bits, or the mark for none.
pub open spec fn in_32_bits(p: Option<int>) -> u32 {
    match p {
        Some(i) => (i % 0x1_0000_0000) as u32,
        None => u32::MAX,
    }
}

fn to_32_bits(p: Option<usize>) -> (r: u32)
    ensures
        p matches Some(i) ==> r == in_32_bits(Some(i as int)),
        p is None ==> r == u32::MAX,
{
    match p {
        Some(i) => ((i as u64) % 0x1_0000_0000) as u32,
        None => u32::MAX,
    }
}

/// The corners of a face: those whose vertex exists.
pub open spec fn corners(toks: Seq<Seq<char>>, nv: int, nt: int, nn: int) -> Seq<(int, u32, u32)>
    decreases toks.len(),
{
    if toks.len() == 0 {
        Seq::empty()
    } else {
        let before = corners(toks.drop_last(), nv, nt, nn);
        let (v, t, n) = corner_of(toks.last(), nv, nt, nn);
        match v {
            Some(i) => before.push((i, in_32_bits(t), in_32_bits(n))),
            None => before,
        }
    }
}

/// What has been read so far.
pub struct ObjModel {
    pub positions: Seq<(Seq<char>, Seq<char>, Seq<char>)>,
    pub normals: Seq<(Seq<char>, Seq<char>, Seq<char>)>,
    pub uvs: Seq<(Seq<char>, Seq<char>)>,
    /// The corners of the triangles as positions of vertices.
    pub tris: Seq<(int, int, int)>,
    /// The normals at the corners.
    pub tri_vn: Seq<(u32, u32, u32)>,
    /// The texture coordinates at the corners.
    pub tri_uv: Seq<(u32, u32, u32)>,
    /// From which triangle on which material is used.
    pub mat_runs: Seq<(int, int)>,
    /// The materials that faces use, in the order in which they turn up; nothing names the
    /// material before the first is chosen.
    pub mat_names: Seq<Seq<char>>,
    /// The material libraries, in their order.
    pub mtllibs: Seq<Seq<char>>,
    /// The material chosen last.
    pub material: Seq<char>,
}

pub open spec fn empty_model() -> ObjModel {
    ObjModel {
        positions: Seq::empty(),
        normals: Seq::empty(),
        uvs: Seq::empty(),
        tris: Seq::empty(),
        tri_vn: Seq::empty(),
        tri_uv: Seq::empty(),
        mat_runs: Seq::empty(),
        mat_names: Seq::empty(),
        mtllibs: Seq::empty(),
        material: Seq::empty(),
    }
}

/// Where `name` stands among the first `n` names, or `n`.
pub open spec fn name_index(names: Seq<Seq<char>>, name: Seq<char>) -> int
    decreases names.len(),
{
    if names.len() == 0 {
        0
    } else if names[0] == name {
        0
    } else {
        1 + name_index(names.skip(1), name)
    }
}

pub proof fn lemma_name_index(names: Seq<Seq<char>>, name: Seq<char>)
    ensures
        0 <= name_index(names, name) <= names.len(),
        name_index(names, name) < names.len() ==> names[name_index(names, name)] == name,
        name_index(names, name) == names.len() ==> !names.contains(name),
    decreases names.len(),
{
    if names.len() > 0 && names[0] != name {
        lemma_name_index(names.skip(1), name);
        let k = name_index(names.skip(1), name);
        if k == names.skip(1).len() {
            assert forall|i: int| 0 <= i < names.len() implies names[i] != name by {
                if i > 0 {
                    assert(names.skip(1)[i - 1] == names[i]);
                }
            }
        }
    }
}

/// A face of three or more corners as a fan of triangles around its first corner.
pub open spec fn with_face(m: ObjModel, c: Seq<(int, u32, u32)>) -> ObjModel {
    if c.len() < 3 {
        m
    } else {
        let i = name_index(m.mat_names, m.material);
        let n = c.len() - 2;
        ObjModel {
            tris: m.tris + Seq::new(n as nat, |k: int| (c[0].0, c[k + 1].0, c[k + 2].0)),
            tri_uv: m.tri_uv + Seq::new(n as nat, |k: int| (c[0].1, c[k + 1].1, c[k + 2].1)),
            tri_vn: m.tri_vn + Seq::new(n as nat, |k: int| (c[0].2, c[k + 1].2, c[k + 2].2)),
            mat_names: if i == m.mat_names.len() {
                m.mat_names.push(m.material)
            } else {
                m.mat_names
            },
            mat_runs: if m.mat_runs.len() > 0 && m.mat_runs.last().1 == i {
                m.mat_runs
            } else {
                m.mat_runs.push((m.tris.len() as int, i))
            },
            ..m
        }
    }
}

/// The model after one more line.
pub open spec fn with_line(m: ObjModel, line: Seq<char>) -> ObjModel {
    let l = trimmed(line);
    let two = words(l.skip(2));
    let three = words(l.skip(3));
    if l.len() == 0 || l[0] == '#' {
        m
    } else if starts_with(l, "v "@) {
        ObjModel {
            positions: m.positions.push((number_at(two, 0), number_at(two, 1), number_at(two, 2))),
            ..m
        }
    } else if starts_with(l, "vt "@) {
        ObjModel { uvs: m.uvs.push((number_at(three, 0), number_at(three, 1))), ..m }
    } else if starts_with(l, "vn "@) {
        ObjModel {
            normals: m.normals.push(
                (number_at(three, 0), number_at(three, 1), number_at(three, 2)),
            ),
            ..m
        }
    } else if starts_with(l, "usemtl "@) {
        ObjModel { material: trimmed(l.skip(7)), ..m }
    } else if starts_with(l, "mtllib "@) {
        ObjModel { mtllibs: m.mtllibs.push(trimmed(l.skip(7))), ..m }
    } else if starts_with(l, "f "@) {
        with_face(
            m,
            corners(
                two,
                m.positions.len() as int,
                m.uvs.len() as int,
                m.normals.len() as int,
            ),
        )
    } else {
        m
    }
}

/// The model of these lines.
pub open spec fn model_of(l: Seq<Seq<char>>) -> ObjModel
    decreases l.len(),
{
    if l.len() == 0 {
        empty_model()
    } else {
        with_line(model_of(l.drop_last()), l.last())
    }
}

/// What holds of every model: the three lists of triangles have one length, whatever they refer
/// to exists, the runs of materials start at ever later triangles, the first at the first one,
/// and no material is named twice.
pub open spec fn model_ok(m: ObjModel) -> bool {
    &&& m.tri_vn.len() == m.tris.len()
    &&& m.tri_uv.len() == m.tris.len()
    &&& forall|k: int|
        0 <= k < m.tris.len() ==> {
            let t = #[trigger] m.tris[k];
            0 <= t.0 < m.positions.len() && 0 <= t.1 < m.positions.len() && 0 <= t.2
                < m.positions.len()
        }
    &&& forall|k: int|
        0 <= k < m.tri_vn.len() ==> {
            let t = #[trigger] m.tri_vn[k];
            refers(t.0, m.normals.len() as int) && refers(t.1, m.normals.len() as int) && refers(
                t.2,
                m.normals.len() as int,
            )
        }
    &&& forall|k: int|
        0 <= k < m.tri_uv.len() ==> {
            let t = #[trigger] m.tri_uv[k];
            refers(t.0, m.uvs.len() as int) && refers(t.1, m.uvs.len() as int) && refers(
                t.2,
                m.uvs.len() as int,
            )
        }
    &&& forall|k: int|
        0 <= k < m.mat_runs.len() ==> {
            let r = #[trigger] m.mat_runs[k];
            0 <= r.0 < m.tris.len() && 0 <= r.1 < m.mat_names.len()
        }
    &&& forall|j: int, k: int|
        0 <= j < k < m.mat_runs.len() ==> (#[trigger] m.mat_runs[j]).0 < (
        #[trigger] m.mat_runs[k]).0
    &&& m.tris.len() > 0 ==> m.mat_runs.len() > 0 && m.mat_runs[0].0 == 0
    &&& m.mat_names.no_duplicates()
}

/// Whether a 32-bit position is the mark for none, or one of `n`.
pub open spec fn refers(p: u32, n: int) -> bool {
    p == u32::MAX || p < n
}

proof fn lemma_corners(toks: Seq<Seq<char>>, nv: int, nt: int, nn: int)
    requires
        0 <= nv,
        0 <= nt,
        0 <= nn,
    ensures
        forall|k: int|
            0 <= k < corners(toks, nv, nt, nn).len() ==> {
                let c = #[trigger] corners(toks, nv, nt, nn)[k];
                0 <= c.0 < nv && refers(c.1, nt) && refers(c.2, nn)
            },
    decreases toks.len(),
{
    if toks.len() > 0 {
        lemma_corners(toks.drop_last(), nv, nt, nn);
        let before = corners(toks.drop_last(), nv, nt, nn);
        let (v, t, n) = corner_of(toks.last(), nv, nt, nn);
        lemma_in_32_bits(t, nt);
        lemma_in_32_bits(n, nn);
        assert forall|k: int| 0 <= k < corners(toks, nv, nt, nn).len() implies {
            let c = #[trigger] corners(toks, nv, nt, nn)[k];
            0 <= c.0 < nv && refers(c.1, nt) && refers(c.2, nn)
        } by {
            if k < before.len() {
                assert(corners(toks, nv, nt, nn)[k] == before[k]);
            }
        }
    }
}

proof fn lemma_in_32_bits(p: Option<int>, n: int)
    requires
        p matches Some(i) ==> 0 <= i < n,
    ensures
        refers(in_32_bits(p), n),
{
    if let Some(i) = p {
        vstd::arithmetic::div_mod::lemma_mod_decreases(i as nat, 0x1_0000_0000);
    }
}

proof fn lemma_with_face(m: ObjModel, c: Seq<(int, u32, u32)>)
    requires
        model_ok(m),
        forall|k: int|
            0 <= k < c.len() ==> {
                let x = #[trigger] c[k];
                0 <= x.0 < m.positions.len() && refers(x.1, m.uvs.len() as int) && refers(
                    x.2,
                    m.normals.len() as int,
                )
            },
    ensures
        model_ok(with_face(m, c)),
{
    if c.len() >= 3 {
        lemma_name_index(m.mat_names, m.material);
        let r = with_face(m, c);
        let n = c.len() - 2;
        let a = m.tris.len() as int;
        assert forall|k: int| 0 <= k < r.tris.len() implies {
            let t = #[trigger] r.tris[k];
            0 <= t.0 < r.positions.len() && 0 <= t.1 < r.positions.len() && 0 <= t.2
                < r.positions.len()
        } by {
            if k < a {
                assert(r.tris[k] == m.tris[k]);
            } else {
                assert(r.tris[k] == (c[0].0, c[k - a + 1].0, c[k - a + 2].0));
            }
        }
        assert forall|k: int| 0 <= k < r.tri_vn.len() implies {
            let t = #[trigger] r.tri_vn[k];
            refers(t.0, r.normals.len() as int) && refers(t.1, r.normals.len() as int) && refers(
                t.2,
                r.normals.len() as int,
            )
        } by {
            if k < a {
                assert(r.tri_vn[k] == m.tri_vn[k]);
            } else {
                assert(r.tri_vn[k] == (c[0].2, c[k - a + 1].2, c[k - a + 2].2));
            }
        }
        assert forall|k: int| 0 <= k < r.tri_uv.len() implies {
            let t = #[trigger] r.tri_uv[k];
            refers(t.0, r.uvs.len() as int) && refers(t.1, r.uvs.len() as int) && refers(
                t.2,
                r.uvs.len() as int,
            )
        } by {
            if k < a {
                assert(r.tri_uv[k] == m.tri_uv[k]);
            } else {
                assert(r.tri_uv[k] == (c[0].1, c[k - a + 1].1, c[k - a + 2].1));
            }
        }
        assert forall|k: int| 0 <= k < r.mat_runs.len() implies {
            let x = #[trigger] r.mat_runs[k];
            0 <= x.0 < r.tris.len() && 0 <= x.1 < r.mat_names.len()
        } by {
            if k < m.mat_runs.len() {
                assert(r.mat_runs[k] == m.mat_runs[k]);
            }
        }
        assert forall|j: int, k: int| 0 <= j < k < r.mat_runs.len() implies (
        #[trigger] r.mat_runs[j]).0 < (#[trigger] r.mat_runs[k]).0 by {
            assert(r.mat_runs[j] == m.mat_runs[j]);
            if k < m.mat_runs.len() {
                assert(r.mat_runs[k] == m.mat_runs[k]);
            }
        }
        if m.mat_runs.len() > 0 {
            assert(r.mat_runs[0] == m.mat_runs[0]);
            assert(m.mat_runs[0].0 < m.tris.len());
        }
    }
}

proof fn lemma_with_line(m: ObjModel, line: Seq<char>)
    requires
        model_ok(m),
    ensures
        model_ok(with_line(m, line)),
{
    let l = trimmed(line);
    if l.len() > 0 && l[0] != '#' && !starts_with(l, "v "@) && !starts_with(l, "vt "@)
        && !starts_with(l, "vn "@) && !starts_with(l, "usemtl "@) && !starts_with(l, "mtllib "@)
        && starts_with(l, "f "@) {
        let (nv, nt, nn) = (
            m.positions.len() as int,
            m.uvs.len() as int,
            m.normals.len() as int,
        );
        lemma_corners(words(l.skip(2)), nv, nt, nn);
        lemma_with_face(m, corners(words(l.skip(2)), nv, nt, nn));
    } else {
        lemma_longer_lists(m, with_line(m, line));
    }
}

proof fn lemma_longer_lists(m: ObjModel, r: ObjModel)
    requires
        model_ok(m),
        m.positions.len() <= r.positions.len(),
        m.normals.len() <= r.normals.len(),
        m.uvs.len() <= r.uvs.len(),
        m.tris == r.tris,
        m.tri_vn == r.tri_vn,
        m.tri_uv == r.tri_uv,
        m.mat_runs == r.mat_runs,
        m.mat_names == r.mat_names,
    ensures
        model_ok(r),
{
}

/// Every model is in order, whatever the file holds.
pub proof fn models_are_in_order(l: Seq<Seq<char>>)
    ensures
        model_ok(model_of(l)),
    decreases l.len(),
{
    if l.len() > 0 {
        models_are_in_order(l.drop_last());
        lemma_with_line(model_of(l.drop_last()), l.last());
    }
}

/// What a file holds.
pub struct ParsedObj {
    pub positions: Vec<Triple>,
    pub normals: Vec<Triple>,
    pub uvs: Vec<Pair>,
    pub tris: Vec<(usize, usize, usize)>,
    pub tri_vn: Vec<(u32, u32, u32)>,
    pub tri_uv: Vec<(u32, u32, u32)>,
    pub mat_runs: Vec<(usize, usize)>,
    pub mat_names: Vec<String>,
    pub mtllibs: Vec<String>,
}

pub open spec fn triples(v: Seq<Triple>) -> Seq<(Seq<char>, Seq<char>, Seq<char>)> {
    v.map_values(|t: Triple| t@)
}

pub open spec fn pairs(v: Seq<Pair>) -> Seq<(Seq<char>, Seq<char>)> {
    v.map_values(|t: Pair| t@)
}

pub open spec fn strings(v: Seq<String>) -> Seq<Seq<char>> {
    v.map_values(|t: String| t@)
}

pub open spec fn as_ints3(v: Seq<(usize, usize, usize)>) -> Seq<(int, int, int)> {
    v.map_values(|t: (usize, usize, usize)| (t.0 as int, t.1 as int, t.2 as int))
}

pub open spec fn as_ints2(v: Seq<(usize, usize)>) -> Seq<(int, int)> {
    v.map_values(|t: (usize, usize)| (t.0 as int, t.1 as int))
}

impl ParsedObj {
    /// Whether this is the model `m`.
    pub open spec fn is(&self, m: ObjModel) -> bool {
        &&& triples(self.positions@) == m.positions
        &&& triples(self.normals@) == m.normals
        &&& pairs(self.uvs@) == m.uvs
        &&& as_ints3(self.tris@) == m.tris
        &&& self.tri_vn@ == m.tri_vn
        &&& self.tri_uv@ == m.tri_uv
        &&& as_ints2(self.mat_runs@) == m.mat_runs
        &&& strings(self.mat_names@) == m.mat_names
        &&& strings(self.mtllibs@) == m.mtllibs
    }
}

impl ParsedObj {
    /// Whether whatever the triangles and the runs refer to exists, and every triangle has a run.
    pub open spec fn ok(&self) -> bool {
        &&& self.triangles_ok()
        &&& forall|k: int|
            0 <= k < self.mat_runs@.len() ==> (#[trigger] self.mat_runs@[k]).1
                < self.mat_names@.len()
        &&& self.tris@.len() > 0 ==> self.mat_runs@.len() > 0 && self.mat_runs@[0].0 == 0
    }

    /// Whether whatever the triangles refer to exists.
    pub open spec fn triangles_ok(&self) -> bool {
        &&& self.tri_vn@.len() == self.tris@.len()
        &&& self.tri_uv@.len() == self.tris@.len()
        &&& forall|k: int|
            0 <= k < self.tris@.len() ==> {
                let t = #[trigger] self.tris@[k];
                t.0 < self.positions@.len() && t.1 < self.positions@.len() && t.2
                    < self.positions@.len()
            }
        &&& all_refer(self.tri_vn@, self.normals@.len() as int)
        &&& all_refer(self.tri_uv@, self.uvs@.len() as int)
    }
}

/// Whether every corner refers to one of `n` entries, or to none.
pub open spec fn all_refer(t: Seq<(u32, u32, u32)>, n: int) -> bool {
    forall|k: int|
        0 <= k < t.len() ==> refers((#[trigger] t[k]).0, n) && refers(t[k].1, n) && refers(
            t[k].2,
            n,
        )
}

proof fn lemma_parsed_ok(p: ParsedObj, m: ObjModel)
    requires
        p.is(m),
        model_ok(m),
    ensures
        p.ok(),
{
    assert(triples(p.positions@).len() == p.positions@.len());
    assert(triples(p.normals@).len() == p.normals@.len());
    assert(pairs(p.uvs@).len() == p.uvs@.len());
    assert(strings(p.mat_names@).len() == p.mat_names@.len());
    assert(as_ints3(p.tris@).len() == p.tris@.len());
    assert forall|k: int| 0 <= k < p.tris@.len() implies {
        let t = #[trigger] p.tris@[k];
        t.0 < p.positions@.len() && t.1 < p.positions@.len() && t.2 < p.positions@.len()
    } by {
        assert(m.tris[k] == as_ints3(p.tris@)[k]);
    }
    assert forall|k: int| 0 <= k < p.mat_runs@.len() implies (#[trigger] p.mat_runs@[k]).1
        < p.mat_names@.len() by {
        assert(m.mat_runs[k] == as_ints2(p.mat_runs@)[k]);
    }
    if p.tris@.len() > 0 {
        assert(m.mat_runs[0] == as_ints2(p.mat_runs@)[0]);
    }
}

fn position_of_name(names: &Vec<String>, name: &[char]) -> (r: usize)
    ensures
        r == name_index(strings(names@), name@),
{
    let ghost all = strings(names@);
    let mut i: usize = 0;
    assert(all.skip(0) =~= all);
    while i < names.len()
        invariant
            i <= names@.len(),
            all == strings(names@),
            name_index(all, name@) == i + name_index(all.skip(i as int), name@),
        decreases names@.len() - i,
    {
        let ghost rest = all.skip(i as int);
        assert(rest[0] == names@[i as int]@);
        if is_word(name, names[i].as_str()) {
            return i;
        }
        assert(rest.skip(1) =~= all.skip(i + 1));
        i += 1;
    }
    i
}

/// Adds a face.
fn add_face(p: &mut ParsedObj, material: &Vec<char>, c: &Vec<(usize, u32, u32)>, Ghost(m): Ghost<ObjModel>)
    requires
        old(p).is(m),
        m.material == material@,
    ensures
        final(p).is(with_face(m, as_corners(c@))),
{
    if c.len() < 3 {
        return;
    }
    let mi: usize = position_of_name(&p.mat_names, material);
    proof {
        lemma_name_index(m.mat_names, m.material);
    }
    if mi == p.mat_names.len() {
        let ghost before = p.mat_names@;
        p.mat_names.push(string_of(material));
        assert(strings(p.mat_names@) =~= strings(before).push(material@));
    }
    let same: bool = p.mat_runs.len() > 0 && p.mat_runs[p.mat_runs.len() - 1].1 == mi;
    assert(p.mat_runs@.len() > 0 ==> as_ints2(p.mat_runs@).last() == (
        p.mat_runs@.last().0 as int,
        p.mat_runs@.last().1 as int,
    ));
    if !same {
        let ghost before = p.mat_runs@;
        p.mat_runs.push((p.tris.len(), mi));
        assert(as_ints2(p.mat_runs@) =~= as_ints2(before).push((p.tris@.len() as int, mi as int)));
    }
    let ghost t0 = as_ints3(p.tris@);
    let ghost u0 = p.tri_uv@;
    let ghost n0 = p.tri_vn@;
    let ghost cs = as_corners(c@);
    let ghost names = p.mat_names@;
    let ghost runs = p.mat_runs@;
    let (i0, a0, b0) = c[0];
    let n: usize = c.len();
    let mut k: usize = 0;
    while k < n - 2
        invariant
            k + 2 <= n,
            n == c@.len(),
            3 <= c@.len(),
            cs == as_corners(c@),
            (i0, a0, b0) == c@[0],
            p.mat_names@ == names,
            p.mat_runs@ == runs,
            p.positions@ == old(p).positions@,
            p.normals@ == old(p).normals@,
            p.uvs@ == old(p).uvs@,
            p.mtllibs@ == old(p).mtllibs@,
            as_ints3(p.tris@) == t0 + Seq::new(
                k as nat,
                |k: int| (cs[0].0, cs[k + 1].0, cs[k + 2].0),
            ),
            p.tri_uv@ == u0 + Seq::new(k as nat, |k: int| (cs[0].1, cs[k + 1].1, cs[k + 2].1)),
            p.tri_vn@ == n0 + Seq::new(k as nat, |k: int| (cs[0].2, cs[k + 1].2, cs[k + 2].2)),
        decreases c@.len() - k,
    {
        let (i1, a1, b1) = c[k + 1];
        let (i2, a2, b2) = c[k + 2];
        let ghost before = p.tris@;
        p.tris.push((i0, i1, i2));
        p.tri_uv.push((a0, a1, a2));
        p.tri_vn.push((b0, b1, b2));
        k += 1;
        proof {
            assert(as_ints3(p.tris@) =~= as_ints3(before).push((i0 as int, i1 as int, i2 as int)));
            assert(as_ints3(p.tris@) =~= t0 + Seq::new(
                k as nat,
                |k: int| (cs[0].0, cs[k + 1].0, cs[k + 2].0),
            ));
            assert(p.tri_uv@ =~= u0 + Seq::new(
                k as nat,
                |k: int| (cs[0].1, cs[k + 1].1, cs[k + 2].1),
            ));
            assert(p.tri_vn@ =~= n0 + Seq::new(
                k as nat,
                |k: int| (cs[0].2, cs[k + 1].2, cs[k + 2].2),
            ));
        }
    }
    assert(t0.len() == m.tris.len());
}

pub open spec fn as_corners(c: Seq<(usize, u32, u32)>) -> Seq<(int, u32, u32)> {
    c.map_values(|x: (usize, u32, u32)| (x.0 as int, x.1, x.2))
}

fn read_corners(toks: &Vec<&[char]>, nv: usize, nt: usize, nn: usize) -> (c: Vec<(usize, u32, u32)>)
    ensures
        as_corners(c@) == corners(texts(toks@), nv as int, nt as int, nn as int),
{
    let mut c: Vec<(usize, u32, u32)> = Vec::new();
    let ghost all = texts(toks@);
    let mut i: usize = 0;
    assert(all.take(0) =~= Seq::<Seq<char>>::empty());
    assert(as_corners(c@) =~= Seq::<(int, u32, u32)>::empty());
    while i < toks.len()
        invariant
            i <= toks@.len(),
            all == texts(toks@),
            as_corners(c@) == corners(all.take(i as int), nv as int, nt as int, nn as int),
        decreases toks@.len() - i,
    {
        let (v, t, n) = parse_face_token(toks[i], nv, nt, nn);
        let ghost before = c@;
        proof {
            assert(all.take(i + 1).drop_last() =~= all.take(i as int));
            assert(all[i as int] == toks@[i as int]@);
            lemma_corner_range(toks@[i as int]@, nv as int, nt as int, nn as int);
        }
        if let Some(vi) = v {
            c.push((vi, to_32_bits(t), to_32_bits(n)));
            assert(as_corners(c@) =~= as_corners(before).push(
                (c@.last().0 as int, c@.last().1, c@.last().2),
            ));
        }
        i += 1;
    }
    assert(all.take(i as int) =~= all);
    c
}

proof fn lemma_corner_range(tok: Seq<char>, nv: int, nt: int, nn: int)
    requires
        0 <= nv <= usize::MAX,
        0 <= nt <= usize::MAX,
        0 <= nn <= usize::MAX,
    ensures
        ({
            let c = corner_of(tok, nv, nt, nn);
            &&& c.0 matches Some(v) ==> 0 <= v < nv
            &&& c.1 matches Some(t) ==> 0 <= t < nt
            &&& c.2 matches Some(n) ==> 0 <= n < nn
        }),
{
}

/// Reads one more line.
fn read_line(p: &mut ParsedObj, material: &mut Vec<char>, line: &[char], Ghost(m): Ghost<ObjModel>)
    requires
        old(p).is(m),
        m.material == old(material)@,
    ensures
        final(p).is(with_line(m, line@)),
        with_line(m, line@).material == final(material)@,
{
    let l = trim(line);
    if l.len() == 0 {
        return;
    }
    if l[0] == '#' {
        return;
    }
    proof {
        reveal_strlit("v ");
        reveal_strlit("vt ");
        reveal_strlit("vn ");
        reveal_strlit("usemtl ");
        reveal_strlit("mtllib ");
        reveal_strlit("f ");
    }
    if let Some(rest) = after_prefix(l, "v ") {
        let w = split_words(rest);
        let t = Triple { x: number(&w, 0), y: number(&w, 1), z: number(&w, 2) };
        let ghost before = p.positions@;
        p.positions.push(t);
        assert(triples(p.positions@) =~= triples(before).push(t@));
    } else if let Some(rest) = after_prefix(l, "vt ") {
        let w = split_words(rest);
        let t = Pair { u: number(&w, 0), v: number(&w, 1) };
        let ghost before = p.uvs@;
        p.uvs.push(t);
        assert(pairs(p.uvs@) =~= pairs(before).push(t@));
    } else if let Some(rest) = after_prefix(l, "vn ") {
        let w = split_words(rest);
        let t = Triple { x: number(&w, 0), y: number(&w, 1), z: number(&w, 2) };
        let ghost before = p.normals@;
        p.normals.push(t);
        assert(triples(p.normals@) =~= triples(before).push(t@));
    } else if let Some(rest) = after_prefix(l, "usemtl ") {
        let name = trim(rest);
        *material = vstd::slice::slice_to_vec(name);
    } else if let Some(rest) = after_prefix(l, "mtllib ") {
        let ghost before = p.mtllibs@;
        p.mtllibs.push(string_of(trim(rest)));
        assert(strings(p.mtllibs@) =~= strings(before).push(trimmed(rest@)));
    } else if let Some(rest) = after_prefix(l, "f ") {
        let w = split_words(rest);
        let c = read_corners(&w, p.positions.len(), p.uvs.len(), p.normals.len());
        assert(triples(p.positions@).len() == p.positions@.len());
        assert(pairs(p.uvs@).len() == p.uvs@.len());
        assert(triples(p.normals@).len() == p.normals@.len());
        add_face(p, material, &c, Ghost(m));
    }
}

/// Reads an OBJ file.
pub fn parse_obj(text: &str) -> (r: ParsedObj)
    ensures
        r.is(model_of(lines(text@))),
        model_ok(model_of(lines(text@))),
        r.ok(),
{
    let chars = chars_of(text);
    let ls = split_lines(&chars);
    let ghost all = lines(text@);
    let mut p = ParsedObj {
        positions: Vec::new(),
        normals: Vec::new(),
        uvs: Vec::new(),
        tris: Vec::new(),
        tri_vn: Vec::new(),
        tri_uv: Vec::new(),
        mat_runs: Vec::new(),
        mat_names: Vec::new(),
        mtllibs: Vec::new(),
    };
    let mut material: Vec<char> = Vec::new();
    let mut i: usize = 0;
    proof {
        assert(all.take(0) =~= Seq::<Seq<char>>::empty());
        assert(triples(p.positions@) =~= Seq::empty());
        assert(triples(p.normals@) =~= Seq::empty());
        assert(pairs(p.uvs@) =~= Seq::empty());
        assert(as_ints3(p.tris@) =~= Seq::empty());
        assert(as_ints2(p.mat_runs@) =~= Seq::empty());
        assert(strings(p.mat_names@) =~= Seq::empty());
        assert(strings(p.mtllibs@) =~= Seq::empty());
    }
    while i < ls.len()
        invariant
            i <= ls@.len(),
            texts(ls@) == all,
            p.is(model_of(all.take(i as int))),
            model_of(all.take(i as int)).material == material@,
        decreases ls@.len() - i,
    {
        let ghost m = model_of(all.take(i as int));
        proof {
            assert(all.take(i + 1).drop_last() =~= all.take(i as int));
            assert(all[i as int] == ls@[i as int]@);
        }
        read_line(&mut p, &mut material, ls[i], Ghost(m));
        i += 1;
    }
    proof {
        assert(all.take(i as int) =~= all);
        models_are_in_order(all);
        lemma_parsed_ok(p, model_of(all));
    }
    p
}

/// Three marks for none.
pub open spec fn none3() -> (u32, u32, u32) {
    (u32::MAX, u32::MAX, u32::MAX)
}

/// Whether all three corners have one.
pub open spec fn complete(t: (u32, u32, u32)) -> bool {
    t.0 != u32::MAX && t.1 != u32::MAX && t.2 != u32::MAX
}

/// Whether all three corners have a normal that can be used.
pub open spec fn smooth(t: (u32, u32, u32), usable: Seq<bool>) -> bool {
    complete(t) && usable[t.0 as int] && usable[t.1 as int] && usable[t.2 as int]
}

/// Triangles whose three corners have a usable normal, the others with none at all.
pub open spec fn smoothed(t: Seq<(u32, u32, u32)>, usable: Seq<bool>) -> Seq<(u32, u32, u32)> {
    t.map_values(
        |x: (u32, u32, u32)|
            if smooth(x, usable) {
                x
            } else {
                none3()
            },
    )
}

/// Triangles whose three corners have texture coordinates, the others with none at all.
pub open spec fn mapped(t: Seq<(u32, u32, u32)>) -> Seq<(u32, u32, u32)> {
    t.map_values(
        |x: (u32, u32, u32)|
            if complete(x) {
                x
            } else {
                none3()
            },
    )
}

pub open spec fn any_smooth(t: Seq<(u32, u32, u32)>, usable: Seq<bool>) -> bool {
    exists|k: int| 0 <= k < t.len() && smooth(#[trigger] t[k], usable)
}

pub open spec fn any_mapped(t: Seq<(u32, u32, u32)>) -> bool {
    exists|k: int| 0 <= k < t.len() && complete(#[trigger] t[k])
}

/// Drops incomplete normals: a triangle has a usable normal at every corner or at none, and
/// where no triangle is left with any, both lists are emptied. `usable` says which normals have
/// a length.
pub fn normalize_tri_vn(
    normals: &mut Vec<Triple>,
    usable: &Vec<bool>,
    tri_vn: &mut Vec<(u32, u32, u32)>,
)
    requires
        usable@.len() == old(normals)@.len(),
        all_refer(old(tri_vn)@, old(normals)@.len() as int),
    ensures
        any_smooth(old(tri_vn)@, usable@) ==> final(normals)@ == old(normals)@ && final(tri_vn)@
            == smoothed(old(tri_vn)@, usable@),
        !any_smooth(old(tri_vn)@, usable@) ==> final(normals)@.len() == 0 && final(tri_vn)@.len() == 0,
{
    let ghost start = tri_vn@;
    let n: usize = tri_vn.len();
    let mut any: bool = false;
    let mut i: usize = 0;
    while i < n
        invariant
            i <= n,
            n == start.len(),
            n == tri_vn@.len(),
            usable@.len() == normals@.len(),
            normals@ == old(normals)@,
            all_refer(start, normals@.len() as int),
            forall|k: int| i <= k < n ==> #[trigger] tri_vn@[k] == start[k],
            forall|k: int| 0 <= k < i ==> #[trigger] tri_vn@[k] == smoothed(start, usable@)[k],
            any == any_smooth(start.take(i as int), usable@),
        decreases n - i,
    {
        let t: (u32, u32, u32) = tri_vn[i];
        assert(t == start[i as int]);
        let ok: bool = t.0 != NO_NORMAL && t.1 != NO_NORMAL && t.2 != NO_NORMAL
            && usable[t.0 as usize] && usable[t.1 as usize] && usable[t.2 as usize];
        proof {
            let a = start.take(i as int);
            let b = start.take(i + 1);
            assert(b[i as int] == t);
            if ok {
                assert(smooth(b[i as int], usable@));
            }
            if any {
                let k = choose|k: int| 0 <= k < a.len() && smooth(#[trigger] a[k], usable@);
                assert(b[k] == a[k]);
            }
            if any_smooth(b, usable@) {
                let k = choose|k: int| 0 <= k < b.len() && smooth(#[trigger] b[k], usable@);
                if k < i {
                    assert(a[k] == b[k]);
                }
            }
        }
        if ok {
            any = true;
        } else {
            tri_vn.set(i, (NO_NORMAL, NO_NORMAL, NO_NORMAL));
        }
        i += 1;
    }
    assert(start.take(n as int) =~= start);
    if !any {
        normals.clear();
        tri_vn.clear();
    } else {
        assert(tri_vn@ =~= smoothed(start, usable@));
    }
}

/// Drops incomplete texture coordinates: a triangle has them at every corner or at none, and where
/// no triangle is left with any, both lists are emptied.
pub fn normalize_tri_uv(uvs: &mut Vec<Pair>, tri_uv: &mut Vec<(u32, u32, u32)>)
    requires
        all_refer(old(tri_uv)@, old(uvs)@.len() as int),
    ensures
        any_mapped(old(tri_uv)@) ==> final(uvs)@ == old(uvs)@ && final(tri_uv)@ == mapped(
            old(tri_uv)@,
        ),
        !any_mapped(old(tri_uv)@) ==> final(uvs)@.len() == 0 && final(tri_uv)@.len() == 0,
{
    let ghost start = tri_uv@;
    let n: usize = tri_uv.len();
    let mut any: bool = false;
    let mut i: usize = 0;
    while i < n
        invariant
            i <= n,
            n == start.len(),
            n == tri_uv@.len(),
            uvs@ == old(uvs)@,
            forall|k: int| i <= k < n ==> #[trigger] tri_uv@[k] == start[k],
            forall|k: int| 0 <= k < i ==> #[trigger] tri_uv@[k] == mapped(start)[k],
            any == any_mapped(start.take(i as int)),
        decreases n - i,
    {
        let t: (u32, u32, u32) = tri_uv[i];
        assert(t == start[i as int]);
        let ok: bool = t.0 != NO_UV && t.1 != NO_UV && t.2 != NO_UV;
        proof {
            let a = start.take(i as int);
            let b = start.take(i + 1);
            assert(b[i as int] == t);
            if ok {
                assert(complete(b[i as int]));
            }
            if any {
                let k = choose|k: int| 0 <= k < a.len() && complete(#[trigger] a[k]);
                assert(b[k] == a[k]);
            }
            if any_mapped(b) {
                let k = choose|k: int| 0 <= k < b.len() && complete(#[trigger] b[k]);
                if k < i {
                    assert(a[k] == b[k]);
                }
            }
        }
        if ok {
            any = true;
        } else {
            tri_uv.set(i, (NO_UV, NO_UV, NO_UV));
        }
        i += 1;
    }
    assert(start.take(n as int) =~= start);
    if !any {
        uvs.clear();
        tri_uv.clear();
    } else {
        assert(tri_uv@ =~= mapped(start));
    }
}

/// A mesh: vertices, triangles with their materials, and what there is of normals, texture
/// coordinates and positions at the end of a motion.
pub struct MeshData {
    pub positions: Vec<Triple>,
    pub tris: Vec<(usize, usize, usize)>,
    /// The material of each triangle.
    pub mat_ids: Vec<usize>,
    pub vn: Vec<Triple>,
    /// The normals of each triangle, or nothing if no triangle has any.
    pub tri_vn: Vec<(u32, u32, u32)>,
    pub uv: Vec<Pair>,
    /// The texture coordinates of each triangle, or nothing if no triangle has any.
    pub tri_uv: Vec<(u32, u32, u32)>,
    /// The vertices when the shutter closes, or nothing if they do not move.
    pub motion: Vec<Triple>,
}

impl MeshData {
    /// Whether any triangle has texture coordinates.
    pub open spec fn textured(&self) -> bool {
        self.uv@.len() > 0 && self.tri_uv@.len() > 0
    }

    /// Whether any triangle has normals.
    pub open spec fn is_smooth(&self) -> bool {
        self.vn@.len() > 0 && self.tri_vn@.len() > 0
    }

    /// Whether whatever the triangles refer to exists, and every triangle has a material.
    pub open spec fn ok(&self) -> bool {
        &&& self.mat_ids@.len() == self.tris@.len()
        &&& forall|k: int|
            0 <= k < self.tris@.len() ==> {
                let t = #[trigger] self.tris@[k];
                t.0 < self.positions@.len() && t.1 < self.positions@.len() && t.2
                    < self.positions@.len()
            }
        &&& self.tri_vn@.len() == 0 || self.tri_vn@.len() == self.tris@.len()
        &&& self.tri_uv@.len() == 0 || self.tri_uv@.len() == self.tris@.len()
        &&& self.motion@.len() == 0 || self.motion@.len() == self.positions@.len()
        &&& forall|k: int|
            0 <= k < self.tri_vn@.len() ==> (#[trigger] self.tri_vn@[k] == none3() || (complete(
                self.tri_vn@[k],
            ) && refers(self.tri_vn@[k].0, self.vn@.len() as int) && refers(
                self.tri_vn@[k].1,
                self.vn@.len() as int,
            ) && refers(self.tri_vn@[k].2, self.vn@.len() as int)))
        &&& forall|k: int|
            0 <= k < self.tri_uv@.len() ==> (#[trigger] self.tri_uv@[k] == none3() || (complete(
                self.tri_uv@[k],
            ) && refers(self.tri_uv@[k].0, self.uv@.len() as int) && refers(
                self.tri_uv@[k].1,
                self.uv@.len() as int,
            ) && refers(self.tri_uv@[k].2, self.uv@.len() as int)))
    }

    /// A mesh with neither normals nor texture coordinates.
    pub fn flat(
        positions: Vec<Triple>,
        tris: Vec<(usize, usize, usize)>,
        mat_ids: Vec<usize>,
    ) -> (r: Self)
        requires
            mat_ids@.len() == tris@.len(),
            forall|k: int|
                0 <= k < tris@.len() ==> {
                    let t = #[trigger] tris@[k];
                    t.0 < positions@.len() && t.1 < positions@.len() && t.2 < positions@.len()
                },
        ensures
            r.ok(),
            r.positions == positions,
            r.tris == tris,
            r.mat_ids == mat_ids,
            !r.is_smooth(),
            !r.textured(),
            r.vn@.len() == 0 && r.tri_vn@.len() == 0 && r.uv@.len() == 0 && r.tri_uv@.len() == 0,
            r.motion@.len() == 0,
    {
        MeshData {
            positions,
            tris,
            mat_ids,
            vn: Vec::new(),
            tri_vn: Vec::new(),
            uv: Vec::new(),
            tri_uv: Vec::new(),
            motion: Vec::new(),
        }
    }

    /// A mesh with texture coordinates but no normals.
    pub fn with_uv(
        positions: Vec<Triple>,
        tris: Vec<(usize, usize, usize)>,
        mat_ids: Vec<usize>,
        uv: Vec<Pair>,
        tri_uv: Vec<(u32, u32, u32)>,
    ) -> (r: Self)
        requires
            mat_ids@.len() == tris@.len(),
            tri_uv@.len() == tris@.len(),
            forall|k: int|
                0 <= k < tris@.len() ==> {
                    let t = #[trigger] tris@[k];
                    t.0 < positions@.len() && t.1 < positions@.len() && t.2 < positions@.len()
                },
            forall|k: int|
                0 <= k < tri_uv@.len() ==> {
                    let t = #[trigger] tri_uv@[k];
                    complete(t) && t.0 < uv@.len() && t.1 < uv@.len() && t.2 < uv@.len()
                },
        ensures
            r.ok(),
            r.positions == positions,
            r.tris == tris,
            r.mat_ids == mat_ids,
            r.uv == uv,
            r.tri_uv == tri_uv,
            !r.is_smooth(),
            r.vn@.len() == 0 && r.tri_vn@.len() == 0,
            r.motion@.len() == 0,
    {
        MeshData {
            positions,
            tris,
            mat_ids,
            vn: Vec::new(),
            tri_vn: Vec::new(),
            uv,
            tri_uv,
            motion: Vec::new(),
        }
    }

    /// Numbers the materials of the triangles from `base` on.
    pub fn shift_materials(&mut self, base: usize)
        requires
            forall|k: int|
                0 <= k < old(self).mat_ids@.len() ==> #[trigger] old(self).mat_ids@[k] + base
                    <= usize::MAX,
        ensures
            final(self).mat_ids@.len() == old(self).mat_ids@.len(),
            forall|k: int|
                0 <= k < old(self).mat_ids@.len() ==> #[trigger] final(self).mat_ids@[k]
                    == old(self).mat_ids@[k] + base,
            *final(self) == (MeshData { mat_ids: final(self).mat_ids, ..*old(self) }),
    {
        let ghost start = self.mat_ids@;
        let mut ids: Vec<usize> = Vec::new();
        let mut i: usize = 0;
        while i < self.mat_ids.len()
            invariant
                i <= self.mat_ids@.len(),
                start == self.mat_ids@,
                ids@.len() == i,
                forall|k: int| 0 <= k < start.len() ==> #[trigger] start[k] + base <= usize::MAX,
                forall|k: int| 0 <= k < i ==> #[trigger] ids@[k] == start[k] + base,
            decreases self.mat_ids@.len() - i,
        {
            assert(start[i as int] + base <= usize::MAX);
            ids.push(self.mat_ids[i] + base);
            i += 1;
        }
        self.mat_ids = ids;
    }

    /// Whether any triangle has texture coordinates.
    pub fn has_uv(&self) -> (r: bool)
        ensures
            r == self.textured(),
    {
        self.uv.len() > 0 && self.tri_uv.len() > 0
    }

    /// Whether any triangle has normals.
    pub fn has_normals(&self) -> (r: bool)
        ensures
            r == self.is_smooth(),
    {
        self.vn.len() > 0 && self.tri_vn.len() > 0
    }

    /// The mesh without its normals; texture coordinates stay.
    pub fn into_flat(self) -> (r: Self)
        ensures
            !r.is_smooth(),
            r.vn@.len() == 0,
            r.tri_vn@.len() == 0,
            r.positions == self.positions,
            r.tris == self.tris,
            r.mat_ids == self.mat_ids,
            r.uv == self.uv,
            r.tri_uv == self.tri_uv,
            r.motion == self.motion,
            self.ok() ==> r.ok(),
    {
        MeshData {
            positions: self.positions,
            tris: self.tris,
            mat_ids: self.mat_ids,
            vn: Vec::new(),
            tri_vn: Vec::new(),
            uv: self.uv,
            tri_uv: self.tri_uv,
            motion: self.motion,
        }
    }
}

/// The material of triangle `ti`: that of the last of the first `n` runs that starts by then.
pub open spec fn run_material(runs: Seq<(usize, usize)>, ti: int, n: int) -> usize
    decreases n,
{
    if n <= 0 {
        0
    } else if runs[n - 1].0 <= ti {
        runs[n - 1].1
    } else {
        run_material(runs, ti, n - 1)
    }
}

/// The material of every triangle of a file.
pub open spec fn group_materials(p: ParsedObj) -> Seq<usize> {
    Seq::new(
        p.tris@.len(),
        |ti: int| run_material(p.mat_runs@, ti, p.mat_runs@.len() as int),
    )
}

/// Whether the normals and texture coordinates of `r` are those of `p`, with the incomplete ones
/// dropped.
pub open spec fn dressed(r: MeshData, p: ParsedObj, usable: Seq<bool>) -> bool {
    &&& any_smooth(p.tri_vn@, usable) ==> triples(r.vn@) == triples(p.normals@) && r.tri_vn@
        == smoothed(p.tri_vn@, usable)
    &&& !any_smooth(p.tri_vn@, usable) ==> r.vn@.len() == 0 && r.tri_vn@.len() == 0
    &&& any_mapped(p.tri_uv@) ==> pairs(r.uv@) == pairs(p.uvs@) && r.tri_uv@ == mapped(p.tri_uv@)
    &&& !any_mapped(p.tri_uv@) ==> r.uv@.len() == 0 && r.tri_uv@.len() == 0
}

/// A mesh of what a file holds, with the material of each triangle given.
fn static_mesh(p: ParsedObj, usable: &Vec<bool>, mat_ids: Vec<usize>) -> (r: MeshData)
    requires
        p.triangles_ok(),
        usable@.len() == p.normals@.len(),
        mat_ids@.len() == p.tris@.len(),
    ensures
        r.ok(),
        dressed(r, p, usable@),
        r.positions@ == p.positions@,
        r.tris@ == p.tris@,
        r.mat_ids@ == mat_ids@,
        r.motion@.len() == 0,
{
    let mut vn = p.normals;
    let mut tri_vn = p.tri_vn;
    normalize_tri_vn(&mut vn, usable, &mut tri_vn);
    let mut uv = p.uvs;
    let mut tri_uv = p.tri_uv;
    normalize_tri_uv(&mut uv, &mut tri_uv);
    let r = MeshData {
        positions: p.positions,
        tris: p.tris,
        mat_ids,
        vn,
        tri_vn,
        uv,
        tri_uv,
        motion: Vec::new(),
    };
    proof {
        let n = p.normals@.len() as int;
        assert forall|k: int| 0 <= k < r.tri_vn@.len() implies (#[trigger] r.tri_vn@[k] == none3()
            || (complete(r.tri_vn@[k]) && refers(r.tri_vn@[k].0, n) && refers(r.tri_vn@[k].1, n)
            && refers(r.tri_vn@[k].2, n))) by {
            assert(refers(p.tri_vn@[k].0, n));
        }
        let u = p.uvs@.len() as int;
        assert forall|k: int| 0 <= k < r.tri_uv@.len() implies (#[trigger] r.tri_uv@[k] == none3()
            || (complete(r.tri_uv@[k]) && refers(r.tri_uv@[k].0, u) && refers(r.tri_uv@[k].1, u)
            && refers(r.tri_uv@[k].2, u))) by {
            assert(refers(p.tri_uv@[k].0, u));
        }
    }
    r
}

/// A mesh of one material, whatever materials the file names.
pub fn load_obj_mesh(p: ParsedObj, usable: &Vec<bool>, mat_id: usize) -> (r: MeshData)
    requires
        p.ok(),
        usable@.len() == p.normals@.len(),
    ensures
        r.ok(),
        dressed(r, p, usable@),
        r.positions@ == p.positions@,
        r.tris@ == p.tris@,
        r.mat_ids@ == Seq::new(p.tris@.len(), |i: int| mat_id),
        r.motion@.len() == 0,
{
    let ids = same_material(p.tris.len(), mat_id);
    static_mesh(p, usable, ids)
}

fn same_material(n: usize, mat_id: usize) -> (r: Vec<usize>)
    ensures
        r@ == Seq::new(n as nat, |i: int| mat_id),
{
    let mut r: Vec<usize> = Vec::new();
    let mut i: usize = 0;
    while i < n
        invariant
            i <= n,
            r@ == Seq::new(i as nat, |i: int| mat_id),
        decreases n - i,
    {
        r.push(mat_id);
        i += 1;
        assert(r@ =~= Seq::new(i as nat, |i: int| mat_id));
    }
    r
}

/// A mesh whose triangles have the materials that the file names.
pub struct ObjGroups {
    /// The mesh, with positions among `mat_names` for materials.
    pub mesh: MeshData,
    pub mat_names: Vec<String>,
    pub mtllibs: Vec<String>,
}

/// A mesh whose triangles have the materials that the file names.
pub fn load_obj_groups(p: ParsedObj, usable: &Vec<bool>) -> (r: ObjGroups)
    requires
        p.ok(),
        usable@.len() == p.normals@.len(),
    ensures
        r.mesh.ok(),
        dressed(r.mesh, p, usable@),
        r.mesh.positions@ == p.positions@,
        r.mesh.tris@ == p.tris@,
        r.mesh.mat_ids@ == group_materials(p),
        r.mesh.motion@.len() == 0,
        r.mat_names@ == p.mat_names@,
        r.mtllibs@ == p.mtllibs@,
        forall|i: int|
            0 <= i < r.mesh.mat_ids@.len() ==> #[trigger] r.mesh.mat_ids@[i] < r.mat_names@.len(),
{
    let mut ids: Vec<usize> = Vec::new();
    let n: usize = p.tris.len();
    let mut ti: usize = 0;
    while ti < n
        invariant
            ti <= n,
            n == p.tris@.len(),
            p.ok(),
            ids@ == group_materials(p).take(ti as int),
            forall|i: int|
                0 <= i < ids@.len() ==> #[trigger] ids@[i] < p.mat_names@.len(),
        decreases n - ti,
    {
        let mut k: usize = p.mat_runs.len();
        let mut id: usize = 0;
        let mut go: bool = true;
        while go && k > 0
            invariant
                k <= p.mat_runs@.len(),
                p.ok(),
                !go ==> id < p.mat_names@.len(),
                go ==> forall|j: int|
                    k <= j < p.mat_runs@.len() ==> (#[trigger] p.mat_runs@[j]).0 > ti,
                go ==> id == 0 && run_material(
                    p.mat_runs@,
                    ti as int,
                    p.mat_runs@.len() as int,
                ) == run_material(p.mat_runs@, ti as int, k as int),
                !go ==> id == run_material(p.mat_runs@, ti as int, p.mat_runs@.len() as int),
            decreases k + (if go {
                1int
            } else {
                0
            }),
        {
            if p.mat_runs[k - 1].0 <= ti {
                id = p.mat_runs[k - 1].1;
                assert(p.mat_runs@[k - 1].1 < p.mat_names@.len());
                go = false;
            } else {
                k -= 1;
            }
        }
        proof {
            if go {
                assert(p.mat_runs@[0].0 > ti);
            }
        }
        ids.push(id);
        ti += 1;
        assert(ids@ =~= group_materials(p).take(ti as int));
    }
    assert(ids@ =~= group_materials(p));
    let mut q = p;
    let mut mat_names: Vec<String> = Vec::new();
    let mut mtllibs: Vec<String> = Vec::new();
    mat_names.append(&mut q.mat_names);
    mtllibs.append(&mut q.mtllibs);
    assert(mat_names@ =~= p.mat_names@);
    assert(mtllibs@ =~= p.mtllibs@);
    let mesh = static_mesh(q, usable, ids);
    ObjGroups { mesh, mat_names, mtllibs }
}

/// Why two files are not the same mesh at two times.
#[derive(Clone, Copy, Debug, PartialEq, Eq, Structural)]
pub enum TopologyMismatch {
    /// They have different numbers of vertices or triangles.
    Counts,
    /// Some triangle joins different vertices.
    Indices,
}

/// What is wrong with two files as one mesh at two times, if anything is.
pub open spec fn mismatch(a: ParsedObj, b: ParsedObj) -> Option<TopologyMismatch> {
    if a.positions@.len() != b.positions@.len() || a.tris@.len() != b.tris@.len() {
        Some(TopologyMismatch::Counts)
    } else if a.tris@ != b.tris@ {
        Some(TopologyMismatch::Indices)
    } else {
        None
    }
}

fn find_mismatch(a: &ParsedObj, b: &ParsedObj) -> (r: Option<TopologyMismatch>)
    ensures
        r == mismatch(*a, *b),
{
    if a.positions.len() != b.positions.len() || a.tris.len() != b.tris.len() {
        return Some(TopologyMismatch::Counts);
    }
    let n: usize = a.tris.len();
    let mut i: usize = 0;
    while i < n
        invariant
            i <= n,
            n == a.tris@.len(),
            n == b.tris@.len(),
            a.positions@.len() == b.positions@.len(),
            forall|k: int| 0 <= k < i ==> a.tris@[k] == b.tris@[k],
        decreases n - i,
    {
        let x: (usize, usize, usize) = a.tris[i];
        let y: (usize, usize, usize) = b.tris[i];
        if x.0 != y.0 || x.1 != y.1 || x.2 != y.2 {
            assert(a.tris@[i as int] != b.tris@[i as int]);
            return Some(TopologyMismatch::Indices);
        }
        i += 1;
    }
    assert(a.tris@ =~= b.tris@);
    None
}

/// A mesh whose vertices move from those of `a` to those of `b`, with the normals and texture
/// coordinates of `a`. Both must have the same triangles.
pub fn load_obj_mesh_mb(a: ParsedObj, b: ParsedObj, usable: &Vec<bool>, mat_id: usize) -> (r: Result<
    MeshData,
    TopologyMismatch,
>)
    requires
        a.ok(),
        usable@.len() == a.normals@.len(),
    ensures
        match r {
            Err(e) => mismatch(a, b) == Some(e),
            Ok(m) => mismatch(a, b) is None && m.ok() && dressed(m, a, usable@) && m.positions@
                == a.positions@ && m.tris@ == a.tris@ && m.mat_ids@ == Seq::new(
                a.tris@.len(),
                |i: int| mat_id,
            ) && m.motion@ == b.positions@,
        },
{
    match find_mismatch(&a, &b) {
        Some(e) => Err(e),
        None => {
            let ids = same_material(a.tris.len(), mat_id);
            let mut m = static_mesh(a, usable, ids);
            m.motion = b.positions;
            Ok(m)
        },
    }
}

/// A triangle on its own: its corners and its material.
pub struct ObjTriangle {
    pub v0: Triple,
    pub v1: Triple,
    pub v2: Triple,
    pub mat_id: usize,
}

/// Whether `r` is triangle `k` of a file, of material `mat_id`.
pub open spec fn is_triangle(r: ObjTriangle, p: ParsedObj, k: int, mat_id: usize) -> bool {
    let t = p.tris@[k];
    &&& r.v0@ == p.positions@[t.0 as int]@
    &&& r.v1@ == p.positions@[t.1 as int]@
    &&& r.v2@ == p.positions@[t.2 as int]@
    &&& r.mat_id == mat_id
}

fn copied_triple(t: &Triple) -> (r: Triple)
    ensures
        r@ == t@,
{
    Triple { x: copied(t.x.as_str()), y: copied(t.y.as_str()), z: copied(t.z.as_str()) }
}

/// The triangles of a file, all of one material, without normals and texture coordinates.
pub fn load_obj_triangles(p: &ParsedObj, mat_id: usize) -> (r: Vec<ObjTriangle>)
    requires
        p.ok(),
    ensures
        r@.len() == p.tris@.len(),
        forall|k: int| 0 <= k < r@.len() ==> is_triangle(#[trigger] r@[k], *p, k, mat_id),
{
    let mut r: Vec<ObjTriangle> = Vec::new();
    let n: usize = p.tris.len();
    let mut i: usize = 0;
    while i < n
        invariant
            i <= n,
            n == p.tris@.len(),
            p.ok(),
            r@.len() == i,
            forall|k: int| 0 <= k < i ==> is_triangle(#[trigger] r@[k], *p, k, mat_id),
        decreases n - i,
    {
        let t: (usize, usize, usize) = p.tris[i];
        r.push(
            ObjTriangle {
                v0: copied_triple(&p.positions[t.0]),
                v1: copied_triple(&p.positions[t.1]),
                v2: copied_triple(&p.positions[t.2]),
                mat_id,
            },
        );
        i += 1;
    }
    r
}

/// The triangles of a mesh that moves from `a` to `b`, where they are when the shutter opens. Both
/// files must have the same triangles.
pub fn load_obj_triangles_mb(a: &ParsedObj, b: &ParsedObj, mat_id: usize) -> (r: Result<
    Vec<ObjTriangle>,
    TopologyMismatch,
>)
    requires
        a.ok(),
    ensures
        match r {
            Err(e) => mismatch(*a, *b) == Some(e),
            Ok(v) => mismatch(*a, *b) is None && v@.len() == a.tris@.len() && forall|k: int|
                0 <= k < v@.len() ==> is_triangle(#[trigger] v@[k], *a, k, mat_id),
        },
{
    match find_mismatch(a, b) {
        Some(e) => Err(e),
        None => Ok(load_obj_triangles(a, mat_id)),
    }
}

} // verus!
