//! The shapes that need no file: a square, a cube and a disk.

use crate::obj::{complete, pairs, triples, MeshData, Pair, Triple};
use crate::text::copied;
use vstd::prelude::*;

verus! {

/// Into how many triangles a disk is cut.
pub const DISK_PARTS: usize = 64;

fn point(x: &str, y: &str, z: &str) -> (r: Triple)
    ensures
        r@ == (x@, y@, z@),
{
    Triple { x: copied(x), y: copied(y), z: copied(z) }
}

fn pair(u: &str, v: &str) -> (r: Pair)
    ensures
        r@ == (u@, v@),
{
    Pair { u: copied(u), v: copied(v) }
}

/// The texture coordinates of the corners of a square.
pub open spec fn square_uv() -> Seq<(Seq<char>, Seq<char>)> {
    seq![("0"@, "0"@), ("1"@, "0"@), ("1"@, "1"@), ("0"@, "1"@)]
}

/// The corners of the square from -1 to 1 with z = 0.
pub open spec fn square_corners() -> Seq<(Seq<char>, Seq<char>, Seq<char>)> {
    seq![("-1"@, "-1"@, "0"@), ("1"@, "-1"@, "0"@), ("1"@, "1"@, "0"@), ("-1"@, "1"@, "0"@)]
}

/// The corners of the cube from -1 to 1.
pub open spec fn cube_corners() -> Seq<(Seq<char>, Seq<char>, Seq<char>)> {
    seq![
        ("-1"@, "-1"@, "-1"@),
        ("1"@, "-1"@, "-1"@),
        ("1"@, "1"@, "-1"@),
        ("-1"@, "1"@, "-1"@),
        ("-1"@, "-1"@, "1"@),
        ("1"@, "-1"@, "1"@),
        ("1"@, "1"@, "1"@),
        ("-1"@, "1"@, "1"@),
    ]
}

/// The faces of the cube, by their corners.
pub open spec fn cube_faces() -> Seq<(usize, usize, usize, usize)> {
    seq![
        (0usize, 1usize, 2usize, 3usize),
        (4, 7, 6, 5),
        (0, 4, 5, 1),
        (1, 5, 6, 2),
        (2, 6, 7, 3),
        (3, 7, 4, 0),
    ]
}

fn square_uv_list() -> (r: Vec<Pair>)
    ensures
        pairs(r@) == square_uv(),
        r@.len() == 4,
{
    let mut uv: Vec<Pair> = Vec::new();
    uv.push(pair("0", "0"));
    uv.push(pair("1", "0"));
    uv.push(pair("1", "1"));
    uv.push(pair("0", "1"));
    assert(pairs(uv@) =~= square_uv());
    uv
}

/// The square from -1 to 1, which faces along z: two triangles, textured from corner to corner.
pub fn unit_rectangle_tris(mat_id: usize) -> (r: MeshData)
    ensures
        r.ok(),
        triples(r.positions@) == square_corners(),
        r.tris@ == seq![(0usize, 1usize, 2usize), (0usize, 2usize, 3usize)],
        r.mat_ids@ == seq![mat_id, mat_id],
        pairs(r.uv@) == square_uv(),
        r.tri_uv@ == seq![(0u32, 1u32, 2u32), (0u32, 2u32, 3u32)],
        !r.is_smooth(),
        r.vn@.len() == 0 && r.tri_vn@.len() == 0 && r.motion@.len() == 0,
{
    let mut p: Vec<Triple> = Vec::new();
    p.push(point("-1", "-1", "0"));
    p.push(point("1", "-1", "0"));
    p.push(point("1", "1", "0"));
    p.push(point("-1", "1", "0"));
    assert(triples(p@) =~= square_corners());
    let mut t: Vec<(usize, usize, usize)> = Vec::new();
    t.push((0, 1, 2));
    t.push((0, 2, 3));
    let mut tu: Vec<(u32, u32, u32)> = Vec::new();
    tu.push((0, 1, 2));
    tu.push((0, 2, 3));
    let mut ids: Vec<usize> = Vec::new();
    ids.push(mat_id);
    ids.push(mat_id);
    let uv = square_uv_list();
    MeshData::with_uv(p, t, ids, uv, tu)
}

fn face(k: usize) -> (r: (usize, usize, usize, usize))
    requires
        k < 6,
    ensures
        r == cube_faces()[k as int],
        r.0 < 8 && r.1 < 8 && r.2 < 8 && r.3 < 8,
{
    if k == 0 {
        (0, 1, 2, 3)
    } else if k == 1 {
        (4, 7, 6, 5)
    } else if k == 2 {
        (0, 4, 5, 1)
    } else if k == 3 {
        (1, 5, 6, 2)
    } else if k == 4 {
        (2, 6, 7, 3)
    } else {
        (3, 7, 4, 0)
    }
}

fn cube_corner_list() -> (p: Vec<Triple>)
    ensures
        triples(p@) == cube_corners(),
        p@.len() == 8,
{
    let mut p: Vec<Triple> = Vec::new();
    p.push(point("-1", "-1", "-1"));
    p.push(point("1", "-1", "-1"));
    p.push(point("1", "1", "-1"));
    p.push(point("-1", "1", "-1"));
    p.push(point("-1", "-1", "1"));
    p.push(point("1", "-1", "1"));
    p.push(point("1", "1", "1"));
    p.push(point("-1", "1", "1"));
    assert(triples(p@) =~= cube_corners());
    p
}

/// The cube from -1 to 1: two triangles for each face, each face textured from corner to corner.
pub fn unit_cube_tris(mat_id: usize) -> (r: MeshData)
    ensures
        r.ok(),
        triples(r.positions@) == cube_corners(),
        r.tris@.len() == 12,
        forall|k: int|
            #![trigger cube_faces()[k]]
            0 <= k < 6 ==> {
                let q = cube_faces()[k];
                r.tris@[2 * k] == (q.0, q.1, q.2) && r.tris@[2 * k + 1] == (q.0, q.2, q.3)
            },
        r.mat_ids@ == Seq::new(12, |i: int| mat_id),
        pairs(r.uv@) == square_uv(),
        r.tri_uv@ == Seq::new(
            12,
            |i: int|
                if i % 2 == 0 {
                    (0u32, 1u32, 2u32)
                } else {
                    (0u32, 2u32, 3u32)
                },
        ),
        !r.is_smooth(),
        r.vn@.len() == 0 && r.tri_vn@.len() == 0 && r.motion@.len() == 0,
{
    let p = cube_corner_list();
    let mut t: Vec<(usize, usize, usize)> = Vec::new();
    let mut tu: Vec<(u32, u32, u32)> = Vec::new();
    let mut ids: Vec<usize> = Vec::new();
    let mut k: usize = 0;
    while k < 6
        invariant
            k <= 6,
            t@.len() == 2 * k,
            tu@.len() == 2 * k,
            ids@ == Seq::new((2 * k) as nat, |i: int| mat_id),
            forall|j: int|
                #![trigger cube_faces()[j]]
                0 <= j < k ==> {
                    let q = cube_faces()[j];
                    t@[2 * j] == (q.0, q.1, q.2) && t@[2 * j + 1] == (q.0, q.2, q.3)
                },
            forall|i: int|
                0 <= i < t@.len() ==> (#[trigger] t@[i]).0 < 8 && t@[i].1 < 8 && t@[i].2 < 8,
            forall|i: int|
                0 <= i < tu@.len() ==> #[trigger] tu@[i] == (if i % 2 == 0 {
                    (0u32, 1u32, 2u32)
                } else {
                    (0u32, 2u32, 3u32)
                }),
        decreases 6 - k,
    {
        let q = face(k);
        t.push((q.0, q.1, q.2));
        t.push((q.0, q.2, q.3));
        tu.push((0, 1, 2));
        tu.push((0, 2, 3));
        ids.push(mat_id);
        ids.push(mat_id);
        assert(ids@ =~= Seq::new((2 * (k + 1)) as nat, |i: int| mat_id));
        k += 1;
    }
    let uv = square_uv_list();
    assert forall|j: int| 0 <= j < tu@.len() implies complete(#[trigger] tu@[j]) by {}
    let r = MeshData::with_uv(p, t, ids, uv, tu);
    assert(r.tri_uv@ =~= Seq::new(
        12,
        |i: int|
            if i % 2 == 0 {
                (0u32, 1u32, 2u32)
            } else {
                (0u32, 2u32, 3u32)
            },
    ));
    r
}

/// The triangles of a disk around its centre. Vertex 0 is the centre, and vertex `i + 1` lies
/// `i / n` of a turn along the rim. Each triangle has texture coordinates of its own behind one
/// that none has: those of the centre and of the rim from `i / n` to `(i + 1) / n` of a turn.
pub fn disk_fan(n: usize) -> (r: (Vec<(usize, usize, usize)>, Vec<(u32, u32, u32)>))
    requires
        n <= 0x1000_0000,
    ensures
        r.0@ == Seq::new(n as nat, |i: int| (0usize, (i + 1) as usize, (i + 2) as usize)),
        r.1@ == Seq::new(
            n as nat,
            |i: int| ((3 * i + 1) as u32, (3 * i + 2) as u32, (3 * i + 3) as u32),
        ),
{
    let mut t: Vec<(usize, usize, usize)> = Vec::new();
    let mut tu: Vec<(u32, u32, u32)> = Vec::new();
    let mut i: usize = 0;
    while i < n
        invariant
            i <= n,
            n <= 0x1000_0000,
            t@ == Seq::new(i as nat, |i: int| (0usize, (i + 1) as usize, (i + 2) as usize)),
            tu@ == Seq::new(
                i as nat,
                |i: int| ((3 * i + 1) as u32, (3 * i + 2) as u32, (3 * i + 3) as u32),
            ),
        decreases n - i,
    {
        t.push((0, i + 1, i + 2));
        let k: u32 = i as u32;
        tu.push((3 * k + 1, 3 * k + 2, 3 * k + 3));
        i += 1;
        assert(t@ =~= Seq::new(i as nat, |i: int| (0usize, (i + 1) as usize, (i + 2) as usize)));
        assert(tu@ =~= Seq::new(
            i as nat,
            |i: int| ((3 * i + 1) as u32, (3 * i + 2) as u32, (3 * i + 3) as u32),
        ));
    }
    (t, tu)
}

} // verus!
