use tinypt::obj::{
    load_obj_groups, load_obj_mesh, load_obj_mesh_mb, load_obj_triangles, load_obj_triangles_mb,
    normalize_tri_uv, normalize_tri_vn, parse_face_token, parse_obj, parse_obj_index, MeshData, ObjGroups, Pair, ParsedObj,
    TopologyMismatch, Triple, NO_NORMAL, NO_UV,
};

fn num(s: &str) -> f64 {
    s.parse().unwrap()
}

fn vec3(t: &Triple) -> [f64; 3] {
    [num(&t.x), num(&t.y), num(&t.z)]
}

fn uv2(t: &Pair) -> [f64; 2] {
    [num(&t.u), num(&t.v)]
}

fn length(v: [f64; 3]) -> f64 {
    (v[0] * v[0] + v[1] * v[1] + v[2] * v[2]).sqrt()
}

fn usable(p: &ParsedObj) -> Vec<bool> {
    p.normals.iter().map(|n| length(vec3(n)) > 0.0).collect()
}

fn mesh(text: &str, mat_id: usize) -> MeshData {
    let p = parse_obj(text);
    let u = usable(&p);
    load_obj_mesh(p, &u, mat_id)
}

fn groups(text: &str) -> ObjGroups {
    let p = parse_obj(text);
    let u = usable(&p);
    load_obj_groups(p, &u)
}

fn moving(a: &str, b: &str) -> Result<MeshData, TopologyMismatch> {
    let pa = parse_obj(a);
    let u = usable(&pa);
    load_obj_mesh_mb(pa, parse_obj(b), &u, 0)
}

#[test]
fn parses_double_slash_normal_indices() {
    let obj = "v 0 0 0\nv 1 0 0\nv 0 1 0\nvn 0 0 1\nvn 0 0 1\nvn 0 0 1\nf 1//1 2//2 3//3\n";
    let m = mesh(obj, 0);
    assert_eq!(m.tris.len(), 1);
    assert!(m.has_normals());
    assert_eq!(m.tri_vn[0], (0, 1, 2));
    assert_eq!(m.vn.len(), 3);
}

#[test]
fn parses_slash_texture_normal_indices() {
    let obj = "v 0 0 0\nv 1 0 0\nv 0 1 0\nvt 0 0\nvn 1 0 0\nvn 0 1 0\nvn 0 0 1\nf 1/1/1 2/1/2 3/1/3\n";
    let m = mesh(obj, 0);
    assert_eq!(m.tri_vn[0], (0, 1, 2));
}

#[test]
fn parses_negative_indices_for_positions_and_normals() {
    let obj = "v 0 0 0\nv 1 0 0\nv 0 1 0\nvn 1 0 0\nvn 0 1 0\nvn 0 0 1\nf -3//-3 -2//-2 -1//-1\n";
    let m = mesh(obj, 0);
    assert_eq!(m.tris.len(), 1);
    assert_eq!(m.tri_vn[0], (0, 1, 2));
    assert_eq!(vec3(&m.positions[m.tris[0].0]), [0.0, 0.0, 0.0]);
    assert_eq!(vec3(&m.positions[m.tris[0].2]), [0.0, 1.0, 0.0]);
}

#[test]
fn file_without_normals_has_no_normal_arrays() {
    let obj = "v 0 0 0\nv 1 0 0\nv 0 1 0\nf 1 2 3\n";
    let m = mesh(obj, 0);
    assert!(!m.has_normals());
    assert!(m.vn.is_empty() && m.tri_vn.is_empty());
}

#[test]
fn fan_triangulation_assigns_matching_normal_indices() {
    let obj = "v 0 0 0\nv 1 0 0\nv 1 1 0\nv 0 1 0\n\
               vn 1 0 0\nvn 0 1 0\nvn 0 0 1\nvn 1 1 0\n\
               f 1//1 2//2 3//3 4//4\n";
    let m = mesh(obj, 0);
    assert_eq!(m.tris.len(), 2);
    assert_eq!(m.tri_vn[0], (0, 1, 2));
    assert_eq!(m.tri_vn[1], (0, 2, 3));
}

#[test]
fn faces_without_normals_fall_back_to_face_normal() {
    let obj = "v 0 0 0\nv 1 0 0\nv 0 1 0\nv 1 1 0\nvn 0 0 1\n\
               f 1//1 2//1 3//1\nf 2 4 3\n";
    let m = mesh(obj, 0);
    assert!(m.has_normals());
    assert_eq!(m.tri_vn[0], (0, 0, 0));
    assert_eq!(m.tri_vn[1], (NO_NORMAL, NO_NORMAL, NO_NORMAL));
}

#[test]
fn zero_length_normal_falls_back_to_face_normal() {
    let obj = "v 0 0 0\nv 1 0 0\nv 0 1 0\nvn 0 0 0\nf 1//1 2//1 3//1\n";
    let m = mesh(obj, 0);
    assert!(!m.has_normals());
}

#[test]
fn parses_texture_coordinate_indices() {
    let obj = "v 0 0 0\nv 1 0 0\nv 0 1 0\nvt 0 0\nvt 1 0\nvt 0 1\nf 1/1 2/2 3/3\n";
    let m = mesh(obj, 0);
    assert!(m.has_uv());
    assert!(!m.has_normals());
    assert_eq!(m.tri_uv[0], (0, 1, 2));
    assert_eq!(m.uv.len(), 3);
    assert_eq!(uv2(&m.uv[1]), [1.0, 0.0]);
}

#[test]
fn parses_uv_and_normal_indices_together() {
    let obj = "v 0 0 0\nv 1 0 0\nv 0 1 0\nvt 0.25 0.5\nvn 0 0 1\nf 1/1/1 2/1/1 3/1/1\n";
    let m = mesh(obj, 0);
    assert!(m.has_uv() && m.has_normals());
    assert_eq!(m.tri_uv[0], (0, 0, 0));
    assert_eq!(m.tri_vn[0], (0, 0, 0));
    assert_eq!(uv2(&m.uv[0]), [0.25, 0.5]);
}

#[test]
fn double_slash_means_no_uv() {
    let obj = "v 0 0 0\nv 1 0 0\nv 0 1 0\nvt 0 0\nvn 0 0 1\nf 1//1 2//1 3//1\n";
    let m = mesh(obj, 0);
    assert!(!m.has_uv());
    assert!(m.has_normals());
}

#[test]
fn parses_negative_uv_indices() {
    let obj = "v 0 0 0\nv 1 0 0\nv 0 1 0\nvt 0 0\nvt 1 0\nvt 0 1\nf 1/-3 2/-2 3/-1\n";
    let m = mesh(obj, 0);
    assert_eq!(m.tri_uv[0], (0, 1, 2));
}

#[test]
fn ignores_the_third_uv_component() {
    let obj = "v 0 0 0\nv 1 0 0\nv 0 1 0\nvt 0.3 0.7 0.9\nf 1/1 2/1 3/1\n";
    let m = mesh(obj, 0);
    assert_eq!(uv2(&m.uv[0]), [0.3, 0.7]);
}

#[test]
fn file_without_uv_has_no_uv_arrays() {
    let obj = "v 0 0 0\nv 1 0 0\nv 0 1 0\nf 1 2 3\n";
    let m = mesh(obj, 0);
    assert!(!m.has_uv());
    assert!(m.uv.is_empty() && m.tri_uv.is_empty());
}

#[test]
fn faces_without_uv_fall_back_to_no_uv() {
    let obj = "v 0 0 0\nv 1 0 0\nv 0 1 0\nv 1 1 0\nvt 0 0\n\
               f 1/1 2/1 3/1\nf 2 4 3\n";
    let m = mesh(obj, 0);
    assert!(m.has_uv());
    assert_eq!(m.tri_uv[0], (0, 0, 0));
    assert_eq!(m.tri_uv[1], (NO_UV, NO_UV, NO_UV));
}

#[test]
fn fan_triangulation_assigns_matching_uv_indices() {
    let obj = "v 0 0 0\nv 1 0 0\nv 1 1 0\nv 0 1 0\n\
               vt 0 0\nvt 1 0\nvt 1 1\nvt 0 1\n\
               f 1/1 2/2 3/3 4/4\n";
    let m = mesh(obj, 0);
    assert_eq!(m.tris.len(), 2);
    assert_eq!(m.tri_uv[0], (0, 1, 2));
    assert_eq!(m.tri_uv[1], (0, 2, 3));
}

#[test]
fn into_flat_keeps_uv() {
    let obj = "v 0 0 0\nv 1 0 0\nv 0 1 0\nvt 0 0\nvn 0 0 1\nf 1/1/1 2/1/1 3/1/1\n";
    let m = mesh(obj, 0).into_flat();
    assert!(!m.has_normals());
    assert!(m.has_uv());
}

#[test]
fn motion_blur_pair_keeps_open_shutter_normals() {
    let a = "v 0 0 0\nv 1 0 0\nv 0 1 0\nvn 0 0 1\nf 1//1 2//1 3//1\n";
    let b = "v 0 0 1\nv 1 0 1\nv 0 1 1\nvn 0 0 1\nf 1//1 2//1 3//1\n";
    let m = moving(a, b).unwrap();
    assert!(m.has_normals());
    assert_eq!(m.tri_vn[0], (0, 0, 0));
}

#[test]
fn into_flat_drops_normals() {
    let obj = "v 0 0 0\nv 1 0 0\nv 0 1 0\nvn 0 0 1\nf 1//1 2//1 3//1\n";
    let m = mesh(obj, 0).into_flat();
    assert!(!m.has_normals());
    assert_eq!(m.tris.len(), 1);
}

#[test]
fn usemtl_groups_assign_per_triangle_material() {
    let obj = "mtllib a.mtl\nv 0 0 0\nv 1 0 0\nv 0 1 0\nv 1 1 0\n\
               f 1 2 3\nusemtl Red\nf 1 2 3\nf 1 2 4 3\nusemtl Blue\nf 1 2 3\nusemtl Red\nf 2 3 4\n";
    let g = groups(obj);
    assert_eq!(g.mat_names, vec!["".to_string(), "Red".to_string(), "Blue".to_string()]);
    assert_eq!(g.mtllibs, vec!["a.mtl".to_string()]);
    let ids = g.mesh.mat_ids;
    assert_eq!(ids, vec![0, 1, 1, 1, 2, 1]);
}

#[test]
fn no_usemtl_is_single_default_and_plain_loader_ignores_usemtl() {
    let obj = "v 0 0 0\nv 1 0 0\nv 0 1 0\nusemtl X\nf 1 2 3\n";
    let m = mesh(obj, 7);
    assert_eq!(m.mat_ids[0], 7);
    let g = groups("v 0 0 0\nv 1 0 0\nv 0 1 0\nf 1 2 3\n");
    assert_eq!(g.mat_names, vec!["".to_string()]);
}

#[test]
fn an_index_counts_from_one_or_from_the_end() {
    assert_eq!(parse_obj_index(1, 3), Some(0));
    assert_eq!(parse_obj_index(3, 3), Some(2));
    assert_eq!(parse_obj_index(4, 3), None);
    assert_eq!(parse_obj_index(-1, 3), Some(2));
    assert_eq!(parse_obj_index(-3, 3), Some(0));
    assert_eq!(parse_obj_index(-4, 3), None);
    assert_eq!(parse_obj_index(0, 3), None);
}

#[test]
fn a_corner_names_a_vertex_a_coordinate_and_a_normal() {
    let c = |s: &str| parse_face_token(&s.chars().collect::<Vec<char>>(), 4, 4, 4);
    assert_eq!(c("2/3/4"), (Some(1), Some(2), Some(3)));
    assert_eq!(c("2//4"), (Some(1), None, Some(3)));
    assert_eq!(c("2"), (Some(1), None, None));
    assert_eq!(c("9/9/9"), (None, None, None));
    assert_eq!(c("x/1/1"), (None, Some(0), Some(0)));
}

#[test]
fn unknown_lines_and_comments_are_passed_over() {
    let p = parse_obj("# a cube\n\no thing\ns off\nv 1 2 3\nv 1 2\nv a b c\n");
    let got: Vec<[f64; 3]> = p.positions.iter().map(vec3).collect();
    assert_eq!(got, vec![[1.0, 2.0, 3.0], [1.0, 2.0, 0.0], [0.0, 0.0, 0.0]]);
    assert!(p.tris.is_empty());
}

#[test]
fn a_face_with_a_corner_that_does_not_exist_is_short_of_it() {
    let p = parse_obj("v 0 0 0\nv 1 0 0\nv 0 1 0\nf 1 2 9\nf 1 2 3\n");
    assert_eq!(p.tris, vec![(0, 1, 2)]);
}

#[test]
fn meshes_at_two_times_must_agree() {
    let a = "v 0 0 0\nv 1 0 0\nv 0 1 0\nf 1 2 3\n";
    let moved = moving(a, "v 0 0 1\nv 1 0 1\nv 0 1 1\nf 1 2 3\n").unwrap();
    assert_eq!(vec3(&moved.positions[1]), [1.0, 0.0, 0.0]);
    assert_eq!(vec3(&moved.motion[1]), [1.0, 0.0, 1.0]);
    assert_eq!(moving(a, "v 0 0 1\nv 1 0 1\nf 1 2 1\n").err(), Some(TopologyMismatch::Counts));
    assert_eq!(moving(a, "v 0 0 1\nv 1 0 1\nv 0 1 1\n").err(), Some(TopologyMismatch::Counts));
    assert_eq!(
        moving(a, "v 0 0 1\nv 1 0 1\nv 0 1 1\nf 1 3 2\n").err(),
        Some(TopologyMismatch::Indices)
    );
}

#[test]
fn incomplete_corners_are_dropped_from_the_tables() {
    let triple = |x: &str| Triple { x: x.to_string(), y: x.to_string(), z: x.to_string() };
    let mut n = vec![triple("1"), triple("0")];
    let mut t = vec![(0, 0, 0), (0, 1, 0), (0, NO_NORMAL, 0)];
    normalize_tri_vn(&mut n, &vec![true, false], &mut t);
    let none = (NO_NORMAL, NO_NORMAL, NO_NORMAL);
    assert_eq!(t, vec![(0, 0, 0), none, none]);
    assert_eq!(n.len(), 2);

    let mut uv = vec![Pair { u: "0".to_string(), v: "0".to_string() }];
    let mut t = vec![(0, NO_UV, 0), (NO_UV, NO_UV, NO_UV)];
    normalize_tri_uv(&mut uv, &mut t);
    assert!(uv.is_empty() && t.is_empty());
}

#[test]
fn materials_are_renumbered_from_a_base() {
    let mut g = groups("v 0 0 0\nv 1 0 0\nv 0 1 0\nf 1 2 3\nusemtl A\nf 1 2 3\n");
    g.mesh.shift_materials(5);
    assert_eq!(g.mesh.mat_ids, vec![5, 6]);
}

#[test]
fn a_model_only_refers_to_what_it_has() {
    let p = parse_obj(
        "f 1 2 3\nv 0 0 0\nv 1 0 0\nusemtl A\nv 0 1 0\nvt 0 0\nf 1/1/9 -2/-1 3/7\nf 1 2 9 3\n\
         usemtl B\nf 0 1 2 3\nvn 0 0 1\nf -9 1//1 2//-1 3//2\nf 1 2\n",
    );
    assert_eq!(p.tri_vn.len(), p.tris.len());
    assert_eq!(p.tri_uv.len(), p.tris.len());
    assert!(!p.tris.is_empty());
    for t in 0..p.tris.len() {
        let (a, b, c) = p.tris[t];
        for i in [a, b, c] {
            assert!(i < p.positions.len());
        }
        let (a, b, c) = p.tri_vn[t];
        for i in [a, b, c] {
            assert!(i == NO_NORMAL || (i as usize) < p.normals.len());
        }
        let (a, b, c) = p.tri_uv[t];
        for i in [a, b, c] {
            assert!(i == NO_UV || (i as usize) < p.uvs.len());
        }
    }
}

#[test]
fn triangles_have_their_own_corners() {
    let a = parse_obj("v 0 0 0\nv 1 0 0\nv 0 1 0\nv 0 0 1\nusemtl A\nf 1 2 3 4\n");
    let t = load_obj_triangles(&a, 7);
    assert_eq!(t.len(), 2);
    assert_eq!(vec3(&t[1].v0), [0.0, 0.0, 0.0]);
    assert_eq!(vec3(&t[1].v1), [0.0, 1.0, 0.0]);
    assert_eq!(vec3(&t[1].v2), [0.0, 0.0, 1.0]);
    assert_eq!(t[1].mat_id, 7);

    let b = parse_obj("v 5 0 0\nv 1 0 0\nv 0 1 0\nv 0 0 1\nf 1 2 3 4\n");
    let m = match load_obj_triangles_mb(&a, &b, 7) {
        Ok(m) => m,
        Err(e) => panic!("{:?}", e),
    };
    assert_eq!(vec3(&m[0].v0), [0.0, 0.0, 0.0]);
    let c = parse_obj("v 5 0 0\nv 1 0 0\nv 0 1 0\nv 0 0 1\nf 1 3 2 4\n");
    assert_eq!(load_obj_triangles_mb(&a, &c, 7).err(), Some(TopologyMismatch::Indices));
    let d = parse_obj("v 5 0 0\nv 1 0 0\nv 0 1 0\nf 1 2 3\n");
    assert_eq!(load_obj_triangles_mb(&a, &d, 7).err(), Some(TopologyMismatch::Counts));
}
