use tinypt::config::RenderConfig;
use tinypt::mitsuba::assemble::{assemble, ScenePlan};
use tinypt::mitsuba::dressing::Library;
use tinypt::mitsuba::gauge::Gauge;
use tinypt::mitsuba::library::MtlNumbers;
use tinypt::mitsuba::lights::{
    check_beam, check_cutoff, check_medium, direction_fits, EnvironmentText, Light, MediumBits,
};
use tinypt::mitsuba::materials::{Image, MapUse, MaterialPlan, Roughness};
use tinypt::mitsuba::paths::library_paths;
use tinypt::mitsuba::props::ColorText;
use tinypt::mitsuba::scene::{load_scene_from_str, referenced_files, SceneSettings};
use tinypt::mitsuba::shapes::{shape_files, Placement, ShapeFiles};
use tinypt::mitsuba::tables::MeshEntry;
use tinypt::mitsuba::transforms::TransformOp;
use tinypt::mitsuba::units::{disk_fan, unit_cube_tris, unit_rectangle_tris, DISK_PARTS};
use tinypt::mtl::{parse_mtl, MtlFile, MtlMaterial};
use tinypt::obj::{load_obj_groups, load_obj_mesh, load_obj_mesh_mb, parse_obj, MeshData, Triple};

const MTL_BUMP_K: f64 = 8.0;

/// The files that there are: a path, and the text of the file, `IMAGE` or `SKY`.
type Disk<'a> = &'a [(&'a str, &'a str)];

const IMAGE: &str = "an image";
const SKY: &str = "an environment";

fn num(s: &str) -> f64 {
    s.parse().unwrap()
}

fn vec3(t: &Triple) -> [f64; 3] {
    [num(&t.x), num(&t.y), num(&t.z)]
}

fn length(t: &Triple) -> f64 {
    let v = vec3(t);
    (v[0] * v[0] + v[1] * v[1] + v[2] * v[2]).sqrt()
}

fn decode(x: f64) -> f64 {
    if x <= 0.04045 {
        x / 12.92
    } else {
        ((x + 0.055) / 1.055).powf(2.4)
    }
}

fn color(c: &ColorText) -> [f64; 3] {
    let v = vec3(&c.v);
    if c.srgb {
        [decode(v[0]), decode(v[1]), decode(v[2])]
    } else {
        v
    }
}

fn bits(v: [f64; 3]) -> (u64, u64, u64) {
    (v[0].to_bits(), v[1].to_bits(), v[2].to_bits())
}

fn number(b: u64) -> f64 {
    f64::from_bits(b)
}

fn numbers(b: (u64, u64, u64)) -> (f64, f64, f64) {
    (number(b.0), number(b.1), number(b.2))
}

fn cfg() -> RenderConfig {
    let mut c = RenderConfig::default();
    c.width = 16;
    c.height = 9;
    c
}

/// The path without detours.
fn canon(p: &str) -> String {
    let p = p.replace("/./", "/");
    p.strip_prefix("./").unwrap_or(&p).to_string()
}

fn read<'a>(disk: Disk<'a>, path: &str) -> Option<&'a str> {
    disk.iter().find(|f| f.0 == canon(path)).map(|f| f.1)
}

fn numbers_of(m: &MtlMaterial) -> MtlNumbers {
    let d = if m.d_is_transparency { 1.0 - num(&m.d) } else { num(&m.d) };
    let ks = [num(&m.ks.r), num(&m.ks.g), num(&m.ks.b)];
    MtlNumbers {
        ke: bits([num(&m.ke.r), num(&m.ke.g), num(&m.ke.b)]),
        d: d.to_bits(),
        ns: num(&m.ns).to_bits(),
        specular: (0.2126 * ks[0] + 0.7152 * ks[1] + 0.0722 * ks[2]).to_bits(),
        strength: (num(&m.bm) * MTL_BUMP_K).to_bits(),
    }
}

fn no_files() -> ShapeFiles {
    ShapeFiles {
        key: String::new(),
        end_key: String::new(),
        error: None,
        motion_error: None,
        mat_names: Vec::new(),
        libraries: Vec::new(),
    }
}

fn mesh_of(text: &str) -> MeshData {
    let p = parse_obj(text);
    let usable = p.normals.iter().map(|n| vec3(n) != [0.0; 3]).collect();
    load_obj_mesh(p, &usable, 0)
}

fn moving_mesh(a: &str, b: &str) -> Option<MeshData> {
    let p = parse_obj(a);
    let usable = p.normals.iter().map(|n| vec3(n) != [0.0; 3]).collect();
    load_obj_mesh_mb(p, parse_obj(b), &usable, 0).ok()
}

fn files_of_shape(disk: Disk, path: String, end: Option<String>) -> ShapeFiles {
    let mut f = no_files();
    f.key = canon(&path);
    let text = read(disk, &path);
    if let Some(e) = &end {
        f.end_key = canon(e);
        let pair = text.and_then(|a| read(disk, e).and_then(|b| moving_mesh(a, b)));
        if pair.is_none() {
            f.motion_error = Some("the meshes differ".to_string());
        }
    }
    let text = match text {
        Some(t) => t,
        None => {
            f.error = Some("no such file".to_string());
            return f;
        }
    };
    let p = parse_obj(text);
    let usable = p.normals.iter().map(|_| true).collect();
    let g = load_obj_groups(p, &usable);
    f.mat_names = g.mat_names;
    for (path, dir) in library_paths(&path, &g.mtllibs) {
        let (error, file) = match read(disk, &path) {
            Some(t) => (None, parse_mtl(t)),
            None => (
                Some("no such file".to_string()),
                MtlFile { materials: Vec::new(), dup_names: Vec::new() },
            ),
        };
        let numbers = file.materials.iter().map(numbers_of).collect();
        f.libraries.push(Library { path, dir, error, file, numbers });
    }
    f
}

fn load_all(disk: Disk, base: &str, xml: &str) -> (ScenePlan, SceneSettings, Vec<String>) {
    let outline = load_scene_from_str(xml, &cfg(), (None, None)).ok().unwrap();
    let mut files = Vec::new();
    for el in &outline.root.children {
        files.push(match shape_files(el, base) {
            Some((path, end)) => files_of_shape(disk, path, end),
            None => no_files(),
        });
    }
    let mut images = Vec::new();
    for f in disk {
        let error = |as_what: &str| {
            if f.1 == as_what {
                None
            } else {
                Some("another format".to_string())
            }
        };
        images.push(Image {
            path: f.0.to_string(),
            key: f.0.to_string(),
            error: error(IMAGE),
            environment_error: error(SKY),
        });
    }
    let settings = outline.settings;
    let gauge = Gauge {
        number: |t: &str| num(t).to_bits(),
        color: |c: &ColorText| bits(color(c)),
        length: |t: &Triple| length(t).to_bits(),
        three_quarters: |b: u64| (number(b) * 0.75).to_bits(),
        show: |b: u64| format!("{}", number(b)),
    };
    let (plan, warnings) = assemble(&outline, base, &files, &images, &gauge);
    (plan, settings, warnings)
}

fn load_in(disk: Disk, base: &str, xml: &str) -> (ScenePlan, Vec<String>) {
    let (plan, _, warnings) = load_all(disk, base, xml);
    (plan, warnings)
}

fn load(xml: &str) -> ScenePlan {
    load_in(&[], ".", xml).0
}

fn count(warnings: &Vec<String>, needle: &str) -> usize {
    warnings.iter().filter(|w| w.contains(needle)).count()
}

fn spheres(s: &ScenePlan) -> usize {
    s.placements.iter().filter(|p| matches!(p, Placement::Sphere { .. })).count()
}

/// The mesh and the material of all triangles of each instance.
fn instances(s: &ScenePlan) -> Vec<(usize, Option<usize>)> {
    let mut v = Vec::new();
    for p in &s.placements {
        if let Placement::Instance { mesh, instead, .. } = p {
            v.push((*mesh, *instead));
        }
    }
    v
}

fn moves(s: &ScenePlan, i: usize) -> bool {
    match &s.placements[i] {
        Placement::Instance { to_world_end, .. } => to_world_end.is_some(),
        _ => false,
    }
}

/// The material that instance `i` shows where its mesh has one material.
fn shown_material(s: &ScenePlan, i: usize) -> usize {
    let (mesh, instead) = instances(s)[i];
    match (instead, &s.tables.meshes[mesh]) {
        (Some(m), _) => m,
        (None, MeshEntry::Obj { material, .. }) => *material,
        (None, MeshEntry::Rectangle(m) | MeshEntry::Cube(m) | MeshEntry::Disk(m)) => *m,
        (None, MeshEntry::Dressed { base, .. }) => *base,
    }
}

fn is_emitter(s: &ScenePlan, m: usize) -> bool {
    matches!(s.tables.mats[m], MaterialPlan::DiffuseLight { .. })
}

fn texture_of(m: &MaterialPlan) -> Option<usize> {
    match m {
        MaterialPlan::Lambert { texture, .. } => *texture,
        _ => None,
    }
}

fn is_lambert(m: &MaterialPlan) -> bool {
    matches!(m, MaterialPlan::Lambert { .. })
}

/// The translation that a list of steps comes to.
fn translation(ops: &Vec<TransformOp>) -> [f64; 3] {
    let mut p = [0.0; 3];
    for op in ops {
        match op {
            TransformOp::Translate(t) => {
                let t = vec3(t);
                p = [p[0] + t[0], p[1] + t[1], p[2] + t[2]];
            }
            _ => panic!("not a translation"),
        }
    }
    p
}

#[test]
fn referenced_files_lists_filenames_in_document_order() {
    let xml = r#"<scene version="3.0.0">
          <shape type="obj"><string name="filename" value="a.obj"/></shape>
          <shape type="sphere"><float name="radius" value="1"/></shape>
          <emitter type="envmap"><string name="filename" value="/abs/env.exr"/></emitter>
        </scene>"#;
    let files = referenced_files(xml, "dir").ok().unwrap();
    assert_eq!(files, vec!["dir/a.obj".to_string(), "/abs/env.exr".to_string()]);
}

#[test]
fn parses_shapes_and_materials() {
    let scene = load(
        r#"<scene version="3.0.0">
          <sensor type="perspective">
            <float name="fov" value="40"/>
            <string name="fov_axis" value="y"/>
            <transform name="to_world">
              <lookat origin="0,1.2,4" target="0,0.5,0" up="0,1,0"/>
            </transform>
          </sensor>
          <shape type="sphere">
            <point name="center" x="-1" y="0.5" z="0"/>
            <float name="radius" value="0.5"/>
            <bsdf type="diffuse"><srgb name="reflectance" value="0.8,0.3,0.3"/></bsdf>
          </shape>
          <shape type="sphere">
            <point name="center" x="0" y="0.5" z="0"/>
            <float name="radius" value="0.5"/>
            <bsdf type="roughconductor">
              <string name="distribution" value="ggx"/>
              <float name="alpha" value="0.25"/>
              <rgb name="specular_reflectance" value="0.9,0.7,0.3"/>
            </bsdf>
          </shape>
          <shape type="sphere">
            <point name="center" x="0" y="3" z="-1"/>
            <float name="radius" value="0.8"/>
            <emitter type="area"><rgb name="radiance" value="8,7,5"/></emitter>
          </shape>
        </scene>"#,
    );
    assert_eq!(spheres(&scene), 3);
    let mats = &scene.tables.mats;
    assert_eq!(mats.len(), 3);
    assert!(matches!(&mats[0], MaterialPlan::Lambert { .. }));
    assert!(matches!(&mats[1], MaterialPlan::Ggx { roughness: Roughness::Alpha(a), .. } if num(a) == 0.25));
    assert!(matches!(&mats[2], MaterialPlan::DiffuseLight { .. }));
    let emitters = (0..3).filter(|&m| is_emitter(&scene, m)).count();
    assert_eq!(emitters, 1);
    let sensor = scene.sensor.as_ref().unwrap();
    assert!(sensor.fov_is_vertical);
    assert_eq!(vec3(&sensor.pose.origin), [0.0, 1.2, 4.0]);
    assert_eq!(vec3(&sensor.pose.target), [0.0, 0.5, 0.0]);
}

#[test]
fn srgb_tag_gamma_decodes_but_rgb_is_linear() {
    let scene = load(
        r#"<scene version="3.0.0">
          <shape type="sphere">
            <bsdf type="diffuse"><srgb name="reflectance" value="0.8,0.8,0.8"/></bsdf>
          </shape>
          <shape type="sphere">
            <bsdf type="diffuse"><rgb name="reflectance" value="0.8,0.8,0.8"/></bsdf>
          </shape>
        </scene>"#,
    );
    let albedo = |i: usize| match &scene.tables.mats[i] {
        MaterialPlan::Lambert { albedo, .. } => color(albedo),
        _ => panic!("not diffuse"),
    };
    let (srgb, lin) = (albedo(0), albedo(1));
    assert!((srgb[0] - decode(0.8)).abs() < 1e-12);
    assert!((lin[0] - 0.8).abs() < 1e-12);
    assert!(srgb[0] < lin[0]);
}

#[test]
fn reads_film_sampler_integrator_into_config() {
    let (_, settings, _) = load_all(
        &[],
        ".",
        r#"<scene version="3.0.0">
          <integrator type="path">
            <integer name="max_depth" value="12"/>
            <integer name="rr_depth" value="5"/>
          </integrator>
          <sampler type="independent"><integer name="sample_count" value="256"/></sampler>
          <film type="hdrfilm">
            <integer name="width" value="800"/>
            <integer name="height" value="600"/>
          </film>
          <shape type="sphere"><bsdf type="diffuse"/></shape>
        </scene>"#,
    );
    let mut config = cfg();
    settings.apply(&mut config);
    assert_eq!(config.width, 800);
    assert_eq!(config.height, 600);
    assert_eq!(config.spp, 256);
    assert_eq!(config.max_depth, 12);
    assert_eq!(config.rr_depth, 5);
}

#[test]
fn integrator_depth_values_follow_mitsuba() {
    let settings_for = |max_depth: &str, rr_depth: &str| {
        let xml = format!(
            r#"<scene version="3.0.0"><integrator type="path"><integer name="max_depth" value="{}"/><integer name="rr_depth" value="{}"/></integrator>
               <shape type="sphere"><bsdf type="diffuse"/></shape></scene>"#,
            max_depth, rr_depth
        );
        load_all(&[], ".", &xml).1
    };
    let s = settings_for("-1", "5");
    assert_eq!(s.max_depth, Some(usize::MAX));
    assert_eq!(s.rr_depth, Some(5));
    assert_eq!(settings_for("0", "1").max_depth, Some(0));
    assert_eq!(settings_for("1", "1").max_depth, Some(1));
    let s = settings_for("-2", "0");
    assert_eq!(s.max_depth, None);
    assert_eq!(s.rr_depth, None);
}

#[test]
fn parses_parametric_shapes() {
    let scene = load(
        r#"<scene version="3.0.0">
          <shape type="rectangle"><bsdf type="diffuse"/></shape>
          <shape type="cube"><bsdf type="diffuse"/></shape>
          <shape type="disk"><bsdf type="diffuse"/></shape>
        </scene>"#,
    );
    let meshes = &scene.tables.meshes;
    assert_eq!(meshes.len(), 3);
    assert_eq!(instances(&scene).len(), 3);
    assert!(matches!(meshes[0], MeshEntry::Rectangle(0)));
    assert!(matches!(meshes[1], MeshEntry::Cube(1)));
    assert!(matches!(meshes[2], MeshEntry::Disk(2)));
    assert_eq!(unit_rectangle_tris(0).tris.len(), 2);
    assert_eq!(unit_cube_tris(1).tris.len(), 12);
    assert_eq!(disk_fan(DISK_PARTS).0.len(), 64);
}

const SMOOTH_OBJ: &str =
    "v 0 0 0\nv 1 0 0\nv 0 1 0\nvn 0 0 1\nvn 0 1 0\nvn 1 0 0\nf 1//1 2//2 3//3\n";

/// Whether the mesh keeps the normals of its file.
fn is_smooth(disk: Disk, s: &ScenePlan, mesh: usize) -> bool {
    match &s.tables.meshes[mesh] {
        MeshEntry::Obj { path, flat, .. } => {
            let m = mesh_of(read(disk, path).unwrap());
            if *flat { m.into_flat().has_normals() } else { m.has_normals() }
        }
        MeshEntry::Rectangle(id) => unit_rectangle_tris(*id).has_normals(),
        _ => panic!("another mesh"),
    }
}

#[test]
fn invalid_face_normals_value_warns_and_falls_back() {
    let disk = [("dir/fn.obj", SMOOTH_OBJ)];
    let load = |flag: &str| {
        let xml = format!(
            r#"<scene version="3.0.0">
              <shape type="obj">
                <string name="filename" value="{}"/>{}
                <bsdf type="diffuse"><rgb name="reflectance" value="0.5,0.5,0.5"/></bsdf>
              </shape>
            </scene>"#,
            "fn.obj", flag
        );
        load_in(&disk, "dir", &xml)
    };
    for bad in [
        r#"<boolean name="face_normals" value="1"/>"#,
        r#"<boolean name="face_normals" value="yes"/>"#,
        r#"<boolean name="face_normals" value="TRUE"/>"#,
        r#"<boolean name="face_normals"/>"#,
    ] {
        let (scene, warnings) = load(bad);
        assert!(is_smooth(&disk, &scene, 0), "{}", bad);
        assert!(warnings.iter().any(|w| w.contains("face_normals")), "{}: {:?}", bad, warnings);
    }
    for good in [
        "",
        r#"<boolean name="face_normals" value="true"/>"#,
        r#"<boolean name="face_normals" value="false"/>"#,
    ] {
        let (_, warnings) = load(good);
        assert!(!warnings.iter().any(|w| w.contains("face_normals")), "{}", good);
    }
}

#[test]
fn parses_bitmap_texture_on_diffuse_reflectance() {
    let disk = [("dir/t.png", IMAGE)];
    let (scene, _) = load_in(
        &disk,
        "dir",
        r#"<scene version="3.0.0">
          <shape type="rectangle">
            <bsdf type="diffuse">
              <texture type="bitmap" name="reflectance">
                <string name="filename" value="t.png"/>
              </texture>
            </bsdf>
          </shape>
        </scene>"#,
    );
    assert_eq!(scene.tables.registry.textures.len(), 1);
    match &scene.tables.mats[0] {
        MaterialPlan::Lambert { albedo, texture: Some(id) } => {
            assert_eq!(*id, 0);
            assert!((color(albedo)[0] - 1.0).abs() < 1e-12);
            let t = &scene.tables.registry.textures[0];
            assert!(t.srgb);
            assert_eq!(t.path, "dir/t.png");
        }
        _ => panic!("not a textured diffuse material"),
    }
}

#[test]
fn constant_reflectance_scales_the_texture() {
    let disk = [("dir/t.png", IMAGE)];
    let (scene, _) = load_in(
        &disk,
        "dir",
        r#"<scene version="3.0.0">
          <shape type="rectangle">
            <bsdf type="diffuse">
              <rgb name="reflectance" value="0.25, 0.5, 1.0"/>
              <texture type="bitmap" name="reflectance">
                <string name="filename" value="t.png"/>
              </texture>
            </bsdf>
          </shape>
        </scene>"#,
    );
    match &scene.tables.mats[0] {
        MaterialPlan::Lambert { albedo, texture: Some(0) } => {
            assert_eq!(color(albedo), [0.25, 0.5, 1.0]);
        }
        _ => panic!("not a textured diffuse material"),
    }
}

#[test]
fn missing_texture_warns_and_falls_back_to_a_constant() {
    let (scene, warnings) = load_in(
        &[],
        "dir",
        r#"<scene version="3.0.0">
          <shape type="rectangle">
            <bsdf type="diffuse">
              <texture type="bitmap" name="reflectance">
                <string name="filename" value="definitely_not_here_12345.png"/>
              </texture>
            </bsdf>
          </shape>
        </scene>"#,
    );
    assert!(scene.tables.registry.textures.is_empty());
    assert!(matches!(&scene.tables.mats[0], MaterialPlan::Lambert { texture: None, .. }));
    assert!(warnings.iter().any(|w| w.contains("failed to load texture")), "{:?}", warnings);
}

#[test]
fn unsupported_texture_type_and_wrap_mode_warn() {
    let disk = [("dir/t.png", IMAGE)];
    let (_, warnings) = load_in(
        &disk,
        "dir",
        r#"<scene version="3.0.0">
          <shape type="rectangle">
            <bsdf type="diffuse">
              <texture type="checkerboard" name="reflectance"/>
            </bsdf>
          </shape>
          <shape type="rectangle">
            <bsdf type="diffuse">
              <texture type="bitmap" name="reflectance">
                <string name="filename" value="t.png"/>
                <string name="wrap_mode" value="mirror"/>
              </texture>
            </bsdf>
          </shape>
        </scene>"#,
    );
    assert!(warnings.iter().any(|w| w.contains("unsupported texture type")), "{:?}", warnings);
    assert!(warnings.iter().any(|w| w.contains("wrap_mode")), "{:?}", warnings);
}

#[test]
fn raw_texture_is_linear() {
    let disk = [("dir/t.png", IMAGE)];
    let (scene, _) = load_in(
        &disk,
        "dir",
        r#"<scene version="3.0.0">
          <shape type="rectangle">
            <bsdf type="diffuse">
              <texture type="bitmap" name="reflectance">
                <string name="filename" value="t.png"/>
                <boolean name="raw" value="true"/>
              </texture>
            </bsdf>
          </shape>
        </scene>"#,
    );
    assert!(!scene.tables.registry.textures[0].srgb);
}

/// The texture coordinates where a ray along -z through (x, y) meets a mesh first.
fn shoot(m: &MeshData, x: f64, y: f64) -> (f64, f64) {
    let mut best: Option<(f64, (f64, f64))> = None;
    for (k, t) in m.tris.iter().enumerate() {
        let p = [vec3(&m.positions[t.0]), vec3(&m.positions[t.1]), vec3(&m.positions[t.2])];
        let area = |a: [f64; 2], b: [f64; 2], c: [f64; 2]| {
            (b[0] - a[0]) * (c[1] - a[1]) - (b[1] - a[1]) * (c[0] - a[0])
        };
        let q = [[p[0][0], p[0][1]], [p[1][0], p[1][1]], [p[2][0], p[2][1]]];
        let whole = area(q[0], q[1], q[2]);
        if whole == 0.0 {
            continue;
        }
        let w = [
            area(q[1], q[2], [x, y]) / whole,
            area(q[2], q[0], [x, y]) / whole,
            area(q[0], q[1], [x, y]) / whole,
        ];
        if w.iter().any(|&c| c < 0.0) {
            continue;
        }
        let z = w[0] * p[0][2] + w[1] * p[1][2] + w[2] * p[2][2];
        let c = m.tri_uv[k];
        let at = |i: u32| (num(&m.uv[i as usize].u), num(&m.uv[i as usize].v));
        let (a, b, c) = (at(c.0), at(c.1), at(c.2));
        let uv = (w[0] * a.0 + w[1] * b.0 + w[2] * c.0, w[0] * a.1 + w[1] * b.1 + w[2] * c.1);
        let nearer = match best {
            Some((bz, _)) => z > bz,
            None => true,
        };
        if nearer {
            best = Some((z, uv));
        }
    }
    best.unwrap().1
}

#[test]
fn squares_and_cubes_get_uv() {
    let rect = unit_rectangle_tris(0);
    assert!(rect.has_uv());
    let uv = shoot(&rect, 0.0, 0.0);
    assert!((uv.0 - 0.5).abs() < 1e-12 && (uv.1 - 0.5).abs() < 1e-12, "{:?}", uv);
    let uv = shoot(&rect, 0.5, -0.5);
    assert!((uv.0 - 0.75).abs() < 1e-12 && (uv.1 - 0.25).abs() < 1e-12, "{:?}", uv);
    let cube = unit_cube_tris(0);
    assert!(cube.has_uv());
    let uv = shoot(&cube, 0.0, 0.0);
    assert!((uv.0 - 0.5).abs() < 1e-12 && (uv.1 - 0.5).abs() < 1e-12, "{:?}", uv);
    for i in 0..20 {
        let uv = shoot(&cube, -0.9 + 0.09 * i as f64, 0.8 - 0.08 * i as f64);
        assert!((0.0..=1.0).contains(&uv.0) && (0.0..=1.0).contains(&uv.1), "{:?}", uv);
    }
}

#[test]
fn a_disk_is_a_fan_around_its_middle() {
    let (tris, uv) = disk_fan(4);
    assert_eq!(tris, vec![(0, 1, 2), (0, 2, 3), (0, 3, 4), (0, 4, 5)]);
    assert_eq!(uv, vec![(1, 2, 3), (4, 5, 6), (7, 8, 9), (10, 11, 12)]);
}

#[test]
fn face_normals_flag_controls_vertex_normal_use() {
    let disk = [("dir/fn.obj", SMOOTH_OBJ)];
    let scene_of = |flag: &str| {
        let xml = format!(
            r#"<scene version="3.0.0">
              <shape type="obj">
                <string name="filename" value="{}"/>{}
                <bsdf type="diffuse"><rgb name="reflectance" value="0.5,0.5,0.5"/></bsdf>
              </shape>
              <shape type="rectangle">{}<bsdf type="diffuse"/></shape>
            </scene>"#,
            "fn.obj", flag, flag
        );
        load_in(&disk, "dir", &xml).0
    };
    let smooth = scene_of("");
    let flat = scene_of(r#"<boolean name="face_normals" value="true"/>"#);
    let explicit_false = scene_of(r#"<boolean name="face_normals" value="false"/>"#);
    assert!(is_smooth(&disk, &smooth, 0));
    assert!(is_smooth(&disk, &explicit_false, 0));
    assert!(!is_smooth(&disk, &flat, 0));
    assert!(!is_smooth(&disk, &smooth, 1));
    assert!(!is_smooth(&disk, &flat, 1));
}

#[test]
fn parses_obj_mesh_with_transform() {
    let disk = [("dir/m2.obj", "v 0 0 0\nv 1 0 0\nv 0 1 0\nf 1 2 3\n")];
    let (scene, _) = load_in(
        &disk,
        "dir",
        r#"<scene version="3.0.0">
          <shape type="obj">
            <string name="filename" value="m2.obj"/>
            <transform name="to_world"><translate x="10" y="0" z="0"/></transform>
            <bsdf type="diffuse"><rgb name="reflectance" value="0.5,0.5,0.5"/></bsdf>
          </shape>
        </scene>"#,
    );
    assert_eq!(scene.tables.meshes.len(), 1);
    assert_eq!(instances(&scene).len(), 1);
    assert_eq!(mesh_of(disk[0].1).tris.len(), 1);
    assert_eq!(scene.tables.mats.len(), 1);
    match &scene.placements[0] {
        Placement::Instance { to_world, .. } => assert_eq!(translation(to_world), [10.0, 0.0, 0.0]),
        _ => panic!("no instance"),
    }
}

fn constant_env(s: &ScenePlan) -> [f64; 3] {
    match &s.environment {
        EnvironmentText::Constant { radiance, scale } => {
            let (c, k) = (color(radiance), num(scale));
            [c[0] * k, c[1] * k, c[2] * k]
        }
        _ => panic!("an image"),
    }
}

#[test]
fn constant_emitter_sets_uniform_env() {
    let scene = load(
        r#"<scene version="3.0.0">
          <emitter type="constant"><rgb name="radiance" value="0.1,0.2,0.4"/></emitter>
          <shape type="sphere"><bsdf type="diffuse"/></shape>
        </scene>"#,
    );
    assert_eq!(constant_env(&scene), [0.1, 0.2, 0.4]);
}

#[test]
fn no_env_emitter_defaults_to_black_background() {
    let scene = load(
        r#"<scene version="3.0.0">
          <shape type="sphere"><bsdf type="diffuse"/></shape>
        </scene>"#,
    );
    assert_eq!(constant_env(&scene), [0.0, 0.0, 0.0]);
}

#[test]
fn emitter_scale_multiplies_radiance() {
    let scene = load(
        r#"<scene version="3.0.0">
          <emitter type="constant">
            <rgb name="radiance" value="1,1,1"/>
            <float name="scale" value="3"/>
          </emitter>
        </scene>"#,
    );
    assert!((constant_env(&scene)[0] - 3.0).abs() < 1e-9);
}

#[test]
fn unknown_bsdf_falls_back_to_diffuse() {
    let scene = load(
        r#"<scene version="3.0.0">
          <integrator type="path"><integer name="max_depth" value="8"/></integrator>
          <shape type="sphere">
            <bsdf type="plastic"><rgb name="reflectance" value="0.2,0.4,0.6"/></bsdf>
          </shape>
        </scene>"#,
    );
    assert_eq!(scene.tables.mats.len(), 1);
    assert!(is_lambert(&scene.tables.mats[0]));
}

fn mtl_obj() -> String {
    let mut obj = String::from("mtllib m.mtl\nv 0 0 0\nv 1 0 0\nv 0 1 0\nf 1 2 3\n");
    for (name, n) in [("A", 4), ("B", 3), ("C", 1)] {
        obj.push_str(&format!("usemtl {}\n", name));
        for _ in 0..n {
            obj.push_str("f 1 2 3\n");
        }
    }
    obj
}

const MTL: &str = "newmtl A\n\tKd 1 1 1\n\tKs 0 0 0\n\tmap_Kd textures\\a.png\n\tmap_Ka textures\\a.png\n\tmap_d textures\\a.png\n\
     newmtl B\n\tKd 0.5 0.5 0.5\n\tKs 0.9 0.9 0.9\n\tNs 100\n\tmap_Kd textures\\a.png\n\td 0.5\n";

fn obj_scene_xml(extra: &str) -> String {
    format!(
        r#"<scene version="3.0.0"><shape type="obj"><string name="filename" value="m.obj"/>{}</shape></scene>"#,
        extra
    )
}

/// A scene of one mesh with a library, beside which there is one image.
fn mtl_scene(obj: &str, mtl: Option<&str>, xml: &str) -> (ScenePlan, Vec<String>) {
    let mut disk = vec![("dir/m.obj", obj), ("dir/textures/a.png", IMAGE)];
    if let Some(t) = mtl {
        disk.push(("dir/m.mtl", t));
    }
    load_in(&disk, "dir", xml)
}

#[test]
fn mtl_materials_resolve_per_triangle_and_textures_are_cached() {
    let obj = mtl_obj();
    let (scene, warnings) = mtl_scene(&obj, Some(MTL), &obj_scene_xml(""));
    let mats = &scene.tables.mats;
    assert_eq!(mats.len(), 4);
    assert_eq!(scene.tables.meshes.len(), 1);
    let p = parse_obj(&obj);
    let mut g = load_obj_groups(p, &vec![]);
    match &scene.tables.meshes[0] {
        MeshEntry::Dressed { base, .. } => g.mesh.shift_materials(*base),
        _ => panic!("another mesh"),
    }
    assert_eq!(g.mesh.mat_ids, vec![0, 1, 1, 1, 1, 2, 2, 2, 3]);
    assert!(instances(&scene)[0].1.is_none());
    assert!(texture_of(&mats[1]).is_some());
    assert!(texture_of(&mats[2]).is_some());
    assert!(is_lambert(&mats[3]) && texture_of(&mats[3]).is_none());
    assert_eq!(scene.tables.registry.textures.len(), 1);
    assert_eq!(count(&warnings, "map_Ka"), 1, "{:?}", warnings);
    assert_eq!(count(&warnings, "constant d < 1"), 1, "{:?}", warnings);
    assert_eq!(count(&warnings, "failed to load alpha mask"), 0, "{:?}", warnings);
    assert_eq!(count(&warnings, "'C' not found"), 1, "{:?}", warnings);
    assert!((0..mats.len()).all(|m| !is_emitter(&scene, m)));
}

#[test]
fn same_texture_path_in_two_materials_is_loaded_once() {
    let mtl = "newmtl A\n\tKd 1 1 1\n\tmap_Kd textures\\a.png\nnewmtl B\n\tKd 1 1 1\n\tmap_Kd textures/a.png\n";
    let (scene, _) = mtl_scene(&mtl_obj(), Some(mtl), &obj_scene_xml(""));
    assert_eq!(scene.tables.registry.textures.len(), 1);
    let (a, b) = (texture_of(&scene.tables.mats[1]), texture_of(&scene.tables.mats[2]));
    assert!(a.is_some() && a == b);
}

#[test]
fn bsdf_child_overrides_mtl() {
    let xml = obj_scene_xml(
        r#"<bsdf type="diffuse"><rgb name="reflectance" value="0.2,0.3,0.4"/></bsdf>"#,
    );
    let (scene, _) = mtl_scene(&mtl_obj(), Some(MTL), &xml);
    assert_eq!(scene.tables.mats.len(), 1);
    assert!(scene.tables.registry.textures.is_empty());
    match &scene.tables.meshes[0] {
        MeshEntry::Obj { material, .. } => {
            assert!(mesh_of(&mtl_obj()).mat_ids.iter().all(|m| m == material));
        }
        _ => panic!("another mesh"),
    }
}

#[test]
fn use_mtl_false_ignores_mtl() {
    let xml = obj_scene_xml(r#"<boolean name="use_mtl" value="false"/>"#);
    let (scene, warnings) = mtl_scene(&mtl_obj(), Some(MTL), &xml);
    assert_eq!(scene.tables.mats.len(), 1);
    assert!(scene.tables.registry.textures.is_empty());
    assert!(warnings.iter().any(|w| w.contains("without bsdf")), "{:?}", warnings);
}

#[test]
fn missing_or_empty_mtl_falls_back_to_default() {
    let (scene, warnings) = mtl_scene(&mtl_obj(), None, &obj_scene_xml(""));
    assert_eq!(scene.tables.mats.len(), 4);
    assert!(scene.tables.mats.iter().all(|m| is_lambert(m) && texture_of(m).is_none()));
    assert!(warnings.iter().any(|w| w.contains("failed to read mtl")), "{:?}", warnings);
    let (scene, _) = mtl_scene(&mtl_obj(), Some(""), &obj_scene_xml(""));
    assert_eq!(scene.tables.mats.len(), 4);
}

fn has_alpha(s: &ScenePlan) -> bool {
    match &s.tables.meshes[0] {
        MeshEntry::Dressed { masks, .. } => !masks.is_empty(),
        _ => false,
    }
}

#[test]
fn map_d_attaches_alpha_only_to_masked_material_triangles() {
    let mut obj = String::from("mtllib m.mtl\nv 0 0 0\nv 1 0 0\nv 0 1 0\nvt 0 0\nvt 1 0\nvt 0 1\n");
    obj.push_str("usemtl A\nf 1/1 2/2 3/3\nusemtl B\nf 1/1 2/2 3/3\n");
    let masked = "newmtl A\n\tKd 1 1 1\n\tmap_d textures\\a.png\nnewmtl B\n\tKd 1 1 1\n";
    let (scene, warnings) = mtl_scene(&obj, Some(masked), &obj_scene_xml(""));
    assert!(has_alpha(&scene));
    match &scene.tables.meshes[0] {
        MeshEntry::Dressed { masks, slots, opacities, .. } => {
            assert_eq!(masks, &vec![0]);
            assert_eq!(slots, &vec![1, 0]);
            assert_eq!(opacities, &vec![1f32.to_bits(), 1f32.to_bits()]);
        }
        _ => panic!("another mesh"),
    }
    assert!(!warnings.iter().any(|w| w.contains("alpha")), "{:?}", warnings);
    let (scene, _) = mtl_scene(&obj, Some(masked), &obj_scene_xml(r#"<bsdf type="diffuse"/>"#));
    assert!(!has_alpha(&scene));
    let plain = "newmtl A\n\tKd 1 1 1\nnewmtl B\n\tKd 1 1 1\n";
    let (scene, _) = mtl_scene(&obj, Some(plain), &obj_scene_xml(""));
    assert!(!has_alpha(&scene));
}

#[test]
fn masks_are_as_opaque_as_their_materials_at_most() {
    let mtl = "newmtl A\n\td 0.25\n\tmap_d textures\\a.png\nnewmtl B\n\td 3\n\tmap_d textures\\a.png\n";
    let (scene, _) = mtl_scene(&mtl_obj(), Some(mtl), &obj_scene_xml(""));
    match &scene.tables.meshes[0] {
        MeshEntry::Dressed { masks, slots, opacities, .. } => {
            assert_eq!(masks, &vec![0]);
            assert_eq!(slots, &vec![0, 1, 1, 0]);
            let o: Vec<f32> = opacities.iter().map(|&b| f32::from_bits(b)).collect();
            assert_eq!(o, vec![1.0, 0.25, 1.0, 1.0]);
        }
        _ => panic!("another mesh"),
    }
}

fn map_scene(body: &str) -> (ScenePlan, Vec<String>) {
    let xml = format!(r#"<scene version="3.0.0">{}</scene>"#, body);
    load_in(&[("dir/MAP.png", IMAGE)], "dir", &xml)
}

const NMAP: &str = r#"<texture type="bitmap" name="normalmap"><string name="filename" value="MAP.png"/></texture>"#;
const DIFF: &str = r#"<bsdf type="diffuse"/>"#;

#[test]
fn mat_maps_stay_in_sync_with_mats_across_shapes() {
    let body = format!(
        r#"<shape type="sphere"><bsdf type="diffuse"/></shape>
           <shape type="rectangle"><bsdf type="normalmap">{n}{d}</bsdf></shape>
           <shape type="cube"><bsdf type="twosided"><bsdf type="normalmap">{n}{d}</bsdf></bsdf></shape>
           <shape type="rectangle"><bsdf type="bumpmap"><float name="scale" value="2"/><texture type="bitmap" name="bumpmap"><string name="filename" value="MAP.png"/></texture>{d}</bsdf></shape>
           <shape type="disk"><bsdf type="diffuse"/></shape>"#,
        n = NMAP, d = DIFF
    );
    let (s, w) = map_scene(&body);
    let t = &s.tables;
    assert_eq!(t.mats.len(), 5);
    assert_eq!(t.mat_maps.len(), t.mats.len());
    let some: Vec<bool> = t.mat_maps.iter().map(|m| m.is_some()).collect();
    assert_eq!(some, vec![false, true, true, true, false]);
    assert_eq!(t.registry.normal_maps.len(), 3);
    assert!(matches!(t.registry.normal_maps[0].used, MapUse::Tangent));
    assert!(matches!(&t.registry.normal_maps[2].used, MapUse::Height(s) if num(s) == 2.0));
    assert!(w.iter().all(|m| m.contains("sensor")), "{:?}", w);
}

#[test]
fn scenes_without_maps_have_empty_tables() {
    let s = load(r#"<scene version="3.0.0"><shape type="sphere"><bsdf type="diffuse"/></shape></scene>"#);
    assert!(s.tables.mat_maps.is_empty() && s.tables.registry.normal_maps.is_empty());
}

#[test]
fn mat_maps_stay_in_sync_with_mtl_materials() {
    let xml = r#"<scene version="3.0.0">
        <shape type="obj"><string name="filename" value="m.obj"/></shape>
        <shape type="rectangle"><bsdf type="normalmap"><texture type="bitmap"><string name="filename" value="textures/a.png"/></texture><bsdf type="diffuse"/></bsdf></shape>
      </scene>"#;
    let (s, _) = mtl_scene(&mtl_obj(), Some(MTL), xml);
    let t = &s.tables;
    assert_eq!(t.mat_maps.len(), t.mats.len());
    assert_eq!(t.mat_maps.iter().filter(|m| m.is_some()).count(), 1);
    assert!(t.mat_maps.last().unwrap().is_some());
}

#[test]
fn wrapper_warnings_and_raw_reading() {
    let raw_false = format!(
        r#"<shape type="rectangle"><bsdf type="normalmap"><texture type="bitmap" name="normalmap"><string name="filename" value="MAP.png"/><boolean name="raw" value="false"/></texture>{}</bsdf></shape>"#,
        DIFF
    );
    let (s, w) = map_scene(&raw_false);
    assert!(w.iter().any(|m| m.contains("raw=false")), "{:?}", w);
    assert!(matches!(s.tables.registry.normal_maps[0].used, MapUse::Tangent));
    assert!(s.tables.registry.textures.is_empty());
    let no_inner = format!(r#"<shape type="rectangle"><bsdf type="normalmap">{}</bsdf></shape>"#, NMAP);
    let (s, w) = map_scene(&no_inner);
    assert!(w.iter().any(|m| m.contains("without an inner")), "{:?}", w);
    assert!(is_lambert(&s.tables.mats[0]));
    let nested = format!(
        r#"<shape type="rectangle"><bsdf type="normalmap">{n}<bsdf type="normalmap">{n}{d}</bsdf></bsdf></shape>"#,
        n = NMAP, d = DIFF
    );
    let (s, w) = map_scene(&nested);
    assert!(w.iter().any(|m| m.contains("nested")), "{:?}", w);
    assert_eq!(s.tables.mat_maps, vec![Some(1)]);
}

const UV_OBJ: &str = "mtllib m.mtl\nv 0 0 0\nv 1 0 0\nv 0 1 0\nvt 0 0\nvt 1 0\nvt 0 1\n\
     usemtl A\nf 1/1 2/2 3/3\nusemtl B\nf 1/1 2/2 3/3\n";

fn uv_scene(mtl: &str, extra: &str) -> (ScenePlan, Vec<String>) {
    mtl_scene(UV_OBJ, Some(mtl), &obj_scene_xml(extra))
}

#[test]
fn map_bump_attaches_only_to_its_material() {
    let (s, w) = uv_scene(
        "newmtl A\n\tKd 1 1 1\n\tmap_bump -bm 2 textures\\a.png\nnewmtl B\n\tKd 1 1 1\n",
        "",
    );
    let t = &s.tables;
    assert_eq!(t.mats.len(), 2);
    assert_eq!(t.mat_maps.len(), t.mats.len());
    assert_eq!((t.mat_maps[0].is_some(), t.mat_maps[1].is_some()), (true, false));
    match &t.registry.normal_maps[t.mat_maps[0].unwrap()].used {
        MapUse::LibraryHeight(bm) => {
            assert!((num(bm) * MTL_BUMP_K - 2.0 * MTL_BUMP_K).abs() < 1e-12)
        }
        _ => panic!("not a height map"),
    }
    assert!(!w.iter().any(|m| m.contains("map_bump")), "{:?}", w);
}

#[test]
fn bump_maps_are_not_attached_when_mtl_is_bypassed() {
    let mtl = "newmtl A\n\tmap_bump textures\\a.png\nnewmtl B\n\tmap_bump textures\\a.png\n";
    for extra in [r#"<bsdf type="diffuse"/>"#, r#"<boolean name="use_mtl" value="false"/>"#] {
        let (s, _) = uv_scene(mtl, extra);
        assert!(s.tables.mat_maps.is_empty() && s.tables.registry.normal_maps.is_empty());
    }
}

#[test]
fn ggx_materials_get_the_bump_map_too() {
    let (s, _) = uv_scene(
        "newmtl A\n\tKs 0.9 0.9 0.9\n\tNs 100\n\tmap_bump textures\\a.png\nnewmtl B\n\tKd 1 1 1\n",
        "",
    );
    assert!(matches!(s.tables.mats[0], MaterialPlan::Ggx { .. }));
    assert!(s.tables.mat_maps[0].is_some());
}

#[test]
fn map_kd_takes_priority_over_the_ggx_branch() {
    let (s, _) = uv_scene(
        "newmtl A\n\tKs 0.9 0.9 0.9\n\tNs 100\n\tmap_Kd textures\\a.png\n\tmap_bump textures\\a.png\n\
         newmtl B\n\tKs 0.9 0.9 0.9\n\tNs 100\n\tmap_bump textures\\a.png\n",
        "",
    );
    assert!(texture_of(&s.tables.mats[0]).is_some());
    assert!(matches!(s.tables.mats[1], MaterialPlan::Ggx { .. }));
    assert!(s.tables.mat_maps[0].is_some() && s.tables.mat_maps[1].is_some());
}

#[test]
fn norm_wins_over_map_bump_with_one_warning_per_material() {
    let (s, w) = uv_scene(
        "newmtl A\n\tnorm textures\\a.png\n\tmap_bump textures\\a.png\nnewmtl B\n\tnorm textures\\a.png\n\tmap_bump textures\\a.png\n",
        "",
    );
    let maps = &s.tables.registry.normal_maps;
    assert!(!maps.is_empty() && maps.iter().all(|m| matches!(m.used, MapUse::Tangent)));
    assert_eq!(count(&w, "both norm and map_bump"), 2, "{:?}", w);
}

#[test]
fn map_cache_is_keyed_by_path_kind_and_strength() {
    let (s, _) = uv_scene("newmtl A\n\tmap_bump textures\\a.png\nnewmtl B\n\tmap_bump textures/a.png\n", "");
    assert_eq!(s.tables.registry.normal_maps.len(), 1);
    assert_eq!(s.tables.mat_maps[0], s.tables.mat_maps[1]);
    let (s, _) = uv_scene("newmtl A\n\tmap_bump textures\\a.png\nnewmtl B\n\tmap_bump -bm 3 textures/a.png\n", "");
    assert_eq!(s.tables.registry.normal_maps.len(), 2);
    let (s, _) = uv_scene("newmtl A\n\tmap_bump textures\\a.png\nnewmtl B\n\tnorm textures/a.png\n", "");
    assert_eq!(s.tables.registry.normal_maps.len(), 2);
}

fn medium_scene(body: &str) -> (ScenePlan, Vec<String>) {
    let xml = format!(
        r#"<scene version="3.0.0"><sensor type="perspective"><float name="fov" value="40"/></sensor>{}</scene>"#,
        body
    );
    load_in(&[], ".", &xml)
}

#[test]
fn medium_reads_all_properties() {
    let (scene, warnings) = medium_scene(
        r#"<medium type="homogeneous">
             <rgb name="sigma_t" value="0.1, 0.5, 2.0"/>
             <rgb name="albedo" value="0.9, 0.5, 0.2"/>
             <phase type="hg"><float name="g" value="0.3"/></phase>
             <point name="bounds_min" x="-5" y="0" z="-4"/>
             <point name="bounds_max" x="5" y="6" z="4"/>
           </medium>"#,
    );
    assert!(warnings.is_empty(), "{:?}", warnings);
    let m = scene.medium.unwrap();
    assert_eq!(numbers(m.sigma_t), (0.1, 0.5, 2.0));
    assert_eq!(numbers(m.albedo), (0.9, 0.5, 0.2));
    assert_eq!(number(m.g), 0.3);
    let b = m.bounds.unwrap();
    assert_eq!((numbers(b.0), numbers(b.1)), ((-5.0, 0.0, -4.0), (5.0, 6.0, 4.0)));
}

#[test]
fn medium_defaults_and_float_values() {
    let (scene, warnings) = medium_scene(
        r#"<medium type="homogeneous"><float name="sigma_t" value="0.05"/></medium>"#,
    );
    assert!(warnings.is_empty(), "{:?}", warnings);
    let m = scene.medium.unwrap();
    assert_eq!(numbers(m.sigma_t), (0.05, 0.05, 0.05));
    assert_eq!(numbers(m.albedo), (1.0, 1.0, 1.0));
    assert_eq!(number(m.g), 0.0);
    assert!(m.bounds.is_none());
    let (scene, _) = medium_scene(
        r#"<medium type="homogeneous"><rgb name="sigma_t" value="0.05"/><float name="albedo" value="0.5"/>
             <phase type="hg"/></medium>"#,
    );
    let m = scene.medium.unwrap();
    assert_eq!(number(m.albedo.1), 0.5);
    assert_eq!(number(m.g), 0.0);
    let (scene, warnings) = medium_scene(
        r#"<medium type="homogeneous"><phase type="isotropic"/></medium>"#,
    );
    assert!(warnings.is_empty());
    assert_eq!(number(scene.medium.unwrap().g), 0.0);
    assert!(medium_scene("").0.medium.is_none());
}

#[test]
fn medium_invalid_input_warns_and_does_not_crash() {
    let warned = |body: &str, needle: &str| {
        let (scene, w) = medium_scene(body);
        assert!(w.iter().any(|m| m.contains(needle)), "{}: {:?}", needle, w);
        scene
    };
    assert!(warned(r#"<medium type="heterogeneous"/>"#, "medium type").medium.is_none());
    let s = warned(r#"<medium type="homogeneous"><phase type="rayleigh"/></medium>"#, "phase type");
    assert_eq!(number(s.medium.unwrap().g), 0.0);
    let one = r#"<medium type="homogeneous"><point name="bounds_min" x="0" y="0" z="0"/></medium>"#;
    assert!(warned(one, "bounds").medium.unwrap().bounds.is_none());
    let inv = r#"<medium type="homogeneous"><point name="bounds_min" x="1" y="0" z="0"/>
                   <point name="bounds_max" x="0" y="1" z="1"/></medium>"#;
    assert!(warned(inv, "bounds").medium.unwrap().bounds.is_none());
    let two = r#"<medium type="homogeneous"><float name="sigma_t" value="1"/></medium>
                 <medium type="homogeneous"><float name="sigma_t" value="2"/></medium>"#;
    let s = warned(two, "more than one");
    assert_eq!(number(s.medium.unwrap().sigma_t.0), 1.0);
    let bad = r#"<medium type="homogeneous"><float name="sigma_t" value="-1"/><float name="albedo" value="2"/>
                   <phase type="hg"><float name="g" value="1.5"/></phase></medium>"#;
    let (scene, w) = medium_scene(bad);
    let m = scene.medium.unwrap();
    assert_eq!(
        w,
        vec![
            "medium sigma_t must be >= 0; negative components set to 0".to_string(),
            "medium albedo must be within [0, 1]; clamped".to_string(),
            "phase g = 1.5 must be within (-1, 1); clamped to +-0.99".to_string(),
        ]
    );
    assert_eq!(number(m.sigma_t.0), 0.0);
    assert_eq!(number(m.albedo.0), 1.0);
    assert_eq!(number(m.g), 0.99);
}

#[test]
fn medium_inside_shape_warns_and_is_skipped() {
    let (scene, warnings) = medium_scene(
        r#"<shape type="sphere"><bsdf type="diffuse"/>
             <medium name="interior" type="homogeneous"><float name="sigma_t" value="1"/></medium></shape>"#,
    );
    assert!(warnings.iter().any(|w| w.contains("inside a <shape>")), "{:?}", warnings);
    assert!(scene.medium.is_none());
}

const FLAT_OBJ: &str = "v 0 0 0\nv 1 0 0\nv 0 1 0\nf 1 2 3\n";
const SHARE: [(&str, &str); 4] = [
    ("dir/a.obj", SMOOTH_OBJ),
    ("dir/b.obj", FLAT_OBJ),
    ("dir/a_end.obj", "v 2 0 0\nv 3 0 0\nv 2 1 0\nvn 0 0 1\nvn 0 1 0\nvn 1 0 0\nf 1//1 2//2 3//3\n"),
    ("dir/bad_end.obj", "v 2 0 0\nv 3 0 0\nv 2 1 0\nv 9 9 9\nf 1 2 3\n"),
];

fn obj_shape(file: &str, x: f64, bsdf: &str, extra: &str) -> String {
    format!(
        r#"<shape type="obj"><string name="filename" value="{file}"/>{extra}
             <transform name="to_world"><translate x="{x}" y="0" z="0"/></transform>{bsdf}</shape>"#
    )
}

const DIFFUSE_A: &str = r#"<bsdf type="diffuse"><rgb name="reflectance" value="0.1"/></bsdf>"#;
const DIFFUSE_B: &str = r#"<bsdf type="diffuse"><rgb name="reflectance" value="0.9"/></bsdf>"#;
const END_TRANSFORM: &str = r#"<transform name="to_world_end"><translate x="3" y="0" z="0"/></transform>"#;

fn share_scene(shapes: &str) -> (ScenePlan, Vec<String>) {
    let xml = format!(
        r#"<scene version="3.0.0"><sensor type="perspective"><float name="fov" value="40"/></sensor>{}</scene>"#,
        shapes
    );
    load_in(&SHARE, "dir", &xml)
}

fn counts(s: &ScenePlan) -> (usize, usize) {
    (s.tables.meshes.len(), instances(s).len())
}

#[test]
fn same_obj_shares_one_mesh_and_keeps_per_instance_materials() {
    let shapes: String = (0..3)
        .map(|i| obj_shape("a.obj", 3.0 * i as f64, if i == 1 { DIFFUSE_B } else { DIFFUSE_A }, ""))
        .collect();
    let (scene, _) = share_scene(&shapes);
    assert_eq!(counts(&scene), (1, 3));
    assert_eq!(scene.tables.mats.len(), 3);
    for i in 0..3 {
        assert_eq!(shown_material(&scene, i), i);
        match &scene.placements[i] {
            Placement::Instance { to_world, .. } => {
                assert_eq!(translation(to_world), [3.0 * i as f64, 0.0, 0.0])
            }
            _ => panic!("no instance"),
        }
    }
    let (scene, _) = share_scene(&format!(
        "{}{}",
        obj_shape("a.obj", 0.0, DIFFUSE_A, ""),
        obj_shape("./a.obj", 3.0, DIFFUSE_A, "")
    ));
    assert_eq!(scene.tables.meshes.len(), 1);
}

#[test]
fn different_obj_or_normal_handling_is_not_shared() {
    let pair = |a: String, b: String| share_scene(&format!("{}{}", a, b)).0;
    let plain = |f: &str, x: f64| obj_shape(f, x, DIFFUSE_A, "");
    assert_eq!(counts(&pair(plain("a.obj", 0.0), plain("b.obj", 3.0))), (2, 2));
    let fn_true = r#"<boolean name="face_normals" value="true"/>"#;
    let flat = |x: f64| obj_shape("a.obj", x, DIFFUSE_A, fn_true);
    let scene = pair(plain("a.obj", 0.0), flat(3.0));
    assert_eq!(counts(&scene), (2, 2));
    assert!(is_smooth(&SHARE, &scene, 0) && !is_smooth(&SHARE, &scene, 1));
    assert_eq!(counts(&pair(flat(0.0), flat(3.0))), (1, 2));
}

#[test]
fn shared_mesh_emitter_is_per_instance() {
    let emitter = r#"<emitter type="area"><rgb name="radiance" value="5"/></emitter>"#;
    let (scene, _) = share_scene(&format!(
        "{}{}",
        obj_shape("a.obj", 0.0, DIFFUSE_A, ""),
        obj_shape("a.obj", 3.0, "", emitter)
    ));
    assert_eq!(scene.tables.meshes.len(), 1);
    assert!(!is_emitter(&scene, shown_material(&scene, 0)));
    assert!(is_emitter(&scene, shown_material(&scene, 1)));
}

#[test]
fn mtl_path_obj_is_not_shared() {
    let disk = [
        ("dir/m.obj", "mtllib m.mtl\nv 0 0 0\nv 1 0 0\nv 0 1 0\nusemtl A\nf 1 2 3\n"),
        ("dir/m.mtl", "newmtl A\nKd 1 0 0\n"),
    ];
    let shape = |x: f64| {
        format!(r#"<shape type="obj"><string name="filename" value="m.obj"/><transform name="to_world"><translate x="{x}" y="0" z="0"/></transform></shape>"#)
    };
    let xml = format!(r#"<scene version="3.0.0">{}{}</scene>"#, shape(0.0), shape(3.0));
    let (scene, _) = load_in(&disk, "dir", &xml);
    assert_eq!(counts(&scene), (2, 2));
    for i in 0..2 {
        assert_eq!(shown_material(&scene, i), i);
    }
}

#[test]
fn delta_emitters_read_all_properties() {
    let (scene, warnings) = medium_scene(
        r#"<emitter type="point"><point name="position" x="1" y="2" z="3"/><rgb name="intensity" value="10, 20, 30"/></emitter>
           <emitter type="directional"><vector name="direction" x="0" y="-2" z="0"/><float name="irradiance" value="3"/></emitter>
           <emitter type="spot"><point name="position" x="0" y="3" z="0"/><vector name="direction" x="0" y="-1" z="0"/>
             <rgb name="intensity" value="80"/><float name="cutoff_angle" value="25"/><float name="beam_width" value="18"/></emitter>"#,
    );
    assert!(warnings.is_empty(), "{:?}", warnings);
    let l = &scene.lights;
    assert_eq!(l.len(), 3);
    match &l[0] {
        Light::Point { position, intensity } => {
            assert_eq!(vec3(position), [1.0, 2.0, 3.0]);
            assert_eq!(numbers(*intensity), (10.0, 20.0, 30.0));
        }
        _ => panic!("not a point"),
    }
    match &l[1] {
        Light::Directional { direction, irradiance } => {
            assert_eq!(vec3(direction), [0.0, -2.0, 0.0]);
            assert_eq!(number(irradiance.1), 3.0);
        }
        _ => panic!("not directional"),
    }
    match &l[2] {
        Light::Spot { intensity, cutoff_angle, beam_width, .. } => {
            assert_eq!(number(intensity.2), 80.0);
            assert_eq!(number(*cutoff_angle), 25.0);
            assert_eq!(number(*beam_width), 18.0);
        }
        _ => panic!("not a spot"),
    }
}

#[test]
fn delta_emitter_defaults() {
    let (scene, warnings) = medium_scene(
        r#"<emitter type="spot"><rgb name="intensity" value="5"/></emitter><emitter type="point"/>"#,
    );
    assert!(warnings.is_empty(), "{:?}", warnings);
    match &scene.lights[0] {
        Light::Spot { position, direction, cutoff_angle, beam_width, .. } => {
            assert_eq!(vec3(position), [0.0, 0.0, 0.0]);
            assert_eq!(vec3(direction)[1], -1.0);
            assert_eq!(number(*cutoff_angle), 20.0);
            assert_eq!(number(*beam_width), 15.0);
        }
        _ => panic!("not a spot"),
    }
}

#[test]
fn env_emitters_are_unchanged_and_coexist_with_delta_lights() {
    let (scene, w) = medium_scene(r#"<emitter type="constant"><rgb name="radiance" value="0.25"/></emitter>"#);
    assert!(w.is_empty());
    assert_eq!(constant_env(&scene)[0], 0.25);
    assert!(scene.lights.is_empty());
    let (scene, w) = medium_scene(
        r#"<emitter type="point"><rgb name="intensity" value="1"/></emitter>
           <emitter type="constant"><rgb name="radiance" value="0.25"/></emitter>
           <emitter type="point"><rgb name="intensity" value="2"/></emitter>"#,
    );
    assert!(w.is_empty(), "{:?}", w);
    assert_eq!(constant_env(&scene)[0], 0.25);
    assert_eq!(scene.lights.len(), 2);
    let (scene, w) = medium_scene(r#"<emitter type="projector"/>"#);
    assert!(w.iter().any(|m| m.contains("unsupported scene emitter type")), "{:?}", w);
    assert_eq!(constant_env(&scene)[0], 0.0);
    assert!(scene.lights.is_empty());
}

#[test]
fn delta_emitter_invalid_input_warns_and_does_not_crash() {
    let warned = |body: &str, needle: &str| {
        let (scene, w) = medium_scene(body);
        assert!(w.iter().any(|m| m.contains(needle)), "{needle}: {:?}", w);
        scene
    };
    let s = warned(
        r#"<emitter type="directional"><vector name="direction" x="0" y="0" z="0"/></emitter>"#,
        "direction",
    );
    assert!(s.lights.is_empty());
    let s = warned(
        r#"<emitter type="spot"><vector name="direction" x="0" y="0" z="0"/></emitter>"#,
        "direction",
    );
    assert!(s.lights.is_empty());
    for bad in ["0", "-5", "120"] {
        let s = warned(
            &format!(r#"<emitter type="spot"><float name="cutoff_angle" value="{bad}"/></emitter>"#),
            "cutoff_angle",
        );
        match &s.lights[0] {
            Light::Spot { cutoff_angle, .. } => {
                assert!((number(*cutoff_angle).to_radians() - 20f64.to_radians()).abs() < 1e-15)
            }
            _ => panic!("not a spot"),
        }
    }
    let s = warned(
        r#"<emitter type="spot"><float name="cutoff_angle" value="20"/><float name="beam_width" value="30"/></emitter>"#,
        "beam_width",
    );
    match &s.lights[0] {
        Light::Spot { cutoff_angle, beam_width, .. } => assert_eq!(cutoff_angle, beam_width),
        _ => panic!("not a spot"),
    }
    let s = warned(
        r#"<emitter type="point"><rgb name="intensity" value="-1, 2, 3"/></emitter>"#,
        "must be >= 0",
    );
    match &s.lights[0] {
        Light::Point { intensity, .. } => {
            assert_eq!((number(intensity.0), number(intensity.1)), (0.0, 2.0))
        }
        _ => panic!("not a point"),
    }
    let s = warned(
        r#"<shape type="sphere"><bsdf type="diffuse"/><emitter type="point"><rgb name="intensity" value="5"/></emitter></shape>"#,
        "inside a <shape>",
    );
    assert!(s.lights.is_empty());
    assert!(!is_emitter(&s, 0));
}

#[test]
fn lights_are_warned_of_in_the_order_of_the_document() {
    let (s, w) = medium_scene(
        r#"<emitter type="directional"><rgb name="irradiance" value="-1"/><vector name="direction" x="0" y="0" z="0"/></emitter>
           <oddity/>
           <emitter type="spot"><float name="cutoff_angle" value="100.50"/><float name="beam_width" value="-2"/></emitter>
           <emitter type="spot"><vector name="direction" x="inf" y="0" z="0"/></emitter>"#,
    );
    assert_eq!(s.lights.len(), 1);
    assert_eq!(
        w,
        vec![
            "directional emitter irradiance must be >= 0; negative components set to 0".to_string(),
            "directional emitter direction is zero or not finite; light ignored".to_string(),
            "unsupported element <oddity>, skipped".to_string(),
            "spot cutoff_angle 100.5 is outside (0, 90]; using 20".to_string(),
            "spot beam_width -2 must be within (0, cutoff_angle]; using cutoff_angle".to_string(),
            "spot emitter direction is zero or not finite; light ignored".to_string(),
        ]
    );
}

#[test]
fn ranges_of_lights_and_media_are_kept() {
    let b = |x: f64| x.to_bits();
    assert_eq!(check_cutoff(b(90.0)), (b(90.0), true));
    assert_eq!(check_cutoff(b(f64::NAN)), (b(20.0), false));
    assert_eq!(check_beam(b(20.0), b(20.0)), (b(20.0), true));
    assert_eq!(check_beam(b(30.0), b(20.0)), (b(20.0), false));
    assert!(direction_fits(b(1e-300)) && direction_fits(b(1e300)));
    for bad in [0.0, -0.0, -1.0, f64::INFINITY, f64::NAN] {
        assert!(!direction_fits(b(bad)), "{bad}");
    }
    let m = check_medium(MediumBits {
        sigma_t: bits([-1.0, 2.0, 0.0]),
        albedo: bits([f64::NAN, 0.5, 3.0]),
        g: b(f64::NAN),
        bounds: Some((bits([0.0; 3]), bits([1.0, -1.0, 1.0]))),
    });
    assert_eq!(numbers(m.sigma_t), (0.0, 2.0, 0.0));
    assert_eq!(numbers(m.albedo), (0.0, 0.5, 1.0));
    assert_eq!(number(m.g), 0.0);
    assert!(m.bounds.is_none());
}

#[test]
fn a_rotation_about_nothing_is_left_out() {
    let turned = |axis: &str| {
        let xml = format!(
            r#"<scene version="3.0.0"><shape type="cube"><bsdf type="diffuse"/><transform name="to_world">
               <rotate {axis} angle="90"/><translate x="1"/></transform></shape></scene>"#
        );
        let (s, mut w) = load_in(&[], ".", &xml);
        w.retain(|m| !m.contains("sensor"));
        match &s.placements[0] {
            Placement::Instance { to_world, .. } => (to_world.len(), w),
            _ => panic!("no instance"),
        }
    };
    assert_eq!(turned(""), (1, vec!["rotate with zero axis; ignored".to_string()]));
    assert_eq!(turned(r#"x="1e-13" y="0" z="0""#).0, 1);
    assert_eq!(turned(r#"x="1e-11""#), (2, vec![]));
    assert_eq!(turned(r#"y="-1""#), (2, vec![]));
}

fn placement_of(s: &ScenePlan, i: usize) -> ([f64; 3], Option<[f64; 3]>) {
    match &s.placements[i] {
        Placement::Instance { to_world, to_world_end, .. } => {
            (translation(to_world), to_world_end.as_ref().map(translation))
        }
        _ => panic!("no instance"),
    }
}

#[test]
fn to_world_end_animates_the_instance() {
    let (scene, w) = share_scene(&obj_shape("a.obj", 0.0, DIFFUSE_A, END_TRANSFORM));
    assert!(w.is_empty(), "{:?}", w);
    assert_eq!(placement_of(&scene, 0), ([0.0; 3], Some([3.0, 0.0, 0.0])));
    let xml = format!(
        r#"<shape type="obj"><string name="filename" value="a.obj"/>{}<transform name="to_world"><translate x="10" y="0" z="0"/></transform>{}</shape>"#,
        END_TRANSFORM, DIFFUSE_A
    );
    let (scene, _) = share_scene(&xml);
    assert_eq!(placement_of(&scene, 0), ([10.0, 0.0, 0.0], Some([3.0, 0.0, 0.0])));
    let (scene, _) = share_scene(&obj_shape("a.obj", 0.0, DIFFUSE_A, ""));
    assert!(!moves(&scene, 0));
}

#[test]
fn filename_end_vertex_motion_and_cache_key() {
    let end = r#"<string name="filename_end" value="a_end.obj"/>"#;
    let (scene, _) = share_scene(&obj_shape("a.obj", 0.0, DIFFUSE_A, end));
    match &scene.tables.meshes[0] {
        MeshEntry::Obj { path, end: Some(e), .. } => {
            let m = moving_mesh(read(&SHARE, path).unwrap(), read(&SHARE, e).unwrap()).unwrap();
            assert_eq!(vec3(&m.positions[0]), [0.0, 0.0, 0.0]);
            assert_eq!(vec3(&m.motion[0]), [2.0, 0.0, 0.0]);
        }
        _ => panic!("no motion"),
    }
    let both = format!("{end}{END_TRANSFORM}");
    let (scene, _) = share_scene(&obj_shape("a.obj", 0.0, DIFFUSE_A, &both));
    assert!(moves(&scene, 0));
    assert!(matches!(&scene.tables.meshes[0], MeshEntry::Obj { end: Some(_), .. }));
    let (scene, _) = share_scene(&format!(
        "{}{}",
        obj_shape("a.obj", 0.0, DIFFUSE_A, ""),
        obj_shape("a.obj", 3.0, DIFFUSE_A, end)
    ));
    assert_eq!(counts(&scene), (2, 2));
    assert!(matches!(&scene.tables.meshes[0], MeshEntry::Obj { end: None, .. }));
    assert!(matches!(&scene.tables.meshes[1], MeshEntry::Obj { end: Some(_), .. }));
    let (scene, _) = share_scene(&format!(
        "{}{}",
        obj_shape("a.obj", 0.0, DIFFUSE_A, end),
        obj_shape("a.obj", 5.0, DIFFUSE_B, end)
    ));
    assert_eq!(counts(&scene), (1, 2));
    assert_eq!(placement_of(&scene, 1).0, [5.0, 0.0, 0.0]);
    let bad = r#"<string name="filename_end" value="bad_end.obj"/>"#;
    let (scene, w) = share_scene(&obj_shape("a.obj", 0.0, DIFFUSE_A, bad));
    assert!(w.iter().any(|m| m.contains("vertex motion")), "{:?}", w);
    assert!(matches!(&scene.tables.meshes[0], MeshEntry::Obj { end: None, .. }));
}

#[test]
fn lights_and_spheres_do_not_move() {
    let (scene, _) = share_scene(&obj_shape("a.obj", 0.0, DIFFUSE_A, r#"<transform name="to_world_end"/>"#));
    assert!(moves(&scene, 0));
    let emitter_xml = format!(
        r#"<shape type="obj"><string name="filename" value="a.obj"/>{}<emitter type="area"><rgb name="radiance" value="5"/></emitter></shape>"#,
        END_TRANSFORM
    );
    let (scene, w) = share_scene(&emitter_xml);
    assert!(w.iter().any(|m| m.contains("area-light")), "{:?}", w);
    assert!(!moves(&scene, 0));
    let (_, w) = share_scene(&format!(r#"<shape type="sphere"><bsdf type="diffuse"/>{}</shape>"#, END_TRANSFORM));
    assert!(w.iter().any(|m| m.contains("sphere")), "{:?}", w);
}

#[test]
fn sensor_shutter_is_put_in_order() {
    let with_sensor = |props: &str| {
        let xml = format!(
            r#"<scene version="3.0.0"><sensor type="perspective"><float name="fov" value="40"/>{props}</sensor></scene>"#
        );
        let (s, w) = load_in(&[], ".", &xml);
        let t = s.sensor.unwrap();
        ((number(t.shutter_open), number(t.shutter_close)), w)
    };
    let times = |open: &str, close: &str| {
        with_sensor(&format!(
            r#"<float name="shutter_open" value="{open}"/><float name="shutter_close" value="{close}"/>"#
        ))
    };
    assert_eq!(with_sensor(""), ((0.0, 1.0), vec![]));
    assert_eq!(times("0", "0.5"), ((0.0, 0.5), vec![]));
    let (t, w) = times("0.8", "0.2");
    assert_eq!(t, (0.2, 0.8));
    assert_eq!(w, vec!["shutter_open 0.8 > shutter_close 0.2; swapped".to_string()]);
    assert_eq!(times("0.3", "0.3"), ((0.3, 0.3), vec![]));
    let (t, w) = times("-1", "4");
    assert_eq!(t, (0.0, 1.0));
    assert!(w.iter().any(|m| m.contains("clamped")), "{:?}", w);
    let (t, w) = times("nan", "0.5");
    assert_eq!(t, (0.0, 1.0));
    assert!(w.iter().any(|m| m.contains("finite")), "{:?}", w);
}

const CAM_START: &str = r#"<transform name="to_world"><lookat origin="4, 1, 0" target="0, 0, 0" up="0, 1, 0"/></transform>"#;
const CAM_END: &str = r#"<transform name="to_world_end"><lookat origin="0, 1, -4" target="0, 0, 0" up="0, 1, 0"/></transform>"#;

fn sensor_scene(inner: &str) -> (ScenePlan, Vec<String>) {
    let xml = format!(r#"<scene version="3.0.0"><sensor type="perspective"><float name="fov" value="40"/>{inner}</sensor></scene>"#);
    load_in(&[], ".", &xml)
}

#[test]
fn sensor_poses_are_told_apart_by_name() {
    for inner in [format!("{CAM_START}{CAM_END}"), format!("{CAM_END}{CAM_START}")] {
        let (s, w) = sensor_scene(&inner);
        assert!(w.is_empty(), "{w:?}");
        let t = s.sensor.unwrap();
        assert_eq!(vec3(&t.pose.origin), [4.0, 1.0, 0.0]);
        assert_eq!(vec3(&t.end_pose.unwrap().origin), [0.0, 1.0, -4.0]);
    }
    let (s, w) = sensor_scene(CAM_START);
    assert!(w.is_empty());
    assert!(s.sensor.unwrap().end_pose.is_none());
    for end in [
        r#"<transform name="to_world_end"><translate x="1" y="0" z="0"/></transform>"#,
        r#"<transform name="to_world_end"/>"#,
    ] {
        let (s, w) = sensor_scene(&format!("{CAM_START}{end}"));
        assert_eq!(count(&w, "to_world_end"), 1, "{end}: {w:?}");
        assert!(s.sensor.unwrap().end_pose.is_none());
    }
}

fn refers_to_what_it_has(s: &ScenePlan) {
    let t = &s.tables;
    let n = t.mats.len();
    assert!(t.mat_maps.is_empty() || t.mat_maps.len() == n);
    assert!(t.mat_maps.iter().flatten().all(|m| *m < t.registry.normal_maps.len()));
    assert!(t.mats.iter().filter_map(texture_of).all(|i| i < t.registry.textures.len()));
    for m in &t.meshes {
        match m {
            MeshEntry::Rectangle(i) | MeshEntry::Cube(i) | MeshEntry::Disk(i) => assert!(*i < n),
            MeshEntry::Obj { material, .. } => assert!(*material < n),
            MeshEntry::Dressed { base, masks, slots, opacities, .. } => {
                assert!(base + slots.len() <= n);
                assert_eq!(slots.len(), opacities.len());
                assert!(masks.iter().all(|m| *m < t.library.mask_files.len()));
                assert!(slots.iter().all(|k| *k <= masks.len()));
            }
        }
    }
    for p in &s.placements {
        match p {
            Placement::Nothing => {}
            Placement::Sphere { material, .. } => assert!(*material < n),
            Placement::Instance { mesh, instead, .. } => {
                assert!(*mesh < t.meshes.len());
                assert!(instead.map_or(true, |m| m < n));
            }
        }
    }
}

#[test]
fn scenes_refer_to_what_they_have() {
    let obj = mtl_obj();
    let shapes = r#"
        <shape type="sphere"/><shape type="cube"/><shape type="disk"/><shape type="none"/>
        <shape type="rectangle"><bsdf type="diffuse"><texture type="bitmap" name="reflectance">
            <string name="filename" value="textures/a.png"/></texture></bsdf></shape>
        <shape type="obj"><string name="filename" value="m.obj"/><bsdf type="diffuse"/></shape>
        <shape type="obj"><string name="filename" value="m.obj"/><bsdf type="dielectric"/></shape>
        <shape type="obj"><string name="filename" value="m.obj"/></shape>
        <shape type="obj"><string name="filename" value="gone.obj"/></shape>"#;
    let xml = format!(r#"<scene version="3.0.0">{}</scene>"#, shapes);
    let (scene, _) = mtl_scene(&obj, Some(MTL), &xml);
    assert_eq!(spheres(&scene), 1);
    assert_eq!(instances(&scene).len(), 6);
    refers_to_what_it_has(&scene);
    let (bare, _) = mtl_scene(&obj, None, &xml);
    refers_to_what_it_has(&bare);
}

#[test]
fn an_image_is_no_environment_and_an_environment_no_image() {
    let scene = |file: &str| {
        let xml = format!(
            r#"<scene version="3.0.0"><sensor type="perspective"/>
               <shape type="sphere"><bsdf type="diffuse"><texture type="bitmap" name="reflectance">
                 <string name="filename" value="{file}"/></texture></bsdf></shape>
               <emitter type="envmap"><string name="filename" value="{file}"/></emitter></scene>"#
        );
        load_in(&[("dir/t.png", IMAGE), ("dir/t.hdr", SKY)], "dir", &xml)
    };
    let (s, w) = scene("t.png");
    assert_eq!(s.tables.registry.textures.len(), 1);
    assert_eq!(constant_env(&s), [0.0; 3]);
    assert_eq!(w, vec!["failed to load envmap 'dir/t.png': another format; ignored".to_string()]);
    let (s, w) = scene("t.hdr");
    assert!(s.tables.registry.textures.is_empty());
    assert!(matches!(&s.environment, EnvironmentText::Image { path, .. } if path == "dir/t.hdr"));
    assert_eq!(w, vec!["failed to load texture 'dir/t.hdr': another format; ignored".to_string()]);
    let (s, w) = scene("none");
    assert!(s.tables.registry.textures.is_empty());
    assert_eq!(constant_env(&s), [0.0; 3]);
    assert_eq!(w.len(), 2);
}
