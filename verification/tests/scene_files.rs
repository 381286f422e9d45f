use tinypt::config::RenderConfig;
use tinypt::mitsuba::dressing::{assign_masks, triangle_slots};
use tinypt::mitsuba::lights::{fallback_pose, parse_lookat};
use tinypt::mitsuba::materials::{
    environment_error_of, error_of, fallback_material, key_of, Image, MaterialPlan, Registry,
};
use tinypt::mitsuba::paths::{directory_of, library_paths};
use tinypt::mitsuba::props::{parse_number, parse_some_numbers, parse_vec3, to_signed, NameRule};
use tinypt::mitsuba::scene::{
    load_scene_from_str, referenced_files, resolve_path, SceneSettings, Step,
};
use tinypt::mitsuba::tables::{MeshEntry, ObjEntry, SceneTables};
use tinypt::mitsuba::transforms::{parse_transform, parse_transform_op, TransformOp};
use tinypt::mitsuba::xml::{
    attach, make_element, parse_tree, tree_of, Element, SceneError, XmlAttr, XmlEvent, XmlTag,
};
use tinypt::obj::Triple;

fn root(xml: &str) -> Element {
    parse_tree(xml).ok().unwrap()
}

fn problem(xml: &str) -> SceneError {
    parse_tree(xml).err().unwrap()
}

fn tag(name: &str, attrs: &[(&str, &str)]) -> XmlTag {
    XmlTag {
        name: name.to_string(),
        attrs: attrs
            .iter()
            .map(|a| Ok(XmlAttr { key: a.0.to_string(), value: a.1.to_string() }))
            .collect(),
    }
}

#[test]
fn a_document_is_a_tree_of_elements() {
    let r = root("<?xml version='1.0'?><!-- a --><a x='1' y=\"2 &lt; 3\">text<b/><c><d/></c></a>");
    assert_eq!(r.tag, "a");
    assert_eq!(
        r.attrs,
        vec![("x".to_string(), "1".to_string()), ("y".to_string(), "2 < 3".to_string())]
    );
    let tags: Vec<&str> = r.children.iter().map(|c| c.tag.as_str()).collect();
    assert_eq!(tags, vec!["b", "c"]);
    assert_eq!(r.children[1].children[0].tag, "d");
}

#[test]
fn what_is_wrong_with_a_document_is_told() {
    assert!(matches!(problem("<a><b></a>"), SceneError::Malformed(_)));
    assert!(matches!(problem("<a x=1/>"), SceneError::Malformed(_)));
    assert!(matches!(problem("<a x='1' x='2'/>"), SceneError::Malformed(_)));
    assert!(matches!(problem("<a x='&nope;'/>"), SceneError::Malformed(_)));
    assert!(matches!(problem("<a"), SceneError::Malformed(_)));
    assert!(matches!(problem(""), SceneError::Empty));
    assert!(matches!(problem("<!-- nothing -->"), SceneError::Empty));
    assert!(matches!(problem("<a>"), SceneError::Empty));
    let cfg = RenderConfig::default();
    let e = load_scene_from_str("<world/>", &cfg, (None, None)).err().unwrap();
    assert!(matches!(e, SceneError::NotAScene));
    assert!(referenced_files("<a", "dir").is_err());
}

#[test]
fn positions_of_bad_attributes_count_from_the_start_of_the_tag() {
    let text = |xml: &str| match problem(xml) {
        SceneError::Malformed(e) => e,
        _ => panic!("another error"),
    };
    assert!(text("<scene x='1' x='2'/>").contains("position 12"), "{}", text("<scene x='1' x='2'/>"));
    assert!(text("<s x='1' x='2'/>").contains("position 8"), "{}", text("<s x='1' x='2'/>"));
}

#[test]
fn pieces_make_a_tree() {
    let events = vec![
        XmlEvent::Other,
        XmlEvent::Start(tag("a", &[("k", "v")])),
        XmlEvent::Empty(tag("b", &[])),
        XmlEvent::End,
        XmlEvent::Eof,
    ];
    let r = tree_of(&events).ok().unwrap();
    assert_eq!((r.tag.as_str(), r.children.len()), ("a", 1));
    assert!(matches!(tree_of(&vec![XmlEvent::End]), Err(SceneError::Unbalanced)));
    assert!(matches!(tree_of(&vec![XmlEvent::Other]), Err(SceneError::Empty)));
    let failed = vec![XmlEvent::Empty(tag("a", &[])), XmlEvent::Failed("why".to_string())];
    assert!(matches!(tree_of(&failed), Err(SceneError::Malformed(e)) if e == "why"));
    let bad = XmlTag { name: "a".to_string(), attrs: vec![Err("bad".to_string())] };
    assert!(matches!(make_element(&bad), Err(SceneError::Malformed(e)) if e == "bad"));
}

#[test]
fn the_last_element_outside_all_others_is_the_root() {
    let two = vec![XmlEvent::Empty(tag("a", &[])), XmlEvent::Empty(tag("b", &[]))];
    assert_eq!(tree_of(&two).ok().unwrap().tag, "b");
    let (mut stack, mut top) = (vec![make_element(&tag("p", &[])).ok().unwrap()], None);
    attach(&mut stack, &mut top, make_element(&tag("c", &[])).ok().unwrap());
    assert!(top.is_none());
    assert_eq!(stack[0].children[0].tag, "c");
}

#[test]
fn properties_are_found_by_tag_and_name() {
    let r = root(
        r#"<e type="t"><float name="f" value=" 2.5 "/><integer name="i" value="-3"/><integer name="n" value="7"/>
           <string name="s" value="x"/><boolean name="b" value="true"/><point name="p" x="1" y="2" z="3"/>
           <rgb name="c" value="1 2 3"/><srgb name="d" value="0.5"/><float name="g" value="4"/></e>"#,
    );
    assert_eq!(r.typ(), "t");
    assert!(r.is_typ("t") && r.is_tag("e"));
    assert_eq!(r.float("f").as_deref(), Some("2.5"));
    assert_eq!(r.float("x"), None);
    assert_eq!(r.int_signed("i"), Some(-3));
    assert_eq!(r.integer("i"), None);
    assert_eq!(r.integer("n"), Some(7));
    assert_eq!(r.string("s"), Some("x"));
    let mut w = Vec::new();
    assert!(r.boolean_or("b", false, &mut w));
    assert!(r.boolean_or("other", true, &mut w));
    assert!(w.is_empty());
    let p = r.point("p").unwrap();
    assert_eq!((p.x.as_str(), p.y.as_str(), p.z.as_str()), ("1", "2", "3"));
    assert!(r.vector("p").is_none());
    let c = r.color("c").unwrap();
    assert_eq!((c.srgb, c.v.x.as_str(), c.v.z.as_str()), (false, "1", "3"));
    let d = r.color("d").unwrap();
    assert_eq!((d.srgb, d.v.x.as_str(), d.v.y.as_str()), (true, "0.5", "0.5"));
    assert!(r.color("g").is_none());
    assert_eq!(r.color_or_float("g").unwrap().v.x, "4");
    assert!(r.child_tag("point").is_some() && r.child_tag("vector").is_none());
    assert_eq!(r.find_child("integer", NameRule::Is("n")), 2);
    assert_eq!(r.attr("missing"), None);
}

#[test]
fn numbers_are_taken_as_they_are_written() {
    assert_eq!(parse_number(" 1e-3 ").as_deref(), Some("1e-3"));
    assert_eq!(parse_number("abc"), None);
    let v = parse_vec3("1, 2 ,3").unwrap();
    assert_eq!((v.x.as_str(), v.y.as_str(), v.z.as_str()), ("1", "2", "3"));
    assert!(parse_vec3("1 2").is_none());
    assert_eq!(parse_some_numbers("1 x 2"), vec!["1".to_string(), "2".to_string()]);
    assert_eq!(to_signed(-12), "-12");
    assert_eq!(to_signed(i64::MIN), i64::MIN.to_string());
}

#[test]
fn steps_of_a_transformation_stay_in_order() {
    let t = root(
        r#"<transform><translate x="1"/><rotate y="1" angle="90"/><scale value="2"/><scale x="3"/>
           <matrix value="1 0 0 0 0 1 0 0 0 0 1 0 0 0 0 1"/><matrix value="1 2"/><shear/></transform>"#,
    );
    let mut w = Vec::new();
    let length = |v: &Triple| {
        let x: f64 = v.x.parse().unwrap();
        let y: f64 = v.y.parse().unwrap();
        let z: f64 = v.z.parse().unwrap();
        (x * x + y * y + z * z).sqrt().to_bits()
    };
    let ops = parse_transform(&t, &length, &mut w);
    assert_eq!(ops.len(), 5);
    assert!(matches!(&ops[0], TransformOp::Translate(v) if v.x == "1" && v.y == "0"));
    assert!(matches!(&ops[1], TransformOp::Rotate { axis, angle } if axis.y == "1" && angle == "90"));
    assert!(matches!(&ops[2], TransformOp::Scale(v) if v.x == "2" && v.y == "2" && v.z == "2"));
    assert!(matches!(&ops[3], TransformOp::Scale(v) if v.x == "3" && v.y == "1"));
    assert!(matches!(&ops[4], TransformOp::Matrix(m) if m.len() == 16));
    assert_eq!(w.len(), 2, "{:?}", w);
    let none = root("<rotate/>");
    assert!(parse_transform_op(&none, &length, &mut w).is_none());
    assert_eq!(w[2], "rotate with zero axis; ignored");
    assert!(parse_transform_op(&root(r#"<rotate z="2"/>"#), &length, &mut w).is_some());
    assert!(parse_transform_op(&root("<lookat/>"), &length, &mut w).is_none());
    assert_eq!(w.len(), 3, "{:?}", w);
}

#[test]
fn poses_need_a_lookat() {
    let t = root(r#"<transform><lookat origin="1,2,3" target="0,0,0" up="0,0,1"/></transform>"#);
    let p = parse_lookat(&t.children[0]).unwrap();
    assert_eq!((p.origin.y.as_str(), p.up.z.as_str()), ("2", "1"));
    let t = root(r#"<transform><lookat origin="1,2" target="0,0,0"/></transform>"#);
    assert!(parse_lookat(&t.children[0]).is_none());
    assert_eq!(fallback_pose().up.y, "1");
}

#[test]
fn paths_are_relative_to_the_scene() {
    assert_eq!(resolve_path("dir", "a.obj"), "dir/a.obj");
    assert_eq!(resolve_path("dir/", "a.obj"), "dir/a.obj");
    assert_eq!(resolve_path("dir", "/abs/a.obj"), "/abs/a.obj");
    assert_eq!(resolve_path("", "a.obj"), "a.obj");
}

#[test]
fn a_forced_resolution_wins() {
    let xml = r#"<scene><film type="hdrfilm"><integer name="width" value="800"/><integer name="height" value="600"/></film></scene>"#;
    let cfg = RenderConfig::default();
    let o = load_scene_from_str(xml, &cfg, (Some(64), None)).ok().unwrap();
    assert_eq!((o.settings.width, o.settings.height), (Some(64), Some(600)));
    let mut c = RenderConfig::default();
    SceneSettings::default().apply(&mut c);
    assert_eq!((c.width, c.height, c.spp), (cfg.width, cfg.height, cfg.spp));
}

#[test]
fn steps_follow_the_document() {
    let xml = r#"<scene><shape type="sphere"/><sensor type="perspective"/><emitter type="point"/><emitter type="constant"/><medium/><medium/><what/></scene>"#;
    let o = load_scene_from_str(xml, &RenderConfig::default(), (None, None)).ok().unwrap();
    let s = &o.steps;
    assert!(matches!(s[0], Step::Shape(0)));
    assert!(matches!(s[1], Step::Sensor(1)));
    assert!(matches!(s[2], Step::Light(2)));
    assert!(matches!(s[3], Step::Environment(3)));
    assert!(matches!(s[4], Step::Medium(4)));
    assert!(matches!(&s[5], Step::Warning(w) if w.contains("more than one")));
}

#[test]
fn images_that_were_not_read_are_missing() {
    let v = vec![
        Image {
            path: "a".to_string(),
            key: "/a".to_string(),
            error: None,
            environment_error: Some("no sky".to_string()),
        },
        Image {
            path: "b".to_string(),
            key: "/b".to_string(),
            error: Some("no".to_string()),
            environment_error: None,
        },
    ];
    assert_eq!(error_of(&v, "a"), None);
    assert_eq!(error_of(&v, "b").as_deref(), Some("no"));
    assert!(error_of(&v, "c").is_some());
    assert_eq!(environment_error_of(&v, "a").as_deref(), Some("no sky"));
    assert_eq!(environment_error_of(&v, "b"), None);
    assert!(environment_error_of(&v, "c").is_some());
    assert_eq!(key_of(&v, "a"), "/a");
    assert_eq!(key_of(&v, "c"), "c");
    assert!(Registry::new().textures.is_empty());
}

#[test]
fn tables_share_files_that_are_the_same() {
    let mut t = SceneTables::new();
    assert_eq!(t.push_material(fallback_material(), None), 0);
    assert_eq!(t.push_mesh(MeshEntry::Cube(0)), 0);
    t.remember_obj(ObjEntry { key: "/a".to_string(), end: None, flat: false, mesh: 0 });
    assert_eq!(t.find_obj("/a", None, false), Some(0));
    assert_eq!(t.find_obj("/a", None, true), None);
    assert_eq!(t.find_obj("/a", Some("/b"), false), None);
    assert_eq!(t.find_obj("/b", None, false), None);
    t.drop_empty_maps();
    assert!(t.mat_maps.is_empty());
    assert!(matches!(&t.mats[0], MaterialPlan::Lambert { albedo, texture: None } if albedo.v.x == "0.5"));
}

#[test]
fn each_mask_has_one_place() {
    let (masks, slots) = assign_masks(&vec![None, Some(4), Some(2), Some(4)]);
    assert_eq!(masks, vec![4, 2]);
    assert_eq!(slots, vec![0, 1, 2, 1]);
    let tri = triangle_slots(&vec![3, 0], &slots, &vec![10, 11, 12, 13]);
    assert_eq!(tri, vec![(1, 13), (0, 10)]);
}

#[test]
fn directories_are_those_of_the_system() {
    let paths = [
        "", ".", "..", "/", "//", "/.", "/..", "./", "../", "a", "a/", "a/.", "a/..", "/a", "/a/", "//a",
        "a/b", "a//b", "a/./b", "a/b/", "a/b/.", "a/b//.//", "./a", "././a", "./a/b", "../a", "/a/b.xml",
        ".a", ".a/b", "a/.b", "dir/scene.xml", "a/../b", "a\\b/c",
    ];
    for p in paths {
        let want = std::path::Path::new(p).parent().map(|d| d.to_string_lossy().into_owned());
        assert_eq!(directory_of(p), want.unwrap_or_default(), "{p}");
    }
}

#[test]
fn libraries_are_found_beside_the_mesh() {
    let libs = vec!["a.mtl".to_string(), "sub\\b.mtl".to_string(), "/abs/c.mtl".to_string()];
    let found = library_paths("dir/mesh.obj", &libs);
    let found: Vec<(&str, &str)> = found.iter().map(|f| (f.0.as_str(), f.1.as_str())).collect();
    assert_eq!(
        found,
        vec![("dir/a.mtl", "dir"), ("dir/sub/b.mtl", "dir/sub"), ("/abs/c.mtl", "/abs")]
    );
    assert_eq!(library_paths("mesh.obj", &libs)[0], ("a.mtl".to_string(), String::new()));
    assert!(library_paths("mesh.obj", &vec![]).is_empty());
}
