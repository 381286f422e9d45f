use tinypt::mitsuba::library::map_paths;
use tinypt::mtl::{parse_map_path, parse_mtl, MtlMaterial, Rgb};

fn num(s: &str) -> f64 {
    s.parse().unwrap()
}

fn rgb(c: &Rgb) -> [f64; 3] {
    [num(&c.r), num(&c.g), num(&c.b)]
}

/// How opaque a material is.
fn opacity(m: &MtlMaterial) -> f64 {
    if m.d_is_transparency {
        1.0 - num(&m.d)
    } else {
        num(&m.d)
    }
}

#[test]
fn parses_tab_indented_sponza_style_block() {
    let t = "# c\n\nnewmtl leaf\n\tNs 10.0000\n\tNi 1.5\n\td 1.0000\n\tTr 0.0000\n\tTf 1 1 1 \n\tillum 2\n\
             \tKa 1 1 1\n\tKd 0.5 0.25 0.125\n\tKs 0 0 0\n\tKe 0.0 0.0 0.0\n\tmap_Kd textures\\sponza_thorn_diff.png\n\
             \tmap_d textures\\a_mask.png\n\tmap_bump textures\\b.png\n\tmap_Ka textures\\sponza_thorn_diff.png\n";
    let f = parse_mtl(t);
    assert_eq!(f.materials.len(), 1);
    let m = &f.materials[0];
    assert_eq!(m.name, "leaf");
    assert_eq!(rgb(&m.kd), [0.5, 0.25, 0.125]);
    assert_eq!(num(&m.ns), 10.0);
    assert_eq!(opacity(m), 1.0);
    assert_eq!(m.map_kd.as_deref(), Some("textures/sponza_thorn_diff.png"));
    assert_eq!(m.map_d.as_deref(), Some("textures/a_mask.png"));
    assert_eq!(m.map_bump.as_deref(), Some("textures/b.png"));
    assert_eq!(m.map_ka.as_deref(), Some("textures/sponza_thorn_diff.png"));
}

#[test]
fn unknown_keys_comments_and_pre_newmtl_lines_are_ignored() {
    let f = parse_mtl("Kd 1 0 0\nnewmtl A\nfoo bar baz\nKd 0 1 0 # trailing\n# Tr 1\n");
    assert_eq!(f.materials.len(), 1);
    assert_eq!(rgb(&f.materials[0].kd), [0.0, 1.0, 0.0]);
    assert_eq!(opacity(&f.materials[0]), 1.0);
}

#[test]
fn duplicate_newmtl_keeps_first_and_records_the_name() {
    let f = parse_mtl("newmtl A\nKd 1 0 0\nnewmtl B\nKd 0 0 1\nnewmtl A\nKd 0 1 0\nmap_Kd x.png\n");
    assert_eq!(f.materials.len(), 2);
    assert_eq!(rgb(&f.get("A").unwrap().kd), [1.0, 0.0, 0.0]);
    assert!(f.get("A").unwrap().map_kd.is_none());
    assert_eq!(f.dup_names, vec!["A".to_string()]);
}

#[test]
fn empty_input_tr_conversion_and_texture_options() {
    assert!(parse_mtl("").materials.is_empty());
    let f = parse_mtl("newmtl A\nTr 0.25\nmap_Kd -s 2 2 2 dir\\t.png\nKd 0.4\n");
    let m = &f.materials[0];
    assert!((opacity(m) - 0.75).abs() < 1e-12);
    assert_eq!(m.map_kd.as_deref(), Some("dir/t.png"));
    assert_eq!(rgb(&m.kd), [0.4; 3]);
}

#[test]
fn a_material_starts_out_plain() {
    let f = parse_mtl("newmtl A\n");
    let m = &f.materials[0];
    assert_eq!(rgb(&m.kd), [0.8; 3]);
    assert_eq!(rgb(&m.ks), [0.0; 3]);
    assert_eq!(rgb(&m.ke), [0.0; 3]);
    assert_eq!(opacity(m), 1.0);
    assert!(m.map_kd.is_none() && m.map_d.is_none() && m.map_bump.is_none() && m.norm.is_none());
    assert!(f.get("B").is_none());
    assert_eq!(f.find("B"), 1);
}

#[test]
fn the_path_of_a_map_stands_behind_its_options() {
    let path = |s: &str| parse_map_path(&s.chars().collect::<Vec<char>>());
    assert_eq!(path(" -bm 0.5 b.png ").as_deref(), Some("b.png"));
    assert_eq!(path(" a b.png ").as_deref(), Some("a b.png"));
    assert_eq!(path(" dir\\x.png").as_deref(), Some("dir/x.png"));
    assert_eq!(path("   "), None);
}

#[test]
fn names_of_a_library_differ() {
    let f = parse_mtl("newmtl A\nnewmtl A\nnewmtl B\nnewmtl A\n");
    let names: Vec<&str> = f.materials.iter().map(|m| m.name.as_str()).collect();
    assert_eq!(names, vec!["A", "B"]);
}

#[test]
fn a_map_without_a_path_changes_nothing() {
    let f = parse_mtl(
        "newmtl A\nmap_Kd a.png\nmap_Kd\nmap_d d.png\nmap_d \nbump -bm 3 b.png\nmap_bump\nbump # none\n\
         norm n.png\nnorm\nmap_Ka k.png\nmap_Ka\n",
    );
    assert_eq!(f.materials.len(), 1);
    let m = &f.materials[0];
    assert_eq!(m.map_kd.as_deref(), Some("a.png"));
    assert_eq!(m.map_d.as_deref(), Some("d.png"));
    assert_eq!(m.map_bump.as_deref(), Some("b.png"));
    assert_eq!(num(&m.bm), 3.0);
    assert_eq!(m.norm.as_deref(), Some("n.png"));
    assert_eq!(m.map_ka.as_deref(), Some("k.png"));
}

#[test]
fn the_images_of_a_material_are_listed() {
    let f = parse_mtl("newmtl A\nnorm n.png\nmap_Kd sub\\a.png\nbump /abs/b.png\nmap_Ka k.png\nnewmtl B\nKd 1\n");
    assert_eq!(map_paths(&f.materials[0], "dir"), ["dir/sub/a.png", "/abs/b.png", "dir/n.png"]);
    assert!(map_paths(&f.materials[1], "dir").is_empty());
}
