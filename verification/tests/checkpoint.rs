use tinypt::checkpoint::{
    ckpt_path, decode_checkpoint, encode_checkpoint, hash_of, scene_hash, scene_source, tmp_path,
    xml_source, Checkpoint, ColorBits, Fnv64, SceneFile, SceneSource, SourceError, UnexpectedEof,
};
use tinypt::config::{RenderConfig, Tonemap};
use tinypt::mitsuba::xml::SceneError;

fn base() -> RenderConfig {
    RenderConfig::default()
}

fn file(path: &str, data: &[u8]) -> SceneFile {
    SceneFile { path: path.to_string(), data: Some(data.to_vec()) }
}

/// The hash of what there has to be a hash of.
fn hash(c: &RenderConfig, disk: &Vec<SceneFile>) -> u64 {
    match scene_hash(c, disk) {
        Ok(h) => h,
        Err(_) => panic!("no hash"),
    }
}

fn sample_buffers(n: usize) -> (Vec<ColorBits>, Vec<u64>) {
    let acc = (0..n)
        .map(|i| ColorBits {
            r: (i as f64).to_bits(),
            g: 0.5f64.to_bits(),
            b: (-1.0f64).to_bits(),
        })
        .collect();
    let acc_w = (0..n).map(|i| (i as f64 + 1.0).to_bits()).collect();
    (acc, acc_w)
}

fn good() -> Vec<u8> {
    let (acc, acc_w) = sample_buffers(6);
    encode_checkpoint(42, 3, 2, 5, &acc, &acc_w)
}

fn load(bytes: &[u8]) -> Result<Option<Checkpoint>, UnexpectedEof> {
    decode_checkpoint(bytes, 42, 3, 2)
}

#[test]
fn checkpoint_roundtrip() {
    let (acc, acc_w) = sample_buffers(6);
    let c = match load(&good()) {
        Ok(Some(c)) => c,
        _ => panic!("not read back"),
    };
    assert_eq!(c.next_id, 5);
    assert_eq!(c.acc_w, acc_w);
    assert_eq!(c.acc, acc);
}

#[test]
fn corrupted_checkpoint_is_rejected() {
    let good = good();
    let mut flipped = good.clone();
    flipped[40] ^= 0x01;
    assert!(matches!(load(&flipped), Ok(None)), "bit flip");
    assert!(!matches!(load(&good[..good.len() - 8]), Ok(Some(_))), "truncated");
    let mut extended = good.clone();
    extended.push(0);
    assert!(matches!(load(&extended), Ok(None)), "trailing bytes");
    assert!(matches!(load(&good), Ok(Some(_))), "intact");
    for i in 0..good.len() {
        let mut bad = good.clone();
        bad[i] ^= 0x10;
        assert!(!matches!(load(&bad), Ok(Some(_))), "byte {}", i);
    }
}

#[test]
fn old_format_version_is_rejected() {
    let mut bytes = good();
    bytes[8..12].copy_from_slice(&1u32.to_le_bytes());
    bytes.truncate(bytes.len() - 8);
    assert!(matches!(load(&bytes), Ok(None)));
}

#[test]
fn a_checkpoint_of_another_render_is_passed_over() {
    let b = good();
    assert!(matches!(decode_checkpoint(&b, 43, 3, 2), Ok(None)));
    assert!(matches!(decode_checkpoint(&b, 42, 2, 3), Ok(None)));
    assert!(matches!(decode_checkpoint(b"not a checkpoint", 42, 3, 2), Ok(None)));
    assert!(matches!(decode_checkpoint(&b[..7], 42, 3, 2), Err(UnexpectedEof)));
    assert!(matches!(decode_checkpoint(&b[..20], 42, 3, 2), Err(UnexpectedEof)));
}

#[test]
fn checkpoints_are_named_after_the_scene() {
    assert_eq!(ckpt_path(0xAB), "checkpoint_00000000000000ab.bin");
    assert_eq!(tmp_path(&ckpt_path(1)), "checkpoint_0000000000000001.bin.tmp");
    assert_ne!(ckpt_path(1), ckpt_path(16));
}

#[test]
fn fnv_known_values() {
    let mut h = Fnv64::new();
    assert_eq!(h.0, 0xcbf2_9ce4_8422_2325);
    h.bytes(b"a");
    assert_eq!(h.0, 0xaf63_dc4c_8601_ec8c);
    let mut h = Fnv64::new();
    h.bytes(b"foobar");
    assert_eq!(h.0, 0x8594_4171_f739_67e8);
}

#[test]
fn scene_hash_is_deterministic() {
    assert_eq!(hash(&base(), &vec![]), hash(&base(), &vec![]));
}

#[test]
fn scene_hash_changes_with_render_affecting_settings() {
    let h0 = hash(&base(), &vec![]);
    let mutators: Vec<(&str, fn(&mut RenderConfig))> = vec![
        ("width", |c| c.width += 1),
        ("height", |c| c.height += 1),
        ("spp", |c| c.spp += 1),
        ("max_depth", |c| c.max_depth += 1),
        ("rr_depth", |c| c.rr_depth += 1),
        ("seed", |c| c.seed += 1),
        ("adaptive_enabled", |c| c.adaptive_enabled = !c.adaptive_enabled),
        ("adaptive_min_spp", |c| c.adaptive_min_spp += 1),
        ("adaptive_threshold", |c| {
            c.adaptive_threshold = (f64::from_bits(c.adaptive_threshold) * 2.0).to_bits()
        }),
        ("tile", |c| c.tile += 1),
        ("morton", |c| c.morton_enabled = !c.morton_enabled),
        ("env", |c| c.env_map_path = Some("nonexistent.hdr".to_string())),
    ];
    for (name, m) in mutators {
        let mut c = base();
        m(&mut c);
        assert_ne!(hash(&c, &vec![]), h0, "{} should affect hash", name);
    }
}

#[test]
fn scene_hash_ignores_post_process_settings() {
    let h0 = hash(&base(), &vec![]);
    let mut c = base();
    c.output_path = "other.exr".to_string();
    c.denoise_enabled = !c.denoise_enabled;
    c.exposure = 1.5f64.to_bits();
    c.tonemap = Tonemap::Linear;
    c.checkpoint_enabled = true;
    c.checkpoint_every_tasks = 7;
    assert_eq!(hash(&c, &vec![]), h0);
}

#[test]
fn scene_hash_covers_xml_and_referenced_files() {
    let body = |r: &str| {
        format!(
            r#"<scene version="3.0.0"><shape type="obj"><string name="filename" value="hash_mesh.obj"/></shape><shape type="sphere"><float name="radius" value="{}"/></shape></scene>"#,
            r
        )
    };
    let disk = |xml: &str, obj: &str| {
        vec![
            file("dir/hash_scene.xml", xml.as_bytes()),
            file("dir/hash_mesh.obj", obj.as_bytes()),
        ]
    };
    let mut c = base();
    c.scene_path = Some("dir/hash_scene.xml".to_string());
    let a = "v 0 0 0\nv 1 0 0\nv 0 1 0\nf 1 2 3\n";
    let b = "v 0 0 0\nv 2 0 0\nv 0 1 0\nf 1 2 3\n";
    let h_xml = hash(&c, &disk(&body("1"), a));
    assert_ne!(h_xml, hash(&base(), &vec![]), "xml vs builtin");
    let h_obj = hash(&c, &disk(&body("1"), b));
    assert_ne!(h_obj, h_xml, "referenced obj content");
    assert_ne!(hash(&c, &disk(&body("2"), b)), h_obj, "xml content");
}

const TWO_FILES: &str = r#"<scene><shape type="obj"><string name="filename" value="a.obj"/>
    <string name="filename_end" value="/abs/b.obj"/></shape></scene>"#;

#[test]
fn a_source_lists_its_files_with_their_contents() {
    let disk = vec![
        file("other.obj", b"other"),
        file("/abs/b.obj", b"end"),
        file("/abs/b.obj", b"later"),
        SceneFile { path: "dir/a.obj".to_string(), data: None },
    ];
    match xml_source(TWO_FILES.to_string(), "dir", &disk) {
        Ok(SceneSource::Xml { xml, files }) => {
            assert_eq!(xml, TWO_FILES);
            assert_eq!(files.len(), 2);
            assert_eq!((files[0].path.as_str(), &files[0].data), ("dir/a.obj", &None));
            assert_eq!((files[1].path.as_str(), &files[1].data), ("/abs/b.obj", &Some(b"end".to_vec())));
        }
        _ => panic!("no source"),
    }
}

#[test]
fn the_hash_is_that_of_the_source() {
    let mut c = base();
    c.scene_path = Some("dir/s.xml".to_string());
    let mut disk = vec![file("dir/s.xml", TWO_FILES.as_bytes()), file("dir/a.obj", b"mesh")];
    let h = hash(&c, &disk);
    match scene_source(&c, &disk) {
        Ok(s) => assert_eq!(hash_of(&c, &s), h),
        Err(_) => panic!("no source"),
    }
    disk.push(file("unrelated", b"x"));
    assert_eq!(hash(&c, &disk), h);
    disk.push(file("/abs/b.obj", b"end"));
    assert_ne!(hash(&c, &disk), h);
}

#[test]
fn without_a_scene_file_there_is_no_hash() {
    let mut c = base();
    c.scene_path = Some("s.xml".to_string());
    let with = |data: &[u8]| scene_hash(&c, &vec![file("s.xml", data)]);
    assert!(matches!(scene_hash(&c, &vec![]), Err(SourceError::Unreadable)));
    assert!(matches!(with(&[0xff, 0xfe]), Err(SourceError::NotText)));
    assert!(matches!(with(b""), Err(SourceError::Malformed(SceneError::Empty))));
    assert!(matches!(with(b"<scene>&"), Err(SourceError::Malformed(_))));
    assert!(with(TWO_FILES.as_bytes()).is_ok());
}

#[test]
fn the_running_hash_tells_single_bytes_and_starts_apart() {
    let after = |start: u64, s: &[u8]| {
        let mut h = Fnv64(start);
        h.bytes(s);
        h.0
    };
    for start in [0, 7, u64::MAX] {
        assert_ne!(after(start, b"abc"), after(start, b"abd"));
        assert_ne!(after(start, b"abc"), after(start, b"xbc"));
    }
    assert_ne!(after(1, b"abc"), after(2, b"abc"));
}
