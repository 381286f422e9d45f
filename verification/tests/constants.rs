use tinypt::config::{is_large, RenderConfig, Tonemap};
use tinypt::constants::{revision_from_version, MAX_DEPTH, RENDER_REVISION, RR_DEPTH, VERSION};

#[test]
fn known_versions_map_to_the_documented_encoding() {
    assert_eq!(revision_from_version("0.2.0"), 2000);
    assert_eq!(revision_from_version("0.2.1"), 2001);
    assert_eq!(revision_from_version("1.0.0"), 1_000_000);
    assert_eq!(revision_from_version("0.10.3"), 10_003);
    assert_eq!(revision_from_version("12.345.678"), 12_345_678);
    assert_eq!(revision_from_version("0.0.0"), 0);
}

#[test]
fn render_revision_matches_the_crate_version() {
    assert_eq!(RENDER_REVISION, revision_from_version(VERSION));
}

#[test]
fn tonemap_names_ignore_case() {
    assert_eq!(Tonemap::from_str("none"), Some(Tonemap::Linear));
    assert_eq!(Tonemap::from_str("ACES"), Some(Tonemap::Aces));
    assert_eq!(Tonemap::from_str("filmic"), None);
}

#[test]
fn defaults_use_the_documented_depths() {
    let c = RenderConfig::default();
    assert_eq!(c.max_depth, MAX_DEPTH);
    assert_eq!(c.rr_depth, RR_DEPTH);
    assert_eq!((MAX_DEPTH, RR_DEPTH), (9, 4));
}

#[test]
fn large_pictures_are_recognised() {
    assert!(!is_large(8192, 8192));
    assert!(is_large(8192, 8193));
    assert!(is_large(usize::MAX, usize::MAX));
    assert!(!is_large(0, usize::MAX));
}
