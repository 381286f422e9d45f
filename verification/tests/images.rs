use tinypt::config::{is_large, RenderConfig, Tonemap, LARGE_PIXEL_COUNT};
use tinypt::env::{is_exr, texels_around};
use tinypt::normal_map::HeightMap;
use tinypt::texture::{wrap_coordinate, Wrap};

/// The value of a picture of the whole sphere in the middle of the texels around (u, v).
fn sample(w: usize, h: usize, data: &[f64], u: f64, v: f64) -> f64 {
    let (x, y) = (u * w as f64 - 0.5, v * h as f64 - 0.5);
    let (xf, yf) = (x.floor(), y.floor());
    let (fx, fy) = (x - xf, y - yf);
    let t = texels_around(w, h, xf as i64, yf as i64);
    let c0 = data[t[0]] * (1.0 - fx) + data[t[1]] * fx;
    let c1 = data[t[2]] * (1.0 - fx) + data[t[3]] * fx;
    c0 * (1.0 - fy) + c1 * fy
}

#[test]
fn sample_returns_texel_values_at_texel_centers() {
    let (w, h) = (8usize, 5usize);
    let data: Vec<f64> = (0..w * h).map(|i| i as f64).collect();
    for y in 0..h {
        for x in 0..w {
            let c = sample(w, h, &data, (x as f64 + 0.5) / w as f64, (y as f64 + 0.5) / h as f64);
            assert!((c - data[y * w + x]).abs() < 1e-6);
        }
    }
}

#[test]
fn sample_wraps_in_u_clamps_in_v_and_interpolates_linearly() {
    let (w, h) = (4usize, 3usize);
    let data: Vec<f64> = (0..w * h).map(|i| i as f64).collect();
    let r = |u: f64, v: f64| sample(w, h, &data, u, v);
    let row = 1usize;
    let v = (row as f64 + 0.5) / h as f64;
    let mid = 0.5 * (data[row * w + w - 1] + data[row * w]);
    assert!((r(0.0, v) - mid).abs() < 1e-6);
    assert!((r(1e-9, v) - r(1.0 - 1e-9, v)).abs() < 1e-6);
    let u = (0.5 + 0.25) / w as f64;
    let expect = 0.75 * data[row * w] + 0.25 * data[row * w + 1];
    assert!((r(u, v) - expect).abs() < 1e-6);
    let u0 = 0.5 / w as f64;
    assert!((r(u0, 1e-6) - data[0]).abs() < 1e-6);
    assert!((r(u0, 1.0 - 1e-6) - data[(h - 1) * w]).abs() < 1e-6);
}

#[test]
fn texels_around_the_seam_and_the_poles() {
    assert_eq!(texels_around(4, 3, 3, 0), [3, 0, 7, 4]);
    assert_eq!(texels_around(4, 3, -1, -1), [3, 0, 3, 0]);
    assert_eq!(texels_around(4, 3, 1, 2), [9, 10, 9, 10]);
}

#[test]
fn exr_files_are_told_by_their_ending() {
    assert!(is_exr("sky.exr") && is_exr("dir/SKY.EXR"));
    assert!(!is_exr("sky.hdr") && !is_exr("exr"));
}

#[test]
fn textures_repeat_or_stop_at_their_edges() {
    assert_eq!(wrap_coordinate(Wrap::Repeat, -1, 4), 3);
    assert_eq!(wrap_coordinate(Wrap::Repeat, 9, 4), 1);
    assert_eq!(wrap_coordinate(Wrap::Clamp, -1, 4), 0);
    assert_eq!(wrap_coordinate(Wrap::Clamp, 9, 4), 3);
    assert_eq!(wrap_coordinate(Wrap::Repeat, i64::MIN, 3), 1);
    assert_eq!(Wrap::from_str("repeat"), Some(Wrap::Repeat));
    assert_eq!(Wrap::from_str("clamp"), Some(Wrap::Clamp));
    assert_eq!(Wrap::from_str("mirror"), None);
}

#[test]
fn height_maps_give_their_texels() {
    let data: Vec<u8> = (0..6).collect();
    let m = HeightMap::from_u8(3, 2, data.clone(), Wrap::Repeat);
    assert_eq!(m.size(), (3, 2));
    assert_eq!(m.texel(0, 0), 0);
    assert_eq!(m.texel(-1, 0), 2);
    assert_eq!(m.texel(1, 3), 4);
    let m = HeightMap::from_u8(3, 2, data, Wrap::Clamp);
    assert_eq!(m.texel(-1, 0), 0);
    assert_eq!(m.texel(7, 7), 5);
}

#[test]
fn renders_have_defaults() {
    let c = RenderConfig::default();
    assert_eq!((c.width, c.height, c.spp, c.tile), (1920, 1080, 512, 16));
    assert_eq!(f64::from_bits(c.adaptive_threshold), 0.02);
    assert_eq!(c.output_path, "hyperion_min.ppm");
    assert_eq!(Tonemap::from_str("ACES"), Some(Tonemap::Aces));
    assert_eq!(Tonemap::from_str("none"), Some(Tonemap::Linear));
    assert_eq!(Tonemap::from_str("filmic"), None);
    assert!(!is_large(8192, 8192));
    assert!(is_large(8193, 8192));
    assert_eq!(LARGE_PIXEL_COUNT, 8192 * 8192);
}
