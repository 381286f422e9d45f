use tinypt::output::{write_ppm_p6, OutputFormat};

#[test]
fn from_path_picks_format() {
    assert_eq!(OutputFormat::from_path("out.exr"), OutputFormat::Exr);
    assert_eq!(OutputFormat::from_path("OUT.EXR"), OutputFormat::Exr);
    assert_eq!(OutputFormat::from_path("out.hdr"), OutputFormat::Hdr);
    assert_eq!(OutputFormat::from_path("out.HDR"), OutputFormat::Hdr);
    assert_eq!(OutputFormat::from_path("out.ppm"), OutputFormat::Ppm);
    assert_eq!(OutputFormat::from_path("out.txt"), OutputFormat::Ppm);
    assert_eq!(OutputFormat::from_path("out"), OutputFormat::Ppm);
}

fn srgb_to_linear(c: f64) -> f64 {
    if c <= 0.04045 { c / 12.92 } else { ((c + 0.055) / 1.055).powf(2.4) }
}

fn linear_to_srgb(c: f64) -> f64 {
    if c <= 0.0031308 { c * 12.92 } else { 1.055 * c.powf(1.0 / 2.4) - 0.055 }
}

fn to_u8(x: f64) -> u8 {
    (linear_to_srgb(x.max(0.0).min(1.0)) * 255.0 + 0.5) as u8
}

fn aces(x: f64) -> f64 {
    let x = x.max(0.0);
    ((x * (2.51 * x + 0.03)) / (x * (2.43 * x + 0.59) + 0.14)).max(0.0).min(1.0)
}

fn write_ppm_p3(w: usize, h: usize, rgb: &[u8]) -> Vec<u8> {
    let mut out = format!("P3\n{} {}\n255\n", w, h);
    for row in rgb.chunks(w * 3) {
        for px in row.chunks(3) {
            out.push_str(&format!("{} {} {} ", px[0], px[1], px[2]));
        }
        out.push('\n');
    }
    out.into_bytes()
}

fn read_ppm(data: &[u8]) -> (usize, usize, Vec<u8>) {
    let mut pos = 0;
    let mut token = || -> String {
        loop {
            while data[pos].is_ascii_whitespace() {
                pos += 1;
            }
            if data[pos] != b'#' {
                break;
            }
            while data[pos] != b'\n' {
                pos += 1;
            }
        }
        let start = pos;
        while pos < data.len() && !data[pos].is_ascii_whitespace() {
            pos += 1;
        }
        String::from_utf8(data[start..pos].to_vec()).unwrap()
    };
    let magic = token();
    let w: usize = token().parse().unwrap();
    let h: usize = token().parse().unwrap();
    assert_eq!(token(), "255");
    let rgb = match magic.as_str() {
        "P6" => {
            let body = &data[pos + 1..];
            assert_eq!(body.len(), w * h * 3, "P6 body length");
            body.to_vec()
        }
        "P3" => {
            let v: Vec<u8> = std::str::from_utf8(&data[pos..])
                .unwrap()
                .split_ascii_whitespace()
                .map(|t| t.parse().unwrap())
                .collect();
            assert_eq!(v.len(), w * h * 3, "P3 value count");
            v
        }
        m => panic!("unknown PPM magic {}", m),
    };
    (w, h, rgb)
}

#[test]
fn ppm_p6_roundtrip_matches_p3_values() {
    let (w, h) = (7usize, 3usize);
    let pixels: Vec<[f64; 3]> = (0..w * h)
        .map(|i| {
            let f = i as f64 / (w * h) as f64;
            [f * 1.5, (1.0 - f) * 0.3, if i % 5 == 0 { 20.0 } else { f * f }]
        })
        .collect();
    for (exposure, filmic) in [(0.0f64, false), (1.5, true)] {
        let scale = 2.0_f64.powf(exposure);
        let bytes: Vec<u8> = pixels
            .iter()
            .flat_map(|p| {
                p.map(|c| {
                    let c = c * scale;
                    to_u8((if filmic { aces(c) } else { c }).max(0.0).min(1.0))
                })
            })
            .collect();
        let mut file = Vec::new();
        write_ppm_p6(&mut file, w, h, &bytes);
        let header = format!("P6\n{} {}\n255\n", w, h);
        assert!(file.starts_with(header.as_bytes()), "P6 header");
        assert_eq!(file.len(), header.len() + 3 * w * h, "P6 file size");
        let (w6, h6, rgb6) = read_ppm(&file);
        let (w3, h3, rgb3) = read_ppm(&write_ppm_p3(w, h, &bytes));
        assert_eq!((w6, h6), (w, h));
        assert_eq!((w3, h3), (w, h));
        assert_eq!(rgb6, rgb3, "P6 and P3 decode to different pixel values");
        assert_eq!(rgb6, bytes);
        assert!(rgb6.contains(&255) && rgb6.contains(&0) || filmic, "test values should saturate");
    }
    assert!((linear_to_srgb(srgb_to_linear(0.6)) - 0.6).abs() < 1e-9);
}

#[test]
fn read_ppm_parses_both_encodings() {
    let p3 = b"P3\n# comment\n2 1\n255\n0 128 255  10 20 30\n";
    let mut p6 = Vec::new();
    write_ppm_p6(&mut p6, 2, 1, &[0, 128, 255, 10, 20, 30]);
    assert_eq!(p6, [b"P6\n2 1\n255\n".as_slice(), &[0, 128, 255, 10, 20, 30]].concat());
    assert_eq!(read_ppm(p3), (2, 1, vec![0, 128, 255, 10, 20, 30]));
    assert_eq!(read_ppm(&p6), (2, 1, vec![0, 128, 255, 10, 20, 30]));
    let mut p6_ws = Vec::new();
    write_ppm_p6(&mut p6_ws, 2, 1, &[10, 32, 9, 13, 35, 10]);
    assert_eq!(read_ppm(&p6_ws), (2, 1, vec![10, 32, 9, 13, 35, 10]));
}

#[test]
fn a_ppm_is_appended_to_what_is_there() {
    let mut out = vec![1u8, 2];
    write_ppm_p6(&mut out, 10, 0, &[]);
    assert_eq!(out, [&[1u8, 2][..], b"P6\n10 0\n255\n"].concat());
}

#[test]
fn files_of_different_images_differ() {
    let images: [(usize, usize, &[u8]); 6] = [
        (1, 2, &[1, 2, 3, 4, 5, 6]),
        (2, 1, &[1, 2, 3, 4, 5, 6]),
        (2, 1, &[1, 2, 3, 4, 5, 7]),
        (12, 0, &[]),
        (1, 20, &[]),
        (1, 2, &[]),
    ];
    let files: Vec<Vec<u8>> = images
        .iter()
        .map(|(w, h, rgb)| {
            let mut out = Vec::new();
            write_ppm_p6(&mut out, *w, *h, rgb);
            out
        })
        .collect();
    for i in 0..files.len() {
        for j in 0..i {
            assert_ne!(files[i], files[j]);
        }
    }
}
