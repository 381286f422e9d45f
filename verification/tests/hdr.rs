use tinypt::hdr::{
    decode_hdr, encode_hdr, parse_resolution, read_scanline, write_scanline, HdrError,
};

fn rgbe(c: [f64; 3]) -> [u8; 4] {
    let v = c[0].max(c[1]).max(c[2]);
    if v < 1e-32 {
        return [0, 0, 0, 0];
    }
    let e = v.log2().floor() as i32 + 1;
    let s = 256.0 / 2f64.powi(e);
    [(c[0] * s) as u8, (c[1] * s) as u8, (c[2] * s) as u8, (e + 128) as u8]
}

fn color(p: &[u8]) -> [f64; 3] {
    if p[3] == 0 {
        return [0.0, 0.0, 0.0];
    }
    let f = 2f64.powi(p[3] as i32 - 136);
    [p[0] as f64 * f, p[1] as f64 * f, p[2] as f64 * f]
}

#[test]
fn hdr_roundtrip_preserves_linear() {
    let pixels = [[0.25, 0.5, 1.0], [2.0, 0.1, 0.0], [0.0, 0.0, 0.0], [8.0, 4.0, 2.0]];
    let bytes: Vec<u8> = pixels.iter().flat_map(|p| rgbe(*p)).collect();
    let file = encode_hdr(2, 2, &bytes);
    let img = match decode_hdr(&file) {
        Ok(i) => i,
        Err(e) => panic!("{:?}", e),
    };
    assert_eq!((img.width, img.height), (2, 2));
    assert_eq!(img.data, bytes);
    for (a, b) in pixels.iter().zip(img.data.chunks(4)) {
        let b = color(b);
        let most = a[0].max(a[1]).max(a[2]);
        for i in 0..3 {
            assert!((a[i] - b[i]).abs() <= most / 128.0 + 1e-6, "{:?} vs {:?}", a, b);
        }
    }
}

#[test]
fn wide_pictures_are_run_length_coded() {
    for w in [7usize, 8, 40, 300] {
        let mut line = Vec::new();
        for i in 0..w {
            let run = (i / 20) as u8;
            line.extend_from_slice(&[run, i as u8, 7, 128]);
        }
        let mut out = Vec::new();
        write_scanline(&mut out, &line, w);
        if w < 8 {
            assert_eq!(out, line);
        } else {
            assert_eq!(&out[..4], &[2, 2, (w / 256) as u8, (w % 256) as u8]);
        }
        let (back, end) = match read_scanline(&out, 0, w) {
            Ok(x) => x,
            Err(e) => panic!("{:?}", e),
        };
        assert_eq!(back, line);
        assert_eq!(end, out.len());
        let file = encode_hdr(w, 3, &line.repeat(3));
        match decode_hdr(&file) {
            Ok(img) => assert_eq!((img.width, img.height, img.data), (w, 3, line.repeat(3))),
            Err(e) => panic!("{:?}", e),
        }
    }
}

#[test]
fn a_file_starts_with_the_known_header() {
    let file = encode_hdr(1, 1, &[1, 2, 3, 4]);
    assert_eq!(file, [&b"#?RADIANCE\nFORMAT=32-bit_rle_rgbe\n\n-Y 1 +X 1\n"[..], &[1, 2, 3, 4]].concat());
}

fn failure(b: &[u8]) -> HdrError {
    match decode_hdr(b) {
        Ok(_) => panic!("was read"),
        Err(e) => e,
    }
}

#[test]
fn damaged_files_are_refused() {
    assert_eq!(failure(b"#?NOT\n\n-Y 1 +X 1\n\0\0\0\0"), HdrError::BadHeader);
    assert_eq!(failure(b"#?RADIANCE\n\xff\n\n-Y 1 +X 1\n"), HdrError::NotText);
    assert_eq!(failure(b"#?RADIANCE\nFORMAT=x"), HdrError::MissingResolution);
    assert_eq!(failure(b"#?RADIANCE\n\n-Y 1 +X\n"), HdrError::BadResolution);
    assert_eq!(failure(b"#?RADIANCE\n\n-Y a +X 1\n"), HdrError::BadHeight);
    assert_eq!(failure(b"#?RADIANCE\n\n-Y 1 +X b\n"), HdrError::BadWidth);
    assert_eq!(failure(b"#?RADIANCE\n\n-Y 1 +X 2\n\x01\x02\x03"), HdrError::UnexpectedEof);
    assert_eq!(failure(b"#?RADIANCE\n\n-Y 1 +X 8\n\x02\x02\x00\x08\x89\x07"), HdrError::BadRun);
    assert_eq!(
        failure(b"#?RADIANCE\n\n-Y 1 +X 8\n\x02\x02\x00\x08\x09123456789"),
        HdrError::BadRun
    );
}

#[test]
fn resolution_lines_have_four_words() {
    match parse_resolution("-Y 600 +X 800") {
        Ok(r) => assert_eq!((r.y_sign, r.height, r.x_sign, r.width), ('-', 600, '+', 800)),
        Err(e) => panic!("{:?}", e),
    }
    assert!(matches!(parse_resolution("600 800"), Err(HdrError::BadResolution)));
}
