use tinypt::png::checksum::{adler32, crc32};
use tinypt::png::deflate::deflate_fixed;
use tinypt::png::encode::{encode_rgb8, write_chunk};
use tinypt::png::filter::{filter_rows, paeth};
use tinypt::rng::splitmix64;

const LEN_BASE: [u16; 29] = [
    3, 4, 5, 6, 7, 8, 9, 10, 11, 13, 15, 17, 19, 23, 27, 31, 35, 43, 51, 59, 67, 83, 99, 115, 131,
    163, 195, 227, 258,
];
const LEN_EXTRA: [u8; 29] =
    [0, 0, 0, 0, 0, 0, 0, 0, 1, 1, 1, 1, 2, 2, 2, 2, 3, 3, 3, 3, 4, 4, 4, 4, 5, 5, 5, 5, 0];
const DIST_BASE: [u16; 30] = [
    1, 2, 3, 4, 5, 7, 9, 13, 17, 25, 33, 49, 65, 97, 129, 193, 257, 385, 513, 769, 1025, 1537, 2049,
    3073, 4097, 6145, 8193, 12289, 16385, 24577,
];
const DIST_EXTRA: [u8; 30] = [
    0, 0, 0, 0, 1, 1, 2, 2, 3, 3, 4, 4, 5, 5, 6, 6, 7, 7, 8, 8, 9, 9, 10, 10, 11, 11, 12, 12, 13, 13,
];

fn inflate(data: &[u8]) -> Vec<u8> {
    let mut pos = 0usize;
    let bit = |pos: &mut usize| -> u32 {
        let b = (data[*pos / 8] >> (*pos % 8)) & 1;
        *pos += 1;
        b as u32
    };
    let bits = |pos: &mut usize, n: u32| -> u32 { (0..n).fold(0, |acc, k| acc | bit(pos) << k) };
    let mut out: Vec<u8> = Vec::new();
    loop {
        let last = bit(&mut pos);
        let btype = bits(&mut pos, 2);
        assert_eq!(btype, 1, "fixed codes only");
        loop {
            let mut code = 0u32;
            let mut len = 0;
            let sym = loop {
                code = (code << 1) | bit(&mut pos);
                len += 1;
                match len {
                    7 if code <= 0x17 => break 256 + code,
                    8 if (0x30..=0xBF).contains(&code) => break code - 0x30,
                    8 if (0xC0..=0xC7).contains(&code) => break 280 + (code - 0xC0),
                    9 if code >= 0x190 => break 144 + (code - 0x190),
                    _ => {}
                }
                assert!(len < 9, "bad code");
            };
            if sym < 256 {
                out.push(sym as u8);
            } else if sym == 256 {
                break;
            } else {
                let li = (sym - 257) as usize;
                let l = LEN_BASE[li] as usize + bits(&mut pos, LEN_EXTRA[li] as u32) as usize;
                let mut dcode = 0u32;
                for _ in 0..5 {
                    dcode = (dcode << 1) | bit(&mut pos);
                }
                let di = dcode as usize;
                let d = DIST_BASE[di] as usize + bits(&mut pos, DIST_EXTRA[di] as u32) as usize;
                assert!(d <= out.len());
                for _ in 0..l {
                    out.push(out[out.len() - d]);
                }
            }
        }
        if last == 1 {
            return out;
        }
    }
}

fn be32(b: &[u8]) -> u32 {
    u32::from_be_bytes([b[0], b[1], b[2], b[3]])
}

fn decode(png: &[u8]) -> (usize, usize, Vec<u8>) {
    assert_eq!(&png[..8], b"\x89PNG\r\n\x1a\n");
    let mut pos = 8;
    let (mut w, mut h) = (0, 0);
    let mut idat = Vec::new();
    let mut seen_end = false;
    while pos < png.len() {
        let len = be32(&png[pos..]) as usize;
        let tag = &png[pos + 4..pos + 8];
        let data = &png[pos + 8..pos + 8 + len];
        let crc = be32(&png[pos + 8 + len..]);
        assert_eq!(crc, crc32(&[tag, data]), "CRC mismatch in {:?}", tag);
        match tag {
            b"IHDR" => {
                w = be32(data) as usize;
                h = be32(&data[4..]) as usize;
                assert_eq!(&data[8..], &[8, 2, 0, 0, 0]);
            }
            b"IDAT" => idat.extend_from_slice(data),
            b"IEND" => seen_end = true,
            _ => panic!("unexpected chunk"),
        }
        pos += 12 + len;
    }
    assert!(seen_end && pos == png.len());
    assert_eq!(
        (idat[0] & 0x0F, (idat[0] as u32 * 256 + idat[1] as u32) % 31),
        (8, 0),
        "zlib header"
    );
    let raw = inflate(&idat[2..idat.len() - 4]);
    assert_eq!(be32(&idat[idat.len() - 4..]), adler32(&raw), "Adler-32");
    let stride = w * 3;
    assert_eq!(raw.len(), h * (stride + 1));
    let mut rgb = vec![0u8; h * stride];
    for y in 0..h {
        let f = raw[y * (stride + 1)];
        for i in 0..stride {
            let x = raw[y * (stride + 1) + 1 + i];
            let left = if i >= 3 { rgb[y * stride + i - 3] } else { 0 };
            let up = if y > 0 { rgb[(y - 1) * stride + i] } else { 0 };
            let ul = if y > 0 && i >= 3 { rgb[(y - 1) * stride + i - 3] } else { 0 };
            rgb[y * stride + i] = x.wrapping_add(match f {
                0 => 0,
                1 => left,
                2 => up,
                4 => paeth(left, up, ul),
                _ => panic!("filter {f}"),
            });
        }
    }
    (w, h, rgb)
}

#[test]
fn crc_and_adler_known_values() {
    assert_eq!(crc32(&[b"123456789"]), 0xCBF4_3926);
    assert_eq!(crc32(&[b"IEND"]), 0xAE42_6082);
    assert_eq!(crc32(&[b"1234", b"56789"]), 0xCBF4_3926, "the same in two parts");
    assert_eq!(adler32(b"Wikipedia"), 0x11E6_0398);
    assert_eq!(adler32(b""), 1);
    assert_eq!(adler32(&vec![0xFFu8; 100_000]), {
        let (mut a, mut b) = (1u64, 0u64);
        for _ in 0..100_000 {
            a = (a + 255) % 65521;
            b = (b + a) % 65521;
        }
        ((b << 16) | a) as u32
    });
}

fn gradient_noise(w: usize, h: usize) -> Vec<u8> {
    let mut s = 12345u64;
    let mut v = Vec::with_capacity(w * h * 3);
    for y in 0..h {
        for x in 0..w {
            s = splitmix64(s);
            let n = (s >> 60) as usize;
            v.extend_from_slice(&[
                ((x * 255 / w.max(1)) + n) as u8,
                (y * 255 / h.max(1)) as u8,
                if (x / 8 + y / 8) % 2 == 0 { 30 } else { 200 },
            ]);
        }
    }
    v
}

#[test]
fn roundtrip_is_lossless_for_edge_sizes() {
    for (w, h) in [(1, 1), (1, 7), (9, 1), (2, 2), (17, 13), (640, 3), (300, 200)] {
        let rgb = gradient_noise(w, h);
        let png = encode_rgb8(w, h, &rgb);
        assert_eq!(decode(&png), (w, h, rgb), "{w}x{h}");
    }
    for v in [0u8, 255, 77] {
        let rgb = vec![v; 500 * 400 * 3];
        let png = encode_rgb8(500, 400, &rgb);
        assert_eq!(decode(&png), (500, 400, rgb));
        assert!(png.len() < 5000, "a uniform picture is small: {}", png.len());
    }
    let rgb: Vec<u8> = (0..256 * 3).map(|i| (i * 7 + i / 3) as u8).collect();
    assert_eq!(decode(&encode_rgb8(256, 1, &rgb)).2, rgb);
}

#[test]
fn smooth_image_is_smaller_than_ppm() {
    let (w, h) = (512, 288);
    let rgb: Vec<u8> = (0..w * h)
        .flat_map(|i| {
            let (x, y) = (i % w, i / w);
            [(x / 3) as u8, (y / 2) as u8, 128]
        })
        .collect();
    let png = encode_rgb8(w, h, &rgb);
    assert!(png.len() * 4 < rgb.len(), "{} vs {}", png.len(), rgb.len());
    assert_eq!(decode(&png).2, rgb);
}

#[test]
fn deflated_bytes_inflate_to_themselves() {
    for data in [&b""[..], b"a", b"abcabcabcabc", b"no repeats here?", &[0u8; 1000]] {
        assert_eq!(inflate(&deflate_fixed(data)), data);
    }
    assert_eq!(deflate_fixed(b""), [3, 0]);
}

#[test]
fn an_empty_chunk_has_the_known_checksum() {
    let mut out = Vec::new();
    write_chunk(&mut out, b"IEND", &[]);
    assert_eq!(out, [0, 0, 0, 0, b'I', b'E', b'N', b'D', 0xAE, 0x42, 0x60, 0x82]);
}

#[test]
fn the_best_filter_is_chosen_for_each_row() {
    // The first row rises from pixel to pixel, the second is the same as the first.
    let rgb = [10, 10, 10, 20, 20, 20, 30, 30, 30, 10, 10, 10, 20, 20, 20, 30, 30, 30];
    let rows = filter_rows(3, 2, &rgb);
    assert_eq!(&rows[..10], &[1, 10, 10, 10, 10, 10, 10, 10, 10, 10]);
    assert_eq!(&rows[10..], &[2, 0, 0, 0, 0, 0, 0, 0, 0, 0]);
}

#[test]
fn a_noisy_picture_is_an_eighth_larger_at_most() {
    let mut s = 99u64;
    let (w, h) = (61, 40);
    let rgb: Vec<u8> = (0..w * h * 3)
        .map(|_| {
            s = splitmix64(s);
            (s >> 33) as u8 | 144
        })
        .collect();
    let png = encode_rgb8(w, h, &rgb);
    assert!(8 * png.len() <= 9 * h * (3 * w + 1) + 521, "{}", png.len());
    let loud: Vec<u8> = rgb.iter().map(|b| b.wrapping_mul(3) | 144).collect();
    assert!(8 * deflate_fixed(&loud).len() <= 9 * loud.len() + 17);
    assert_eq!(deflate_fixed(&[200]).len(), 3);
}

#[test]
fn an_image_without_columns_has_rows_of_filter_bytes_only() {
    assert_eq!(filter_rows(0, 3, &[]).len(), 3);
    assert!(filter_rows(0, 0, &[]).is_empty());
    assert!(filter_rows(2, 0, &[]).is_empty());
}
