use tinypt::noise::{
    cell_corners, grad, permutation_table, Axis, Gradient, NoiseNumbers, Pattern,
};
use tinypt::rng::splitmix64;

type V = [f64; 3];

fn lcg(s: &mut u64) -> f64 {
    *s = splitmix64(*s);
    (*s >> 11) as f64 / (1u64 << 53) as f64
}

fn fade(t: f64) -> f64 {
    t * t * t * (t * (t * 6.0 - 15.0) + 10.0)
}

fn slope(hash: u8, x: f64, y: f64, z: f64) -> f64 {
    let g = grad(hash);
    let along = |a: Axis| match a {
        Axis::X => x,
        Axis::Y => y,
        Axis::Z => z,
    };
    let (u, v) = (along(g.u), along(g.v));
    (if g.u_negative { -u } else { u }) + (if g.v_negative { -v } else { v })
}

fn perlin(table: &Vec<u8>, p: V) -> f64 {
    let f = [p[0].floor(), p[1].floor(), p[2].floor()];
    let (x, y, z) = (p[0] - f[0], p[1] - f[1], p[2] - f[2]);
    let (u, v, w) = (fade(x), fade(y), fade(z));
    let c = cell_corners(table, f[0] as i64, f[1] as i64, f[2] as i64);
    let lerp = |t: f64, a: f64, b: f64| a + t * (b - a);
    lerp(
        w,
        lerp(
            v,
            lerp(u, slope(c[0], x, y, z), slope(c[1], x - 1.0, y, z)),
            lerp(u, slope(c[2], x, y - 1.0, z), slope(c[3], x - 1.0, y - 1.0, z)),
        ),
        lerp(
            v,
            lerp(u, slope(c[4], x, y, z - 1.0), slope(c[5], x - 1.0, y, z - 1.0)),
            lerp(u, slope(c[6], x, y - 1.0, z - 1.0), slope(c[7], x - 1.0, y - 1.0, z - 1.0)),
        ),
    )
    .clamp(-1.0, 1.0)
}

fn fbm(table: &Vec<u8>, p: V, octaves: u32, lacunarity: f64, gain: f64) -> f64 {
    let (mut sum, mut norm, mut amp, mut freq) = (0.0, 0.0, 1.0, 1.0);
    for _ in 0..octaves.max(1) {
        sum += amp * perlin(table, [p[0] * freq, p[1] * freq, p[2] * freq]);
        norm += amp;
        amp *= gain;
        freq *= lacunarity;
    }
    sum / norm
}

#[test]
fn perlin_is_bounded_and_zero_at_lattice_points() {
    let table = permutation_table();
    let mut s = 1;
    for _ in 0..20_000 {
        let p = [
            lcg(&mut s) * 200.0 - 100.0,
            lcg(&mut s) * 200.0 - 100.0,
            lcg(&mut s) * 200.0 - 100.0,
        ];
        assert!(perlin(&table, p).abs() <= 1.0);
    }
    for p in [[0.0, 0.0, 0.0], [3.0, -2.0, 7.0], [-40.0, 5.0, 300.0]] {
        assert_eq!(perlin(&table, p), 0.0);
    }
    let mut seen = [false; 256];
    for i in 0..256 {
        seen[table[i] as usize] = true;
    }
    assert!(seen.iter().all(|&b| b));
}

#[test]
fn deterministic_across_calls_and_processes() {
    let table = permutation_table();
    let p = [0.31, 1.7, -2.4];
    assert_eq!(perlin(&table, p).to_bits(), perlin(&permutation_table(), p).to_bits());
    assert_eq!(table[0..4], table[256..260]);
    assert_eq!(table[0], 28);
    assert_eq!(perlin(&table, p).to_bits(), 0xbfc6a5e938913a30);
}

#[test]
fn fbm_converges_and_is_continuous() {
    let table = permutation_table();
    let p = [0.37, 0.61, 0.13];
    let vals: Vec<f64> = (1..=10).map(|o| fbm(&table, p, o, 2.0, 0.5)).collect();
    assert!(vals.iter().all(|x| x.abs() <= 1.0));
    assert!((vals[9] - vals[8]).abs() < (vals[2] - vals[1]).abs() + 1e-12);
    assert!((vals[9] - vals[8]).abs() < 0.01);
    let mut s = 7;
    for _ in 0..5000 {
        let a = [lcg(&mut s) * 20.0, lcg(&mut s) * 20.0, lcg(&mut s) * 20.0];
        let b = [a[0] + 1e-4, a[1] - 1e-4, a[2] + 1e-4];
        assert!((perlin(&table, a) - perlin(&table, b)).abs() < 2e-3);
    }
}

#[test]
fn bad_numbers_are_made_usable() {
    for (scale, octaves, lac, gain, strength) in [
        (0.0, 0, 2.0, 0.5, 1.0),
        (-3.0, 99, f64::NAN, 5.0, f64::INFINITY),
        (f64::NAN, 10, 0.0, -1.0, 0.0),
        (1e300, 1, 1e9, 0.5, 1e300),
    ] {
        let n = NoiseNumbers {
            scale: f64::to_bits(scale),
            octaves,
            lacunarity: f64::to_bits(lac),
            gain: f64::to_bits(gain),
            strength: f64::to_bits(strength),
        }
        .sanitized();
        let scale = f64::from_bits(n.scale);
        assert!((1..=10).contains(&n.octaves) && scale > 0.0 && scale.is_finite());
        assert!((1.0..=8.0).contains(&f64::from_bits(n.lacunarity)));
        assert!((0.0..=1.0).contains(&f64::from_bits(n.gain)));
        assert!(f64::from_bits(n.strength).is_finite());
    }
    let huge = NoiseNumbers {
        scale: 1e300f64.to_bits(),
        octaves: 3,
        lacunarity: 2.5f64.to_bits(),
        gain: 0.25f64.to_bits(),
        strength: (-4.0f64).to_bits(),
    };
    let n = huge.sanitized();
    assert_eq!(f64::from_bits(n.scale), 1e6);
    assert_eq!((n.octaves, n.lacunarity, n.gain, n.strength), (3, huge.lacunarity, huge.gain, huge.strength));
}

#[test]
fn patterns_go_by_their_names() {
    assert_eq!(Pattern::parse("fbm"), Some(Pattern::Fbm));
    assert_eq!(Pattern::parse("turbulence"), Some(Pattern::Turbulence));
    assert_eq!(Pattern::parse("marble"), Some(Pattern::Marble));
    assert_eq!(Pattern::parse("wood"), Some(Pattern::Wood));
    assert_eq!(Pattern::parse("granite"), Some(Pattern::Granite));
    assert_eq!(Pattern::parse("nope"), None);
}

#[test]
fn gradients_point_along_two_axes() {
    let g = |u: Axis, un: bool, v: Axis, vn: bool| Gradient { u, u_negative: un, v, v_negative: vn };
    assert_eq!(grad(0), g(Axis::X, false, Axis::Y, false));
    assert_eq!(grad(5), g(Axis::X, true, Axis::Z, false));
    assert_eq!(grad(10), g(Axis::Y, false, Axis::Z, true));
    assert_eq!(grad(12), g(Axis::Y, false, Axis::X, false));
    assert_eq!(grad(13), g(Axis::Y, true, Axis::Z, false));
    assert_eq!(grad(0x1F), grad(0x0F));
    for h in 0..=255 {
        assert!(grad(h).u != grad(h).v);
    }
}
