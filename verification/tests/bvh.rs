use tinypt::bvh::construct::{
    build_binary, parallel_depth_budget, BvhNode, LEAF_SIZE, PARALLEL_MIN_TRIS,
};
use tinypt::bvh::hits::RayHit;
use tinypt::bvh::keys::{key_bits, order_key, Aabb, Point, KEY_INFINITY, KEY_NEG_INFINITY};
use tinypt::bvh::split::{Metric, SAH_BINS};
use tinypt::bvh::wide::{Bvh, WIDE_WIDTH};
use tinypt::rng::splitmix64;

const TIE_SLACK: f64 = 1.0 + 1e-12;
const SLAB_FAR_SCALE: f64 = 1.0 + 2.0 * f64::EPSILON * 0.5 * 3.0 / (1.0 - f64::EPSILON * 0.5 * 3.0);

type V = [f64; 3];

fn add(a: V, b: V) -> V {
    [a[0] + b[0], a[1] + b[1], a[2] + b[2]]
}

fn sub(a: V, b: V) -> V {
    [a[0] - b[0], a[1] - b[1], a[2] - b[2]]
}

fn scale(a: V, s: f64) -> V {
    [a[0] * s, a[1] * s, a[2] * s]
}

fn norm(a: V) -> V {
    let l = (a[0] * a[0] + a[1] * a[1] + a[2] * a[2]).sqrt().max(1e-30);
    [a[0] / l, a[1] / l, a[2] / l]
}

fn key(x: f64) -> u64 {
    order_key(x.to_bits())
}

fn num(k: u64) -> f64 {
    f64::from_bits(key_bits(k))
}

fn point(p: V) -> Point {
    Point { x: key(p[0]), y: key(p[1]), z: key(p[2]) }
}

fn low(b: &Aabb) -> V {
    [num(b.min.x), num(b.min.y), num(b.min.z)]
}

fn high(b: &Aabb) -> V {
    [num(b.max.x), num(b.max.y), num(b.max.z)]
}

fn extent(b: &Aabb) -> V {
    sub(high(b), low(b))
}

fn area(b: &Aabb) -> f64 {
    let e = extent(b);
    2.0 * (e[0] * e[1] + e[1] * e[2] + e[2] * e[0])
}

fn gamma(n: i32) -> f64 {
    let e = n as f64 * f64::EPSILON * 0.5;
    e / (1.0 - e)
}

struct Rng(u64);

impl Rng {
    fn new(seed: u64) -> Self {
        Rng(seed)
    }

    fn next_f64(&mut self) -> f64 {
        self.0 = splitmix64(self.0);
        (self.0 >> 11) as f64 / (1u64 << 53) as f64
    }

    fn vec(&mut self, s: f64) -> V {
        scale([self.next_f64() - 0.5, self.next_f64() - 0.5, self.next_f64() - 0.5], s)
    }
}

#[derive(Clone, Copy)]
struct Triangle {
    v: [V; 3],
    mat_id: usize,
}

#[derive(Clone, Copy)]
struct Ray {
    o: V,
    d: V,
}

impl Triangle {
    fn new(a: V, b: V, c: V, mat_id: usize) -> Self {
        Triangle { v: [a, b, c], mat_id }
    }

    fn bounds(&self) -> Aabb {
        let b = Aabb::empty().grow(point(self.v[0])).grow(point(self.v[1])).grow(point(self.v[2]));
        let (mut lo, mut hi) = (low(&b), high(&b));
        for i in 0..3 {
            let pad = gamma(3) * lo[i].abs().max(hi[i].abs());
            lo[i] -= pad;
            hi[i] += pad;
        }
        Aabb { min: point(lo), max: point(hi) }
    }

    fn intersect(&self, r: Ray, tmin: f64, tmax: f64) -> Option<(f64, f64, f64)> {
        let mut p = [sub(self.v[0], r.o), sub(self.v[1], r.o), sub(self.v[2], r.o)];
        let ad = [r.d[0].abs(), r.d[1].abs(), r.d[2].abs()];
        let kz = if ad[0] > ad[1] {
            if ad[0] > ad[2] { 0 } else { 2 }
        } else if ad[1] > ad[2] {
            1
        } else {
            2
        };
        let kx = (kz + 1) % 3;
        let ky = (kx + 1) % 3;
        let perm = |v: V| [v[kx], v[ky], v[kz]];
        let d = perm(r.d);
        let (sx, sy, sz) = (-d[0] / d[2], -d[1] / d[2], 1.0 / d[2]);
        for q in p.iter_mut() {
            *q = perm(*q);
            q[0] += sx * q[2];
            q[1] += sy * q[2];
        }
        let e0 = p[1][0] * p[2][1] - p[1][1] * p[2][0];
        let e1 = p[2][0] * p[0][1] - p[2][1] * p[0][0];
        let e2 = p[0][0] * p[1][1] - p[0][1] * p[1][0];
        if (e0 < 0.0 || e1 < 0.0 || e2 < 0.0) && (e0 > 0.0 || e1 > 0.0 || e2 > 0.0) {
            return None;
        }
        let det = e0 + e1 + e2;
        if det == 0.0 || !det.is_finite() {
            return None;
        }
        for q in p.iter_mut() {
            q[2] *= sz;
        }
        let t_scaled = e0 * p[0][2] + e1 * p[1][2] + e2 * p[2][2];
        if det < 0.0 && (t_scaled >= 0.0 || t_scaled < tmax * det || t_scaled > tmin * det) {
            return None;
        }
        if det > 0.0 && (t_scaled <= 0.0 || t_scaled > tmax * det || t_scaled < tmin * det) {
            return None;
        }
        let inv = 1.0 / det;
        Some((t_scaled * inv, e1 * inv, e2 * inv))
    }
}

fn random_tris(n: usize, rng: &mut Rng) -> Vec<Triangle> {
    (0..n)
        .map(|i| {
            let c = rng.vec(10.0);
            Triangle::new(add(c, rng.vec(1.0)), add(c, rng.vec(1.0)), add(c, rng.vec(1.0)), i)
        })
        .collect()
}

fn boxes(tris: &[Triangle]) -> (Vec<Aabb>, Vec<Point>) {
    let b: Vec<Aabb> = tris.iter().map(|t| t.bounds()).collect();
    let c = b.iter().map(|b| point(scale(add(low(b), high(b)), 0.5))).collect();
    (b, c)
}

fn longest(c: Aabb) -> usize {
    let e = extent(&c);
    if e[0] >= e[1] && e[0] >= e[2] {
        0
    } else if e[1] >= e[2] {
        1
    } else {
        2
    }
}

fn spread(lo: u64, hi: u64) -> bool {
    num(hi) - num(lo) > 1e-12
}

fn bin(lo: u64, hi: u64, c: u64) -> usize {
    let inv = 1.0 / (num(hi) - num(lo));
    (((num(c) - num(lo)) * inv * (SAH_BINS as f64)) as usize).min(SAH_BINS - 1)
}

fn cost(l: Aabb, n: usize, r: Aabb, k: usize) -> Option<u64> {
    let c = area(&l) * n as f64 + area(&r) * k as f64;
    if c.is_finite() { Some(key(c)) } else { None }
}

fn weight(b: Aabb, n: u32) -> Option<u64> {
    let c = area(&b) * n as f64;
    if c.is_nan() { None } else { Some(key(c)) }
}

struct Bin {
    nodes: Vec<BvhNode>,
    indices: Vec<usize>,
}

fn binary(tris: &[Triangle], threads: usize) -> Bin {
    let (b, c) = boxes(tris);
    let m = Metric { axis: longest, spread, bin, cost };
    let (nodes, indices) = build_binary(&b, &c, threads, &m);
    Bin { nodes, indices }
}

fn build(tris: &[Triangle], threads: usize) -> Bvh {
    let (b, c) = boxes(tris);
    let m = Metric { axis: longest, spread, bin, cost };
    Bvh::build_from_bounds(&b, &c, threads, &m, &weight)
}

fn slab(b: &Aabb, r: Ray, mut tmin: f64, mut tmax: f64) -> Option<f64> {
    let (lo, hi) = (low(b), high(b));
    for i in 0..3 {
        let inv = 1.0 / r.d[i];
        let t0 = (lo[i] - r.o[i]) * inv;
        let t1 = (hi[i] - r.o[i]) * inv;
        tmin = tmin.max(t0.min(t1));
        tmax = tmax.min(t0.max(t1) * SLAB_FAR_SCALE);
        if tmax < tmin {
            return None;
        }
    }
    Some(tmin)
}

fn near(
    bvh: &Bvh,
    tris: &[Triangle],
    r: Ray,
    tmin: f64,
    tmax: f64,
    accept: impl Fn(usize, u64, u64) -> bool,
) -> Option<RayHit> {
    let enter = |b: Aabb, t: u64| slab(&b, r, tmin, num(t)).map(key);
    let intersect = |i: usize, t: u64| {
        tris[i].intersect(r, tmin, num(t)).map(|(t, u, v)| (key(t), u.to_bits(), v.to_bits()))
    };
    let slack = |t: u64| key(num(t) * TIE_SLACK);
    bvh.hit_filtered(&enter, &intersect, &accept, &slack, key(tmax))
}

fn nearest(bvh: &Bvh, tris: &[Triangle], r: Ray, tmin: f64, tmax: f64) -> Option<RayHit> {
    let enter = |b: Aabb, t: u64| slab(&b, r, tmin, num(t)).map(key);
    let intersect = |i: usize, t: u64| {
        tris[i].intersect(r, tmin, num(t)).map(|(t, u, v)| (key(t), u.to_bits(), v.to_bits()))
    };
    let slack = |t: u64| key(num(t) * TIE_SLACK);
    bvh.hit(&enter, &intersect, &slack, key(tmax))
}

fn any(
    bvh: &Bvh,
    tris: &[Triangle],
    r: Ray,
    tmin: f64,
    tmax: f64,
    accept: impl Fn(usize, u64, u64) -> bool,
) -> Option<RayHit> {
    let enter = |b: Aabb, t: u64| slab(&b, r, tmin, num(t)).map(key);
    let intersect = |i: usize, t: u64| {
        tris[i].intersect(r, tmin, num(t)).map(|(t, u, v)| (key(t), u.to_bits(), v.to_bits()))
    };
    bvh.any_hit_filtered(&enter, &intersect, &accept, key(tmax))
}

fn brute_force(tris: &[Triangle], r: Ray, tmin: f64, tmax: f64) -> Option<f64> {
    let mut best: Option<f64> = None;
    for t in tris {
        if let Some((d, _, _)) = t.intersect(r, tmin, best.unwrap_or(tmax)) {
            best = Some(d);
        }
    }
    best
}

fn brute_winner(tris: &[Triangle], r: Ray, tmin: f64, tmax: f64) -> Option<(f64, usize)> {
    let mut best: Option<(f64, usize)> = None;
    for (ti, t) in tris.iter().enumerate() {
        if let Some((tt, _, _)) = t.intersect(r, tmin, tmax) {
            if best.map_or(true, |(bt, _)| tt < bt) {
                best = Some((tt, ti));
            }
        }
    }
    best
}

fn random_ray(rng: &mut Rng) -> Ray {
    let o = rng.vec(30.0);
    let target = rng.vec(8.0);
    Ray { o, d: norm(sub(target, o)) }
}

fn same_tree(a: &Bin, b: &Bin) -> bool {
    a.indices == b.indices && a.nodes == b.nodes
}

fn leaves_hold_all(bin: &Bin, n: usize) {
    let mut seen = vec![0u32; n];
    for node in &bin.nodes {
        if node.left == -1 {
            assert!(node.count as usize <= LEAF_SIZE);
            for &i in &bin.indices[node.start as usize..(node.start + node.count) as usize] {
                seen[i] += 1;
            }
        } else {
            assert!(node.right != -1 && node.count == 0);
        }
    }
    assert!(seen.iter().all(|&c| c == 1), "n={}", n);
}

#[test]
fn parallel_build_matches_sequential_bit_for_bit_for_a_large_mesh() {
    let mut rng = Rng::new(4242);
    let tris = random_tris(PARALLEL_MIN_TRIS + 20_000, &mut rng);
    let seq = binary(&tris, 1);
    assert!(seq.nodes.len() > 1, "test setup: mesh should actually split");
    for &threads in &[2usize, 3, 4, 8, 16] {
        let par = binary(&tris, threads);
        assert!(same_tree(&seq, &par), "threads={}: BVH differs from the sequential build", threads);
    }
}

#[test]
fn parallel_build_matches_sequential_around_the_min_tris_threshold() {
    let mut rng = Rng::new(99);
    for &n in &[PARALLEL_MIN_TRIS - 1, PARALLEL_MIN_TRIS, PARALLEL_MIN_TRIS + 1] {
        let tris = random_tris(n, &mut rng);
        let seq = binary(&tris, 1);
        let par = binary(&tris, 8);
        assert!(same_tree(&seq, &par), "n={}: BVH differs from the sequential build", n);
    }
}

#[test]
fn parallel_build_matches_sequential_for_degenerate_inputs() {
    let empty: Vec<Triangle> = Vec::new();
    let seq = binary(&empty, 1);
    let par = binary(&empty, 8);
    assert!(same_tree(&seq, &par));
    assert!(seq.nodes.is_empty());

    let one = vec![Triangle::new([0.0, 0.0, 0.0], [1.0, 0.0, 0.0], [0.0, 1.0, 0.0], 0)];
    let seq = binary(&one, 1);
    let par = binary(&one, 8);
    assert!(same_tree(&seq, &par));

    let degenerate: Vec<Triangle> = (0..PARALLEL_MIN_TRIS + 1000)
        .map(|i| Triangle::new([0.0, 0.0, 0.0], [1.0, 0.0, 0.0], [0.0, 1.0, 0.0], i))
        .collect();
    let seq = binary(&degenerate, 1);
    let par = binary(&degenerate, 8);
    assert!(same_tree(&seq, &par), "all at one place");
}

#[test]
fn parallel_build_is_a_valid_bvh() {
    let mut rng = Rng::new(55);
    let tris = random_tris(PARALLEL_MIN_TRIS + 5000, &mut rng);
    let bin = binary(&tris, 8);
    let bvh = build(&tris, 8);
    leaves_hold_all(&bin, tris.len());
    for _ in 0..200 {
        let r = random_ray(&mut rng);
        let a = nearest(&bvh, &tris, r, 1e-4, 1e30).map(|h| num(h.t));
        assert_eq!(a, brute_force(&tris, r, 1e-4, 1e30));
    }
}

#[test]
fn bvh_hit_matches_brute_force() {
    let mut rng = Rng::new(123);
    for &n in &[1usize, 5, 12, 15, 16, 40, 500] {
        let tris = random_tris(n, &mut rng);
        let bvh = build(&tris, 1);
        for _ in 0..500 {
            let r = random_ray(&mut rng);
            let a = nearest(&bvh, &tris, r, 1e-4, 1e30).map(|h| num(h.t));
            assert_eq!(a, brute_force(&tris, r, 1e-4, 1e30), "n={}", n);
        }
    }
}

#[test]
fn any_hit_existence_matches_nearest_hit_existence() {
    let mut rng = Rng::new(777);
    for &n in &[1usize, 5, 12, 16, 40, 500] {
        let tris = random_tris(n, &mut rng);
        let bvh = build(&tris, 1);
        for _ in 0..500 {
            let r = random_ray(&mut rng);
            let accept = |ti: usize, _u: u64, _v: u64| ti % 2 == 0;
            let nearest = near(&bvh, &tris, r, 1e-4, 1e30, accept).is_some();
            let found = any(&bvh, &tris, r, 1e-4, 1e30, accept);
            assert_eq!(found.is_some(), nearest, "n={}", n);
            assert!(found.map_or(true, |h| h.prim % 2 == 0));
        }
    }
}

#[test]
fn bvh_leaves_partition_all_triangles() {
    let mut rng = Rng::new(5);
    for &n in &[3usize, 12, 15, 100] {
        let tris = random_tris(n, &mut rng);
        leaves_hold_all(&binary(&tris, 1), n);
    }
}

#[test]
fn small_node_split_is_spatial() {
    let order = [11usize, 0, 9, 2, 7, 4, 5, 6, 3, 8, 1, 10];
    let tris: Vec<Triangle> = order
        .iter()
        .map(|&i| {
            let x = i as f64 * 2.0;
            Triangle::new([x, 0.0, 0.0], [x + 0.5, 0.0, 0.0], [x, 0.5, 0.0], i)
        })
        .collect();
    let bvh = binary(&tris, 1);
    let root = bvh.nodes[0];
    let l = bvh.nodes[root.left as usize].bbox;
    let r = bvh.nodes[root.right as usize].bbox;
    assert!(
        num(l.max.x) < num(r.min.x) || num(r.max.x) < num(l.min.x),
        "children overlap on the split axis: {:?} {:?}",
        l,
        r
    );
}

#[test]
fn hit_filtered_matches_brute_force_over_accepted_triangles() {
    let mut rng = Rng::new(77);
    for &n in &[1usize, 12, 40, 500] {
        let tris = random_tris(n, &mut rng);
        let bvh = build(&tris, 1);
        let kept: Vec<Triangle> =
            tris.iter().enumerate().filter(|(i, _)| i % 3 != 0).map(|(_, t)| *t).collect();
        for _ in 0..400 {
            let r = random_ray(&mut rng);
            let a = near(&bvh, &tris, r, 1e-4, 1e30, |ti, _, _| ti % 3 != 0).map(|h| num(h.t));
            assert_eq!(a, brute_force(&kept, r, 1e-4, 1e30), "n={}", n);
            let all = near(&bvh, &tris, r, 1e-4, 1e30, |_, _, _| true).map(|h| num(h.t));
            assert_eq!(all, nearest(&bvh, &tris, r, 1e-4, 1e30).map(|h| num(h.t)));
        }
    }
}

fn centre(t: &Triangle) -> V {
    scale(add(add(t.v[0], t.v[1]), t.v[2]), 1.0 / 3.0)
}

#[test]
fn wide_hit_matches_brute_force_including_ties() {
    let mut rng = Rng::new(2024);
    for (n, dup) in [(1usize, 0usize), (3, 1), (40, 0), (500, 0), (400, 3), (3000, 2)] {
        let mut tris = random_tris(n, &mut rng);
        let base = tris.len();
        for _ in 0..dup {
            for k in 0..base {
                let t = tris[k];
                let id = 1000 + tris.len();
                tris.push(Triangle { mat_id: id, ..t });
            }
        }
        let bvh = build(&tris, 1);
        let mut ties = 0;
        let rays = 4000;
        for _ in 0..rays {
            let i = (rng.next_f64() * tris.len() as f64) as usize % tris.len();
            let target = centre(&tris[i]);
            let o = rng.vec(30.0);
            let r = Ray { o, d: norm(sub(target, o)) };
            let got = nearest(&bvh, &tris, r, 0.0, 1e30);
            let want = brute_winner(&tris, r, 0.0, 1e30);
            match (&got, want) {
                (None, None) => {}
                (Some(h), Some((t, ti))) => {
                    assert_eq!(num(h.t).to_bits(), t.to_bits(), "n={n} dup={dup}: t");
                    assert_eq!(h.prim, ti, "n={n} dup={dup}: prim");
                    assert_eq!(tris[h.prim].mat_id, tris[ti].mat_id, "n={n} dup={dup}: mat_id");
                    if dup > 0 {
                        ties += 1;
                    }
                }
                _ => panic!("n={n} dup={dup}: {:?} against {:?}", got, want),
            }
            assert_eq!(any(&bvh, &tris, r, 0.0, 1e30, |_, _, _| true).is_some(), want.is_some());
        }
        if dup > 0 {
            assert!(ties > 100, "too few ties: {ties}");
        }
    }
}

#[test]
fn winner_does_not_depend_on_the_traversal_order() {
    let mut rng = Rng::new(31);
    let mut tris = random_tris(600, &mut rng);
    let base = tris.len();
    for k in 0..base {
        let t = tris[k];
        tris.push(Triangle { mat_id: 5000 + k, ..t });
    }
    let a = build(&tris, 1);
    let b = build(&tris, 8);
    let rev: Vec<Triangle> = tris.iter().rev().copied().collect();
    let c = build(&rev, 1);
    let n = tris.len();
    for _ in 0..3000 {
        let i = (rng.next_f64() * n as f64) as usize % n;
        let target = centre(&tris[i]);
        let o = rng.vec(30.0);
        let r = Ray { o, d: norm(sub(target, o)) };
        let ha = nearest(&a, &tris, r, 0.0, 1e30);
        let hb = nearest(&b, &tris, r, 0.0, 1e30);
        assert_eq!(ha, hb);
        let hc = nearest(&c, &rev, r, 0.0, 1e30);
        assert_eq!(ha.map(|h| h.t), hc.map(|h| h.t));
    }
}

#[test]
fn wide_nodes_partition_all_triangles() {
    let mut rng = Rng::new(9);
    for n in [1usize, 2, 4, 5, 17, 300, 5000] {
        let tris = random_tris(n, &mut rng);
        let bvh = build(&tris, 1);
        let mut seen = vec![0u32; n];
        for nd in &bvh.wide {
            assert!((1..=WIDE_WIDTH).contains(&nd.slots.len()));
            for s in &nd.slots {
                if s.count > 0 {
                    for pos in s.child as usize..s.child as usize + s.count as usize {
                        seen[bvh.indices[pos]] += 1;
                    }
                } else {
                    assert!((s.child as usize) < bvh.wide.len());
                }
            }
        }
        assert!(seen.iter().all(|&c| c == 1), "n={n}");
    }
}

#[test]
fn an_empty_hierarchy_is_never_hit() {
    let bvh = build(&[], 4);
    let r = Ray { o: [0.0, 0.0, 0.0], d: [0.0, 0.0, 1.0] };
    assert!(bvh.root_bounds().is_none());
    assert!(nearest(&bvh, &[], r, 0.0, 1e30).is_none());
    assert!(any(&bvh, &[], r, 0.0, 1e30, |_, _, _| true).is_none());
}

#[test]
fn the_root_box_is_the_box_of_everything() {
    let mut rng = Rng::new(12);
    let tris = random_tris(37, &mut rng);
    let all = tris.iter().fold(Aabb::empty(), |b, t| b.union(t.bounds()));
    assert_eq!(build(&tris, 1).root_bounds(), Some(all));
}

#[test]
fn keys_order_as_the_numbers_do() {
    let v = [f64::NEG_INFINITY, -2.5, -1e-300, -0.0, 0.0, 1e-300, 1.0, 2.5, f64::INFINITY];
    for w in v.windows(2) {
        assert!(key(w[0]) < key(w[1]));
    }
    for x in v {
        assert_eq!(num(key(x)).to_bits(), x.to_bits());
    }
    assert_eq!(key(f64::INFINITY), KEY_INFINITY);
    assert_eq!(key(f64::NEG_INFINITY), KEY_NEG_INFINITY);
}

#[test]
fn threads_are_used_for_large_meshes_only() {
    assert_eq!(parallel_depth_budget(1, 1_000_000), 0);
    assert_eq!(parallel_depth_budget(8, PARALLEL_MIN_TRIS - 1), 0);
    assert_eq!(parallel_depth_budget(2, PARALLEL_MIN_TRIS), 1);
    assert_eq!(parallel_depth_budget(3, PARALLEL_MIN_TRIS), 2);
    assert_eq!(parallel_depth_budget(8, PARALLEL_MIN_TRIS), 3);
    assert_eq!(parallel_depth_budget(9, PARALLEL_MIN_TRIS), 4);
}

#[test]
fn every_node_but_the_root_hangs_from_one_slot() {
    for n in [1usize, 5, 40, 300] {
        let mut rng = Rng::new(n as u64);
        let bvh = build(&random_tris(n, &mut rng), 1);
        let mut parents = vec![0usize; bvh.wide.len()];
        for s in bvh.wide.iter().flat_map(|w| &w.slots).filter(|s| s.count == 0) {
            parents[s.child as usize] += 1;
        }
        assert_eq!(parents[0], 0);
        assert!(parents[1..].iter().all(|&c| c == 1), "n={n}");
    }
}

#[test]
fn a_walk_hands_every_primitive_out_once() {
    let mut rng = Rng::new(31);
    let n = 120;
    let tris = random_tris(n, &mut rng);
    let bvh = build(&tris, 1);
    let everything = |_: Aabb, _: u64| Some(KEY_NEG_INFINITY);
    let mut seen = vec![0usize; n];
    let mut walk = bvh.start_walk(&everything, KEY_INFINITY);
    while let Some(i) = bvh.next_in_walk(&mut walk, &everything, KEY_INFINITY) {
        seen[i] += 1;
    }
    assert!(seen.iter().all(|&c| c == 1));
    let nothing = |_: Aabb, _: u64| None;
    let mut walk = bvh.start_walk(&nothing, KEY_INFINITY);
    assert_eq!(bvh.next_in_walk(&mut walk, &nothing, KEY_INFINITY), None);
}
