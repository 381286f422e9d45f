//! Checkpoints: where each number of a render in progress stands in the file.

use crate::checkpoint::{
    checkpoint_body, checkpoint_file, checkpoint_round_trip, components, data_at, file_key,
    files_at, fnv, from_le, le, le_words, lemma_from_le, lemma_le, lemma_le_words, lemma_limits,
    magic, render_settings, resumed, words_of, ColorBits, FileModel, CKPT_VERSION,
};
use crate::config::RenderConfig;
use vstd::prelude::*;
use vstd::utf8::encode_utf8;

verus! {

/// The number in four bytes, the least one first.
pub open spec fn four(f: Seq<u8>, at: int) -> int {
    f[at] + 0x100 * f[at + 1] + 0x1_0000 * f[at + 2] + 0x100_0000 * f[at + 3]
}

/// The number in eight bytes, the least one first.
pub open spec fn eight(f: Seq<u8>, at: int) -> int {
    four(f, at) + 0x1_0000_0000 * four(f, at + 4)
}

proof fn lemma_four(f: Seq<u8>, at: int)
    requires
        0 <= at,
        at + 4 <= f.len(),
    ensures
        from_le(f.subrange(at, at + 4)) == four(f, at),
{
    let s = f.subrange(at, at + 4);
    reveal_with_fuel(from_le, 5);
    assert(s.skip(1)[0] == f[at + 1]);
    assert(s.skip(1).skip(1)[0] == f[at + 2]);
    assert(s.skip(1).skip(1).skip(1)[0] == f[at + 3]);
    assert(s.skip(1).skip(1).skip(1).skip(1).len() == 0);
}

proof fn lemma_eight(f: Seq<u8>, at: int)
    requires
        0 <= at,
        at + 8 <= f.len(),
    ensures
        from_le(f.subrange(at, at + 8)) == eight(f, at),
{
    let s = f.subrange(at, at + 8);
    let t = s.skip(1).skip(1).skip(1).skip(1);
    assert(t =~= f.subrange(at + 4, at + 8));
    lemma_four(f, at + 4);
    reveal_with_fuel(from_le, 5);
    assert(s[0] == f[at]);
    assert(s.skip(1)[0] == f[at + 1]);
    assert(s.skip(1).skip(1)[0] == f[at + 2]);
    assert(s.skip(1).skip(1).skip(1)[0] == f[at + 3]);
    assert(from_le(s) == f[at] + 256 * (f[at + 1] + 256 * (f[at + 2] + 256 * (f[at + 3] + 256
        * from_le(t)))));
}

/// A number takes as many bytes as it is given, the least one first.
pub proof fn numbers_are_written_least_first(x: int)
    ensures
        le(x, 4).len() == 4 && le(x, 8).len() == 8,
        0 <= x < 0x1_0000_0000 ==> four(le(x, 4), 0) == x,
        0 <= x < 0x1_0000_0000_0000_0000 ==> eight(le(x, 8), 0) == x,
{
    lemma_limits();
    lemma_le(x, 4);
    lemma_le(x, 8);
    lemma_four(le(x, 4), 0);
    lemma_eight(le(x, 8), 0);
    assert(le(x, 4).subrange(0, 4) =~= le(x, 4));
    assert(le(x, 8).subrange(0, 8) =~= le(x, 8));
}

/// The head of a checkpoint: the name of the format, its version, the scene, the size of the
/// picture and the next task, each at its place.
pub proof fn checkpoints_start_with_a_head(
    scene_hash: u64,
    w: int,
    h: int,
    next_id: u64,
    acc: Seq<ColorBits>,
    acc_w: Seq<u64>,
)
    requires
        0 <= w <= u32::MAX,
        0 <= h <= u32::MAX,
        acc.len() == w * h,
        acc_w.len() == w * h,
    ensures
        ({
            let f = checkpoint_file(scene_hash, w, h, next_id, acc, acc_w);
            &&& f.len() == 44 + 32 * (w * h)
            &&& f.take(8) == seq![0x48u8, 0x59, 0x50, 0x43, 0x4B, 0x50, 0x54, 0x00]
            &&& four(f, 8) == 2
            &&& eight(f, 12) == scene_hash
            &&& four(f, 20) == w
            &&& four(f, 24) == h
            &&& eight(f, 28) == next_id
        }),
{
    let f = checkpoint_file(scene_hash, w, h, next_id, acc, acc_w);
    let body = checkpoint_body(scene_hash, w, h, next_id, acc, acc_w);
    lemma_limits();
    lemma_le(CKPT_VERSION as int, 4);
    lemma_le(scene_hash as int, 8);
    lemma_le(w, 4);
    lemma_le(h, 4);
    lemma_le(next_id as int, 8);
    lemma_le(fnv(body) as int, 8);
    lemma_le_words(components(acc));
    lemma_le_words(acc_w);
    assert(f.take(8) =~= magic());
    assert(f.subrange(8, 12) =~= le(CKPT_VERSION as int, 4));
    assert(f.subrange(12, 20) =~= le(scene_hash as int, 8));
    assert(f.subrange(20, 24) =~= le(w, 4));
    assert(f.subrange(24, 28) =~= le(h, 4));
    assert(f.subrange(28, 36) =~= le(next_id as int, 8));
    lemma_four(f, 8);
    lemma_eight(f, 12);
    lemma_four(f, 20);
    lemma_four(f, 24);
    lemma_eight(f, 28);
}

/// Behind the head stand the colours of the pixels, each with its red, its green and its blue part,
/// then the weights of the pixels, then a checksum of all that.
pub proof fn checkpoints_hold_every_pixel(
    scene_hash: u64,
    w: int,
    h: int,
    next_id: u64,
    acc: Seq<ColorBits>,
    acc_w: Seq<u64>,
    p: int,
)
    requires
        0 <= w <= u32::MAX,
        0 <= h <= u32::MAX,
        acc.len() == w * h,
        acc_w.len() == w * h,
        0 <= p < w * h,
    ensures
        ({
            let f = checkpoint_file(scene_hash, w, h, next_id, acc, acc_w);
            let n = w * h;
            &&& eight(f, 36 + 24 * p) == acc[p].r
            &&& eight(f, 44 + 24 * p) == acc[p].g
            &&& eight(f, 52 + 24 * p) == acc[p].b
            &&& eight(f, 36 + 24 * n + 8 * p) == acc_w[p]
            &&& eight(f, 36 + 32 * n) == fnv(f.take(36 + 32 * n))
        }),
{
    let f = checkpoint_file(scene_hash, w, h, next_id, acc, acc_w);
    lemma_parts(scene_hash, w, h, next_id, acc, acc_w);
    lemma_pixel(f, w * h, acc, acc_w, p);
}

proof fn lemma_pixel(f: Seq<u8>, n: int, acc: Seq<ColorBits>, acc_w: Seq<u64>, p: int)
    requires
        acc.len() == n,
        acc_w.len() == n,
        0 <= p < n,
        f.len() == 44 + 32 * n,
        f.subrange(36, 36 + 24 * n) == le_words(components(acc)),
        f.subrange(36 + 24 * n, 36 + 24 * n + 8 * n) == le_words(acc_w),
        from_le(f.subrange(36 + 32 * n, 36 + 32 * n + 8)) == fnv(f.take(36 + 32 * n)),
    ensures
        eight(f, 36 + 24 * p) == acc[p].r,
        eight(f, 44 + 24 * p) == acc[p].g,
        eight(f, 52 + 24 * p) == acc[p].b,
        eight(f, 36 + 24 * n + 8 * p) == acc_w[p],
        eight(f, 36 + 32 * n) == fnv(f.take(36 + 32 * n)),
{
    let c = components(acc);
    assert(c[3 * p] == acc[p].r && c[3 * p + 1] == acc[p].g && c[3 * p + 2] == acc[p].b);
    assert(36 + 8 * (3 * p + 1) == 44 + 24 * p && 36 + 8 * (3 * p + 2) == 52 + 24 * p);
    lemma_word(f, 36, c, 3 * p);
    lemma_word(f, 36, c, 3 * p + 1);
    lemma_word(f, 36, c, 3 * p + 2);
    lemma_word(f, 36 + 24 * n, acc_w, p);
    lemma_eight(f, 36 + 32 * n);
}

proof fn lemma_parts(
    scene_hash: u64,
    w: int,
    h: int,
    next_id: u64,
    acc: Seq<ColorBits>,
    acc_w: Seq<u64>,
)
    requires
        0 <= w <= u32::MAX,
        0 <= h <= u32::MAX,
        acc.len() == w * h,
        acc_w.len() == w * h,
    ensures
        ({
            let f = checkpoint_file(scene_hash, w, h, next_id, acc, acc_w);
            let n = w * h;
            let c = components(acc);
            &&& f.len() == 44 + 32 * n
            &&& c.len() == 3 * n
            &&& f.subrange(36, 36 + 24 * n) == le_words(c)
            &&& f.subrange(36 + 24 * n, 36 + 24 * n + 8 * n) == le_words(acc_w)
            &&& from_le(f.subrange(36 + 32 * n, 36 + 32 * n + 8)) == fnv(f.take(36 + 32 * n))
        }),
{
    let f = checkpoint_file(scene_hash, w, h, next_id, acc, acc_w);
    let body = checkpoint_body(scene_hash, w, h, next_id, acc, acc_w);
    let n = w * h;
    let end = 36 + 32 * n;
    let c = components(acc);
    lemma_limits();
    lemma_le(CKPT_VERSION as int, 4);
    lemma_le(scene_hash as int, 8);
    lemma_le(w, 4);
    lemma_le(h, 4);
    lemma_le(next_id as int, 8);
    lemma_le(fnv(body) as int, 8);
    lemma_le_words(c);
    lemma_le_words(acc_w);
    assert(f.subrange(36, 36 + 24 * n) =~= le_words(c));
    assert(f.subrange(36 + 24 * n, end) =~= le_words(acc_w));
    assert(f.take(end) =~= body);
    assert(f.subrange(end, end + 8) =~= le(fnv(body) as int, 8));
}

proof fn lemma_word(f: Seq<u8>, at: int, v: Seq<u64>, i: int)
    requires
        0 <= at,
        at + 8 * v.len() <= f.len(),
        f.subrange(at, at + 8 * v.len()) == le_words(v),
        0 <= i < v.len(),
    ensures
        eight(f, at + 8 * i) == v[i],
{
    lemma_le_words(v);
    let s = le_words(v);
    let t = s.subrange(8 * i, 8 * i + 8);
    assert(t =~= f.subrange(at + 8 * i, at + 8 * i + 8));
    assert(words_of(s, v.len() as int)[i] == v[i]);
    lemma_eight(f, at + 8 * i);
    lemma_from_le(t);
    lemma_limits();
}

/// A checkpoint that is resumed gives back the next task, the colours and the weights, each where it
/// was.
pub proof fn checkpoints_are_resumed_where_they_were(
    scene_hash: u64,
    w: int,
    h: int,
    next_id: u64,
    acc: Seq<ColorBits>,
    acc_w: Seq<u64>,
    p: int,
)
    requires
        0 <= w <= u32::MAX,
        0 <= h <= u32::MAX,
        acc.len() == w * h,
        acc_w.len() == w * h,
        0 <= p < w * h,
    ensures
        ({
            let r = resumed(
                checkpoint_file(scene_hash, w, h, next_id, acc, acc_w),
                scene_hash,
                w,
                h,
            );
            &&& r is Ok && r->Ok_0 is Some
            &&& r->Ok_0->Some_0.next_id == next_id
            &&& r->Ok_0->Some_0.colors.len() == 3 * (w * h) && r->Ok_0->Some_0.weights.len() == w * h
            &&& r->Ok_0->Some_0.colors[3 * p] == acc[p].r
            &&& r->Ok_0->Some_0.colors[3 * p + 1] == acc[p].g
            &&& r->Ok_0->Some_0.colors[3 * p + 2] == acc[p].b
            &&& r->Ok_0->Some_0.weights[p] == acc_w[p]
        }),
{
    checkpoint_round_trip(scene_hash, w, h, next_id, acc, acc_w);
}

/// The hash starts from a fixed number; each byte is mixed in by an exclusive or and a product.
pub proof fn hashes_mix_in_every_byte(s: Seq<u8>, b: u8)
    ensures
        fnv(Seq::empty()) == 0xCBF2_9CE4_8422_2325,
        fnv(s.push(b)) == ((fnv(s) ^ (b as u64)) * 0x100_0000_01B3) % 0x1_0000_0000_0000_0000,
{
    assert(s.push(b).drop_last() =~= s);
    let x: u64 = fnv(s) ^ (b as u64);
    vstd::arithmetic::power2::lemma2_to64();
}

/// Renders that are hashed alike have the same size, the same sampling and the same order of tiles.
pub proof fn settings_are_told_apart(c: RenderConfig, d: RenderConfig)
    requires
        render_settings(c) == render_settings(d),
    ensures
        c.width == d.width && c.height == d.height,
        c.spp == d.spp,
        c.max_depth == d.max_depth && c.rr_depth == d.rr_depth,
        c.seed == d.seed,
        c.adaptive_enabled == d.adaptive_enabled,
        c.adaptive_min_spp == d.adaptive_min_spp,
        c.adaptive_threshold == d.adaptive_threshold,
        c.tile == d.tile,
        c.morton_enabled == d.morton_enabled,
{
    let a = render_settings(c);
    let b = render_settings(d);
    assert(a[0] == b[0] && a[1] == b[1] && a[2] == b[2] && a[3] == b[3] && a[4] == b[4] && a[5] == b[5]);
    assert(a[6] == b[6] && a[7] == b[7] && a[8] == b[8] && a[9] == b[9] && a[10] == b[10]);
}

/// A file on disk is found by its path.
pub proof fn files_are_found_by_path(disk: Seq<FileModel>, i: int)
    requires
        0 <= i < disk.len(),
        forall|j: int| 0 <= j < i ==> (#[trigger] disk[j]).path != disk[i].path,
    ensures
        data_at(disk, disk[i].path) == disk[i].data,
    decreases i,
{
    if i > 0 {
        assert(disk[0].path != disk[i].path);
        let r = disk.skip(1);
        assert(r[i - 1] == disk[i]);
        assert forall|j: int| 0 <= j < i - 1 implies (#[trigger] r[j]).path != r[i - 1].path by {
            assert(disk[j + 1].path != disk[i].path);
        }
        files_are_found_by_path(r, i - 1);
    }
}

/// The files of a scene are hashed with their own paths and their own bytes, in their order.
pub proof fn files_are_hashed_as_they_are(disk: Seq<FileModel>, paths: Seq<Seq<char>>, i: int)
    requires
        0 <= i < paths.len(),
    ensures
        files_at(disk, paths).len() == paths.len(),
        files_at(disk, paths)[i].path == paths[i],
        files_at(disk, paths)[i].data == data_at(disk, paths[i]),
{
}

/// A file is hashed as its path, a mark that says whether it is there, and its bytes if it is; a path
/// and bytes come behind their length.
pub proof fn files_are_hashed_with_a_mark(f: FileModel)
    ensures
        f.data matches Some(d) ==> file_key(f) == le(encode_utf8(f.path).len() as int, 8) + encode_utf8(
            f.path,
        ) + (le(1, 8) + (le(d.len() as int, 8) + d)),
        f.data is None ==> file_key(f) == le(encode_utf8(f.path).len() as int, 8) + encode_utf8(f.path)
            + le(0, 8),
{
}

} // verus!
