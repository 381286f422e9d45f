//! Checkpoints: what a render has accumulated so far, as bytes that can be read back.
//!
//! Magic, version, scene hash, size, next task, accumulated colours, weights, and a checksum over
//! everything before it. A file that does not match, or is damaged, is not used. Floating-point
//! numbers are held as their bits.

use crate::config::RenderConfig;
use crate::constants::{RENDER_REVISION, VERSION};
use crate::decimal::{hex_text, to_hex};
use crate::mitsuba::paths::{directory_of, parent_of};
use crate::mitsuba::scene::{files_in, files_in_all, referenced_files};
use crate::mitsuba::xml::{document, tree, ErrorModel, Node, SceneError};
use crate::mtl::opt_text;
use crate::obj::strings;
use crate::text::{chars_of, copied, same_str, string_of, utf8_text};
use vstd::prelude::*;
use vstd::utf8::{decode_utf8, encode_utf8, valid_utf8};

verus! {

/// The first eight bytes of a checkpoint.
pub open spec fn magic() -> Seq<u8> {
    seq![72u8, 89, 80, 67, 75, 80, 84, 0]
}

/// The version of the layout.
pub const CKPT_VERSION: u32 = 2;

/// The starting value of FNV-1a.
pub const FNV_OFFSET: u64 = 0xcbf2_9ce4_8422_2325;

/// The prime of FNV-1a.
pub const FNV_PRIME: u64 = 0x0000_0100_0000_01b3;

/// FNV-1a after one more byte.
pub open spec fn fnv_step(h: u64, b: u8) -> u64 {
    (h ^ (b as u64)).wrapping_mul(FNV_PRIME)
}

/// FNV-1a of a message, started at `h`.
pub open spec fn fnv_from(h: u64, s: Seq<u8>) -> u64
    decreases s.len(),
{
    if s.len() == 0 {
        h
    } else {
        fnv_step(fnv_from(h, s.drop_last()), s.last())
    }
}

/// FNV-1a, 64 bits.
pub open spec fn fnv(s: Seq<u8>) -> u64 {
    fnv_from(FNV_OFFSET, s)
}

/// The low `n` bytes of a number, lowest first.
pub open spec fn le(x: int, n: nat) -> Seq<u8>
    decreases n,
{
    if n == 0 {
        Seq::empty()
    } else {
        seq![(x % 256) as u8] + le(x / 256, (n - 1) as nat)
    }
}

/// The number whose bytes, lowest first, are `s`.
pub open spec fn from_le(s: Seq<u8>) -> int
    decreases s.len(),
{
    if s.len() == 0 {
        0
    } else {
        s[0] + 256 * from_le(s.skip(1))
    }
}

/// 256 to the power of `n`.
pub open spec fn bytes_limit(n: nat) -> int
    decreases n,
{
    if n == 0 {
        1
    } else {
        256 * bytes_limit((n - 1) as nat)
    }
}

pub proof fn lemma_le(x: int, n: nat)
    ensures
        le(x, n).len() == n,
        0 <= x < bytes_limit(n) ==> from_le(le(x, n)) == x,
    decreases n,
{
    if n > 0 {
        lemma_le(x / 256, (n - 1) as nat);
        assert(le(x, n).skip(1) =~= le(x / 256, (n - 1) as nat));
    }
}

pub proof fn lemma_from_le(s: Seq<u8>)
    ensures
        0 <= from_le(s) < bytes_limit(s.len()),
        le(from_le(s), s.len()) == s,
    decreases s.len(),
{
    if s.len() > 0 {
        lemma_from_le(s.skip(1));
        assert(seq![s[0]] + s.skip(1) =~= s);
    } else {
        assert(le(from_le(s), s.len()) =~= s);
    }
}

pub proof fn lemma_limits()
    ensures
        bytes_limit(4) == 0x1_0000_0000,
        bytes_limit(8) == 0x1_0000_0000_0000_0000,
{
    reveal_with_fuel(bytes_limit, 9);
}

/// The running hash of a message.
pub struct Fnv64(pub u64);

impl Fnv64 {
    /// The hash of nothing.
    pub fn new() -> (r: Self)
        ensures
            r.0 == fnv(Seq::empty()),
    {
        Fnv64(FNV_OFFSET)
    }

    /// Hashes more bytes.
    pub fn bytes(&mut self, data: &[u8])
        ensures
            final(self).0 == fnv_from(old(self).0, data@),
    {
        let ghost start = self.0;
        let mut i: usize = 0;
        assert(data@.take(0) =~= Seq::<u8>::empty());
        while i < data.len()
            invariant
                i <= data@.len(),
                self.0 == fnv_from(start, data@.take(i as int)),
            decreases data@.len() - i,
        {
            assert(data@.take(i + 1).drop_last() =~= data@.take(i as int));
            self.0 = (self.0 ^ (data[i] as u64)).wrapping_mul(FNV_PRIME);
            i += 1;
        }
        assert(data@.take(i as int) =~= data@);
    }

    /// Hashes a number, lowest byte first.
    pub fn u64(&mut self, v: u64)
        ensures
            final(self).0 == fnv_from(old(self).0, le(v as int, 8)),
    {
        let mut b: Vec<u8> = Vec::new();
        write_u64_le(&mut b, v);
        assert(b@ =~= le(v as int, 8));
        self.bytes(&b);
    }

    /// Hashes a length and then that many bytes, so that the borders between fields count.
    pub fn field(&mut self, data: &[u8])
        ensures
            final(self).0 == fnv_from(old(self).0, field(data@)),
    {
        let ghost start = self.0;
        self.u64(data.len() as u64);
        self.bytes(data);
        proof {
            lemma_fnv_concat(start, le(data@.len() as int, 8), data@);
        }
    }
}

/// A length and that many bytes.
pub open spec fn field(s: Seq<u8>) -> Seq<u8> {
    le(s.len() as int, 8) + s
}

proof fn lemma_fnv_concat(h: u64, a: Seq<u8>, b: Seq<u8>)
    ensures
        fnv_from(h, a + b) == fnv_from(fnv_from(h, a), b),
    decreases b.len(),
{
    if b.len() == 0 {
        assert(a + b =~= a);
    } else {
        assert((a + b).drop_last() =~= a + b.drop_last());
        lemma_fnv_concat(h, a, b.drop_last());
    }
}

/// A step of the hash loses nothing: different hashes stay different, and different bytes give
/// different hashes.
proof fn lemma_fnv_step(h: u64, g: u64, a: u8, b: u8)
    ensures
        h != g ==> fnv_step(h, a) != fnv_step(g, a),
        a != b ==> fnv_step(h, a) != fnv_step(h, b),
{
    let x: u64 = h ^ (a as u64);
    let y: u64 = g ^ (a as u64);
    let z: u64 = h ^ (b as u64);
    assert(h != g ==> x != y) by (bit_vector)
        requires
            x == h ^ (a as u64),
            y == g ^ (a as u64),
    ;
    assert(a != b ==> x != z) by (bit_vector)
        requires
            x == h ^ (a as u64),
            z == h ^ (b as u64),
    ;
    lemma_fnv_multiply(x, y);
    lemma_fnv_multiply(x, z);
}

/// Multiplying by the prime can be undone: the product of it and this inverse is one.
proof fn lemma_fnv_multiply(x: u64, y: u64)
    ensures
        x != y ==> x.wrapping_mul(FNV_PRIME) != y.wrapping_mul(FNV_PRIME),
{
    let m = 0x1_0000_0000_0000_0000int;
    let p = FNV_PRIME as int;
    let inv = 0xce96_5057_aff6_957bint;
    assert(p * inv == 1 + 887285111055int * m) by (nonlinear_arith)
        requires
            p == 0x0000_0100_0000_01b3int,
            inv == 0xce96_5057_aff6_957bint,
            m == 0x1_0000_0000_0000_0000int,
    ;
    if x.wrapping_mul(FNV_PRIME) == y.wrapping_mul(FNV_PRIME) {
        let a = x as int;
        let b = y as int;
        assert((a * p) % m == (b * p) % m);
        lemma_undo(a, p, inv, m, 887285111055);
        lemma_undo(b, p, inv, m, 887285111055);
        assert(a % m == (((a * p) % m) * inv) % m);
        assert(b % m == (((b * p) % m) * inv) % m);
        vstd::arithmetic::div_mod::lemma_small_mod(a as nat, m as nat);
        vstd::arithmetic::div_mod::lemma_small_mod(b as nat, m as nat);
    }
}

proof fn lemma_undo(a: int, p: int, inv: int, m: int, k: int)
    requires
        m > 0,
        p * inv == 1 + k * m,
    ensures
        a % m == (((a * p) % m) * inv) % m,
{
    vstd::arithmetic::div_mod::lemma_mul_mod_noop_left(a * p, inv, m);
    assert((a * p) * inv == a + (a * k) * m) by (nonlinear_arith)
        requires
            p * inv == 1 + k * m,
    ;
    vstd::arithmetic::div_mod::lemma_mod_multiples_vanish(a * k, a, m);
    assert((a + (a * k) * m) % m == a % m) by {
        assert(m * (a * k) + a == a + (a * k) * m) by (nonlinear_arith);
    }
}

/// Changing one byte changes the hash, whatever was hashed before it.
pub proof fn fnv_sees_every_byte(h: u64, s: Seq<u8>, i: int, b: u8)
    requires
        0 <= i < s.len(),
        b != s[i],
    ensures
        fnv_from(h, s.update(i, b)) != fnv_from(h, s),
    decreases s.len(),
{
    let t = s.update(i, b);
    if i == s.len() - 1 {
        assert(t.drop_last() =~= s.drop_last());
        let g = fnv_from(h, s.drop_last());
        lemma_fnv_step(g, g, s[i], b);
    } else {
        assert(t.drop_last() =~= s.drop_last().update(i, b));
        fnv_sees_every_byte(h, s.drop_last(), i, b);
        lemma_fnv_step(
            fnv_from(h, t.drop_last()),
            fnv_from(h, s.drop_last()),
            s.last(),
            s.last(),
        );
    }
}

/// Hashes that differ stay different when the same bytes follow.
pub proof fn fnv_keeps_hashes_apart(h: u64, g: u64, s: Seq<u8>)
    requires
        h != g,
    ensures
        fnv_from(h, s) != fnv_from(g, s),
    decreases s.len(),
{
    if s.len() > 0 {
        fnv_keeps_hashes_apart(h, g, s.drop_last());
        lemma_fnv_step(
            fnv_from(h, s.drop_last()),
            fnv_from(g, s.drop_last()),
            s.last(),
            s.last(),
        );
    }
}

/// Appends a 32-bit number, lowest byte first.
pub fn write_u32_le(out: &mut Vec<u8>, v: u32)
    ensures
        final(out)@ == old(out)@ + le(v as int, 4),
{
    proof {
        reveal_with_fuel(le, 5);
    }
    out.push((v % 256) as u8);
    out.push((v / 256 % 256) as u8);
    out.push((v / 256 / 256 % 256) as u8);
    out.push((v / 256 / 256 / 256 % 256) as u8);
    assert(out@ =~= old(out)@ + le(v as int, 4));
}

/// Appends a 64-bit number, lowest byte first.
pub fn write_u64_le(out: &mut Vec<u8>, v: u64)
    ensures
        final(out)@ == old(out)@ + le(v as int, 8),
{
    let ghost start = out@;
    let mut x: u64 = v;
    let mut k: u32 = 0;
    while k < 8
        invariant
            k <= 8,
            out@ + le(x as int, (8 - k) as nat) == start + le(v as int, 8),
        decreases 8 - k,
    {
        let ghost before = out@;
        out.push((x % 256) as u8);
        assert(out@ + le(x as int / 256, (8 - k - 1) as nat) =~= before + le(
            x as int,
            (8 - k) as nat,
        ));
        x = x / 256;
        k += 1;
    }
    assert(out@ + Seq::<u8>::empty() =~= out@);
}

/// The input ends too early.
#[derive(Clone, Copy, Debug, PartialEq, Eq, Structural)]
pub struct UnexpectedEof;

/// The 32-bit number at `pos`, lowest byte first.
pub fn read_u32_le(bytes: &[u8], pos: usize) -> (r: Result<u32, UnexpectedEof>)
    requires
        pos <= bytes@.len(),
    ensures
        match r {
            Err(_) => bytes@.len() < pos + 4,
            Ok(v) => pos + 4 <= bytes@.len() && v == from_le(
                bytes@.subrange(pos as int, pos + 4),
            ),
        },
{
    if bytes.len() - pos < 4 {
        return Err(UnexpectedEof);
    }
    let ghost s = bytes@.subrange(pos as int, pos + 4);
    proof {
        reveal_with_fuel(from_le, 5);
        assert(s.skip(1).skip(1) =~= s.skip(2));
        assert(s.skip(2).skip(1) =~= s.skip(3));
        assert(s.skip(3).skip(1).len() == 0);
    }
    Ok(
        bytes[pos] as u32 + 256 * (bytes[pos + 1] as u32 + 256 * (bytes[pos + 2] as u32 + 256 * (
        bytes[pos + 3] as u32))),
    )
}

/// The 64-bit number at `pos`, lowest byte first.
pub fn read_u64_le(bytes: &[u8], pos: usize) -> (r: Result<u64, UnexpectedEof>)
    requires
        pos <= bytes@.len(),
    ensures
        match r {
            Err(_) => bytes@.len() < pos + 8,
            Ok(v) => pos + 8 <= bytes@.len() && v == from_le(
                bytes@.subrange(pos as int, pos + 8),
            ),
        },
{
    if bytes.len() - pos < 8 {
        return Err(UnexpectedEof);
    }
    let ghost s = bytes@.subrange(pos as int, pos + 8);
    let lo: u32 = match read_u32_le(bytes, pos) {
        Ok(v) => v,
        Err(e) => {
            return Err(e);
        },
    };
    let hi: u32 = match read_u32_le(bytes, pos + 4) {
        Ok(v) => v,
        Err(e) => {
            return Err(e);
        },
    };
    proof {
        lemma_from_le_split(s, 4);
        lemma_limits();
        assert(s.take(4) =~= bytes@.subrange(pos as int, pos + 4));
        assert(s.skip(4) =~= bytes@.subrange(pos + 4, pos + 8));
    }
    Ok(lo as u64 + 0x1_0000_0000 * (hi as u64))
}

proof fn lemma_from_le_split(s: Seq<u8>, n: int)
    requires
        0 <= n <= s.len(),
    ensures
        from_le(s) == from_le(s.take(n)) + bytes_limit(n as nat) * from_le(s.skip(n)),
    decreases n,
{
    if n == 0 {
        assert(s.skip(0) =~= s);
        assert(bytes_limit(0) * from_le(s) == from_le(s)) by (nonlinear_arith)
            requires
                bytes_limit(0) == 1,
        ;
    } else {
        lemma_from_le_split(s.skip(1), n - 1);
        assert(s.take(n).skip(1) =~= s.skip(1).take(n - 1));
        assert(s.skip(1).skip(n - 1) =~= s.skip(n));
        let b = bytes_limit((n - 1) as nat);
        let t = from_le(s.skip(n));
        assert(256 * (b * t) == (256 * b) * t) by (nonlinear_arith);
    }
}

/// The name of the checkpoint of a scene.
pub open spec fn ckpt_name(scene_hash: u64) -> Seq<char> {
    "checkpoint_"@ + hex_text(scene_hash as nat, 16) + ".bin"@
}

/// The name of the checkpoint of a scene.
pub fn ckpt_path(scene_hash: u64) -> (r: String)
    ensures
        r@ == ckpt_name(scene_hash),
{
    let mut c = chars_of("checkpoint_");
    let mut hex = to_hex(scene_hash, 16);
    c.append(&mut hex);
    let mut end = chars_of(".bin");
    c.append(&mut end);
    assert(c@ =~= ckpt_name(scene_hash));
    string_of(&c)
}

/// Scenes with different hashes have checkpoints of different names.
pub proof fn checkpoints_do_not_collide(a: u64, b: u64)
    requires
        ckpt_name(a) == ckpt_name(b),
    ensures
        a == b,
{
    let x = hex_text(a as nat, 16);
    let y = hex_text(b as nat, 16);
    let p = "checkpoint_"@;
    lemma_hex_len(a as nat, 16);
    lemma_hex_len(b as nat, 16);
    assert(ckpt_name(a).subrange(p.len() as int, p.len() as int + 16) =~= x);
    assert(ckpt_name(b).subrange(p.len() as int, p.len() as int + 16) =~= y);
    assert(vstd::arithmetic::power::pow(16, 16) == 0x1_0000_0000_0000_0000) by {
        reveal(vstd::arithmetic::power::pow);
        reveal_with_fuel(vstd::arithmetic::power::pow, 17);
    }
    crate::decimal::hex_text_is_unique(a as nat, b as nat, 16);
}

proof fn lemma_hex_len(n: nat, k: nat)
    ensures
        hex_text(n, k).len() == k,
    decreases k,
{
    if k > 0 {
        lemma_hex_len(n / 16, (k - 1) as nat);
    }
}

/// The name of a checkpoint while it is being written.
pub fn tmp_path(path: &str) -> (r: String)
    ensures
        r@ == path@ + ".tmp"@,
{
    let mut c = chars_of(path);
    let mut end = chars_of(".tmp");
    c.append(&mut end);
    assert(c@ =~= path@ + ".tmp"@);
    string_of(&c)
}

/// An accumulated colour: the bits of its three components.
#[derive(Clone, Copy, Debug, PartialEq, Eq, Structural)]
pub struct ColorBits {
    pub r: u64,
    pub g: u64,
    pub b: u64,
}

/// The components of colours, one after the other.
pub open spec fn components(acc: Seq<ColorBits>) -> Seq<u64> {
    Seq::new(
        3 * acc.len(),
        |i: int|
            if i % 3 == 0 {
                acc[i / 3].r
            } else if i % 3 == 1 {
                acc[i / 3].g
            } else {
                acc[i / 3].b
            },
    )
}

/// Numbers as eight bytes each.
pub open spec fn le_words(v: Seq<u64>) -> Seq<u8>
    decreases v.len(),
{
    if v.len() == 0 {
        Seq::empty()
    } else {
        le_words(v.drop_last()) + le(v.last() as int, 8)
    }
}

/// `n` numbers of eight bytes each.
pub open spec fn words_of(s: Seq<u8>, n: int) -> Seq<u64> {
    Seq::new(n as nat, |i: int| from_le(s.subrange(8 * i, 8 * i + 8)) as u64)
}

/// Everything in a checkpoint but the checksum.
pub open spec fn checkpoint_body(
    scene_hash: u64,
    w: int,
    h: int,
    next_id: u64,
    acc: Seq<ColorBits>,
    acc_w: Seq<u64>,
) -> Seq<u8> {
    magic() + le(CKPT_VERSION as int, 4) + le(scene_hash as int, 8) + le(w, 4) + le(h, 4) + le(
        next_id as int,
        8,
    ) + le_words(components(acc)) + le_words(acc_w)
}

/// A checkpoint.
pub open spec fn checkpoint_file(
    scene_hash: u64,
    w: int,
    h: int,
    next_id: u64,
    acc: Seq<ColorBits>,
    acc_w: Seq<u64>,
) -> Seq<u8> {
    let body = checkpoint_body(scene_hash, w, h, next_id, acc, acc_w);
    body + le(fnv(body) as int, 8)
}

/// What is read from a checkpoint: the next task, the components of the colours, and the weights.
pub struct Resumed {
    pub next_id: u64,
    pub colors: Seq<u64>,
    pub weights: Seq<u64>,
}

/// Reading a checkpoint for a scene of this hash and size. Nothing is used unless everything
/// matches, the checksum is right and nothing follows it; a file that ends before that is an
/// error.
pub open spec fn resumed(b: Seq<u8>, scene_hash: u64, w: int, h: int) -> Result<
    Option<Resumed>,
    UnexpectedEof,
> {
    let n = w * h;
    let end = 36 + 32 * n;
    if b.len() < 8 {
        Err(UnexpectedEof)
    } else if b.take(8) != magic() {
        Ok(None)
    } else if b.len() < 12 {
        Err(UnexpectedEof)
    } else if from_le(b.subrange(8, 12)) != CKPT_VERSION {
        Ok(None)
    } else if b.len() < 20 {
        Err(UnexpectedEof)
    } else if from_le(b.subrange(12, 20)) != scene_hash {
        Ok(None)
    } else if b.len() < 28 {
        Err(UnexpectedEof)
    } else if from_le(b.subrange(20, 24)) != w || from_le(b.subrange(24, 28)) != h {
        Ok(None)
    } else if b.len() < end + 8 {
        Err(UnexpectedEof)
    } else if from_le(b.subrange(end, end + 8)) != fnv(b.take(end)) || b.len() > end + 8 {
        Ok(None)
    } else {
        Ok(
            Some(
                Resumed {
                    next_id: from_le(b.subrange(28, 36)) as u64,
                    colors: words_of(b.subrange(36, 36 + 24 * n), 3 * n),
                    weights: words_of(b.subrange(36 + 24 * n, end), n),
                },
            ),
        )
    }
}

pub proof fn lemma_le_words(v: Seq<u64>)
    ensures
        le_words(v).len() == 8 * v.len(),
        words_of(le_words(v), v.len() as int) == v,
    decreases v.len(),
{
    if v.len() > 0 {
        let u = v.drop_last();
        lemma_le_words(u);
        lemma_le(v.last() as int, 8);
        lemma_limits();
        let s = le_words(v);
        assert forall|i: int| 0 <= i < v.len() implies words_of(s, v.len() as int)[i] == v[i] by {
            if i < u.len() {
                assert(s.subrange(8 * i, 8 * i + 8) =~= le_words(u).subrange(8 * i, 8 * i + 8));
                assert(words_of(le_words(u), u.len() as int)[i] == u[i]);
            } else {
                assert(s.subrange(8 * i, 8 * i + 8) =~= le(v.last() as int, 8));
            }
        }
        assert(words_of(s, v.len() as int) =~= v);
    } else {
        assert(words_of(le_words(v), 0) =~= v);
    }
}

proof fn lemma_le_words_push(v: Seq<u64>, x: u64)
    ensures
        le_words(v.push(x)) == le_words(v) + le(x as int, 8),
{
    assert(v.push(x).drop_last() =~= v);
}

/// Reading a checkpoint gives back what was written.
pub proof fn checkpoint_round_trip(
    scene_hash: u64,
    w: int,
    h: int,
    next_id: u64,
    acc: Seq<ColorBits>,
    acc_w: Seq<u64>,
)
    requires
        0 <= w <= u32::MAX,
        0 <= h <= u32::MAX,
        acc.len() == w * h,
        acc_w.len() == w * h,
    ensures
        resumed(checkpoint_file(scene_hash, w, h, next_id, acc, acc_w), scene_hash, w, h) == Ok::<
            Option<Resumed>,
            UnexpectedEof,
        >(Some(Resumed { next_id, colors: components(acc), weights: acc_w })),
{
    let b = checkpoint_file(scene_hash, w, h, next_id, acc, acc_w);
    let body = checkpoint_body(scene_hash, w, h, next_id, acc, acc_w);
    let n = w * h;
    let end = 36 + 32 * n;
    lemma_limits();
    lemma_le(CKPT_VERSION as int, 4);
    lemma_le(scene_hash as int, 8);
    lemma_le(w, 4);
    lemma_le(h, 4);
    lemma_le(next_id as int, 8);
    lemma_le(fnv(body) as int, 8);
    lemma_le_words(components(acc));
    lemma_le_words(acc_w);
    assert(b.take(8) =~= magic());
    assert(b.subrange(8, 12) =~= le(CKPT_VERSION as int, 4));
    assert(b.subrange(12, 20) =~= le(scene_hash as int, 8));
    assert(b.subrange(20, 24) =~= le(w, 4));
    assert(b.subrange(24, 28) =~= le(h, 4));
    assert(b.subrange(28, 36) =~= le(next_id as int, 8));
    assert(b.subrange(36, 36 + 24 * n) =~= le_words(components(acc)));
    assert(b.subrange(36 + 24 * n, end) =~= le_words(acc_w));
    assert(b.take(end) =~= body);
    assert(b.subrange(end, end + 8) =~= le(fnv(body) as int, 8));
}

/// A damaged checkpoint is never used: after a change of any single byte, a file that could be
/// read is passed over.
pub proof fn damaged_checkpoint_is_passed_over(
    b: Seq<u8>,
    scene_hash: u64,
    w: int,
    h: int,
    i: int,
    x: u8,
)
    requires
        0 <= w,
        0 <= h,
        resumed(b, scene_hash, w, h) matches Ok(Some(_)),
        0 <= i < b.len(),
        x != b[i],
    ensures
        resumed(b.update(i, x), scene_hash, w, h) == Ok::<Option<Resumed>, UnexpectedEof>(None),
{
    let c = b.update(i, x);
    let n = w * h;
    let end = 36 + 32 * n;
    assert(0 <= n) by (nonlinear_arith)
        requires
            n == w * h,
            0 <= w,
            0 <= h,
    ;
    if i < 8 {
        assert(c.take(8)[i] == x && b.take(8)[i] == b[i]);
    } else {
        assert(c.take(8) =~= b.take(8));
        if i < 12 {
            lemma_change_in(b, i, x, 8, 12);
        } else {
            assert(c.subrange(8, 12) =~= b.subrange(8, 12));
            if i < 20 {
                lemma_change_in(b, i, x, 12, 20);
            } else {
                assert(c.subrange(12, 20) =~= b.subrange(12, 20));
                if i < 24 {
                    lemma_change_in(b, i, x, 20, 24);
                } else {
                    assert(c.subrange(20, 24) =~= b.subrange(20, 24));
                    if i < 28 {
                        lemma_change_in(b, i, x, 24, 28);
                    } else {
                        assert(c.subrange(24, 28) =~= b.subrange(24, 28));
                        if i < end {
                            assert(c.subrange(end, end + 8) =~= b.subrange(end, end + 8));
                            assert(c.take(end) =~= b.take(end).update(i, x));
                            fnv_sees_every_byte(FNV_OFFSET, b.take(end), i, x);
                        } else {
                            assert(c.take(end) =~= b.take(end));
                            lemma_change_in(b, i, x, end, end + 8);
                        }
                    }
                }
            }
        }
    }
}

proof fn lemma_change_in(b: Seq<u8>, i: int, x: u8, from: int, to: int)
    requires
        0 <= from <= i < to <= b.len(),
        x != b[i],
    ensures
        from_le(b.update(i, x).subrange(from, to)) != from_le(b.subrange(from, to)),
{
    let s = b.subrange(from, to);
    let t = b.update(i, x).subrange(from, to);
    lemma_from_le(s);
    lemma_from_le(t);
    assert(s[i - from] == b[i] && t[i - from] == x);
}

/// A checkpoint with anything behind it is passed over, and one that is cut short is an error.
pub proof fn checkpoint_length_matters(b: Seq<u8>, scene_hash: u64, w: int, h: int, n: int, tail: Seq<u8>)
    requires
        0 <= w,
        0 <= h,
        resumed(b, scene_hash, w, h) matches Ok(Some(_)),
        0 <= n < b.len(),
        tail.len() > 0,
    ensures
        resumed(b.take(n), scene_hash, w, h) == Err::<Option<Resumed>, UnexpectedEof>(
            UnexpectedEof,
        ),
        resumed(b + tail, scene_hash, w, h) == Ok::<Option<Resumed>, UnexpectedEof>(None),
{
    let k = w * h;
    let end = 36 + 32 * k;
    assert(0 <= k) by (nonlinear_arith)
        requires
            k == w * h,
            0 <= w,
            0 <= h,
    ;
    let c = b.take(n);
    let d = b + tail;
    assert(d.take(8) =~= b.take(8));
    assert(d.subrange(8, 12) =~= b.subrange(8, 12));
    assert(d.subrange(12, 20) =~= b.subrange(12, 20));
    assert(d.subrange(20, 24) =~= b.subrange(20, 24));
    assert(d.subrange(24, 28) =~= b.subrange(24, 28));
    if n >= 8 {
        assert(c.take(8) =~= b.take(8));
    }
    if n >= 12 {
        assert(c.subrange(8, 12) =~= b.subrange(8, 12));
    }
    if n >= 20 {
        assert(c.subrange(12, 20) =~= b.subrange(12, 20));
    }
    if n >= 28 {
        assert(c.subrange(20, 24) =~= b.subrange(20, 24));
        assert(c.subrange(24, 28) =~= b.subrange(24, 28));
    }
}

/// The bytes of a checkpoint.
pub fn encode_checkpoint(
    scene_hash: u64,
    w: usize,
    h: usize,
    next_id: usize,
    acc: &[ColorBits],
    acc_w: &[u64],
) -> (out: Vec<u8>)
    ensures
        out@ == checkpoint_file(scene_hash, w as int, h as int, next_id as u64, acc@, acc_w@),
{
    let mut out: Vec<u8> = Vec::new();
    out.push(72);
    out.push(89);
    out.push(80);
    out.push(67);
    out.push(75);
    out.push(80);
    out.push(84);
    out.push(0);
    assert(out@ =~= magic());
    write_u32_le(&mut out, CKPT_VERSION);
    write_u64_le(&mut out, scene_hash);
    write_u32_le(&mut out, low_word(w));
    write_u32_le(&mut out, low_word(h));
    write_u64_le(&mut out, next_id as u64);
    let ghost head = out@;
    assert(components(acc@.take(0)) =~= Seq::<u64>::empty());
    let mut i: usize = 0;
    while i < acc.len()
        invariant
            i <= acc@.len(),
            out@ == head + le_words(components(acc@.take(i as int))),
        decreases acc@.len() - i,
    {
        let ghost before = out@;
        let p: ColorBits = acc[i];
        write_u64_le(&mut out, p.r);
        write_u64_le(&mut out, p.g);
        write_u64_le(&mut out, p.b);
        proof {
            let c = components(acc@.take(i as int));
            let d = components(acc@.take(i + 1));
            assert(d =~= c.push(p.r).push(p.g).push(p.b));
            lemma_le_words_push(c, p.r);
            lemma_le_words_push(c.push(p.r), p.g);
            lemma_le_words_push(c.push(p.r).push(p.g), p.b);
            assert(out@ =~= head + le_words(d));
        }
        i += 1;
    }
    assert(acc@.take(i as int) =~= acc@);
    let ghost mid = out@;
    let mut j: usize = 0;
    assert(acc_w@.take(0) =~= Seq::<u64>::empty());
    while j < acc_w.len()
        invariant
            j <= acc_w@.len(),
            out@ == mid + le_words(acc_w@.take(j as int)),
        decreases acc_w@.len() - j,
    {
        write_u64_le(&mut out, acc_w[j]);
        proof {
            let d = acc_w@.take(j + 1);
            assert(d.drop_last() =~= acc_w@.take(j as int));
            assert(out@ =~= mid + le_words(d));
        }
        j += 1;
    }
    assert(acc_w@.take(j as int) =~= acc_w@);
    assert(out@ =~= checkpoint_body(
        scene_hash,
        w as int,
        h as int,
        next_id as u64,
        acc@,
        acc_w@,
    ));
    let mut sum = Fnv64::new();
    sum.bytes(&out);
    write_u64_le(&mut out, sum.0);
    out
}

/// The low 32 bits of a size.
fn low_word(x: usize) -> (r: u32)
    ensures
        le(r as int, 4) == le(x as int, 4),
{
    let wide: u64 = x as u64;
    let low: u64 = wide % 0x1_0000_0000;
    proof {
        reveal_with_fuel(le, 5);
        let q = (wide / 0x1_0000_0000) as int;
        let l = low as int;
        let v = wide as int;
        assert(v == l + 0x1_0000_0000 * q);
        assert(v / 256 == l / 256 + 0x100_0000 * q);
        assert(v / 256 / 256 == l / 256 / 256 + 0x1_0000 * q);
        assert(v / 256 / 256 / 256 == l / 256 / 256 / 256 + 0x100 * q);
        assert(le(l, 4) =~= le(v, 4));
    }
    low as u32
}

/// What is read from a checkpoint.
pub struct Checkpoint {
    pub next_id: u64,
    pub acc: Vec<ColorBits>,
    pub acc_w: Vec<u64>,
}

/// Reads a checkpoint for a scene of this hash and size.
pub fn decode_checkpoint(bytes: &[u8], scene_hash: u64, w: usize, h: usize) -> (r: Result<
    Option<Checkpoint>,
    UnexpectedEof,
>)
    requires
        w * h <= usize::MAX,
    ensures
        match resumed(bytes@, scene_hash, w as int, h as int) {
            Err(e) => r == Err::<Option<Checkpoint>, UnexpectedEof>(e),
            Ok(None) => r matches Ok(None),
            Ok(Some(c)) => r matches Ok(Some(d)) && d.next_id == c.next_id && components(d.acc@)
                == c.colors && d.acc_w@ == c.weights && d.acc@.len() == w * h,
        },
{
    let size: usize = bytes.len();
    if size < 8 {
        return Err(UnexpectedEof);
    }
    let right_magic: bool = bytes[0] == 72 && bytes[1] == 89 && bytes[2] == 80 && bytes[3] == 67
        && bytes[4] == 75 && bytes[5] == 80 && bytes[6] == 84 && bytes[7] == 0;
    proof {
        let m = magic();
        let t = bytes@.take(8);
        if right_magic {
            assert(t =~= m);
        } else if t == m {
            assert(t[0] == m[0] && t[1] == m[1] && t[2] == m[2] && t[3] == m[3] && t[4] == m[4]
                && t[5] == m[5] && t[6] == m[6] && t[7] == m[7]);
        }
    }
    if !right_magic {
        return Ok(None);
    }
    match read_u32_le(bytes, 8) {
        Err(e) => {
            return Err(e);
        },
        Ok(v) => {
            if v != CKPT_VERSION {
                return Ok(None);
            }
        },
    }
    match read_u64_le(bytes, 12) {
        Err(e) => {
            return Err(e);
        },
        Ok(v) => {
            if v != scene_hash {
                return Ok(None);
            }
        },
    }
    let fw: u32 = match read_u32_le(bytes, 20) {
        Err(e) => {
            return Err(e);
        },
        Ok(v) => v,
    };
    let fh: u32 = match read_u32_le(bytes, 24) {
        Err(e) => {
            return Err(e);
        },
        Ok(v) => v,
    };
    if fw as usize != w || fh as usize != h {
        return Ok(None);
    }
    let n: usize = w * h;
    if size < 44 || (size - 44) / 32 < n {
        return Err(UnexpectedEof);
    }
    let end: usize = 36 + 32 * n;
    let stored: u64 = match read_u64_le(bytes, end) {
        Err(e) => {
            return Err(e);
        },
        Ok(v) => v,
    };
    let mut sum = Fnv64::new();
    let body = vstd::slice::slice_subrange(bytes, 0, end);
    assert(body@ =~= bytes@.take(end as int));
    sum.bytes(body);
    if stored != sum.0 || size > end + 8 {
        return Ok(None);
    }
    let next_id: u64 = match read_u64_le(bytes, 28) {
        Err(e) => {
            return Err(e);
        },
        Ok(v) => v,
    };
    let ghost colors = words_of(bytes@.subrange(36, 36 + 24 * n), 3 * n);
    let ghost weights = words_of(bytes@.subrange(36 + 24 * n, end as int), n as int);
    let mut acc: Vec<ColorBits> = Vec::new();
    let mut i: usize = 0;
    while i < n
        invariant
            i <= n,
            size == bytes@.len(),
            36 + 32 * n + 8 <= size,
            acc@.len() == i,
            colors == words_of(bytes@.subrange(36, 36 + 24 * n), 3 * n),
            components(acc@) == colors.take(3 * i),
        decreases n - i,
    {
        let at: usize = 36 + 24 * i;
        let (a, b, c) = match (
            read_u64_le(bytes, at),
            read_u64_le(bytes, at + 8),
            read_u64_le(bytes, at + 16),
        ) {
            (Ok(a), Ok(b), Ok(c)) => (a, b, c),
            _ => {
                return Err(UnexpectedEof);
            },
        };
        let ghost before = acc@;
        acc.push(ColorBits { r: a, g: b, b: c });
        proof {
            let s = bytes@.subrange(36, 36 + 24 * n);
            let k = 3 * i;
            assert(s.subrange(8 * k, 8 * k + 8) =~= bytes@.subrange(at as int, at + 8));
            assert(s.subrange(8 * (k + 1), 8 * (k + 1) + 8) =~= bytes@.subrange(at + 8, at + 16));
            assert(s.subrange(8 * (k + 2), 8 * (k + 2) + 8) =~= bytes@.subrange(at + 16, at + 24));
            assert(colors[k] == a && colors[k + 1] == b && colors[k + 2] == c);
            assert(components(acc@) =~= components(before).push(a).push(b).push(c));
            assert(components(acc@) =~= colors.take(3 * (i + 1)));
        }
        i += 1;
    }
    assert(colors.take(3 * n) =~= colors);
    let mut acc_w: Vec<u64> = Vec::new();
    let mut j: usize = 0;
    while j < n
        invariant
            j <= n,
            size == bytes@.len(),
            36 + 32 * n + 8 <= size,
            end == 36 + 32 * n,
            weights == words_of(bytes@.subrange(36 + 24 * n, end as int), n as int),
            acc_w@ == weights.take(j as int),
        decreases n - j,
    {
        let at: usize = 36 + 24 * n + 8 * j;
        let v: u64 = match read_u64_le(bytes, at) {
            Ok(v) => v,
            Err(e) => {
                return Err(e);
            },
        };
        acc_w.push(v);
        proof {
            let s = bytes@.subrange(36 + 24 * n, end as int);
            assert(s.subrange(8 * j, 8 * j + 8) =~= bytes@.subrange(at as int, at + 8));
            assert(acc_w@ =~= weights.take(j + 1));
        }
        j += 1;
    }
    assert(weights.take(n as int) =~= weights);
    Ok(Some(Checkpoint { next_id, acc, acc_w }))
}

/// A file: its path, and its bytes if it could be read.
pub struct SceneFile {
    pub path: String,
    pub data: Option<Vec<u8>>,
}

pub struct FileModel {
    pub path: Seq<char>,
    pub data: Option<Seq<u8>>,
}

/// The bytes of a file that may not have been read.
pub open spec fn opt_bytes(d: Option<Vec<u8>>) -> Option<Seq<u8>> {
    match d {
        Some(b) => Some(b@),
        None => None,
    }
}

impl View for SceneFile {
    type V = FileModel;

    open spec fn view(&self) -> FileModel {
        FileModel { path: self.path@, data: opt_bytes(self.data) }
    }
}

pub open spec fn file_models(v: Seq<SceneFile>) -> Seq<FileModel> {
    v.map_values(|f: SceneFile| f@)
}

/// What is rendered.
pub enum SceneSource {
    /// A scene file: its text, and the files that it refers to, in their order.
    Xml { xml: String, files: Vec<SceneFile> },
    /// The built-in scene, with the environment map asked for.
    Builtin { env: Option<SceneFile> },
}

pub enum SourceModel {
    Xml { xml: Seq<char>, files: Seq<FileModel> },
    Builtin { env: Option<FileModel> },
}

impl View for SceneSource {
    type V = SourceModel;

    open spec fn view(&self) -> SourceModel {
        match self {
            SceneSource::Xml { xml, files } => SourceModel::Xml {
                xml: xml@,
                files: file_models(files@),
            },
            SceneSource::Builtin { env } => SourceModel::Builtin {
                env: match env {
                    Some(f) => Some(f@),
                    None => None,
                },
            },
        }
    }
}

/// Why there is no scene to hash.
pub enum SourceError {
    /// The scene file could not be read.
    Unreadable,
    /// The scene file is not text.
    NotText,
    /// The text is not a document.
    Malformed(SceneError),
}

pub enum SourceErrorModel {
    Unreadable,
    NotText,
    Malformed(ErrorModel),
}

impl View for SourceError {
    type V = SourceErrorModel;

    open spec fn view(&self) -> SourceErrorModel {
        match self {
            SourceError::Unreadable => SourceErrorModel::Unreadable,
            SourceError::NotText => SourceErrorModel::NotText,
            SourceError::Malformed(e) => SourceErrorModel::Malformed(e@),
        }
    }
}

/// The bytes at a path, as far as `disk` tells: those of the first file there with this path.
pub open spec fn data_at(disk: Seq<FileModel>, path: Seq<char>) -> Option<Seq<u8>>
    decreases disk.len(),
{
    if disk.len() == 0 {
        None
    } else if disk[0].path == path {
        disk[0].data
    } else {
        data_at(disk.skip(1), path)
    }
}

/// The file at a path, as far as `disk` tells.
pub open spec fn file_at(disk: Seq<FileModel>, path: Seq<char>) -> FileModel {
    FileModel { path, data: data_at(disk, path) }
}

/// The files at these paths, in their order.
pub open spec fn files_at(disk: Seq<FileModel>, paths: Seq<Seq<char>>) -> Seq<FileModel> {
    paths.map_values(|p: Seq<char>| file_at(disk, p))
}

/// A scene text in a directory, with the files that it refers to as they are on `disk`.
pub open spec fn xml_source_of(xml: Seq<char>, base: Seq<char>, disk: Seq<FileModel>) -> Result<
    SourceModel,
    ErrorModel,
> {
    match tree(document(xml)) {
        Err(e) => Err(e),
        Ok(n) => Ok(SourceModel::Xml { xml, files: files_at(disk, files_in(n, base)) }),
    }
}

/// What these settings render, with the files as they are on `disk`. Only the scene file itself
/// has to be there.
pub open spec fn source_of(c: RenderConfig, disk: Seq<FileModel>) -> Result<
    SourceModel,
    SourceErrorModel,
> {
    match c.scene_path {
        Some(p) => match data_at(disk, p@) {
            None => Err(SourceErrorModel::Unreadable),
            Some(d) => if !valid_utf8(d) {
                Err(SourceErrorModel::NotText)
            } else {
                match xml_source_of(decode_utf8(d), parent_of(p@), disk) {
                    Err(e) => Err(SourceErrorModel::Malformed(e)),
                    Ok(s) => Ok(s),
                }
            },
        },
        None => Ok(
            SourceModel::Builtin {
                env: match c.env_map_path {
                    Some(p) => Some(file_at(disk, p@)),
                    None => None,
                },
            },
        ),
    }
}

fn find_file(disk: &Vec<SceneFile>, path: &str) -> (r: Option<Vec<u8>>)
    ensures
        opt_bytes(r) == data_at(file_models(disk@), path@),
{
    let ghost all = file_models(disk@);
    let mut i: usize = 0;
    assert(all.skip(0) =~= all);
    while i < disk.len()
        invariant
            i <= disk@.len(),
            all == file_models(disk@),
            data_at(all, path@) == data_at(all.skip(i as int), path@),
        decreases disk@.len() - i,
    {
        let ghost rest = all.skip(i as int);
        assert(rest[0] == disk@[i as int]@);
        if same_str(disk[i].path.as_str(), path) {
            return match &disk[i].data {
                Some(d) => Some(d.clone()),
                None => None,
            };
        }
        assert(rest.skip(1) =~= all.skip(i + 1));
        i += 1;
    }
    None
}

/// A scene text in a directory, with the files that it refers to: those that it lists, in their
/// order, each with the bytes that `disk` has for its path.
pub fn xml_source(xml: String, base_dir: &str, disk: &Vec<SceneFile>) -> (r: Result<
    SceneSource,
    SceneError,
>)
    ensures
        match xml_source_of(xml@, base_dir@, file_models(disk@)) {
            Ok(s) => r matches Ok(x) && x@ == s,
            Err(e) => r matches Err(x) && x@ == e,
        },
{
    let paths = match referenced_files(xml.as_str(), base_dir) {
        Err(e) => {
            return Err(e);
        },
        Ok(v) => v,
    };
    let ghost all = files_at(file_models(disk@), strings(paths@));
    let mut files: Vec<SceneFile> = Vec::new();
    let mut i: usize = 0;
    assert(file_models(files@) =~= all.take(0));
    while i < paths.len()
        invariant
            i <= paths@.len(),
            all == files_at(file_models(disk@), strings(paths@)),
            file_models(files@) == all.take(i as int),
        decreases paths@.len() - i,
    {
        let data = find_file(disk, paths[i].as_str());
        let ghost before = files@;
        let f = SceneFile { path: copied(paths[i].as_str()), data };
        files.push(f);
        proof {
            assert(strings(paths@)[i as int] == paths@[i as int]@);
            assert(f@ == all[i as int]);
            assert(file_models(files@) =~= file_models(before).push(f@));
            assert(all.take(i + 1) =~= all.take(i as int).push(all[i as int]));
        }
        i += 1;
    }
    assert(all.take(i as int) =~= all);
    Ok(SceneSource::Xml { xml, files })
}

/// What these settings render, with the files as they are on `disk`.
pub fn scene_source(config: &RenderConfig, disk: &Vec<SceneFile>) -> (r: Result<
    SceneSource,
    SourceError,
>)
    ensures
        match source_of(*config, file_models(disk@)) {
            Ok(s) => r matches Ok(x) && x@ == s,
            Err(e) => r matches Err(x) && x@ == e,
        },
{
    match &config.scene_path {
        Some(p) => {
            let bytes = match find_file(disk, p.as_str()) {
                None => {
                    return Err(SourceError::Unreadable);
                },
                Some(b) => b,
            };
            let xml = match utf8_text(&bytes) {
                None => {
                    return Err(SourceError::NotText);
                },
                Some(x) => x,
            };
            let base = directory_of(p.as_str());
            match xml_source(xml, base.as_str(), disk) {
                Err(e) => Err(SourceError::Malformed(e)),
                Ok(s) => Ok(s),
            }
        },
        None => match &config.env_map_path {
            Some(p) => {
                let data = find_file(disk, p.as_str());
                let f = SceneFile { path: copied(p.as_str()), data };
                Ok(SceneSource::Builtin { env: Some(f) })
            },
            None => Ok(SceneSource::Builtin { env: None }),
        },
    }
}

/// A file as it is hashed: its path, and its bytes or that there are none.
pub open spec fn file_key(f: FileModel) -> Seq<u8> {
    field(encode_utf8(f.path)) + (match f.data {
        Some(d) => le(1, 8) + field(d),
        None => le(0, 8),
    })
}

/// Files as they are hashed.
pub open spec fn files_key(f: Seq<FileModel>) -> Seq<u8>
    decreases f.len(),
{
    if f.len() == 0 {
        Seq::empty()
    } else {
        file_key(f[0]) + files_key(f.skip(1))
    }
}

/// What is rendered, as it is hashed.
pub open spec fn source_key(s: SourceModel) -> Seq<u8> {
    match s {
        SourceModel::Xml { xml, files } => field(encode_utf8("xml"@)) + field(encode_utf8(xml))
            + files_key(files),
        SourceModel::Builtin { env } => field(encode_utf8("builtin:default"@)) + (match env {
            Some(f) => le(1, 8) + file_key(f),
            None => le(0, 8),
        }),
    }
}

/// The settings that change what is accumulated or how the tasks are numbered.
pub open spec fn render_settings(c: RenderConfig) -> Seq<u64> {
    seq![
        c.width as u64,
        c.height as u64,
        c.spp as u64,
        c.max_depth as u64,
        c.rr_depth as u64,
        c.seed,
        c.adaptive_enabled as u64,
        c.adaptive_min_spp as u64,
        c.adaptive_threshold,
        c.tile as u64,
        c.morton_enabled as u64,
    ]
}

/// Everything that a scene hash covers.
pub open spec fn scene_key(c: RenderConfig, s: SourceModel) -> Seq<u8> {
    field(encode_utf8("tinypt-scene-hash-v1"@)) + field(encode_utf8(VERSION@)) + le(
        RENDER_REVISION as int,
        8,
    ) + source_key(s) + le_words(render_settings(c))
}

fn hash_file(h: &mut Fnv64, f: &SceneFile)
    ensures
        final(h).0 == fnv_from(old(h).0, file_key(f@)),
{
    let ghost start = h.0;
    h.field(f.path.as_str().as_bytes());
    let ghost a = field(encode_utf8(f.path@));
    match &f.data {
        Some(d) => {
            h.u64(1);
            h.field(d);
            proof {
                lemma_fnv_concat(fnv_from(start, a), le(1, 8), field(d@));
                lemma_fnv_concat(start, a, le(1, 8) + field(d@));
            }
        },
        None => {
            h.u64(0);
            proof {
                lemma_fnv_concat(start, a, le(0, 8));
            }
        },
    }
}

fn hash_source(h: &mut Fnv64, s: &SceneSource)
    ensures
        final(h).0 == fnv_from(old(h).0, source_key(s@)),
{
    let ghost start = h.0;
    match s {
        SceneSource::Xml { xml, files } => {
            h.field("xml".as_bytes());
            h.field(xml.as_str().as_bytes());
            let ghost a = field(encode_utf8("xml"@));
            let ghost b = field(encode_utf8(xml@));
            proof {
                lemma_fnv_concat(start, a, b);
            }
            let ghost mid = h.0;
            let ghost all = file_models(files@);
            let mut i: usize = 0;
            assert(all.skip(0) =~= all);
            while i < files.len()
                invariant
                    i <= files@.len(),
                    all == file_models(files@),
                    fnv_from(h.0, files_key(all.skip(i as int))) == fnv_from(mid, files_key(all)),
                decreases files@.len() - i,
            {
                let ghost now = h.0;
                hash_file(h, &files[i]);
                proof {
                    let rest = all.skip(i as int);
                    assert(rest[0] == files@[i as int]@);
                    assert(rest.skip(1) =~= all.skip(i + 1));
                    lemma_fnv_concat(now, file_key(rest[0]), files_key(rest.skip(1)));
                }
                i += 1;
            }
            proof {
                lemma_fnv_concat(start, a + b, files_key(all));
            }
        },
        SceneSource::Builtin { env } => {
            h.field("builtin:default".as_bytes());
            let ghost a = field(encode_utf8("builtin:default"@));
            match env {
                Some(f) => {
                    h.u64(1);
                    hash_file(h, f);
                    proof {
                        lemma_fnv_concat(fnv_from(start, a), le(1, 8), file_key(f@));
                        lemma_fnv_concat(start, a, le(1, 8) + file_key(f@));
                    }
                },
                None => {
                    h.u64(0);
                    proof {
                        lemma_fnv_concat(start, a, le(0, 8));
                    }
                },
            }
        },
    }
}

fn flag(b: bool) -> (r: u64)
    ensures
        r == b as u64,
{
    if b {
        1
    } else {
        0
    }
}

/// The hash of a source under these settings: of the version, of what is rendered, and of the
/// settings that change what is accumulated or how the tasks are numbered.
pub fn hash_of(config: &RenderConfig, source: &SceneSource) -> (r: u64)
    ensures
        r == fnv(scene_key(*config, source@)),
{
    let mut h = Fnv64::new();
    h.field("tinypt-scene-hash-v1".as_bytes());
    h.field(VERSION.as_bytes());
    h.u64(RENDER_REVISION as u64);
    let ghost a = field(encode_utf8("tinypt-scene-hash-v1"@));
    let ghost b = field(encode_utf8(VERSION@));
    let ghost c = le(RENDER_REVISION as int, 8);
    proof {
        lemma_fnv_concat(FNV_OFFSET, a, b);
        lemma_fnv_concat(FNV_OFFSET, a + b, c);
    }
    hash_source(&mut h, source);
    proof {
        lemma_fnv_concat(FNV_OFFSET, a + b + c, source_key(source@));
    }
    let ghost mid = h.0;
    let settings: [u64; 11] = [
        config.width as u64,
        config.height as u64,
        config.spp as u64,
        config.max_depth as u64,
        config.rr_depth as u64,
        config.seed,
        flag(config.adaptive_enabled),
        config.adaptive_min_spp as u64,
        config.adaptive_threshold,
        config.tile as u64,
        flag(config.morton_enabled),
    ];
    let ghost all = render_settings(*config);
    assert(settings@ =~= all);
    assert(all.take(0) =~= Seq::<u64>::empty());
    let mut i: usize = 0;
    while i < 11
        invariant
            i <= 11,
            settings@ == all,
            all.len() == 11,
            h.0 == fnv_from(mid, le_words(all.take(i as int))),
        decreases 11 - i,
    {
        h.u64(settings[i]);
        proof {
            assert(all.take(i + 1) =~= all.take(i as int).push(all[i as int]));
            lemma_le_words_push(all.take(i as int), all[i as int]);
            lemma_fnv_concat(mid, le_words(all.take(i as int)), le(all[i as int] as int, 8));
        }
        i += 1;
    }
    proof {
        assert(all.take(11) =~= all);
        lemma_fnv_concat(FNV_OFFSET, a + b + c + source_key(source@), le_words(all));
    }
    h.0
}

/// The hash that a checkpoint must match, or why there is none.
pub open spec fn hash_outcome(c: RenderConfig, disk: Seq<FileModel>) -> Result<
    u64,
    SourceErrorModel,
> {
    match source_of(c, disk) {
        Ok(s) => Ok(fnv(scene_key(c, s))),
        Err(e) => Err(e),
    }
}

/// The hash that a checkpoint must match: of the version, of what is rendered with the files as
/// they are on `disk`, and of the settings that change what is accumulated or how the tasks are
/// numbered.
pub fn scene_hash(config: &RenderConfig, disk: &Vec<SceneFile>) -> (r: Result<u64, SourceError>)
    ensures
        match hash_outcome(*config, file_models(disk@)) {
            Ok(h) => r matches Ok(x) && x == h,
            Err(e) => r matches Err(x) && x@ == e,
        },
{
    match scene_source(config, disk) {
        Ok(s) => Ok(hash_of(config, &s)),
        Err(e) => Err(e),
    }
}

/// Whether two settings agree in all but what is done with the accumulated image: output path,
/// denoising, tone mapping, exposure, and when checkpoints are written and what they match.
pub open spec fn accumulates_the_same(a: RenderConfig, b: RenderConfig) -> bool {
    &&& a.width == b.width
    &&& a.height == b.height
    &&& a.spp == b.spp
    &&& a.max_depth == b.max_depth
    &&& a.rr_depth == b.rr_depth
    &&& a.tile == b.tile
    &&& opt_text(a.env_map_path) == opt_text(b.env_map_path)
    &&& opt_text(a.scene_path) == opt_text(b.scene_path)
    &&& a.adaptive_enabled == b.adaptive_enabled
    &&& a.adaptive_min_spp == b.adaptive_min_spp
    &&& a.adaptive_threshold == b.adaptive_threshold
    &&& a.morton_enabled == b.morton_enabled
    &&& a.seed == b.seed
}

/// Settings that only concern what is done with the accumulated image do not change the hash,
/// nor whether there is one: output path, denoising, tone mapping, exposure, and when checkpoints
/// are written.
pub proof fn post_processing_does_not_matter(
    a: RenderConfig,
    b: RenderConfig,
    disk: Seq<FileModel>,
)
    requires
        accumulates_the_same(a, b),
    ensures
        hash_outcome(a, disk) == hash_outcome(b, disk),
{
    assert(render_settings(a) =~= render_settings(b));
}

/// There is no hash exactly if there is a scene file to render and it cannot be read, is not text
/// or is not a document. A file that the scene refers to, or an environment map, may be missing.
pub proof fn only_the_scene_file_has_to_be_there(c: RenderConfig, disk: Seq<FileModel>)
    ensures
        hash_outcome(c, disk) is Err <==> (c.scene_path matches Some(p) && !(data_at(
            disk,
            p@,
        ) matches Some(d) && valid_utf8(d) && tree(document(decode_utf8(d))) is Ok)),
{
}

/// Only the files that are rendered matter: if two disks have the same bytes for the scene file
/// and for every file that it refers to, or for the environment map, the hash is the same.
pub proof fn other_files_do_not_matter(
    c: RenderConfig,
    a: Seq<FileModel>,
    b: Seq<FileModel>,
)
    requires
        c.scene_path matches Some(p) ==> data_at(a, p@) == data_at(b, p@) && forall|i: int|
            0 <= i < scene_files(c, a).len() ==> data_at(a, #[trigger] scene_files(c, a)[i])
                == data_at(b, scene_files(c, a)[i]),
        c.scene_path is None && c.env_map_path is Some ==> data_at(a, c.env_map_path->Some_0@)
            == data_at(b, c.env_map_path->Some_0@),
    ensures
        hash_outcome(c, a) == hash_outcome(c, b),
{
    if let Some(p) = c.scene_path {
        let f = scene_files(c, a);
        assert(files_at(a, f) =~= files_at(b, f)) by {
            assert forall|i: int| 0 <= i < f.len() implies files_at(a, f)[i] == #[trigger] files_at(
                b,
                f,
            )[i] by {
                assert(data_at(a, f[i]) == data_at(b, f[i]));
            }
        }
    }
}

/// The files that the scene file refers to.
pub open spec fn scene_files(c: RenderConfig, disk: Seq<FileModel>) -> Seq<Seq<char>> {
    match c.scene_path {
        Some(p) => match data_at(disk, p@) {
            Some(d) => match tree(document(decode_utf8(d))) {
                Ok(n) => files_in(n, parent_of(p@)),
                Err(e) => Seq::empty(),
            },
            None => Seq::empty(),
        },
        None => Seq::empty(),
    }
}

proof fn lemma_split(a: Seq<u8>, x: Seq<u8>, b: Seq<u8>, y: Seq<u8>)
    requires
        a.len() == b.len(),
        a + x == b + y,
    ensures
        a == b,
        x == y,
{
    assert((a + x).take(a.len() as int) =~= a);
    assert((b + y).take(a.len() as int) =~= b);
    assert((a + x).skip(a.len() as int) =~= x);
    assert((b + y).skip(a.len() as int) =~= y);
}

/// The border of a field can be found again.
proof fn lemma_field_split(a: Seq<u8>, x: Seq<u8>, b: Seq<u8>, y: Seq<u8>)
    requires
        a.len() <= u64::MAX,
        b.len() <= u64::MAX,
        field(a) + x == field(b) + y,
    ensures
        a == b,
        x == y,
{
    let p = le(a.len() as int, 8);
    let q = le(b.len() as int, 8);
    lemma_le(a.len() as int, 8);
    lemma_le(b.len() as int, 8);
    lemma_limits();
    assert(field(a) + x =~= p + (a + x));
    assert(field(b) + y =~= q + (b + y));
    lemma_split(p, a + x, q, b + y);
    lemma_split(a, x, b, y);
}

/// Whether the lengths of a file fit in the hash.
pub open spec fn file_fits(f: FileModel) -> bool {
    encode_utf8(f.path).len() <= u64::MAX && (f.data matches Some(d) ==> d.len() <= u64::MAX)
}

proof fn lemma_file_split(f: FileModel, x: Seq<u8>, g: FileModel, y: Seq<u8>)
    requires
        file_fits(f),
        file_fits(g),
        file_key(f) + x == file_key(g) + y,
    ensures
        f == g,
        x == y,
{
    let a = encode_utf8(f.path);
    let b = encode_utf8(g.path);
    let fd = match f.data {
        Some(d) => le(1, 8) + field(d),
        None => le(0, 8),
    };
    let gd = match g.data {
        Some(d) => le(1, 8) + field(d),
        None => le(0, 8),
    };
    assert(file_key(f) + x =~= field(a) + (fd + x));
    assert(file_key(g) + y =~= field(b) + (gd + y));
    lemma_field_split(a, fd + x, b, gd + y);
    vstd::utf8::encode_utf8_decode_utf8(f.path);
    vstd::utf8::encode_utf8_decode_utf8(g.path);
    lemma_le(0, 8);
    lemma_le(1, 8);
    lemma_limits();
    let fr = match f.data {
        Some(d) => field(d) + x,
        None => x,
    };
    let gr = match g.data {
        Some(d) => field(d) + y,
        None => y,
    };
    let fm: int = if f.data is Some {
        1
    } else {
        0
    };
    let gm: int = if g.data is Some {
        1
    } else {
        0
    };
    assert(fd + x =~= le(fm, 8) + fr);
    assert(gd + y =~= le(gm, 8) + gr);
    lemma_split(le(fm, 8), fr, le(gm, 8), gr);
    assert(fm == gm);
    if let (Some(c), Some(d)) = (f.data, g.data) {
        lemma_field_split(c, x, d, y);
    }
}

proof fn lemma_files_split(f: Seq<FileModel>, x: Seq<u8>, g: Seq<FileModel>, y: Seq<u8>)
    requires
        f.len() == g.len(),
        forall|i: int| 0 <= i < f.len() ==> #[trigger] file_fits(f[i]),
        forall|i: int| 0 <= i < g.len() ==> #[trigger] file_fits(g[i]),
        files_key(f) + x == files_key(g) + y,
    ensures
        f == g,
        x == y,
    decreases f.len(),
{
    if f.len() > 0 {
        let fr = files_key(f.skip(1)) + x;
        let gr = files_key(g.skip(1)) + y;
        assert(files_key(f) + x =~= file_key(f[0]) + fr);
        assert(files_key(g) + y =~= file_key(g[0]) + gr);
        assert(file_fits(f[0]) && file_fits(g[0]));
        lemma_file_split(f[0], fr, g[0], gr);
        assert forall|i: int| 0 <= i < f.skip(1).len() implies #[trigger] file_fits(
            f.skip(1)[i],
        ) by {
            assert(file_fits(f[i + 1]));
        }
        assert forall|i: int| 0 <= i < g.skip(1).len() implies #[trigger] file_fits(
            g.skip(1)[i],
        ) by {
            assert(file_fits(g[i + 1]));
        }
        lemma_files_split(f.skip(1), x, g.skip(1), y);
        assert(f =~= seq![f[0]] + f.skip(1));
        assert(g =~= seq![g[0]] + g.skip(1));
    } else {
        assert(files_key(f) + x =~= x);
        assert(files_key(g) + y =~= y);
        assert(f =~= g);
    }
}

/// Whether the lengths of everything in a source fit in the hash.
pub open spec fn source_fits(s: SourceModel) -> bool {
    match s {
        SourceModel::Xml { xml, files } => encode_utf8(xml).len() <= u64::MAX && forall|i: int|
            0 <= i < files.len() ==> #[trigger] file_fits(files[i]),
        SourceModel::Builtin { env } => env matches Some(f) ==> file_fits(f),
    }
}

/// How many files an element refers to does not depend on the directory.
proof fn lemma_files_count(n: Node, a: Seq<char>, b: Seq<char>)
    ensures
        files_in(n, a).len() == files_in(n, b).len(),
    decreases n, 0int,
{
    lemma_all_files_count(n.children, a, b);
}

proof fn lemma_all_files_count(c: Seq<Node>, a: Seq<char>, b: Seq<char>)
    ensures
        files_in_all(c, a).len() == files_in_all(c, b).len(),
    decreases c, c.len(),
{
    if c.len() > 0 {
        lemma_all_files_count(c.drop_last(), a, b);
        lemma_files_count(c.last(), a, b);
    }
}

/// What is hashed tells scenes apart: if it is the same for two renders, they have the same
/// settings and render the same, down to the bytes of every file.
pub proof fn scene_key_tells_scenes_apart(
    c: RenderConfig,
    a: Seq<FileModel>,
    d: RenderConfig,
    b: Seq<FileModel>,
)
    requires
        source_of(c, a) matches Ok(s) && source_fits(s),
        source_of(d, b) matches Ok(t) && source_fits(t),
        scene_key(c, source_of(c, a)->Ok_0) == scene_key(d, source_of(d, b)->Ok_0),
    ensures
        render_settings(c) == render_settings(d),
        source_of(c, a) == source_of(d, b),
{
    let s = source_of(c, a)->Ok_0;
    let t = source_of(d, b)->Ok_0;
    if let SourceModel::Xml { xml: x, files: f } = s {
        if let SourceModel::Xml { xml: y, files: g } = t {
            if x == y {
                lemma_files_count(
                    tree(document(x))->Ok_0,
                    parent_of(c.scene_path->Some_0@),
                    parent_of(d.scene_path->Some_0@),
                );
            }
        }
    }
    let head = field(encode_utf8("tinypt-scene-hash-v1"@)) + field(encode_utf8(VERSION@)) + le(
        RENDER_REVISION as int,
        8,
    );
    let xs = le_words(render_settings(c));
    let ys = le_words(render_settings(d));
    assert(scene_key(c, s) =~= head + (source_key(s) + xs));
    assert(scene_key(d, t) =~= head + (source_key(t) + ys));
    lemma_split(head, source_key(s) + xs, head, source_key(t) + ys);
    lemma_le_words(render_settings(c));
    lemma_le_words(render_settings(d));
    lemma_source_split(s, xs, t, ys);
}

proof fn lemma_source_split(s: SourceModel, x: Seq<u8>, t: SourceModel, y: Seq<u8>)
    requires
        source_fits(s),
        source_fits(t),
        source_key(s) + x == source_key(t) + y,
        s matches SourceModel::Xml { xml: x, files: f } ==> (t matches SourceModel::Xml {
            xml: y,
            files: g,
        } ==> (x == y ==> f.len() == g.len())),
    ensures
        s == t,
        x == y,
{
    let xml = encode_utf8("xml"@);
    let builtin = encode_utf8("builtin:default"@);
    reveal_strlit("xml");
    reveal_strlit("builtin:default");
    vstd::utf8::encode_utf8_decode_utf8("xml"@);
    vstd::utf8::encode_utf8_decode_utf8("builtin:default"@);
    assert("xml"@.len() != "builtin:default"@.len());
    assert(xml != builtin);
    vstd::utf8::is_ascii_chars_encode_utf8("xml"@);
    vstd::utf8::is_ascii_chars_encode_utf8("builtin:default"@);
    let sk = source_rest(s);
    let tk = source_rest(t);
    let sn = if s is Xml {
        xml
    } else {
        builtin
    };
    let tn = if t is Xml {
        xml
    } else {
        builtin
    };
    assert(source_key(s) + x =~= field(sn) + (sk + x));
    assert(source_key(t) + y =~= field(tn) + (tk + y));
    lemma_field_split(sn, sk + x, tn, tk + y);
    lemma_le(0, 8);
    lemma_le(1, 8);
    lemma_limits();
    match (s, t) {
        (SourceModel::Xml { xml: a, files: f }, SourceModel::Xml { xml: b, files: g }) => {
            let fr = files_key(f) + x;
            let gr = files_key(g) + y;
            assert(sk + x =~= field(encode_utf8(a)) + fr);
            assert(tk + y =~= field(encode_utf8(b)) + gr);
            lemma_field_split(encode_utf8(a), fr, encode_utf8(b), gr);
            vstd::utf8::encode_utf8_decode_utf8(a);
            vstd::utf8::encode_utf8_decode_utf8(b);
            lemma_files_split(f, x, g, y);
        },
        (SourceModel::Builtin { env: e }, SourceModel::Builtin { env: d }) => {
            let em: int = if e is Some {
                1
            } else {
                0
            };
            let dm: int = if d is Some {
                1
            } else {
                0
            };
            let er = match e {
                Some(f) => file_key(f) + x,
                None => x,
            };
            let dr = match d {
                Some(f) => file_key(f) + y,
                None => y,
            };
            assert(sk + x =~= le(em, 8) + er);
            assert(tk + y =~= le(dm, 8) + dr);
            lemma_split(le(em, 8), er, le(dm, 8), dr);
            assert(em == dm);
            if let (Some(f), Some(g)) = (e, d) {
                lemma_file_split(f, x, g, y);
            }
        },
        _ => {},
    }
}

/// A source as it is hashed, without the field that says which kind it is.
spec fn source_rest(s: SourceModel) -> Seq<u8> {
    match s {
        SourceModel::Xml { xml, files } => field(encode_utf8(xml)) + files_key(files),
        SourceModel::Builtin { env } => match env {
            Some(f) => le(1, 8) + file_key(f),
            None => le(0, 8),
        },
    }
}

} // verus!
