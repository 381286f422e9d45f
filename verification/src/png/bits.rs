//! Bit streams: bytes filled from their lowest bit up.

use vstd::arithmetic::power2::pow2;
use vstd::prelude::*;

verus! {

/// The low `n` bits of `v`, lowest first.
pub open spec fn lsb_bits(v: int, n: nat) -> Seq<bool>
    decreases n,
{
    if n == 0 {
        Seq::empty()
    } else {
        seq![v % 2 == 1] + lsb_bits(v / 2, (n - 1) as nat)
    }
}

/// The number whose bits, lowest first, are `b`.
pub open spec fn lsb_value(b: Seq<bool>) -> int
    decreases b.len(),
{
    if b.len() == 0 {
        0
    } else {
        (if b[0] {
            1int
        } else {
            0
        }) + 2 * lsb_value(b.skip(1))
    }
}

/// The low `n` bits of `v`, highest first: the order in which a Huffman code is written.
pub open spec fn msb_bits(v: int, n: nat) -> Seq<bool>
    decreases n,
{
    if n == 0 {
        Seq::empty()
    } else {
        msb_bits(v / 2, (n - 1) as nat).push(v % 2 == 1)
    }
}

/// The number whose bits, highest first, are `b`.
pub open spec fn msb_value(b: Seq<bool>) -> int
    decreases b.len(),
{
    if b.len() == 0 {
        0
    } else {
        2 * msb_value(b.drop_last()) + (if b.last() {
            1int
        } else {
            0
        })
    }
}

/// The bits of a byte string, byte by byte, each from its lowest bit up.
pub open spec fn byte_bits(bytes: Seq<u8>) -> Seq<bool>
    decreases bytes.len(),
{
    if bytes.len() == 0 {
        Seq::empty()
    } else {
        byte_bits(bytes.drop_last()) + lsb_bits(bytes.last() as int, 8)
    }
}

/// A bit string packed into bytes, the last byte filled up with zeros.
pub open spec fn packed(b: Seq<bool>) -> Seq<u8>
    decreases b.len(),
{
    if b.len() == 0 {
        Seq::empty()
    } else if b.len() <= 8 {
        seq![lsb_value(b) as u8]
    } else {
        seq![lsb_value(b.take(8)) as u8] + packed(b.skip(8))
    }
}

pub proof fn lemma_lsb_bits_len(v: int, n: nat)
    ensures
        lsb_bits(v, n).len() == n,
    decreases n,
{
    if n > 0 {
        lemma_lsb_bits_len(v / 2, (n - 1) as nat);
    }
}

pub proof fn lemma_msb_bits_len(v: int, n: nat)
    ensures
        msb_bits(v, n).len() == n,
    decreases n,
{
    if n > 0 {
        lemma_msb_bits_len(v / 2, (n - 1) as nat);
    }
}

/// Reading back the low `n` bits of a number below 2^n gives the number.
pub proof fn lemma_lsb_value_of_bits(v: int, n: nat)
    requires
        0 <= v < pow2(n),
    ensures
        lsb_value(lsb_bits(v, n)) == v,
    decreases n,
{
    lemma_lsb_bits_len(v, n);
    if n > 0 {
        vstd::arithmetic::power2::lemma_pow2_unfold(n);
        lemma_lsb_value_of_bits(v / 2, (n - 1) as nat);
        assert(lsb_bits(v, n).skip(1) =~= lsb_bits(v / 2, (n - 1) as nat));
    } else {
        vstd::arithmetic::power2::lemma2_to64();
    }
}

pub proof fn lemma_lsb_value_range(b: Seq<bool>)
    ensures
        0 <= lsb_value(b) < pow2(b.len()),
    decreases b.len(),
{
    if b.len() > 0 {
        lemma_lsb_value_range(b.skip(1));
        vstd::arithmetic::power2::lemma_pow2_unfold(b.len());
    } else {
        vstd::arithmetic::power2::lemma2_to64();
    }
}

/// The bits of the number that a bit string stands for are that bit string.
pub proof fn lemma_lsb_bits_of_value(b: Seq<bool>)
    ensures
        lsb_bits(lsb_value(b), b.len()) =~= b,
    decreases b.len(),
{
    if b.len() > 0 {
        lemma_lsb_bits_of_value(b.skip(1));
        lemma_lsb_bits_len(lsb_value(b), b.len());
        assert(seq![b[0]] + b.skip(1) =~= b);
    }
}

/// Reading back the low `n` bits, highest first, of a number below 2^n gives the number.
pub proof fn lemma_msb_value_of_bits(v: int, n: nat)
    requires
        0 <= v < pow2(n),
    ensures
        msb_value(msb_bits(v, n)) == v,
    decreases n,
{
    lemma_msb_bits_len(v, n);
    if n > 0 {
        vstd::arithmetic::power2::lemma_pow2_unfold(n);
        lemma_msb_value_of_bits(v / 2, (n - 1) as nat);
        assert(msb_bits(v, n).drop_last() =~= msb_bits(v / 2, (n - 1) as nat));
    } else {
        vstd::arithmetic::power2::lemma2_to64();
    }
}

/// The low `n + m` bits are the low `n` bits followed by the next `m` ones.
pub proof fn lemma_lsb_bits_concat(lo: int, hi: int, n: nat, m: nat)
    requires
        0 <= lo < pow2(n),
        0 <= hi,
    ensures
        lsb_bits(lo + hi * pow2(n), n + m) == lsb_bits(lo, n) + lsb_bits(hi, m),
    decreases n,
{
    if n == 0 {
        vstd::arithmetic::power2::lemma2_to64();
        assert(hi * pow2(n) == hi) by (nonlinear_arith)
            requires
                pow2(n) == 1,
        ;
        assert(lsb_bits(lo, n) + lsb_bits(hi, m) =~= lsb_bits(hi, m));
    } else {
        vstd::arithmetic::power2::lemma_pow2_unfold(n);
        let p = pow2((n - 1) as nat) as int;
        let v = lo + hi * pow2(n);
        assert(v == lo + 2 * (hi * p)) by (nonlinear_arith)
            requires
                v == lo + hi * pow2(n),
                pow2(n) == 2 * p,
        ;
        lemma_lsb_bits_concat(lo / 2, hi, (n - 1) as nat, m);
        assert(v % 2 == lo % 2);
        assert(v / 2 == lo / 2 + hi * p);
        assert(((n + m) - 1) as nat == (n - 1) as nat + m);
        assert(lsb_bits(lo, n) + lsb_bits(hi, m) =~= seq![lo % 2 == 1] + (lsb_bits(
            lo / 2,
            (n - 1) as nat,
        ) + lsb_bits(hi, m)));
    }
}

/// What `packed` holds starts with the bits that were packed.
pub proof fn lemma_unpack(b: Seq<bool>)
    ensures
        byte_bits(packed(b)).len() >= b.len(),
        byte_bits(packed(b)).take(b.len() as int) =~= b,
    decreases b.len(),
{
    if b.len() == 0 {
    } else if b.len() <= 8 {
        let v = lsb_value(b);
        lemma_lsb_value_range(b);
        lemma_lsb_bits_of_value(b);
        vstd::arithmetic::power2::lemma2_to64();
        if b.len() < 8 {
            vstd::arithmetic::power2::lemma_pow2_strictly_increases(b.len(), 8);
        }
        lemma_lsb_bits_concat(v, 0, b.len(), (8 - b.len()) as nat);
        let bytes = packed(b);
        lemma_one_byte(v as u8);
        lemma_lsb_bits_len(v, 8);
    } else {
        let head = b.take(8);
        let v = lsb_value(head);
        lemma_lsb_value_range(head);
        lemma_lsb_bits_of_value(head);
        vstd::arithmetic::power2::lemma2_to64();
        lemma_unpack(b.skip(8));
        lemma_byte_bits_concat(seq![v as u8], packed(b.skip(8)));
        lemma_one_byte(v as u8);
        lemma_lsb_bits_len(v, 8);
        assert(byte_bits(packed(b)).take(b.len() as int) =~= b) by {
            let all = byte_bits(packed(b));
            assert forall|i: int| 0 <= i < b.len() implies all[i] == b[i] by {
                if i >= 8 {
                    assert(all[i] == byte_bits(packed(b.skip(8)))[i - 8]);
                    assert(byte_bits(packed(b.skip(8))).take(b.len() - 8)[i - 8] == b.skip(8)[i
                        - 8]);
                } else {
                    assert(all[i] == lsb_bits(v, 8)[i]);
                    assert(head[i] == b[i]);
                }
            }
        }
    }
}

/// Packing fills up less than a byte.
pub proof fn lemma_packed_len(b: Seq<bool>)
    ensures
        8 * packed(b).len() <= b.len() + 7,
    decreases b.len(),
{
    if b.len() > 8 {
        lemma_packed_len(b.skip(8));
    }
}

pub proof fn lemma_one_byte(x: u8)
    ensures
        byte_bits(seq![x]) == lsb_bits(x as int, 8),
{
    reveal_with_fuel(byte_bits, 2);
    assert(seq![x].drop_last() =~= Seq::<u8>::empty());
    assert(Seq::<bool>::empty() + lsb_bits(x as int, 8) =~= lsb_bits(x as int, 8));
}

pub proof fn lemma_byte_bits_concat(a: Seq<u8>, b: Seq<u8>)
    ensures
        byte_bits(a + b) == byte_bits(a) + byte_bits(b),
    decreases b.len(),
{
    if b.len() == 0 {
        assert(a + b =~= a);
        assert(byte_bits(a) + byte_bits(b) =~= byte_bits(a));
    } else {
        assert((a + b).drop_last() =~= a + b.drop_last());
        lemma_byte_bits_concat(a, b.drop_last());
        assert(byte_bits(a + b) =~= byte_bits(a) + byte_bits(b));
    }
}

pub proof fn lemma_byte_bits_len(a: Seq<u8>)
    ensures
        byte_bits(a).len() == 8 * a.len(),
    decreases a.len(),
{
    if a.len() > 0 {
        lemma_byte_bits_len(a.drop_last());
        lemma_lsb_bits_len(a.last() as int, 8);
    }
}

/// Packing whole bytes followed by fewer than eight bits.
pub proof fn lemma_packed_bytes(bytes: Seq<u8>, rest: Seq<bool>)
    requires
        rest.len() < 8,
    ensures
        packed(byte_bits(bytes) + rest) == bytes + packed(rest),
    decreases bytes.len(),
{
    if bytes.len() == 0 {
        assert(byte_bits(bytes) + rest =~= rest);
        assert(bytes + packed(rest) =~= packed(rest));
    } else {
        let first = seq![bytes[0]];
        let tail = bytes.skip(1);
        assert(first + tail =~= bytes);
        lemma_byte_bits_concat(first, tail);
        lemma_one_byte(bytes[0]);
        lemma_lsb_bits_len(bytes[0] as int, 8);
        lemma_byte_bits_len(tail);
        vstd::arithmetic::power2::lemma2_to64();
        lemma_lsb_value_of_bits(bytes[0] as int, 8);
        lemma_packed_bytes(tail, rest);
        let all = byte_bits(bytes) + rest;
        assert(all.take(8) =~= lsb_bits(bytes[0] as int, 8));
        assert(all.skip(8) =~= byte_bits(tail) + rest);
        if all.len() == 8 {
            assert(all =~= all.take(8));
            assert(tail =~= Seq::<u8>::empty());
            assert(rest =~= Seq::<bool>::empty());
            assert(bytes + packed(rest) =~= seq![bytes[0]]);
        } else {
            assert(bytes + packed(rest) =~= first + (tail + packed(rest)));
        }
    }
}

/// A bit writer: whole bytes in `out`, the bits that do not fill one yet in `acc`.
pub struct BitWriter {
    out: Vec<u8>,
    acc: u64,
    n: u32,
}

impl View for BitWriter {
    type V = Seq<bool>;

    /// Every bit written so far.
    closed spec fn view(&self) -> Seq<bool> {
        byte_bits(self.out@) + lsb_bits(self.acc as int, self.n as nat)
    }
}

impl BitWriter {
    /// Fewer than eight bits wait in the accumulator, and nothing above them.
    pub closed spec fn wf(&self) -> bool {
        self.n < 8 && self.acc < pow2(self.n as nat)
    }

    /// A writer with nothing written.
    pub fn new() -> (w: Self)
        ensures
            w.wf(),
            w@ == Seq::<bool>::empty(),
    {
        proof {
            vstd::arithmetic::power2::lemma2_to64();
        }
        let w = BitWriter { out: Vec::new(), acc: 0, n: 0 };
        assert(w@ =~= Seq::<bool>::empty());
        w
    }

    /// Writes the low `bits` bits of `value`, lowest first.
    pub fn put(&mut self, value: u32, bits: u32)
        requires
            old(self).wf(),
            bits <= 32,
            value < pow2(bits as nat),
        ensures
            final(self).wf(),
            final(self)@ == old(self)@ + lsb_bits(value as int, bits as nat),
    {
        let ghost n0 = self.n as nat;
        let ghost acc0 = self.acc as int;
        let ghost start = self@;
        let n: u32 = self.n;
        let acc: u64 = self.acc;
        let v: u64 = value as u64;
        proof {
            vstd::arithmetic::power2::lemma2_to64();
            vstd::arithmetic::power2::lemma2_to64_rest();
            vstd::arithmetic::power2::lemma_pow2_adds(bits as nat, n0);
            vstd::arithmetic::power2::lemma_pow2_adds(32, n0);
            if bits < 32 {
                vstd::arithmetic::power2::lemma_pow2_strictly_increases(bits as nat, 32);
            }
            if n0 < 7 {
                vstd::arithmetic::power2::lemma_pow2_strictly_increases(n0, 7);
            }
            let p = pow2(n0) as int;
            assert((value + 1) * p <= pow2(bits as nat) * p) by (nonlinear_arith)
                requires
                    value + 1 <= pow2(bits as nat),
                    p >= 0,
            ;
            assert((value + 1) * p == value * p + p) by (nonlinear_arith);
            assert(value * p <= 0xFFFF_FFFFint * 128) by (nonlinear_arith)
                requires
                    0 <= p <= 128,
                    0 <= value <= 0xFFFF_FFFFint,
            ;
            vstd::bits::lemma_u64_shl_is_mul(v, n as u64);
            vstd::bits::lemma_u64_shl_is_mul(1, n as u64);
            assert(acc | (v << n) == acc + (v << n)) by (bit_vector)
                requires
                    n < 8,
                    acc < 1u64 << n,
                    v <= 0xFFFF_FFFF,
            ;
            lemma_lsb_bits_concat(acc0, value as int, n0, bits as nat);
        }
        self.acc = acc | (v << n);
        self.n = n + bits;
        proof {
            assert(self@ =~= start + lsb_bits(value as int, bits as nat));
        }
        let ghost want = self@;
        while self.n >= 8
            invariant
                self.n <= 40,
                self.acc < pow2(self.n as nat),
                self@ == want,
            decreases self.n,
        {
            let acc: u64 = self.acc;
            let ghost out0 = self.out@;
            let ghost n1 = self.n as nat;
            proof {
                vstd::arithmetic::power2::lemma2_to64();
                vstd::arithmetic::power2::lemma_pow2_adds(8, (n1 - 8) as nat);
                assert(acc & 0xFF == acc % 256 && acc >> 8 == acc / 256) by (bit_vector);
                lemma_lsb_bits_concat((acc % 256) as int, (acc / 256) as int, 8, (n1 - 8) as nat);
                assert(8 + ((n1 - 8) as nat) == n1);
                assert(acc == (acc % 256) + (acc / 256) * 256);
            }
            self.out.push((acc & 0xFF) as u8);
            self.acc = acc >> 8;
            self.n = self.n - 8;
            proof {
                assert(self.out@.drop_last() =~= out0);
                assert(self@ =~= want);
            }
        }
    }

    /// Writes a Huffman code of `bits` bits, highest bit first.
    pub fn put_code(&mut self, code: u32, bits: u32)
        requires
            old(self).wf(),
            bits <= 16,
            code < pow2(bits as nat),
        ensures
            final(self).wf(),
            final(self)@ == old(self)@ + msb_bits(code as int, bits as nat),
        decreases bits,
    {
        if bits == 0 {
            assert(self@ =~= old(self)@ + msb_bits(code as int, bits as nat));
            return;
        }
        proof {
            vstd::arithmetic::power2::lemma_pow2_unfold(bits as nat);
            vstd::arithmetic::power2::lemma2_to64();
        }
        self.put_code(code / 2, bits - 1);
        self.put(code % 2, 1);
        proof {
            reveal_with_fuel(lsb_bits, 2);
            assert(lsb_bits((code % 2) as int, 1) =~= seq![code % 2 == 1]);
            assert(self@ =~= old(self)@ + msb_bits(code as int, bits as nat));
        }
    }

    /// The bytes written, the last one filled up with zeros.
    pub fn finish(self) -> (out: Vec<u8>)
        requires
            self.wf(),
        ensures
            out@ == packed(self@),
    {
        let ghost rest = lsb_bits(self.acc as int, self.n as nat);
        proof {
            lemma_lsb_bits_len(self.acc as int, self.n as nat);
            lemma_packed_bytes(self.out@, rest);
            vstd::arithmetic::power2::lemma2_to64();
            lemma_lsb_value_of_bits(self.acc as int, self.n as nat);
            if 0 < self.n < 7 {
                vstd::arithmetic::power2::lemma_pow2_strictly_increases(self.n as nat, 7);
            }
        }
        let acc: u64 = self.acc;
        let n: u32 = self.n;
        let mut out = self.out;
        if n > 0 {
            let ghost before = out@;
            assert(acc & 0xFF == acc) by (bit_vector)
                requires
                    acc < 128,
            ;
            out.push((acc & 0xFF) as u8);
            assert(out@ =~= before + seq![acc as u8]);
        } else {
            assert(out@ =~= out@ + Seq::<u8>::empty());
        }
        out
    }
}

} // verus!
