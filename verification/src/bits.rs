//! Bit-level plumbing for the packed record format.
//!
//! A record is specified as a sequence of bits, most significant bit first,
//! with no padding between fields; only the final byte is padded with zero
//! bits.  `bits_of` / `int_of` relate fixed-width unsigned fields to their
//! bit sequences, `BitWriter` / `BitReader` move between executable values
//! and the bit stream, and `bits_to_bytes` / `bytes_to_bits` move between
//! the bit stream and the byte string handed to callers.

use vstd::prelude::*;
use vstd::arithmetic::power2::*;
use vstd::arithmetic::div_mod::*;

verus! {

/// The `width`-bit big-endian (MSB-first) bit pattern of `v % pow2(width)`.
pub open spec fn bits_of(v: nat, width: nat) -> Seq<bool>
    decreases width,
{
    if width == 0 {
        Seq::empty()
    } else {
        bits_of(v / 2, (width - 1) as nat).push(v % 2 == 1)
    }
}

/// The unsigned value of an MSB-first bit sequence.
pub open spec fn int_of(s: Seq<bool>) -> nat
    decreases s.len(),
{
    if s.len() == 0 {
        0
    } else {
        int_of(s.drop_last()) * 2 + (if s.last() { 1nat } else { 0nat })
    }
}

pub broadcast proof fn lemma_bits_of_len(v: nat, width: nat)
    ensures
        (#[trigger] bits_of(v, width)).len() == width,
    decreases width,
{
    if width > 0 {
        lemma_bits_of_len(v / 2, (width - 1) as nat);
    }
}

/// A value below `pow2(width)` is recovered exactly from its bit pattern.
pub proof fn lemma_int_of_bits_of(v: nat, width: nat)
    requires
        v < pow2(width),
    ensures
        int_of(bits_of(v, width)) == v,
    decreases width,
{
    if width == 0 {
        reveal(pow2);
        reveal(vstd::arithmetic::power::pow);
        assert(pow2(0) == 1);
    } else {
        lemma_pow2_unfold(width);
        assert(v / 2 < pow2((width - 1) as nat)) by {
            lemma_pow2_pos((width - 1) as nat);
        };
        lemma_int_of_bits_of(v / 2, (width - 1) as nat);
        let s = bits_of(v, width);
        lemma_bits_of_len(v / 2, (width - 1) as nat);
        assert(s.drop_last() =~= bits_of(v / 2, (width - 1) as nat));
        assert(v == (v / 2) * 2 + v % 2) by {
            lemma_fundamental_div_mod(v as int, 2);
        };
    }
}

/// A bit sequence is recovered exactly from its unsigned value.
pub proof fn lemma_bits_of_int_of(s: Seq<bool>)
    ensures
        bits_of(int_of(s), s.len()) == s,
    decreases s.len(),
{
    if s.len() > 0 {
        lemma_bits_of_int_of(s.drop_last());
        let v = int_of(s);
        let b: nat = if s.last() { 1 } else { 0 };
        assert(v == int_of(s.drop_last()) * 2 + b);
        assert(v / 2 == int_of(s.drop_last()) && v % 2 == b) by {
            lemma_fundamental_div_mod_converse(v as int, 2, int_of(s.drop_last()) as int, b as int);
        };
        assert(bits_of(v, s.len()) =~= s);
    }
}

pub proof fn lemma_int_of_bound(s: Seq<bool>)
    ensures
        int_of(s) < pow2(s.len()),
    decreases s.len(),
{
    if s.len() == 0 {
        reveal(pow2);
        reveal(vstd::arithmetic::power::pow);
    } else {
        lemma_int_of_bound(s.drop_last());
        lemma_pow2_unfold(s.len());
    }
}

/// The bits of a byte string, most significant bit of each byte first.
pub open spec fn bits_of_bytes(bytes: Seq<u8>) -> Seq<bool>
    decreases bytes.len(),
{
    if bytes.len() == 0 {
        Seq::empty()
    } else {
        bits_of_bytes(bytes.drop_last()) + bits_of(bytes.last() as nat, 8)
    }
}

pub broadcast proof fn lemma_bits_of_bytes_len(bytes: Seq<u8>)
    ensures
        (#[trigger] bits_of_bytes(bytes)).len() == 8 * bytes.len(),
    decreases bytes.len(),
{
    if bytes.len() > 0 {
        lemma_bits_of_bytes_len(bytes.drop_last());
        lemma_bits_of_len(bytes.last() as nat, 8);
    }
}

/// Appends fixed-width fields to a growing bit stream.
pub struct BitWriter {
    bits: Vec<bool>,
}

impl BitWriter {
    pub closed spec fn view(&self) -> Seq<bool> {
        self.bits@
    }

    pub fn new() -> (w: BitWriter)
        ensures
            w@ == Seq::<bool>::empty(),
    {
        BitWriter { bits: Vec::new() }
    }

    /// Appends the `width`-bit MSB-first pattern of `v`.
    pub fn push_bits(&mut self, v: u16, width: usize)
        requires
            width <= 16,
            (v as nat) < pow2(width as nat),
        ensures
            final(self)@ == old(self)@ + bits_of(v as nat, width as nat),
        decreases width,
    {
        if width == 0 {
            assert(old(self)@ + bits_of(v as nat, 0) =~= old(self)@);
        } else {
            proof {
                lemma_pow2_unfold(width as nat);
                lemma_pow2_pos((width - 1) as nat);
            }
            self.push_bits(v / 2, width - 1);
            self.bits.push(v % 2 == 1);
            assert(self@ =~= old(self)@ + bits_of(v as nat, width as nat));
        }
    }

    /// Appends a whole byte string, eight bits per byte.
    pub fn push_bytes(&mut self, bytes: &Vec<u8>)
        ensures
            final(self)@ == old(self)@ + bits_of_bytes(bytes@),
    {
        let n = bytes.len();
        let mut i: usize = 0;
        while i < n
            invariant
                i <= n,
                n == bytes@.len(),
                self@ == old(self)@ + bits_of_bytes(bytes@.take(i as int)),
            decreases n - i,
        {
            proof {
                lemma2_to64();
                assert((bytes@[i as int] as nat) < pow2(8));
            }
            self.push_bits(bytes[i] as u16, 8);
            proof {
                assert(bytes@.take(i + 1 as int).drop_last() =~= bytes@.take(i as int));
                assert(bytes@.take(i + 1 as int).last() == bytes@[i as int]);
                assert(self@ =~= old(self)@ + bits_of_bytes(bytes@.take(i + 1 as int)));
            }
            i = i + 1;
        }
        proof {
            assert(bytes@.take(n as int) =~= bytes@);
        }
    }

    /// Hands the accumulated bits out.
    pub fn into_bits(self) -> (r: Vec<bool>)
        ensures
            r@ == self@,
    {
        self.bits
    }
}

/// The number of bits a value occupies: the position of its highest set
/// bit, and zero for zero.
pub open spec fn needed_bits(n: nat) -> nat
    decreases n,
{
    if n == 0 {
        0
    } else {
        1 + needed_bits(n / 2)
    }
}

proof fn lemma_needed_bits_le(n: nat, k: nat)
    requires
        n < pow2(k),
    ensures
        needed_bits(n) <= k,
    decreases k,
{
    if n > 0 {
        lemma2_to64();
        assert(k > 0);
        lemma_pow2_unfold(k);
        lemma_needed_bits_le(n / 2, (k - 1) as nat);
    }
}

/// Counts how many bits `n` occupies.
pub fn calculate_needed_bits(n: u8) -> (bits: u8)
    ensures
        bits == needed_bits(n as nat),
        bits <= 8,
{
    proof {
        lemma2_to64();
        lemma_needed_bits_le(n as nat, 8);
    }
    let ghost n0 = n as nat;
    let mut bits: u8 = 0;
    let mut m = n;
    while m > 0
        invariant
            bits + needed_bits(m as nat) == needed_bits(n0),
            needed_bits(n0) <= 8,
        decreases m,
    {
        bits = bits + 1;
        m = m / 2;
    }
    bits
}

/// Zero padding of the given length.
pub open spec fn zero_bits(n: nat) -> Seq<bool> {
    Seq::new(n, |i: int| false)
}

/// How many zero bits bring `n` bits up to a whole number of bytes.
pub open spec fn pad_len(n: nat) -> nat {
    ((8 - n % 8) % 8) as nat
}

/// Packs a bit stream into bytes, padding the final byte with zero bits.
pub fn bits_to_bytes(bits: &Vec<bool>) -> (r: Vec<u8>)
    ensures
        bits_of_bytes(r@) == bits@ + zero_bits(pad_len(bits@.len())),
{
    let n = bits.len();
    let mut padded: Vec<bool> = Vec::new();
    let mut i: usize = 0;
    while i < n
        invariant
            i <= n,
            n == bits@.len(),
            padded@ == bits@.take(i as int),
        decreases n - i,
    {
        padded.push(bits[i]);
        proof {
            assert(padded@ =~= bits@.take(i + 1 as int));
        }
        i = i + 1;
    }
    proof {
        assert(bits@.take(n as int) =~= bits@);
    }
    let pad: usize = (8 - n % 8) % 8;
    proof {
        assert(pad == pad_len(bits@.len()));
        assert(padded@ + zero_bits(0) =~= padded@);
    }
    let mut p: usize = 0;
    while p < pad
        invariant
            p <= pad,
            pad < 8,
            n == bits@.len(),
            pad == pad_len(bits@.len()),
            padded@ == bits@ + zero_bits(p as nat),
        decreases pad - p,
    {
        padded.push(false);
        proof {
            assert(padded@ =~= bits@ + zero_bits((p + 1) as nat));
        }
        p = p + 1;
    }
    proof {
        assert(padded@.len() == n + pad);
        assert((n + pad) % 8 == 0) by {
            lemma_fundamental_div_mod(n as int, 8);
            let q = n as int / 8;
            let r = n as int % 8;
            if r == 0 {
                assert(n + pad == 8 * q);
                lemma_mod_multiples_basic(q, 8);
            } else {
                assert(pad == 8 - r);
                assert(n + pad == 8 * (q + 1));
                lemma_mod_multiples_basic(q + 1, 8);
            }
        };
    }
    // Now chunk the padded bits, eight at a time, into bytes.
    let total = padded.len();
    let mut out: Vec<u8> = Vec::new();
    let mut j: usize = 0;
    while j < total
        invariant
            j <= total,
            j % 8 == 0,
            total % 8 == 0,
            total == padded@.len(),
            bits_of_bytes(out@) == padded@.take(j as int),
        decreases total - j,
    {
        let mut acc: u16 = 0;
        let mut k: usize = 0;
        proof {
            lemma2_to64();
            assert(bits_of(0nat, 0nat) =~= padded@.subrange(j as int, j as int));
        }
        while k < 8
            invariant
                k <= 8,
                j + 8 <= total,
                total == padded@.len(),
                (acc as nat) < pow2(k as nat),
                bits_of(acc as nat, k as nat) == padded@.subrange(j as int, j + k as int),
            decreases 8 - k,
        {
            proof {
                lemma_pow2_unfold((k + 1) as nat);
                lemma2_to64();
            }
            let b = padded[j + k];
            let ghost old_acc = acc;
            acc = acc * 2 + (if b { 1 } else { 0 });
            proof {
                let s = padded@.subrange(j as int, j + (k + 1) as int);
                assert(s.drop_last() =~= padded@.subrange(j as int, j + k as int));
                assert(s.last() == b);
                lemma_bits_of_int_of(s);
                assert(int_of(s.drop_last()) == old_acc as nat) by {
                    assert(bits_of(old_acc as nat, k as nat) == s.drop_last());
                    lemma_int_of_bits_of(old_acc as nat, k as nat);
                };
                assert(int_of(s) == acc as nat);
                assert(bits_of(acc as nat, (k + 1) as nat) == s);
            }
            k = k + 1;
        }
        proof {
            lemma2_to64();
            assert(acc < 256);
        }
        let byte: u8 = acc as u8;
        let ghost prev_out = out@;
        out.push(byte);
        proof {
            assert(out@.drop_last() =~= prev_out);
            assert(bits_of_bytes(out@) == bits_of_bytes(out@.drop_last()) + bits_of(byte as nat, 8));
            assert(bits_of(byte as nat, 8) == padded@.subrange(j as int, j + 8 as int));
            assert(padded@.take(j + 8 as int) =~= padded@.take(j as int) + padded@.subrange(
                j as int,
                j + 8 as int,
            ));
        }
        j = j + 8;
    }
    proof {
        assert(padded@.take(total as int) =~= padded@);
    }
    out
}

/// Unpacks a byte string into its bit stream.
pub fn bytes_to_bits(bytes: &Vec<u8>) -> (r: Vec<bool>)
    ensures
        r@ == bits_of_bytes(bytes@),
{
    let n = bytes.len();
    let mut w = BitWriter::new();
    let mut i: usize = 0;
    while i < n
        invariant
            i <= n,
            n == bytes@.len(),
            w@ == bits_of_bytes(bytes@.take(i as int)),
        decreases n - i,
    {
        proof {
            lemma2_to64();
            assert((bytes@[i as int] as nat) < pow2(8));
        }
        w.push_bits(bytes[i] as u16, 8);
        proof {
            assert(bytes@.take(i + 1 as int).drop_last() =~= bytes@.take(i as int));
            assert(bytes@.take(i + 1 as int).last() == bytes@[i as int]);
        }
        i = i + 1;
    }
    proof {
        assert(bytes@.take(n as int) =~= bytes@);
    }
    w.into_bits()
}

/// Reads fixed-width fields off a bit stream, front to back.
pub struct BitReader {
    bits: Vec<bool>,
    pos: usize,
}

impl BitReader {
    /// The whole underlying bit stream.
    pub closed spec fn bits(&self) -> Seq<bool> {
        self.bits@
    }

    /// How many bits have been consumed.
    pub closed spec fn pos(&self) -> nat {
        self.pos as nat
    }

    pub open spec fn wf(&self) -> bool {
        self.pos() <= self.bits().len()
    }

    pub fn new(bits: Vec<bool>) -> (r: BitReader)
        ensures
            r.bits() == bits@,
            r.pos() == 0,
            r.wf(),
    {
        BitReader { bits, pos: 0 }
    }

    /// How many bits are left to read.
    pub fn remaining(&self) -> (n: usize)
        requires
            self.wf(),
        ensures
            n == self.bits().len() - self.pos(),
    {
        self.bits.len() - self.pos
    }

    /// Reads the next `width` bits as an MSB-first unsigned value.
    pub fn read_bits(&mut self, width: usize) -> (v: u16)
        requires
            old(self).wf(),
            width <= 16,
            old(self).pos() + width <= old(self).bits().len(),
        ensures
            final(self).wf(),
            final(self).bits() == old(self).bits(),
            final(self).pos() == old(self).pos() + width,
            v as nat == int_of(old(self).bits().subrange(
                old(self).pos() as int,
                old(self).pos() + width,
            )),
    {
        let mut acc: u16 = 0;
        let mut k: usize = 0;
        proof {
            lemma2_to64();
            assert(self.bits@.len() == self.bits.len());
            assert(bits_of(0nat, 0nat) =~= old(self).bits().subrange(
                old(self).pos() as int,
                old(self).pos() as int,
            ));
        }
        while k < width
            invariant
                k <= width,
                width <= 16,
                self.bits() == old(self).bits(),
                self.bits().len() <= usize::MAX,
                self.pos() == old(self).pos() + k,
                self.wf(),
                old(self).pos() + width <= old(self).bits().len(),
                (acc as nat) < pow2(k as nat),
                acc as nat == int_of(old(self).bits().subrange(
                    old(self).pos() as int,
                    old(self).pos() + k,
                )),
            decreases width - k,
        {
            proof {
                lemma_pow2_unfold((k + 1) as nat);
                lemma2_to64();
                lemma_pow2_strictly_increases((k + 1) as nat, 17);
                assert(pow2(17) == 0x20000);
            }
            let b = self.bits[self.pos];
            self.pos = self.pos + 1;
            acc = acc * 2 + (if b { 1 } else { 0 });
            proof {
                let s = old(self).bits().subrange(old(self).pos() as int, old(self).pos() + (k + 1));
                assert(s.drop_last() =~= old(self).bits().subrange(
                    old(self).pos() as int,
                    old(self).pos() + k,
                ));
                assert(s.last() == b);
            }
            k = k + 1;
        }
        acc
    }
}

} // verus!
