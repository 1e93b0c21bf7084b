use vstd::prelude::*;
use vstd::arithmetic::power2::{pow2, lemma_pow2_adds, lemma_pow2_pos};
use vstd::arithmetic::div_mod::lemma_fundamental_div_mod_converse;
use vstd::bits::{lemma_u32_shl_is_mul, lemma_u32_pow2_no_overflow};
use crate::error::NwaError;

verus! {

/// Bit `i` of the stream `s`: bits are taken from each byte starting at its
/// least significant bit.
pub open spec fn bit_at(s: Seq<u8>, i: int) -> nat {
    ((s[i / 8] as u32 >> (i % 8) as u32) & 1u32) as nat
}

/// The `n` bits of `s` starting at bit `pos`, the first one being the least
/// significant bit of the result.
pub open spec fn bits_value(s: Seq<u8>, pos: int, n: nat) -> nat
    decreases n,
{
    if n == 0 {
        0
    } else {
        bit_at(s, pos) + 2 * bits_value(s, pos + 1, (n - 1) as nat)
    }
}

proof fn lemma_low_bit_le_one(x: u32, k: u32)
    ensures
        (x >> k) & 1u32 <= 1u32,
{
    assert((x >> k) & 1u32 <= 1u32) by (bit_vector);
}

pub proof fn lemma_bits_value_bound(s: Seq<u8>, pos: int, n: nat)
    ensures
        bits_value(s, pos, n) < pow2(n),
    decreases n,
{
    lemma_pow2_pos(n);
    lemma_pow2_adds(1, (n - 1) as nat);
    if n > 0 {
        lemma_bits_value_bound(s, pos + 1, (n - 1) as nat);
        lemma_low_bit_le_one(s[pos / 8] as u32, (pos % 8) as u32);
        assert(bit_at(s, pos) <= 1);
        vstd::arithmetic::power2::lemma_pow2_unfold(n);
        assert(bits_value(s, pos, n) == bit_at(s, pos) + 2 * bits_value(s, pos + 1, (n - 1) as nat));
    }
}

/// Reading `a` bits and then `b` more is reading `a + b` bits.
pub proof fn lemma_bits_value_split(s: Seq<u8>, pos: int, a: nat, b: nat)
    ensures
        bits_value(s, pos, a + b) == bits_value(s, pos, a) + pow2(a) * bits_value(
            s,
            pos + a,
            b,
        ),
    decreases a,
{
    if a > 0 {
        lemma_bits_value_split(s, pos + 1, (a - 1) as nat, b);
        vstd::arithmetic::power2::lemma_pow2_unfold(a);
        assert((a + b - 1) as nat == (a - 1) as nat + b);
        assert(pos + 1 + (a - 1) as nat == pos + a);
        assert(2 * (bits_value(s, pos + 1, (a - 1) as nat) + pow2((a - 1) as nat) * bits_value(
            s,
            pos + a,
            b,
        )) == 2 * bits_value(s, pos + 1, (a - 1) as nat) + (2 * pow2((a - 1) as nat))
            * bits_value(s, pos + a, b)) by (nonlinear_arith);
    } else {
        vstd::arithmetic::power2::lemma2_to64();
    }
}

proof fn lemma_mask_step(b: u32, off: u32, k: u32, m: u32, off1: u32, m1: u32)
    requires
        b < 256,
        off < 8,
        1 <= k,
        off + k <= 8,
        m == (1u32 << k) - 1,
        off1 == off + 1,
        m1 == (1u32 << (k - 1) as u32) - 1,
    ensures
        (b >> off) & m == ((b >> off) & 1u32) + 2 * ((b >> off1) & m1),
{
    assert((b >> off) & m == ((b >> off) & 1u32) + 2 * ((b >> off1) & m1)) by (bit_vector)
        requires
            b < 256,
            off < 8,
            1 <= k,
            off + k <= 8,
            m == (1u32 << k) - 1,
            off1 == off + 1,
            m1 == (1u32 << (k - 1) as u32) - 1,
    ;
}

proof fn lemma_zero_mask(b: u32, off: u32, m: u32)
    requires
        m == (1u32 << 0u32) - 1,
    ensures
        (b >> off) & m == 0,
{
    assert((b >> off) & m == 0) by (bit_vector)
        requires
            m == (1u32 << 0u32) - 1,
    ;
}

/// The bits `off .. off + k` of byte `byte` of `s`, taken with a shift and a mask.
proof fn lemma_chunk(s: Seq<u8>, byte: int, off: u32, k: u32, m: u32)
    requires
        0 <= byte < s.len(),
        off < 8,
        off + k <= 8,
        m == (1u32 << k) - 1,
    ensures
        ((s[byte] as u32 >> off) & m) as nat == bits_value(s, 8 * byte + off, k as nat),
    decreases k,
{
    let b = s[byte] as u32;
    if k == 0 {
        lemma_zero_mask(b, off, m);
    } else {
        lemma_fundamental_div_mod_converse(8 * byte + off, 8, byte, off as int);
        let k1 = (k - 1) as u32;
        lemma_mask_m1(k1);
        let m1 = ((1u32 << k1) - 1) as u32;
        let off1 = (off + 1) as u32;
        lemma_mask_step(b, off, k, m, off1, m1);
        if off + 1 < 8 {
            lemma_chunk(s, byte, off1, k1, m1);
        } else {
            assert(k == 1);
            lemma_zero_mask(b, off1, m1);
        }
    }
}

proof fn lemma_mask_m1(k: u32)
    requires
        k < 8,
    ensures
        (1u32 << k) >= 1,
{
    lemma_shl_pos(k);
}

proof fn lemma_shl_pos(k: u32)
    requires
        k <= 8,
    ensures
        (1u32 << k) >= 1,
{
    assert((1u32 << k) >= 1) by (bit_vector)
        requires
            k <= 8,
    ;
}

proof fn lemma_or_is_add(acc: u32, r: u32, got: u32)
    requires
        got < 32,
        acc < (1u32 << got),
    ensures
        acc | (r << got) == acc + (r << got),
{
    assert(acc | (r << got) == acc + (r << got)) by (bit_vector)
        requires
            got < 32,
            acc < (1u32 << got),
    ;
}

/// A reader of single bits over a byte sequence, least significant bit of
/// each byte first. It holds the byte it is in and the bit within that byte.
pub struct BitReader {
    data: Vec<u8>,
    byte: usize,
    bit: u32,
}

impl BitReader {
    /// The bytes that the reader reads.
    pub closed spec fn source(&self) -> Seq<u8> {
        self.data@
    }

    /// The number of bits read so far.
    pub closed spec fn position(&self) -> int {
        8 * self.byte + self.bit
    }

    pub closed spec fn wf(&self) -> bool {
        &&& self.bit < 8
        &&& self.byte <= self.data@.len()
        &&& self.byte == self.data@.len() ==> self.bit == 0
    }

    /// The number of bits left to read.
    pub open spec fn remaining(&self) -> int {
        8 * self.source().len() - self.position()
    }

    /// A reader at the first bit of `data`.
    pub fn new(data: &[u8]) -> (r: BitReader)
        ensures
            r.wf(),
            r.source() == data@,
            r.position() == 0,
    {
        let mut v: Vec<u8> = Vec::new();
        let mut i: usize = 0;
        while i < data.len()
            invariant
                i <= data@.len(),
                v@ == data@.subrange(0, i as int),
            decreases data@.len() - i,
        {
            v.push(data[i]);
            i = i + 1;
        }
        assert(v@ == data@);
        BitReader { data: v, byte: 0, bit: 0 }
    }

    /// A reader over `data` at the first bit of byte `start`.
    pub fn starting_at(data: Vec<u8>, start: usize) -> (r: BitReader)
        requires
            start <= data@.len(),
        ensures
            r.wf(),
            r.source() == data@,
            r.position() == 8 * start,
    {
        BitReader { data, byte: start, bit: 0 }
    }

    /// Reads at most `n` bits, never past the end of the current byte.
    /// Returns how many bits were read and their value.
    fn read_at_most(&mut self, n: u32) -> (r: (u32, u32))
        requires
            old(self).wf(),
            1 <= n <= 32,
            old(self).remaining() >= 1,
        ensures
            final(self).wf(),
            final(self).source() == old(self).source(),
            1 <= r.0 <= n,
            r.0 <= 8,
            r.0 == if n < 8 - old(self).position() % 8 {
                n as int
            } else {
                8 - old(self).position() % 8
            },
            final(self).position() == old(self).position() + r.0,
            r.1 as nat == bits_value(old(self).source(), old(self).position(), r.0 as nat),
    {
        let len = self.data.len();
        let cur = self.data[self.byte] as u32;
        let mut read: u32 = 8 - self.bit;
        if read > n {
            read = n;
        }
        proof {
            lemma_shl_pos(read);
        }
        let mask: u32 = (1u32 << read) - 1;
        let bits = (cur >> self.bit) & mask;
        proof {
            lemma_fundamental_div_mod_converse(self.position(), 8, self.byte as int, self.bit as int);
            lemma_chunk(self.data@, self.byte as int, self.bit, read, mask);
        }
        self.bit = self.bit + read;
        assert(self.byte < len);
        if self.bit == 8 {
            self.bit = 0;
            self.byte = self.byte + 1;
        }
        (read, bits)
    }

    /// Whether at least `n` bits are left.
    fn has_bits(&self, n: u32) -> (r: bool)
        requires
            self.wf(),
            n <= 32,
        ensures
            r == (n <= self.remaining()),
    {
        let left = self.data.len() - self.byte;
        if left > 5 {
            true
        } else {
            (n as usize) + (self.bit as usize) <= left * 8
        }
    }

    /// Reads the next `n` bits; the first bit read is the least significant
    /// bit of the result. Fails, reading nothing, when fewer than `n` bits are
    /// left.
    pub fn read_bits(&mut self, n: u32) -> (r: Result<u32, NwaError>)
        requires
            old(self).wf(),
            n <= 32,
        ensures
            final(self).wf(),
            final(self).source() == old(self).source(),
            n <= old(self).remaining() ==> r == Ok::<u32, NwaError>(
                bits_value(old(self).source(), old(self).position(), n as nat) as u32,
            ) && final(self).position() == old(self).position() + n,
            n > old(self).remaining() ==> r == Err::<u32, NwaError>(NwaError::UnexpectedEof)
                && final(self).position() == old(self).position(),
    {
        if !self.has_bits(n) {
            return Err(NwaError::UnexpectedEof);
        }
        let ghost s = self.data@;
        let ghost start = self.position();
        let mut bits: u32 = 0;
        let mut got: u32 = 0;
        let mut left: u32 = n;
        proof {
            vstd::arithmetic::power2::lemma2_to64();
        }
        while left > 0
            invariant
                self.wf(),
                self.data@ == s,
                got + left == n,
                n <= 32,
                self.position() == start + got,
                start + n <= 8 * s.len(),
                bits as nat == bits_value(s, start, got as nat),
            decreases left,
        {
            let (read, r) = self.read_at_most(left);
            proof {
                lemma_bits_value_bound(s, start, got as nat);
                lemma_bits_value_bound(s, start + got, read as nat);
                lemma_bits_value_split(s, start, got as nat, read as nat);
                lemma_u32_pow2_no_overflow(got as nat);
                lemma_u32_shl_is_mul(1u32, got);
                lemma_pow2_adds(got as nat, read as nat);
                lemma_pow2_pos(got as nat);
                vstd::bits::lemma_u32_pow2_no_overflow(0);
                if got + read < 32 {
                    vstd::arithmetic::power2::lemma_pow2_strictly_increases(
                        (got + read) as nat,
                        32,
                    );
                }
                vstd::arithmetic::power2::lemma2_to64();
                assert(r * pow2(got as nat) <= 0xffff_ffff) by (nonlinear_arith)
                    requires
                        r < pow2(read as nat),
                        pow2(got as nat) > 0,
                        pow2(got as nat) * pow2(read as nat) == pow2((got + read) as nat),
                        pow2((got + read) as nat) <= 0x1_0000_0000,
                ;
                lemma_u32_shl_is_mul(r, got);
                assert((1u32 << got) == pow2(got as nat));
                assert(bits < (1u32 << got));
                lemma_or_is_add(bits, r, got);
                assert((r << got) == r * pow2(got as nat));
                assert(r * pow2(got as nat) == pow2(got as nat) * r) by (nonlinear_arith);
                assert(bits_value(s, start, (got + read) as nat) == bits + (r << got));
            }
            bits = bits | (r << got);
            got = got + read;
            left = left - read;
        }
        Ok(bits)
    }
}

} // verus!
