//! Least-significant-bit-first bit output and its reading side.
use crate::math::{lemma_div_pow2_twice, lemma_div_pow2_zero, lemma_lt_pow2};
use vstd::arithmetic::power2::{lemma_pow2_pos, pow2};
use vstd::bits::lemma_u64_shr_is_div;
use vstd::prelude::*;

verus! {

/// Bit `k` of `v`, counted from the least significant bit.
pub open spec fn bit_of(v: int, k: int) -> bool {
    (v / (pow2(k as nat) as int)) % 2 == 1
}

/// The `n` low bits of `v`, least significant bit first.
pub open spec fn lsb_bits(v: int, n: nat) -> Seq<bool> {
    Seq::new(n, |k: int| bit_of(v, k))
}

/// The bits of a byte string: byte by byte, least significant bit first.
pub open spec fn byte_bits(bytes: Seq<u8>) -> Seq<bool> {
    Seq::new(8 * bytes.len(), |k: int| bit_of(bytes[k / 8] as int, k % 8))
}

/// Writes fields of up to 64 bits into a byte vector, least significant bit first.
///
/// The view is the sequence of all bits written so far, those that already
/// stood in the byte vector included.
pub struct BitWriter {
    pub writer: Vec<u8>,
    pub buffer: u64,
    pub nbits: u8,
}

impl View for BitWriter {
    type V = Seq<bool>;

    open spec fn view(&self) -> Seq<bool> {
        byte_bits(self.writer@) + lsb_bits(self.buffer as int, self.nbits as nat)
    }
}

/// `bit_of` as the machine computes it.
proof fn lemma_bit_of(v: u64, k: u64)
    requires
        k < 64,
    ensures
        bit_of(v as int, k as int) == ((v >> k) & 1 == 1),
{
    lemma_u64_shr_is_div(v, k);
    let q: u64 = v >> k;
    assert(q & 1 == q % 2) by (bit_vector);
}

proof fn lemma_buffer_or(b: u64, x: u64, n: u64, k: u64)
    requires
        n < 64,
        k < 64,
        b < pow2(n as nat),
    ensures
        bit_of((b | (x << n)) as int, k as int) == if k < n {
            bit_of(b as int, k as int)
        } else {
            bit_of(x as int, k - n)
        },
{
    lemma_bit_of(b | (x << n), k);
    lemma_u64_shr_is_div(b, n);
    lemma_div_pow2_zero(b as int, n as nat);
    if k < n {
        lemma_bit_of(b, k);
        assert(((b | (x << n)) >> k) & 1 == (b >> k) & 1) by (bit_vector)
            requires
                n < 64,
                k < n,
        ;
    } else {
        let d: u64 = (k - n) as u64;
        lemma_bit_of(x, d);
        assert(((b | (x << n)) >> k) & 1 == (x >> d) & 1) by (bit_vector)
            requires
                n < 64,
                k < 64,
                k >= n,
                d == k - n,
                b >> n == 0,
        ;
    }
}

proof fn lemma_byte_of_buffer(b: u64, j: u64, r: u64)
    requires
        j < 8,
        r < 8,
    ensures
        bit_of(((b >> ((8 * j) as u64)) as u8) as int, r as int) == bit_of(b as int, 8 * j + r),
{
    let s: u64 = (8 * j) as u64;
    let t: u64 = (8 * j + r) as u64;
    let c: u64 = ((b >> s) as u8) as u64;
    lemma_bit_of(c, r);
    lemma_bit_of(b, t);
    assert((((b >> s) as u8) as u64 >> r) & 1 == (b >> t) & 1) by (bit_vector)
        requires
            s <= 56,
            r < 8,
            t == s + r,
    ;
}

impl BitWriter {
    /// No bit is pending beyond the `nbits` counted ones.
    pub open spec fn wf(&self) -> bool {
        &&& self.nbits < 64
        &&& self.buffer < pow2(self.nbits as nat)
    }

    /// A writer that appends to `writer`.
    pub fn new(writer: Vec<u8>) -> (w: Self)
        ensures
            w.wf(),
            w@ == byte_bits(writer@),
            w.nbits == 0,
            w.writer == writer,
    {
        let w = BitWriter { writer, buffer: 0, nbits: 0 };
        proof {
            lemma_pow2_pos(0);
        }
        assert(w@ =~= byte_bits(writer@));
        w
    }

    /// Appends the `nbits` low bits of `bits`, least significant bit first.
    pub fn write_bits(&mut self, bits: u64, nbits: u8)
        requires
            old(self).wf(),
            nbits <= 64,
            bits < pow2(nbits as nat),
        ensures
            final(self).wf(),
            final(self)@ == old(self)@ + lsb_bits(bits as int, nbits as nat),
            final(self).nbits == (old(self).nbits + nbits) % 64,
            final(self).writer@.len() == old(self).writer@.len() + if old(self).nbits + nbits >= 64 {
                8int
            } else {
                0
            },
    {
        let ghost before = *self;
        let ghost n0: u64 = self.nbits as u64;
        let old_nbits: u8 = self.nbits;
        let merged: u64 = self.buffer | (bits << (old_nbits as u64));
        let total: u8 = old_nbits + nbits;
        proof {
            assert forall|k: int| 0 <= k < 64 implies #[trigger] bit_of(merged as int, k) == (if k < n0 {
                bit_of(before.buffer as int, k)
            } else {
                bit_of(bits as int, k - n0)
            }) by {
                lemma_buffer_or(before.buffer, bits, n0, k as u64);
            }
        }
        if total >= 64 {
            let rest: u8 = total - 64;
            let used: u8 = nbits - rest;
            let ghost start = self.writer@;
            let mut j: u64 = 0;
            while j < 8
                invariant
                    j <= 8,
                    self.writer@.len() == start.len() + j,
                    forall|i: int| 0 <= i < start.len() ==> self.writer@[i] == start[i],
                    forall|i: int|
                        0 <= i < j ==> #[trigger] self.writer@[start.len() + i] == ((merged >> ((8
                            * i) as u64)) as u8),
                decreases 8 - j,
            {
                let b: u8 = (merged >> (8 * j)) as u8;
                self.writer.push(b);
                j = j + 1;
            }
            self.nbits = rest;
            self.buffer = if used < 64 {
                bits >> (used as u64)
            } else {
                0
            };
            proof {
                let w1 = self.writer@;
                let lhs = self@;
                let rhs = before@ + lsb_bits(bits as int, nbits as nat);
                assert(lhs.len() == rhs.len());
                assert forall|k: int| 0 <= k < lhs.len() implies lhs[k] == rhs[k] by {
                    let base = 8 * start.len();
                    if k < base {
                        assert(w1[k / 8] == start[k / 8]);
                    } else if k < base + 64 {
                        let q = k - base;
                        assert(k / 8 == start.len() + q / 8);
                        assert(k % 8 == q % 8);
                        assert(w1[start.len() + q / 8] == ((merged >> ((8 * (q / 8)) as u64)) as u8));
                        lemma_byte_of_buffer(merged, (q / 8) as u64, (q % 8) as u64);
                        assert(lhs[k] == bit_of(merged as int, q));
                    } else {
                        let q = k - base - 64;
                        if used < 64 {
                            lemma_u64_shr_is_div(bits, used as u64);
                            lemma_div_pow2_twice(bits as int, used as nat, q as nat);
                        }
                        assert(used + q < nbits);
                        assert(lhs[k] == bit_of(self.buffer as int, q));
                        assert(rhs[k] == bit_of(bits as int, used + q));
                    }
                }
                assert(lhs =~= rhs);
                lemma_pow2_pos(rest as nat);
                if used < 64 {
                    lemma_u64_shr_is_div(bits, used as u64);
                    lemma_div_pow2_twice(bits as int, used as nat, rest as nat);
                    lemma_div_pow2_zero(bits as int, nbits as nat);
                    lemma_lt_pow2(self.buffer as int, rest as nat);
                }
            }
        } else {
            self.buffer = merged;
            self.nbits = total;
            proof {
                let rhs = before@ + lsb_bits(bits as int, nbits as nat);
                assert(self@ =~= rhs);
                let n: u64 = nbits as u64;
                let t: u64 = total as u64;
                let b = before.buffer;
                lemma_u64_shr_is_div(b, n0);
                lemma_div_pow2_zero(b as int, n0 as nat);
                lemma_u64_shr_is_div(bits, n);
                lemma_div_pow2_zero(bits as int, n as nat);
                assert((b | (bits << n0)) >> t == 0) by (bit_vector)
                    requires
                        b >> n0 == 0,
                        bits >> n == 0,
                        t == n0 + n,
                        t < 64,
                ;
                lemma_u64_shr_is_div(merged, t);
                lemma_lt_pow2(merged as int, t as nat);
            }
        }
    }

    /// Pads with zero bits to a whole number of bytes and moves every pending bit out.
    pub fn flush(&mut self)
        requires
            old(self).wf(),
        ensures
            final(self).wf(),
            final(self).nbits == 0,
            byte_bits(final(self).writer@) == old(self)@ + lsb_bits(0, padding(old(self)@.len())),
    {
        let ghost before = *self;
        let r: u8 = self.nbits % 8;
        if r != 0 {
            proof {
                lemma_pow2_pos((8 - r) as nat);
            }
            self.write_bits(0, 8 - r);
        }
        let ghost padded = self@;
        let ghost mid = *self;
        assert(padded =~= before@ + lsb_bits(0, padding(before@.len())));
        assert(self.nbits % 8 == 0);
        let count: u8 = self.nbits / 8;
        let ghost start = self.writer@;
        let mut j: u8 = 0;
        while j < count
            invariant
                j <= count,
                count < 8,
                self.buffer == mid.buffer,
                self.nbits == mid.nbits,
                self.writer@.len() == start.len() + j,
                forall|i: int| 0 <= i < start.len() ==> self.writer@[i] == start[i],
                forall|i: int|
                    0 <= i < j ==> #[trigger] self.writer@[start.len() + i] == ((self.buffer >> ((8
                        * i) as u64)) as u8),
            decreases count - j,
        {
            let b: u8 = (self.buffer >> (8 * j as u64)) as u8;
            self.writer.push(b);
            j = j + 1;
        }
        proof {
            let w1 = self.writer@;
            let lhs = byte_bits(w1);
            assert forall|k: int| 0 <= k < lhs.len() implies lhs[k] == padded[k] by {
                let base = 8 * start.len();
                if k < base {
                    assert(w1[k / 8] == start[k / 8]);
                } else {
                    let q = k - base;
                    assert(k / 8 == start.len() + q / 8);
                    assert(k % 8 == q % 8);
                    assert(w1[start.len() + q / 8] == ((self.buffer >> ((8 * (q / 8)) as u64))
                        as u8));
                    lemma_byte_of_buffer(self.buffer, (q / 8) as u64, (q % 8) as u64);
                }
            }
            assert(lhs =~= padded);
        }
        self.buffer = 0;
        self.nbits = 0;
        proof {
            lemma_pow2_pos(0);
        }
    }
}

/// Number of zero bits that complete `n` bits to whole bytes.
pub open spec fn padding(n: nat) -> nat {
    ((8 - n % 8) % 8) as nat
}

/// Value of a bit string read least significant bit first.
pub open spec fn lsb_value(s: Seq<bool>) -> nat
    decreases s.len(),
{
    if s.len() == 0 {
        0
    } else {
        2 * lsb_value(s.skip(1)) + if s[0] {
            1nat
        } else {
            0nat
        }
    }
}

/// Reads a field of `n` bits: its value and what follows it.
pub open spec fn read_field(s: Seq<bool>, n: nat) -> Option<(nat, Seq<bool>)> {
    if s.len() < n {
        None
    } else {
        Some((lsb_value(s.take(n as int)), s.skip(n as int)))
    }
}

proof fn lemma_lsb_value(v: nat, n: nat)
    requires
        v < pow2(n),
    ensures
        lsb_value(lsb_bits(v as int, n)) == v,
    decreases n,
{
    let s = lsb_bits(v as int, n);
    vstd::arithmetic::power2::lemma2_to64();
    if n > 0 {
        let h = v / 2;
        vstd::arithmetic::power2::lemma_pow2_unfold(n);
        lemma_lsb_value(h, (n - 1) as nat);
        assert(s.skip(1) =~= lsb_bits(h as int, (n - 1) as nat)) by {
            assert forall|k: int| 0 <= k < n - 1 implies s.skip(1)[k] == lsb_bits(
                h as int,
                (n - 1) as nat,
            )[k] by {
                lemma_div_pow2_twice(v as int, 1, k as nat);
            }
        }
        let p = pow2(0) as int;
        let w = v as int;
        assert(w / p == w) by (nonlinear_arith)
            requires
                p == 1,
        ;
    }
}

/// Reading a field gives back the value that was written into it.
pub proof fn lemma_read_field(v: nat, n: nat, rest: Seq<bool>)
    requires
        v < pow2(n),
    ensures
        read_field(lsb_bits(v as int, n) + rest, n) == Some((v, rest)),
{
    let s = lsb_bits(v as int, n) + rest;
    assert(s.take(n as int) =~= lsb_bits(v as int, n));
    assert(s.skip(n as int) =~= rest);
    lemma_lsb_value(v, n);
}

} // verus!
