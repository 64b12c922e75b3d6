//! The boolean entropy coder: an exact arithmetic model of its interval, the encoder,
//! and the reading side.
use crate::math::lemma_pow2_mono;
use crate::webp::bit_writer::bit_of;
use vstd::arithmetic::power2::{
    lemma2_to64, lemma2_to64_rest, lemma_pow2_adds, lemma_pow2_pos, lemma_pow2_unfold, pow2,
};
use vstd::prelude::*;

verus! {

/// The coding interval `[low, low + range)` after `shifts` doublings.
pub struct Interval {
    pub low: nat,
    pub range: nat,
    pub shifts: nat,
}

pub open spec fn start_interval() -> Interval {
    Interval { low: 0, range: 255, shifts: 0 }
}

/// Where the interval is divided for a bit that is false with probability `prob / 256`.
pub open spec fn split_of(range: nat, prob: u8) -> nat {
    (1 + ((range - 1) * prob) / 256) as nat
}

/// Doubles the interval until its range is at least 128.
pub open spec fn normalized(i: Interval) -> Interval
    decreases (if i.range < 128 && i.range > 0 { 128 - i.range } else { 0 }),
{
    if 0 < i.range < 128 {
        normalized(Interval { low: 2 * i.low, range: 2 * i.range, shifts: i.shifts + 1 })
    } else {
        i
    }
}

/// The part of the interval that stands for the bit.
pub open spec fn narrowed(i: Interval, bit: bool, prob: u8) -> Interval {
    let split = split_of(i.range, prob);
    if bit {
        Interval { low: i.low + split, range: (i.range - split) as nat, shifts: i.shifts }
    } else {
        Interval { low: i.low, range: split, shifts: i.shifts }
    }
}

pub open spec fn coded(i: Interval, bit: bool, prob: u8) -> Interval {
    normalized(narrowed(i, bit, prob))
}

/// The interval of a sequence of bits, each with its probability.
pub open spec fn interval_of(bools: Seq<(bool, u8)>) -> Interval
    decreases bools.len(),
{
    if bools.len() == 0 {
        start_interval()
    } else {
        coded(interval_of(bools.drop_last()), bools.last().0, bools.last().1)
    }
}

/// The bits with the 32 false ones that are written at the end.
pub open spec fn flushed(bools: Seq<(bool, u8)>) -> Seq<(bool, u8)> {
    bools + Seq::new(32, |k: int| (false, 128u8))
}

proof fn lemma_split(range: nat, prob: u8)
    requires
        128 <= range <= 255,
    ensures
        1 <= split_of(range, prob) < range,
{
    let a = (range - 1) as int;
    let p = prob as int;
    assert(0 <= a * p <= a * 255) by (nonlinear_arith)
        requires
            0 <= p <= 255,
            a >= 0,
    ;
}

proof fn lemma_normalized(i: Interval)
    requires
        1 <= i.range <= 255,
    ensures
        ({
            let r = normalized(i);
            let d = r.shifts - i.shifts;
            &&& r.shifts >= i.shifts
            &&& 128 <= r.range <= 255
            &&& r.low == i.low * pow2(d as nat)
            &&& r.range == i.range * pow2(d as nat)
            &&& i.range >= 128 ==> r == i
            &&& i.range < 128 ==> d >= 1
        }),
    decreases 256 - i.range,
{
    lemma2_to64();
    if i.range < 128 {
        let j = Interval { low: 2 * i.low, range: 2 * i.range, shifts: i.shifts + 1 };
        lemma_normalized(j);
        let r = normalized(j);
        let d = (r.shifts - j.shifts) as nat;
        lemma_pow2_unfold(d + 1);
        let p = pow2(d);
        let l = i.low;
        let g = i.range;
        assert((2 * l) * p == l * (2 * p)) by (nonlinear_arith);
        assert((2 * g) * p == g * (2 * p)) by (nonlinear_arith);
    } else {
        let p = pow2(0);
        let l = i.low;
        let g = i.range;
        assert(l * p == l && g * p == g) by (nonlinear_arith)
            requires
                p == 1,
        ;
    }
}

/// The range stays between 128 and 255.
proof fn lemma_range(bools: Seq<(bool, u8)>)
    ensures
        128 <= interval_of(bools).range <= 255,
        bools.len() > 0 ==> interval_of(bools).range <= 254,
        bools.len() == 0 ==> interval_of(bools) == start_interval(),
    decreases bools.len(),
{
    if bools.len() > 0 {
        let i = interval_of(bools.drop_last());
        lemma_range(bools.drop_last());
        lemma_split(i.range, bools.last().1);
        let n = narrowed(i, bools.last().0, bools.last().1);
        lemma_normalized(n);
        let r = normalized(n);
        let d = (r.shifts - n.shifts) as nat;
        if d > 0 {
            lemma_pow2_unfold(d);
            let p = pow2((d - 1) as nat);
            let g = n.range;
            assert(g * (2 * p) == 2 * (g * p)) by (nonlinear_arith);
        }
    }
}

/// `inner` lies within `outer` once both have the same number of doublings.
pub open spec fn within(inner: Interval, outer: Interval) -> bool {
    &&& outer.shifts <= inner.shifts
    &&& ({
        let p = pow2((inner.shifts - outer.shifts) as nat);
        &&& outer.low * p <= inner.low
        &&& inner.low + inner.range <= (outer.low + outer.range) * p
    })
}

proof fn lemma_within_trans(a: Interval, b: Interval, c: Interval)
    requires
        within(a, b),
        within(b, c),
    ensures
        within(a, c),
{
    let d1 = (a.shifts - b.shifts) as nat;
    let d2 = (b.shifts - c.shifts) as nat;
    lemma_pow2_adds(d2, d1);
    let p = pow2(d1) as int;
    let q = pow2(d2) as int;
    lemma_pow2_pos(d1);
    let cl = c.low as int;
    let bl = b.low as int;
    let al = a.low as int;
    assert(cl * (q * p) <= al) by (nonlinear_arith)
        requires
            cl * q <= bl,
            bl * p <= al,
            p > 0,
    ;
    let ch = (c.low + c.range) as int;
    let bh = (b.low + b.range) as int;
    let ah = (a.low + a.range) as int;
    assert(ah <= ch * (q * p)) by (nonlinear_arith)
        requires
            bh <= ch * q,
            ah <= bh * p,
            p > 0,
    ;
}

/// Coding a bit narrows the interval.
proof fn lemma_coded_within(i: Interval, bit: bool, prob: u8)
    requires
        128 <= i.range <= 255,
    ensures
        within(coded(i, bit, prob), narrowed(i, bit, prob)),
        within(narrowed(i, bit, prob), i),
        within(coded(i, bit, prob), i),
        128 <= coded(i, bit, prob).range <= 255,
{
    lemma2_to64();
    lemma_split(i.range, prob);
    let n = narrowed(i, bit, prob);
    lemma_normalized(n);
    let r = normalized(n);
    let p = pow2((r.shifts - n.shifts) as nat);
    let a = n.low;
    let b = n.range;
    assert((a + b) * p == a * p + b * p) by (nonlinear_arith);
    let one = pow2(0);
    let il = i.low;
    let ir = i.range;
    assert(il * one == il && (il + ir) * one == il + ir) by (nonlinear_arith)
        requires
            one == 1,
    ;
    lemma_within_trans(r, n, i);
}

/// The interval of a sequence lies within that of each of its starts.
proof fn lemma_prefix_within(bools: Seq<(bool, u8)>, k: int)
    requires
        0 <= k <= bools.len(),
    ensures
        within(interval_of(bools), interval_of(bools.take(k))),
    decreases bools.len() - k,
{
    lemma_range(bools.take(k));
    if k == bools.len() {
        assert(bools.take(k) =~= bools);
        lemma2_to64();
        let i = interval_of(bools);
        let one = pow2(0);
        let il = i.low;
        let ir = i.range;
        assert(il * one == il && (il + ir) * one == il + ir) by (nonlinear_arith)
            requires
                one == 1,
        ;
    } else {
        let t = bools.take(k + 1);
        assert(t.drop_last() =~= bools.take(k));
        lemma_coded_within(interval_of(bools.take(k)), bools[k].0, bools[k].1);
        lemma_prefix_within(bools, k + 1);
        lemma_within_trans(
            interval_of(bools),
            interval_of(t),
            interval_of(bools.take(k)),
        );
    }
}

/// Value of bytes read as one number, first byte first.
pub open spec fn be_value(s: Seq<u8>) -> nat
    decreases s.len(),
{
    if s.len() == 0 {
        0
    } else {
        256 * be_value(s.drop_last()) + s.last() as nat
    }
}

proof fn lemma_be_push(s: Seq<u8>, b: u8)
    ensures
        be_value(s.push(b)) == 256 * be_value(s) + b,
{
    assert(s.push(b).drop_last() =~= s);
}

proof fn lemma_be_update(s: Seq<u8>, i: int, b: u8)
    requires
        0 <= i < s.len(),
    ensures
        be_value(s.update(i, b)) == be_value(s) + (b - s[i]) * pow2(
            (8 * (s.len() - 1 - i)) as nat,
        ),
    decreases s.len(),
{
    lemma2_to64();
    let t = s.update(i, b);
    if i == s.len() - 1 {
        assert(t.drop_last() =~= s.drop_last());
        let d = b - s[i];
        let p = pow2(0) as int;
        assert(d * p == d) by (nonlinear_arith)
            requires
                p == 1,
        ;
    } else {
        lemma_be_update(s.drop_last(), i, b);
        assert(t.drop_last() =~= s.drop_last().update(i, b));
        let k = (8 * (s.len() - 2 - i)) as nat;
        lemma_pow2_adds(k, 8);
        let d = b - s[i];
        let p = pow2(k) as int;
        assert(256 * (d * p) == d * (p * 256)) by (nonlinear_arith);
    }
}

proof fn lemma_be_bound(s: Seq<u8>)
    ensures
        be_value(s) < pow2(8 * s.len()),
    decreases s.len(),
{
    lemma2_to64();
    if s.len() > 0 {
        lemma_be_bound(s.drop_last());
        lemma_pow2_adds((8 * (s.len() - 1)) as nat, 8);
    }
}

proof fn lemma_be_concat(a: Seq<u8>, b: Seq<u8>)
    ensures
        be_value(a + b) == be_value(a) * pow2(8 * b.len()) + be_value(b),
    decreases b.len(),
{
    lemma2_to64();
    if b.len() == 0 {
        assert(a + b =~= a);
        let x = be_value(a);
        let p = pow2(8 * b.len());
        assert(x * p == x) by (nonlinear_arith)
            requires
                p == 1,
        ;
    } else {
        lemma_be_concat(a, b.drop_last());
        assert((a + b).drop_last() =~= a + b.drop_last());
        let k = (8 * (b.len() - 1)) as nat;
        lemma_pow2_adds(k, 8);
        let x = be_value(a);
        let p = pow2(k);
        assert(256 * (x * p) == x * (p * 256)) by (nonlinear_arith);
    }
}

/// Leading bytes that a small number leaves zero can be cut off.
proof fn lemma_be_skip(s: Seq<u8>, k: int)
    requires
        0 <= k <= s.len(),
        be_value(s) < pow2((8 * (s.len() - k)) as nat),
    ensures
        be_value(s.skip(k)) == be_value(s),
{
    let a = s.take(k);
    let b = s.skip(k);
    assert(s =~= a + b);
    lemma_be_concat(a, b);
    let x = be_value(a) as int;
    let p = pow2(8 * b.len()) as int;
    let y = be_value(b) as int;
    lemma_pow2_pos(8 * b.len());
    assert(x == 0) by (nonlinear_arith)
        requires
            x * p + y < p,
            y >= 0,
            x >= 0,
            p > 0,
    ;
    assert(x * p == 0) by (nonlinear_arith)
        requires
            x == 0,
    ;
}

/// Number of zero bits that fill up the last byte.
pub open spec fn fill_bits(n: nat) -> nat {
    ((8 - n % 8) % 8) as nat
}

/// `bytes` is the stream of the bits: the number that the coder settled on, filled up
/// to whole bytes.
pub open spec fn is_stream_of(bytes: Seq<u8>, bools: Seq<(bool, u8)>) -> bool {
    let f = interval_of(flushed(bools));
    &&& f.shifts >= 31
    &&& 8 * bytes.len() == f.shifts + fill_bits(f.shifts)
    &&& be_value(bytes) == (f.low / 0x1_0000_0000) * pow2(fill_bits(f.shifts))
}

/// Writes bits with given probabilities into a byte stream.
pub struct BoolEncoder {
    range: u32,
    low: u64,
    /// Completed output bytes.
    out: Vec<u8>,
    /// Partial byte being assembled; holds `cur_bits` valid low bits.
    cur: u32,
    cur_bits: u32,
    bools: Ghost<Seq<(bool, u8)>>,
}

impl View for BoolEncoder {
    type V = Seq<(bool, u8)>;

    /// The bits written so far, each with its probability.
    closed spec fn view(&self) -> Seq<(bool, u8)> {
        self.bools@
    }
}

impl BoolEncoder {
    /// The bits that have left the window, as one number.
    spec fn emitted(&self) -> nat {
        be_value(self.out@) * pow2(self.cur_bits as nat) + self.cur as nat
    }

    spec fn count(&self) -> nat {
        8 * self.out@.len() + self.cur_bits as nat
    }

    /// The fields stand for the interval.
    spec fn stands_for(&self, i: Interval) -> bool {
        &&& self.cur_bits < 8
        &&& self.cur < pow2(self.cur_bits as nat)
        &&& self.range == i.range
        &&& self.low + self.range <= 0x1_0000_00ff
        &&& self.emitted() * 0x1_0000_0000 + self.low == i.low
        &&& self.count() == i.shifts
        &&& i.low + i.range <= 255 * pow2(i.shifts)
    }

    pub closed spec fn wf(&self) -> bool {
        self.stands_for(interval_of(self.bools@))
    }

    pub fn new() -> (r: Self)
        ensures
            r.wf(),
            r@ == Seq::<(bool, u8)>::empty(),
    {
        let r = BoolEncoder {
            range: 255,
            low: 0,
            out: Vec::new(),
            cur: 0,
            cur_bits: 0,
            bools: Ghost(Seq::empty()),
        };
        proof {
            lemma2_to64();
            assert(r.emitted() == 0) by {
                let p = pow2(0);
                assert(0 * p == 0) by (nonlinear_arith);
            }
        }
        r
    }

    /// Appends one bit to the output.
    fn emit_bit(&mut self, bit: bool)
        requires
            old(self).cur_bits < 8,
            old(self).cur < pow2(old(self).cur_bits as nat),
        ensures
            final(self).cur_bits < 8,
            final(self).cur < pow2(final(self).cur_bits as nat),
            final(self).emitted() == 2 * old(self).emitted() + (if bit {
                1nat
            } else {
                0nat
            }),
            final(self).count() == old(self).count() + 1,
            final(self).range == old(self).range,
            final(self).low == old(self).low,
            final(self).bools == old(self).bools,
    {
        let ghost before = *self;
        let b: u32 = if bit {
            1
        } else {
            0
        };
        proof {
            lemma2_to64();
            lemma_pow2_mono(self.cur_bits as nat, 7);
            lemma_pow2_unfold((self.cur_bits + 1) as nat);
            let v = be_value(self.out@);
            let p = pow2(self.cur_bits as nat);
            assert(v * (2 * p) == 2 * (v * p)) by (nonlinear_arith);
        }
        self.cur = self.cur * 2 + b;
        self.cur_bits = self.cur_bits + 1;
        assert(self.emitted() == 2 * before.emitted() + b);
        if self.cur_bits == 8 {
            let ghost mid = *self;
            proof {
                lemma_be_push(self.out@, self.cur as u8);
                let v = be_value(self.out@);
                let v2 = 256 * v + self.cur as nat;
                let one = pow2(0);
                assert(v2 * one == v2) by (nonlinear_arith)
                    requires
                        one == 1,
                ;
                assert(v * 256 == 256 * v);
            }
            self.out.push(self.cur as u8);
            self.cur = 0;
            self.cur_bits = 0;
        }
    }

    /// Adds 1 to the number that the bytes form.
    fn add_one_to_bytes(out: &mut Vec<u8>)
        requires
            be_value(old(out)@) + 1 < pow2(8 * old(out)@.len()),
        ensures
            final(out)@.len() == old(out)@.len(),
            be_value(final(out)@) == be_value(old(out)@) + 1,
    {
        let ghost start = be_value(out@);
        let ghost n = out@.len();
        let mut i: usize = out.len();
        proof {
            lemma2_to64();
        }
        while i > 0 && out[i - 1] == 0xff
            invariant
                i <= n,
                out@.len() == n,
                start + 1 == be_value(out@) + pow2((8 * (n - i)) as nat),
            decreases i,
        {
            proof {
                lemma_be_update(out@, i - 1, 0);
                lemma_pow2_adds((8 * (n - i)) as nat, 8);
                lemma2_to64();
                let p = pow2((8 * (n - i)) as nat) as int;
                let d = 0 - 255int;
                assert(d * p == -255 * p) by (nonlinear_arith)
                    requires
                        d == -255,
                ;
                assert(p * 256 == 256 * p);
            }
            out.set(i - 1, 0);
            i = i - 1;
        }
        proof {
            if i == 0 {
                assert(false);
            }
            lemma_be_update(out@, i - 1, (out@[i - 1] + 1) as u8);
            let p = pow2((8 * (n - i)) as nat) as int;
            assert(1 * p == p);
        }
        let b: u8 = out[i - 1] + 1;
        out.set(i - 1, b);
    }

    /// Adds 1 to the number that all emitted bits form.
    fn carry(&mut self)
        requires
            old(self).cur_bits < 8,
            old(self).cur < pow2(old(self).cur_bits as nat),
            old(self).emitted() + 1 < pow2(old(self).count()),
        ensures
            final(self).cur_bits == old(self).cur_bits,
            final(self).cur < pow2(final(self).cur_bits as nat),
            final(self).emitted() == old(self).emitted() + 1,
            final(self).count() == old(self).count(),
            final(self).range == old(self).range,
            final(self).low == old(self).low,
            final(self).bools == old(self).bools,
    {
        proof {
            lemma2_to64();
            lemma_pow2_mono(self.cur_bits as nat, 7);
        }
        let ghost v = be_value(self.out@);
        let ghost p = pow2(self.cur_bits as nat);
        let full: u32 = crate::math::pow2_u64(self.cur_bits as u8) as u32;
        if self.cur + 1 < full {
            self.cur = self.cur + 1;
        } else {
            proof {
                lemma_pow2_adds(8 * self.out@.len(), self.cur_bits as nat);
                let q = pow2(8 * self.out@.len());
                assert(v + 1 < q) by (nonlinear_arith)
                    requires
                        v * p + p < q * p,
                        p > 0,
                ;
                assert((v + 1) * p == v * p + p) by (nonlinear_arith);
            }
            self.cur = 0;
            Self::add_one_to_bytes(&mut self.out);
        }
    }

    /// Writes a bit that is false with probability `prob / 256`.
    pub fn write_bool(&mut self, bit: bool, prob: u8)
        requires
            old(self).wf(),
        ensures
            final(self).wf(),
            final(self)@ == old(self)@.push((bit, prob)),
    {
        self.code(bit, prob);
    }

    fn code(&mut self, bit: bool, prob: u8)
        requires
            old(self).wf(),
        ensures
            final(self).wf(),
            final(self)@ == old(self)@.push((bit, prob)),
            interval_of(final(self)@).shifts > interval_of(old(self)@).shifts ==> final(self).low
                < 0x1_0000_0000,
            interval_of(final(self)@).shifts == interval_of(old(self)@).shifts && !bit
                ==> final(self).low == old(self).low,
    {
        let ghost i0 = interval_of(self@);
        let ghost goal = coded(i0, bit, prob);
        let ghost bools2 = self@.push((bit, prob));
        proof {
            lemma_range(self@);
            lemma_split(i0.range, prob);
            assert(bools2.drop_last() =~= self@);
            let a = (self.range - 1) as int;
            let p = prob as int;
            assert(0 <= a * p <= 255 * 255) by (nonlinear_arith)
                requires
                    0 <= p <= 255,
                    0 <= a <= 255,
            ;
        }
        let split: u32 = 1 + ((self.range - 1) * prob as u32) / 256;
        if bit {
            self.low = self.low + split as u64;
            self.range = self.range - split;
        } else {
            self.range = split;
        }
        let ghost mut j = narrowed(i0, bit, prob);
        assert(self.stands_for(j));
        let ghost low1 = self.low;
        while self.range < 128
            invariant
                self.stands_for(j),
                1 <= j.range <= 255,
                j.shifts >= i0.shifts,
                normalized(j) == goal,
                self.bools@ == old(self).bools@,
                j.shifts > i0.shifts ==> self.low < 0x1_0000_0000,
                j.shifts == i0.shifts ==> self.low == low1,
            decreases 256 - self.range,
        {
            let ghost before = *self;
            proof {
                lemma2_to64();
                lemma_pow2_unfold(j.shifts + 1);
                lemma_pow2_pos(j.shifts);
            }
            if self.low >= 0x1_0000_0000 {
                proof {
                    let e = self.emitted();
                    let q = pow2(j.shifts);
                    assert(e + 1 < q) by {
                        assert((e + 1) * 0x1_0000_0000 <= 255 * q);
                    }
                }
                self.carry();
                self.low = self.low - 0x1_0000_0000;
            }
            assert(self.emitted() * 0x1_0000_0000 + self.low == j.low);
            assert(self.low < 0x1_0000_0000);
            let top: bool = self.low >= 0x8000_0000;
            self.emit_bit(top);
            self.low = if top {
                2 * self.low - 0x1_0000_0000
            } else {
                2 * self.low
            };
            self.range = self.range * 2;
            proof {
                j = Interval { low: 2 * j.low, range: 2 * j.range, shifts: j.shifts + 1 };
            }
        }
        self.bools = Ghost(bools2);
        assert(interval_of(bools2) == goal);
    }

    pub fn write_flag(&mut self, bit: bool)
        requires
            old(self).wf(),
        ensures
            final(self).wf(),
            final(self)@ == old(self)@.push((bit, 128u8)),
    {
        self.write_bool(bit, 128);
    }

    /// Writes the `n` low bits of `value`, most significant bit first.
    pub fn write_literal(&mut self, n: u32, value: u32)
        requires
            old(self).wf(),
            1 <= n <= 32,
        ensures
            final(self).wf(),
            final(self)@ == old(self)@ + literal_bools(n as nat, value as int),
    {
        let ghost start = self@;
        let mut k: u32 = n;
        let ghost goal = literal_bools(n as nat, value as int);
        assert(goal.take(0) =~= Seq::<(bool, u8)>::empty());
        assert(start + goal.take(0) =~= start);
        while k > 0
            invariant
                self.wf(),
                k <= n <= 32,
                goal == literal_bools(n as nat, value as int),
                self@ == start + goal.take(n - k),
            decreases k,
        {
            k = k - 1;
            let unit: u64 = crate::math::pow2_u64(k as u8);
            proof {
                lemma_pow2_pos(k as nat);
            }
            let bit: bool = (value as u64 / unit) % 2 == 1;
            assert(goal[n - 1 - k] == (bit, 128u8));
            self.write_flag(bit);
            assert(self@ =~= start + goal.take(n - k));
        }
        assert(goal.take(n as int) =~= goal);
    }

    /// Writes a magnitude of `n` bits and, unless it is zero, a sign.
    pub fn write_signed(&mut self, n: u32, value: i32)
        requires
            old(self).wf(),
            1 <= n <= 32,
        ensures
            final(self).wf(),
            final(self)@ == old(self)@ + signed_bools(n as nat, value as int),
    {
        let ghost start = self@;
        let magnitude: u32 = if value < 0 {
            (-(value as i64)) as u32
        } else {
            value as u32
        };
        self.write_literal(n, magnitude);
        if value != 0 {
            self.write_flag(value < 0);
        }
        assert(self@ =~= start + signed_bools(n as nat, value as int));
    }

    /// Flushes the coder and hands out the stream.
    pub fn finish(self) -> (r: Vec<u8>)
        requires
            self.wf(),
        ensures
            is_stream_of(r@, self@),
    {
        let mut enc = self;
        let ghost bools = self@;
        let ghost tail = Seq::new(32, |k: int| (false, 128u8));
        let ghost base = interval_of(bools);
        let mut k: u32 = 0;
        proof {
            assert(bools + tail.take(0) =~= bools);
            lemma2_to64();
            let l = base.low;
            let one = pow2(0);
            assert(l * one == l) by (nonlinear_arith)
                requires
                    one == 1,
            ;
        }
        while k < 32
            invariant
                enc.wf(),
                k <= 32,
                tail == Seq::new(32, |k: int| (false, 128u8)),
                base == interval_of(bools),
                enc@ == bools + tail.take(k as int),
                interval_of(enc@).shifts >= base.shifts,
                interval_of(enc@).low == base.low * pow2(
                    (interval_of(enc@).shifts - base.shifts) as nat,
                ),
                bools.len() > 0 ==> interval_of(enc@).shifts >= base.shifts + k,
                bools.len() == 0 ==> base.low == 0,
                interval_of(enc@).shifts + 1 >= k,
                bools.len() == 0 && k >= 1 ==> interval_of(enc@).range == 128,
                bools.len() == 0 && k == 0 ==> interval_of(enc@).range == 255,
                (bools.len() > 0 && k > 0) ==> enc.low < 0x1_0000_0000,
            decreases 32 - k,
        {
            let ghost prev = enc@;
            let ghost i = interval_of(prev);
            proof {
                lemma_range(prev);
                lemma_split(i.range, 128);
                let n = narrowed(i, false, 128);
                lemma_normalized(n);
                let r = normalized(n);
                let d1 = (i.shifts - base.shifts) as nat;
                let d2 = (r.shifts - n.shifts) as nat;
                lemma_pow2_adds(d1, d2);
                let l = base.low;
                let p = pow2(d1);
                let q = pow2(d2);
                assert((l * p) * q == l * (p * q)) by (nonlinear_arith);
                assert(i.range <= 254 ==> n.range < 128);
                assert(i.range == 255 ==> n.range == 128);
                assert(i.range == 128 ==> n.range == 64);
                if i.range == 128 {
                    reveal_with_fuel(normalized, 3);
                }
                assert(prev.push((false, 128u8)).drop_last() =~= prev);
                assert(bools + tail.take(k + 1) =~= prev.push((false, 128u8)));
            }
            enc.code(false, 128);
            k = k + 1;
        }
        assert(tail.take(32) =~= tail);
        assert(enc@ == flushed(bools));
        proof {
            let f = interval_of(enc@);
            let d = (f.shifts - base.shifts) as nat;
            if bools.len() > 0 {
                lemma2_to64();
                lemma2_to64_rest();
                lemma_pow2_adds((d - 32) as nat, 32);
                let l = base.low;
                let p = pow2((d - 32) as nat);
                assert(l * (p * 0x1_0000_0000) == (l * p) * 0x1_0000_0000) by (nonlinear_arith);
            } else {
                let p = pow2(d);
                assert(0 * p == 0) by (nonlinear_arith);
            }
        }
        enc.take_bytes(Ghost(bools))
    }

    /// The number that all bits form, as bytes.
    fn take_bytes(self, bools: Ghost<Seq<(bool, u8)>>) -> (r: Vec<u8>)
        requires
            self.wf(),
            self@ == flushed(bools@),
            interval_of(self@).shifts >= 31,
            interval_of(self@).low % 0x1_0000_0000 == 0,
            self.low < 0x1_0000_0000,
        ensures
            is_stream_of(r@, bools@),
    {
        let ghost f = interval_of(self@);
        let ghost fill = fill_bits(f.shifts);
        let mut out: Vec<u8> = self.out;
        let ghost number = self.emitted();
        proof {
            assert(self.low == 0);
            assert(number == f.low / 0x1_0000_0000);
            lemma2_to64();
            lemma_pow2_mono(self.cur_bits as nat, 7);
        }
        if self.cur_bits > 0 {
            let unit: u32 = crate::math::pow2_u64((8 - self.cur_bits) as u8) as u32;
            proof {
                assert(fill == 8 - self.cur_bits);
                lemma_pow2_adds(self.cur_bits as nat, fill);
                lemma_pow2_mono(fill, 8);
                let c = self.cur as nat;
                let p = pow2(self.cur_bits as nat);
                let q = pow2(fill);
                let v = be_value(self.out@);
                assert(c * q <= 255) by (nonlinear_arith)
                    requires
                        c + 1 <= p,
                        p * q == 256,
                        q >= 1,
                ;
                assert((v * p + c) * q == v * (p * q) + c * q) by (nonlinear_arith);
                lemma_be_push(self.out@, (c * q) as u8);
            }
            out.push((self.cur * unit) as u8);
        } else {
            proof {
                let v = be_value(self.out@);
                let one = pow2(0);
                assert(v * one == v) by (nonlinear_arith)
                    requires
                        one == 1,
                ;
                assert(number * one == number) by (nonlinear_arith)
                    requires
                        one == 1,
                ;
            }
        }
        proof {
            assert(be_value(out@) == number * pow2(fill));
            assert(8 * out@.len() == f.shifts + fill);
        }
        out
    }
}

/// The bits of a number, most significant bit first, each as likely as not.
pub open spec fn literal_bools(n: nat, value: int) -> Seq<(bool, u8)> {
    Seq::new(n, |k: int| (bit_of(value, n - 1 - k), 128u8))
}

/// Magnitude and sign of a number.
pub open spec fn signed_bools(n: nat, value: int) -> Seq<(bool, u8)> {
    literal_bools(
        n,
        if value < 0 {
            -value
        } else {
            value
        },
    ) + if value != 0 {
        seq![(value < 0, 128u8)]
    } else {
        Seq::empty()
    }
}

/// A reader: `value / 2^scale` is where the code lies within a range of `range`.
pub struct BoolReader {
    pub value: nat,
    pub scale: nat,
    pub range: nat,
}

/// A reader at the start of some bytes: the first byte is compared with the range.
pub open spec fn start_reader(bytes: Seq<u8>) -> BoolReader {
    BoolReader { value: be_value(bytes), scale: (8 * bytes.len() - 8) as nat, range: 255 }
}

/// A stream starts with three zero bytes, the part of the window above the range;
/// without them it stands for the same number.
pub proof fn lemma_leading_zeros(bytes: Seq<u8>, bools: Seq<(bool, u8)>)
    requires
        is_stream_of(bytes, bools),
    ensures
        bytes.len() >= 4,
        bytes[0] == 0,
        bytes[1] == 0,
        bytes[2] == 0,
        be_value(bytes.skip(3)) == be_value(bytes),
{
    let all = flushed(bools);
    let f = interval_of(all);
    let fill = fill_bits(f.shifts);
    let number = f.low / 0x1_0000_0000;
    lemma2_to64();
    lemma_range(all);
    assert(all.take(0) =~= Seq::<(bool, u8)>::empty());
    lemma_prefix_within(all, 0);
    let p = pow2(f.shifts);
    assert((0 + 255) * p == 255 * p);
    lemma_pow2_adds((f.shifts - 24) as nat, 24);
    lemma_pow2_adds((f.shifts - 24) as nat, fill);
    let a = pow2((f.shifts - 24) as nat);
    assert(p == a * 0x100_0000);
    assert(number < a);
    let q = pow2(fill);
    lemma_pow2_pos(fill);
    assert(number * q < a * q) by (nonlinear_arith)
        requires
            number < a,
            q > 0,
    ;
    assert((8 * (bytes.len() - 3)) as nat == (f.shifts - 24) + fill);
    lemma_be_skip(bytes, 3);
    let head = bytes.take(3);
    let tail = bytes.skip(3);
    assert(bytes =~= head + tail);
    lemma_be_concat(head, tail);
    let h = be_value(head) as int;
    let t = pow2(8 * tail.len()) as int;
    lemma_pow2_pos(8 * tail.len());
    assert(h == 0) by (nonlinear_arith)
        requires
            h * t == 0,
            t > 0,
    ;
    reveal_with_fuel(be_value, 4);
    assert(head[0] == bytes[0] && head[1] == bytes[1] && head[2] == bytes[2]);
    assert(head.drop_last().last() == bytes[1]);
    assert(head.drop_last().drop_last().last() == bytes[0]);
}

/// Doubles until the range is at least 128; behind the end of the stream zeros follow.
pub open spec fn renormalized(r: BoolReader) -> BoolReader
    decreases (if 0 < r.range < 128 { 128 - r.range } else { 0 }),
{
    if 0 < r.range < 128 {
        renormalized(
            if r.scale > 0 {
                BoolReader {
                    value: r.value,
                    scale: (r.scale - 1) as nat,
                    range: 2 * r.range,
                }
            } else {
                BoolReader { value: 2 * r.value, scale: 0, range: 2 * r.range }
            },
        )
    } else {
        r
    }
}

/// Reads a bit that is false with probability `prob / 256`.
pub open spec fn read_bool(r: BoolReader, prob: u8) -> (bool, BoolReader) {
    let split = split_of(r.range, prob);
    let big = split * pow2(r.scale);
    if r.value >= big {
        (
            true,
            renormalized(
                BoolReader {
                    value: (r.value - big) as nat,
                    scale: r.scale,
                    range: (r.range - split) as nat,
                },
            ),
        )
    } else {
        (
            false,
            renormalized(BoolReader { value: r.value, scale: r.scale, range: split }),
        )
    }
}

/// The reader after `k` bits were read with the given probabilities, starting behind
/// the zero bytes.
pub open spec fn reader_after(bytes: Seq<u8>, bools: Seq<(bool, u8)>, k: nat) -> BoolReader
    decreases k,
{
    if k == 0 {
        start_reader(bytes.skip(3))
    } else {
        read_bool(reader_after(bytes, bools, (k - 1) as nat), bools[k - 1].1).1
    }
}

/// The reader stands where the writer stood.
spec fn in_step(r: BoolReader, i: Interval, f: Interval) -> bool {
    let fill = fill_bits(f.shifts);
    &&& r.range == i.range
    &&& i.shifts + 32 <= f.shifts + fill
    &&& r.scale == f.shifts + fill - 32 - i.shifts
    &&& r.value * pow2((32 - fill) as nat) + i.low * pow2((f.shifts - i.shifts) as nat) == f.low
}

proof fn lemma_renormalized(r: BoolReader, i: Interval)
    requires
        r.range == i.range,
        1 <= i.range <= 255,
        r.scale >= normalized(i).shifts - i.shifts,
    ensures
        renormalized(r).value == r.value,
        renormalized(r).range == normalized(i).range,
        renormalized(r).scale == r.scale - (normalized(i).shifts - i.shifts),
    decreases 256 - i.range,
{
    lemma_normalized(i);
    if i.range < 128 {
        let j = Interval { low: 2 * i.low, range: 2 * i.range, shifts: i.shifts + 1 };
        lemma_normalized(j);
        let q = BoolReader { value: r.value, scale: (r.scale - 1) as nat, range: 2 * r.range };
        lemma_renormalized(q, j);
    }
}

/// Reading one bit keeps the reader in step and gives the bit that was written.
proof fn lemma_read_step(r: BoolReader, i: Interval, f: Interval, bit: bool, prob: u8)
    requires
        in_step(r, i, f),
        128 <= i.range <= 255,
        i.shifts <= f.shifts,
        within(f, coded(i, bit, prob)),
        f.range >= 1,
        coded(i, bit, prob).shifts + 32 <= f.shifts + fill_bits(f.shifts),
    ensures
        read_bool(r, prob).0 == bit,
        in_step(read_bool(r, prob).1, coded(i, bit, prob), f),
{
    let fill = fill_bits(f.shifts);
    let split = split_of(i.range, prob);
    lemma_split(i.range, prob);
    lemma_coded_within(i, bit, prob);
    let n = narrowed(i, bit, prob);
    let c = coded(i, bit, prob);
    lemma_normalized(n);
    lemma_within_trans(f, c, n);
    let d = (f.shifts - i.shifts) as nat;
    let up = (32 - fill) as nat;
    lemma_pow2_adds(r.scale, up);
    assert(r.scale + up == d);
    let u = pow2(up) as int;
    let sc = pow2(r.scale) as int;
    let p = pow2(d) as int;
    lemma_pow2_pos(up);
    let v = r.value as int;
    let il = i.low as int;
    let sp = split as int;
    let fl = f.low as int;
    assert((il + sp) * p == il * p + sp * p) by (nonlinear_arith);
    assert(sp * (sc * u) == (sp * sc) * u) by (nonlinear_arith);
    let big = sp * sc;
    // value * u == f.low - i.low * p, big * u == split * p
    if bit {
        assert(v >= big) by (nonlinear_arith)
            requires
                v * u >= big * u,
                u > 0,
        ;
    } else {
        assert(v < big) by (nonlinear_arith)
            requires
                v * u < big * u,
                u > 0,
        ;
    }
    let q = if bit {
        BoolReader {
            value: (r.value - big) as nat,
            scale: r.scale,
            range: (r.range - split) as nat,
        }
    } else {
        BoolReader { value: r.value, scale: r.scale, range: split }
    };
    assert(read_bool(r, prob) == (bit, renormalized(q)));
    lemma_renormalized(q, n);
    assert((v - big) * u == v * u - big * u) by (nonlinear_arith);
    // the doubled interval has the same start at full scale
    let e = (c.shifts - n.shifts) as nat;
    let rest = (f.shifts - c.shifts) as nat;
    lemma_pow2_adds(e, rest);
    let nl = n.low as int;
    let pe = pow2(e) as int;
    let pr = pow2(rest) as int;
    assert((nl * pe) * pr == nl * (pe * pr)) by (nonlinear_arith);
}

proof fn lemma_flush_shifts(bools: Seq<(bool, u8)>)
    requires
        bools.len() > 0,
    ensures
        interval_of(flushed(bools)).shifts >= interval_of(bools).shifts + 32,
{
    lemma_flush_shifts_k(bools, 32);
    assert(flushed(bools).take(bools.len() as int + 32) =~= flushed(bools));
}

proof fn lemma_flush_shifts_k(bools: Seq<(bool, u8)>, k: nat)
    requires
        bools.len() > 0,
        k <= 32,
    ensures
        interval_of(flushed(bools).take(bools.len() + k as int)).shifts >= interval_of(
            bools,
        ).shifts + k,
    decreases k,
{
    let all = flushed(bools);
    if k == 0 {
        assert(all.take(bools.len() as int) =~= bools);
    } else {
        lemma_flush_shifts_k(bools, (k - 1) as nat);
        let t = all.take(bools.len() + k as int);
        let t0 = all.take(bools.len() + k - 1);
        assert(t.drop_last() =~= t0);
        lemma_range(t0);
        let i = interval_of(t0);
        lemma_split(i.range, 128);
        lemma_normalized(narrowed(i, false, 128));
    }
}

/// A reader that starts behind the zero bytes and uses the probabilities of the writer
/// reads the bits that were written.
pub proof fn lemma_bools_read_back(bytes: Seq<u8>, bools: Seq<(bool, u8)>, k: nat)
    requires
        is_stream_of(bytes, bools),
        k < bools.len(),
    ensures
        read_bool(reader_after(bytes, bools, k), bools[k as int].1).0 == bools[k as int].0,
{
    lemma_in_step(bytes, bools, k);
}

proof fn lemma_in_step(bytes: Seq<u8>, bools: Seq<(bool, u8)>, k: nat)
    requires
        is_stream_of(bytes, bools),
        k <= bools.len(),
        bools.len() > 0,
    ensures
        in_step(
            reader_after(bytes, bools, k),
            interval_of(bools.take(k as int)),
            interval_of(flushed(bools)),
        ),
        k < bools.len() ==> read_bool(reader_after(bytes, bools, k), bools[k as int].1).0
            == bools[k as int].0,
    decreases k,
{
    let all = flushed(bools);
    let f = interval_of(all);
    let fill = fill_bits(f.shifts);
    lemma_flush_shifts(bools);
    lemma2_to64();
    lemma2_to64_rest();
    lemma_range(all);
    assert(all.take(bools.len() as int) =~= bools);
    let i = interval_of(bools.take(k as int));
    if k == 0 {
        assert(bools.take(0) =~= Seq::<(bool, u8)>::empty());
        // the code at the start
        let base = interval_of(bools);
        lemma_flush_low(bools);
        lemma_pow2_adds((32 - fill) as nat, fill);
        let number = f.low / 0x1_0000_0000;
        let a = pow2(fill);
        let b = pow2((32 - fill) as nat);
        assert((number * a) * b == number * (b * a)) by (nonlinear_arith);
        assert(b * a == 0x1_0000_0000);
        let w = b * a;
        assert(number * w == number * 0x1_0000_0000) by (nonlinear_arith)
            requires
                w == 0x1_0000_0000,
        ;
        let p = pow2(f.shifts);
        assert(0 * p == 0) by (nonlinear_arith);
        lemma_leading_zeros(bytes, bools);
        let r = start_reader(bytes.skip(3));
        assert(i == start_interval());
        assert(r.value * pow2((32 - fill) as nat) == f.low);
        assert(in_step(r, i, f));
    } else {
        lemma_in_step(bytes, bools, (k - 1) as nat);
        let t = bools.take(k as int);
        assert(t.drop_last() =~= bools.take(k - 1));
        lemma_next_within(bools, k - 1);
        lemma_range(bools.take(k - 1));
        lemma_read_step(
            reader_after(bytes, bools, (k - 1) as nat),
            interval_of(bools.take(k - 1)),
            f,
            bools[k - 1].0,
            bools[k - 1].1,
        );
    }
    if k < bools.len() {
        lemma_next_within(bools, k as int);
        lemma_range(bools.take(k as int));
        lemma_read_step(
            reader_after(bytes, bools, k),
            i,
            f,
            bools[k as int].0,
            bools[k as int].1,
        );
    }
}

/// What the whole stream says about the bit at `k`.
proof fn lemma_next_within(bools: Seq<(bool, u8)>, k: int)
    requires
        0 <= k < bools.len(),
    ensures
        ({
            let f = interval_of(flushed(bools));
            let i = interval_of(bools.take(k));
            let c = coded(i, bools[k].0, bools[k].1);
            &&& within(f, c)
            &&& i.shifts <= f.shifts
            &&& c.shifts + 32 <= f.shifts
            &&& c == interval_of(bools.take(k + 1))
        }),
{
    let all = flushed(bools);
    lemma_flush_shifts(bools);
    let t = bools.take(k + 1);
    assert(t.drop_last() =~= bools.take(k));
    assert(all.take(k + 1) =~= t);
    lemma_prefix_within(all, k + 1);
    lemma_prefix_within(bools, k + 1);
    lemma_range(bools.take(k));
    lemma_coded_within(interval_of(bools.take(k)), bools[k].0, bools[k].1);
}

/// The flush leaves a multiple of `2^32`.
proof fn lemma_flush_low(bools: Seq<(bool, u8)>)
    requires
        bools.len() > 0,
    ensures
        interval_of(flushed(bools)).low % 0x1_0000_0000 == 0,
{
    lemma_flush_low_k(bools, 32);
    assert(flushed(bools).take(bools.len() as int + 32) =~= flushed(bools));
    lemma_flush_shifts(bools);
    let f = interval_of(flushed(bools));
    let base = interval_of(bools);
    let d = (f.shifts - base.shifts) as nat;
    lemma2_to64();
    lemma2_to64_rest();
    lemma_pow2_adds((d - 32) as nat, 32);
    let l = base.low;
    let p = pow2((d - 32) as nat);
    assert(l * (p * 0x1_0000_0000) == (l * p) * 0x1_0000_0000) by (nonlinear_arith);
}

proof fn lemma_flush_low_k(bools: Seq<(bool, u8)>, k: nat)
    requires
        k <= 32,
    ensures
        ({
            let i = interval_of(flushed(bools).take(bools.len() + k as int));
            let base = interval_of(bools);
            &&& i.shifts >= base.shifts
            &&& i.low == base.low * pow2((i.shifts - base.shifts) as nat)
        }),
    decreases k,
{
    let all = flushed(bools);
    let base = interval_of(bools);
    lemma2_to64();
    if k == 0 {
        assert(all.take(bools.len() as int) =~= bools);
        let l = base.low;
        let one = pow2(0);
        assert(l * one == l) by (nonlinear_arith)
            requires
                one == 1,
        ;
    } else {
        lemma_flush_low_k(bools, (k - 1) as nat);
        let t = all.take(bools.len() + k as int);
        let t0 = all.take(bools.len() + k - 1);
        assert(t.drop_last() =~= t0);
        lemma_range(t0);
        let i = interval_of(t0);
        lemma_split(i.range, 128);
        let n = narrowed(i, false, 128);
        lemma_normalized(n);
        let r = normalized(n);
        let d1 = (i.shifts - base.shifts) as nat;
        let d2 = (r.shifts - n.shifts) as nat;
        lemma_pow2_adds(d1, d2);
        let l = base.low;
        let p = pow2(d1);
        let q = pow2(d2);
        assert((l * p) * q == l * (p * q)) by (nonlinear_arith);
    }
}

} // verus!
