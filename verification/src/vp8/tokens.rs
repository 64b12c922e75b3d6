//! Coefficient tokens: how the coefficients of a block become bits, and how they are
//! read back.
use crate::vp8::bool_coder::BoolEncoder;
use crate::vp8::coeff_probs::{node_prob, node_prob_at};
use crate::vp8::tables::{
    band_at, band_of, extra_prob, extra_prob_at, lemma_zigzag, zigzag, zigzag_at, zigzag_inverse, DCT_0, DCT_1,
    DCT_2, DCT_3, DCT_4, DCT_CAT1, DCT_CAT2, DCT_CAT3, DCT_CAT4, DCT_CAT5, DCT_CAT6, DCT_CAT_BASE,
    DCT_EOB,
};
use crate::webp::bit_writer::bit_of;
use vstd::arithmetic::power2::{lemma2_to64, lemma_pow2_pos, pow2};
use vstd::prelude::*;

verus! {

/// Bits with their probabilities.
pub type Bools = Seq<(bool, u8)>;

/// The nodes from `k` on: one true bit for every token that is passed by, and a false
/// bit at the token.
pub open spec fn chain_bools(token: int, block_type: int, band: int, ctx: int, k: int) -> Bools
    decreases 11 - k,
{
    if k > 10 {
        Seq::empty()
    } else if token == k - 1 {
        seq![(false, node_prob(block_type, band, ctx, k))]
    } else {
        seq![(true, node_prob(block_type, band, ctx, k))] + chain_bools(
            token,
            block_type,
            band,
            ctx,
            k + 1,
        )
    }
}

/// The bits of a token. After a zero the end of the block need not be ruled out.
pub open spec fn token_bools(token: int, block_type: int, band: int, ctx: int, skip: bool) -> Bools {
    let p0 = node_prob(block_type, band, ctx, 0);
    if skip {
        chain_bools(token, block_type, band, ctx, 1)
    } else if token == DCT_EOB {
        seq![(false, p0)]
    } else {
        seq![(true, p0)] + chain_bools(token, block_type, band, ctx, 1)
    }
}

/// Writes a token.
pub fn encode_token(
    enc: &mut BoolEncoder,
    token: i8,
    block_type: usize,
    band: usize,
    ctx: usize,
    skip: bool,
)
    requires
        old(enc).wf(),
        block_type < 4,
        band < 8,
        ctx < 3,
        0 <= token <= DCT_EOB,
        skip ==> token < DCT_EOB,
    ensures
        final(enc).wf(),
        final(enc)@ == old(enc)@ + token_bools(
            token as int,
            block_type as int,
            band as int,
            ctx as int,
            skip,
        ),
{
    let ghost start = enc@;
    let ghost t = block_type as int;
    let ghost b = band as int;
    let ghost c = ctx as int;
    if !skip {
        let p0: u8 = node_prob_at(block_type, band, ctx, 0);
        if token == DCT_EOB {
            enc.write_bool(false, p0);
            assert(enc@ =~= start + token_bools(token as int, t, b, c, skip));
            return;
        }
        enc.write_bool(true, p0);
    }
    let ghost mid = enc@;
    let mut k: usize = 1;
    let mut done: bool = false;
    assert(mid + chain_bools(token as int, t, b, c, 1) =~= start + token_bools(
        token as int,
        t,
        b,
        c,
        skip,
    ));
    while k <= 10 && !done
        invariant
            enc.wf(),
            1 <= k <= 11,
            block_type < 4,
            band < 8,
            ctx < 3,
            0 <= token < DCT_EOB,
            t == block_type,
            b == band,
            c == ctx,
            mid + chain_bools(token as int, t, b, c, 1) == enc@ + (if done {
                Seq::empty()
            } else {
                chain_bools(token as int, t, b, c, k as int)
            }),
        decreases 11 - k, (if done { 0int } else { 1int }),
    {
        let p: u8 = node_prob_at(block_type, band, ctx, k);
        let ghost prev = enc@;
        if token as usize == k - 1 {
            enc.write_bool(false, p);
            done = true;
            assert(prev + seq![(false, p)] =~= enc@ + Seq::<(bool, u8)>::empty());
        } else {
            enc.write_bool(true, p);
            assert(prev + (seq![(true, p)] + chain_bools(token as int, t, b, c, k + 1)) =~= enc@
                + chain_bools(token as int, t, b, c, k + 1));
            k = k + 1;
        }
    }
    assert(enc@ + Seq::<(bool, u8)>::empty() =~= enc@);
}

/// Token, number of extra bits and extra value of a magnitude.
pub open spec fn token_of(magnitude: int) -> (int, nat, int) {
    if magnitude <= 4 {
        (magnitude, 0, 0)
    } else if magnitude <= 6 {
        (5, 1, magnitude - 5)
    } else if magnitude <= 10 {
        (6, 2, magnitude - 7)
    } else if magnitude <= 18 {
        (7, 3, magnitude - 11)
    } else if magnitude <= 34 {
        (8, 4, magnitude - 19)
    } else if magnitude <= 66 {
        (9, 5, magnitude - 35)
    } else {
        (10, 11, magnitude - 67)
    }
}

/// Splits a magnitude into token and extra bits.
pub fn value_to_token(abs_v: u32) -> (r: (i8, usize, u32))
    requires
        abs_v >= 1,
    ensures
        (r.0 as int, r.1 as nat, r.2 as int) == token_of(abs_v as int),
        1 <= r.0 <= 10,
        r.1 <= 11,
{
    if abs_v == 1 {
        (DCT_1, 0, 0)
    } else if abs_v == 2 {
        (DCT_2, 0, 0)
    } else if abs_v == 3 {
        (DCT_3, 0, 0)
    } else if abs_v == 4 {
        (DCT_4, 0, 0)
    } else if abs_v <= 6 {
        (DCT_CAT1, 1, abs_v - DCT_CAT_BASE[0] as u32)
    } else if abs_v <= 10 {
        (DCT_CAT2, 2, abs_v - DCT_CAT_BASE[1] as u32)
    } else if abs_v <= 18 {
        (DCT_CAT3, 3, abs_v - DCT_CAT_BASE[2] as u32)
    } else if abs_v <= 34 {
        (DCT_CAT4, 4, abs_v - DCT_CAT_BASE[3] as u32)
    } else if abs_v <= 66 {
        (DCT_CAT5, 5, abs_v - DCT_CAT_BASE[4] as u32)
    } else {
        (DCT_CAT6, 11, abs_v - DCT_CAT_BASE[5] as u32)
    }
}

/// The extra bits of a category, most significant bit first.
pub open spec fn extra_bools(token: int, n: nat, extra: int) -> Bools {
    Seq::new(n, |k: int| (bit_of(extra, n - 1 - k), extra_prob(token - 5, k)))
}

/// Writes the extra bits of a large coefficient.
pub fn encode_extra_bits(enc: &mut BoolEncoder, token: i8, extra_bits: usize, extra_val: u32)
    requires
        old(enc).wf(),
        extra_bits <= 11,
        extra_bits > 0 ==> DCT_CAT1 <= token <= DCT_CAT6,
    ensures
        final(enc).wf(),
        final(enc)@ == old(enc)@ + extra_bools(token as int, extra_bits as nat, extra_val as int),
{
    let ghost start = enc@;
    let ghost goal = extra_bools(token as int, extra_bits as nat, extra_val as int);
    let mut i: usize = 0;
    assert(start + goal.take(0) =~= start);
    while i < extra_bits
        invariant
            enc.wf(),
            i <= extra_bits <= 11,
            extra_bits > 0 ==> DCT_CAT1 <= token <= DCT_CAT6,
            goal == extra_bools(token as int, extra_bits as nat, extra_val as int),
            enc@ == start + goal.take(i as int),
        decreases extra_bits - i,
    {
        let shift: usize = extra_bits - 1 - i;
        let unit: u64 = crate::math::pow2_u64(shift as u8);
        proof {
            lemma_pow2_pos(shift as nat);
        }
        let bit: bool = (extra_val as u64 / unit) % 2 == 1;
        let p: u8 = extra_prob_at((token - 5) as usize, i);
        assert(goal[i as int] == (bit, p));
        enc.write_bool(bit, p);
        i = i + 1;
        assert(enc@ =~= start + goal.take(i as int));
    }
    assert(goal.take(extra_bits as int) =~= goal);
}

/// The last position up to `i` with a nonzero coefficient, -1 if there is none.
pub open spec fn last_nonzero(coeffs: Seq<i16>, i: int) -> int
    decreases i + 1,
{
    if i < 0 {
        -1
    } else if coeffs[zigzag(i)] != 0 {
        i
    } else {
        last_nonzero(coeffs, i - 1)
    }
}

pub open spec fn magnitude_of(c: i16) -> int {
    if c < 0 {
        -c
    } else {
        c as int
    }
}

/// The bits of one nonzero coefficient behind its token: extra bits and sign.
pub open spec fn value_bools(c: i16) -> Bools {
    let t = token_of(magnitude_of(c));
    extra_bools(t.0, t.1, t.2) + seq![(c < 0, 128u8)]
}

/// The bits of a block from position `i` on.
pub open spec fn block_bools(
    coeffs: Seq<i16>,
    block_type: int,
    i: int,
    complexity: int,
    skip: bool,
) -> Bools
    decreases 16 - i,
{
    if i >= 16 {
        Seq::empty()
    } else if i > last_nonzero(coeffs, 15) {
        token_bools(DCT_EOB as int, block_type, band_of(i), complexity, false)
    } else {
        let c = coeffs[zigzag(i)];
        let band = band_of(i);
        if c == 0 {
            token_bools(0, block_type, band, complexity, skip) + block_bools(
                coeffs,
                block_type,
                i + 1,
                0,
                true,
            )
        } else {
            token_bools(token_of(magnitude_of(c)).0, block_type, band, complexity, skip) + (
            value_bools(c) + block_bools(
                coeffs,
                block_type,
                i + 1,
                if magnitude_of(c) == 1 {
                    1
                } else {
                    2
                },
                false,
            ))
        }
    }
}

proof fn lemma_last_nonzero(coeffs: Seq<i16>, i: int)
    requires
        i < 16,
    ensures
        -1 <= last_nonzero(coeffs, i),
        i >= -1 ==> last_nonzero(coeffs, i) <= i,
        last_nonzero(coeffs, i) >= 0 ==> coeffs[zigzag(last_nonzero(coeffs, i))] != 0,
        forall|k: int|
            last_nonzero(coeffs, i) < k <= i && k >= 0 ==> coeffs[zigzag(k)] == 0,
    decreases i + 1,
{
    if i >= 0 && coeffs[zigzag(i)] == 0 {
        lemma_last_nonzero(coeffs, i - 1);
    }
}

/// Writes the coefficients of a block from position `first` on.
pub fn encode_block(
    enc: &mut BoolEncoder,
    coeffs: &[i16; 16],
    block_type: usize,
    first: usize,
    ctx: usize,
)
    requires
        old(enc).wf(),
        block_type < 4,
        first < 16,
        ctx < 3,
        forall|k: int| 0 <= k < first ==> coeffs@[zigzag(k)] == 0,
    ensures
        final(enc).wf(),
        final(enc)@ == old(enc)@ + block_bools(
            coeffs@,
            block_type as int,
            first as int,
            ctx as int,
            false,
        ),
{
    let ghost cs = coeffs@;
    let ghost t = block_type as int;
    let ghost start = enc@;
    let ghost goal = block_bools(cs, t, first as int, ctx as int, false);
    // one past the last position with a nonzero coefficient
    let mut end: usize = 16;
    while end > first && coeffs[zigzag_at(end - 1)] == 0
        invariant
            first <= end <= 16,
            cs == coeffs@,
            last_nonzero(cs, 15) == last_nonzero(cs, end - 1),
        decreases end,
    {
        proof {
            lemma_zigzag(end - 1);
        }
        end = end - 1;
    }
    proof {
        lemma_last_nonzero(cs, end - 1);
        lemma_last_nonzero(cs, 15);
        if end == first {
            if last_nonzero(cs, 15) >= 0 {
                assert(cs[zigzag(last_nonzero(cs, 15))] == 0);
            }
        } else {
            lemma_zigzag(end - 1);
        }
    }
    let mut complexity: usize = ctx;
    let mut skip: bool = false;
    let mut i: usize = first;
    while i < end
        invariant
            enc.wf(),
            first <= i <= end <= 16,
            block_type < 4,
            complexity < 3,
            cs == coeffs@,
            t == block_type,
            end > first ==> last_nonzero(cs, 15) == end - 1,
            end == first ==> last_nonzero(cs, 15) < first,
            last_nonzero(cs, 15) >= 0 ==> cs[zigzag(last_nonzero(cs, 15))] != 0,
            (i == end && end > first) ==> !skip,
            i == first ==> !skip,
            start + goal == enc@ + block_bools(cs, t, i as int, complexity as int, skip),
        decreases end - i,
    {
        proof {
            lemma_zigzag(i as int);
        }
        let band: usize = band_at(i);
        let coeff: i16 = coeffs[zigzag_at(i)];
        let ghost prev = enc@;
        if coeff == 0 {
            encode_token(enc, DCT_0, block_type, band, complexity, skip);
            proof {
                let a = token_bools(0, t, band as int, complexity as int, skip);
                let r = block_bools(cs, t, i + 1, 0, true);
                assert(prev + (a + r) =~= (prev + a) + r);
            }
            complexity = 0;
            skip = true;
        } else {
            let abs_v: u32 = if coeff < 0 {
                (-(coeff as i32)) as u32
            } else {
                coeff as u32
            };
            let (token, extra_bits, extra_val) = value_to_token(abs_v);
            encode_token(enc, token, block_type, band, complexity, skip);
            encode_extra_bits(enc, token, extra_bits, extra_val);
            enc.write_flag(coeff < 0);
            let next: usize = if abs_v == 1 {
                1
            } else {
                2
            };
            proof {
                let a = token_bools(token as int, t, band as int, complexity as int, skip);
                let x = extra_bools(token as int, extra_bits as nat, extra_val as int);
                let r = block_bools(cs, t, i + 1, next as int, false);
                assert(value_bools(coeff) =~= x + seq![(coeff < 0, 128u8)]);
                assert(prev + (a + (value_bools(coeff) + r)) =~= ((prev + a) + x).push(
                    (coeff < 0, 128u8),
                ) + r);
            }
            complexity = next;
            skip = false;
        }
        i = i + 1;
    }
    if end < 16 {
        proof {
            lemma_zigzag(end as int);
        }
        let band: usize = band_at(end);
        encode_token(enc, DCT_EOB, block_type, band, complexity, false);
    } else {
        assert(enc@ + Seq::<(bool, u8)>::empty() =~= enc@);
    }
}

/// Takes a bit that was written with the given probability.
pub open spec fn take_bool(bs: Bools, prob: u8) -> Option<(bool, Bools)> {
    if bs.len() == 0 || bs[0].1 != prob {
        None
    } else {
        Some((bs[0].0, bs.skip(1)))
    }
}

/// Reads a token from node `k` on.
pub open spec fn read_chain(bs: Bools, block_type: int, band: int, ctx: int, k: int) -> Option<
    (int, Bools),
>
    decreases 11 - k,
{
    if k > 10 {
        Some((10, bs))
    } else {
        match take_bool(bs, node_prob(block_type, band, ctx, k)) {
            None => None,
            Some((bit, rest)) => if bit {
                read_chain(rest, block_type, band, ctx, k + 1)
            } else {
                Some((k - 1, rest))
            },
        }
    }
}

/// Smallest magnitude of a token.
pub open spec fn token_base(token: int) -> int {
    if token <= 4 {
        token
    } else if token == 5 {
        5
    } else if token == 6 {
        7
    } else if token == 7 {
        11
    } else if token == 8 {
        19
    } else if token == 9 {
        35
    } else {
        67
    }
}

/// Number of extra bits of a token.
pub open spec fn token_extra_bits(token: int) -> nat {
    if token <= 4 {
        0
    } else if token <= 9 {
        (token - 4) as nat
    } else {
        11
    }
}

/// Reads extra bits from `k` on.
pub open spec fn read_extra(bs: Bools, token: int, n: nat, k: int, acc: int) -> Option<(int, Bools)>
    decreases n - k,
{
    if k >= n || k < 0 {
        Some((acc, bs))
    } else {
        match take_bool(bs, extra_prob(token - 5, k)) {
            None => None,
            Some((bit, rest)) => read_extra(
                rest,
                token,
                n,
                k + 1,
                2 * acc + if bit {
                    1int
                } else {
                    0
                },
            ),
        }
    }
}

/// Reads extra bits and sign of a coefficient with the given token.
pub open spec fn read_value(bs: Bools, token: int) -> Option<(int, Bools)> {
    match read_extra(bs, token, token_extra_bits(token), 0, 0) {
        None => None,
        Some((extra, rest)) => match take_bool(rest, 128) {
            None => None,
            Some((negative, rest2)) => {
                let m = token_base(token) + extra;
                Some(
                    (
                        if negative {
                            -m
                        } else {
                            m
                        },
                        rest2,
                    ),
                )
            },
        },
    }
}

/// Reads the coefficients of a block from position `i` on; `acc` holds those before.
pub open spec fn read_block(
    bs: Bools,
    block_type: int,
    i: int,
    complexity: int,
    skip: bool,
    acc: Seq<i16>,
) -> Option<(Seq<i16>, Bools)>
    decreases 16 - i,
{
    if i >= 16 {
        Some((acc, bs))
    } else {
        let band = band_of(i);
        match if skip {
            Some((true, bs))
        } else {
            take_bool(bs, node_prob(block_type, band, complexity, 0))
        } {
            None => None,
            Some((more, rest)) => if !more {
                Some((acc, rest))
            } else {
                match read_chain(rest, block_type, band, complexity, 1) {
                    None => None,
                    Some((token, rest2)) => if token == 0 {
                        read_block(rest2, block_type, i + 1, 0, true, acc)
                    } else {
                        match read_value(rest2, token) {
                            None => None,
                            Some((v, rest3)) => read_block(
                                rest3,
                                block_type,
                                i + 1,
                                if v == 1 || v == -1 {
                                    1
                                } else {
                                    2
                                },
                                false,
                                acc.update(zigzag(i), v as i16),
                            ),
                        }
                    },
                }
            },
        }
    }
}

proof fn lemma_take_bool(bit: bool, prob: u8, rest: Bools)
    ensures
        take_bool(seq![(bit, prob)] + rest, prob) == Some((bit, rest)),
{
    let s = seq![(bit, prob)] + rest;
    assert(s.skip(1) =~= rest);
}

proof fn lemma_read_chain(
    token: int,
    block_type: int,
    band: int,
    ctx: int,
    k: int,
    rest: Bools,
)
    requires
        1 <= k <= 11,
        k - 1 <= token <= 10,
    ensures
        read_chain(
            chain_bools(token, block_type, band, ctx, k) + rest,
            block_type,
            band,
            ctx,
            k,
        ) == Some((token, rest)),
    decreases 11 - k,
{
    if k > 10 {
        assert(chain_bools(token, block_type, band, ctx, k) + rest =~= rest);
    } else {
        let p = node_prob(block_type, band, ctx, k);
        if token == k - 1 {
            lemma_take_bool(false, p, rest);
        } else {
            let tail = chain_bools(token, block_type, band, ctx, k + 1) + rest;
            assert(chain_bools(token, block_type, band, ctx, k) + rest =~= seq![(true, p)] + tail);
            lemma_take_bool(true, p, tail);
            lemma_read_chain(token, block_type, band, ctx, k + 1, rest);
        }
    }
}

proof fn lemma_read_extra(token: int, n: nat, extra: int, k: int, rest: Bools)
    requires
        0 <= k <= n,
        0 <= extra < pow2(n),
    ensures
        read_extra(
            extra_bools(token, n, extra).skip(k) + rest,
            token,
            n,
            k,
            extra / (pow2((n - k) as nat) as int),
        ) == Some((extra, rest)),
    decreases n - k,
{
    let all = extra_bools(token, n, extra);
    lemma2_to64();
    if k == n {
        assert(all.skip(k) + rest =~= rest);
        let p = pow2(0) as int;
        assert(extra / p == extra) by (nonlinear_arith)
            requires
                p == 1,
        ;
    } else {
        let bit = bit_of(extra, n - 1 - k);
        let tail = all.skip(k + 1) + rest;
        assert(all.skip(k) + rest =~= seq![(bit, extra_prob(token - 5, k))] + tail);
        lemma_take_bool(bit, extra_prob(token - 5, k), tail);
        crate::math::lemma_div_pow2_twice(extra, (n - k - 1) as nat, 1);
        lemma_read_extra(token, n, extra, k + 1, rest);
    }
}

proof fn lemma_read_value(c: i16, rest: Bools)
    requires
        c != 0,
        -2114 <= c <= 2114,
    ensures
        read_value(value_bools(c) + rest, token_of(magnitude_of(c)).0) == Some((c as int, rest)),
        1 <= token_of(magnitude_of(c)).0 <= 10,
{
    let t = token_of(magnitude_of(c));
    lemma2_to64();
    assert(token_extra_bits(t.0) == t.1);
    assert(token_base(t.0) + t.2 == magnitude_of(c));
    assert(0 <= t.2 < pow2(t.1));
    let all = extra_bools(t.0, t.1, t.2);
    let tail = seq![(c < 0, 128u8)] + rest;
    assert(value_bools(c) + rest =~= all + tail);
    assert(all.skip(0) =~= all);
    crate::math::lemma_div_pow2_zero(t.2, t.1);
    lemma_read_extra(t.0, t.1, t.2, 0, tail);
    lemma_take_bool(c < 0, 128, rest);
}

/// The coefficients at positions below `i` are in place, the others zero.
spec fn placed(coeffs: Seq<i16>, i: int) -> Seq<i16> {
    Seq::new(
        16,
        |j: int|
            if zigzag_inverse(j) < i {
                coeffs[j]
            } else {
                0i16
            },
    )
}

/// One coefficient is read and the rest of the block follows.
proof fn lemma_read_one(
    c: i16,
    block_type: int,
    i: int,
    complexity: int,
    skip: bool,
    acc: Seq<i16>,
    more: Bools,
)
    requires
        0 <= i < 16,
        -2114 <= c <= 2114,
    ensures
        ({
            let token = if c == 0 {
                0
            } else {
                token_of(magnitude_of(c)).0
            };
            let tail = if c == 0 {
                more
            } else {
                value_bools(c) + more
            };
            let bits = token_bools(token, block_type, band_of(i), complexity, skip) + tail;
            read_block(bits, block_type, i, complexity, skip, acc) == read_block(
                more,
                block_type,
                i + 1,
                if c == 0 {
                    0
                } else if magnitude_of(c) == 1 {
                    1
                } else {
                    2
                },
                c == 0,
                if c == 0 {
                    acc
                } else {
                    acc.update(zigzag(i), c)
                },
            )
        }),
{
    let band = band_of(i);
    let p0 = node_prob(block_type, band, complexity, 0);
    let token = if c == 0 {
        0
    } else {
        token_of(magnitude_of(c)).0
    };
    let tail = if c == 0 {
        more
    } else {
        value_bools(c) + more
    };
    if c != 0 {
        lemma_read_value(c, more);
    }
    let chain = chain_bools(token, block_type, band, complexity, 1);
    lemma_read_chain(token, block_type, band, complexity, 1, tail);
    let bits = token_bools(token, block_type, band, complexity, skip) + tail;
    if !skip {
        assert(bits =~= seq![(true, p0)] + (chain + tail));
        lemma_take_bool(true, p0, chain + tail);
    }
}

/// Placing one more coefficient.
proof fn lemma_placed(coeffs: Seq<i16>, i: int)
    requires
        0 <= i <= 16,
        coeffs.len() == 16,
    ensures
        i < 16 ==> placed(coeffs, i + 1) == placed(coeffs, i).update(
            zigzag(i),
            coeffs[zigzag(i)],
        ),
        i < 16 && coeffs[zigzag(i)] == 0 ==> placed(coeffs, i + 1) == placed(coeffs, i),
        i > last_nonzero(coeffs, 15) ==> placed(coeffs, i) == coeffs,
{
    let acc = placed(coeffs, i);
    lemma_last_nonzero(coeffs, 15);
    if i < 16 {
        lemma_zigzag(i);
        let acc2 = placed(coeffs, i + 1);
        assert forall|j: int| 0 <= j < 16 implies acc2[j] == acc.update(
            zigzag(i),
            coeffs[zigzag(i)],
        )[j] by {
            lemma_zigzag(j);
        }
        assert(acc2 =~= acc.update(zigzag(i), coeffs[zigzag(i)]));
        if coeffs[zigzag(i)] == 0 {
            assert(acc2 =~= acc);
        }
    }
    if i > last_nonzero(coeffs, 15) {
        assert forall|j: int| 0 <= j < 16 implies acc[j] == coeffs[j] by {
            lemma_zigzag(j);
            let k = zigzag_inverse(j);
            if k >= i {
                assert(coeffs[zigzag(k)] == 0);
            }
        }
        assert(acc =~= coeffs);
    }
}

proof fn lemma_read_block_from(
    coeffs: Seq<i16>,
    block_type: int,
    i: int,
    complexity: int,
    skip: bool,
    rest: Bools,
)
    requires
        0 <= i <= 16,
        coeffs.len() == 16,
        forall|j: int| 0 <= j < 16 ==> -2114 <= #[trigger] coeffs[j] <= 2114,
        skip ==> i <= last_nonzero(coeffs, 15),
    ensures
        read_block(
            block_bools(coeffs, block_type, i, complexity, skip) + rest,
            block_type,
            i,
            complexity,
            skip,
            placed(coeffs, i),
        ) == Some((coeffs, rest)),
    decreases 16 - i,
{
    let last = last_nonzero(coeffs, 15);
    lemma_last_nonzero(coeffs, 15);
    lemma_placed(coeffs, i);
    if i >= 16 {
        assert(block_bools(coeffs, block_type, i, complexity, skip) + rest =~= rest);
    } else if i > last {
        lemma_take_bool(false, node_prob(block_type, band_of(i), complexity, 0), rest);
    } else {
        lemma_zigzag(i);
        let c = coeffs[zigzag(i)];
        let token = if c == 0 {
            0
        } else {
            token_of(magnitude_of(c)).0
        };
        let next = if c == 0 {
            0int
        } else if magnitude_of(c) == 1 {
            1
        } else {
            2
        };
        let more = block_bools(coeffs, block_type, i + 1, next, c == 0) + rest;
        let tail = if c == 0 {
            more
        } else {
            value_bools(c) + more
        };
        let head = token_bools(token, block_type, band_of(i), complexity, skip);
        assert(block_bools(coeffs, block_type, i, complexity, skip) + rest =~= head + tail);
        lemma_read_one(c, block_type, i, complexity, skip, placed(coeffs, i), more);
        if c == 0 {
            assert(i < last);
        }
        lemma_read_block_from(coeffs, block_type, i + 1, next, c == 0, rest);
    }
}

/// Reading the bits of a block gives its coefficients back.
pub proof fn lemma_read_block(coeffs: Seq<i16>, block_type: int, ctx: int, rest: Bools)
    requires
        coeffs.len() == 16,
        forall|j: int| 0 <= j < 16 ==> -2114 <= #[trigger] coeffs[j] <= 2114,
    ensures
        read_block(
            block_bools(coeffs, block_type, 0, ctx, false) + rest,
            block_type,
            0,
            ctx,
            false,
            Seq::new(16, |j: int| 0i16),
        ) == Some((coeffs, rest)),
{
    assert(placed(coeffs, 0) =~= Seq::new(16, |j: int| 0i16)) by {
        assert forall|j: int| 0 <= j < 16 implies placed(coeffs, 0)[j] == 0 by {
            lemma_zigzag(j);
        }
    }
    lemma_read_block_from(coeffs, block_type, 0, ctx, false, rest);
}

} // verus!
