//! What the coded header of a frame says.
use crate::vp8::bool_coder::{literal_bools, signed_bools, split_of};
use crate::vp8::partitions::{first_bools, no_updates, all_modes, twos, zero_flags};
use crate::webp::bit_writer::bit_of;
use vstd::arithmetic::power2::{lemma2_to64, lemma_pow2_pos, lemma_pow2_unfold, pow2};
use vstd::prelude::*;

verus! {

/// The interval is split as the probability splits 256: the part for `false` is that share of the
/// interval, within one, and both parts are there.
pub proof fn lemma_split(range: nat, prob: u8)
    requires
        128 <= range <= 255,
        prob >= 1,
    ensures
        256 * (split_of(range, prob) - 1) <= (range - 1) * prob < 256 * split_of(range, prob),
        1 <= split_of(range, prob) < range,
{
    let p = (range - 1) * prob;
    assert(0 <= p <= (range - 1) * 255) by (nonlinear_arith)
        requires
            p == (range - 1) * prob,
            range >= 1,
            0 <= prob <= 255,
    ;
}

/// The number that flags spell, the first one weighing most.
pub open spec fn flags_value(s: Seq<(bool, u8)>) -> int
    decreases s.len(),
{
    if s.len() == 0 {
        0
    } else {
        2 * flags_value(s.drop_last()) + if s.last().0 {
            1int
        } else {
            0
        }
    }
}

/// A number is written with its highest bit first, each bit as likely as not.
pub proof fn lemma_literal_value(n: nat, value: int)
    requires
        0 <= value < pow2(n),
    ensures
        flags_value(literal_bools(n, value)) == value,
        literal_bools(n, value).len() == n,
        forall|k: int| 0 <= k < n ==> (#[trigger] literal_bools(n, value)[k]).1 == 128,
    decreases n,
{
    lemma2_to64();
    if n == 0 {
        assert(value == 0);
    } else {
        let s = literal_bools(n, value);
        let t = literal_bools((n - 1) as nat, value / 2);
        lemma_pow2_unfold(n);
        lemma_literal_value((n - 1) as nat, value / 2);
        assert forall|k: int| 0 <= k < n - 1 implies s.drop_last()[k] == t[k] by {
            let j = (n - 2 - k) as nat;
            lemma_pow2_pos(j);
            lemma_pow2_unfold(j + 1);
            let p = pow2(j) as int;
            vstd::arithmetic::div_mod::lemma_div_denominator(value, 2, p);
            assert(value / 2 / p == value / (2 * p));
            assert(bit_of(value, n - 1 - k) == bit_of(value / 2, n - 2 - k));
        }
        assert(s.drop_last() =~= t);
        assert(s.last().0 == bit_of(value, 0));
        assert(pow2(0) == 1);
        assert(value / 1 == value);
    }
}

/// A number with a sign is its magnitude, and its sign unless it is zero.
pub proof fn lemma_signed_value(n: nat, value: int)
    requires
        -pow2(n) < value < pow2(n),
    ensures
        ({
            let s = signed_bools(n, value);
            let m = flags_value(s.take(n as int));
            &&& s.len() == n + if value == 0 {
                0int
            } else {
                1
            }
            &&& value == 0 ==> m == 0
            &&& value != 0 ==> value == if s[n as int].0 {
                -m
            } else {
                m
            }
        }),
{
    let m = if value < 0 {
        -value
    } else {
        value
    };
    lemma_literal_value(n, m);
    assert(signed_bools(n, value).take(n as int) =~= literal_bools(n, m));
}

/// The header tells the number of partitions as a power of two, and behind it the quantizer index.
pub proof fn lemma_header_fields(q_idx: int, count: nat, parts: int)
    requires
        0 <= q_idx < 128,
        0 <= twos(parts) < 4,
    ensures
        ({
            let s = first_bools(q_idx, count, parts);
            &&& s.len() >= 29
            &&& flags_value(s.subrange(14, 16)) == twos(parts)
            &&& flags_value(s.subrange(16, 23)) == q_idx
            &&& forall|k: int| 0 <= k < 14 || 23 <= k < 29 ==> #[trigger] s[k] == (false, 128u8)
        }),
{
    lemma2_to64();
    let s = first_bools(q_idx, count, parts);
    let a = zero_flags(14);
    let b = literal_bools(2, twos(parts));
    let c = literal_bools(7, q_idx);
    let d = zero_flags(6);
    let rest = no_updates(0) + (zero_flags(1) + all_modes(count));
    assert(s == a + (b + (c + (d + rest))));
    lemma_literal_value(2, twos(parts));
    lemma_literal_value(7, q_idx);
    assert(s.subrange(14, 16) =~= b);
    assert(s.subrange(16, 23) =~= c);
    assert forall|k: int| 0 <= k < 14 || 23 <= k < 29 implies #[trigger] s[k] == (false, 128u8) by {
        if k < 14 {
            assert(s[k] == a[k]);
        } else {
            assert(s[k] == d[k - 23]);
        }
    }
}

} // verus!
