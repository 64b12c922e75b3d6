//! Small facts about powers of two, division and sums of sequences.
use vstd::arithmetic::div_mod::{
    lemma_div_denominator, lemma_fundamental_div_mod, lemma_fundamental_div_mod_converse,
};
use vstd::arithmetic::power2::{lemma_pow2_adds, lemma_pow2_pos, pow2};
use vstd::prelude::*;

verus! {

/// The lesser of two numbers.
pub open spec fn least(a: int, b: int) -> int {
    if a < b {
        a
    } else {
        b
    }
}

/// Dividing by `2^a` and then by `2^b` divides by `2^(a + b)`.
pub proof fn lemma_div_pow2_twice(v: int, a: nat, b: nat)
    requires
        v >= 0,
    ensures
        (v / (pow2(a) as int)) / (pow2(b) as int) == v / (pow2(a + b) as int),
{
    lemma_pow2_pos(a);
    lemma_pow2_pos(b);
    lemma_pow2_adds(a, b);
    lemma_div_denominator(v, pow2(a) as int, pow2(b) as int);
}

/// A value below `2^n` divided by `2^n` is zero.
pub proof fn lemma_div_pow2_zero(v: int, n: nat)
    requires
        0 <= v < pow2(n),
    ensures
        v / (pow2(n) as int) == 0,
{
    lemma_pow2_pos(n);
    lemma_fundamental_div_mod_converse(v, pow2(n) as int, 0, v);
}

/// A value whose quotient by `2^n` is zero lies below `2^n`.
pub proof fn lemma_lt_pow2(v: int, n: nat)
    requires
        v >= 0,
        v / (pow2(n) as int) == 0,
    ensures
        v < pow2(n),
{
    lemma_pow2_pos(n);
    lemma_fundamental_div_mod(v, pow2(n) as int);
    let p = pow2(n) as int;
    assert(p * (v / p) == 0) by (nonlinear_arith)
        requires
            v / p == 0,
    ;
    vstd::arithmetic::div_mod::lemma_remainder_upper(v, p);
}

pub proof fn lemma_pow2_mono(a: nat, b: nat)
    requires
        a <= b,
    ensures
        pow2(a) <= pow2(b),
{
    if a < b {
        vstd::arithmetic::power2::lemma_pow2_strictly_increases(a, b);
    }
}

/// Sum of a sequence of naturals.
pub open spec fn sum(s: Seq<nat>) -> nat
    decreases s.len(),
{
    if s.len() == 0 {
        0
    } else {
        sum(s.drop_last()) + s.last()
    }
}

pub proof fn lemma_sum_push(s: Seq<nat>, x: nat)
    ensures
        sum(s.push(x)) == sum(s) + x,
{
    assert(s.push(x).drop_last() =~= s);
}

pub proof fn lemma_sum_update(s: Seq<nat>, i: int, x: nat)
    requires
        0 <= i < s.len(),
    ensures
        sum(s.update(i, x)) == sum(s) - s[i] + x,
        s[i] <= sum(s),
    decreases s.len(),
{
    if i == s.len() - 1 {
        assert(s.update(i, x).drop_last() =~= s.drop_last());
    } else {
        lemma_sum_update(s.drop_last(), i, x);
        assert(s.update(i, x).drop_last() =~= s.drop_last().update(i, x));
    }
}

pub proof fn lemma_sum_remove(s: Seq<nat>, i: int)
    requires
        0 <= i < s.len(),
    ensures
        sum(s.remove(i)) == sum(s) - s[i],
        s[i] <= sum(s),
    decreases s.len(),
{
    if i == s.len() - 1 {
        assert(s.remove(i) =~= s.drop_last());
    } else {
        lemma_sum_remove(s.drop_last(), i);
        assert(s.remove(i).drop_last() =~= s.drop_last().remove(i));
    }
}

/// Two different elements of a sequence are together no more than its sum.
pub proof fn lemma_sum_two(s: Seq<nat>, i: int, j: int)
    requires
        0 <= i < s.len(),
        0 <= j < s.len(),
        i != j,
    ensures
        s[i] + s[j] <= sum(s),
{
    lemma_sum_update(s, i, 0);
    lemma_sum_update(s.update(i, 0), j, 0);
}

pub proof fn lemma_sum_zero(s: Seq<nat>)
    requires
        forall|i: int| 0 <= i < s.len() ==> s[i] == 0,
    ensures
        sum(s) == 0,
    decreases s.len(),
{
    if s.len() > 0 {
        lemma_sum_zero(s.drop_last());
    }
}

/// A sequence that is pointwise no greater has no greater sum.
pub proof fn lemma_sum_le(s: Seq<nat>, t: Seq<nat>)
    requires
        s.len() == t.len(),
        forall|i: int| 0 <= i < s.len() ==> s[i] <= t[i],
    ensures
        sum(s) <= sum(t),
    decreases s.len(),
{
    if s.len() > 0 {
        lemma_sum_le(s.drop_last(), t.drop_last());
    }
}

/// Scaling every element scales the sum.
pub proof fn lemma_sum_scale(s: Seq<nat>, t: Seq<nat>, k: nat)
    requires
        s.len() == t.len(),
        forall|i: int| 0 <= i < s.len() ==> t[i] == k * s[i],
    ensures
        sum(t) == k * sum(s),
    decreases s.len(),
{
    if s.len() > 0 {
        lemma_sum_scale(s.drop_last(), t.drop_last(), k);
        let a = sum(s.drop_last());
        let b = s.last();
        assert(k * (a + b) == k * a + k * b) by (nonlinear_arith);
    } else {
        assert(k * 0 == 0) by (nonlinear_arith);
    }
}

/// Elements that are zero behind position `n` do not add to the sum.
pub proof fn lemma_sum_take(s: Seq<nat>, n: int)
    requires
        0 <= n <= s.len(),
        forall|i: int| n <= i < s.len() ==> s[i] == 0,
    ensures
        sum(s) == sum(s.take(n)),
    decreases s.len(),
{
    if n < s.len() {
        lemma_sum_take(s.drop_last(), n);
        assert(s.drop_last().take(n) =~= s.take(n));
    } else {
        assert(s.take(n) =~= s);
    }
}

/// Number of times that `x` occurs in `s`.
pub open spec fn occurrences(s: Seq<nat>, x: nat) -> nat
    decreases s.len(),
{
    if s.len() == 0 {
        0
    } else {
        occurrences(s.drop_last(), x) + if s.last() == x {
            1nat
        } else {
            0nat
        }
    }
}

pub proof fn lemma_occurrences_update(s: Seq<nat>, i: int, v: nat, x: nat)
    requires
        0 <= i < s.len(),
    ensures
        occurrences(s.update(i, v), x) == occurrences(s, x) - (if s[i] == x {
            1int
        } else {
            0
        }) + (if v == x {
            1int
        } else {
            0
        }),
    decreases s.len(),
{
    if i == s.len() - 1 {
        assert(s.update(i, v).drop_last() =~= s.drop_last());
    } else {
        lemma_occurrences_update(s.drop_last(), i, v, x);
        assert(s.update(i, v).drop_last() =~= s.drop_last().update(i, v));
    }
}

pub proof fn lemma_occurrences_push(s: Seq<nat>, v: nat, x: nat)
    ensures
        occurrences(s.push(v), x) == occurrences(s, x) + (if v == x {
            1nat
        } else {
            0nat
        }),
{
    assert(s.push(v).drop_last() =~= s);
}

/// A value that does not occur counts 0.
pub proof fn lemma_occurrences_none(s: Seq<nat>, x: nat)
    requires
        forall|i: int| 0 <= i < s.len() ==> s[i] != x,
    ensures
        occurrences(s, x) == 0,
    decreases s.len(),
{
    if s.len() > 0 {
        lemma_occurrences_none(s.drop_last(), x);
    }
}

/// `2^k` as a machine word.
pub fn pow2_u64(k: u8) -> (r: u64)
    requires
        k < 64,
    ensures
        r == pow2(k as nat),
{
    proof {
        vstd::arithmetic::power2::lemma2_to64();
        vstd::arithmetic::power2::lemma2_to64_rest();
        lemma_pow2_mono(k as nat, 63);
        vstd::bits::lemma_u64_shl_is_mul(1, k as u64);
    }
    1u64 << (k as u64)
}

pub proof fn lemma_join_four<A>(start: Seq<A>, a: Seq<A>, b: Seq<A>, c: Seq<A>, d: Seq<A>)
    ensures
        (((start + a) + b) + c) + d == start + (a + (b + (c + d))),
{
    assert((((start + a) + b) + c) + d =~= start + (a + (b + (c + d))));
}

pub proof fn lemma_join_five<A>(
    start: Seq<A>,
    a: Seq<A>,
    b: Seq<A>,
    c: Seq<A>,
    d: Seq<A>,
    e: Seq<A>,
)
    ensures
        ((((start + a) + b) + c) + d) + e == start + (a + (b + (c + (d + e)))),
{
    assert(((((start + a) + b) + c) + d) + e =~= start + (a + (b + (c + (d + e)))));
}

} // verus!
