//! Length-limited canonical prefix codes.
use crate::math::{
    lemma_occurrences_push, lemma_occurrences_update, lemma_pow2_mono, lemma_sum_le,
    lemma_sum_push, lemma_sum_remove, lemma_sum_scale, lemma_sum_two, lemma_sum_update,
    lemma_sum_zero, occurrences, pow2_u64, sum,
};
use crate::math::lemma_div_pow2_twice;
use crate::webp::bit_writer::{bit_of, lsb_bits};
use crate::webp::huffman_order::lemma_rarer_longer;
use vstd::arithmetic::div_mod::lemma_div_multiples_vanish;
use vstd::arithmetic::power2::{lemma_pow2_adds, lemma_pow2_pos, lemma_pow2_unfold, pow2};
use vstd::prelude::*;

verus! {

/// Number of symbols with a nonzero frequency.
pub open spec fn count_nonzero(frequencies: Seq<u32>) -> nat
    decreases frequencies.len(),
{
    if frequencies.len() == 0 {
        0
    } else {
        count_nonzero(frequencies.drop_last()) + if frequencies.last() > 0 {
            1nat
        } else {
            0nat
        }
    }
}

/// The frequencies as naturals.
pub open spec fn freq_nats(frequencies: Seq<u32>) -> Seq<nat> {
    Seq::new(frequencies.len(), |i: int| frequencies[i] as nat)
}

/// Node `c` is a root of the forest that the first `t` merges leave behind.
///
/// Nodes below `frequencies.len()` are the symbols; node
/// `frequencies.len() + s` is made by merge `s`.
pub open spec fn is_root(
    frequencies: Seq<u32>,
    merges: Seq<(usize, usize)>,
    t: int,
    c: int,
) -> bool {
    let n = frequencies.len() as int;
    &&& (0 <= c < n && frequencies[c] > 0) || n <= c < n + t
    &&& forall|s: int| 0 <= s < t ==> (#[trigger] merges[s]).0 != c && merges[s].1 != c
}

/// Merge `t` joins two roots that no other root undercuts.
pub open spec fn merges_lightest(
    frequencies: Seq<u32>,
    merges: Seq<(usize, usize)>,
    weights: Seq<nat>,
    t: int,
) -> bool {
    let n = frequencies.len() as int;
    let a = merges[t].0 as int;
    let b = merges[t].1 as int;
    &&& a != b
    &&& is_root(frequencies, merges, t, a)
    &&& is_root(frequencies, merges, t, b)
    &&& weights[n + t] == weights[a] + weights[b]
    &&& forall|c: int|
        #![trigger is_root(frequencies, merges, t, c)]
        is_root(frequencies, merges, t, c) && c != a ==> weights[a] <= weights[c]
    &&& forall|c: int|
        #![trigger is_root(frequencies, merges, t, c)]
        is_root(frequencies, merges, t, c) && c != a && c != b ==> weights[b] <= weights[c]
}

/// The merges build a Huffman forest: each joins two lightest roots.
pub open spec fn is_huffman_forest(
    frequencies: Seq<u32>,
    merges: Seq<(usize, usize)>,
    weights: Seq<nat>,
) -> bool {
    let n = frequencies.len() as int;
    &&& weights.len() == n + merges.len()
    &&& forall|c: int| 0 <= c < n ==> #[trigger] weights[c] == frequencies[c]
    &&& forall|t: int|
        0 <= t < merges.len() ==> #[trigger] merges_lightest(frequencies, merges, weights, t)
}

/// The merges leave one root, the node that the last of them made.
pub open spec fn is_huffman_tree(
    frequencies: Seq<u32>,
    merges: Seq<(usize, usize)>,
    weights: Seq<nat>,
) -> bool {
    let n = frequencies.len() as int;
    &&& is_huffman_forest(frequencies, merges, weights)
    &&& merges.len() >= 1
    &&& forall|c: int|
        #[trigger] is_root(frequencies, merges, merges.len() as int, c) ==> c == n + merges.len()
            - 1
}

pub open spec fn in_forest(forest: Seq<(u32, usize)>, c: int) -> bool {
    exists|k: int| 0 <= k < forest.len() && (#[trigger] forest[k]).1 == c
}

pub open spec fn forest_weights(forest: Seq<(u32, usize)>) -> Seq<nat> {
    Seq::new(forest.len(), |k: int| forest[k].0 as nat)
}

/// `forest` lists the roots left by all merges so far, each once, with its weight.
pub open spec fn lists_roots(
    frequencies: Seq<u32>,
    merges: Seq<(usize, usize)>,
    weights: Seq<nat>,
    forest: Seq<(u32, usize)>,
) -> bool {
    &&& forall|k: int|
        0 <= k < forest.len() ==> is_root(
            frequencies,
            merges,
            merges.len() as int,
            (#[trigger] forest[k]).1 as int,
        ) && weights[forest[k].1 as int] == forest[k].0
    &&& forall|j: int, k: int|
        0 <= j < k < forest.len() ==> (#[trigger] forest[j]).1 != (#[trigger] forest[k]).1
    &&& forall|c: int|
        #[trigger] is_root(frequencies, merges, merges.len() as int, c) ==> in_forest(forest, c)
}

/// Index of a lightest entry.
fn lightest(forest: &Vec<(u32, usize)>) -> (r: usize)
    requires
        forest@.len() > 0,
    ensures
        r < forest@.len(),
        forall|k: int| 0 <= k < forest@.len() ==> forest@[r as int].0 <= (#[trigger] forest@[k]).0,
{
    let mut best: usize = 0;
    let mut i: usize = 1;
    while i < forest.len()
        invariant
            1 <= i <= forest@.len(),
            best < i,
            forall|k: int| 0 <= k < i ==> forest@[best as int].0 <= (#[trigger] forest@[k]).0,
        decreases forest@.len() - i,
    {
        if forest[i].0 < forest[best].0 {
            best = i;
        }
        i = i + 1;
    }
    best
}

/// The symbols in use, as trees of one node.
fn leaf_forest(frequencies: &[u32]) -> (forest: Vec<(u32, usize)>)
    ensures
        lists_roots(
            frequencies@,
            Seq::empty(),
            freq_nats(frequencies@),
            forest@,
        ),
        forest@.len() == count_nonzero(frequencies@),
        sum(forest_weights(forest@)) == sum(freq_nats(frequencies@)),
{
    let mut forest: Vec<(u32, usize)> = Vec::new();
    let ghost w = freq_nats(frequencies@);
    let mut i: usize = 0;
    proof {
        assert(forest_weights(forest@) =~= Seq::<nat>::empty());
        assert(w.take(0) =~= Seq::<nat>::empty());
    }
    while i < frequencies.len()
        invariant
            i <= frequencies@.len(),
            w == freq_nats(frequencies@),
            forest@.len() == count_nonzero(frequencies@.take(i as int)),
            sum(forest_weights(forest@)) == sum(w.take(i as int)),
            forall|k: int|
                0 <= k < forest@.len() ==> (#[trigger] forest@[k]).1 < i && forest@[k].0
                    == frequencies@[forest@[k].1 as int] && forest@[k].0 > 0,
            forall|j: int, k: int|
                0 <= j < k < forest@.len() ==> (#[trigger] forest@[j]).1 != (
                #[trigger] forest@[k]).1,
            forall|c: int|
                0 <= c < i && #[trigger] frequencies@[c] > 0 ==> in_forest(forest@, c),
        decreases frequencies@.len() - i,
    {
        let ghost before = forest@;
        proof {
            assert(frequencies@.take(i + 1).drop_last() =~= frequencies@.take(i as int));
            assert(w.take(i + 1) =~= w.take(i as int).push(w[i as int]));
            lemma_sum_push(w.take(i as int), w[i as int]);
        }
        if frequencies[i] > 0 {
            forest.push((frequencies[i], i));
            proof {
                assert(forest_weights(forest@) =~= forest_weights(before).push(w[i as int]));
                lemma_sum_push(forest_weights(before), w[i as int]);
                assert forall|c: int| 0 <= c < i + 1 && #[trigger] frequencies@[c] > 0 implies in_forest(
                    forest@,
                    c,
                ) by {
                    if c < i {
                        let k = choose|k: int| 0 <= k < before.len() && (#[trigger] before[k]).1 == c;
                        assert(forest@[k].1 == c);
                    } else {
                        assert(forest@[before.len() as int].1 == c);
                    }
                }
            }
        }
        i = i + 1;
    }
    assert(frequencies@.take(i as int) =~= frequencies@);
    assert(w.take(i as int) =~= w);
    forest
}

/// Joins two lightest trees until one is left.
fn merge_lightest(frequencies: &[u32]) -> (merges: Vec<(usize, usize)>)
    requires
        count_nonzero(frequencies@) >= 2,
        count_nonzero(frequencies@) + frequencies@.len() <= usize::MAX,
        sum(freq_nats(frequencies@)) <= u32::MAX,
    ensures
        exists|weights: Seq<nat>| is_huffman_tree(frequencies@, merges@, weights),
        merges@.len() + 1 == count_nonzero(frequencies@),
{
    let n: usize = frequencies.len();
    let mut forest = leaf_forest(frequencies);
    let mut merges: Vec<(usize, usize)> = Vec::new();
    let ghost mut weights: Seq<nat> = freq_nats(frequencies@);
    let ghost total = forest@.len();
    while forest.len() > 1
        invariant
            n == frequencies@.len(),
            n + total <= usize::MAX,
            forest@.len() >= 1,
            merges@.len() + forest@.len() == total,
            is_huffman_forest(frequencies@, merges@, weights),
            lists_roots(frequencies@, merges@, weights, forest@),
            sum(forest_weights(forest@)) <= u32::MAX,
            merges@.len() >= 1 ==> in_forest(forest@, n + merges@.len() - 1),
        decreases forest@.len(),
    {
        let ghost forest0 = forest@;
        let ghost merges0 = merges@;
        let ghost weights0 = weights;
        let i1: usize = lightest(&forest);
        let (w1, node1) = forest[i1];
        forest.remove(i1);
        let ghost forest1 = forest@;
        let i2: usize = lightest(&forest);
        let (w2, node2) = forest[i2];
        let t: usize = merges.len();
        proof {
            let j2 = if i2 < i1 { i2 as int } else { i2 + 1 };
            assert(forest0[j2] == forest1[i2 as int]);
            lemma_sum_two(forest_weights(forest0), i1 as int, j2);
        }
        merges.push((node1, node2));
        forest.set(i2, (w1 + w2, n + t));
        proof {
            weights = weights.push((w1 + w2) as nat);
            lemma_merge_step(
                frequencies@,
                merges0,
                weights0,
                forest0,
                i1 as int,
                i2 as int,
                forest@,
            );
        }
    }
    proof {
        assert(is_huffman_tree(frequencies@, merges@, weights)) by {
            let f0 = forest@;
            assert forall|c: int|
                #[trigger] is_root(frequencies@, merges@, merges@.len() as int, c) implies c == n
                + merges@.len() - 1 by {
                assert(in_forest(f0, c));
                assert(in_forest(f0, n + merges@.len() - 1));
                assert(f0[0].1 == c);
            }
        }
    }
    merges
}

/// One merge keeps the description of the forest.
proof fn lemma_merge_step(
    frequencies: Seq<u32>,
    merges: Seq<(usize, usize)>,
    weights: Seq<nat>,
    forest: Seq<(u32, usize)>,
    i1: int,
    i2: int,
    forest2: Seq<(u32, usize)>,
)
    requires
        is_huffman_forest(frequencies, merges, weights),
        lists_roots(frequencies, merges, weights, forest),
        0 <= i1 < forest.len(),
        0 <= i2 < forest.len() - 1,
        forall|k: int| 0 <= k < forest.len() ==> forest[i1].0 <= (#[trigger] forest[k]).0,
        forall|k: int|
            0 <= k < forest.len() - 1 ==> forest.remove(i1)[i2].0 <= (#[trigger] forest.remove(
                i1,
            )[k]).0,
        frequencies.len() + merges.len() <= usize::MAX,
        forest[i1].0 + forest.remove(i1)[i2].0 <= u32::MAX,
        forest2 == forest.remove(i1).update(
            i2,
            (
                (forest[i1].0 + forest.remove(i1)[i2].0) as u32,
                (frequencies.len() + merges.len()) as usize,
            ),
        ),
    ensures
        ({
            let a = forest[i1].1;
            let b = forest.remove(i1)[i2].1;
            let merges2 = merges.push((a, b));
            let weights2 = weights.push((forest[i1].0 + forest.remove(i1)[i2].0) as nat);
            &&& is_huffman_forest(frequencies, merges2, weights2)
            &&& lists_roots(frequencies, merges2, weights2, forest2)
            &&& sum(forest_weights(forest2)) == sum(forest_weights(forest))
            &&& in_forest(forest2, frequencies.len() as int + merges.len())
        }),
{
    let n = frequencies.len() as int;
    let t = merges.len() as int;
    let rest = forest.remove(i1);
    let j2 = if i2 < i1 { i2 } else { i2 + 1 };
    let a = forest[i1].1;
    let b = rest[i2].1;
    assert(rest[i2] == forest[j2]);
    let merges2 = merges.push((a, b));
    let wsum = (forest[i1].0 + rest[i2].0) as nat;
    let weights2 = weights.push(wsum);
    // roots of the shorter history are unchanged
    assert forall|s: int, c: int| 0 <= s <= t implies #[trigger] is_root(
        frequencies,
        merges2,
        s,
        c,
    ) == is_root(frequencies, merges, s, c) by {
        if is_root(frequencies, merges2, s, c) {
            assert forall|q: int| 0 <= q < s implies (#[trigger] merges[q]).0 != c && merges[q].1
                != c by {
                assert(merges2[q] == merges[q]);
            }
        }
        if is_root(frequencies, merges, s, c) {
            assert forall|q: int| 0 <= q < s implies (#[trigger] merges2[q]).0 != c && merges2[q].1
                != c by {
                assert(merges2[q] == merges[q]);
            }
        }
    }
    assert forall|s: int| 0 <= s < t + 1 implies #[trigger] merges_lightest(
        frequencies,
        merges2,
        weights2,
        s,
    ) by {
        if s < t {
            assert(merges_lightest(frequencies, merges, weights, s));
            assert(merges2[s] == merges[s]);
            assert(is_root(frequencies, merges, s, merges[s].0 as int));
            assert(is_root(frequencies, merges, s, merges[s].1 as int));
            assert forall|c: int|
                #![trigger is_root(frequencies, merges2, s, c)]
                is_root(frequencies, merges2, s, c) && c != merges2[s].0 implies weights2[merges2[s].0 as int]
                <= weights2[c] by {
                assert(is_root(frequencies, merges, s, c));
            }
            assert forall|c: int|
                #![trigger is_root(frequencies, merges2, s, c)]
                is_root(frequencies, merges2, s, c) && c != merges2[s].0 && c
                    != merges2[s].1 implies weights2[merges2[s].1 as int] <= weights2[c] by {
                assert(is_root(frequencies, merges, s, c));
            }
        } else {
            assert(is_root(frequencies, merges, t, a as int));
            assert(is_root(frequencies, merges, t, b as int));
            assert forall|c: int|
                #![trigger is_root(frequencies, merges2, s, c)]
                is_root(frequencies, merges2, s, c) && c != a implies weights2[a as int]
                <= weights2[c] by {
                assert(is_root(frequencies, merges, t, c));
                let k = choose|k: int| 0 <= k < forest.len() && (#[trigger] forest[k]).1 == c;
            }
            assert forall|c: int|
                #![trigger is_root(frequencies, merges2, s, c)]
                is_root(frequencies, merges2, s, c) && c != a && c != b implies weights2[b as int]
                <= weights2[c] by {
                assert(is_root(frequencies, merges, t, c));
                let k = choose|k: int| 0 <= k < forest.len() && (#[trigger] forest[k]).1 == c;
                let k1 = if k < i1 { k } else { k - 1 };
                assert(rest[k1] == forest[k]);
            }
        }
    }
    // the new list of roots
    assert forall|k: int| 0 <= k < forest2.len() implies is_root(
        frequencies,
        merges2,
        t + 1,
        (#[trigger] forest2[k]).1 as int,
    ) && weights2[forest2[k].1 as int] == forest2[k].0 by {
        let c = forest2[k].1 as int;
        if k == i2 {
            assert forall|q: int| 0 <= q < t + 1 implies (#[trigger] merges2[q]).0 != c
                && merges2[q].1 != c by {
                assert(merges_lightest(frequencies, merges2, weights2, q));
                assert(is_root(frequencies, merges2, q, merges2[q].0 as int));
                assert(is_root(frequencies, merges2, q, merges2[q].1 as int));
            }
        } else {
            let j = if k < i1 { k } else { k + 1 };
            assert(forest2[k] == forest[j]);
            assert(is_root(frequencies, merges, t, c));
            assert(j != i1 && j != j2);
            assert forall|q: int| 0 <= q < t + 1 implies (#[trigger] merges2[q]).0 != c
                && merges2[q].1 != c by {
                if q < t {
                    assert(merges2[q] == merges[q]);
                }
            }
        }
    }
    assert forall|j: int, k: int| 0 <= j < k < forest2.len() implies (#[trigger] forest2[j]).1 != (
    #[trigger] forest2[k]).1 by {
        let j1 = if j < i1 { j } else { j + 1 };
        let k1 = if k < i1 { k } else { k + 1 };
        if j != i2 {
            assert(forest2[j] == forest[j1]);
            assert(is_root(frequencies, merges, t, forest[j1].1 as int));
        }
        if k != i2 {
            assert(forest2[k] == forest[k1]);
            assert(is_root(frequencies, merges, t, forest[k1].1 as int));
        }
    }
    assert forall|c: int| #[trigger] is_root(frequencies, merges2, t + 1, c) implies in_forest(
        forest2,
        c,
    ) by {
        if c == n + t {
            assert(forest2[i2].1 == c);
        } else {
            assert(merges2[t].0 != c && merges2[t].1 != c);
            assert forall|q: int| 0 <= q < t implies (#[trigger] merges[q]).0 != c && merges[q].1
                != c by {
                assert(merges2[q] == merges[q]);
            }
            assert(is_root(frequencies, merges, t, c));
            let k = choose|k: int| 0 <= k < forest.len() && (#[trigger] forest[k]).1 == c;
            let k1 = if k < i1 { k } else { k - 1 };
            assert(k != i1);
            assert(rest[k1] == forest[k]);
            assert(forest2[k1].1 == c);
        }
    }
    assert(forest2[i2].1 == n + t);
    let fw = forest_weights(forest);
    assert(forest_weights(forest2) =~= fw.remove(i1).update(i2, wsum));
    lemma_sum_remove(fw, i1);
    lemma_sum_update(fw.remove(i1), i2, wsum);
}

/// `depths` gives the distance of every node from the last root.
pub open spec fn is_depth_map(n: int, merges: Seq<(usize, usize)>, depths: Seq<nat>) -> bool {
    &&& depths.len() == n + merges.len()
    &&& depths[n + merges.len() - 1] == 0
    &&& forall|t: int|
        0 <= t < merges.len() ==> depths[(#[trigger] merges[t]).0 as int] == depths[n + t] + 1
            && depths[merges[t].1 as int] == depths[n + t] + 1
}

/// The symbol depths of some Huffman tree of the frequencies, 0 for unused symbols.
pub open spec fn is_huffman_depths(frequencies: Seq<u32>, symbol_depths: Seq<nat>) -> bool {
    let n = frequencies.len() as int;
    &&& symbol_depths.len() == n
    &&& forall|i: int| 0 <= i < n ==> (#[trigger] symbol_depths[i] == 0 <==> frequencies[i] == 0)
    &&& exists|merges: Seq<(usize, usize)>, weights: Seq<nat>, depths: Seq<nat>|
        {
            &&& #[trigger] is_huffman_tree(frequencies, merges, weights)
            &&& #[trigger] is_depth_map(n, merges, depths)
            &&& forall|i: int| 0 <= i < n && frequencies[i] > 0 ==> symbol_depths[i] == depths[i]
        }
}

/// Share of the code space that a code of length `l` takes, in units of `2^-limit`;
/// 0 for no code and for codes longer than `cap`.
pub open spec fn share(l: nat, limit: nat, cap: nat) -> nat {
    if 0 < l <= cap {
        pow2((limit - l) as nat)
    } else {
        0
    }
}

pub open spec fn shares(lengths: Seq<nat>, limit: nat, cap: nat) -> Seq<nat> {
    Seq::new(lengths.len(), |i: int| share(lengths[i], limit, cap))
}

/// Code space taken by all codes of length at most `cap`, in units of `2^-limit`.
pub open spec fn kraft(lengths: Seq<nat>, limit: nat, cap: nat) -> nat {
    sum(shares(lengths, limit, cap))
}

pub open spec fn nats_of(s: Seq<usize>) -> Seq<nat> {
    Seq::new(s.len(), |i: int| s[i] as nat)
}

/// Share of the code space below each root of the forest after `t` merges.
spec fn frontier(
    frequencies: Seq<u32>,
    merges: Seq<(usize, usize)>,
    t: int,
    depths: Seq<nat>,
    big: nat,
) -> Seq<nat> {
    Seq::new(
        depths.len(),
        |c: int|
            if is_root(frequencies, merges, t, c) {
                pow2((big - depths[c]) as nat)
            } else {
                0nat
            },
    )
}

/// The forest before merge `t` has the two merged nodes in place of the node made.
proof fn lemma_roots_step(
    frequencies: Seq<u32>,
    merges: Seq<(usize, usize)>,
    weights: Seq<nat>,
    t: int,
    c: int,
)
    requires
        is_huffman_forest(frequencies, merges, weights),
        0 <= t < merges.len(),
    ensures
        is_root(frequencies, merges, t + 1, c) <==> (c == frequencies.len() + t || (is_root(
            frequencies,
            merges,
            t,
            c,
        ) && c != merges[t].0 && c != merges[t].1)),
{
    let n = frequencies.len() as int;
    if c == n + t {
        assert forall|s: int| 0 <= s < t + 1 implies (#[trigger] merges[s]).0 != c && merges[s].1
            != c by {
            assert(merges_lightest(frequencies, merges, weights, s));
            assert(is_root(frequencies, merges, s, merges[s].0 as int));
            assert(is_root(frequencies, merges, s, merges[s].1 as int));
        }
    } else {
        if is_root(frequencies, merges, t + 1, c) {
            assert(merges[t].0 != c && merges[t].1 != c);
        }
        if is_root(frequencies, merges, t, c) && c != merges[t].0 && c != merges[t].1 {
            assert forall|s: int| 0 <= s < t + 1 implies (#[trigger] merges[s]).0 != c
                && merges[s].1 != c by {
                if s == t {
                    assert(merges[t].0 != c);
                }
            }
        }
    }
}

/// Splitting a root into its two children keeps the code space.
proof fn lemma_frontier_step(
    frequencies: Seq<u32>,
    merges: Seq<(usize, usize)>,
    weights: Seq<nat>,
    t: int,
    depths: Seq<nat>,
    depths2: Seq<nat>,
    big: nat,
)
    requires
        is_huffman_forest(frequencies, merges, weights),
        0 <= t < merges.len(),
        depths.len() == frequencies.len() + merges.len(),
        depths[frequencies.len() + t] < big,
        depths2 == depths.update(
            merges[t].0 as int,
            (depths[frequencies.len() + t] + 1) as nat,
        ).update(merges[t].1 as int, (depths[frequencies.len() + t] + 1) as nat),
    ensures
        sum(frontier(frequencies, merges, t, depths2, big)) == sum(
            frontier(frequencies, merges, t + 1, depths, big),
        ),
{
    let n = frequencies.len() as int;
    let a = merges[t].0 as int;
    let b = merges[t].1 as int;
    let m = n + t;
    assert(merges_lightest(frequencies, merges, weights, t));
    assert(is_root(frequencies, merges, t, a));
    assert(is_root(frequencies, merges, t, b));
    assert(a < m && b < m);
    let f1 = frontier(frequencies, merges, t + 1, depths, big);
    let f0 = frontier(frequencies, merges, t, depths2, big);
    let half = pow2((big - depths[m] - 1) as nat);
    let g1 = f1.update(m, 0);
    let g2 = g1.update(a, half);
    let g3 = g2.update(b, half);
    lemma_roots_step(frequencies, merges, weights, t, a);
    lemma_roots_step(frequencies, merges, weights, t, b);
    lemma_roots_step(frequencies, merges, weights, t, m);
    assert(f0 =~= g3) by {
        assert forall|c: int| 0 <= c < f0.len() implies f0[c] == g3[c] by {
            lemma_roots_step(frequencies, merges, weights, t, c);
        }
    }
    lemma_pow2_unfold((big - depths[m]) as nat);
    lemma_sum_update(f1, m, 0);
    lemma_sum_update(g1, a, half);
    lemma_sum_update(g2, b, half);
}

/// The depth of every symbol in the tree that the merges describe.
fn symbol_depths(frequencies: &[u32], merges: &Vec<(usize, usize)>) -> (r: Vec<usize>)
    requires
        exists|weights: Seq<nat>| is_huffman_tree(frequencies@, merges@, weights),
        frequencies@.len() + merges@.len() <= usize::MAX,
    ensures
        is_huffman_depths(frequencies@, nats_of(r@)),
        forall|i: int| 0 <= i < r@.len() ==> #[trigger] r@[i] <= merges@.len(),
        kraft(nats_of(r@), merges@.len(), merges@.len()) == pow2(merges@.len()),
{
    let n: usize = frequencies.len();
    let m: usize = merges.len();
    let ghost weights = choose|weights: Seq<nat>|
        is_huffman_tree(frequencies@, merges@, weights);
    let mut depths: Vec<usize> = Vec::new();
    let mut i: usize = 0;
    while i < n + m
        invariant
            n + m <= usize::MAX,
            i <= n + m,
            depths@.len() == i,
            forall|k: int| 0 <= k < i ==> #[trigger] depths@[k] == 0,
        decreases n + m - i,
    {
        depths.push(0);
        i = i + 1;
    }
    let ghost big = m as nat;
    proof {
        let f = frontier(frequencies@, merges@, m as int, nats_of(depths@), big);
        let z = f.update(n + m - 1, 0);
        lemma_roots_step(frequencies@, merges@, weights, m - 1, n + m - 1);
        lemma_sum_zero(z);
        lemma_sum_update(f, n + m - 1, 0);
    }
    let mut t: usize = m;
    while t > 0
        invariant
            t <= m,
            n == frequencies@.len(),
            m == merges@.len(),
            n + m <= usize::MAX,
            big == m,
            is_huffman_tree(frequencies@, merges@, weights),
            depths@.len() == n + m,
            depths@[n + m - 1] == 0,
            sum(frontier(frequencies@, merges@, t as int, nats_of(depths@), big)) == pow2(big),
            forall|c: int| 0 <= c < n + m ==> #[trigger] depths@[c] <= m - t,
            forall|c: int| 0 <= c < n && frequencies@[c] == 0 ==> #[trigger] depths@[c] == 0,
            forall|s: int|
                t <= s < m ==> depths@[(#[trigger] merges@[s]).0 as int] == depths@[n + s] + 1
                    && depths@[merges@[s].1 as int] == depths@[n + s] + 1,
        decreases t,
    {
        t = t - 1;
        let ghost before = depths@;
        let (a, b) = merges[t];
        proof {
            assert(merges_lightest(frequencies@, merges@, weights, t as int));
            assert(is_root(frequencies@, merges@, t as int, a as int));
            assert(is_root(frequencies@, merges@, t as int, b as int));
            assert(depths@[n + t] <= m - t - 1);
        }
        let d: usize = depths[n + t] + 1;
        depths.set(a, d);
        depths.set(b, d);
        proof {
            let after = depths@;
            assert(nats_of(after) =~= nats_of(before).update(a as int, d as nat).update(
                b as int,
                d as nat,
            ));
            lemma_frontier_step(
                frequencies@,
                merges@,
                weights,
                t as int,
                nats_of(before),
                nats_of(after),
                big,
            );
            assert forall|s: int| t <= s < m implies after[(#[trigger] merges@[s]).0 as int]
                == after[n + s] + 1 && after[merges@[s].1 as int] == after[n + s] + 1 by {
                if s > t {
                    assert(merges_lightest(frequencies@, merges@, weights, s));
                    assert(is_root(frequencies@, merges@, s, merges@[s].0 as int));
                    assert(is_root(frequencies@, merges@, s, merges@[s].1 as int));
                    assert(merges@[t as int].0 == a && merges@[t as int].1 == b);
                }
            }
        }
    }
    let ghost all = nats_of(depths@);
    let mut r: Vec<usize> = Vec::new();
    let mut k: usize = 0;
    while k < n
        invariant
            k <= n,
            n <= depths@.len(),
            r@ == depths@.take(k as int),
        decreases n - k,
    {
        r.push(depths[k]);
        k = k + 1;
        assert(r@ =~= depths@.take(k as int));
    }
    proof {
        let f = frontier(frequencies@, merges@, 0, all, big);
        assert forall|c: int| 0 <= c < n && frequencies@[c] > 0 implies #[trigger] depths@[c]
            >= 1 by {
            if forall|s: int|
                0 <= s < m ==> (#[trigger] merges@[s]).0 != c && merges@[s].1 != c {
                assert(is_root(frequencies@, merges@, m as int, c));
                assert(false);
            }
            let s = choose|s: int|
                0 <= s < m && ((#[trigger] merges@[s]).0 == c || merges@[s].1 == c);
            assert(depths@[merges@[s].0 as int] == depths@[n + s] + 1);
        }
        assert(f.take(n as int) =~= shares(nats_of(r@), big, big)) by {
            assert forall|c: int| 0 <= c < n implies f[c] == #[trigger] shares(
                nats_of(r@),
                big,
                big,
            )[c] by {
                assert(is_root(frequencies@, merges@, 0, c) == (frequencies@[c] > 0));
                assert(r@[c] == depths@[c]);
                assert(depths@[c] <= m);
                if frequencies@[c] > 0 {
                    assert(depths@[c] >= 1);
                }
            }
        }
        crate::math::lemma_sum_take(f, n as int);
        assert(is_depth_map(n as int, merges@, all)) by {
            assert forall|t: int| 0 <= t < m implies all[(#[trigger] merges@[t]).0 as int] == all[n
                + t] + 1 && all[merges@[t].1 as int] == all[n + t] + 1 by {
                assert(merges_lightest(frequencies@, merges@, weights, t));
                assert(is_root(frequencies@, merges@, t, merges@[t].0 as int));
                assert(is_root(frequencies@, merges@, t, merges@[t].1 as int));
            }
        }
        assert(is_huffman_depths(frequencies@, nats_of(r@))) by {
            assert forall|i: int| 0 <= i < n implies (#[trigger] nats_of(r@)[i] == 0
                <==> frequencies@[i] == 0) by {
                assert(r@[i] == depths@[i]);
                if frequencies@[i] > 0 {
                    assert(depths@[i] >= 1);
                }
            }
            assert(is_huffman_tree(frequencies@, merges@, weights));
        }
    }
    r
}

/// How many codes of each length 0 to `limit` there are.
pub open spec fn histogram(lengths: Seq<nat>, limit: nat) -> Seq<nat> {
    Seq::new(limit + 1, |l: int| occurrences(lengths, l as nat))
}

pub open spec fn clamped(lengths: Seq<nat>, limit: nat) -> Seq<nat> {
    Seq::new(
        lengths.len(),
        |i: int|
            if lengths[i] <= limit {
                lengths[i]
            } else {
                limit
            },
    )
}

pub open spec fn space_terms(h: Seq<nat>, limit: nat, cap: nat) -> Seq<nat> {
    Seq::new(h.len(), |l: int| h[l] * share(l as nat, limit, cap))
}

/// Code space that the codes counted in `h` take, in units of `2^-limit`.
pub open spec fn code_space(h: Seq<nat>, limit: nat, cap: nat) -> nat {
    sum(space_terms(h, limit, cap))
}

/// The greatest length from 1 to `i` that `h` counts, 0 if there is none.
pub open spec fn deepest(h: Seq<nat>, i: int) -> int
    decreases i,
{
    if i <= 0 {
        0
    } else if h[i] > 0 {
        i
    } else {
        deepest(h, i - 1)
    }
}

/// Makes a deepest shorter code one bit longer and lets a code of the full length
/// become its sibling.
pub open spec fn lengthen_one(h: Seq<nat>, limit: nat) -> Seq<nat> {
    let i = deepest(h, limit - 1);
    let h1 = h.update(i, (h[i] - 1) as nat);
    let h2 = h1.update(limit as int, (h1[limit as int] - 1) as nat);
    h2.update(i + 1, h2[i + 1] + 2)
}

pub open spec fn lengthen(h: Seq<nat>, limit: nat, steps: nat) -> Seq<nat>
    decreases steps,
{
    if steps == 0 {
        h
    } else {
        lengthen(lengthen_one(h, limit), limit, (steps - 1) as nat)
    }
}

/// The code lengths that result from cutting `depths` to at most `limit`.
///
/// Where a depth is greater, all depths are cut at the limit, codes are lengthened
/// until they fit into the code space, and the lengths are given out so that rarer
/// symbols get the longer codes.
pub open spec fn is_limited(
    frequencies: Seq<u32>,
    depths: Seq<nat>,
    limit: nat,
    lengths: Seq<nat>,
) -> bool {
    if forall|i: int| 0 <= i < depths.len() ==> #[trigger] depths[i] <= limit {
        lengths == depths
    } else {
        let h = histogram(clamped(depths, limit), limit);
        let target = lengthen(
            h,
            limit,
            (code_space(h, limit, limit) - pow2(limit)) as nat,
        );
        &&& lengths.len() == depths.len()
        &&& forall|i: int|
            0 <= i < lengths.len() ==> (#[trigger] lengths[i] == 0 <==> frequencies[i] == 0)
        &&& forall|i: int| 0 <= i < lengths.len() ==> #[trigger] lengths[i] <= limit
        &&& forall|l: int|
            1 <= l <= limit ==> #[trigger] histogram(lengths, limit)[l] == target[l]
        &&& forall|i: int, j: int|
            #![trigger lengths[i], lengths[j]]
            0 <= i < lengths.len() && 0 <= j < lengths.len() && 0 < frequencies[i]
                < frequencies[j] ==> lengths[i] >= lengths[j]
    }
}

proof fn lemma_space_update(h: Seq<nat>, limit: nat, cap: nat, l: int, v: nat)
    requires
        0 <= l < h.len(),
    ensures
        code_space(h.update(l, v), limit, cap) == code_space(h, limit, cap) + (v - h[l]) * share(
            l as nat,
            limit,
            cap,
        ),
{
    let s = share(l as nat, limit, cap);
    assert(space_terms(h.update(l, v), limit, cap) =~= space_terms(h, limit, cap).update(l, v * s));
    lemma_sum_update(space_terms(h, limit, cap), l, v * s);
    let x = h[l];
    assert((v - x) * s == v * s - x * s) by (nonlinear_arith);
}

proof fn lemma_kraft_update(lengths: Seq<nat>, limit: nat, cap: nat, i: int, v: nat)
    requires
        0 <= i < lengths.len(),
    ensures
        kraft(lengths.update(i, v), limit, cap) == kraft(lengths, limit, cap) - share(
            lengths[i],
            limit,
            cap,
        ) + share(v, limit, cap),
{
    assert(shares(lengths.update(i, v), limit, cap) =~= shares(lengths, limit, cap).update(
        i,
        share(v, limit, cap),
    ));
    lemma_sum_update(shares(lengths, limit, cap), i, share(v, limit, cap));
}

proof fn lemma_kraft_scale(lengths: Seq<nat>, limit: nat, cap: nat, big: nat)
    requires
        cap <= limit <= big,
    ensures
        kraft(lengths, big, cap) == pow2((big - limit) as nat) * kraft(lengths, limit, cap),
{
    let a = shares(lengths, limit, cap);
    let b = shares(lengths, big, cap);
    let k = pow2((big - limit) as nat);
    assert forall|i: int| 0 <= i < a.len() implies b[i] == k * a[i] by {
        let l = lengths[i];
        if 0 < l <= cap {
            lemma_pow2_adds((big - limit) as nat, (limit - l) as nat);
        } else {
            assert(k * 0 == 0) by (nonlinear_arith);
        }
    }
    lemma_sum_scale(a, b, k);
}

/// What a full tree of depth at most `big` says about the cut lengths.
proof fn lemma_clamped_space(depths: Seq<nat>, limit: nat, big: nat)
    requires
        1 <= limit,
        forall|i: int| 0 <= i < depths.len() ==> #[trigger] depths[i] <= big,
        kraft(depths, big, big) == pow2(big),
    ensures
        big < limit ==> forall|i: int| 0 <= i < depths.len() ==> #[trigger] depths[i] <= limit,
        (forall|i: int| 0 <= i < depths.len() ==> #[trigger] depths[i] <= limit) ==> kraft(
            depths,
            limit,
            limit,
        ) == pow2(limit),
        limit <= big ==> kraft(clamped(depths, limit), limit, limit) >= pow2(limit),
        limit <= big ==> kraft(clamped(depths, limit), limit, (limit - 1) as nat) <= pow2(limit),
{
    if limit <= big {
        let k = pow2((big - limit) as nat);
        lemma_pow2_pos((big - limit) as nat);
        lemma_pow2_adds((big - limit) as nat, limit);
        let c = clamped(depths, limit);
        let short = (limit - 1) as nat;
        assert forall|i: int| 0 <= i < depths.len() implies shares(depths, big, big)[i] <= shares(
            c,
            big,
            limit,
        )[i] by {
            let d = depths[i];
            if d > limit {
                lemma_pow2_mono((big - d) as nat, (big - limit) as nat);
            }
        }
        lemma_sum_le(shares(depths, big, big), shares(c, big, limit));
        lemma_kraft_scale(c, limit, limit, big);
        let x = kraft(c, limit, limit);
        let p = pow2(limit);
        assert(x >= p) by (nonlinear_arith)
            requires
                k * x >= k * p,
                k > 0,
        ;
        assert forall|i: int| 0 <= i < depths.len() implies shares(c, big, short)[i] <= shares(
            depths,
            big,
            big,
        )[i] by {}
        lemma_sum_le(shares(c, big, short), shares(depths, big, big));
        lemma_kraft_scale(c, limit, short, big);
        let y = kraft(c, limit, short);
        assert(y <= p) by (nonlinear_arith)
            requires
                k * y <= k * p,
                k > 0,
        ;
        if forall|i: int| 0 <= i < depths.len() ==> #[trigger] depths[i] <= limit {
            assert(shares(depths, big, big) =~= shares(depths, big, limit)) by {
                assert forall|i: int| 0 <= i < depths.len() implies shares(depths, big, big)[i]
                    == shares(depths, big, limit)[i] by {
                    assert(depths[i] <= limit);
                }
            }
            lemma_kraft_scale(depths, limit, limit, big);
            let z = kraft(depths, limit, limit);
            assert(z == p) by (nonlinear_arith)
                requires
                    k * z == k * p,
                    k > 0,
            ;
        }
    } else {
        lemma_pow2_adds((limit - big) as nat, big);
        lemma_kraft_scale(depths, big, big, limit);
        assert(shares(depths, limit, limit) =~= shares(depths, limit, big)) by {
            assert forall|i: int| 0 <= i < depths.len() implies shares(depths, limit, limit)[i]
                == shares(depths, limit, big)[i] by {
                assert(depths[i] <= big);
            }
        }
    }
}

/// One step of lengthening frees one unit of code space.
proof fn lemma_lengthen_one(h: Seq<nat>, limit: nat)
    requires
        2 <= limit,
        h.len() == limit + 1,
        1 <= deepest(h, limit - 1) < limit,
        h[deepest(h, limit - 1)] > 0,
        h[limit as int] > 0,
    ensures
        code_space(lengthen_one(h, limit), limit, limit) + 1 == code_space(h, limit, limit),
        code_space(lengthen_one(h, limit), limit, (limit - 1) as nat) <= code_space(
            h,
            limit,
            (limit - 1) as nat,
        ),
        sum(lengthen_one(h, limit)) == sum(h),
        lengthen_one(h, limit)[0] == h[0],
        lengthen_one(h, limit).len() == h.len(),
{
    let i = deepest(h, limit - 1);
    let h1 = h.update(i, (h[i] - 1) as nat);
    let h2 = h1.update(limit as int, (h1[limit as int] - 1) as nat);
    let v = h2[i + 1] + 2;
    let h3 = h2.update(i + 1, v);
    let short = (limit - 1) as nat;
    lemma_space_update(h, limit, limit, i, (h[i] - 1) as nat);
    lemma_space_update(h1, limit, limit, limit as int, (h1[limit as int] - 1) as nat);
    lemma_space_update(h2, limit, limit, i + 1, v);
    lemma_space_update(h, limit, short, i, (h[i] - 1) as nat);
    lemma_space_update(h1, limit, short, limit as int, (h1[limit as int] - 1) as nat);
    lemma_space_update(h2, limit, short, i + 1, v);
    lemma_pow2_unfold((limit - i) as nat);
    vstd::arithmetic::power2::lemma2_to64();
    let s = share(i as nat, limit, limit);
    let u = share((i + 1) as nat, limit, limit);
    let one = share(limit, limit, limit);
    assert(s == 2 * u);
    assert(one == 1);
    let d1 = (h[i] - 1) as nat - h[i];
    let d2 = (h1[limit as int] - 1) as nat - h1[limit as int];
    let d3 = v - h2[i + 1];
    assert(d1 * s == -s) by (nonlinear_arith)
        requires
            d1 == -1,
    ;
    assert(d2 * one == -1) by (nonlinear_arith)
        requires
            d2 == -1,
            one == 1,
    ;
    assert(d3 * u == 2 * u) by (nonlinear_arith)
        requires
            d3 == 2,
    ;
    let us = share((i + 1) as nat, limit, short);
    assert(share(i as nat, limit, short) == s);
    assert(share(limit, limit, short) == 0);
    assert(d2 * 0 == 0) by (nonlinear_arith);
    assert(d3 * us <= 2 * u) by (nonlinear_arith)
        requires
            d3 == 2,
            us == u || us == 0,
            u >= 0,
    ;
    lemma_sum_update(h, i, (h[i] - 1) as nat);
    lemma_sum_update(h1, limit as int, (h1[limit as int] - 1) as nat);
    lemma_sum_update(h2, i + 1, v);
}

proof fn lemma_deepest(h: Seq<nat>, i: int)
    requires
        0 <= i < h.len(),
    ensures
        0 <= deepest(h, i) <= i,
        deepest(h, i) > 0 ==> h[deepest(h, i)] > 0,
        forall|k: int| deepest(h, i) < k <= i ==> h[k] == 0,
    decreases i,
{
    if i > 0 && h[i] == 0 {
        lemma_deepest(h, i - 1);
    }
}

/// A code space above the limit leaves room to lengthen.
proof fn lemma_can_lengthen(h: Seq<nat>, limit: nat)
    requires
        1 <= limit,
        h.len() == limit + 1,
        code_space(h, limit, limit) > pow2(limit),
        code_space(h, limit, (limit - 1) as nat) <= pow2(limit),
        sum(h) - h[0] <= pow2(limit),
    ensures
        2 <= limit,
        1 <= deepest(h, limit - 1) < limit,
        h[deepest(h, limit - 1)] > 0,
        h[limit as int] > 0,
{
    let short = (limit - 1) as nat;
    let all = space_terms(h, limit, limit);
    let part = space_terms(h, limit, short);
    vstd::arithmetic::power2::lemma2_to64();
    let x = h[limit as int];
    assert(x * 1 == x && x * 0 == 0);
    assert(all.drop_last() =~= part.drop_last()) by {
        assert forall|l: int| 0 <= l < limit implies all[l] == part[l] by {}
    }
    assert(part.last() == 0);
    assert(all.last() == x);
    assert(code_space(h, limit, limit) == code_space(h, limit, short) + x);
    lemma_deepest(h, limit - 1);
    if deepest(h, limit - 1) == 0 {
        assert forall|l: int| 0 <= l < part.len() implies part[l] == 0 by {
            if 0 < l < limit {
                assert(h[l] == 0);
                let s = share(l as nat, limit, short);
                assert(0 * s == 0) by (nonlinear_arith);
            } else {
                let y = h[l];
                assert(y * 0 == 0) by (nonlinear_arith);
            }
        }
        lemma_sum_zero(part);
        let g = h.update(0, 0);
        lemma_sum_update(h, 0, 0);
        lemma_sum_update(g, limit as int, 0);
        assert(x <= sum(g));
    }
}

/// The lengths as naturals.
pub open spec fn lens_of(s: Seq<u8>) -> Seq<nat> {
    Seq::new(s.len(), |i: int| s[i] as nat)
}

pub open spec fn counts_of(s: Seq<u32>) -> Seq<nat> {
    Seq::new(s.len(), |i: int| s[i] as nat)
}

/// Counts the cut depths and adds up the code space that they take.
fn count_lengths(depths: &Vec<usize>, limit: u8) -> (r: (Vec<u32>, u64))
    requires
        1 <= limit <= 15,
        depths@.len() <= 0x8000,
    ensures
        counts_of(r.0@) == histogram(clamped(nats_of(depths@), limit as nat), limit as nat),
        r.1 == code_space(counts_of(r.0@), limit as nat, limit as nat),
        kraft(clamped(nats_of(depths@), limit as nat), limit as nat, limit as nat) == r.1,
        kraft(clamped(nats_of(depths@), limit as nat), limit as nat, (limit - 1) as nat)
            == code_space(counts_of(r.0@), limit as nat, (limit - 1) as nat),
        sum(counts_of(r.0@)) == depths@.len(),
{
    let ghost lim = limit as nat;
    let ghost c = clamped(nats_of(depths@), lim);
    let mut counts: Vec<u32> = Vec::new();
    let mut j: u8 = 0;
    while j < limit + 1
        invariant
            limit <= 15,
            j <= limit + 1,
            counts@.len() == j,
            forall|k: int| 0 <= k < j ==> #[trigger] counts@[k] == 0,
        decreases limit + 1 - j,
    {
        counts.push(0);
        j = j + 1;
    }
    let mut total: u64 = 0;
    let mut i: usize = 0;
    proof {
        let h = counts_of(counts@);
        assert(c.take(0) =~= Seq::<nat>::empty());
        assert(h =~= histogram(c.take(0), lim));
        assert forall|k: int| 0 <= k < h.len() implies #[trigger] space_terms(h, lim, lim)[k]
            == 0 by {
            let s1 = share(k as nat, lim, lim);
            assert(0 * s1 == 0) by (nonlinear_arith);
        }
        assert forall|k: int| 0 <= k < h.len() implies #[trigger] space_terms(
            h,
            lim,
            (lim - 1) as nat,
        )[k] == 0 by {
            let s2 = share(k as nat, lim, (lim - 1) as nat);
            assert(0 * s2 == 0) by (nonlinear_arith);
        }
        lemma_sum_zero(space_terms(h, lim, lim));
        lemma_sum_zero(space_terms(h, lim, (lim - 1) as nat));
        lemma_sum_zero(h);
        assert(shares(c.take(0), lim, lim) =~= Seq::<nat>::empty());
        assert(shares(c.take(0), lim, (lim - 1) as nat) =~= Seq::<nat>::empty());
    }
    while i < depths.len()
        invariant
            lim == limit,
            1 <= limit <= 15,
            depths@.len() <= 0x8000,
            i <= depths@.len(),
            c == clamped(nats_of(depths@), lim),
            counts@.len() == limit + 1,
            counts_of(counts@) == histogram(c.take(i as int), lim),
            total == code_space(counts_of(counts@), lim, lim),
            total == kraft(c.take(i as int), lim, lim),
            code_space(counts_of(counts@), lim, (lim - 1) as nat) == kraft(
                c.take(i as int),
                lim,
                (lim - 1) as nat,
            ),
            sum(counts_of(counts@)) == i,
            total <= 0x4000 * i,
        decreases depths@.len() - i,
    {
        let d: usize = depths[i];
        let l: u8 = if d <= limit as usize {
            d as u8
        } else {
            limit
        };
        let ghost h0 = counts_of(counts@);
        let ghost short = (lim - 1) as nat;
        proof {
            lemma_sum_update(h0, l as int, h0[l as int] + 1);
            assert(c[i as int] == l);
            assert(c.take(i + 1) =~= c.take(i as int).push(l as nat));
            assert(shares(c.take(i + 1), lim, lim) =~= shares(c.take(i as int), lim, lim).push(
                share(l as nat, lim, lim),
            ));
            lemma_sum_push(shares(c.take(i as int), lim, lim), share(l as nat, lim, lim));
            assert(shares(c.take(i + 1), lim, short) =~= shares(c.take(i as int), lim, short).push(
                share(l as nat, lim, short),
            ));
            lemma_sum_push(shares(c.take(i as int), lim, short), share(l as nat, lim, short));
            lemma_space_update(h0, lim, lim, l as int, h0[l as int] + 1);
            lemma_space_update(h0, lim, short, l as int, h0[l as int] + 1);
            let s1 = share(l as nat, lim, lim);
            let s2 = share(l as nat, lim, short);
            let d = h0[l as int] + 1 - h0[l as int];
            assert(d * s1 == s1 && d * s2 == s2) by (nonlinear_arith)
                requires
                    d == 1,
            ;
            vstd::arithmetic::power2::lemma2_to64();
            if l > 0 {
                lemma_pow2_mono((lim - l) as nat, 14);
            }
        }
        let n: u32 = counts[l as usize] + 1;
        counts.set(l as usize, n);
        proof {
            assert(counts_of(counts@) =~= h0.update(l as int, h0[l as int] + 1));
            assert(counts_of(counts@) =~= histogram(c.take(i + 1), lim)) by {
                assert forall|k: int| 0 <= k < lim + 1 implies #[trigger] counts_of(counts@)[k]
                    == histogram(c.take(i + 1), lim)[k] by {
                    lemma_occurrences_push(c.take(i as int), l as nat, k as nat);
                    assert(h0[k] == histogram(c.take(i as int), lim)[k]);
                }
            }
        }
        if l > 0 {
            total = total + pow2_u64(limit - l);
        }
        i = i + 1;
    }
    assert(c.take(i as int) =~= c);
    (counts, total)
}

/// Lengthens codes until they fit into the code space.
fn fit_counts(counts: &mut Vec<u32>, total: u64, limit: u8)
    requires
        1 <= limit <= 15,
        old(counts)@.len() == limit + 1,
        total == code_space(counts_of(old(counts)@), limit as nat, limit as nat),
        total >= pow2(limit as nat),
        code_space(counts_of(old(counts)@), limit as nat, (limit - 1) as nat) <= pow2(limit as nat),
        sum(counts_of(old(counts)@)) - old(counts)@[0] <= pow2(limit as nat),
        sum(counts_of(old(counts)@)) <= 0x8000,
    ensures
        final(counts)@.len() == limit + 1,
        counts_of(final(counts)@) == lengthen(
            counts_of(old(counts)@),
            limit as nat,
            (total - pow2(limit as nat)) as nat,
        ),
        code_space(counts_of(final(counts)@), limit as nat, limit as nat) == pow2(limit as nat),
        sum(counts_of(final(counts)@)) == sum(counts_of(old(counts)@)),
        final(counts)@[0] == old(counts)@[0],
{
    let ghost lim = limit as nat;
    let full: u64 = pow2_u64(limit);
    let mut left: u64 = total - full;
    let ghost start = counts_of(counts@);
    while left > 0
        invariant
            lim == limit,
            1 <= limit <= 15,
            counts@.len() == limit + 1,
            left + pow2(lim) == code_space(counts_of(counts@), lim, lim),
            code_space(counts_of(counts@), lim, (lim - 1) as nat) <= pow2(lim),
            sum(counts_of(counts@)) - counts@[0] <= pow2(lim),
            sum(counts_of(counts@)) == sum(start),
            sum(start) <= 0x8000,
            counts@[0] == start[0],
            lengthen(counts_of(counts@), lim, left as nat) == lengthen(
                start,
                lim,
                (total - pow2(lim)) as nat,
            ),
        decreases left,
    {
        let ghost h = counts_of(counts@);
        proof {
            lemma_can_lengthen(h, lim);
            lemma_lengthen_one(h, lim);
        }
        let mut i: usize = limit as usize - 1;
        while counts[i] == 0
            invariant
                counts@.len() == limit + 1,
                h == counts_of(counts@),
                i < limit,
                1 <= deepest(h, limit - 1) <= i,
                h[deepest(h, limit - 1)] > 0,
                deepest(h, limit - 1) == deepest(h, i as int),
            decreases i,
        {
            i = i - 1;
        }
        assert(deepest(h, limit - 1) == i);
        let ghost h1 = h.update(i as int, (h[i as int] - 1) as nat);
        let ghost h2 = h1.update(limit as int, (h1[limit as int] - 1) as nat);
        proof {
            lemma_sum_update(h, i as int, (h[i as int] - 1) as nat);
            lemma_sum_update(h1, limit as int, (h1[limit as int] - 1) as nat);
            lemma_sum_update(h2, i + 1, 0);
        }
        let a: u32 = counts[i] - 1;
        counts.set(i, a);
        let b: u32 = counts[limit as usize] - 1;
        counts.set(limit as usize, b);
        let c: u32 = counts[i + 1] + 2;
        counts.set(i + 1, c);
        assert(counts_of(counts@) =~= lengthen_one(h, lim));
        left = left - 1;
    }
}

/// Marks the symbols that still wait for a code.
spec fn waiting(frequencies: Seq<u32>, lengths: Seq<u8>) -> Seq<nat> {
    Seq::new(
        frequencies.len(),
        |i: int|
            if frequencies[i] > 0 && lengths[i] == 0 {
                1nat
            } else {
                0nat
            },
    )
}

/// The first of the rarest symbols that still wait for a code.
fn rarest_waiting(frequencies: &[u32], lengths: &Vec<u8>) -> (r: Option<usize>)
    requires
        lengths@.len() == frequencies@.len(),
    ensures
        match r {
            Some(i) => {
                &&& i < frequencies@.len()
                &&& frequencies@[i as int] > 0
                &&& lengths@[i as int] == 0
                &&& forall|k: int|
                    0 <= k < frequencies@.len() && frequencies@[k] > 0 && lengths@[k] == 0
                        ==> frequencies@[i as int] <= #[trigger] frequencies@[k]
            },
            None => forall|k: int|
                0 <= k < frequencies@.len() && #[trigger] frequencies@[k] > 0 ==> lengths@[k] > 0,
        },
{
    let mut best: Option<usize> = None;
    let mut i: usize = 0;
    while i < frequencies.len()
        invariant
            i <= frequencies@.len(),
            lengths@.len() == frequencies@.len(),
            match best {
                Some(b) => {
                    &&& b < i
                    &&& frequencies@[b as int] > 0
                    &&& lengths@[b as int] == 0
                    &&& forall|k: int|
                        0 <= k < i && frequencies@[k] > 0 && lengths@[k] == 0
                            ==> frequencies@[b as int] <= #[trigger] frequencies@[k]
                },
                None => forall|k: int|
                    0 <= k < i && #[trigger] frequencies@[k] > 0 ==> lengths@[k] > 0,
            },
        decreases frequencies@.len() - i,
    {
        if frequencies[i] > 0 && lengths[i] == 0 {
            match best {
                Some(b) => {
                    if frequencies[i] < frequencies[b] {
                        best = Some(i);
                    }
                },
                None => {
                    best = Some(i);
                },
            }
        }
        i = i + 1;
    }
    best
}

/// Gives out the counted lengths, the longest first, from the rarest symbol on.
fn give_lengths(frequencies: &[u32], counts: &Vec<u32>, limit: u8) -> (lengths: Vec<u8>)
    requires
        1 <= limit <= 15,
        counts@.len() == limit + 1,
        code_space(counts_of(counts@), limit as nat, limit as nat) == pow2(limit as nat),
        sum(counts_of(counts@)) - counts@[0] == count_nonzero(frequencies@),
        frequencies@.len() <= 0x8000,
    ensures
        lengths@.len() == frequencies@.len(),
        forall|i: int|
            0 <= i < lengths@.len() ==> (#[trigger] lengths@[i] == 0 <==> frequencies@[i] == 0),
        forall|i: int| 0 <= i < lengths@.len() ==> #[trigger] lengths@[i] <= limit,
        forall|l: int|
            1 <= l <= limit ==> #[trigger] histogram(lens_of(lengths@), limit as nat)[l]
                == counts_of(counts@)[l],
        forall|i: int, j: int|
            #![trigger lengths@[i], lengths@[j]]
            0 <= i < lengths@.len() && 0 <= j < lengths@.len() && 0 < frequencies@[i]
                < frequencies@[j] ==> lengths@[i] >= lengths@[j],
        kraft(lens_of(lengths@), limit as nat, limit as nat) == pow2(limit as nat),
{
    let ghost lim = limit as nat;
    let ghost goal = counts_of(counts@);
    let mut rest: Vec<u32> = counts.clone();
    let mut lengths: Vec<u8> = Vec::new();
    let mut z: usize = 0;
    while z < frequencies.len()
        invariant
            z <= frequencies@.len(),
            lengths@.len() == z,
            forall|k: int| 0 <= k < z ==> #[trigger] lengths@[k] == 0,
        decreases frequencies@.len() - z,
    {
        lengths.push(0);
        z = z + 1;
    }
    let mut len: u8 = limit;
    let ghost mut left: nat = count_nonzero(frequencies@);
    proof {
        assert(counts_of(rest@) =~= goal);
        lemma_waiting_count(frequencies@, lengths@);
        lemma_sum_zero(shares(lens_of(lengths@), lim, lim));
        assert forall|l: int| 1 <= l <= limit implies #[trigger] occurrences(
            lens_of(lengths@),
            l as nat,
        ) == 0 by {
            crate::math::lemma_occurrences_none(lens_of(lengths@), l as nat);
        }
    }
    let mut next: Option<usize> = rarest_waiting(frequencies, &lengths);
    while next.is_some()
        invariant
            lim == limit,
            goal == counts_of(counts@),
            1 <= limit <= 15,
            goal.len() == limit + 1,
            rest@.len() == limit + 1,
            lengths@.len() == frequencies@.len(),
            1 <= len <= limit,
            next == None::<usize> ==> forall|k: int|
                0 <= k < frequencies@.len() && #[trigger] frequencies@[k] > 0 ==> lengths@[k] > 0,
            next matches Some(i) ==> {
                &&& i < frequencies@.len()
                &&& frequencies@[i as int] > 0
                &&& lengths@[i as int] == 0
                &&& forall|k: int|
                    0 <= k < frequencies@.len() && frequencies@[k] > 0 && lengths@[k] == 0
                        ==> frequencies@[i as int] <= #[trigger] frequencies@[k]
            },
            sum(counts_of(rest@)) - rest@[0] == left,
            left == sum(waiting(frequencies@, lengths@)),
            forall|l: int| len < l <= limit ==> #[trigger] rest@[l] == 0,
            forall|i: int|
                0 <= i < lengths@.len() && frequencies@[i] == 0 ==> #[trigger] lengths@[i] == 0,
            forall|i: int|
                0 <= i < lengths@.len() ==> #[trigger] lengths@[i] == 0 || len <= lengths@[i]
                    <= limit,
            forall|i: int, j: int|
                #![trigger lengths@[i], lengths@[j]]
                0 <= i < lengths@.len() && 0 <= j < lengths@.len() && lengths@[i] > 0
                    && lengths@[j] == 0 && frequencies@[j] > 0 ==> frequencies@[i]
                    <= frequencies@[j],
            forall|i: int, j: int|
                #![trigger lengths@[i], lengths@[j]]
                0 <= i < lengths@.len() && 0 <= j < lengths@.len() && lengths@[i] > 0
                    && lengths@[j] > 0 && frequencies@[i] < frequencies@[j] ==> lengths@[i]
                    >= lengths@[j],
            forall|l: int|
                1 <= l <= limit ==> #[trigger] goal[l] == rest@[l] + occurrences(
                    lens_of(lengths@),
                    l as nat,
                ),
            kraft(lens_of(lengths@), lim, lim) + code_space(counts_of(rest@), lim, lim) == pow2(
                lim,
            ),
        decreases left,
    {
        let i: usize = next.unwrap();
        let ghost h = counts_of(rest@);
        let ghost lens0 = lengths@;
        let ghost wait0 = waiting(frequencies@, lens0);
        proof {
            assert(wait0[i as int] == 1);
            lemma_sum_update(wait0, i as int, 0);
            assert(left >= 1);
            // some length from 1 to len is still counted
            if forall|l: int| 1 <= l <= len ==> #[trigger] rest@[l] == 0 {
                let g = h.update(0, 0);
                lemma_sum_update(h, 0, 0);
                assert forall|l: int| 0 <= l < g.len() implies g[l] == 0 by {
                    if l >= 1 {
                        assert(rest@[l] == 0);
                    }
                }
                lemma_sum_zero(g);
                assert(false);
            }
        }
        while rest[len as usize] == 0
            invariant
                1 <= len <= limit,
                limit <= 15,
                rest@.len() == limit + 1,
                h == counts_of(rest@),
                forall|l: int| len < l <= limit ==> #[trigger] rest@[l] == 0,
                exists|l: int| 1 <= l <= len && #[trigger] rest@[l] > 0,
                forall|i: int|
                    0 <= i < lengths@.len() ==> #[trigger] lengths@[i] == 0 || len <= lengths@[i]
                        <= limit,
            decreases len,
        {
            len = len - 1;
        }
        lengths.set(i, len);
        proof {
            lemma_sum_update(h, len as int, (h[len as int] - 1) as nat);
            lemma_space_update(h, lim, lim, len as int, (h[len as int] - 1) as nat);
            assert(lens_of(lengths@) =~= lens_of(lens0).update(i as int, len as nat));
            lemma_kraft_update(lens_of(lens0), lim, lim, i as int, len as nat);
            let s = share(len as nat, lim, lim);
            let d = (h[len as int] - 1) as nat - h[len as int];
            assert(d * s == -s) by (nonlinear_arith)
                requires
                    d == -1,
            ;
            assert(waiting(frequencies@, lengths@) =~= wait0.update(i as int, 0));
            left = (left - 1) as nat;
        }
        let c: u32 = rest[len as usize] - 1;
        rest.set(len as usize, c);
        proof {
            assert(counts_of(rest@) =~= h.update(len as int, (h[len as int] - 1) as nat));
            assert forall|l: int| 1 <= l <= limit implies #[trigger] goal[l] == rest@[l]
                + occurrences(lens_of(lengths@), l as nat) by {
                crate::math::lemma_occurrences_update(
                    lens_of(lens0),
                    i as int,
                    len as nat,
                    l as nat,
                );
            }
        }
        next = rarest_waiting(frequencies, &lengths);
    }
    proof {
        lemma_sum_zero(waiting(frequencies@, lengths@));
        let h = counts_of(rest@);
        let g = h.update(0, 0);
        lemma_sum_update(h, 0, 0);
        assert(sum(g) == 0);
        assert forall|l: int| 0 <= l < h.len() implies #[trigger] space_terms(h, lim, lim)[l]
            == 0 by {
            lemma_sum_update(g, l, 0);
            let s = share(l as nat, lim, lim);
            let v = h[l];
            assert(v * s == 0) by (nonlinear_arith)
                requires
                    v == 0 || s == 0,
            ;
        }
        lemma_sum_zero(space_terms(h, lim, lim));
        assert forall|l: int| 1 <= l <= limit implies #[trigger] histogram(
            lens_of(lengths@),
            lim,
        )[l] == goal[l] by {
            lemma_sum_update(g, l, 0);
            assert(h[l] == 0);
        }
    }
    lengths
}

proof fn lemma_waiting_count(frequencies: Seq<u32>, lengths: Seq<u8>)
    requires
        lengths.len() == frequencies.len(),
        forall|i: int| 0 <= i < lengths.len() ==> lengths[i] == 0,
    ensures
        sum(waiting(frequencies, lengths)) == count_nonzero(frequencies),
    decreases frequencies.len(),
{
    if frequencies.len() > 0 {
        lemma_waiting_count(frequencies.drop_last(), lengths.drop_last());
        assert(waiting(frequencies, lengths).drop_last() =~= waiting(
            frequencies.drop_last(),
            lengths.drop_last(),
        ));
    }
}

/// Among the cut depths, the zeros are the unused symbols.
proof fn lemma_zero_depths(frequencies: Seq<u32>, depths: Seq<nat>, limit: nat)
    requires
        1 <= limit,
        depths.len() == frequencies.len(),
        forall|i: int|
            0 <= i < depths.len() ==> (#[trigger] depths[i] == 0 <==> frequencies[i] == 0),
    ensures
        occurrences(clamped(depths, limit), 0) + count_nonzero(frequencies) == frequencies.len(),
    decreases depths.len(),
{
    if depths.len() > 0 {
        assert forall|i: int| 0 <= i < depths.len() - 1 implies (
        #[trigger] depths.drop_last()[i] == 0 <==> frequencies.drop_last()[i] == 0) by {
            assert(depths.drop_last()[i] == depths[i]);
        }
        lemma_zero_depths(frequencies.drop_last(), depths.drop_last(), limit);
        assert(clamped(depths, limit).drop_last() =~= clamped(depths.drop_last(), limit));
        assert(depths[depths.len() - 1] == 0 <==> frequencies[depths.len() - 1] == 0);
    }
}

/// Cuts the depths of a tree to code lengths of at most `limit`.
fn limit_lengths(frequencies: &[u32], depths: &Vec<usize>, limit: u8, big: Ghost<nat>) -> (lengths:
    Vec<u8>)
    requires
        1 <= limit <= 15,
        frequencies@.len() <= 0x8000,
        count_nonzero(frequencies@) <= pow2(limit as nat),
        depths@.len() == frequencies@.len(),
        forall|i: int|
            0 <= i < depths@.len() ==> (#[trigger] nats_of(depths@)[i] == 0 <==> frequencies@[i]
                == 0),
        forall|i: int| 0 <= i < depths@.len() ==> #[trigger] depths@[i] <= big@,
        kraft(nats_of(depths@), big@, big@) == pow2(big@),
    ensures
        is_limited(frequencies@, nats_of(depths@), limit as nat, lens_of(lengths@)),
        lengths@.len() == frequencies@.len(),
        forall|i: int|
            0 <= i < lengths@.len() ==> (#[trigger] lengths@[i] == 0 <==> frequencies@[i] == 0),
        forall|i: int| 0 <= i < lengths@.len() ==> #[trigger] lengths@[i] <= limit,
        kraft(lens_of(lengths@), limit as nat, limit as nat) == pow2(limit as nat),
{
    let ghost lim = limit as nat;
    let ghost ds = nats_of(depths@);
    let mut over: bool = false;
    let mut lengths: Vec<u8> = Vec::new();
    let mut i: usize = 0;
    proof {
        assert forall|i: int| 0 <= i < ds.len() implies #[trigger] ds[i] <= big@ by {
            assert(depths@[i] <= big@);
        }
        lemma_clamped_space(ds, lim, big@);
    }
    while i < depths.len()
        invariant
            lim == limit,
            limit <= 15,
            ds == nats_of(depths@),
            i <= depths@.len(),
            lengths@.len() == i,
            over <==> exists|k: int| 0 <= k < i && #[trigger] ds[k] > limit,
            !over ==> forall|k: int| 0 <= k < i ==> #[trigger] lengths@[k] == ds[k],
        decreases depths@.len() - i,
    {
        let d: usize = depths[i];
        assert(ds[i as int] == d);
        if d > limit as usize {
            over = true;
            lengths.push(0);
        } else {
            lengths.push(d as u8);
        }
        i = i + 1;
    }
    if over {
        let ghost k = choose|k: int| 0 <= k < ds.len() && #[trigger] ds[k] > limit;
        let (mut counts, total) = count_lengths(depths, limit);
        let ghost counted = counts_of(counts@);
        proof {
            assert(!(ds[k] <= limit));
            assert(lim <= big@);
            lemma_zero_depths(frequencies@, ds, lim);
            assert(counted[0] == histogram(clamped(ds, lim), lim)[0]);
        }
        fit_counts(&mut counts, total, limit);
        let lengths2 = give_lengths(frequencies, &counts, limit);
        proof {
            assert forall|l: int| 1 <= l <= lim implies #[trigger] histogram(
                lens_of(lengths2@),
                lim,
            )[l] == lengthen(counted, lim, (code_space(counted, lim, lim) - pow2(lim)) as nat)[l] by {
                assert(counts_of(counts@)[l] == lengthen(
                    counted,
                    lim,
                    (code_space(counted, lim, lim) - pow2(lim)) as nat,
                )[l]);
            }
        }
        lengths2
    } else {
        proof {
            assert forall|k: int| 0 <= k < ds.len() implies #[trigger] ds[k] <= lim by {
                if ds[k] > limit {
                    assert(over);
                }
            }
            assert(lens_of(lengths@) =~= ds);
            assert forall|i: int| 0 <= i < lengths@.len() implies (#[trigger] lengths@[i] == 0
                <==> frequencies@[i] == 0) by {
                assert(ds[i] == 0 <==> frequencies@[i] == 0);
            }
        }
        lengths
    }
}

/// Symbol `j` comes before position `(len, i)` in the canonical order: shorter codes
/// first, then smaller symbols.
pub open spec fn precedes(lengths: Seq<nat>, j: int, len: nat, i: int) -> bool {
    0 < lengths[j] && (lengths[j] < len || (lengths[j] == len && j < i))
}

pub open spec fn shares_before(lengths: Seq<nat>, len: nat, i: int) -> Seq<nat> {
    Seq::new(
        lengths.len(),
        |j: int|
            if precedes(lengths, j, len, i) {
                share(lengths[j], 15, 15)
            } else {
                0nat
            },
    )
}

/// Where the code space of position `(len, i)` starts, in units of `2^-15`.
pub open spec fn code_start(lengths: Seq<nat>, len: nat, i: int) -> nat {
    sum(shares_before(lengths, len, i))
}

/// The canonical code of symbol `i`, as a number of `lengths[i]` bits.
pub open spec fn code_value(lengths: Seq<nat>, i: int) -> nat {
    code_start(lengths, lengths[i], i) / pow2((15 - lengths[i]) as nat)
}

/// The canonical code of symbol `i`, most significant bit first.
pub open spec fn code_bits(lengths: Seq<nat>, i: int) -> Seq<bool> {
    Seq::new(lengths[i], |k: int| bit_of(code_value(lengths, i) as int, lengths[i] - 1 - k))
}

/// Lengths of a complete prefix code: they fill the code space.
pub open spec fn is_complete(lengths: Seq<nat>) -> bool {
    &&& forall|i: int| 0 <= i < lengths.len() ==> #[trigger] lengths[i] <= 15
    &&& kraft(lengths, 15, 15) == pow2(15)
}

proof fn lemma_start_next(lengths: Seq<nat>, len: nat, i: int)
    requires
        0 <= i < lengths.len(),
        0 < len,
    ensures
        code_start(lengths, len, i + 1) == code_start(lengths, len, i) + if lengths[i] == len {
            share(len, 15, 15)
        } else {
            0
        },
{
    let a = shares_before(lengths, len, i);
    let b = shares_before(lengths, len, i + 1);
    let x = if lengths[i] == len {
        share(len, 15, 15)
    } else {
        a[i]
    };
    assert(b =~= a.update(i, x));
    lemma_sum_update(a, i, x);
}

proof fn lemma_start_wrap(lengths: Seq<nat>, len: nat)
    ensures
        code_start(lengths, len, lengths.len() as int) == code_start(lengths, len + 1, 0),
{
    assert(shares_before(lengths, len, lengths.len() as int) =~= shares_before(
        lengths,
        len + 1,
        0,
    ));
}

/// Code spaces follow one another in canonical order and end within the whole space.
proof fn lemma_start_order(lengths: Seq<nat>, i: int, len: nat, j: int)
    requires
        0 <= i < lengths.len(),
        precedes(lengths, i, len, j),
    ensures
        code_start(lengths, lengths[i], i) + share(lengths[i], 15, 15) <= code_start(
            lengths,
            len,
            j,
        ),
{
    let a = shares_before(lengths, lengths[i], i);
    let b = shares_before(lengths, len, j);
    let x = share(lengths[i], 15, 15);
    lemma_sum_update(a, i, x);
    lemma_sum_le(a.update(i, x), b);
}

proof fn lemma_start_bound(lengths: Seq<nat>, len: nat, j: int)
    ensures
        code_start(lengths, len, j) <= kraft(lengths, 15, 15),
{
    lemma_sum_le(shares_before(lengths, len, j), shares(lengths, 15, 15));
}

/// The start of a symbol's code space is a multiple of its share.
proof fn lemma_start_aligned(lengths: Seq<nat>, len: nat, j: int)
    requires
        0 < len <= 15,
    ensures
        code_start(lengths, len, j) == pow2((15 - len) as nat) * (code_start(lengths, len, j)
            / pow2((15 - len) as nat)),
{
    let a = shares_before(lengths, len, j);
    let k = pow2((15 - len) as nat);
    let q = Seq::new(
        a.len(),
        |i: int|
            if precedes(lengths, i, len, j) {
                pow2((len - lengths[i]) as nat)
            } else {
                0nat
            },
    );
    assert forall|i: int| 0 <= i < a.len() implies a[i] == k * q[i] by {
        if precedes(lengths, i, len, j) {
            lemma_pow2_adds((15 - len) as nat, (len - lengths[i]) as nat);
        } else {
            assert(k * 0 == 0) by (nonlinear_arith);
        }
    }
    lemma_sum_scale(q, a, k);
    lemma_pow2_pos((15 - len) as nat);
    let x = sum(q) as int;
    lemma_div_multiples_vanish(x, k as int);
}

/// Value of a bit string read most significant bit first.
pub open spec fn msb_value(s: Seq<bool>) -> nat
    decreases s.len(),
{
    if s.len() == 0 {
        0
    } else {
        2 * msb_value(s.drop_last()) + if s.last() {
            1nat
        } else {
            0nat
        }
    }
}

proof fn lemma_msb_bound(s: Seq<bool>)
    ensures
        msb_value(s) < pow2(s.len()),
    decreases s.len(),
{
    if s.len() == 0 {
        lemma_pow2_pos(0);
    } else {
        lemma_msb_bound(s.drop_last());
        lemma_pow2_unfold(s.len());
    }
}

proof fn lemma_msb_concat(a: Seq<bool>, b: Seq<bool>)
    ensures
        msb_value(a + b) == msb_value(a) * pow2(b.len()) + msb_value(b),
    decreases b.len(),
{
    if b.len() == 0 {
        assert(a + b =~= a);
        vstd::arithmetic::power2::lemma2_to64();
        let x = msb_value(a);
        let p = pow2(b.len());
        assert(x * p == x) by (nonlinear_arith)
            requires
                p == 1,
        ;
    } else {
        lemma_msb_concat(a, b.drop_last());
        assert((a + b).drop_last() =~= a + b.drop_last());
        lemma_pow2_unfold(b.len());
        let x = msb_value(a);
        let p = pow2((b.len() - 1) as nat);
        assert(x * (2 * p) == 2 * (x * p)) by (nonlinear_arith);
    }
}

/// Reading the bits of a number from the most significant one gives the number.
proof fn lemma_msb_of_bits(v: nat, n: nat)
    requires
        v < pow2(n),
    ensures
        msb_value(Seq::new(n, |k: int| bit_of(v as int, n - 1 - k))) == v,
    decreases n,
{
    let s = Seq::new(n, |k: int| bit_of(v as int, n - 1 - k));
    vstd::arithmetic::power2::lemma2_to64();
    if n > 0 {
        let h = v / 2;
        lemma_pow2_unfold(n);
        lemma_msb_of_bits(h, (n - 1) as nat);
        let t = Seq::new((n - 1) as nat, |k: int| bit_of(h as int, n - 2 - k));
        assert(s.drop_last() =~= t) by {
            assert forall|k: int| 0 <= k < n - 1 implies s[k] == t[k] by {
                lemma_div_pow2_twice(v as int, 1, (n - 2 - k) as nat);
            }
        }
        assert(s.last() == (v % 2 == 1));
    }
}

/// What follows position `s` on the wire starts with the code of symbol `i`.
pub open spec fn starts_with_code(lengths: Seq<nat>, s: Seq<bool>, i: int) -> bool {
    &&& 0 <= i < lengths.len()
    &&& 0 < lengths[i] <= s.len()
    &&& s.take(lengths[i] as int) == code_bits(lengths, i)
}

/// The code word of symbol `i` as a number stays below `2^lengths[i]`.
proof fn lemma_code_value_bound(lengths: Seq<nat>, i: int)
    requires
        is_complete(lengths),
        0 <= i < lengths.len(),
        lengths[i] > 0,
    ensures
        code_value(lengths, i) < pow2(lengths[i]),
        code_start(lengths, lengths[i], i) == pow2((15 - lengths[i]) as nat) * code_value(
            lengths,
            i,
        ),
{
    let len = lengths[i];
    assert(len <= 15);
    lemma_start_aligned(lengths, len, i);
    lemma_start_order(lengths, i, 16, 0);
    lemma_start_bound(lengths, 16, 0);
    let k = pow2((15 - len) as nat);
    lemma_pow2_pos((15 - len) as nat);
    lemma_pow2_adds((15 - len) as nat, len);
    let v = code_value(lengths, i);
    let p = pow2(len);
    assert(v < p) by (nonlinear_arith)
        requires
            k * v + k <= k * p,
            k > 0,
    ;
}

/// The first 15 bits of a string that starts with a code lie in its code space.
proof fn lemma_code_window(lengths: Seq<nat>, s: Seq<bool>, i: int)
    requires
        is_complete(lengths),
        starts_with_code(lengths, s, i),
        s.len() >= 15,
    ensures
        code_start(lengths, lengths[i], i) <= msb_value(s.take(15)) < code_start(
            lengths,
            lengths[i],
            i,
        ) + share(lengths[i], 15, 15),
{
    let len = lengths[i];
    assert(len <= 15);
    lemma_code_value_bound(lengths, i);
    lemma_msb_of_bits(code_value(lengths, i), len);
    let a = s.take(len as int);
    let b = s.subrange(len as int, 15);
    assert(s.take(15) =~= a + b);
    lemma_msb_concat(a, b);
    lemma_msb_bound(b);
    let k = pow2((15 - len) as nat);
    let v = code_value(lengths, i);
    assert(v * k == k * v) by (nonlinear_arith);
}

/// No two symbols of a complete code share a start of a bit string.
pub proof fn lemma_prefix_free(lengths: Seq<nat>, s: Seq<bool>, i: int, j: int)
    requires
        is_complete(lengths),
        starts_with_code(lengths, s, i),
        starts_with_code(lengths, s, j),
    ensures
        i == j,
{
    let t = s + Seq::new(15, |k: int| false);
    assert(t.take(lengths[i] as int) =~= s.take(lengths[i] as int));
    assert(t.take(lengths[j] as int) =~= s.take(lengths[j] as int));
    lemma_code_window(lengths, t, i);
    lemma_code_window(lengths, t, j);
    if precedes(lengths, i, lengths[j], j) {
        lemma_start_order(lengths, i, lengths[j], j);
    } else if i != j {
        lemma_start_order(lengths, j, lengths[i], i);
    }
}

proof fn lemma_bit_of_double(r: int, b: int, j: nat)
    requires
        r >= 0,
        0 <= b < 2,
    ensures
        bit_of(2 * r + b, 0) == (b == 1),
        bit_of(2 * r + b, j as int + 1) == bit_of(r, j as int),
{
    vstd::arithmetic::power2::lemma2_to64();
    let v = 2 * r + b;
    let p = pow2(0) as int;
    assert(v / p == v) by (nonlinear_arith)
        requires
            p == 1,
    ;
    lemma_div_pow2_twice(v, 1, j);
}

/// The `len` low bits of `code` in reverse order.
fn reverse_code(code: u32, len: u8) -> (r: u16)
    requires
        len <= 15,
        code < pow2(len as nat),
    ensures
        r < pow2(len as nat),
        forall|j: int| 0 <= j < len ==> #[trigger] bit_of(r as int, j) == bit_of(code as int, len - 1 - j),
{
    let mut r: u16 = 0;
    let mut c: u32 = code;
    let mut k: u8 = 0;
    proof {
        vstd::arithmetic::power2::lemma2_to64();
    }
    while k < len
        invariant
            k <= len <= 15,
            c as int == code as int / (pow2(k as nat) as int),
            r < pow2(k as nat),
            forall|j: int|
                0 <= j < k ==> #[trigger] bit_of(r as int, j) == bit_of(code as int, k - 1 - j),
        decreases len - k,
    {
        let ghost r0 = r as int;
        let b: u16 = (c % 2) as u16;
        proof {
            vstd::arithmetic::power2::lemma2_to64();
            lemma_pow2_mono(k as nat, 14);
            lemma_pow2_unfold((k + 1) as nat);
            lemma_div_pow2_twice(code as int, k as nat, 1);
        }
        r = 2 * r + b;
        c = c / 2;
        k = k + 1;
        assert forall|j: int| 0 <= j < k implies #[trigger] bit_of(r as int, j) == bit_of(
            code as int,
            k - 1 - j,
        ) by {
            if j == 0 {
                lemma_bit_of_double(r0, b as int, 0);
            } else {
                lemma_bit_of_double(r0, b as int, (j - 1) as nat);
                assert(bit_of(r0, j - 1) == bit_of(code as int, k - 2 - (j - 1)));
            }
        }
    }
    r
}

/// The code words of all symbols, in the order in which their bits are written.
pub open spec fn are_codes(lengths: Seq<nat>, codes: Seq<u16>) -> bool {
    &&& codes.len() == lengths.len()
    &&& forall|i: int|
        0 <= i < codes.len() ==> {
            &&& (#[trigger] codes[i]) < pow2(lengths[i])
            &&& lengths[i] > 0 ==> lsb_bits(codes[i] as int, lengths[i]) == code_bits(lengths, i)
        }
}

/// Canonical codes for the lengths.
fn assign_codes(lengths: &Vec<u8>, limit: u8) -> (codes: Vec<u16>)
    requires
        limit <= 15,
        is_complete(lens_of(lengths@)),
        forall|i: int| 0 <= i < lengths@.len() ==> #[trigger] lengths@[i] <= limit,
    ensures
        are_codes(lens_of(lengths@), codes@),
{
    let ghost ls = lens_of(lengths@);
    let mut codes: Vec<u16> = Vec::new();
    let mut z: usize = 0;
    while z < lengths.len()
        invariant
            z <= lengths@.len(),
            codes@.len() == z,
            forall|k: int| 0 <= k < z ==> #[trigger] codes@[k] == 0,
        decreases lengths@.len() - z,
    {
        codes.push(0);
        z = z + 1;
    }
    let mut code: u32 = 0;
    let mut len: u8 = 1;
    proof {
        vstd::arithmetic::power2::lemma2_to64();
        lemma_sum_zero(shares_before(ls, 1, 0));
        assert(code_start(ls, 1, 0) == 0);
        assert forall|i: int| 0 <= i < codes@.len() implies (#[trigger] codes@[i]) < pow2(ls[i]) by {
            lemma_pow2_pos(ls[i]);
        }
    }
    while len <= limit
        invariant
            limit <= 15,
            1 <= len <= limit + 1,
            ls == lens_of(lengths@),
            is_complete(ls),
            codes@.len() == lengths@.len(),
            len <= 15 ==> code * pow2((15 - len) as nat) == code_start(ls, len as nat, 0),
            forall|i: int|
                0 <= i < codes@.len() ==> {
                    &&& (#[trigger] codes@[i]) < pow2(ls[i])
                    &&& 0 < ls[i] < len ==> lsb_bits(codes@[i] as int, ls[i]) == code_bits(ls, i)
                },
        decreases limit + 1 - len,
    {
        let ghost k = pow2((15 - len) as nat);
        let mut i: usize = 0;
        while i < lengths.len()
            invariant
                1 <= len <= limit <= 15,
                i <= lengths@.len(),
                ls == lens_of(lengths@),
                is_complete(ls),
                k == pow2((15 - len) as nat),
                codes@.len() == lengths@.len(),
                code * k == code_start(ls, len as nat, i as int),
                forall|j: int|
                    0 <= j < codes@.len() ==> {
                        &&& (#[trigger] codes@[j]) < pow2(ls[j])
                        &&& 0 < ls[j] < len || (ls[j] == len && j < i) ==> lsb_bits(
                            codes@[j] as int,
                            ls[j],
                        ) == code_bits(ls, j)
                    },
            decreases lengths@.len() - i,
        {
            proof {
                lemma_start_next(ls, len as nat, i as int);
            }
            if lengths[i] == len {
                proof {
                    lemma_code_value_bound(ls, i as int);
                    lemma_pow2_pos((15 - len) as nat);
                    let v = code_value(ls, i as int);
                    let c = code as nat;
                    assert(c == v) by (nonlinear_arith)
                        requires
                            c * k == k * v,
                            k > 0,
                    ;
                    vstd::arithmetic::power2::lemma2_to64();
                    lemma_pow2_mono(len as nat, 15);
                    assert((c + 1) * k == c * k + k) by (nonlinear_arith);
                }
                let r: u16 = reverse_code(code, len);
                codes.set(i, r);
                assert(lsb_bits(r as int, ls[i as int]) =~= code_bits(ls, i as int));
                code = code + 1;
            }
            i = i + 1;
        }
        proof {
            lemma_start_wrap(ls, len as nat);
            lemma_start_bound(ls, (len + 1) as nat, 0);
            vstd::arithmetic::power2::lemma2_to64();
            lemma_pow2_pos((15 - len) as nat);
            let c = code as nat;
            assert(c <= 0x8000) by (nonlinear_arith)
                requires
                    c * k <= 0x8000,
                    k >= 1,
            ;
            if len < 15 {
                lemma_pow2_unfold((15 - len) as nat);
                let p = pow2((14 - len) as nat);
                assert(c * (2 * p) == (2 * c) * p) by (nonlinear_arith);
            }
        }
        code = code * 2;
        len = len + 1;
    }
    proof {
        assert forall|i: int| 0 <= i < codes@.len() implies {
            &&& (#[trigger] codes@[i]) < pow2(ls[i])
            &&& ls[i] > 0 ==> lsb_bits(codes@[i] as int, ls[i]) == code_bits(ls, i)
        } by {
            assert(lengths@[i] <= limit);
        }
    }
    codes
}

/// Number of symbols in use.
pub(crate) fn count_used(frequencies: &[u32]) -> (r: usize)
    ensures
        r == count_nonzero(frequencies@),
{
    let mut r: usize = 0;
    let mut i: usize = 0;
    while i < frequencies.len()
        invariant
            i <= frequencies@.len(),
            r <= i,
            r == count_nonzero(frequencies@.take(i as int)),
        decreases frequencies@.len() - i,
    {
        assert(frequencies@.take(i + 1).drop_last() =~= frequencies@.take(i as int));
        if frequencies[i] > 0 {
            r = r + 1;
        }
        i = i + 1;
    }
    assert(frequencies@.take(i as int) =~= frequencies@);
    r
}

fn fill_zero_u8(v: &mut Vec<u8>)
    ensures
        final(v)@.len() == old(v)@.len(),
        forall|i: int| 0 <= i < final(v)@.len() ==> final(v)@[i] == 0,
{
    let mut i: usize = 0;
    while i < v.len()
        invariant
            i <= v@.len(),
            v@.len() == old(v)@.len(),
            forall|k: int| 0 <= k < i ==> v@[k] == 0,
        decreases v@.len() - i,
    {
        v.set(i, 0);
        i = i + 1;
    }
}

fn fill_zero_u16(v: &mut Vec<u16>)
    ensures
        final(v)@.len() == old(v)@.len(),
        forall|i: int| 0 <= i < final(v)@.len() ==> final(v)@[i] == 0,
{
    let mut i: usize = 0;
    while i < v.len()
        invariant
            i <= v@.len(),
            v@.len() == old(v)@.len(),
            forall|k: int| 0 <= k < i ==> v@[k] == 0,
        decreases v@.len() - i,
    {
        v.set(i, 0);
        i = i + 1;
    }
}

/// The lengths are those of a Huffman tree of the frequencies, cut to the limit.
pub open spec fn is_huffman_code(frequencies: Seq<u32>, limit: nat, lengths: Seq<nat>) -> bool {
    exists|depths: Seq<nat>|
        #[trigger] is_huffman_depths(frequencies, depths) && is_limited(
            frequencies,
            depths,
            limit,
            lengths,
        )
}

/// Builds a Huffman code with code words of at most `length_limit` bits.
///
/// Returns whether there are two symbols to tell apart. If there are not, all lengths
/// and codes are set to 0.
pub fn build_huffman_tree(
    frequencies: &[u32],
    lengths: &mut Vec<u8>,
    codes: &mut Vec<u16>,
    length_limit: u8,
) -> (r: bool)
    requires
        old(lengths)@.len() == frequencies@.len(),
        old(codes)@.len() == frequencies@.len(),
        1 <= length_limit <= 15,
        frequencies@.len() <= 0x8000,
        count_nonzero(frequencies@) <= pow2(length_limit as nat),
        sum(freq_nats(frequencies@)) <= u32::MAX,
    ensures
        r == (count_nonzero(frequencies@) >= 2),
        final(lengths)@.len() == frequencies@.len(),
        final(codes)@.len() == frequencies@.len(),
        !r ==> forall|i: int| 0 <= i < frequencies@.len() ==> final(lengths)@[i] == 0,
        !r ==> forall|i: int| 0 <= i < frequencies@.len() ==> final(codes)@[i] == 0,
        r ==> is_huffman_code(
            frequencies@,
            length_limit as nat,
            lens_of(final(lengths)@),
        ),
        r ==> is_complete(lens_of(final(lengths)@)),
        r ==> forall|i: int|
            0 <= i < frequencies@.len() ==> (#[trigger] final(lengths)@[i] == 0
                <==> frequencies@[i] == 0),
        forall|i: int|
            0 <= i < frequencies@.len() ==> #[trigger] final(lengths)@[i] <= length_limit,
        r ==> forall|i: int, j: int|
            #![trigger final(lengths)@[i], final(lengths)@[j]]
            0 <= i < frequencies@.len() && 0 <= j < frequencies@.len() && 0 < frequencies@[i]
                < frequencies@[j] ==> final(lengths)@[i] >= final(lengths)@[j],
        r ==> are_codes(lens_of(final(lengths)@), final(codes)@),
{
    let used: usize = count_used(frequencies);
    if used <= 1 {
        fill_zero_u8(lengths);
        fill_zero_u16(codes);
        return false;
    }
    proof {
        vstd::arithmetic::power2::lemma2_to64();
        lemma_pow2_mono(length_limit as nat, 15);
    }
    let merges = merge_lightest(frequencies);
    let depths = symbol_depths(frequencies, &merges);
    proof {
        assert forall|i: int| 0 <= i < depths@.len() implies (#[trigger] nats_of(depths@)[i] == 0
            <==> frequencies@[i] == 0) by {}
    }
    *lengths = limit_lengths(frequencies, &depths, length_limit, Ghost(merges@.len()));
    proof {
        let ls = lens_of(lengths@);
        let lim = length_limit as nat;
        assert forall|i: int| 0 <= i < ls.len() implies #[trigger] ls[i] <= 15 by {
            assert(lengths@[i] <= length_limit);
        }
        lemma_kraft_scale(ls, lim, lim, 15);
        lemma_pow2_adds((15 - lim) as nat, lim);
        assert(shares(ls, 15, lim) =~= shares(ls, 15, 15)) by {
            assert forall|i: int| 0 <= i < ls.len() implies shares(ls, 15, lim)[i] == shares(
                ls,
                15,
                15,
            )[i] by {
                assert(lengths@[i] <= length_limit);
            }
        }
    }
    *codes = assign_codes(lengths, length_limit);
    proof {
        let ls = lens_of(lengths@);
        assert(is_huffman_code(frequencies@, length_limit as nat, ls));
        assert forall|i: int, j: int|
            #![trigger lengths@[i], lengths@[j]]
            0 <= i < frequencies@.len() && 0 <= j < frequencies@.len() && 0 < frequencies@[i]
                < frequencies@[j] implies lengths@[i] >= lengths@[j] by {
            lemma_rarer_longer(
                frequencies@,
                length_limit as nat,
                ls,
                i,
                j,
            );
        }
    }
    true
}

} // verus!
