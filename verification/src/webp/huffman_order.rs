//! Rarer symbols lie no higher in a Huffman tree.
use crate::webp::huffman::{
    is_depth_map, is_huffman_code, is_huffman_depths, is_huffman_forest, is_huffman_tree,
    is_limited, is_root, merges_lightest,
};
use vstd::prelude::*;

verus! {

/// Merge `s` joins node `c` to another.
pub open spec fn joins(merges: Seq<(usize, usize)>, s: int, c: int) -> bool {
    &&& 0 <= s < merges.len()
    &&& merges[s].0 == c || merges[s].1 == c
}

/// The node that merge `s` joins to node `c`.
pub open spec fn partner(merges: Seq<(usize, usize)>, s: int, c: int) -> int {
    if merges[s].0 == c {
        merges[s].1 as int
    } else {
        merges[s].0 as int
    }
}

/// The first node of a merge is no heavier than the second.
proof fn lemma_pair(
    frequencies: Seq<u32>,
    merges: Seq<(usize, usize)>,
    weights: Seq<nat>,
    t: int,
)
    requires
        is_huffman_forest(frequencies, merges, weights),
        0 <= t < merges.len(),
    ensures
        merges[t].0 != merges[t].1,
        is_root(frequencies, merges, t, merges[t].0 as int),
        is_root(frequencies, merges, t, merges[t].1 as int),
        weights[merges[t].0 as int] <= weights[merges[t].1 as int],
        weights[frequencies.len() + t] == weights[merges[t].0 as int] + weights[merges[t].1 as int],
{
    assert(merges_lightest(frequencies, merges, weights, t));
    assert(is_root(frequencies, merges, t, merges[t].1 as int));
}

/// A root that a merge passes over is no lighter than what it joins.
proof fn lemma_passed_over(
    frequencies: Seq<u32>,
    merges: Seq<(usize, usize)>,
    weights: Seq<nat>,
    s: int,
    c: int,
)
    requires
        is_huffman_forest(frequencies, merges, weights),
        0 <= s < merges.len(),
        is_root(frequencies, merges, s, c),
        !joins(merges, s, c),
    ensures
        weights[c] >= weights[merges[s].0 as int],
        weights[c] >= weights[merges[s].1 as int],
{
    assert(merges_lightest(frequencies, merges, weights, s));
}

/// Later merges make no lighter nodes.
proof fn lemma_made_heavier(
    frequencies: Seq<u32>,
    merges: Seq<(usize, usize)>,
    weights: Seq<nat>,
    s: int,
    t: int,
)
    requires
        is_huffman_forest(frequencies, merges, weights),
        0 <= s <= t < merges.len(),
    ensures
        weights[frequencies.len() + s] <= weights[frequencies.len() + t],
    decreases t - s,
{
    if s < t {
        let n = frequencies.len() as int;
        let q = t - 1;
        lemma_made_heavier(frequencies, merges, weights, s, q);
        lemma_pair(frequencies, merges, weights, q);
        lemma_pair(frequencies, merges, weights, t);
        lemma_next_no_lighter(frequencies, merges, weights, t, merges[t].0 as int);
        lemma_next_no_lighter(frequencies, merges, weights, t, merges[t].1 as int);
    }
}

/// What is a root behind a merge is the node made, or a root that it passed over.
proof fn lemma_next_no_lighter(
    frequencies: Seq<u32>,
    merges: Seq<(usize, usize)>,
    weights: Seq<nat>,
    t: int,
    c: int,
)
    requires
        is_huffman_forest(frequencies, merges, weights),
        1 <= t < merges.len(),
        is_root(frequencies, merges, t, c),
    ensures
        weights[c] >= weights[merges[t - 1].1 as int],
{
    let n = frequencies.len() as int;
    let q = t - 1;
    lemma_pair(frequencies, merges, weights, q);
    if c != n + q {
        assert(merges[q].0 != c && merges[q].1 != c);
        assert(is_root(frequencies, merges, q, c));
        lemma_passed_over(frequencies, merges, weights, q, c);
    }
}

/// A root is no lighter than what was joined before it.
proof fn lemma_root_heavier(
    frequencies: Seq<u32>,
    merges: Seq<(usize, usize)>,
    weights: Seq<nat>,
    s: int,
    t: int,
    c: int,
)
    requires
        is_huffman_forest(frequencies, merges, weights),
        0 <= s < t < merges.len(),
        is_root(frequencies, merges, t, c),
    ensures
        weights[c] >= weights[merges[s].0 as int],
        weights[c] >= weights[merges[s].1 as int],
{
    let n = frequencies.len() as int;
    assert(merges[s].0 != c && merges[s].1 != c);
    lemma_pair(frequencies, merges, weights, s);
    if c >= n + s {
        lemma_made_heavier(frequencies, merges, weights, s, c - n);
    } else {
        assert forall|k: int| 0 <= k < s implies (#[trigger] merges[k]).0 != c && merges[k].1
            != c by {}
        assert(is_root(frequencies, merges, s, c));
        lemma_passed_over(frequencies, merges, weights, s, c);
    }
}

/// A node other than the last is joined by some merge.
proof fn lemma_joined(
    frequencies: Seq<u32>,
    merges: Seq<(usize, usize)>,
    weights: Seq<nat>,
    c: int,
) -> (s: int)
    requires
        is_huffman_tree(frequencies, merges, weights),
        (0 <= c < frequencies.len() && frequencies[c] > 0) || frequencies.len() <= c
            < frequencies.len() + merges.len() - 1,
    ensures
        joins(merges, s, c),
        is_root(frequencies, merges, s, c),
{
    let len = merges.len() as int;
    assert(!is_root(frequencies, merges, len, c));
    let s = choose|s: int| 0 <= s < len && ((#[trigger] merges[s]).0 == c || merges[s].1 == c);
    lemma_pair(frequencies, merges, weights, s);
    s
}

/// Of two joined nodes the lighter lies no higher.
proof fn lemma_lighter_deeper(
    frequencies: Seq<u32>,
    merges: Seq<(usize, usize)>,
    weights: Seq<nat>,
    depths: Seq<nat>,
    u: int,
    s: int,
    v: int,
    t: int,
)
    requires
        is_huffman_tree(frequencies, merges, weights),
        is_depth_map(frequencies.len() as int, merges, depths),
        joins(merges, s, u),
        joins(merges, t, v),
        weights[u] < weights[v],
    ensures
        depths[u] >= depths[v],
    decreases merges.len() - s,
{
    let n = frequencies.len() as int;
    let len = merges.len() as int;
    lemma_pair(frequencies, merges, weights, s);
    lemma_pair(frequencies, merges, weights, t);
    assert(depths[u] == depths[n + s] + 1) by {
        let pair = merges[s];
    }
    assert(depths[v] == depths[n + t] + 1) by {
        let pair = merges[t];
    }
    if s > t {
        lemma_root_heavier(frequencies, merges, weights, t, s, u);
        assert(false);
    }
    if s < t {
        let u2 = partner(merges, s, u);
        let v2 = partner(merges, t, v);
        lemma_root_heavier(frequencies, merges, weights, s, t, v2);
        assert(weights[u2] <= weights[v2]);
        assert(weights[n + s] == weights[u] + weights[u2]);
        assert(weights[n + t] == weights[v] + weights[v2]);
        if t < len - 1 {
            let s2 = lemma_joined(frequencies, merges, weights, n + s);
            let t2 = lemma_joined(frequencies, merges, weights, n + t);
            lemma_lighter_deeper(
                frequencies,
                merges,
                weights,
                depths,
                n + s,
                s2,
                n + t,
                t2,
            );
        }
    }
}

/// In a Huffman tree a rarer symbol lies no higher than a more frequent one.
pub proof fn lemma_rarer_deeper(frequencies: Seq<u32>, depths: Seq<nat>, i: int, j: int)
    requires
        is_huffman_depths(frequencies, depths),
        0 <= i < frequencies.len(),
        0 <= j < frequencies.len(),
        0 < frequencies[i] < frequencies[j],
    ensures
        depths[i] >= depths[j],
{
    let n = frequencies.len() as int;
    let (merges, weights, all) = choose|
        merges: Seq<(usize, usize)>,
        weights: Seq<nat>,
        all: Seq<nat>,
    |
        {
            &&& #[trigger] is_huffman_tree(frequencies, merges, weights)
            &&& #[trigger] is_depth_map(n, merges, all)
            &&& forall|k: int| 0 <= k < n && frequencies[k] > 0 ==> depths[k] == all[k]
        };
    let s = lemma_joined(frequencies, merges, weights, i);
    let t = lemma_joined(frequencies, merges, weights, j);
    assert(weights[i] == frequencies[i] && weights[j] == frequencies[j]);
    lemma_lighter_deeper(frequencies, merges, weights, all, i, s, j, t);
}

/// A rarer symbol never gets a shorter code, whether lengths were cut or not.
pub proof fn lemma_rarer_longer(
    frequencies: Seq<u32>,
    limit: nat,
    lengths: Seq<nat>,
    i: int,
    j: int,
)
    requires
        is_huffman_code(frequencies, limit, lengths),
        0 <= i < frequencies.len(),
        0 <= j < frequencies.len(),
        0 < frequencies[i] < frequencies[j],
    ensures
        lengths[i] >= lengths[j],
{
    let depths = choose|depths: Seq<nat>|
        #[trigger] is_huffman_depths(frequencies, depths) && is_limited(
            frequencies,
            depths,
            limit,
            lengths,
        );
    lemma_rarer_deeper(frequencies, depths, i, j);
}

} // verus!
