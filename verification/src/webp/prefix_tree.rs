//! Prefix trees on the wire: how they are written and how they are read back.
use crate::math::{lemma_occurrences_push, lemma_sum_update, occurrences, sum};
use crate::webp::bit_writer::{lemma_read_field, lsb_bits, read_field, BitWriter};
use crate::webp::huffman::{
    are_codes, build_huffman_tree, code_bits, count_nonzero, freq_nats, is_complete,
    is_huffman_code, lemma_prefix_free, lens_of, starts_with_code,
};
use vstd::arithmetic::power2::{lemma2_to64, pow2};
use vstd::prelude::*;

verus! {

/// A prefix code: one symbol that takes no bits, or code lengths for all symbols.
pub enum PrefixTree {
    Single(nat),
    Coded(Seq<nat>),
}

pub open spec fn is_valid_tree(tree: PrefixTree) -> bool {
    match tree {
        PrefixTree::Single(_) => true,
        PrefixTree::Coded(lengths) => is_complete(lengths),
    }
}

pub open spec fn has_symbol(tree: PrefixTree, symbol: int) -> bool {
    match tree {
        PrefixTree::Single(only) => symbol == only,
        PrefixTree::Coded(lengths) => 0 <= symbol < lengths.len() && lengths[symbol] > 0,
    }
}

/// The bits that stand for a symbol.
pub open spec fn symbol_bits(tree: PrefixTree, symbol: int) -> Seq<bool> {
    match tree {
        PrefixTree::Single(_) => Seq::empty(),
        PrefixTree::Coded(lengths) => code_bits(lengths, symbol),
    }
}

/// Reads one symbol: the symbol and what follows it.
pub open spec fn read_symbol(tree: PrefixTree, s: Seq<bool>) -> Option<(int, Seq<bool>)> {
    match tree {
        PrefixTree::Single(only) => Some((only as int, s)),
        PrefixTree::Coded(lengths) => if exists|i: int| starts_with_code(lengths, s, i) {
            let i = choose|i: int| starts_with_code(lengths, s, i);
            Some((i, s.skip(lengths[i] as int)))
        } else {
            None
        },
    }
}

/// A symbol that was written is the symbol that is read.
pub proof fn lemma_read_symbol(tree: PrefixTree, symbol: int, rest: Seq<bool>)
    requires
        is_valid_tree(tree),
        has_symbol(tree, symbol),
    ensures
        read_symbol(tree, symbol_bits(tree, symbol) + rest) == Some((symbol, rest)),
{
    match tree {
        PrefixTree::Single(only) => {
            assert(symbol_bits(tree, symbol) + rest =~= rest);
        },
        PrefixTree::Coded(lengths) => {
            let code = code_bits(lengths, symbol);
            let s = code + rest;
            assert(s.take(lengths[symbol] as int) =~= code);
            assert(s.skip(lengths[symbol] as int) =~= rest);
            assert(starts_with_code(lengths, s, symbol));
            let i = choose|i: int| starts_with_code(lengths, s, i);
            lemma_prefix_free(lengths, s, i, symbol);
        },
    }
}

/// The order in which the lengths of the code-length code are sent.
pub const CODE_LENGTH_ORDER: [usize; 19] = [
    17, 18, 0, 1, 2, 3, 4, 5, 16, 6, 7, 8, 9, 10, 11, 12, 13, 14, 15,
];

/// The first symbol in use, counted from the front; the length if there is none.
pub open spec fn first_used(frequencies: Seq<u32>) -> nat
    decreases frequencies.len(),
{
    if frequencies.len() == 0 {
        0
    } else if frequencies[0] > 0 {
        0
    } else {
        1 + first_used(frequencies.skip(1))
    }
}

/// The tree of a list of code lengths as a reader makes it.
pub open spec fn tree_of_lengths(lengths: Seq<nat>) -> Option<PrefixTree> {
    if exists|i: int| is_only_used(lengths, i) {
        Some(PrefixTree::Single((choose|i: int| is_only_used(lengths, i)) as nat))
    } else if is_complete(lengths) {
        Some(PrefixTree::Coded(lengths))
    } else {
        None
    }
}

/// `i` is the one symbol with a code.
pub open spec fn is_only_used(lengths: Seq<nat>, i: int) -> bool {
    &&& 0 <= i < lengths.len()
    &&& lengths[i] > 0
    &&& forall|j: int| 0 <= j < lengths.len() && j != i ==> #[trigger] lengths[j] == 0
}

/// The field of the code-length code that is sent for code length `i`.
pub open spec fn sent_length(meta: PrefixTree, i: int) -> nat {
    match meta {
        PrefixTree::Single(only) => if i == only {
            1
        } else {
            0
        },
        PrefixTree::Coded(lengths) => lengths[i],
    }
}

/// The fields of the code-length code from position `k` of the order on.
pub open spec fn meta_bits(meta: PrefixTree, k: int) -> Seq<bool>
    decreases 19 - k,
{
    if 0 <= k < 19 {
        lsb_bits(sent_length(meta, CODE_LENGTH_ORDER[k] as int) as int, 3) + meta_bits(meta, k + 1)
    } else {
        Seq::empty()
    }
}

/// The code lengths of the symbols from `k` on.
pub open spec fn lengths_bits(meta: PrefixTree, lengths: Seq<nat>, k: int) -> Seq<bool>
    decreases lengths.len() - k,
{
    if 0 <= k < lengths.len() {
        symbol_bits(meta, lengths[k] as int) + lengths_bits(meta, lengths, k + 1)
    } else {
        Seq::empty()
    }
}

/// A tree of one symbol: the short form with one entry.
pub open spec fn single_bits(symbol: nat) -> Seq<bool> {
    if symbol <= 1 {
        lsb_bits(1, 2) + (lsb_bits(0, 1) + lsb_bits(symbol as int, 1))
    } else {
        lsb_bits(1, 2) + (lsb_bits(1, 1) + lsb_bits(symbol as int, 8))
    }
}

/// A tree of several symbols: the code-length code, then all code lengths.
pub open spec fn coded_bits(meta: PrefixTree, lengths: Seq<nat>) -> Seq<bool> {
    lsb_bits(0, 1) + (lsb_bits(15, 4) + (meta_bits(meta, 0) + (lsb_bits(0, 1) + lengths_bits(
        meta,
        lengths,
        0,
    ))))
}

pub open spec fn tree_bits(tree: PrefixTree, meta: PrefixTree) -> Seq<bool> {
    match tree {
        PrefixTree::Single(symbol) => single_bits(symbol),
        PrefixTree::Coded(lengths) => coded_bits(meta, lengths),
    }
}

/// Reads `n` three-bit lengths of the code-length code in their order.
pub open spec fn read_meta(s: Seq<bool>, k: int, n: int, acc: Seq<nat>) -> Option<
    (Seq<nat>, Seq<bool>),
>
    decreases n - k,
{
    if k >= n || k < 0 {
        Some((acc, s))
    } else {
        match read_field(s, 3) {
            None => None,
            Some((v, rest)) => read_meta(
                rest,
                k + 1,
                n,
                acc.update(CODE_LENGTH_ORDER[k] as int, v),
            ),
        }
    }
}

/// Reads the code lengths of `n` symbols. Run-length codes are not part of this profile.
pub open spec fn read_lengths(s: Seq<bool>, meta: PrefixTree, n: nat, acc: Seq<nat>) -> Option<
    (Seq<nat>, Seq<bool>),
>
    decreases n,
{
    if n == 0 {
        Some((acc, s))
    } else {
        match read_symbol(meta, s) {
            None => None,
            Some((l, rest)) => if l >= 16 {
                None
            } else {
                read_lengths(rest, meta, (n - 1) as nat, acc.push(l as nat))
            },
        }
    }
}

pub open spec fn read_single(s: Seq<bool>) -> Option<(PrefixTree, Seq<bool>)> {
    match read_field(s, 1) {
        None => None,
        Some((more, s1)) => if more != 0 {
            None
        } else {
            match read_field(s1, 1) {
                None => None,
                Some((wide, s2)) => match read_field(s2, if wide == 1 { 8 } else { 1 }) {
                    None => None,
                    Some((symbol, s3)) => Some((PrefixTree::Single(symbol), s3)),
                },
            }
        },
    }
}

pub open spec fn read_coded(s: Seq<bool>, alphabet: nat) -> Option<(PrefixTree, Seq<bool>)> {
    match read_field(s, 4) {
        None => None,
        Some((n, s1)) => match read_meta(s1, 0, n as int + 4, Seq::new(19, |i: int| 0nat)) {
            None => None,
            Some((ml, s2)) => match tree_of_lengths(ml) {
                None => None,
                Some(meta) => match read_field(s2, 1) {
                    None => None,
                    Some((limited, s3)) => if limited != 0 {
                        None
                    } else {
                        match read_lengths(s3, meta, alphabet, Seq::empty()) {
                            None => None,
                            Some((lengths, s4)) => match tree_of_lengths(lengths) {
                                None => None,
                                Some(tree) => Some((tree, s4)),
                            },
                        }
                    },
                },
            },
        },
    }
}

/// Reads a tree over an alphabet of the given size.
pub open spec fn read_tree(s: Seq<bool>, alphabet: nat) -> Option<(PrefixTree, Seq<bool>)> {
    match read_field(s, 1) {
        None => None,
        Some((simple, rest)) => if simple == 1 {
            read_single(rest)
        } else {
            read_coded(rest, alphabet)
        },
    }
}

/// Position of code length `i` in the order of sending.
spec fn order_position(i: int) -> int {
    if i == 17 {
        0
    } else if i == 18 {
        1
    } else if i <= 5 {
        i + 2
    } else if i == 16 {
        8
    } else {
        i + 3
    }
}

proof fn lemma_order_position(i: int)
    requires
        0 <= i < 19,
    ensures
        0 <= order_position(i) < 19,
        CODE_LENGTH_ORDER[order_position(i)] == i,
{
}

proof fn lemma_order_range(k: int)
    requires
        0 <= k < 19,
    ensures
        CODE_LENGTH_ORDER[k] < 19,
{
}

/// A code-length code as the writer makes it.
pub open spec fn is_meta(meta: PrefixTree) -> bool {
    match meta {
        PrefixTree::Single(only) => only < 16,
        PrefixTree::Coded(lengths) => {
            &&& lengths.len() == 19
            &&& is_complete(lengths)
            &&& forall|i: int| 0 <= i < 19 ==> #[trigger] lengths[i] < 8
            &&& exists|i: int, j: int|
                0 <= i < j < 19 && #[trigger] lengths[i] > 0 && #[trigger] lengths[j] > 0
        },
    }
}

spec fn sent_lengths(meta: PrefixTree) -> Seq<nat> {
    Seq::new(19, |i: int| sent_length(meta, i))
}

proof fn lemma_read_meta(meta: PrefixTree, k: int, acc: Seq<nat>, rest: Seq<bool>)
    requires
        is_meta(meta),
        0 <= k <= 19,
        acc.len() == 19,
        forall|i: int|
            0 <= i < 19 && order_position(i) < k ==> #[trigger] acc[i] == sent_length(meta, i),
    ensures
        read_meta(meta_bits(meta, k) + rest, k, 19, acc) == Some((sent_lengths(meta), rest)),
    decreases 19 - k,
{
    if k == 19 {
        assert(meta_bits(meta, k) + rest =~= rest);
        assert(acc =~= sent_lengths(meta)) by {
            assert forall|i: int| 0 <= i < 19 implies #[trigger] acc[i] == sent_lengths(meta)[i] by {
                lemma_order_position(i);
            }
        }
    } else {
        let o = CODE_LENGTH_ORDER[k] as int;
        lemma_order_range(k);
        let v = sent_length(meta, o);
        lemma2_to64();
        assert(v < 8);
        lemma_read_field(v, 3, meta_bits(meta, k + 1) + rest);
        assert(meta_bits(meta, k) + rest =~= lsb_bits(v as int, 3) + (meta_bits(meta, k + 1)
            + rest));
        let acc2 = acc.update(o, v);
        assert forall|i: int| 0 <= i < 19 && order_position(i) < k + 1 implies #[trigger] acc2[i]
            == sent_length(meta, i) by {
            lemma_order_position(i);
            if order_position(i) < k {
                assert(acc[i] == sent_length(meta, i));
            }
        }
        lemma_read_meta(meta, k + 1, acc2, rest);
    }
}

proof fn lemma_tree_of_sent(meta: PrefixTree)
    requires
        is_meta(meta),
    ensures
        tree_of_lengths(sent_lengths(meta)) == Some(meta),
{
    let ml = sent_lengths(meta);
    match meta {
        PrefixTree::Single(only) => {
            assert(is_only_used(ml, only as int));
            let i = choose|i: int| is_only_used(ml, i);
            assert(ml[only as int] > 0);
        },
        PrefixTree::Coded(lengths) => {
            assert(ml =~= lengths);
            let (i, j) = choose|i: int, j: int|
                0 <= i < j < 19 && #[trigger] lengths[i] > 0 && #[trigger] lengths[j] > 0;
            if exists|q: int| is_only_used(ml, q) {
                let q = choose|q: int| is_only_used(ml, q);
                assert(ml[i] > 0 && ml[j] > 0);
            }
        },
    }
}

proof fn lemma_read_lengths(
    meta: PrefixTree,
    lengths: Seq<nat>,
    k: int,
    rest: Seq<bool>,
)
    requires
        is_valid_tree(meta),
        0 <= k <= lengths.len(),
        forall|i: int|
            0 <= i < lengths.len() ==> has_symbol(meta, #[trigger] lengths[i] as int) && lengths[i]
                < 16,
    ensures
        read_lengths(
            lengths_bits(meta, lengths, k) + rest,
            meta,
            (lengths.len() - k) as nat,
            lengths.take(k),
        ) == Some((lengths, rest)),
    decreases lengths.len() - k,
{
    if k == lengths.len() {
        assert(lengths.take(k) =~= lengths);
        assert(lengths_bits(meta, lengths, k) + rest =~= rest);
    } else {
        let l = lengths[k];
        let tail = lengths_bits(meta, lengths, k + 1) + rest;
        assert(lengths_bits(meta, lengths, k) + rest =~= symbol_bits(meta, l as int) + tail);
        lemma_read_symbol(meta, l as int, tail);
        assert(lengths.take(k).push(l) =~= lengths.take(k + 1));
        lemma_read_lengths(meta, lengths, k + 1, rest);
    }
}

/// The tree and its code-length code fit together and can be sent.
pub open spec fn is_sendable(tree: PrefixTree, meta: PrefixTree) -> bool {
    match tree {
        PrefixTree::Single(symbol) => symbol < 256,
        PrefixTree::Coded(lengths) => {
            &&& is_complete(lengths)
            &&& has_two_symbols(lengths)
            &&& is_meta(meta)
            &&& covers_lengths(meta, lengths)
        },
    }
}

/// Two symbols have a code.
pub open spec fn has_two_symbols(lengths: Seq<nat>) -> bool {
    exists|i: int, j: int|
        0 <= i < j < lengths.len() && #[trigger] lengths[i] > 0 && #[trigger] lengths[j] > 0
}

/// Every length has a code in the tree that lengths are written with.
pub open spec fn covers_lengths(meta: PrefixTree, lengths: Seq<nat>) -> bool {
    forall|i: int| 0 <= i < lengths.len() ==> has_symbol(meta, #[trigger] lengths[i] as int)
}

/// A complete tree with two symbols, and what its lengths are written with.
proof fn lemma_sendable(lengths: Seq<nat>, meta: PrefixTree, i: int, j: int)
    requires
        is_complete(lengths),
        0 <= i < j < lengths.len(),
        lengths[i] > 0,
        lengths[j] > 0,
        is_meta(meta),
        forall|k: int| 0 <= k < lengths.len() ==> has_symbol(meta, #[trigger] lengths[k] as int),
    ensures
        is_sendable(PrefixTree::Coded(lengths), meta),
{
}

/// A tree that was written is the tree that is read.
pub proof fn lemma_read_tree(tree: PrefixTree, meta: PrefixTree, alphabet: nat, rest: Seq<bool>)
    requires
        is_sendable(tree, meta),
        tree matches PrefixTree::Coded(lengths) ==> lengths.len() == alphabet,
    ensures
        read_tree(tree_bits(tree, meta) + rest, alphabet) == Some((tree, rest)),
{
    lemma2_to64();
    match tree {
        PrefixTree::Single(symbol) => {
            let (wide, width) = if symbol <= 1 {
                (0nat, 1nat)
            } else {
                (1nat, 8nat)
            };
            let s3 = lsb_bits(symbol as int, width) + rest;
            let s2 = lsb_bits(wide as int, 1) + s3;
            let s1 = lsb_bits(0, 1) + s2;
            let s0 = lsb_bits(1, 1) + s1;
            lemma_read_field(symbol, width, rest);
            lemma_read_field(wide, 1, s3);
            lemma_read_field(0, 1, s2);
            lemma_read_field(1, 1, s1);
            assert(lsb_bits(1, 2) =~= lsb_bits(1, 1) + lsb_bits(0, 1)) by {
                assert(pow2(0) == 1 && pow2(1) == 2);
                assert(1int / 1 == 1 && 1int / 2 == 0 && 0int / 1 == 0);
            }
            assert(tree_bits(tree, meta) + rest =~= s0);
        },
        PrefixTree::Coded(lengths) => {
            let zeros = Seq::new(19, |i: int| 0nat);
            let s4 = lengths_bits(meta, lengths, 0) + rest;
            let s3 = lsb_bits(0, 1) + s4;
            let s2 = meta_bits(meta, 0) + s3;
            let s1 = lsb_bits(15, 4) + s2;
            let s0 = lsb_bits(0, 1) + s1;
            assert(tree_bits(tree, meta) + rest =~= s0);
            lemma_read_field(0, 1, s1);
            lemma_read_field(15, 4, s2);
            lemma_read_meta(meta, 0, zeros, s3);
            lemma_tree_of_sent(meta);
            lemma_read_field(0, 1, s4);
            assert(lengths.take(0) =~= Seq::<nat>::empty());
            assert forall|i: int| 0 <= i < lengths.len() implies has_symbol(
                meta,
                #[trigger] lengths[i] as int,
            ) && lengths[i] < 16 by {
                assert(lengths[i] <= 15);
            }
            lemma_read_lengths(meta, lengths, 0, rest);
            let (i, j) = choose|i: int, j: int|
                0 <= i < j < lengths.len() && #[trigger] lengths[i] > 0 && #[trigger] lengths[j]
                    > 0;
            if exists|q: int| is_only_used(lengths, q) {
                let q = choose|q: int| is_only_used(lengths, q);
                assert(lengths[i] > 0 && lengths[j] > 0);
            }
        },
    }
}

/// The frequencies that the code is built for: a lone symbol gets a companion.
pub open spec fn coded_frequencies(frequencies: Seq<u32>) -> Seq<u32> {
    if count_nonzero(frequencies) == 1 {
        frequencies.update(
            if first_used(frequencies) == 0 {
                1
            } else {
                0
            },
            1,
        )
    } else {
        frequencies
    }
}

/// The tree that is sent for the frequencies when the code lengths are `lengths`.
pub open spec fn sent_tree(frequencies: Seq<u32>, lengths: Seq<u8>) -> PrefixTree {
    if count_nonzero(frequencies) == 0 {
        PrefixTree::Single(0)
    } else if count_nonzero(frequencies) == 1 && first_used(frequencies) < 256 {
        PrefixTree::Single(first_used(frequencies))
    } else {
        PrefixTree::Coded(lens_of(lengths))
    }
}

/// How often each code length occurs.
pub open spec fn length_frequencies(lengths: Seq<nat>) -> Seq<u32> {
    Seq::new(19, |i: int| occurrences(lengths, i as nat) as u32)
}

/// `meta` is a code for the code lengths, built from how often they occur.
pub open spec fn is_meta_for(lengths: Seq<nat>, meta: PrefixTree) -> bool {
    match meta {
        PrefixTree::Single(only) => {
            &&& count_nonzero(length_frequencies(lengths)) == 1
            &&& only == first_used(length_frequencies(lengths))
        },
        PrefixTree::Coded(ml) => {
            &&& count_nonzero(length_frequencies(lengths)) >= 2
            &&& is_huffman_code(length_frequencies(lengths), 7, ml)
        },
    }
}

/// The table of lengths and codes writes the symbols of the tree.
pub open spec fn table_matches(tree: PrefixTree, lengths: Seq<u8>, codes: Seq<u16>) -> bool {
    &&& lengths.len() == codes.len()
    &&& forall|i: int|
        0 <= i < lengths.len() && has_symbol(tree, i) ==> {
            &&& #[trigger] lengths[i] <= 15
            &&& codes[i] < pow2(lengths[i] as nat)
            &&& lsb_bits(codes[i] as int, lengths[i] as nat) == symbol_bits(tree, i)
        }
}

/// What is on the wire after a tree for the frequencies was written.
pub open spec fn is_tree_written(
    frequencies: Seq<u32>,
    lengths: Seq<u8>,
    before: Seq<bool>,
    after: Seq<bool>,
) -> bool {
    let tree = sent_tree(frequencies, lengths);
    exists|meta: PrefixTree|
        {
            &&& #[trigger] is_sendable(tree, meta)
            &&& tree is Coded ==> is_meta_for(lens_of(lengths), meta)
            &&& after == before + tree_bits(tree, meta)
        }
}

proof fn lemma_count_zero(f: Seq<u32>)
    ensures
        count_nonzero(f) <= f.len(),
        count_nonzero(f) == 0 ==> forall|i: int| 0 <= i < f.len() ==> #[trigger] f[i] == 0,
    decreases f.len(),
{
    if f.len() > 0 {
        lemma_count_zero(f.drop_last());
        if count_nonzero(f) == 0 {
            assert forall|i: int| 0 <= i < f.len() implies #[trigger] f[i] == 0 by {
                if i < f.len() - 1 {
                    assert(f.drop_last()[i] == 0);
                }
            }
        }
    }
}

proof fn lemma_count_one(f: Seq<u32>, i: int, j: int)
    requires
        count_nonzero(f) <= 1,
        0 <= i < f.len(),
        0 <= j < f.len(),
        f[i] > 0,
        f[j] > 0,
    ensures
        i == j,
    decreases f.len(),
{
    let g = f.drop_last();
    lemma_count_zero(g);
    if f.last() > 0 {
        if i < f.len() - 1 {
            assert(g[i] == 0);
        }
        if j < f.len() - 1 {
            assert(g[j] == 0);
        }
    } else {
        assert(g[i] == f[i] && g[j] == f[j]);
        lemma_count_one(g, i, j);
    }
}

proof fn lemma_count_some(f: Seq<u32>) -> (i: int)
    requires
        count_nonzero(f) >= 1,
    ensures
        0 <= i < f.len(),
        f[i] > 0,
    decreases f.len(),
{
    if f.last() > 0 {
        f.len() - 1
    } else {
        let i = lemma_count_some(f.drop_last());
        assert(f.drop_last()[i] == f[i]);
        i
    }
}

proof fn lemma_count_two(f: Seq<u32>) -> (r: (int, int))
    requires
        count_nonzero(f) >= 2,
    ensures
        0 <= r.0 < r.1 < f.len(),
        f[r.0] > 0,
        f[r.1] > 0,
    decreases f.len(),
{
    if f.last() > 0 {
        let i = lemma_count_some(f.drop_last());
        assert(f.drop_last()[i] == f[i]);
        (i, f.len() - 1)
    } else {
        let r = lemma_count_two(f.drop_last());
        assert(f.drop_last()[r.0] == f[r.0] && f.drop_last()[r.1] == f[r.1]);
        r
    }
}

proof fn lemma_count_update(f: Seq<u32>, i: int, v: u32)
    requires
        0 <= i < f.len(),
    ensures
        count_nonzero(f.update(i, v)) == count_nonzero(f) - (if f[i] > 0 {
            1int
        } else {
            0
        }) + (if v > 0 {
            1int
        } else {
            0
        }),
    decreases f.len(),
{
    if i == f.len() - 1 {
        assert(f.update(i, v).drop_last() =~= f.drop_last());
    } else {
        lemma_count_update(f.drop_last(), i, v);
        assert(f.update(i, v).drop_last() =~= f.drop_last().update(i, v));
    }
}

proof fn lemma_first_used(f: Seq<u32>, i: int)
    requires
        0 <= i < f.len(),
        f[i] > 0,
    ensures
        first_used(f) <= i,
        f[first_used(f) as int] > 0,
    decreases f.len(),
{
    if f[0] == 0 {
        assert(f.skip(1)[i - 1] == f[i]);
        lemma_first_used(f.skip(1), i - 1);
        assert(f.skip(1)[first_used(f.skip(1)) as int] == f[1 + first_used(f.skip(1)) as int]);
    }
}

proof fn lemma_occurs(s: Seq<nat>, i: int)
    requires
        0 <= i < s.len(),
    ensures
        occurrences(s, s[i]) >= 1,
    decreases s.len(),
{
    if i < s.len() - 1 {
        lemma_occurs(s.drop_last(), i);
        assert(s.drop_last()[i] == s[i]);
    }
}

proof fn lemma_lengths_bits_single(only: nat, lengths: Seq<nat>, k: int)
    requires
        0 <= k <= lengths.len(),
    ensures
        lengths_bits(PrefixTree::Single(only), lengths, k) == Seq::<bool>::empty(),
    decreases lengths.len() - k,
{
    if k < lengths.len() {
        lemma_lengths_bits_single(only, lengths, k + 1);
        assert(lengths_bits(PrefixTree::Single(only), lengths, k) =~= Seq::<bool>::empty());
    }
}

/// The first symbol in use.
fn find_first_used(frequencies: &[u32]) -> (r: usize)
    requires
        count_nonzero(frequencies@) >= 1,
    ensures
        r == first_used(frequencies@),
        r < frequencies@.len(),
        frequencies@[r as int] > 0,
{
    let mut i: usize = 0;
    let ghost w = lemma_count_some(frequencies@);
    assert(frequencies@.skip(0) =~= frequencies@);
    while frequencies[i] == 0
        invariant
            0 <= w < frequencies@.len(),
            frequencies@[w] > 0,
            i <= w,
            first_used(frequencies@) == i + first_used(frequencies@.skip(i as int)),
        decreases frequencies@.len() - i,
    {
        assert(frequencies@.skip(i as int).skip(1) =~= frequencies@.skip(i + 1));
        i = i + 1;
    }
    i
}

/// Writes a tree whose only symbol takes no bits.
pub fn write_single_entry_huffman_tree(w: &mut BitWriter, symbol: u16)
    requires
        old(w).wf(),
        symbol < 256,
    ensures
        final(w).wf(),
        final(w)@ == old(w)@ + single_bits(symbol as nat),
{
    proof {
        lemma2_to64();
    }
    let ghost start = w@;
    w.write_bits(1, 2);
    if symbol <= 1 {
        w.write_bits(0, 1);
        w.write_bits(symbol as u64, 1);
    } else {
        w.write_bits(1, 1);
        w.write_bits(symbol as u64, 8);
    }
    assert(w@ =~= start + single_bits(symbol as nat));
}

/// Counts how often each code length occurs.
fn count_length_frequencies(lengths: &Vec<u8>) -> (cf: Vec<u32>)
    requires
        lengths@.len() <= 0x8000,
        forall|i: int| 0 <= i < lengths@.len() ==> #[trigger] lengths@[i] <= 15,
    ensures
        cf@ == length_frequencies(lens_of(lengths@)),
        cf@.len() == 19,
        sum(freq_nats(cf@)) == lengths@.len(),
        forall|i: int| 0 <= i < lengths@.len() ==> #[trigger] cf@[lengths@[i] as int] > 0,
        forall|i: int| 16 <= i < 19 ==> #[trigger] cf@[i] == 0,
{
    let ghost ls = lens_of(lengths@);
    let mut cf: Vec<u32> = vec![0; 19];
    let mut i: usize = 0;
    proof {
        crate::math::lemma_sum_zero(freq_nats(cf@));
        assert(ls.take(0) =~= Seq::<nat>::empty());
    }
    while i < lengths.len()
        invariant
            ls == lens_of(lengths@),
            i <= lengths@.len() <= 0x8000,
            cf@.len() == 19,
            forall|k: int| 0 <= k < lengths@.len() ==> #[trigger] lengths@[k] <= 15,
            sum(freq_nats(cf@)) == i,
            forall|k: int|
                0 <= k < 19 ==> #[trigger] cf@[k] == occurrences(ls.take(i as int), k as nat),
            forall|k: int| 16 <= k < 19 ==> #[trigger] cf@[k] == 0,
        decreases lengths@.len() - i,
    {
        let l: usize = lengths[i] as usize;
        let ghost before = cf@;
        proof {
            assert(lengths@[i as int] <= 15);
            lemma_sum_update(freq_nats(before), l as int, (before[l as int] + 1) as nat);
            assert(ls.take(i + 1) =~= ls.take(i as int).push(l as nat));
        }
        let c: u32 = cf[l] + 1;
        cf.set(l, c);
        proof {
            assert(freq_nats(cf@) =~= freq_nats(before).update(
                l as int,
                (before[l as int] + 1) as nat,
            ));
            assert forall|k: int| 0 <= k < 19 implies #[trigger] cf@[k] == occurrences(
                ls.take(i + 1),
                k as nat,
            ) by {
                lemma_occurrences_push(ls.take(i as int), l as nat, k as nat);
            }
        }
        i = i + 1;
    }
    assert(ls.take(i as int) =~= ls);
    assert(cf@ =~= length_frequencies(ls));
    assert forall|k: int| 0 <= k < lengths@.len() implies #[trigger] cf@[lengths@[k] as int] > 0 by {
        lemma_occurs(ls, k);
    }
    cf
}

/// Writes the code-length code and all code lengths.
fn write_coded_tree(w: &mut BitWriter, lengths: &Vec<u8>)
    requires
        old(w).wf(),
        1 <= lengths@.len() <= 0x8000,
        forall|i: int| 0 <= i < lengths@.len() ==> #[trigger] lengths@[i] <= 15,
    ensures
        final(w).wf(),
        exists|meta: PrefixTree|
            {
                &&& #[trigger] is_meta(meta)
                &&& is_meta_for(lens_of(lengths@), meta)
                &&& forall|i: int|
                    0 <= i < lengths@.len() ==> has_symbol(
                        meta,
                        #[trigger] lens_of(lengths@)[i] as int,
                    )
                &&& final(w)@ == old(w)@ + coded_bits(meta, lens_of(lengths@))
            },
{
    let ghost ls = lens_of(lengths@);
    let ghost start = w@;
    let cf = count_length_frequencies(lengths);
    let mut ml: Vec<u8> = vec![0; 19];
    let mut mc: Vec<u16> = vec![0; 19];
    proof {
        lemma2_to64();
        lemma_count_zero(cf@);
        assert(cf@[lengths@[0] as int] > 0);
    }
    let several: bool = build_huffman_tree(cf.as_slice(), &mut ml, &mut mc, 7);
    let ghost meta = if several {
        PrefixTree::Coded(lens_of(ml@))
    } else {
        PrefixTree::Single(first_used(cf@))
    };
    proof {
        if several {
            let r = lemma_count_two(cf@);
            assert(ml@[r.0] > 0 && ml@[r.1] > 0);
            assert(lens_of(ml@)[r.0] > 0 && lens_of(ml@)[r.1] > 0);
            assert forall|i: int| 0 <= i < 19 implies #[trigger] lens_of(ml@)[i] < 8 by {
                assert(ml@[i] <= 7);
            }
            assert forall|i: int| 0 <= i < lengths@.len() implies has_symbol(
                meta,
                #[trigger] ls[i] as int,
            ) by {
                assert(cf@[lengths@[i] as int] > 0);
                assert(ml@[lengths@[i] as int] > 0);
            }
        } else {
            lemma_first_used(cf@, lengths@[0] as int);
            assert forall|i: int| 0 <= i < lengths@.len() implies has_symbol(
                meta,
                #[trigger] ls[i] as int,
            ) by {
                assert(cf@[lengths@[i] as int] > 0);
                lemma_count_one(cf@, first_used(cf@) as int, lengths@[i] as int);
            }
            if count_nonzero(cf@) == 0 {
                assert(cf@[lengths@[0] as int] == 0);
            }
            assert forall|i: int| 0 <= i < 19 implies (#[trigger] cf@[i] > 0 <==> i == first_used(
                cf@,
            )) by {
                if cf@[i] > 0 {
                    lemma_count_one(cf@, first_used(cf@) as int, i);
                }
            }
        }
        assert(is_meta(meta));
        assert(is_meta_for(ls, meta));
    }
    w.write_bits(0, 1);
    w.write_bits(15, 4);
    let ghost mid = w@;
    assert(mid =~= start + (lsb_bits(0, 1) + lsb_bits(15, 4)));
    let mut k: usize = 0;
    while k < 19
        invariant
            w.wf(),
            k <= 19,
            cf@.len() == 19,
            ml@.len() == 19,
            is_meta(meta),
            forall|i: int| 16 <= i < 19 ==> #[trigger] cf@[i] == 0,
            several ==> meta == PrefixTree::Coded(lens_of(ml@)),
            several ==> forall|i: int|
                0 <= i < 19 ==> (#[trigger] ml@[i] == 0 <==> cf@[i] == 0),
            !several ==> meta == PrefixTree::Single(first_used(cf@)),
            !several ==> forall|i: int|
                0 <= i < 19 ==> (#[trigger] cf@[i] > 0 <==> i == first_used(cf@)),
            w@ + meta_bits(meta, k as int) == mid + meta_bits(meta, 0),
        decreases 19 - k,
    {
        let i: usize = CODE_LENGTH_ORDER[k];
        proof {
            lemma_order_range(k as int);
            lemma2_to64();
        }
        let ghost prev = w@;
        if i > 15 || cf[i] == 0 {
            w.write_bits(0, 3);
            assert(ml@[i as int] == 0 || !several);
            assert(sent_length(meta, i as int) == 0);
        } else if !several {
            w.write_bits(1, 3);
        } else {
            assert(lens_of(ml@)[i as int] < 8);
            w.write_bits(ml[i] as u64, 3);
        }
        proof {
            let f = lsb_bits(sent_length(meta, i as int) as int, 3);
            assert(w@ == prev + f);
            assert(w@ + meta_bits(meta, k + 1) =~= prev + (f + meta_bits(meta, k + 1)));
        }
        k = k + 1;
    }
    let ghost mid2 = w@;
    assert(mid2 + Seq::<bool>::empty() =~= mid2);
    w.write_bits(0, 1);
    let ghost mid3 = w@;
    if several {
        let mut n: usize = 0;
        while n < lengths.len()
            invariant
                w.wf(),
                n <= lengths@.len(),
                ls == lens_of(lengths@),
                ml@.len() == 19,
                mc@.len() == 19,
                meta == PrefixTree::Coded(lens_of(ml@)),
                are_codes(lens_of(ml@), mc@),
                forall|i: int| 0 <= i < 19 ==> #[trigger] ml@[i] <= 7,
                forall|i: int| 0 <= i < lengths@.len() ==> #[trigger] lengths@[i] <= 15,
                forall|i: int|
                    0 <= i < lengths@.len() ==> has_symbol(meta, #[trigger] ls[i] as int),
                w@ + lengths_bits(meta, ls, n as int) == mid3 + lengths_bits(meta, ls, 0),
            decreases lengths@.len() - n,
        {
            let l: usize = lengths[n] as usize;
            let ghost prev = w@;
            proof {
                assert(ls[n as int] == l);
                assert(has_symbol(meta, ls[n as int] as int));
                assert(mc@[l as int] < pow2(lens_of(ml@)[l as int]));
            }
            w.write_bits(mc[l] as u64, ml[l]);
            proof {
                let f = symbol_bits(meta, l as int);
                assert(w@ == prev + f);
                assert(w@ + lengths_bits(meta, ls, n + 1) =~= prev + (f + lengths_bits(
                    meta,
                    ls,
                    n + 1,
                )));
            }
            n = n + 1;
        }
        assert(w@ + Seq::<bool>::empty() =~= w@);
    } else {
        proof {
            lemma_lengths_bits_single(first_used(cf@), ls, 0);
            assert(w@ + Seq::<bool>::empty() =~= w@);
        }
    }
    proof {
        assert(w@ =~= start + coded_bits(meta, ls));
    }
}

/// Writes a tree for the frequencies and hands out the table of its code words.
pub fn write_huffman_tree(
    w: &mut BitWriter,
    frequencies: &[u32],
    lengths: &mut Vec<u8>,
    codes: &mut Vec<u16>,
)
    requires
        old(w).wf(),
        old(lengths)@.len() == frequencies@.len(),
        old(codes)@.len() == frequencies@.len(),
        2 <= frequencies@.len() <= 0x8000,
        sum(freq_nats(frequencies@)) < u32::MAX,
    ensures
        final(w).wf(),
        final(lengths)@.len() == frequencies@.len(),
        final(codes)@.len() == frequencies@.len(),
        is_tree_written(frequencies@, final(lengths)@, old(w)@, final(w)@),
        sent_tree(frequencies@, final(lengths)@) is Coded ==> is_huffman_code(
            coded_frequencies(frequencies@),
            15,
            lens_of(final(lengths)@),
        ),
        sent_tree(frequencies@, final(lengths)@) is Single ==> forall|i: int|
            0 <= i < frequencies@.len() ==> final(lengths)@[i] == 0 && final(codes)@[i] == 0,
        is_valid_tree(sent_tree(frequencies@, final(lengths)@)),
        table_matches(
            sent_tree(frequencies@, final(lengths)@),
            final(lengths)@,
            final(codes)@,
        ),
        forall|i: int|
            0 <= i < frequencies@.len() && #[trigger] frequencies@[i] > 0 ==> has_symbol(
                sent_tree(frequencies@, final(lengths)@),
                i,
            ),
{
    let ghost start = w@;
    let used: usize = crate::webp::huffman::count_used(frequencies);
    proof {
        lemma2_to64();
        lemma_count_zero(frequencies@);
    }
    let first: usize = if used == 0 {
        0
    } else {
        find_first_used(frequencies)
    };
    if used == 0 || (used == 1 && first < 256) {
        let symbol: u16 = if used == 0 {
            0
        } else {
            first as u16
        };
        write_single_entry_huffman_tree(w, symbol);
        let n: usize = frequencies.len();
        *lengths = vec![0; n];
        *codes = vec![0; n];
        proof {
            let tree = sent_tree(frequencies@, lengths@);
            assert(is_sendable(tree, tree));
            assert(w@ == start + tree_bits(tree, tree));
            assert(is_tree_written(frequencies@, lengths@, start, w@));
            assert forall|i: int| 0 <= i < frequencies@.len() && #[trigger] frequencies@[i]
                > 0 implies has_symbol(tree, i) by {
                if used == 1 {
                    lemma_count_one(frequencies@, first as int, i);
                }
            }
            assert(lsb_bits(0, 0) =~= Seq::<bool>::empty());
            assert(table_matches(tree, lengths@, codes@));
        }
        return;
    }
    if used >= 2 {
        let _several = build_huffman_tree(frequencies, lengths, codes, 15);
    } else {
        let mut scratch: Vec<u32> = Vec::new();
        let mut i: usize = 0;
        while i < frequencies.len()
            invariant
                i <= frequencies@.len(),
                scratch@ == frequencies@.take(i as int),
            decreases frequencies@.len() - i,
        {
            scratch.push(frequencies[i]);
            i = i + 1;
            assert(scratch@ =~= frequencies@.take(i as int));
        }
        assert(scratch@ =~= frequencies@);
        let dummy: usize = if first == 0 {
            1
        } else {
            0
        };
        proof {
            if frequencies@[dummy as int] > 0 {
                lemma_count_one(frequencies@, first as int, dummy as int);
            }
            lemma_count_update(frequencies@, dummy as int, 1);
            lemma_sum_update(freq_nats(frequencies@), dummy as int, 1);
            assert(freq_nats(frequencies@.update(dummy as int, 1)) =~= freq_nats(
                frequencies@,
            ).update(dummy as int, 1));
        }
        scratch.set(dummy, 1);
        assert(scratch@ == coded_frequencies(frequencies@));
        let _several = build_huffman_tree(scratch.as_slice(), lengths, codes, 15);
        proof {
            assert forall|i: int| 0 <= i < frequencies@.len() && #[trigger] frequencies@[i]
                > 0 implies lengths@[i] > 0 by {
                assert(scratch@[i] > 0);
            }
        }
    }
    let ghost ls = lens_of(lengths@);
    let ghost cfreq = coded_frequencies(frequencies@);
    write_coded_tree(w, lengths);
    proof {
        let tree = PrefixTree::Coded(ls);
        let meta = choose|meta: PrefixTree|
            {
                &&& #[trigger] is_meta(meta)
                &&& is_meta_for(ls, meta)
                &&& forall|i: int|
                    0 <= i < lengths@.len() ==> has_symbol(meta, #[trigger] ls[i] as int)
                &&& w@ == start + coded_bits(meta, ls)
            };
        assert(count_nonzero(cfreq) >= 2);
        let r = lemma_count_two(cfreq);
        assert(lengths@[r.0] > 0 && lengths@[r.1] > 0);
        assert(ls[r.0] > 0 && ls[r.1] > 0);
        assert(is_complete(ls));
        assert(is_meta(meta));
        assert(ls.len() == lengths@.len());
        assert forall|i: int| 0 <= i < ls.len() implies has_symbol(
            meta,
            #[trigger] ls[i] as int,
        ) by {
            assert(0 <= i < lengths@.len());
        }
        lemma_sendable(ls, meta, r.0, r.1);
        assert(is_tree_written(frequencies@, lengths@, start, w@));
        assert forall|i: int| 0 <= i < lengths@.len() && has_symbol(tree, i) implies {
            &&& #[trigger] lengths@[i] <= 15
            &&& codes@[i] < pow2(lengths@[i] as nat)
            &&& lsb_bits(codes@[i] as int, lengths@[i] as nat) == symbol_bits(tree, i)
        } by {
            assert(codes@[i] < pow2(ls[i]));
        }
    }
}

} // verus!
