//! The token stream of an image: symbol statistics, writing and reading.
use crate::math::{lemma_sum_update, lemma_sum_zero, sum};
use crate::webp::backref::{
    all_playable, is_playable, replay, replay_copy, replay_token, token_span, Token,
    MAX_BACKWARD_DISTANCE, MAX_MATCH_LEN,
};
use crate::webp::bit_writer::BitWriter;
use crate::webp::encoder::ColorType;
use crate::webp::huffman::freq_nats;
use crate::webp::prefix_tree::{has_symbol, symbol_bits, table_matches, PrefixTree};
use crate::webp::symbols::{
    alpha_of, are_valid_trees, blue_of, build_small_distance_lookup, codes_token, dist_symbol,
    distance_to_plane_code, green_symbol, is_small_lookup, lemma_copy_symbols, lemma_plane_code,
    lemma_prefix_unique, lemma_prefix_value, lemma_read_token, pixel_channels, read_token, red_of,
    token_bits, value_to_prefix, TokenTrees, DIST_ALPHABET_SIZE, GREEN_COPY_CODES,
};
use vstd::arithmetic::power2::pow2;
use vstd::prelude::*;

verus! {

/// The prefix codes of a stream.
#[derive(Clone, Copy, PartialEq, Eq, Structural)]
pub enum Channel {
    Green,
    Red,
    Blue,
    Alpha,
    Dist,
}

/// The symbol that a token puts into a channel, -1 for none.
pub open spec fn emitted(token: Token, channel: Channel, width: int) -> int {
    match channel {
        Channel::Green => green_symbol(token),
        Channel::Red => match token {
            Token::Literal(p) => red_of(p),
            _ => -1,
        },
        Channel::Blue => match token {
            Token::Literal(p) => blue_of(p),
            _ => -1,
        },
        Channel::Alpha => match token {
            Token::Literal(p) => alpha_of(p),
            _ => -1,
        },
        Channel::Dist => match token {
            Token::Copy { .. } => dist_symbol(token, width),
            _ => -1,
        },
    }
}

/// How often the tokens put `symbol` into a channel.
pub open spec fn emit_count(tokens: Seq<Token>, channel: Channel, width: int, symbol: int) -> nat
    decreases tokens.len(),
{
    if tokens.len() == 0 {
        0
    } else {
        emit_count(tokens.drop_last(), channel, width, symbol) + if emitted(
            tokens.last(),
            channel,
            width,
        ) == symbol {
            1nat
        } else {
            0nat
        }
    }
}

/// Whether images of the color type send symbols in the channel.
pub open spec fn is_counted(color: ColorType, channel: Channel) -> bool {
    match channel {
        Channel::Green => true,
        Channel::Dist => true,
        Channel::Alpha => color == ColorType::La8 || color == ColorType::Rgba8,
        _ => color == ColorType::Rgb8 || color == ColorType::Rgba8,
    }
}

/// How often each symbol of a channel is needed; a channel that is not sent counts
/// one symbol 0.
pub open spec fn token_frequencies(
    tokens: Seq<Token>,
    color: ColorType,
    channel: Channel,
    width: int,
    size: nat,
) -> Seq<u32> {
    Seq::new(
        size,
        |x: int|
            if is_counted(color, channel) {
                emit_count(tokens, channel, width, x) as u32
            } else if x == 0 {
                1u32
            } else {
                0u32
            },
    )
}

/// Symbol counts of a token stream, one list for each channel.
pub struct TokenFrequencies {
    pub green: Vec<u32>,
    pub red: Vec<u32>,
    pub blue: Vec<u32>,
    pub alpha: Vec<u32>,
    pub dist: Vec<u32>,
}

/// Counts for one channel after the tokens.
spec fn counts_so_far(
    v: Seq<u32>,
    tokens: Seq<Token>,
    color: ColorType,
    channel: Channel,
    width: int,
    size: nat,
) -> bool {
    &&& v.len() == size
    &&& v == token_frequencies(tokens, color, channel, width, size)
    &&& sum(freq_nats(v)) <= tokens.len() + 1
}

proof fn lemma_count_start(
    v: Seq<u32>,
    color: ColorType,
    channel: Channel,
    width: int,
    size: nat,
)
    requires
        v.len() == size,
        size > 0,
        v[0] == if is_counted(color, channel) {
            0u32
        } else {
            1u32
        },
        forall|i: int| 0 < i < v.len() ==> v[i] == 0,
    ensures
        counts_so_far(v, Seq::empty(), color, channel, width, size),
{
    assert(v =~= token_frequencies(Seq::empty(), color, channel, width, size));
    let z = freq_nats(v).update(0, 0);
    lemma_sum_zero(z);
    lemma_sum_update(freq_nats(v), 0, 0);
}

/// Counting one more token.
proof fn lemma_count_token(
    v: Seq<u32>,
    v2: Seq<u32>,
    tokens: Seq<Token>,
    token: Token,
    color: ColorType,
    channel: Channel,
    width: int,
    size: nat,
)
    requires
        counts_so_far(v, tokens, color, channel, width, size),
        tokens.len() < u32::MAX - 1,
        ({
            let x = emitted(token, channel, width);
            if is_counted(color, channel) && x >= 0 {
                x < size && v2 == v.update(x, (v[x] + 1) as u32)
            } else {
                v2 == v
            }
        }),
    ensures
        counts_so_far(v2, tokens.push(token), color, channel, width, size),
{
    let t2 = tokens.push(token);
    assert(t2.drop_last() =~= tokens);
    let x = emitted(token, channel, width);
    assert forall|k: int| 0 <= k < size implies v[k] <= tokens.len() + 1 by {
        lemma_sum_update(freq_nats(v), k, 0);
    }
    assert forall|k: int| is_counted(color, channel) && 0 <= k < size implies emit_count(
        tokens,
        channel,
        width,
        k,
    ) <= tokens.len() by {
        lemma_emit_bound(tokens, channel, width, k);
    }
    assert(v2 =~= token_frequencies(t2, color, channel, width, size)) by {
        assert forall|k: int| 0 <= k < size implies v2[k] == #[trigger] token_frequencies(
            t2,
            color,
            channel,
            width,
            size,
        )[k] by {
            assert(v[k] == token_frequencies(tokens, color, channel, width, size)[k]);
            lemma_emit_bound(tokens, channel, width, k);
        }
    }
    if is_counted(color, channel) && x >= 0 {
        assert(freq_nats(v2) =~= freq_nats(v).update(x, (v[x] + 1) as nat));
        lemma_sum_update(freq_nats(v), x, (v[x] + 1) as nat);
    }
}

proof fn lemma_emit_bound(tokens: Seq<Token>, channel: Channel, width: int, symbol: int)
    ensures
        emit_count(tokens, channel, width, symbol) <= tokens.len(),
    decreases tokens.len(),
{
    if tokens.len() > 0 {
        lemma_emit_bound(tokens.drop_last(), channel, width, symbol);
    }
}

/// A symbol that some token needs is counted.
proof fn lemma_emit_positive(tokens: Seq<Token>, channel: Channel, width: int, k: int)
    requires
        0 <= k < tokens.len(),
    ensures
        emit_count(tokens, channel, width, emitted(tokens[k], channel, width)) >= 1,
    decreases tokens.len(),
{
    if k < tokens.len() - 1 {
        lemma_emit_positive(tokens.drop_last(), channel, width, k);
        assert(tokens.drop_last()[k] == tokens[k]);
    }
}

/// A counted channel has a nonzero frequency for what a token needs.
pub proof fn lemma_needed_is_counted(
    tokens: Seq<Token>,
    color: ColorType,
    channel: Channel,
    width: int,
    size: nat,
    k: int,
)
    requires
        0 <= k < tokens.len(),
        tokens.len() < u32::MAX,
        is_counted(color, channel),
        0 <= emitted(tokens[k], channel, width) < size,
    ensures
        token_frequencies(tokens, color, channel, width, size)[emitted(tokens[k], channel, width)]
            > 0,
{
    let x = emitted(tokens[k], channel, width);
    lemma_emit_positive(tokens, channel, width, k);
    lemma_emit_bound(tokens, channel, width, x);
}

fn bump(v: &mut Vec<u32>, i: usize)
    requires
        i < old(v)@.len(),
        old(v)@[i as int] < u32::MAX,
    ensures
        final(v)@ == old(v)@.update(i as int, (old(v)@[i as int] + 1) as u32),
{
    let c: u32 = v[i] + 1;
    v.set(i, c);
}

/// Size of the green alphabet with a cache of `bits`.
pub open spec fn green_size(bits: u8) -> nat {
    if bits == 0 {
        280
    } else {
        280 + pow2(bits as nat)
    }
}

/// All tokens are within the alphabets.
pub open spec fn in_alphabets(tokens: Seq<Token>, bits: u8) -> bool {
    forall|k: int|
        0 <= k < tokens.len() ==> match #[trigger] tokens[k] {
            Token::Literal(_) => true,
            Token::CacheHit(i) => bits > 0 && i < pow2(bits as nat),
            Token::Copy { len, dist } => 1 <= len <= MAX_MATCH_LEN && 1 <= dist
                <= MAX_BACKWARD_DISTANCE,
        }
}

/// Counts the symbols that the tokens need in each channel.
pub fn count_token_frequencies(
    tokens: &Vec<Token>,
    color: ColorType,
    width: u32,
    green_alphabet_size: usize,
    bits: Ghost<u8>,
) -> (f: TokenFrequencies)
    requires
        width <= 0x0fff_ffff,
        tokens@.len() < u32::MAX - 1,
        bits@ <= 11,
        green_alphabet_size == green_size(bits@),
        in_alphabets(tokens@, bits@),
    ensures
        f.green@ == token_frequencies(
            tokens@,
            color,
            Channel::Green,
            width as int,
            green_alphabet_size as nat,
        ),
        f.red@ == token_frequencies(tokens@, color, Channel::Red, width as int, 256),
        f.blue@ == token_frequencies(tokens@, color, Channel::Blue, width as int, 256),
        f.alpha@ == token_frequencies(tokens@, color, Channel::Alpha, width as int, 256),
        f.dist@ == token_frequencies(tokens@, color, Channel::Dist, width as int, 40),
        sum(freq_nats(f.green@)) <= tokens@.len() + 1,
        sum(freq_nats(f.red@)) <= tokens@.len() + 1,
        sum(freq_nats(f.blue@)) <= tokens@.len() + 1,
        sum(freq_nats(f.alpha@)) <= tokens@.len() + 1,
        sum(freq_nats(f.dist@)) <= tokens@.len() + 1,
{
    let ghost wd = width as int;
    let ghost gsize = green_alphabet_size as nat;
    let small_lookup = build_small_distance_lookup(width);
    let mut green: Vec<u32> = vec![0; green_alphabet_size];
    let mut red: Vec<u32> = vec![0; 256];
    let mut blue: Vec<u32> = vec![0; 256];
    let mut alpha: Vec<u32> = vec![0; 256];
    let mut dist_f: Vec<u32> = vec![0; DIST_ALPHABET_SIZE];
    let (sends_rgb, sends_alpha): (bool, bool) = match color {
        ColorType::L8 => (false, false),
        ColorType::La8 => (false, true),
        ColorType::Rgb8 => (true, false),
        ColorType::Rgba8 => (true, true),
    };
    if !sends_rgb {
        red.set(0, 1);
        blue.set(0, 1);
    }
    if !sends_alpha {
        alpha.set(0, 1);
    }
    let mut i: usize = 0;
    proof {
        lemma_count_start(green@, color, Channel::Green, wd, gsize);
        lemma_count_start(red@, color, Channel::Red, wd, 256);
        lemma_count_start(blue@, color, Channel::Blue, wd, 256);
        lemma_count_start(alpha@, color, Channel::Alpha, wd, 256);
        lemma_count_start(dist_f@, color, Channel::Dist, wd, 40);
        assert(tokens@.take(0) =~= Seq::<Token>::empty());
    }
    while i < tokens.len()
        invariant
            i <= tokens@.len() < u32::MAX - 1,
            wd == width,
            bits@ <= 11,
            gsize == green_size(bits@),
            in_alphabets(tokens@, bits@),
            is_small_lookup(wd, small_lookup@),
            sends_rgb == is_counted(color, Channel::Red),
            sends_rgb == is_counted(color, Channel::Blue),
            sends_alpha == is_counted(color, Channel::Alpha),
            counts_so_far(green@, tokens@.take(i as int), color, Channel::Green, wd, gsize),
            counts_so_far(red@, tokens@.take(i as int), color, Channel::Red, wd, 256),
            counts_so_far(blue@, tokens@.take(i as int), color, Channel::Blue, wd, 256),
            counts_so_far(alpha@, tokens@.take(i as int), color, Channel::Alpha, wd, 256),
            counts_so_far(dist_f@, tokens@.take(i as int), color, Channel::Dist, wd, 40),
        decreases tokens@.len() - i,
    {
        let token = tokens[i];
        let ghost done = tokens@.take(i as int);
        let ghost g0 = green@;
        let ghost r0 = red@;
        let ghost b0 = blue@;
        let ghost a0 = alpha@;
        let ghost d0 = dist_f@;
        proof {
            assert(tokens@.take(i + 1) =~= done.push(token));
            assert(tokens@[i as int] == token);
            lemma_small_entries(g0, done);
            lemma_small_entries(r0, done);
            lemma_small_entries(b0, done);
            lemma_small_entries(a0, done);
            lemma_small_entries(d0, done);
        }
        match token {
            Token::Literal(pixel) => {
                let (r, g, b, a) = pixel_channels(pixel);
                bump(&mut green, g);
                if sends_rgb {
                    bump(&mut red, r);
                    bump(&mut blue, b);
                }
                if sends_alpha {
                    bump(&mut alpha, a);
                }
            },
            Token::CacheHit(index) => {
                bump(&mut green, GREEN_COPY_CODES + index as usize);
            },
            Token::Copy { len, dist } => {
                proof {
                    lemma_copy_symbols(len, dist, wd);
                    lemma_plane_code(wd, dist as int);
                }
                let (length_symbol, lb, lv) = value_to_prefix(len as u32);
                let plane: u32 = distance_to_plane_code(dist as usize, &small_lookup, Ghost(wd));
                let (dsym, db, dv) = value_to_prefix(plane);
                proof {
                    lemma_prefix_unique(len as int, length_symbol as int, lb as int, lv as int);
                    lemma_prefix_unique(plane as int, dsym as int, db as int, dv as int);
                }
                bump(&mut green, 256 + length_symbol as usize);
                bump(&mut dist_f, dsym as usize);
            },
        }
        proof {
            lemma_count_token(g0, green@, done, token, color, Channel::Green, wd, gsize);
            lemma_count_token(r0, red@, done, token, color, Channel::Red, wd, 256);
            lemma_count_token(b0, blue@, done, token, color, Channel::Blue, wd, 256);
            lemma_count_token(a0, alpha@, done, token, color, Channel::Alpha, wd, 256);
            lemma_count_token(d0, dist_f@, done, token, color, Channel::Dist, wd, 40);
        }
        i = i + 1;
    }
    assert(tokens@.take(i as int) =~= tokens@);
    TokenFrequencies { green, red, blue, alpha, dist: dist_f }
}

proof fn lemma_small_entries(v: Seq<u32>, done: Seq<Token>)
    requires
        sum(freq_nats(v)) <= done.len() + 1,
        done.len() < u32::MAX - 1,
    ensures
        forall|k: int| 0 <= k < v.len() ==> #[trigger] v[k] < u32::MAX,
{
    assert forall|k: int| 0 <= k < v.len() implies #[trigger] v[k] < u32::MAX by {
        lemma_sum_update(freq_nats(v), k, 0);
    }
}

/// Code words of one channel.
pub struct CodeTable {
    pub lengths: Vec<u8>,
    pub codes: Vec<u16>,
}

/// Code words of all channels.
pub struct TokenTables {
    pub green: CodeTable,
    pub red: CodeTable,
    pub blue: CodeTable,
    pub alpha: CodeTable,
    pub dist: CodeTable,
}

impl CodeTable {
    pub open spec fn matches_tree(&self, tree: PrefixTree, size: nat) -> bool {
        &&& self.lengths@.len() == size
        &&& table_matches(tree, self.lengths@, self.codes@)
    }
}

/// The tables write the symbols of the trees.
pub open spec fn tables_match(tables: TokenTables, trees: TokenTrees, bits: u8) -> bool {
    &&& tables.green.matches_tree(trees.green, green_size(bits))
    &&& tables.red.matches_tree(trees.red, 256)
    &&& tables.blue.matches_tree(trees.blue, 256)
    &&& tables.alpha.matches_tree(trees.alpha, 256)
    &&& tables.dist.matches_tree(trees.dist, 40)
}

/// Channels that are not sent take no bits.
pub open spec fn unsent_are_single(color: ColorType, trees: TokenTrees) -> bool {
    &&& !is_counted(color, Channel::Red) ==> trees.red is Single
    &&& !is_counted(color, Channel::Blue) ==> trees.blue is Single
    &&& !is_counted(color, Channel::Alpha) ==> trees.alpha is Single
}

/// The bits of the tokens from `k` on.
pub open spec fn stream_bits(tokens: Seq<Token>, k: int, trees: TokenTrees, width: int) -> Seq<bool>
    decreases tokens.len() - k,
{
    if 0 <= k < tokens.len() {
        token_bits(tokens[k], trees, width) + stream_bits(tokens, k + 1, trees, width)
    } else {
        Seq::empty()
    }
}

fn write_symbol(w: &mut BitWriter, table: &CodeTable, symbol: usize, tree: Ghost<PrefixTree>)
    requires
        old(w).wf(),
        symbol < table.lengths@.len(),
        table_matches(tree@, table.lengths@, table.codes@),
        has_symbol(tree@, symbol as int),
    ensures
        final(w).wf(),
        final(w)@ == old(w)@ + symbol_bits(tree@, symbol as int),
{
    assert(table.lengths@[symbol as int] <= 15);
    w.write_bits(table.codes[symbol] as u64, table.lengths[symbol]);
}

/// Writes all tokens.
pub fn write_tokens(
    w: &mut BitWriter,
    tokens: &Vec<Token>,
    color: ColorType,
    width: u32,
    tables: &TokenTables,
    trees: Ghost<TokenTrees>,
    bits: Ghost<u8>,
)
    requires
        old(w).wf(),
        width <= 0x0fff_ffff,
        in_alphabets(tokens@, bits@),
        tables_match(*tables, trees@, bits@),
        unsent_are_single(color, trees@),
        forall|k: int|
            0 <= k < tokens@.len() ==> codes_token(trees@, #[trigger] tokens@[k], width as int),
    ensures
        final(w).wf(),
        final(w)@ == old(w)@ + stream_bits(tokens@, 0, trees@, width as int),
{
    let small_lookup = build_small_distance_lookup(width);
    let ghost wd = width as int;
    let ghost start = w@;
    let ghost all = stream_bits(tokens@, 0, trees@, wd);
    let mut i: usize = 0;
    while i < tokens.len()
        invariant
            w.wf(),
            i <= tokens@.len(),
            wd == width,
            in_alphabets(tokens@, bits@),
            tables_match(*tables, trees@, bits@),
            unsent_are_single(color, trees@),
            is_small_lookup(wd, small_lookup@),
            forall|k: int|
                0 <= k < tokens@.len() ==> codes_token(trees@, #[trigger] tokens@[k], wd),
            w@ + stream_bits(tokens@, i as int, trees@, wd) == start + all,
        decreases tokens@.len() - i,
    {
        let token = tokens[i];
        let ghost prev = w@;
        let ghost next = stream_bits(tokens@, i + 1, trees@, wd);
        assert(codes_token(trees@, tokens@[i as int], wd));
        match token {
            Token::Literal(pixel) => {
                let (r, g, b, a) = pixel_channels(pixel);
                write_symbol(w, &tables.green, g, Ghost(trees@.green));
                match color {
                    ColorType::L8 => {},
                    ColorType::La8 => {
                        write_symbol(w, &tables.alpha, a, Ghost(trees@.alpha));
                    },
                    ColorType::Rgb8 => {
                        write_symbol(w, &tables.red, r, Ghost(trees@.red));
                        write_symbol(w, &tables.blue, b, Ghost(trees@.blue));
                    },
                    ColorType::Rgba8 => {
                        write_symbol(w, &tables.red, r, Ghost(trees@.red));
                        write_symbol(w, &tables.blue, b, Ghost(trees@.blue));
                        write_symbol(w, &tables.alpha, a, Ghost(trees@.alpha));
                    },
                }
                assert(w@ =~= prev + token_bits(token, trees@, wd));
            },
            Token::CacheHit(index) => {
                write_symbol(
                    w,
                    &tables.green,
                    GREEN_COPY_CODES + index as usize,
                    Ghost(trees@.green),
                );
                assert(w@ =~= prev + token_bits(token, trees@, wd));
            },
            Token::Copy { len, dist } => {
                proof {
                    lemma_copy_symbols(len, dist, wd);
                    lemma_plane_code(wd, dist as int);
                }
                let (length_symbol, length_extra_bits, length_extra_value) = value_to_prefix(
                    len as u32,
                );
                proof {
                    lemma_prefix_unique(
                        len as int,
                        length_symbol as int,
                        length_extra_bits as int,
                        length_extra_value as int,
                    );
                    lemma_prefix_value(
                        len as int,
                        length_symbol as int,
                        length_extra_bits as int,
                        length_extra_value as int,
                    );
                }
                write_symbol(w, &tables.green, 256 + length_symbol as usize, Ghost(trees@.green));
                w.write_bits(length_extra_value as u64, length_extra_bits);
                let plane: u32 = distance_to_plane_code(dist as usize, &small_lookup, Ghost(wd));
                let (dsym, dist_extra_bits, dist_extra_value) = value_to_prefix(plane);
                proof {
                    lemma_prefix_unique(
                        plane as int,
                        dsym as int,
                        dist_extra_bits as int,
                        dist_extra_value as int,
                    );
                    lemma_prefix_value(
                        plane as int,
                        dsym as int,
                        dist_extra_bits as int,
                        dist_extra_value as int,
                    );
                }
                write_symbol(w, &tables.dist, dsym as usize, Ghost(trees@.dist));
                w.write_bits(dist_extra_value as u64, dist_extra_bits);
                assert(w@ =~= prev + token_bits(token, trees@, wd));
            },
        }
        assert(w@ + next =~= prev + (token_bits(token, trees@, wd) + next));
        i = i + 1;
    }
    assert(w@ + Seq::<bool>::empty() =~= w@);
}

/// Reads tokens until `n` pixels are there.
pub open spec fn read_pixels(
    s: Seq<bool>,
    trees: TokenTrees,
    width: int,
    n: nat,
    out: Seq<u32>,
    table: Seq<u32>,
    bits: u8,
) -> Option<(Seq<u32>, Seq<bool>)>
    decreases (if out.len() >= n { 0int } else { n - out.len() }),
{
    if out.len() >= n {
        Some((out, s))
    } else {
        match read_token(s, trees, width) {
            None => None,
            Some((token, rest)) => {
                let (out2, table2) = replay_token(token, out, table, bits);
                if out2.len() <= out.len() {
                    None
                } else {
                    read_pixels(rest, trees, width, n, out2, table2, bits)
                }
            },
        }
    }
}

proof fn lemma_replay_copy_len(
    out: Seq<u32>,
    table: Seq<u32>,
    bits: u8,
    len: nat,
    dist: int,
)
    ensures
        replay_copy(out, table, bits, len, dist).0.len() == out.len() + len,
    decreases len,
{
    if len > 0 {
        lemma_replay_copy_len(out, table, bits, (len - 1) as nat, dist);
    }
}

proof fn lemma_replay_grows(token: Token, out: Seq<u32>, table: Seq<u32>, bits: u8)
    ensures
        replay_token(token, out, table, bits).0.len() == out.len() + token_span(token),
{
    match token {
        Token::Copy { len, dist } => {
            lemma_replay_copy_len(out, table, bits, len as nat, dist as int);
        },
        _ => {},
    }
}

/// Every start of a playable stream leaves fewer pixels than the whole.
proof fn lemma_prefix_shorter(tokens: Seq<Token>, k: int, bits: u8)
    requires
        all_playable(tokens, bits),
        0 <= k < tokens.len(),
    ensures
        replay(tokens.take(k), bits).0.len() < replay(tokens, bits).0.len(),
    decreases tokens.len() - k,
{
    let t1 = tokens.take(k + 1);
    assert(t1.drop_last() =~= tokens.take(k));
    let (out, table) = replay(tokens.take(k), bits);
    lemma_replay_grows(tokens[k], out, table, bits);
    assert(is_playable(tokens[k], out.len() as int, bits));
    if k + 1 < tokens.len() {
        lemma_prefix_shorter(tokens, k + 1, bits);
    } else {
        assert(t1 =~= tokens);
    }
}

/// Reading a written stream replays its tokens.
pub proof fn lemma_read_pixels(
    tokens: Seq<Token>,
    k: int,
    trees: TokenTrees,
    width: int,
    bits: u8,
    rest: Seq<bool>,
)
    requires
        0 <= k <= tokens.len(),
        all_playable(tokens, bits),
        are_valid_trees(trees),
        forall|j: int|
            0 <= j < tokens.len() ==> codes_token(trees, #[trigger] tokens[j], width),
    ensures
        read_pixels(
            stream_bits(tokens, k, trees, width) + rest,
            trees,
            width,
            replay(tokens, bits).0.len(),
            replay(tokens.take(k), bits).0,
            replay(tokens.take(k), bits).1,
            bits,
        ) == Some((replay(tokens, bits).0, rest)),
    decreases tokens.len() - k,
{
    let n = replay(tokens, bits).0.len();
    if k == tokens.len() {
        assert(tokens.take(k) =~= tokens);
        assert(stream_bits(tokens, k, trees, width) + rest =~= rest);
    } else {
        let (out, table) = replay(tokens.take(k), bits);
        lemma_prefix_shorter(tokens, k, bits);
        let tail = stream_bits(tokens, k + 1, trees, width) + rest;
        assert(stream_bits(tokens, k, trees, width) + rest =~= token_bits(tokens[k], trees, width)
            + tail);
        assert(is_playable(tokens[k], out.len() as int, bits));
        assert(codes_token(trees, tokens[k], width));
        lemma_read_token(tokens[k], trees, width, out.len() as int, bits, tail);
        lemma_replay_grows(tokens[k], out, table, bits);
        assert(tokens.take(k + 1).drop_last() =~= tokens.take(k));
        lemma_read_pixels(tokens, k + 1, trees, width, bits, rest);
    }
}

} // verus!
