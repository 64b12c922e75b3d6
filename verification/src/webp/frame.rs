//! One lossless frame: its layout in bits, writing it, and reading it back.
use crate::math::{lemma_join_five, lemma_join_four, lemma_pow2_mono, pow2_u64, sum};
use crate::webp::backref::{
    all_playable, bits_of, cache_new, choose_cache_bits, hit_count, is_playable,
    lemma_tokens_replay, replay, token_span, tokenize_pixels, tokenizes, Token,
};
use crate::webp::bit_writer::{
    byte_bits, lemma_read_field, lsb_bits, padding, read_field, BitWriter,
};
use crate::webp::encoder::{ColorType, EncoderParams, EncodingError};
use crate::webp::huffman::{freq_nats, is_huffman_code, lens_of};
use crate::webp::pixel_stream::{
    count_token_frequencies, emitted, green_size, in_alphabets, is_counted, lemma_needed_is_counted,
    lemma_read_pixels, read_pixels, stream_bits, tables_match, token_frequencies, unsent_are_single,
    write_tokens, Channel, CodeTable, TokenTables,
};
use crate::webp::pixels::{
    image_argb, input_len, lemma_flat_channels, lemma_transform_undo, transform_pixels, transformed,
    untransformed,
};
use crate::webp::prefix_tree::{
    coded_frequencies, has_symbol, is_meta_for, is_sendable, is_valid_tree, lemma_read_tree,
    read_tree, sent_tree, single_bits, tree_bits, write_huffman_tree,
    write_single_entry_huffman_tree, PrefixTree,
};
use crate::webp::symbols::{
    are_valid_trees, blue_of, codes_token, lemma_copy_symbols, red_of, TokenTrees,
};
use vstd::arithmetic::power2::{lemma2_to64, lemma_pow2_pos, pow2};
use vstd::prelude::*;

verus! {

/// The greatest width and height of the format.
pub const MAX_DIMENSION: u32 = 16384;

pub open spec fn valid_dimensions(width: u32, height: u32) -> bool {
    1 <= width <= MAX_DIMENSION && 1 <= height <= MAX_DIMENSION
}

/// Signature, size and alpha flag.
pub open spec fn header_bits(width: int, height: int, alpha: bool) -> Seq<bool> {
    lsb_bits(0x2f, 8) + (lsb_bits(width - 1, 14) + (lsb_bits(height - 1, 14) + (lsb_bits(
        if alpha { 1 } else { 0 },
        1,
    ) + lsb_bits(0, 3))))
}

/// The predictor transform: blocks of 512 pixels that all predict from above.
pub open spec fn predictor_bits() -> Seq<bool> {
    lsb_bits(1, 1) + (lsb_bits(0, 2) + (lsb_bits(7, 3) + (lsb_bits(0, 1) + (single_bits(2) + (
    single_bits(0) + (single_bits(0) + (single_bits(0) + single_bits(0))))))))
}

/// The list of transforms: green subtraction, then prediction if it is used.
pub open spec fn transforms_bits(predict: bool) -> Seq<bool> {
    lsb_bits(1, 1) + (lsb_bits(2, 2) + (if predict {
        predictor_bits() + lsb_bits(0, 1)
    } else {
        lsb_bits(0, 1)
    }))
}

/// The size of the color cache, if there is one.
pub open spec fn cache_bits_bits(bits: u8) -> Seq<bool> {
    if bits == 0 {
        lsb_bits(0, 1)
    } else {
        lsb_bits(1, 1) + lsb_bits(bits as int, 4)
    }
}

/// Prefix codes of a frame, each with the code for its own lengths.
pub struct FrameTrees {
    pub trees: TokenTrees,
    pub green_meta: PrefixTree,
    pub red_meta: PrefixTree,
    pub blue_meta: PrefixTree,
    pub alpha_meta: PrefixTree,
    pub dist_meta: PrefixTree,
}

pub open spec fn trees_bits(f: FrameTrees) -> Seq<bool> {
    tree_bits(f.trees.green, f.green_meta) + (tree_bits(f.trees.red, f.red_meta) + (tree_bits(
        f.trees.blue,
        f.blue_meta,
    ) + (tree_bits(f.trees.alpha, f.alpha_meta) + tree_bits(f.trees.dist, f.dist_meta))))
}

/// A frame as bits, before it is filled up to whole bytes.
pub open spec fn frame_bits(
    width: int,
    height: int,
    alpha: bool,
    predict: bool,
    bits: u8,
    f: FrameTrees,
    tokens: Seq<Token>,
) -> Seq<bool> {
    header_bits(width, height, alpha) + (transforms_bits(predict) + (cache_bits_bits(bits) + (
    lsb_bits(0, 1) + (trees_bits(f) + stream_bits(tokens, 0, f.trees, width)))))
}

/// Size of a channel's alphabet.
pub open spec fn alphabet_size(channel: Channel, bits: u8) -> nat {
    match channel {
        Channel::Green => green_size(bits),
        Channel::Dist => 40,
        _ => 256,
    }
}

/// The tree of one channel: a Huffman code for its symbol counts, or the one symbol
/// that the channel always holds.
#[verifier::opaque]
pub open spec fn is_channel_tree(
    tokens: Seq<Token>,
    color: ColorType,
    channel: Channel,
    width: int,
    bits: u8,
    predict: bool,
    tree: PrefixTree,
    meta: PrefixTree,
) -> bool {
    let freqs = token_frequencies(tokens, color, channel, width, alphabet_size(channel, bits));
    &&& is_sendable(tree, meta)
    &&& is_valid_tree(tree)
    &&& tree matches PrefixTree::Coded(lengths) ==> lengths.len() == alphabet_size(channel, bits)
        && is_meta_for(lengths, meta)
    &&& if is_counted(color, channel) {
        &&& exists|lengths: Seq<u8>|
            {
                &&& tree == #[trigger] sent_tree(freqs, lengths)
                &&& tree is Coded ==> is_huffman_code(
                    coded_frequencies(freqs),
                    15,
                    lens_of(lengths),
                )
            }
        &&& forall|x: int| 0 <= x < freqs.len() && #[trigger] freqs[x] > 0 ==> has_symbol(tree, x)
    } else {
        tree == PrefixTree::Single(
            if channel == Channel::Alpha && !predict {
                255
            } else {
                0
            },
        )
    }
}

pub open spec fn are_frame_trees(
    tokens: Seq<Token>,
    color: ColorType,
    width: int,
    bits: u8,
    predict: bool,
    f: FrameTrees,
) -> bool {
    &&& is_channel_tree(
        tokens,
        color,
        Channel::Green,
        width,
        bits,
        predict,
        f.trees.green,
        f.green_meta,
    )
    &&& is_channel_tree(
        tokens,
        color,
        Channel::Red,
        width,
        bits,
        predict,
        f.trees.red,
        f.red_meta,
    )
    &&& is_channel_tree(
        tokens,
        color,
        Channel::Blue,
        width,
        bits,
        predict,
        f.trees.blue,
        f.blue_meta,
    )
    &&& is_channel_tree(
        tokens,
        color,
        Channel::Alpha,
        width,
        bits,
        predict,
        f.trees.alpha,
        f.alpha_meta,
    )
    &&& is_channel_tree(
        tokens,
        color,
        Channel::Dist,
        width,
        bits,
        predict,
        f.trees.dist,
        f.dist_meta,
    )
}

/// Cache size for so many pixels.
pub open spec fn suggested_bits(n: int) -> u8 {
    if n >= 262144 {
        10
    } else if n >= 16384 {
        9
    } else {
        8
    }
}

/// `bits` and `tokens` are what the pixels are coded with: the color cache is dropped
/// if it would never be hit.
pub open spec fn is_token_choice(coded: Seq<u32>, bits: u8, tokens: Seq<Token>) -> bool {
    let n = coded.len() as int;
    exists|first: Seq<Token>|
        {
            &&& #[trigger] tokenizes(first, coded, suggested_bits(n), n)
            &&& if hit_count(first) == 0 {
                bits == 0 && tokenizes(tokens, coded, 0, n)
            } else {
                bits == suggested_bits(n) && tokens == first
            }
        }
}

/// `bytes` is a frame of the image.
pub open spec fn is_frame_of(
    bytes: Seq<u8>,
    data: Seq<u8>,
    width: u32,
    height: u32,
    color: ColorType,
    predict: bool,
) -> bool {
    let coded = transformed(
        image_argb(data, color, (width * height) as nat),
        width as int,
        predict,
    );
    exists|bits: u8, f: FrameTrees, tokens: Seq<Token>|
        {
            let fb = #[trigger] frame_bits(
                width as int,
                height as int,
                is_counted(color, Channel::Alpha),
                predict,
                bits,
                f,
                tokens,
            );
            &&& is_token_choice(coded, bits, tokens)
            &&& are_frame_trees(tokens, color, width as int, bits, predict, f)
            &&& byte_bits(bytes) == fb + lsb_bits(0, padding(fb.len()))
        }
}

/// Reads signature, size and alpha flag.
pub open spec fn read_header(s: Seq<bool>) -> Option<((int, int, bool), Seq<bool>)> {
    match read_field(s, 8) {
        None => None,
        Some((signature, s1)) => match read_field(s1, 14) {
            None => None,
            Some((w, s2)) => match read_field(s2, 14) {
                None => None,
                Some((h, s3)) => match read_field(s3, 1) {
                    None => None,
                    Some((alpha, s4)) => match read_field(s4, 3) {
                        None => None,
                        Some((version, s5)) => if signature == 0x2f && version == 0 {
                            Some(((w as int + 1, h as int + 1, alpha == 1), s5))
                        } else {
                            None
                        },
                    },
                },
            },
        },
    }
}

/// Reads a tree that has to hold the one given symbol.
pub open spec fn skip_single(s: Seq<bool>, alphabet: nat, symbol: nat) -> Option<Seq<bool>> {
    match read_tree(s, alphabet) {
        None => None,
        Some((tree, rest)) => if tree == PrefixTree::Single(symbol) {
            Some(rest)
        } else {
            None
        },
    }
}

/// Reads a predictor image that predicts from above everywhere.
pub open spec fn read_predictor(s: Seq<bool>) -> Option<Seq<bool>> {
    match read_field(s, 3) {
        None => None,
        Some((_, s1)) => match read_field(s1, 1) {
            None => None,
            Some((cache, s2)) => if cache != 0 {
                None
            } else {
                match skip_single(s2, 280, 2) {
                    None => None,
                    Some(s3) => match skip_single(s3, 256, 0) {
                        None => None,
                        Some(s4) => match skip_single(s4, 256, 0) {
                            None => None,
                            Some(s5) => match skip_single(s5, 256, 0) {
                                None => None,
                                Some(s6) => skip_single(s6, 40, 0),
                            },
                        },
                    },
                }
            },
        },
    }
}

/// Reads the end of the transform list.
pub open spec fn read_list_end(s: Seq<bool>, predict: bool) -> Option<(bool, Seq<bool>)> {
    match read_field(s, 1) {
        None => None,
        Some((more, rest)) => if more == 0 {
            Some((predict, rest))
        } else {
            None
        },
    }
}

/// Reads the list of transforms: whether prediction is used.
pub open spec fn read_transforms(s: Seq<bool>) -> Option<(bool, Seq<bool>)> {
    match read_field(s, 1) {
        None => None,
        Some((present, s1)) => match read_field(s1, 2) {
            None => None,
            Some((kind, s2)) => if present != 1 || kind != 2 {
                None
            } else {
                match read_field(s2, 1) {
                    None => None,
                    Some((more, s3)) => if more == 0 {
                        Some((false, s3))
                    } else {
                        match read_field(s3, 2) {
                            None => None,
                            Some((kind2, s4)) => if kind2 != 0 {
                                None
                            } else {
                                match read_predictor(s4) {
                                    None => None,
                                    Some(s5) => read_list_end(s5, true),
                                }
                            },
                        }
                    },
                }
            },
        },
    }
}

/// Reads the size of the color cache, 0 for none.
pub open spec fn read_cache_bits(s: Seq<bool>) -> Option<(u8, Seq<bool>)> {
    match read_field(s, 1) {
        None => None,
        Some((flag, s1)) => if flag == 0 {
            Some((0u8, s1))
        } else {
            match read_field(s1, 4) {
                None => None,
                Some((bits, s2)) => Some((bits as u8, s2)),
            }
        },
    }
}

pub open spec fn read_trees(s: Seq<bool>, bits: u8) -> Option<(TokenTrees, Seq<bool>)> {
    match read_tree(s, green_size(bits)) {
        None => None,
        Some((green, s1)) => match read_tree(s1, 256) {
            None => None,
            Some((red, s2)) => match read_tree(s2, 256) {
                None => None,
                Some((blue, s3)) => match read_tree(s3, 256) {
                    None => None,
                    Some((alpha, s4)) => match read_tree(s4, 40) {
                        None => None,
                        Some((dist, s5)) => Some(
                            (TokenTrees { green, red, blue, alpha, dist }, s5),
                        ),
                    },
                },
            },
        },
    }
}

/// Reads the image behind header and transforms.
pub open spec fn read_image(s: Seq<bool>, width: int, height: int, predict: bool) -> Option<
    Seq<u32>,
> {
    match read_cache_bits(s) {
        None => None,
        Some((bits, s1)) => match read_field(s1, 1) {
            None => None,
            Some((meta, s2)) => if meta != 0 {
                None
            } else {
                match read_trees(s2, bits) {
                    None => None,
                    Some((trees, s3)) => match read_pixels(
                        s3,
                        trees,
                        width,
                        (width * height) as nat,
                        Seq::empty(),
                        cache_new(bits),
                        bits,
                    ) {
                        None => None,
                        Some((coded, _)) => Some(untransformed(coded, width, predict)),
                    },
                }
            },
        },
    }
}

/// What a reader makes of a frame: width, height, alpha flag and pixels.
///
/// This is the part of the format that `encode_frame` makes use of.
pub open spec fn read_frame(bytes: Seq<u8>) -> Option<(int, int, bool, Seq<u32>)> {
    match read_header(byte_bits(bytes)) {
        None => None,
        Some(((width, height, alpha), s1)) => match read_transforms(s1) {
            None => None,
            Some((predict, s2)) => match read_image(s2, width, height, predict) {
                None => None,
                Some(pixels) => Some((width, height, alpha, pixels)),
            },
        },
    }
}

proof fn lemma_read_header(width: int, height: int, alpha: bool, rest: Seq<bool>)
    requires
        1 <= width <= 16384,
        1 <= height <= 16384,
    ensures
        read_header(header_bits(width, height, alpha) + rest) == Some(
            ((width, height, alpha), rest),
        ),
{
    lemma2_to64();
    let a = if alpha {
        1nat
    } else {
        0nat
    };
    let s4 = lsb_bits(0, 3) + rest;
    let s3 = lsb_bits(a as int, 1) + s4;
    let s2 = lsb_bits(height - 1, 14) + s3;
    let s1 = lsb_bits(width - 1, 14) + s2;
    assert(header_bits(width, height, alpha) + rest =~= lsb_bits(0x2f, 8) + s1);
    lemma_read_field(0x2f, 8, s1);
    lemma_read_field((width - 1) as nat, 14, s2);
    lemma_read_field((height - 1) as nat, 14, s3);
    lemma_read_field(a, 1, s4);
    lemma_read_field(0, 3, rest);
}

proof fn lemma_skip_single(symbol: nat, alphabet: nat, rest: Seq<bool>)
    requires
        symbol < 256,
    ensures
        skip_single(single_bits(symbol) + rest, alphabet, symbol) == Some(rest),
{
    let t = PrefixTree::Single(symbol);
    lemma_read_tree(t, t, alphabet, rest);
}

proof fn lemma_read_transforms(predict: bool, rest: Seq<bool>)
    ensures
        read_transforms(transforms_bits(predict) + rest) == Some((predict, rest)),
{
    lemma2_to64();
    let end = lsb_bits(0, 1) + rest;
    lemma_read_field(0, 1, rest);
    if predict {
        let p6 = single_bits(0) + end;
        let p5 = single_bits(0) + p6;
        let p4 = single_bits(0) + p5;
        let p3 = single_bits(0) + p4;
        let p2 = single_bits(2) + p3;
        let p1 = lsb_bits(0, 1) + p2;
        let s4 = lsb_bits(7, 3) + p1;
        let s3 = lsb_bits(0, 2) + s4;
        let s2 = lsb_bits(1, 1) + s3;
        let s1 = lsb_bits(2, 2) + s2;
        assert(transforms_bits(predict) + rest =~= lsb_bits(1, 1) + s1);
        lemma_read_field(1, 1, s1);
        lemma_read_field(2, 2, s2);
        lemma_read_field(1, 1, s3);
        lemma_read_field(0, 2, s4);
        lemma_read_field(7, 3, p1);
        lemma_read_field(0, 1, p2);
        lemma_skip_single(2, 280, p3);
        lemma_skip_single(0, 256, p4);
        lemma_skip_single(0, 256, p5);
        lemma_skip_single(0, 256, p6);
        lemma_skip_single(0, 40, end);
        assert(read_predictor(s4) == Some(end));
    } else {
        let s1 = lsb_bits(2, 2) + end;
        assert(transforms_bits(predict) + rest =~= lsb_bits(1, 1) + s1);
        lemma_read_field(1, 1, s1);
        lemma_read_field(2, 2, end);
    }
}

proof fn lemma_read_cache_bits(bits: u8, rest: Seq<bool>)
    requires
        bits <= 11,
    ensures
        read_cache_bits(cache_bits_bits(bits) + rest) == Some((bits, rest)),
{
    lemma2_to64();
    if bits == 0 {
        lemma_read_field(0, 1, rest);
    } else {
        let s1 = lsb_bits(bits as int, 4) + rest;
        assert(cache_bits_bits(bits) + rest =~= lsb_bits(1, 1) + s1);
        lemma_read_field(1, 1, s1);
        lemma_read_field(bits as nat, 4, rest);
    }
}

proof fn lemma_concat_five(
    a: Seq<bool>,
    b: Seq<bool>,
    c: Seq<bool>,
    d: Seq<bool>,
    e: Seq<bool>,
    rest: Seq<bool>,
)
    ensures
        (a + (b + (c + (d + e)))) + rest == a + (b + (c + (d + (e + rest)))),
{
    assert((a + (b + (c + (d + e)))) + rest =~= a + (b + (c + (d + (e + rest)))));
}

/// The tree can be sent and fits the alphabet.
spec fn fits_alphabet(tree: PrefixTree, meta: PrefixTree, alphabet: nat) -> bool {
    &&& is_sendable(tree, meta)
    &&& tree matches PrefixTree::Coded(lengths) ==> lengths.len() == alphabet
}

proof fn lemma_read_trees(f: FrameTrees, bits: u8, rest: Seq<bool>)
    requires
        fits_alphabet(f.trees.green, f.green_meta, green_size(bits)),
        fits_alphabet(f.trees.red, f.red_meta, 256),
        fits_alphabet(f.trees.blue, f.blue_meta, 256),
        fits_alphabet(f.trees.alpha, f.alpha_meta, 256),
        fits_alphabet(f.trees.dist, f.dist_meta, 40),
    ensures
        read_trees(trees_bits(f) + rest, bits) == Some((f.trees, rest)),
{
    let b0 = tree_bits(f.trees.green, f.green_meta);
    let b1 = tree_bits(f.trees.red, f.red_meta);
    let b2 = tree_bits(f.trees.blue, f.blue_meta);
    let b3 = tree_bits(f.trees.alpha, f.alpha_meta);
    let b4 = tree_bits(f.trees.dist, f.dist_meta);
    lemma_concat_five(b0, b1, b2, b3, b4, rest);
    lemma_read_tree(f.trees.green, f.green_meta, green_size(bits), b1 + (b2 + (b3 + (b4 + rest))));
    lemma_read_tree(f.trees.red, f.red_meta, 256, b2 + (b3 + (b4 + rest)));
    lemma_read_tree(f.trees.blue, f.blue_meta, 256, b3 + (b4 + rest));
    lemma_read_tree(f.trees.alpha, f.alpha_meta, 256, b4 + rest);
    lemma_read_tree(f.trees.dist, f.dist_meta, 40, rest);
}

/// Every literal of a token stream is a pixel of the image.
proof fn lemma_literals(tokens: Seq<Token>, pixels: Seq<u32>, bits: u8, pos: int, k: int)
    requires
        tokenizes(tokens, pixels, bits, pos),
        0 <= k < tokens.len(),
    ensures
        tokens[k] matches Token::Literal(p) ==> exists|i: int|
            0 <= i < pixels.len() && #[trigger] pixels[i] == p,
    decreases tokens.len(),
{
    let last = tokens.last();
    let p = pos - token_span(last);
    if k < tokens.len() - 1 {
        lemma_literals(tokens.drop_last(), pixels, bits, p, k);
        assert(tokens.drop_last()[k] == tokens[k]);
    } else {
        if last is Literal {
            assert(pixels[p] == last->Literal_0);
        }
    }
}

/// Every playable token is within the alphabets.
proof fn lemma_in_alphabets(tokens: Seq<Token>, bits: u8)
    requires
        all_playable(tokens, bits),
    ensures
        in_alphabets(tokens, bits),
{
    assert forall|k: int| 0 <= k < tokens.len() implies match #[trigger] tokens[k] {
        Token::Literal(_) => true,
        Token::CacheHit(i) => bits > 0 && i < pow2(bits as nat),
        Token::Copy { len, dist } => 1 <= len <= 4096 && 1 <= dist <= 1_048_456,
    } by {
        assert(is_playable(tokens[k], replay(tokens.take(k), bits).0.len() as int, bits));
    }
}

/// The trees of a frame code all of its tokens.
proof fn lemma_codes_tokens(
    data: Seq<u8>,
    n: nat,
    tokens: Seq<Token>,
    color: ColorType,
    width: int,
    bits: u8,
    predict: bool,
    f: FrameTrees,
)
    requires
        width >= 1,
        bits <= 11,
        tokens.len() < u32::MAX,
        are_frame_trees(tokens, color, width, bits, predict, f),
        in_alphabets(tokens, bits),
        tokenizes(
            tokens,
            transformed(image_argb(data, color, n), width, predict),
            bits,
            n as int,
        ),
    ensures
        forall|k: int| 0 <= k < tokens.len() ==> codes_token(f.trees, #[trigger] tokens[k], width),
        are_valid_trees(f.trees),
        unsent_are_single(color, f.trees),
{
    reveal(is_channel_tree);
    let coded = transformed(image_argb(data, color, n), width, predict);
    lemma_flat_channels(data, color, n, width, predict);
    assert forall|k: int| 0 <= k < tokens.len() implies codes_token(
        f.trees,
        #[trigger] tokens[k],
        width,
    ) by {
        let token = tokens[k];
        if let Token::Copy { len, dist } = token {
            lemma_copy_symbols(len, dist, width);
        }
        let gs = green_size(bits);
        assert(gs >= 280) by {
            lemma_pow2_pos(bits as nat);
        }
        assert(0 <= emitted(token, Channel::Green, width) < gs);
        lemma_needed_is_counted(tokens, color, Channel::Green, width, gs, k);
        if token is Copy {
            lemma_needed_is_counted(tokens, color, Channel::Dist, width, 40, k);
        }
        if let Token::Literal(p) = token {
            lemma_literals(tokens, coded, bits, n as int, k);
            let i = choose|i: int| 0 <= i < coded.len() && #[trigger] coded[i] == p;
            assert(coded[i] == p);
            if is_counted(color, Channel::Red) {
                lemma_needed_is_counted(tokens, color, Channel::Red, width, 256, k);
                lemma_needed_is_counted(tokens, color, Channel::Blue, width, 256, k);
            } else {
                assert(red_of(p) == 0 && blue_of(p) == 0);
            }
            if is_counted(color, Channel::Alpha) {
                lemma_needed_is_counted(tokens, color, Channel::Alpha, width, 256, k);
            }
        }
    }
}

proof fn lemma_trees_fit(
    tokens: Seq<Token>,
    color: ColorType,
    width: int,
    bits: u8,
    predict: bool,
    f: FrameTrees,
)
    requires
        are_frame_trees(tokens, color, width, bits, predict, f),
    ensures
        fits_alphabet(f.trees.green, f.green_meta, green_size(bits)),
        fits_alphabet(f.trees.red, f.red_meta, 256),
        fits_alphabet(f.trees.blue, f.blue_meta, 256),
        fits_alphabet(f.trees.alpha, f.alpha_meta, 256),
        fits_alphabet(f.trees.dist, f.dist_meta, 40),
{
    reveal(is_channel_tree);
}

proof fn lemma_read_image(
    width: int,
    height: int,
    predict: bool,
    bits: u8,
    f: FrameTrees,
    tokens: Seq<Token>,
    rest: Seq<bool>,
)
    requires
        bits <= 11,
        fits_alphabet(f.trees.green, f.green_meta, green_size(bits)),
        fits_alphabet(f.trees.red, f.red_meta, 256),
        fits_alphabet(f.trees.blue, f.blue_meta, 256),
        fits_alphabet(f.trees.alpha, f.alpha_meta, 256),
        fits_alphabet(f.trees.dist, f.dist_meta, 40),
        are_valid_trees(f.trees),
        all_playable(tokens, bits),
        forall|k: int| 0 <= k < tokens.len() ==> codes_token(f.trees, #[trigger] tokens[k], width),
        replay(tokens, bits).0.len() == width * height,
    ensures
        read_image(
            cache_bits_bits(bits) + (lsb_bits(0, 1) + (trees_bits(f) + (stream_bits(
                tokens,
                0,
                f.trees,
                width,
            ) + rest))),
            width,
            height,
            predict,
        ) == Some(untransformed(replay(tokens, bits).0, width, predict)),
{
    let stream = stream_bits(tokens, 0, f.trees, width) + rest;
    let s2 = trees_bits(f) + stream;
    let s1 = lsb_bits(0, 1) + s2;
    lemma2_to64();
    lemma_read_cache_bits(bits, s1);
    lemma_read_field(0, 1, s2);
    lemma_read_trees(f, bits, stream);
    assert(tokens.take(0) =~= Seq::<Token>::empty());
    lemma_read_pixels(tokens, 0, f.trees, width, bits, rest);
}

proof fn lemma_frame_layout(
    h: Seq<bool>,
    t: Seq<bool>,
    c: Seq<bool>,
    m: Seq<bool>,
    r: Seq<bool>,
    s: Seq<bool>,
    pad: Seq<bool>,
)
    ensures
        (h + (t + (c + (m + (r + s))))) + pad == h + (t + (c + (m + (r + (s + pad))))),
{
    assert((h + (t + (c + (m + (r + s))))) + pad =~= h + (t + (c + (m + (r + (s + pad))))));
}

proof fn lemma_read_frame_bits(
    bytes: Seq<u8>,
    w: int,
    h: int,
    alpha: bool,
    predict: bool,
    bits: u8,
    f: FrameTrees,
    tokens: Seq<Token>,
    pad: Seq<bool>,
)
    requires
        1 <= w <= 16384,
        1 <= h <= 16384,
        bits <= 11,
        fits_alphabet(f.trees.green, f.green_meta, green_size(bits)),
        fits_alphabet(f.trees.red, f.red_meta, 256),
        fits_alphabet(f.trees.blue, f.blue_meta, 256),
        fits_alphabet(f.trees.alpha, f.alpha_meta, 256),
        fits_alphabet(f.trees.dist, f.dist_meta, 40),
        are_valid_trees(f.trees),
        all_playable(tokens, bits),
        forall|k: int| 0 <= k < tokens.len() ==> codes_token(f.trees, #[trigger] tokens[k], w),
        replay(tokens, bits).0.len() == w * h,
        byte_bits(bytes) == frame_bits(w, h, alpha, predict, bits, f, tokens) + pad,
    ensures
        read_frame(bytes) == Some(
            (w, h, alpha, untransformed(replay(tokens, bits).0, w, predict)),
        ),
{
    let stream = stream_bits(tokens, 0, f.trees, w);
    lemma_frame_layout(
        header_bits(w, h, alpha),
        transforms_bits(predict),
        cache_bits_bits(bits),
        lsb_bits(0, 1),
        trees_bits(f),
        stream,
        pad,
    );
    let s2 = cache_bits_bits(bits) + (lsb_bits(0, 1) + (trees_bits(f) + (stream + pad)));
    let s1 = transforms_bits(predict) + s2;
    lemma_read_header(w, h, alpha, s1);
    lemma_read_transforms(predict, s2);
    lemma_read_image(w, h, predict, bits, f, tokens, pad);
    assert(byte_bits(bytes) == header_bits(w, h, alpha) + s1);
    assert(read_header(byte_bits(bytes)) == Some(((w, h, alpha), s1)));
    assert(read_transforms(s1) == Some((predict, s2)));
}

/// Reading a frame gives the image back: its size, whether it has alpha, and all pixels.
pub proof fn lemma_read_frame(
    bytes: Seq<u8>,
    data: Seq<u8>,
    width: u32,
    height: u32,
    color: ColorType,
    predict: bool,
)
    requires
        valid_dimensions(width, height),
        is_frame_of(bytes, data, width, height, color, predict),
    ensures
        read_frame(bytes) == Some(
            (
                width as int,
                height as int,
                is_counted(color, Channel::Alpha),
                image_argb(data, color, (width * height) as nat),
            ),
        ),
{
    let n = (width * height) as nat;
    let px = image_argb(data, color, n);
    let w = width as int;
    let h = height as int;
    let alpha = is_counted(color, Channel::Alpha);
    let coded = transformed(px, w, predict);
    assert(width * height <= 0x1000_0000) by (nonlinear_arith)
        requires
            width <= 16384,
            height <= 16384,
    ;
    assert(width * height >= 0) by (nonlinear_arith);
    lemma_transform_undo(px, w, predict);
    let (bits, f, tokens) = choose|bits: u8, f: FrameTrees, tokens: Seq<Token>|
        {
            let fb = #[trigger] frame_bits(w, h, alpha, predict, bits, f, tokens);
            &&& is_token_choice(coded, bits, tokens)
            &&& are_frame_trees(tokens, color, w, bits, predict, f)
            &&& byte_bits(bytes) == fb + lsb_bits(0, padding(fb.len()))
        };
    let fb = frame_bits(w, h, alpha, predict, bits, f, tokens);
    let pad = lsb_bits(0, padding(fb.len()));
    assert(tokenizes(tokens, coded, bits, n as int));
    lemma_tokens_replay(tokens, coded, bits, n as int);
    assert(coded.take(n as int) =~= coded);
    lemma_in_alphabets(tokens, bits);
    lemma_codes_tokens(data, n, tokens, color, w, bits, predict, f);
    lemma_trees_fit(tokens, color, w, bits, predict, f);
    lemma_read_frame_bits(bytes, w, h, alpha, predict, bits, f, tokens, pad);
}

/// Writes the tree of one channel and hands out its code words.
fn write_channel_tree(
    w: &mut BitWriter,
    frequencies: &Vec<u32>,
    sent: bool,
    lone_symbol: u16,
    tokens: Ghost<Seq<Token>>,
    color: Ghost<ColorType>,
    channel: Ghost<Channel>,
    width: Ghost<int>,
    bits: Ghost<u8>,
    predict: Ghost<bool>,
) -> (r: (CodeTable, Ghost<(PrefixTree, PrefixTree)>))
    requires
        old(w).wf(),
        bits@ <= 11,
        frequencies@ == token_frequencies(
            tokens@,
            color@,
            channel@,
            width@,
            alphabet_size(channel@, bits@),
        ),
        sum(freq_nats(frequencies@)) < u32::MAX,
        sent == is_counted(color@, channel@),
        !sent ==> lone_symbol == (if channel@ == Channel::Alpha && !predict@ {
            255u16
        } else {
            0u16
        }),
    ensures
        final(w).wf(),
        final(w)@ == old(w)@ + tree_bits(r.1@.0, r.1@.1),
        is_channel_tree(
            tokens@,
            color@,
            channel@,
            width@,
            bits@,
            predict@,
            r.1@.0,
            r.1@.1,
        ),
        r.0.matches_tree(r.1@.0, alphabet_size(channel@, bits@)),
{
    let n: usize = frequencies.len();
    let mut lengths: Vec<u8> = vec![0; n];
    let mut codes: Vec<u16> = vec![0; n];
    let ghost before = w@;
    proof {
        lemma2_to64();
        if bits@ > 0 {
            lemma_pow2_mono(bits@ as nat, 11);
        }
        reveal(is_channel_tree);
    }
    if sent {
        write_huffman_tree(w, frequencies.as_slice(), &mut lengths, &mut codes);
        let ghost tree = sent_tree(frequencies@, lengths@);
        let ghost meta = choose|meta: PrefixTree|
            {
                &&& #[trigger] is_sendable(tree, meta)
                &&& tree is Coded ==> is_meta_for(lens_of(lengths@), meta)
                &&& w@ == before + tree_bits(tree, meta)
            };
        (CodeTable { lengths, codes }, Ghost((tree, meta)))
    } else {
        write_single_entry_huffman_tree(w, lone_symbol);
        let ghost tree = PrefixTree::Single(lone_symbol as nat);
        assert(lsb_bits(0, 0) =~= Seq::<bool>::empty());
        (CodeTable { lengths, codes }, Ghost((tree, tree)))
    }
}

fn write_header(w: &mut BitWriter, width: u32, height: u32, is_alpha: bool)
    requires
        old(w).wf(),
        valid_dimensions(width, height),
    ensures
        final(w).wf(),
        final(w)@ == old(w)@ + header_bits(width as int, height as int, is_alpha),
{
    proof {
        lemma2_to64();
    }
    let ghost start = w@;
    w.write_bits(0x2f, 8);
    w.write_bits(width as u64 - 1, 14);
    w.write_bits(height as u64 - 1, 14);
    w.write_bits(if is_alpha { 1 } else { 0 }, 1);
    w.write_bits(0, 3);
    assert(w@ =~= start + header_bits(width as int, height as int, is_alpha));
}

fn write_predictor(w: &mut BitWriter)
    requires
        old(w).wf(),
    ensures
        final(w).wf(),
        final(w)@ == old(w)@ + predictor_bits(),
{
    proof {
        lemma2_to64();
    }
    let ghost start = w@;
    w.write_bits(1, 1);
    w.write_bits(0, 2);
    w.write_bits(7, 3);
    w.write_bits(0, 1);
    let ghost a = w@;
    assert(a =~= start + (lsb_bits(1, 1) + (lsb_bits(0, 2) + (lsb_bits(7, 3) + lsb_bits(0, 1)))));
    write_single_entry_huffman_tree(w, 2);
    write_single_entry_huffman_tree(w, 0);
    write_single_entry_huffman_tree(w, 0);
    write_single_entry_huffman_tree(w, 0);
    write_single_entry_huffman_tree(w, 0);
    proof {
        let s2 = single_bits(2);
        let s0 = single_bits(0);
        lemma_join_five(a, s2, s0, s0, s0, s0);
        lemma_join_predictor(
            start,
            lsb_bits(1, 1),
            lsb_bits(0, 2),
            lsb_bits(7, 3),
            lsb_bits(0, 1),
            s2 + (s0 + (s0 + (s0 + s0))),
        );
    }
}

proof fn lemma_join_predictor(
    start: Seq<bool>,
    a: Seq<bool>,
    b: Seq<bool>,
    c: Seq<bool>,
    d: Seq<bool>,
    e: Seq<bool>,
)
    ensures
        (start + (a + (b + (c + d)))) + e == start + (a + (b + (c + (d + e)))),
{
    assert((start + (a + (b + (c + d)))) + e =~= start + (a + (b + (c + (d + e)))));
}

/// Writes everything before the trees: header, transforms and cache size.
fn write_frame_start(
    w: &mut BitWriter,
    width: u32,
    height: u32,
    is_alpha: bool,
    predict: bool,
    cache_bits: Option<u8>,
)
    requires
        old(w).wf(),
        valid_dimensions(width, height),
        cache_bits matches Some(b) ==> 1 <= b <= 11,
    ensures
        final(w).wf(),
        final(w)@ == old(w)@ + (header_bits(width as int, height as int, is_alpha) + (
        transforms_bits(predict) + (cache_bits_bits(bits_of(cache_bits)) + lsb_bits(0, 1)))),
{
    proof {
        lemma2_to64();
    }
    let ghost start = w@;
    write_header(w, width, height, is_alpha);
    let ghost after_header = w@;
    w.write_bits(1, 1);
    w.write_bits(2, 2);
    let ghost list = w@;
    if predict {
        write_predictor(w);
    }
    w.write_bits(0, 1);
    let ghost after_transforms = w@;
    proof {
        let a = lsb_bits(1, 1);
        let b = lsb_bits(2, 2);
        let e = lsb_bits(0, 1);
        if predict {
            lemma_join_four(after_header, a, b, predictor_bits(), e);
        } else {
            lemma_join_four(after_header, a, b, Seq::empty(), e);
            assert(Seq::<bool>::empty() + e =~= e);
            assert(((after_header + a) + b) + Seq::<bool>::empty() =~= (after_header + a) + b);
        }
        assert(after_transforms == after_header + transforms_bits(predict));
    }
    match cache_bits {
        Some(b) => {
            w.write_bits(1, 1);
            w.write_bits(b as u64, 4);
        },
        None => {
            w.write_bits(0, 1);
        },
    }
    let ghost c = cache_bits_bits(bits_of(cache_bits));
    assert(w@ =~= after_transforms + c);
    w.write_bits(0, 1);
    proof {
        lemma_join_four(
            start,
            header_bits(width as int, height as int, is_alpha),
            transforms_bits(predict),
            c,
            lsb_bits(0, 1),
        );
    }
}

/// Chooses the tokens for the pixels and the size of the color cache.
fn choose_tokens(coded: &Vec<u32>) -> (r: (Vec<Token>, Option<u8>))
    requires
        coded@.len() <= 0x1000_0000,
    ensures
        r.1 matches Some(b) ==> 8 <= b <= 10,
        is_token_choice(coded@, bits_of(r.1), r.0@),
        tokenizes(r.0@, coded@, bits_of(r.1), coded@.len() as int),
        in_alphabets(r.0@, bits_of(r.1)),
        r.0@.len() <= coded@.len(),
{
    let suggested: u8 = choose_cache_bits(coded.len());
    let (first, cache_hits) = tokenize_pixels(coded.as_slice(), Some(suggested));
    assert(tokenizes(
        first@,
        coded@,
        suggested_bits(coded@.len() as int),
        coded@.len() as int,
    ));
    if cache_hits == 0 {
        let (tokens, _hits) = tokenize_pixels(coded.as_slice(), None);
        proof {
            lemma_in_alphabets(tokens@, 0);
        }
        (tokens, None)
    } else {
        proof {
            lemma_in_alphabets(first@, suggested);
        }
        (first, Some(suggested))
    }
}

/// Writes the trees of all channels and hands out their code words.
fn write_trees(
    w: &mut BitWriter,
    tokens: &Vec<Token>,
    width: u32,
    color: ColorType,
    predict: bool,
    cache_bits: Option<u8>,
) -> (r: (TokenTables, Ghost<FrameTrees>))
    requires
        old(w).wf(),
        cache_bits matches Some(b) ==> 8 <= b <= 10,
        width <= 0x0fff_ffff,
        tokens@.len() <= 0x1000_0000,
        in_alphabets(tokens@, bits_of(cache_bits)),
    ensures
        final(w).wf(),
        final(w)@ == old(w)@ + trees_bits(r.1@),
        are_frame_trees(tokens@, color, width as int, bits_of(cache_bits), predict, r.1@),
        tables_match(r.0, r.1@.trees, bits_of(cache_bits)),
{
    let ghost bits = bits_of(cache_bits);
    let ghost wd = width as int;
    let ghost start = w@;
    let (is_color, is_alpha): (bool, bool) = match color {
        ColorType::L8 => (false, false),
        ColorType::La8 => (false, true),
        ColorType::Rgb8 => (true, false),
        ColorType::Rgba8 => (true, true),
    };
    proof {
        lemma2_to64();
        if bits > 0 {
            lemma_pow2_mono(bits as nat, 11);
        }
    }
    let green_alphabet_size: usize = match cache_bits {
        Some(b) => 280 + pow2_u64(b) as usize,
        None => 280,
    };
    let f = count_token_frequencies(tokens, color, width, green_alphabet_size, Ghost(bits));
    let (green, Ghost(gt)) = write_channel_tree(
        w,
        &f.green,
        true,
        0,
        Ghost(tokens@),
        Ghost(color),
        Ghost(Channel::Green),
        Ghost(wd),
        Ghost(bits),
        Ghost(predict),
    );
    let (red, Ghost(rt)) = write_channel_tree(
        w,
        &f.red,
        is_color,
        0,
        Ghost(tokens@),
        Ghost(color),
        Ghost(Channel::Red),
        Ghost(wd),
        Ghost(bits),
        Ghost(predict),
    );
    let (blue, Ghost(bt)) = write_channel_tree(
        w,
        &f.blue,
        is_color,
        0,
        Ghost(tokens@),
        Ghost(color),
        Ghost(Channel::Blue),
        Ghost(wd),
        Ghost(bits),
        Ghost(predict),
    );
    let opaque_symbol: u16 = if predict {
        0
    } else {
        255
    };
    let (alpha, Ghost(at)) = write_channel_tree(
        w,
        &f.alpha,
        is_alpha,
        opaque_symbol,
        Ghost(tokens@),
        Ghost(color),
        Ghost(Channel::Alpha),
        Ghost(wd),
        Ghost(bits),
        Ghost(predict),
    );
    let (dist, Ghost(dt)) = write_channel_tree(
        w,
        &f.dist,
        true,
        0,
        Ghost(tokens@),
        Ghost(color),
        Ghost(Channel::Dist),
        Ghost(wd),
        Ghost(bits),
        Ghost(predict),
    );
    let ghost trees = TokenTrees { green: gt.0, red: rt.0, blue: bt.0, alpha: at.0, dist: dt.0 };
    let ghost ft = FrameTrees {
        trees,
        green_meta: gt.1,
        red_meta: rt.1,
        blue_meta: bt.1,
        alpha_meta: at.1,
        dist_meta: dt.1,
    };
    proof {
        lemma_join_five(
            start,
            tree_bits(gt.0, gt.1),
            tree_bits(rt.0, rt.1),
            tree_bits(bt.0, bt.1),
            tree_bits(at.0, at.1),
            tree_bits(dt.0, dt.1),
        );
    }
    (TokenTables { green, red, blue, alpha, dist }, Ghost(ft))
}

/// Encodes image data with the indicated color type as one frame.
///
/// A reader of the frame gets exactly the image back.
pub fn encode_frame(
    data: &[u8],
    width: u32,
    height: u32,
    color: ColorType,
    params: EncoderParams,
) -> (r: Result<Vec<u8>, EncodingError>)
    requires
        data@.len() == input_len(color, width * height),
    ensures
        match r {
            Ok(frame) => {
                &&& valid_dimensions(width, height)
                &&& is_frame_of(
                    frame@,
                    data@,
                    width,
                    height,
                    color,
                    params.use_predictor_transform,
                )
                &&& read_frame(frame@) == Some(
                    (
                        width as int,
                        height as int,
                        color == ColorType::La8 || color == ColorType::Rgba8,
                        image_argb(data@, color, (width * height) as nat),
                    ),
                )
            },
            Err(e) => e == EncodingError::InvalidDimensions && !valid_dimensions(width, height),
        },
{
    if width == 0 || width > MAX_DIMENSION || height == 0 || height > MAX_DIMENSION {
        return Err(EncodingError::InvalidDimensions);
    }
    assert(0 < width * height <= 0x1000_0000) by (nonlinear_arith)
        requires
            1 <= width <= 16384,
            1 <= height <= 16384,
    ;
    let is_alpha: bool = color == ColorType::La8 || color == ColorType::Rgba8;
    let predict: bool = params.use_predictor_transform;
    let num_pixels: usize = (width as u64 * height as u64) as usize;
    let coded: Vec<u32> = transform_pixels(data, width, num_pixels, color, predict);
    let ghost wd = width as int;
    let ghost n = (width * height) as nat;
    let (tokens, cache_bits) = choose_tokens(&coded);
    let ghost bits = bits_of(cache_bits);
    let mut w = BitWriter::new(Vec::new());
    assert(w@ =~= Seq::<bool>::empty());
    write_frame_start(&mut w, width, height, is_alpha, predict, cache_bits);
    let (tables, Ghost(ft)) = write_trees(&mut w, &tokens, width, color, predict, cache_bits);
    proof {
        lemma_codes_tokens(data@, n, tokens@, color, wd, bits, predict, ft);
    }
    write_tokens(&mut w, &tokens, color, width, &tables, Ghost(ft.trees), Ghost(bits));
    let ghost written = w@;
    w.flush();
    proof {
        let alpha = is_counted(color, Channel::Alpha);
        lemma_join_frame(
            header_bits(wd, height as int, is_alpha),
            transforms_bits(predict),
            cache_bits_bits(bits),
            lsb_bits(0, 1),
            trees_bits(ft),
            stream_bits(tokens@, 0, ft.trees, wd),
        );
        assert(written == frame_bits(wd, height as int, alpha, predict, bits, ft, tokens@));
        assert(is_frame_of(w.writer@, data@, width, height, color, predict));
        lemma_read_frame(w.writer@, data@, width, height, color, predict);
    }
    Ok(w.writer)
}

proof fn lemma_join_frame(
    h: Seq<bool>,
    t: Seq<bool>,
    c: Seq<bool>,
    m: Seq<bool>,
    r: Seq<bool>,
    s: Seq<bool>,
)
    ensures
        ((Seq::<bool>::empty() + (h + (t + (c + m)))) + r) + s == h + (t + (c + (m + (r + s)))),
{
    assert(((Seq::<bool>::empty() + (h + (t + (c + m)))) + r) + s =~= h + (t + (c + (m + (r
        + s)))));
}

} // verus!
