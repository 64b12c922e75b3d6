//! Backward references: pixels as literals, color cache hits and copies.
use crate::math::{lemma_pow2_mono, pow2_u64};
use vstd::arithmetic::power2::{lemma2_to64, lemma2_to64_rest, lemma_pow2_adds, lemma_pow2_pos, pow2};
use vstd::bits::lemma_u32_shr_is_div;
use vstd::prelude::*;

verus! {

pub const HASH_SIZE: usize = 262144;

pub const MAX_MATCH_LEN: usize = 4096;

pub const MAX_CHAIN_DEPTH: usize = 32;

pub const MAX_BACKWARD_DISTANCE: usize = 1_048_456;

/// A step of the pixel stream.
#[derive(Clone, Copy, Debug, PartialEq, Eq, Structural)]
pub enum Token {
    /// One pixel, given in full.
    Literal(u32),
    /// One pixel, taken from the color cache.
    CacheHit(u16),
    /// `len` pixels, each equal to the one `dist` places before it.
    Copy { len: u16, dist: u32 },
}

/// Place of a color in a cache of `2^bits` entries.
pub open spec fn cache_index(argb: u32, bits: u8) -> int {
    (argb.wrapping_mul(0x1e35a7bd) >> ((32 - bits) as u32)) as int
}

/// The cache after `argb` went through it. With `bits == 0` there is no cache.
pub open spec fn cache_insert(table: Seq<u32>, bits: u8, argb: u32) -> Seq<u32> {
    if bits == 0 {
        table
    } else {
        table.update(cache_index(argb, bits), argb)
    }
}

/// The cache after the pixels from `from` to `to` went through it.
pub open spec fn cache_insert_range(
    table: Seq<u32>,
    bits: u8,
    pixels: Seq<u32>,
    from: int,
    to: int,
) -> Seq<u32>
    decreases to - from,
{
    if from < to {
        cache_insert(
            cache_insert_range(table, bits, pixels, from, to - 1),
            bits,
            pixels[to - 1],
        )
    } else {
        table
    }
}

/// The empty cache.
pub open spec fn cache_new(bits: u8) -> Seq<u32> {
    if bits == 0 {
        Seq::empty()
    } else {
        Seq::new(pow2(bits as nat), |i: int| 0u32)
    }
}

/// Copies `len` pixels from `dist` places back.
pub open spec fn replay_copy(
    out: Seq<u32>,
    table: Seq<u32>,
    bits: u8,
    len: nat,
    dist: int,
) -> (Seq<u32>, Seq<u32>)
    decreases len,
{
    if len == 0 {
        (out, table)
    } else {
        let (o, t) = replay_copy(out, table, bits, (len - 1) as nat, dist);
        let p = o[o.len() - dist];
        (o.push(p), cache_insert(t, bits, p))
    }
}

/// What a reader does with one token: the pixels so far and the cache.
pub open spec fn replay_token(
    token: Token,
    out: Seq<u32>,
    table: Seq<u32>,
    bits: u8,
) -> (Seq<u32>, Seq<u32>) {
    match token {
        Token::Literal(p) => (out.push(p), cache_insert(table, bits, p)),
        Token::CacheHit(i) => (
            out.push(table[i as int]),
            cache_insert(table, bits, table[i as int]),
        ),
        Token::Copy { len, dist } => replay_copy(out, table, bits, len as nat, dist as int),
    }
}

/// What a reader makes of a token stream.
pub open spec fn replay(tokens: Seq<Token>, bits: u8) -> (Seq<u32>, Seq<u32>)
    decreases tokens.len(),
{
    if tokens.len() == 0 {
        (Seq::empty(), cache_new(bits))
    } else {
        let (out, table) = replay(tokens.drop_last(), bits);
        replay_token(tokens.last(), out, table, bits)
    }
}

/// The token can be read where `out` pixels have gone before.
pub open spec fn is_playable(token: Token, n_out: int, bits: u8) -> bool {
    match token {
        Token::Literal(_) => true,
        Token::CacheHit(i) => bits > 0 && i < pow2(bits as nat),
        Token::Copy { len, dist } => 1 <= len <= MAX_MATCH_LEN && 1 <= dist <= n_out && dist
            <= MAX_BACKWARD_DISTANCE,
    }
}

pub open spec fn pixel_hash_spec(pixel: u32) -> int {
    (pixel.wrapping_mul(0x1e35a7bd) % 262144) as int
}

/// The last position up to `q` whose pixel has hash `h`, -1 if there is none.
pub open spec fn last_with_hash(pixels: Seq<u32>, h: int, q: int) -> int
    decreases q + 1,
{
    if q < 0 {
        -1
    } else if pixel_hash_spec(pixels[q]) == h {
        q
    } else {
        last_with_hash(pixels, h, q - 1)
    }
}

/// The last earlier position whose pixel has the same hash, -1 if there is none.
pub open spec fn chain_link(pixels: Seq<u32>, pos: int) -> int {
    last_with_hash(pixels, pixel_hash_spec(pixels[pos]), pos - 1)
}

/// Number of pixels from `n` to `max` on in which `a` and `b` agree.
pub open spec fn run_length(pixels: Seq<u32>, a: int, b: int, n: nat, max: nat) -> nat
    decreases max - n,
{
    if n < max && pixels[a + n] == pixels[b + n] {
        run_length(pixels, a, b, n + 1, max)
    } else {
        n
    }
}

pub open spec fn max_match(pixels: Seq<u32>, pos: int) -> nat {
    if pixels.len() - pos < 4096 {
        (pixels.len() - pos) as nat
    } else {
        4096
    }
}

/// The best `(length, distance)` among the candidates from `candidate` on.
///
/// Of equal lengths the smaller distance is better; the search ends at a match of
/// the greatest possible length, too far back, or after a fixed number of candidates.
pub open spec fn search(
    pixels: Seq<u32>,
    pos: int,
    candidate: int,
    depth: nat,
    best: (nat, nat),
) -> (nat, nat)
    decreases 32 - depth,
{
    if candidate < 0 || depth >= 32 || pos - candidate > MAX_BACKWARD_DISTANCE {
        best
    } else {
        let len = run_length(pixels, candidate, pos, 0, max_match(pixels, pos));
        let dist = (pos - candidate) as nat;
        if len > best.0 || (len == best.0 && dist < best.1) {
            if len == max_match(pixels, pos) {
                (len, dist)
            } else {
                search(pixels, pos, chain_link(pixels, candidate), depth + 1, (len, dist))
            }
        } else {
            search(pixels, pos, chain_link(pixels, candidate), depth + 1, best)
        }
    }
}

/// The match that is used at `pos`, if one of at least two pixels is found.
pub open spec fn longest_match(pixels: Seq<u32>, pos: int) -> Option<(nat, nat)> {
    if pos + 1 >= pixels.len() {
        None
    } else {
        let best = search(pixels, pos, chain_link(pixels, pos), 0, (0, 0));
        if best.0 >= 2 {
            Some(best)
        } else {
            None
        }
    }
}

pub open spec fn should_use_copy_spec(len: int, dist: int, cache_hit: bool) -> bool {
    len >= 4 || (len == 3 && (!cache_hit || dist <= 128)) || (len == 2 && dist <= 16 && !cache_hit)
}

/// The cache holds the color of the pixel.
pub open spec fn in_cache(table: Seq<u32>, bits: u8, argb: u32) -> bool {
    bits > 0 && table[cache_index(argb, bits)] == argb
}

/// Whether the match at `pos` is taken: it pays off and the next position has none
/// that is better by more than one pixel.
pub open spec fn takes_copy(
    pixels: Seq<u32>,
    pos: int,
    table: Seq<u32>,
    bits: u8,
    len: int,
    dist: int,
) -> bool {
    let skip = pos + 1 < pixels.len() && match longest_match(pixels, pos + 1) {
        Some((next_len, next_dist)) => should_use_copy_spec(
            next_len as int,
            next_dist as int,
            in_cache(table, bits, pixels[pos + 1]),
        ) && next_len > len + 1,
        None => false,
    };
    !skip && should_use_copy_spec(len, dist, in_cache(table, bits, pixels[pos]))
}

/// The token that stands for the pixels from `pos` on.
pub open spec fn token_at(pixels: Seq<u32>, pos: int, table: Seq<u32>, bits: u8) -> Token {
    let single = if in_cache(table, bits, pixels[pos]) {
        Token::CacheHit(cache_index(pixels[pos], bits) as u16)
    } else {
        Token::Literal(pixels[pos])
    };
    match longest_match(pixels, pos) {
        Some((len, dist)) => if takes_copy(pixels, pos, table, bits, len as int, dist as int) {
            Token::Copy { len: len as u16, dist: dist as u32 }
        } else {
            single
        },
        None => single,
    }
}

/// Number of pixels that a token stands for.
pub open spec fn token_span(token: Token) -> nat {
    match token {
        Token::Copy { len, .. } => len as nat,
        _ => 1,
    }
}

/// Every token is the one chosen at its position, and together they cover the pixels
/// up to `pos`.
pub open spec fn tokenizes(tokens: Seq<Token>, pixels: Seq<u32>, bits: u8, pos: int) -> bool
    decreases tokens.len(),
{
    if tokens.len() == 0 {
        pos == 0
    } else {
        let token = tokens.last();
        let p = pos - token_span(token);
        &&& 0 <= p < pixels.len()
        &&& token == token_at(
            pixels,
            p,
            cache_insert_range(cache_new(bits), bits, pixels, 0, p),
            bits,
        )
        &&& tokenizes(tokens.drop_last(), pixels, bits, p)
    }
}

/// Number of cache hits among the tokens.
pub open spec fn hit_count(tokens: Seq<Token>) -> nat
    decreases tokens.len(),
{
    if tokens.len() == 0 {
        0
    } else {
        hit_count(tokens.drop_last()) + if tokens.last() is CacheHit {
            1nat
        } else {
            0nat
        }
    }
}

/// Recently used colors, found by their hash.
pub struct ColorCache {
    pub table: Vec<u32>,
    pub bits: u8,
}

proof fn lemma_cache_index(argb: u32, bits: u8)
    requires
        1 <= bits <= 11,
    ensures
        0 <= cache_index(argb, bits) < pow2(bits as nat),
{
    let h: u32 = argb.wrapping_mul(0x1e35a7bd);
    let s: u32 = (32 - bits) as u32;
    lemma_u32_shr_is_div(h, s);
    lemma2_to64();
    lemma2_to64_rest();
    lemma_pow2_adds(s as nat, bits as nat);
    lemma_pow2_pos(s as nat);
    let a = pow2(s as nat) as int;
    let b = pow2(bits as nat) as int;
    let x = h as int;
    assert(x / a < b) by (nonlinear_arith)
        requires
            0 <= x < a * b,
            a > 0,
    ;
}

impl ColorCache {
    pub open spec fn wf(&self) -> bool {
        &&& 1 <= self.bits <= 11
        &&& self.table@.len() == pow2(self.bits as nat)
    }

    pub fn new(bits: u8) -> (r: Self)
        requires
            1 <= bits <= 11,
        ensures
            r.wf(),
            r.bits == bits,
            r.table@ == cache_new(bits),
    {
        proof {
            lemma2_to64();
            lemma_pow2_mono(bits as nat, 11);
        }
        let n: usize = pow2_u64(bits) as usize;
        let table: Vec<u32> = vec![0; n];
        let r = ColorCache { table, bits };
        assert(r.table@ =~= cache_new(bits));
        r
    }

    fn hash(&self, argb: u32) -> (r: usize)
        requires
            self.wf(),
        ensures
            r == cache_index(argb, self.bits),
            r < self.table@.len(),
    {
        proof {
            lemma_cache_index(argb, self.bits);
        }
        (argb.wrapping_mul(0x1e35a7bd) >> ((32 - self.bits) as u32)) as usize
    }

    /// Where the color stands in the cache, if it does.
    pub fn lookup(&self, argb: u32) -> (r: Option<u16>)
        requires
            self.wf(),
        ensures
            r == if in_cache(self.table@, self.bits, argb) {
                Some(cache_index(argb, self.bits) as u16)
            } else {
                None
            },
    {
        let idx: usize = self.hash(argb);
        proof {
            lemma2_to64();
            lemma_pow2_mono(self.bits as nat, 11);
        }
        if self.table[idx] == argb {
            Some(idx as u16)
        } else {
            None
        }
    }

    /// Puts a color into its place.
    pub fn insert(&mut self, argb: u32)
        requires
            old(self).wf(),
        ensures
            final(self).wf(),
            final(self).bits == old(self).bits,
            final(self).table@ == cache_insert(old(self).table@, old(self).bits, argb),
    {
        let idx: usize = self.hash(argb);
        self.table.set(idx, argb);
    }
}

fn pixel_hash(pixel: u32) -> (r: usize)
    ensures
        r == pixel_hash_spec(pixel),
        r < HASH_SIZE,
{
    (pixel.wrapping_mul(0x1e35a7bd) % 262144) as usize
}

/// For every position, the last earlier one whose pixel has the same hash.
pub struct HashChain {
    pub chain: Vec<i32>,
}

proof fn lemma_last_with_hash(pixels: Seq<u32>, h: int, q: int)
    requires
        q < pixels.len(),
    ensures
        -1 <= last_with_hash(pixels, h, q),
        q >= -1 ==> last_with_hash(pixels, h, q) <= q,
    decreases q + 1,
{
    if q >= 0 && pixel_hash_spec(pixels[q]) != h {
        lemma_last_with_hash(pixels, h, q - 1);
    }
}

impl HashChain {
    pub open spec fn links(&self, pixels: Seq<u32>) -> bool {
        &&& self.chain@.len() == pixels.len()
        &&& forall|p: int|
            0 <= p < pixels.len() ==> #[trigger] self.chain@[p] == chain_link(pixels, p)
    }

    pub fn build(pixels: &[u32]) -> (r: Self)
        requires
            pixels@.len() <= i32::MAX,
        ensures
            r.links(pixels@),
    {
        let mut chain: Vec<i32> = Vec::new();
        let mut head: Vec<i32> = vec![-1; HASH_SIZE];
        let mut pos: usize = 0;
        while pos < pixels.len()
            invariant
                pos <= pixels@.len() <= i32::MAX,
                chain@.len() == pos,
                head@.len() == HASH_SIZE,
                forall|h: int|
                    0 <= h < HASH_SIZE ==> #[trigger] head@[h] == last_with_hash(
                        pixels@,
                        h,
                        pos - 1,
                    ),
                forall|p: int| 0 <= p < pos ==> #[trigger] chain@[p] == chain_link(pixels@, p),
            decreases pixels@.len() - pos,
        {
            let hash: usize = pixel_hash(pixels[pos]);
            chain.push(head[hash]);
            head.set(hash, pos as i32);
            pos = pos + 1;
        }
        HashChain { chain }
    }
}

proof fn lemma_run_length(pixels: Seq<u32>, a: int, b: int, n: nat, max: nat)
    requires
        n <= max,
    ensures
        n <= run_length(pixels, a, b, n, max) <= max,
        forall|k: int|
            n <= k < run_length(pixels, a, b, n, max) ==> #[trigger] pixels[a + k] == pixels[b + k],
    decreases max - n,
{
    if n < max && pixels[a + n] == pixels[b + n] {
        lemma_run_length(pixels, a, b, n + 1, max);
    }
}

/// `len` pixels at `pos` repeat those `dist` places before.
pub open spec fn is_match(pixels: Seq<u32>, pos: int, len: int, dist: int) -> bool {
    &&& 1 <= dist <= pos
    &&& dist <= MAX_BACKWARD_DISTANCE
    &&& 0 <= len <= 4096
    &&& pos + len <= pixels.len()
    &&& forall|k: int| 0 <= k < len ==> #[trigger] pixels[pos - dist + k] == pixels[pos + k]
}

pub fn find_longest_match(pixels: &[u32], chain: &HashChain, pos: usize) -> (r: Option<
    (usize, usize),
>)
    requires
        chain.links(pixels@),
        pixels@.len() <= i32::MAX,
        pos < pixels@.len(),
    ensures
        r matches Some((len, dist)) ==> longest_match(pixels@, pos as int) == Some(
            (len as nat, dist as nat),
        ),
        r is None ==> longest_match(pixels@, pos as int) is None,
        r matches Some((len, dist)) ==> len >= 2 && is_match(
            pixels@,
            pos as int,
            len as int,
            dist as int,
        ),
{
    if pos + 1 >= pixels.len() {
        return None;
    }
    let rest: usize = pixels.len() - pos;
    let max_len: usize = if rest < MAX_MATCH_LEN {
        rest
    } else {
        MAX_MATCH_LEN
    };
    let mut best_len: usize = 0;
    let mut best_dist: usize = 0;
    let mut depth: usize = 0;
    let mut candidate_index: i32 = chain.chain[pos];
    let ghost goal = search(pixels@, pos as int, chain_link(pixels@, pos as int), 0, (0, 0));
    let mut done: bool = false;
    proof {
        lemma_last_with_hash(pixels@, pixel_hash_spec(pixels@[pos as int]), pos - 1);
    }
    while candidate_index >= 0 && depth < MAX_CHAIN_DEPTH && !done
        invariant
            chain.links(pixels@),
            pixels@.len() <= i32::MAX,
            pos + 1 < pixels@.len(),
            max_len == max_match(pixels@, pos as int),
            pos + max_len <= pixels@.len(),
            candidate_index < pos,
            depth <= 32,
            best_len > 0 ==> is_match(pixels@, pos as int, best_len as int, best_dist as int),
            !done ==> goal == search(
                pixels@,
                pos as int,
                candidate_index as int,
                depth as nat,
                (best_len as nat, best_dist as nat),
            ),
            done ==> goal == (best_len as nat, best_dist as nat),
        decreases 32 - depth, (if done { 0int } else { 1int }),
    {
        let candidate: usize = candidate_index as usize;
        let dist: usize = pos - candidate;
        if dist > MAX_BACKWARD_DISTANCE {
            done = true;
        } else {
            let mut len: usize = 0;
            while len < max_len && pixels[candidate + len] == pixels[pos + len]
                invariant
                    len <= max_len,
                    candidate < pos,
                    pixels@.len() <= i32::MAX,
                    pos + max_len <= pixels@.len(),
                    run_length(pixels@, candidate as int, pos as int, 0, max_len as nat)
                        == run_length(
                        pixels@,
                        candidate as int,
                        pos as int,
                        len as nat,
                        max_len as nat,
                    ),
                decreases max_len - len,
            {
                len = len + 1;
            }
            proof {
                lemma_run_length(pixels@, candidate as int, pos as int, 0, max_len as nat);
                assert(len == run_length(
                    pixels@,
                    candidate as int,
                    pos as int,
                    0,
                    max_len as nat,
                ));
                assert(is_match(pixels@, pos as int, len as int, dist as int)) by {
                    assert(pos - dist == candidate);
                }
            }
            if len > best_len || (len == best_len && dist < best_dist) {
                best_len = len;
                best_dist = dist;
                if best_len == max_len {
                    done = true;
                }
            }
            if !done {
                proof {
                    lemma_last_with_hash(
                        pixels@,
                        pixel_hash_spec(pixels@[candidate as int]),
                        candidate - 1,
                    );
                }
                candidate_index = chain.chain[candidate];
                depth = depth + 1;
            }
        }
    }
    if best_len >= 2 {
        Some((best_len, best_dist))
    } else {
        None
    }
}

pub fn should_use_copy(len: usize, dist: usize, cache_hit: bool) -> (r: bool)
    ensures
        r == should_use_copy_spec(len as int, dist as int, cache_hit),
{
    len >= 4 || (len == 3 && (!cache_hit || dist <= 128)) || (len == 2 && dist <= 16 && !cache_hit)
}

/// Bits of the color cache for an image of so many pixels.
pub open spec fn cache_bits_for(num_pixels: int) -> int {
    if num_pixels >= 262144 {
        10
    } else if num_pixels >= 16384 {
        9
    } else {
        8
    }
}

/// Size of the color cache for an image of so many pixels.
pub fn choose_cache_bits(num_pixels: usize) -> (r: u8)
    ensures
        r == cache_bits_for(num_pixels as int),
{
    if num_pixels >= 262144 {
        10
    } else if num_pixels >= 16384 {
        9
    } else {
        8
    }
}

/// The cache, if there is one, has `bits` and holds `table`.
spec fn cache_is(cache: Option<ColorCache>, bits: u8, table: Seq<u32>) -> bool {
    match cache {
        Some(c) => bits > 0 && c.wf() && c.bits == bits && c.table@ == table,
        None => bits == 0 && table == Seq::<u32>::empty(),
    }
}

pub open spec fn bits_of(cache_bits: Option<u8>) -> u8 {
    match cache_bits {
        Some(b) => b,
        None => 0,
    }
}

/// Every token can be read where it stands.
pub open spec fn all_playable(tokens: Seq<Token>, bits: u8) -> bool {
    forall|k: int|
        0 <= k < tokens.len() ==> #[trigger] is_playable(
            tokens[k],
            replay(tokens.take(k), bits).0.len() as int,
            bits,
        )
}

fn lookup_in(cache: &Option<ColorCache>, argb: u32, bits: Ghost<u8>, table: Ghost<Seq<u32>>) -> (r:
    Option<u16>)
    requires
        cache_is(*cache, bits@, table@),
    ensures
        r == if in_cache(table@, bits@, argb) {
            Some(cache_index(argb, bits@) as u16)
        } else {
            None
        },
{
    match cache {
        Some(c) => c.lookup(argb),
        None => None,
    }
}

impl ColorCache {
    fn insert_range(&mut self, pixels: &[u32], from: usize, to: usize)
        requires
            old(self).wf(),
            from <= to <= pixels@.len(),
        ensures
            final(self).wf(),
            final(self).bits == old(self).bits,
            final(self).table@ == cache_insert_range(
                old(self).table@,
                old(self).bits,
                pixels@,
                from as int,
                to as int,
            ),
    {
        let mut i: usize = from;
        while i < to
            invariant
                from <= i <= to <= pixels@.len(),
                self.wf(),
                self.bits == old(self).bits,
                self.table@ == cache_insert_range(
                    old(self).table@,
                    old(self).bits,
                    pixels@,
                    from as int,
                    i as int,
                ),
            decreases to - i,
        {
            self.insert(pixels[i]);
            i = i + 1;
        }
    }
}

proof fn lemma_insert_range_split(
    table: Seq<u32>,
    bits: u8,
    pixels: Seq<u32>,
    a: int,
    b: int,
    c: int,
)
    requires
        a <= b <= c,
    ensures
        cache_insert_range(cache_insert_range(table, bits, pixels, a, b), bits, pixels, b, c)
            == cache_insert_range(table, bits, pixels, a, c),
    decreases c - b,
{
    if b < c {
        lemma_insert_range_split(table, bits, pixels, a, b, c - 1);
    }
}

/// Replaying a match extends the pixels by what the match covers.
proof fn lemma_replay_copy(
    pixels: Seq<u32>,
    table: Seq<u32>,
    bits: u8,
    pos: int,
    n: nat,
    len: int,
    dist: int,
)
    requires
        0 <= pos,
        n <= len,
        is_match(pixels, pos, len, dist),
    ensures
        replay_copy(pixels.take(pos), table, bits, n, dist) == (
            pixels.take(pos + n),
            cache_insert_range(table, bits, pixels, pos, pos + n),
        ),
    decreases n,
{
    if n > 0 {
        lemma_replay_copy(pixels, table, bits, pos, (n - 1) as nat, len, dist);
        let o = pixels.take(pos + n - 1);
        let k = n - 1;
        assert(pixels[pos - dist + k] == pixels[pos + k]);
        assert(o[o.len() - dist] == pixels[pos + k]);
        assert(o.push(pixels[pos + k]) =~= pixels.take(pos + n));
    }
}

proof fn lemma_push_token(tokens: Seq<Token>, token: Token, bits: u8)
    requires
        all_playable(tokens, bits),
        is_playable(token, replay(tokens, bits).0.len() as int, bits),
    ensures
        all_playable(tokens.push(token), bits),
        replay(tokens.push(token), bits) == replay_token(
            token,
            replay(tokens, bits).0,
            replay(tokens, bits).1,
            bits,
        ),
        hit_count(tokens.push(token)) == hit_count(tokens) + if token is CacheHit {
            1nat
        } else {
            0nat
        },
{
    let t2 = tokens.push(token);
    assert(t2.drop_last() =~= tokens);
    assert forall|k: int| 0 <= k < t2.len() implies #[trigger] is_playable(
        t2[k],
        replay(t2.take(k), bits).0.len() as int,
        bits,
    ) by {
        assert(t2.take(k) =~= tokens.take(k));
        if k < tokens.len() {
            assert(is_playable(tokens[k], replay(tokens.take(k), bits).0.len() as int, bits));
        } else {
            assert(tokens.take(k) =~= tokens);
        }
    }
}

/// Turns pixels into tokens and counts the color cache hits.
///
/// A reader that replays the tokens gets the pixels back.
pub fn tokenize_pixels(pixels: &[u32], cache_bits: Option<u8>) -> (r: (Vec<Token>, usize))
    requires
        pixels@.len() <= i32::MAX,
        cache_bits matches Some(b) ==> 1 <= b <= 11,
    ensures
        tokenizes(r.0@, pixels@, bits_of(cache_bits), pixels@.len() as int),
        r.1 == hit_count(r.0@),
        replay(r.0@, bits_of(cache_bits)).0 == pixels@,
        all_playable(r.0@, bits_of(cache_bits)),
        r.0@.len() <= pixels@.len(),
{
    let ghost bits = bits_of(cache_bits);
    let chain = HashChain::build(pixels);
    let mut tokens: Vec<Token> = Vec::new();
    let mut cache: Option<ColorCache> = match cache_bits {
        Some(b) => Some(ColorCache::new(b)),
        None => None,
    };
    let mut cache_hits: usize = 0;
    let mut pos: usize = 0;
    let ghost mut table = cache_new(bits);
    assert(pixels@.take(0) =~= Seq::<u32>::empty());
    while pos < pixels.len()
        invariant
            pixels@.len() <= i32::MAX,
            chain.links(pixels@),
            pos <= pixels@.len(),
            bits <= 11,
            cache_is(cache, bits, table),
            table == cache_insert_range(cache_new(bits), bits, pixels@, 0, pos as int),
            replay(tokens@, bits) == (pixels@.take(pos as int), table),
            all_playable(tokens@, bits),
            tokenizes(tokens@, pixels@, bits, pos as int),
            cache_hits == hit_count(tokens@),
            cache_hits <= tokens@.len() <= pos,
        decreases pixels@.len() - pos,
    {
        let pixel: u32 = pixels[pos];
        let ghost tokens0 = tokens@;
        let ghost pos0 = pos as int;
        let ghost table0 = table;
        let cache_hit: Option<u16> = lookup_in(&cache, pixel, Ghost(bits), Ghost(table));
        let copy: Option<(usize, usize)> = find_longest_match(pixels, &chain, pos);
        let mut used: usize = 0;
        if let Some((len, dist)) = copy {
            let use_copy: bool = if pos + 1 < pixels.len() {
                let next_hit: Option<u16> = lookup_in(
                    &cache,
                    pixels[pos + 1],
                    Ghost(bits),
                    Ghost(table),
                );
                let next_copy: Option<(usize, usize)> = find_longest_match(pixels, &chain, pos + 1);
                let skip: bool = match next_copy {
                    Some((next_len, next_dist)) => should_use_copy(
                        next_len,
                        next_dist,
                        next_hit.is_some(),
                    ) && next_len > len + 1,
                    None => false,
                };
                !skip && should_use_copy(len, dist, cache_hit.is_some())
            } else {
                should_use_copy(len, dist, cache_hit.is_some())
            };
            assert(use_copy == takes_copy(pixels@, pos as int, table, bits, len as int, dist as int));
            if use_copy {
                used = len;
                let token = Token::Copy { len: len as u16, dist: dist as u32 };
                proof {
                    lemma_push_token(tokens0, token, bits);
                    lemma_replay_copy(
                        pixels@,
                        table,
                        bits,
                        pos0,
                        len as nat,
                        len as int,
                        dist as int,
                    );
                    assert(token == token_at(pixels@, pos0, table0, bits));
                }
                tokens.push(token);
            }
        }
        if used == 0 {
            let token = match cache_hit {
                Some(index) => Token::CacheHit(index),
                None => Token::Literal(pixel),
            };
            proof {
                if bits > 0 {
                    lemma_cache_index(pixel, bits);
                    lemma2_to64();
                    lemma_pow2_mono(bits as nat, 11);
                }
                assert(token == token_at(pixels@, pos0, table0, bits));
                lemma_push_token(tokens0, token, bits);
                assert(pixels@.take(pos0).push(pixel) =~= pixels@.take(pos0 + 1));
            }
            if cache_hit.is_some() {
                cache_hits = cache_hits + 1;
            }
            tokens.push(token);
            used = 1;
        }
        if let Some(c) = &mut cache {
            c.insert_range(pixels, pos, pos + used);
        }
        proof {
            table = cache_insert_range(table0, bits, pixels@, pos0, pos0 + used);
            lemma_insert_range_split(cache_new(bits), bits, pixels@, 0, pos0, pos0 + used);
            assert(tokens@.drop_last() =~= tokens0);
            if bits == 0 {
                lemma_no_cache(pixels@, pos0, pos0 + used);
            }
            assert(cache_insert_range(table0, bits, pixels@, pos0, pos0 + 1) == cache_insert(
                table0,
                bits,
                pixels@[pos0],
            )) by {
                assert(cache_insert_range(table0, bits, pixels@, pos0, pos0) == table0);
            }
        }
        pos = pos + used;
    }
    assert(pixels@.take(pos as int) =~= pixels@);
    (tokens, cache_hits)
}

proof fn lemma_no_cache(pixels: Seq<u32>, from: int, to: int)
    ensures
        cache_insert_range(Seq::empty(), 0, pixels, from, to) == Seq::<u32>::empty(),
    decreases to - from,
{
    if from < to {
        lemma_no_cache(pixels, from, to - 1);
    }
}

proof fn lemma_search(
    pixels: Seq<u32>,
    pos: int,
    candidate: int,
    depth: nat,
    best: (nat, nat),
)
    requires
        0 <= pos < pixels.len(),
        candidate < pos,
        best.0 > 0 ==> is_match(pixels, pos, best.0 as int, best.1 as int),
    ensures
        ({
            let r = search(pixels, pos, candidate, depth, best);
            r.0 > 0 ==> is_match(pixels, pos, r.0 as int, r.1 as int)
        }),
    decreases 32 - depth,
{
    if candidate < 0 || depth >= 32 || pos - candidate > MAX_BACKWARD_DISTANCE {
    } else {
        let max = max_match(pixels, pos);
        let len = run_length(pixels, candidate, pos, 0, max);
        let dist = (pos - candidate) as nat;
        lemma_run_length(pixels, candidate, pos, 0, max);
        assert(is_match(pixels, pos, len as int, dist as int)) by {
            assert(pos - dist == candidate);
        }
        lemma_last_with_hash(pixels, pixel_hash_spec(pixels[candidate]), candidate - 1);
        let next = chain_link(pixels, candidate);
        if len > best.0 || (len == best.0 && dist < best.1) {
            if len != max {
                lemma_search(pixels, pos, next, depth + 1, (len, dist));
            }
        } else {
            lemma_search(pixels, pos, next, depth + 1, best);
        }
    }
}

/// The match that is used at a position is one.
pub proof fn lemma_longest_match(pixels: Seq<u32>, pos: int)
    requires
        0 <= pos < pixels.len(),
    ensures
        longest_match(pixels, pos) matches Some((len, dist)) ==> len >= 2 && is_match(
            pixels,
            pos,
            len as int,
            dist as int,
        ),
{
    lemma_last_with_hash(pixels, pixel_hash_spec(pixels[pos]), pos - 1);
    lemma_search(pixels, pos, chain_link(pixels, pos), 0, (0, 0));
}

/// Replaying the tokens of an image gives the image back.
pub proof fn lemma_tokens_replay(tokens: Seq<Token>, pixels: Seq<u32>, bits: u8, pos: int)
    requires
        bits <= 11,
        pos <= pixels.len(),
        pixels.len() <= u32::MAX,
        tokenizes(tokens, pixels, bits, pos),
    ensures
        0 <= pos,
        replay(tokens, bits) == (
            pixels.take(pos),
            cache_insert_range(cache_new(bits), bits, pixels, 0, pos),
        ),
        all_playable(tokens, bits),
        tokens.len() <= pos,
    decreases tokens.len(),
{
    if tokens.len() == 0 {
        assert(pixels.take(0) =~= Seq::<u32>::empty());
    } else {
        let token = tokens.last();
        let p = pos - token_span(token);
        let rest = tokens.drop_last();
        lemma_tokens_replay(rest, pixels, bits, p);
        let table = cache_insert_range(cache_new(bits), bits, pixels, 0, p);
        lemma_longest_match(pixels, p);
        if bits > 0 {
            lemma_cache_index(pixels[p], bits);
            lemma2_to64();
            lemma_pow2_mono(bits as nat, 11);
        }
        if token is Copy {
            let (len, dist) = longest_match(pixels, p)->0;
            assert(token == Token::Copy { len: len as u16, dist: dist as u32 });
            lemma_replay_copy(pixels, table, bits, p, len, len as int, dist as int);
            lemma_insert_range_split(cache_new(bits), bits, pixels, 0, p, pos);
        } else {
            assert(pixels.take(p).push(pixels[p]) =~= pixels.take(p + 1));
        }
        lemma_push_token(rest, token, bits);
        assert(rest.push(token) =~= tokens);
    }
}

} // verus!
