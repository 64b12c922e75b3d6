//! Tokens as symbols of prefix codes: how they are written and how they are read back.
use crate::math::lemma_pow2_mono;
use crate::webp::backref::{is_playable, Token, MAX_BACKWARD_DISTANCE, MAX_MATCH_LEN};
use crate::webp::bit_writer::{lemma_read_field, lsb_bits, read_field};
use crate::webp::prefix_tree::{
    has_symbol, is_valid_tree, lemma_read_symbol, read_symbol, symbol_bits, PrefixTree,
};
use vstd::arithmetic::power2::{lemma2_to64, lemma_pow2_pos, lemma_pow2_unfold, pow2};
use vstd::prelude::*;

verus! {

pub const GREEN_COPY_CODES: usize = 280;

pub const DIST_ALPHABET_SIZE: usize = 40;

/// Offsets `(x, y)` of the pixels that have a short distance code, to the left and up.
pub const DISTANCE_MAP: [(i8, i8); 120] = [
    (0, 1), (1, 0), (1, 1), (-1, 1), (0, 2), (2, 0), (1, 2), (-1, 2),
    (2, 1), (-2, 1), (2, 2), (-2, 2), (0, 3), (3, 0), (1, 3), (-1, 3),
    (3, 1), (-3, 1), (2, 3), (-2, 3), (3, 2), (-3, 2), (0, 4), (4, 0),
    (1, 4), (-1, 4), (4, 1), (-4, 1), (3, 3), (-3, 3), (2, 4), (-2, 4),
    (4, 2), (-4, 2), (0, 5), (3, 4), (-3, 4), (4, 3), (-4, 3), (5, 0),
    (1, 5), (-1, 5), (5, 1), (-5, 1), (2, 5), (-2, 5), (5, 2), (-5, 2),
    (4, 4), (-4, 4), (3, 5), (-3, 5), (5, 3), (-5, 3), (0, 6), (6, 0),
    (1, 6), (-1, 6), (6, 1), (-6, 1), (2, 6), (-2, 6), (6, 2), (-6, 2),
    (4, 5), (-4, 5), (5, 4), (-5, 4), (3, 6), (-3, 6), (6, 3), (-6, 3),
    (0, 7), (7, 0), (1, 7), (-1, 7), (5, 5), (-5, 5), (7, 1), (-7, 1),
    (4, 6), (-4, 6), (6, 4), (-6, 4), (2, 7), (-2, 7), (7, 2), (-7, 2),
    (3, 7), (-3, 7), (7, 3), (-7, 3), (5, 6), (-5, 6), (6, 5), (-6, 5),
    (8, 0), (4, 7), (-4, 7), (7, 4), (-7, 4), (8, 1), (8, 2), (6, 6),
    (-6, 6), (8, 3), (5, 7), (-5, 7), (7, 5), (-7, 5), (8, 4), (6, 7),
    (-6, 7), (7, 6), (-7, 6), (8, 5), (7, 7), (-7, 7), (8, 6), (8, 7),
];

/// A pixel as `0xAARRGGBB`.
pub open spec fn pack_argb(red: int, green: int, blue: int, alpha: int) -> int {
    alpha * 0x1000000 + red * 0x10000 + green * 0x100 + blue
}

pub open spec fn red_of(p: u32) -> int {
    (p as int / 0x10000) % 256
}

pub open spec fn green_of(p: u32) -> int {
    (p as int / 0x100) % 256
}

pub open spec fn blue_of(p: u32) -> int {
    p as int % 256
}

pub open spec fn alpha_of(p: u32) -> int {
    (p as int / 0x1000000) % 256
}

/// The pixel of four bytes in the order red, green, blue, alpha.
pub fn pack_pixel(pixel: &[u8]) -> (r: u32)
    requires
        pixel@.len() >= 4,
    ensures
        r == pack_argb(pixel@[0] as int, pixel@[1] as int, pixel@[2] as int, pixel@[3] as int),
{
    pixel[3] as u32 * 0x1000000 + pixel[0] as u32 * 0x10000 + pixel[1] as u32 * 0x100
        + pixel[2] as u32
}

/// Red, green, blue and alpha of a pixel.
pub fn pixel_channels(pixel: u32) -> (r: (usize, usize, usize, usize))
    ensures
        r.0 == red_of(pixel) && r.1 == green_of(pixel) && r.2 == blue_of(pixel) && r.3 == alpha_of(
            pixel,
        ),
        r.0 < 256 && r.1 < 256 && r.2 < 256 && r.3 < 256,
{
    (
        (pixel / 0x10000 % 256) as usize,
        (pixel / 0x100 % 256) as usize,
        (pixel % 256) as usize,
        (pixel / 0x1000000 % 256) as usize,
    )
}

/// Taking a pixel apart and putting it together again changes nothing.
pub proof fn lemma_pack_channels(p: u32)
    ensures
        pack_argb(red_of(p), green_of(p), blue_of(p), alpha_of(p)) == p,
{
}

/// Putting four bytes together and taking them apart again changes nothing.
pub proof fn lemma_channels_pack(r: u8, g: u8, b: u8, a: u8)
    ensures
        0 <= pack_argb(r as int, g as int, b as int, a as int) <= u32::MAX,
        red_of(pack_argb(r as int, g as int, b as int, a as int) as u32) == r,
        green_of(pack_argb(r as int, g as int, b as int, a as int) as u32) == g,
        blue_of(pack_argb(r as int, g as int, b as int, a as int) as u32) == b,
        alpha_of(pack_argb(r as int, g as int, b as int, a as int) as u32) == a,
{
    let p = pack_argb(r as int, g as int, b as int, a as int);
    assert(p / 0x1000000 == a);
    assert(p / 0x10000 == a * 256 + r);
    assert(p / 0x100 == (a * 256 + r) * 256 + g);
}

/// `(symbol, number of extra bits, extra value)` of a length or distance code.
pub open spec fn is_prefix_of_value(value: int, symbol: int, extra_bits: int, extra: int) -> bool {
    if value <= 4 {
        symbol == value - 1 && extra_bits == 0 && extra == 0
    } else {
        let n = value - 1;
        let unit = pow2(extra_bits as nat) as int;
        &&& extra_bits >= 0
        &&& 2 * unit <= n < 4 * unit
        &&& symbol == 2 * (extra_bits + 1) + (n / unit) % 2
        &&& extra == n % unit
    }
}

/// Number of extra bits that follow a length or distance symbol.
pub open spec fn prefix_extra_bits(symbol: int) -> nat {
    if symbol < 4 {
        0
    } else {
        ((symbol - 2) / 2) as nat
    }
}

/// The value of a length or distance symbol with its extra bits.
pub open spec fn prefix_value(symbol: int, extra: int) -> int {
    if symbol < 4 {
        symbol + 1
    } else {
        (2 + symbol % 2) * pow2(prefix_extra_bits(symbol)) + extra + 1
    }
}

/// Splits a value into symbol and extra bits.
pub fn value_to_prefix(value: u32) -> (r: (u16, u8, u32))
    requires
        value >= 1,
    ensures
        is_prefix_of_value(value as int, r.0 as int, r.1 as int, r.2 as int),
        r.0 < 64,
        r.1 <= 30,
        value <= 4096 ==> r.0 < 24,
        value <= 1048576 ==> r.0 < 40,
{
    if value <= 4 {
        return ((value - 1) as u16, 0, 0);
    }
    let n: u32 = value - 1;
    let mut extra_bits: u8 = 1;
    let mut unit: u32 = 2;
    proof {
        lemma2_to64();
    }
    while unit <= n / 4
        invariant
            n >= 4,
            1 <= extra_bits <= 30,
            unit == pow2(extra_bits as nat),
            unit <= n / 2,
        decreases n - unit,
    {
        proof {
            lemma2_to64();
            if extra_bits >= 30 {
                lemma_pow2_mono(30, extra_bits as nat);
            }
            lemma_pow2_unfold((extra_bits + 1) as nat);
        }
        unit = unit * 2;
        extra_bits = extra_bits + 1;
    }
    let second: u32 = (n / unit) % 2;
    let symbol: u16 = 2 * (extra_bits as u16 + 1) + second as u16;
    proof {
        lemma2_to64();
        let extra = (n % unit) as int;
        if value <= 4096 {
            lemma_prefix_symbol_bound(value as int, symbol as int, extra_bits as int, extra, 10);
        }
        if value <= 1048576 {
            lemma_prefix_symbol_bound(value as int, symbol as int, extra_bits as int, extra, 18);
        }
    }
    (symbol, extra_bits, n % unit)
}

/// The symbol and its extra bits give the value back.
pub proof fn lemma_prefix_value(value: int, symbol: int, extra_bits: int, extra: int)
    requires
        value >= 1,
        is_prefix_of_value(value, symbol, extra_bits, extra),
    ensures
        prefix_extra_bits(symbol) == extra_bits,
        prefix_value(symbol, extra) == value,
        0 <= extra < pow2(extra_bits as nat),
        symbol >= 0,
{
    lemma2_to64();
    lemma_pow2_pos(extra_bits as nat);
    if value > 4 {
        let n = value - 1;
        let unit = pow2(extra_bits as nat) as int;
        let q = n / unit;
        assert(2 <= q < 4) by (nonlinear_arith)
            requires
                2 * unit <= n < 4 * unit,
                unit > 0,
                q == n / unit,
        ;
        assert(n == q * unit + n % unit) by (nonlinear_arith)
            requires
                unit > 0,
                q == n / unit,
        ;
        assert(0 <= n % unit < unit) by (nonlinear_arith)
            requires
                unit > 0,
        ;
        assert(symbol % 2 == q % 2);
        assert(2 + symbol % 2 == q);
        assert(symbol >= 4) by {
            if extra_bits == 0 {
                assert(unit == 1);
            }
        }
    }
}

/// Symbols of values up to `2^(k + 2)` stay below `2 * k + 4`.
pub proof fn lemma_prefix_symbol_bound(
    value: int,
    symbol: int,
    extra_bits: int,
    extra: int,
    k: nat,
)
    requires
        1 <= value <= pow2(k + 2),
        is_prefix_of_value(value, symbol, extra_bits, extra),
    ensures
        symbol < 2 * k + 4,
        extra_bits <= k,
{
    lemma2_to64();
    if value > 4 {
        let unit = pow2(extra_bits as nat) as int;
        lemma_pow2_pos(extra_bits as nat);
        if extra_bits > k {
            lemma_pow2_mono((k + 1) as nat, extra_bits as nat);
            lemma_pow2_unfold(k + 2);
        }
        let n = value - 1;
        let q = n / unit;
    }
}

/// Distance that a plane code stands for in an image of the given width.
#[verifier::opaque]
pub open spec fn plane_distance(width: int, code: int) -> int {
    if code > 120 {
        code - 120
    } else {
        let d = DISTANCE_MAP[code - 1].0 + DISTANCE_MAP[code - 1].1 * width;
        if d < 1 {
            1
        } else {
            d
        }
    }
}

pub fn plane_code_to_distance(width: u32, plane_code: usize) -> (r: usize)
    requires
        1 <= plane_code,
        width <= 0x0fff_ffff,
    ensures
        r == plane_distance(width as int, plane_code as int),
        plane_code <= 120 ==> r <= 7 * width + 8,
{
    proof {
        reveal(plane_distance);
    }
    if plane_code > 120 {
        plane_code - 120
    } else {
        let (xoffset, yoffset) = DISTANCE_MAP[plane_code - 1];
        proof {
            lemma_distance_map(plane_code as int);
            let w = width as int;
            let y = yoffset as int;
            assert(0 <= y * w <= 7 * w) by (nonlinear_arith)
                requires
                    0 <= y <= 7,
                    w >= 0,
            ;
        }
        let dist: i32 = xoffset as i32 + yoffset as i32 * width as i32;
        if dist < 1 {
            1
        } else {
            dist as usize
        }
    }
}

proof fn lemma_distance_map(code: int)
    requires
        1 <= code <= 120,
    ensures
        -8 <= DISTANCE_MAP[code - 1].0 <= 8,
        0 <= DISTANCE_MAP[code - 1].1 <= 7,
{
}

/// The least plane code below `c` that stands for the distance, 0 if there is none.
pub open spec fn small_code_below(width: int, dist: int, c: int) -> int
    decreases c,
{
    if c <= 1 {
        0
    } else {
        let prev = small_code_below(width, dist, c - 1);
        if prev != 0 {
            prev
        } else if plane_distance(width, c - 1) == dist {
            c - 1
        } else {
            0
        }
    }
}

/// The plane code of a distance: a short code where there is one.
pub open spec fn plane_code(width: int, dist: int) -> int {
    let small = small_code_below(width, dist, 121);
    if small != 0 {
        small
    } else {
        dist + 120
    }
}

proof fn lemma_small_code(width: int, dist: int, c: int)
    requires
        1 <= c <= 121,
    ensures
        0 <= small_code_below(width, dist, c) < c,
        small_code_below(width, dist, c) != 0 ==> plane_distance(
            width,
            small_code_below(width, dist, c),
        ) == dist,
        small_code_below(width, dist, c) == 0 ==> forall|k: int|
            1 <= k < c ==> #[trigger] plane_distance(width, k) != dist,
    decreases c,
{
    if c > 1 {
        lemma_small_code(width, dist, c - 1);
    }
}

/// The plane code of a distance stands for that distance.
pub proof fn lemma_plane_code(width: int, dist: int)
    requires
        dist >= 1,
    ensures
        1 <= plane_code(width, dist) <= dist + 120,
        plane_distance(width, plane_code(width, dist)) == dist,
        plane_code(width, dist) <= 120 || plane_code(width, dist) == dist + 120,
{
    reveal(plane_distance);
    lemma_small_code(width, dist, 121);
}

/// For every distance up to the greatest short one, its short code or 0.
pub open spec fn is_small_lookup(width: int, lookup: Seq<u16>) -> bool {
    &&& forall|d: int|
        0 <= d < lookup.len() ==> #[trigger] lookup[d] == small_code_below(width, d, 121)
    &&& forall|k: int| 1 <= k <= 120 ==> #[trigger] plane_distance(width, k) < lookup.len()
}

pub fn build_small_distance_lookup(width: u32) -> (lookup: Vec<u16>)
    requires
        width <= 0x0fff_ffff,
    ensures
        is_small_lookup(width as int, lookup@),
{
    let mut max_dist: usize = 1;
    let mut c: usize = 1;
    while c <= 120
        invariant
            1 <= c <= 121,
            width <= 0x0fff_ffff,
            1 <= max_dist <= 7 * width + 8,
            forall|k: int|
                1 <= k < c ==> #[trigger] plane_distance(width as int, k) <= max_dist,
        decreases 121 - c,
    {
        let d: usize = plane_code_to_distance(width, c);
        if d > max_dist {
            max_dist = d;
        }
        c = c + 1;
    }
    let mut lookup: Vec<u16> = vec![0; max_dist + 1];
    let mut code: u16 = 1;
    while code <= 120
        invariant
            1 <= code <= 121,
            width <= 0x0fff_ffff,
            lookup@.len() == max_dist + 1,
            forall|k: int|
                1 <= k <= 120 ==> #[trigger] plane_distance(width as int, k) < lookup@.len(),
            forall|d: int|
                0 <= d < lookup@.len() ==> #[trigger] lookup@[d] == small_code_below(
                    width as int,
                    d,
                    code as int,
                ),
        decreases 121 - code,
    {
        let dist: usize = plane_code_to_distance(width, code as usize);
        let ghost before = lookup@;
        if lookup[dist] == 0 {
            lookup.set(dist, code);
        }
        assert forall|d: int| 0 <= d < lookup@.len() implies #[trigger] lookup@[d]
            == small_code_below(width as int, d, code + 1) by {
            assert(before[d] == small_code_below(width as int, d, code as int));
        }
        code = code + 1;
    }
    lookup
}

pub fn distance_to_plane_code(dist: usize, small_lookup: &Vec<u16>, width: Ghost<int>) -> (r: u32)
    requires
        1 <= dist <= 0x3fff_ff00,
        is_small_lookup(width@, small_lookup@),
    ensures
        r == plane_code(width@, dist as int),
{
    proof {
        lemma_small_code(width@, dist as int, 121);
    }
    if dist < small_lookup.len() {
        let code: u16 = small_lookup[dist];
        if code != 0 {
            return code as u32;
        }
    }
    (dist + 120) as u32
}

/// The five prefix codes of a pixel stream.
pub struct TokenTrees {
    pub green: PrefixTree,
    pub red: PrefixTree,
    pub blue: PrefixTree,
    pub alpha: PrefixTree,
    pub dist: PrefixTree,
}

pub open spec fn are_valid_trees(trees: TokenTrees) -> bool {
    &&& is_valid_tree(trees.green)
    &&& is_valid_tree(trees.red)
    &&& is_valid_tree(trees.blue)
    &&& is_valid_tree(trees.alpha)
    &&& is_valid_tree(trees.dist)
}

/// `(symbol, number of extra bits, extra value)` of a value, as `value_to_prefix` splits it.
pub open spec fn prefix_of(value: int) -> (int, int, int) {
    let t = choose|t: (int, int, int)| #[trigger] is_prefix_of_value(value, t.0, t.1, t.2);
    t
}

/// A value is split in one way only.
pub proof fn lemma_prefix_unique(value: int, symbol: int, extra_bits: int, extra: int)
    requires
        value >= 1,
        is_prefix_of_value(value, symbol, extra_bits, extra),
    ensures
        prefix_of(value) == (symbol, extra_bits, extra),
{
    let w = (symbol, extra_bits, extra);
    assert(is_prefix_of_value(value, w.0, w.1, w.2));
    let t = prefix_of(value);
    assert(is_prefix_of_value(value, t.0, t.1, t.2));
    if value > 4 {
        if t.1 < extra_bits {
            lemma_pow2_mono((t.1 + 1) as nat, extra_bits as nat);
            lemma_pow2_unfold((t.1 + 1) as nat);
        } else if t.1 > extra_bits {
            lemma_pow2_mono((extra_bits + 1) as nat, t.1 as nat);
            lemma_pow2_unfold((extra_bits + 1) as nat);
        }
    }
}

/// The symbol that a token puts into the green code.
pub open spec fn green_symbol(token: Token) -> int {
    match token {
        Token::Literal(p) => green_of(p),
        Token::CacheHit(i) => 280 + i,
        Token::Copy { len, .. } => 256 + prefix_of(len as int).0,
    }
}

/// The symbol that a copy puts into the distance code.
pub open spec fn dist_symbol(token: Token, width: int) -> int {
    match token {
        Token::Copy { dist, .. } => prefix_of(plane_code(width, dist as int)).0,
        _ => 0,
    }
}

/// The codes have every symbol that the token needs.
pub open spec fn codes_token(trees: TokenTrees, token: Token, width: int) -> bool {
    &&& has_symbol(trees.green, green_symbol(token))
    &&& token matches Token::Literal(p) ==> {
        &&& has_symbol(trees.red, red_of(p))
        &&& has_symbol(trees.blue, blue_of(p))
        &&& has_symbol(trees.alpha, alpha_of(p))
    }
    &&& token is Copy ==> has_symbol(trees.dist, dist_symbol(token, width))
}

/// The bits of a token.
pub open spec fn token_bits(token: Token, trees: TokenTrees, width: int) -> Seq<bool> {
    let green = symbol_bits(trees.green, green_symbol(token));
    match token {
        Token::Literal(p) => green + (symbol_bits(trees.red, red_of(p)) + (symbol_bits(
            trees.blue,
            blue_of(p),
        ) + symbol_bits(trees.alpha, alpha_of(p)))),
        Token::CacheHit(i) => green,
        Token::Copy { len, dist } => {
            let l = prefix_of(len as int);
            let d = prefix_of(plane_code(width, dist as int));
            green + (lsb_bits(l.2, l.1 as nat) + (symbol_bits(trees.dist, d.0) + lsb_bits(
                d.2,
                d.1 as nat,
            )))
        },
    }
}

/// Reads red, blue and alpha of a literal.
pub open spec fn read_literal(green: int, s: Seq<bool>, trees: TokenTrees) -> Option<
    (Token, Seq<bool>),
> {
    match read_symbol(trees.red, s) {
        None => None,
        Some((red, s1)) => match read_symbol(trees.blue, s1) {
            None => None,
            Some((blue, s2)) => match read_symbol(trees.alpha, s2) {
                None => None,
                Some((alpha, s3)) => Some(
                    (Token::Literal(pack_argb(red, green, blue, alpha) as u32), s3),
                ),
            },
        },
    }
}

/// Reads the rest of a copy whose length symbol is `symbol`.
pub open spec fn read_copy(symbol: int, s: Seq<bool>, trees: TokenTrees, width: int) -> Option<
    (Token, Seq<bool>),
> {
    match read_field(s, prefix_extra_bits(symbol)) {
        None => None,
        Some((extra, s1)) => match read_symbol(trees.dist, s1) {
            None => None,
            Some((dsym, s2)) => match read_field(s2, prefix_extra_bits(dsym)) {
                None => None,
                Some((dextra, s3)) => Some(
                    (
                        Token::Copy {
                            len: prefix_value(symbol, extra as int) as u16,
                            dist: plane_distance(width, prefix_value(dsym, dextra as int)) as u32,
                        },
                        s3,
                    ),
                ),
            },
        },
    }
}

/// Reads one token.
pub open spec fn read_token(s: Seq<bool>, trees: TokenTrees, width: int) -> Option<
    (Token, Seq<bool>),
> {
    match read_symbol(trees.green, s) {
        None => None,
        Some((symbol, rest)) => if symbol < 256 {
            read_literal(symbol, rest, trees)
        } else if symbol < 280 {
            read_copy(symbol - 256, rest, trees, width)
        } else {
            Some((Token::CacheHit((symbol - 280) as u16), rest))
        },
    }
}

/// A copy's length and distance split into symbols within their alphabets.
pub proof fn lemma_copy_symbols(len: u16, dist: u32, width: int)
    requires
        1 <= len <= MAX_MATCH_LEN,
        1 <= dist <= MAX_BACKWARD_DISTANCE,
    ensures
        ({
            let l = prefix_of(len as int);
            let d = prefix_of(plane_code(width, dist as int));
            &&& is_prefix_of_value(len as int, l.0, l.1, l.2)
            &&& is_prefix_of_value(plane_code(width, dist as int), d.0, d.1, d.2)
            &&& 0 <= l.0 < 24
            &&& 0 <= l.1 <= 10
            &&& 0 <= d.0 < 40
            &&& 0 <= d.1 <= 18
        }),
{
    let c = plane_code(width, dist as int);
    lemma_plane_code(width, dist as int);
    lemma2_to64();
    let l = lemma_prefix_exists(len as int);
    let d = lemma_prefix_exists(c);
    lemma_prefix_unique(len as int, l.0, l.1, l.2);
    lemma_prefix_unique(c, d.0, d.1, d.2);
    lemma_prefix_symbol_bound(len as int, l.0, l.1, l.2, 10);
    lemma_prefix_symbol_bound(c, d.0, d.1, d.2, 18);
    lemma_prefix_value(len as int, l.0, l.1, l.2);
    lemma_prefix_value(c, d.0, d.1, d.2);
}

/// Every value can be split.
proof fn lemma_prefix_exists(value: int) -> (t: (int, int, int))
    requires
        value >= 1,
    ensures
        is_prefix_of_value(value, t.0, t.1, t.2),
        t.1 >= 0,
{
    if value <= 4 {
        (value - 1, 0, 0)
    } else {
        lemma2_to64();
        let e = lemma_log(value - 1, 1);
        let unit = pow2(e as nat) as int;
        let n = value - 1;
        (2 * (e + 1) + (n / unit) % 2, e as int, n % unit)
    }
}

proof fn lemma_log(n: int, e: nat) -> (r: nat)
    requires
        2 * pow2(e) <= n,
    ensures
        2 * pow2(r) <= n < 4 * pow2(r),
    decreases n - pow2(e),
{
    lemma_pow2_pos(e);
    if n < 4 * pow2(e) {
        e
    } else {
        lemma_pow2_unfold(e + 1);
        lemma_log(n, e + 1)
    }
}

proof fn lemma_read_literal(p: u32, trees: TokenTrees, width: int, rest: Seq<bool>)
    requires
        are_valid_trees(trees),
        codes_token(trees, Token::Literal(p), width),
    ensures
        read_token(token_bits(Token::Literal(p), trees, width) + rest, trees, width) == Some(
            (Token::Literal(p), rest),
        ),
{
    let token = Token::Literal(p);
    let gs = green_of(p);
    let green = symbol_bits(trees.green, gs);
    let s3 = symbol_bits(trees.alpha, alpha_of(p)) + rest;
    let s2 = symbol_bits(trees.blue, blue_of(p)) + s3;
    let s1 = symbol_bits(trees.red, red_of(p)) + s2;
    assert(token_bits(token, trees, width) + rest =~= green + s1);
    lemma_read_symbol(trees.green, gs, s1);
    lemma_read_symbol(trees.red, red_of(p), s2);
    lemma_read_symbol(trees.blue, blue_of(p), s3);
    lemma_read_symbol(trees.alpha, alpha_of(p), rest);
    lemma_pack_channels(p);
    assert(read_literal(gs, s1, trees) == Some((token, rest)));
}

proof fn lemma_read_copy(len: u16, dist: u32, trees: TokenTrees, width: int, rest: Seq<bool>)
    requires
        are_valid_trees(trees),
        codes_token(trees, (Token::Copy { len, dist }), width),
        1 <= len <= MAX_MATCH_LEN,
        1 <= dist <= MAX_BACKWARD_DISTANCE,
    ensures
        read_token(token_bits((Token::Copy { len, dist }), trees, width) + rest, trees, width)
            == Some(((Token::Copy { len, dist }), rest)),
{
    let token = Token::Copy { len, dist };
    let gs = green_symbol(token);
    let green = symbol_bits(trees.green, gs);
    let l = prefix_of(len as int);
    let c = plane_code(width, dist as int);
    let d = prefix_of(c);
    lemma_copy_symbols(len, dist, width);
    lemma_plane_code(width, dist as int);
    lemma_prefix_value(len as int, l.0, l.1, l.2);
    lemma_prefix_value(c, d.0, d.1, d.2);
    let s3 = lsb_bits(d.2, d.1 as nat) + rest;
    let s2 = symbol_bits(trees.dist, d.0) + s3;
    let s1 = lsb_bits(l.2, l.1 as nat) + s2;
    assert(token_bits(token, trees, width) + rest =~= green + s1);
    lemma_read_symbol(trees.green, gs, s1);
    lemma_read_field(l.2 as nat, l.1 as nat, s2);
    lemma_read_symbol(trees.dist, d.0, s3);
    lemma_read_field(d.2 as nat, d.1 as nat, rest);
    assert(read_copy(l.0, s1, trees, width) == Some((token, rest)));
}

/// A token that was written is the token that is read.
pub proof fn lemma_read_token(
    token: Token,
    trees: TokenTrees,
    width: int,
    n_out: int,
    bits: u8,
    rest: Seq<bool>,
)
    requires
        are_valid_trees(trees),
        codes_token(trees, token, width),
        is_playable(token, n_out, bits),
    ensures
        read_token(token_bits(token, trees, width) + rest, trees, width) == Some((token, rest)),
{
    match token {
        Token::Literal(p) => {
            lemma_read_literal(p, trees, width, rest);
        },
        Token::CacheHit(i) => {
            lemma_read_symbol(trees.green, green_symbol(token), rest);
        },
        Token::Copy { len, dist } => {
            lemma_read_copy(len, dist, trees, width, rest);
        },
    }
}

} // verus!
