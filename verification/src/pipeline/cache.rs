//! A cache of decoded images, bounded in bytes, that forgets what was used longest ago.
use crate::pipeline::image::{DecodedImage, ImageModel};
use vstd::prelude::*;

verus! {

/// What one decoded image is taken to need.
pub const AVERAGE_DECODED_IMAGE_BYTES: usize = 4194304;

/// `lru`'s cache.
#[verifier::external_type_specification]
#[verifier::external_body]
#[verifier::reject_recursive_types(K)]
#[verifier::reject_recursive_types(V)]
#[verifier::reject_recursive_types(S)]
pub struct ExLruCache<K, V, S>(lru::LruCache<K, V, S>);

/// The hash builder of `lru`'s caches.
#[verifier::external_type_specification]
#[verifier::external_body]
pub struct ExDefaultHasher(lru::DefaultHasher);

/// What a cache holds, most recently used first: path and page, then bytes, width and height.
pub uninterp spec fn lru_entries(cache: lru::LruCache<(String, u32), (Vec<u8>, u32, u32)>) -> Seq<
    ((Seq<char>, u32), (Seq<u8>, u32, u32)),
>;

/// How many entries a cache was made for.
pub uninterp spec fn lru_capacity(
    cache: lru::LruCache<(String, u32), (Vec<u8>, u32, u32)>,
) -> nat;

// ---- entries ----
/// The key occurs.
pub open spec fn has_key(
    e: Seq<((Seq<char>, u32), (Seq<u8>, u32, u32))>,
    key: (Seq<char>, u32),
) -> bool
    decreases e.len(),
{
    e.len() > 0 && (e.last().0 == key || has_key(e.drop_last(), key))
}

/// The value of a key that occurs.
pub open spec fn value_of(
    e: Seq<((Seq<char>, u32), (Seq<u8>, u32, u32))>,
    key: (Seq<char>, u32),
) -> (Seq<u8>, u32, u32)
    decreases e.len(),
{
    if e.len() == 0 {
        (Seq::empty(), 0, 0)
    } else if e.last().0 == key {
        e.last().1
    } else {
        value_of(e.drop_last(), key)
    }
}

/// The entries of all other keys.
pub open spec fn without(
    e: Seq<((Seq<char>, u32), (Seq<u8>, u32, u32))>,
    key: (Seq<char>, u32),
) -> Seq<((Seq<char>, u32), (Seq<u8>, u32, u32))>
    decreases e.len(),
{
    if e.len() == 0 {
        e
    } else if e.last().0 == key {
        without(e.drop_last(), key)
    } else {
        without(e.drop_last(), key).push(e.last())
    }
}

/// The entries with one more in front.
pub open spec fn in_front(
    key: (Seq<char>, u32),
    value: (Seq<u8>, u32, u32),
    e: Seq<((Seq<char>, u32), (Seq<u8>, u32, u32))>,
) -> Seq<((Seq<char>, u32), (Seq<u8>, u32, u32))> {
    seq![(key, value)] + e
}

/// The entries after one was put: it comes to the front, in place of the one with its key; else,
/// where all places are taken, the last entry goes.
pub open spec fn entries_put(
    e: Seq<((Seq<char>, u32), (Seq<u8>, u32, u32))>,
    capacity: nat,
    key: (Seq<char>, u32),
    value: (Seq<u8>, u32, u32),
) -> Seq<((Seq<char>, u32), (Seq<u8>, u32, u32))> {
    if has_key(e, key) {
        in_front(key, value, without(e, key))
    } else if e.len() == capacity {
        in_front(key, value, e.drop_last())
    } else {
        in_front(key, value, e)
    }
}

/// A cache for so many entries: `lru`'s `LruCache::new`.
///
/// Claims that it starts empty. The number is bounded by what the table can be allocated for.
#[verifier::external_body]
fn lru_new(capacity: usize) -> (r: lru::LruCache<(String, u32), (Vec<u8>, u32, u32)>)
    requires
        0 < capacity,
        capacity * AVERAGE_DECODED_IMAGE_BYTES <= usize::MAX || capacity == 1,
    ensures
        lru_entries(r) == Seq::<((Seq<char>, u32), (Seq<u8>, u32, u32))>::empty(),
        lru_capacity(r) == capacity,
{
    lru::LruCache::new(std::num::NonZeroUsize::new(capacity).expect("cache capacity is non-zero"))
}

/// Looks an entry up: `lru`'s `LruCache::get`, with the value copied.
///
/// Claims that a key that occurs gives its value and comes to the front, and that another key
/// gives nothing and changes nothing.
#[verifier::external_body]
fn lru_get(
    cache: &mut lru::LruCache<(String, u32), (Vec<u8>, u32, u32)>,
    key: &(String, u32),
) -> (r: Option<(Vec<u8>, u32, u32)>)
    ensures
        lru_capacity(*final(cache)) == lru_capacity(*old(cache)),
        r is Some <==> has_key(lru_entries(*old(cache)), (key.0@, key.1)),
        r is Some ==> (r->Some_0.0@, r->Some_0.1, r->Some_0.2) == value_of(
            lru_entries(*old(cache)),
            (key.0@, key.1),
        ),
        lru_entries(*final(cache)) == (if has_key(lru_entries(*old(cache)), (key.0@, key.1)) {
            in_front(
                (key.0@, key.1),
                value_of(lru_entries(*old(cache)), (key.0@, key.1)),
                without(lru_entries(*old(cache)), (key.0@, key.1)),
            )
        } else {
            lru_entries(*old(cache))
        }),
{
    cache.get(key).cloned()
}

/// Puts an entry: `lru`'s `LruCache::put`.
///
/// Claims that the entry comes to the front; the value that its key had is handed back; where the
/// key is new and all places are taken, the last entry goes and is not handed back.
#[verifier::external_body]
fn lru_put(
    cache: &mut lru::LruCache<(String, u32), (Vec<u8>, u32, u32)>,
    key: (String, u32),
    value: (Vec<u8>, u32, u32),
) -> (r: Option<(Vec<u8>, u32, u32)>)
    ensures
        lru_capacity(*final(cache)) == lru_capacity(*old(cache)),
        r is Some <==> has_key(lru_entries(*old(cache)), (key.0@, key.1)),
        r is Some ==> (r->Some_0.0@, r->Some_0.1, r->Some_0.2) == value_of(
            lru_entries(*old(cache)),
            (key.0@, key.1),
        ),
        lru_entries(*final(cache)) == entries_put(
            lru_entries(*old(cache)),
            lru_capacity(*old(cache)),
            (key.0@, key.1),
            (value.0@, value.1, value.2),
        ),
{
    cache.put(key, value)
}

/// Takes the last entry out: `lru`'s `LruCache::pop_lru`.
///
/// Claims that it is the entry used longest ago, and that only an empty cache gives none.
#[verifier::external_body]
fn lru_pop(cache: &mut lru::LruCache<(String, u32), (Vec<u8>, u32, u32)>) -> (r: Option<
    ((String, u32), (Vec<u8>, u32, u32)),
>)
    ensures
        lru_capacity(*final(cache)) == lru_capacity(*old(cache)),
        r is Some <==> lru_entries(*old(cache)).len() > 0,
        r is Some ==> (
            ((r->Some_0.0).0@, (r->Some_0.0).1),
            ((r->Some_0.1).0@, (r->Some_0.1).1, (r->Some_0.1).2),
        ) == lru_entries(*old(cache)).last(),
        lru_entries(*final(cache)) == (if lru_entries(*old(cache)).len() > 0 {
            lru_entries(*old(cache)).drop_last()
        } else {
            lru_entries(*old(cache))
        }),
{
    cache.pop_lru()
}

// ---- the cache ----
/// The state of a cache.
pub struct CacheModel {
    /// Entries, most recently used first.
    pub entries: Seq<((Seq<char>, u32), (Seq<u8>, u32, u32))>,
    /// How many entries there may be.
    pub capacity: nat,
    /// How many bytes there may be; 0 switches the cache off.
    pub bytes_limit: int,
    /// How many bytes are counted.
    pub current_bytes: int,
}

/// Bytes of all entries.
pub open spec fn total_bytes(e: Seq<((Seq<char>, u32), (Seq<u8>, u32, u32))>) -> int
    decreases e.len(),
{
    if e.len() == 0 {
        0
    } else {
        total_bytes(e.drop_last()) + e.last().1.0.len()
    }
}

/// A difference, at least 0.
pub open spec fn less(a: int, b: int) -> int {
    if a > b {
        a - b
    } else {
        0
    }
}

/// A sum as a `usize` holds it.
pub open spec fn more(a: int, b: int) -> int {
    if a + b > usize::MAX {
        usize::MAX as int
    } else {
        a + b
    }
}

/// The cache after entries were dropped, the one used longest ago first, until the bytes counted
/// are within the limit or nothing is left.
pub open spec fn evicted(c: CacheModel) -> CacheModel
    decreases c.entries.len(),
{
    if c.current_bytes > c.bytes_limit && c.entries.len() > 0 {
        evicted(
            CacheModel {
                entries: c.entries.drop_last(),
                current_bytes: less(c.current_bytes, c.entries.last().1.0.len() as int),
                ..c
            },
        )
    } else {
        c
    }
}

/// The cache with an entry put, before anything is dropped.
pub open spec fn entered(
    c: CacheModel,
    key: (Seq<char>, u32),
    value: (Seq<u8>, u32, u32),
) -> CacheModel {
    let before = if has_key(c.entries, key) {
        less(c.current_bytes, value_of(c.entries, key).0.len() as int)
    } else {
        c.current_bytes
    };
    CacheModel {
        entries: entries_put(c.entries, c.capacity, key, value),
        current_bytes: more(before, value.0.len() as int),
        ..c
    }
}

/// The cache after an image was put. An image over the limit is not taken.
pub open spec fn cache_put(
    c: CacheModel,
    key: (Seq<char>, u32),
    value: (Seq<u8>, u32, u32),
) -> CacheModel {
    if c.bytes_limit == 0 || value.0.len() > c.bytes_limit {
        c
    } else {
        evicted(entered(c, key, value))
    }
}

/// The image of a key, if the cache has it.
pub open spec fn cache_found(c: CacheModel, key: (Seq<char>, u32)) -> Option<ImageModel> {
    if c.bytes_limit != 0 && has_key(c.entries, key) {
        let v = value_of(c.entries, key);
        Some(ImageModel { pixels: v.0, width: v.1, height: v.2 })
    } else {
        None
    }
}

/// The cache after a key was looked up.
pub open spec fn cache_touched(c: CacheModel, key: (Seq<char>, u32)) -> CacheModel {
    if cache_found(c, key) is Some {
        CacheModel {
            entries: in_front(key, value_of(c.entries, key), without(c.entries, key)),
            ..c
        }
    } else {
        c
    }
}

/// A new cache: its places follow from the limit and what an image is taken to need.
pub open spec fn cache_new(bytes_limit: int) -> CacheModel {
    let places = bytes_limit / AVERAGE_DECODED_IMAGE_BYTES as int;
    CacheModel {
        entries: Seq::empty(),
        capacity: if places > 1 {
            places as nat
        } else {
            1
        },
        bytes_limit,
        current_bytes: 0,
    }
}

/// A cache of decoded images.
pub struct DecodedImageCache {
    entries: lru::LruCache<(String, u32), (Vec<u8>, u32, u32)>,
    bytes_limit: usize,
    current_bytes: usize,
}

impl View for DecodedImageCache {
    type V = CacheModel;

    closed spec fn view(&self) -> CacheModel {
        CacheModel {
            entries: lru_entries(self.entries),
            capacity: lru_capacity(self.entries),
            bytes_limit: self.bytes_limit as int,
            current_bytes: self.current_bytes as int,
        }
    }
}

impl DecodedImageCache {
    /// An empty cache.
    pub fn new(bytes_limit: usize) -> (r: Self)
        ensures
            r@ == cache_new(bytes_limit as int),
    {
        let places: usize = bytes_limit / AVERAGE_DECODED_IMAGE_BYTES;
        let capacity: usize = if places > 1 {
            places
        } else {
            1
        };
        DecodedImageCache { entries: lru_new(capacity), bytes_limit, current_bytes: 0 }
    }

    /// Empties the cache and sets its limit.
    pub fn reset(&mut self, bytes_limit: usize)
        ensures
            final(self)@ == cache_new(bytes_limit as int),
    {
        *self = DecodedImageCache::new(bytes_limit);
    }

    /// The image of a path and a page.
    pub fn get(&mut self, path: &str, page: u32) -> (r: Option<DecodedImage>)
        ensures
            r is Some <==> cache_found(old(self)@, (path@, page)) is Some,
            r is Some ==> Some(r->Some_0@) == cache_found(old(self)@, (path@, page)),
            final(self)@ == cache_touched(old(self)@, (path@, page)),
    {
        if self.bytes_limit == 0 {
            return None;
        }
        let key: (String, u32) = (path.to_owned(), page);
        match lru_get(&mut self.entries, &key) {
            Some((pixels, width, height)) => Some(DecodedImage { pixels, width, height }),
            None => None,
        }
    }

    /// Keeps the image of a path and a page.
    pub fn put(&mut self, path: &str, page: u32, image: &DecodedImage)
        ensures
            final(self)@ == cache_put(
                old(self)@,
                (path@, page),
                (image.pixels@, image.width, image.height),
            ),
    {
        if self.bytes_limit == 0 {
            return ;
        }
        let bytes: usize = image.pixels.len();
        if bytes > self.bytes_limit {
            return ;
        }
        let ghost c = self@;
        let key: (String, u32) = (path.to_owned(), page);
        let pixels: Vec<u8> = vstd::slice::slice_to_vec(image.pixels.as_slice());
        let ghost value = (pixels@, image.width, image.height);
        match lru_put(&mut self.entries, key, (pixels, image.width, image.height)) {
            Some(previous) => {
                self.current_bytes = self.current_bytes.saturating_sub(previous.0.len());
            },
            None => {},
        }
        self.current_bytes = self.current_bytes.saturating_add(bytes);
        assert(self@ == entered(c, (path@, page), value));
        let mut more_to_drop: bool = true;
        while more_to_drop && self.current_bytes > self.bytes_limit
            invariant
                evicted(self@) == evicted(entered(c, (path@, page), value)),
                !more_to_drop ==> self@.entries.len() == 0,
            decreases
                self@.entries.len(),
                (if more_to_drop {
                    1int
                } else {
                    0int
                }),
        {
            match lru_pop(&mut self.entries) {
                Some(dropped) => {
                    self.current_bytes = self.current_bytes.saturating_sub((dropped.1).0.len());
                },
                None => {
                    more_to_drop = false;
                },
            }
        }
    }
}

// ---- laws ----
/// What is counted covers all entries, and is within the limit unless nothing is left; no key
/// occurs twice.
pub open spec fn bounded(c: CacheModel) -> bool {
    &&& total_bytes(c.entries) <= c.current_bytes <= usize::MAX
    &&& c.current_bytes <= c.bytes_limit || c.entries.len() == 0
    &&& distinct(c.entries)
    &&& c.capacity >= 1
}

/// What is counted is what the entries have.
pub open spec fn exact(c: CacheModel) -> bool {
    c.current_bytes == total_bytes(c.entries)
}

proof fn lemma_total_nonneg(e: Seq<((Seq<char>, u32), (Seq<u8>, u32, u32))>)
    ensures
        total_bytes(e) >= 0,
    decreases e.len(),
{
    if e.len() > 0 {
        lemma_total_nonneg(e.drop_last());
    }
}

/// Bytes with one more entry in front.
proof fn lemma_total_front(
    key: (Seq<char>, u32),
    value: (Seq<u8>, u32, u32),
    e: Seq<((Seq<char>, u32), (Seq<u8>, u32, u32))>,
)
    ensures
        total_bytes(in_front(key, value, e)) == value.0.len() + total_bytes(e),
    decreases e.len(),
{
    let f = in_front(key, value, e);
    if e.len() == 0 {
        assert(f.drop_last() =~= Seq::<((Seq<char>, u32), (Seq<u8>, u32, u32))>::empty());
        assert(total_bytes(f.drop_last()) == 0);
    } else {
        lemma_total_front(key, value, e.drop_last());
        assert(f.drop_last() =~= in_front(key, value, e.drop_last()));
        assert(f.last() == e.last());
    }
}

/// Keys occur once.
pub open spec fn distinct(e: Seq<((Seq<char>, u32), (Seq<u8>, u32, u32))>) -> bool
    decreases e.len(),
{
    e.len() == 0 || (distinct(e.drop_last()) && !has_key(e.drop_last(), e.last().0))
}

proof fn lemma_without_absent(
    e: Seq<((Seq<char>, u32), (Seq<u8>, u32, u32))>,
    key: (Seq<char>, u32),
)
    requires
        !has_key(e, key),
    ensures
        without(e, key) == e,
    decreases e.len(),
{
    if e.len() > 0 {
        lemma_without_absent(e.drop_last(), key);
        assert(e.drop_last().push(e.last()) =~= e);
    }
}

/// Bytes without the entry of a key: at least its value's bytes less.
proof fn lemma_total_without(
    e: Seq<((Seq<char>, u32), (Seq<u8>, u32, u32))>,
    key: (Seq<char>, u32),
)
    ensures
        has_key(e, key) ==> total_bytes(without(e, key)) + value_of(e, key).0.len() <= total_bytes(
            e,
        ),
        !has_key(e, key) ==> total_bytes(without(e, key)) == total_bytes(e),
        distinct(e) && has_key(e, key) ==> total_bytes(without(e, key)) + value_of(
            e,
            key,
        ).0.len() == total_bytes(e),
    decreases e.len(),
{
    if e.len() > 0 {
        let rest = e.drop_last();
        lemma_total_without(rest, key);
        if e.last().0 == key {
            if !has_key(rest, key) {
                lemma_without_absent(rest, key);
            }
        } else {
            let w = without(rest, key);
            assert(w.push(e.last()).drop_last() =~= w);
        }
    } else {
        lemma_total_nonneg(e);
    }
}

/// Dropping keeps the count over the entries and ends within the limit, or with nothing.
proof fn lemma_evicted(c: CacheModel)
    requires
        total_bytes(c.entries) <= c.current_bytes <= usize::MAX,
        distinct(c.entries),
        c.capacity >= 1,
    ensures
        bounded(evicted(c)),
        evicted(c).bytes_limit == c.bytes_limit,
        evicted(c).capacity == c.capacity,
        exact(c) ==> exact(evicted(c)),
        evicted(c).entries.len() <= c.entries.len(),
        evicted(c).entries == c.entries.subrange(0, evicted(c).entries.len() as int),
    decreases c.entries.len(),
{
    lemma_total_nonneg(c.entries);
    if c.current_bytes > c.bytes_limit && c.entries.len() > 0 {
        let next = CacheModel {
            entries: c.entries.drop_last(),
            current_bytes: less(c.current_bytes, c.entries.last().1.0.len() as int),
            ..c
        };
        lemma_total_nonneg(next.entries);
        lemma_evicted(next);
        assert(c.entries.drop_last().subrange(0, evicted(c).entries.len() as int)
            =~= c.entries.subrange(0, evicted(c).entries.len() as int));
    } else {
        assert(c.entries =~= c.entries.subrange(0, c.entries.len() as int));
    }
}

/// The bytes of all images in the cache never come over its limit. Limits that leave no room to
/// count one more image are left out.
pub proof fn lemma_put_bounded(
    c: CacheModel,
    key: (Seq<char>, u32),
    value: (Seq<u8>, u32, u32),
)
    requires
        bounded(c),
        0 <= c.bytes_limit <= usize::MAX / 2,
        value.0.len() <= usize::MAX,
    ensures
        bounded(cache_put(c, key, value)),
        total_bytes(cache_put(c, key, value).entries) <= c.bytes_limit,
{
    lemma_total_nonneg(c.entries);
    if c.bytes_limit != 0 && value.0.len() <= c.bytes_limit {
        let e = c.entries;
        let mid = entered(c, key, value);
        lemma_total_without(e, key);
        if has_key(e, key) {
            lemma_total_front(key, value, without(e, key));
            lemma_without_has(e, key);
            lemma_distinct_without(e, key);
            lemma_distinct_front(key, value, without(e, key));
        } else if e.len() == c.capacity {
            lemma_total_front(key, value, e.drop_last());
            lemma_distinct_front(key, value, e.drop_last());
        } else {
            lemma_total_front(key, value, e);
            lemma_distinct_front(key, value, e);
        }
        lemma_evicted(mid);
    }
}

/// An image that was put is found, unless the cache is off, the image is over the limit, or the
/// count has come to stand above what the entries have.
pub proof fn lemma_put_get(c: CacheModel, key: (Seq<char>, u32), value: (Seq<u8>, u32, u32))
    requires
        bounded(c),
        exact(c),
        0 < c.bytes_limit <= usize::MAX / 2,
        c.entries.len() < c.capacity || has_key(c.entries, key),
        value.0.len() <= c.bytes_limit,
    ensures
        cache_found(cache_put(c, key, value), key) == Some(
            ImageModel { pixels: value.0, width: value.1, height: value.2 },
        ),
        exact(cache_put(c, key, value)),
{
    let e = c.entries;
    let mid = entered(c, key, value);
    let rest = if has_key(e, key) {
        without(e, key)
    } else {
        e
    };
    lemma_total_nonneg(e);
    lemma_total_nonneg(rest);
    lemma_total_without(e, key);
    lemma_total_front(key, value, rest);
    assert(mid.entries == in_front(key, value, rest));
    lemma_without_has(e, key);
    lemma_distinct_without(e, key);
    lemma_distinct_front(key, value, rest);
    lemma_evicted(mid);
    let after = evicted(mid);
    if after.entries.len() == 0 {
        lemma_kept(mid);
    }
    let n = after.entries.len() as int;
    assert(after.entries =~= in_front(key, value, rest.subrange(0, n - 1)));
    lemma_prefix_absent(rest, key, n - 1);
    lemma_front_found(key, value, rest.subrange(0, n - 1));
}

/// Dropping from an exact cache whose first entry is within the limit leaves that entry.
proof fn lemma_kept(c: CacheModel)
    requires
        exact(c),
        c.current_bytes <= usize::MAX,
        c.entries.len() > 0,
        c.entries[0].1.0.len() <= c.bytes_limit,
    ensures
        evicted(c).entries.len() > 0,
    decreases c.entries.len(),
{
    lemma_total_nonneg(c.entries);
    if c.current_bytes > c.bytes_limit {
        lemma_total_nonneg(c.entries.drop_last());
        if c.entries.len() == 1 {
            assert(total_bytes(c.entries.drop_last()) == 0);
        } else {
            lemma_kept(
                CacheModel {
                    entries: c.entries.drop_last(),
                    current_bytes: less(c.current_bytes, c.entries.last().1.0.len() as int),
                    ..c
                },
            );
        }
    }
}

proof fn lemma_without_has(
    e: Seq<((Seq<char>, u32), (Seq<u8>, u32, u32))>,
    key: (Seq<char>, u32),
)
    ensures
        !has_key(without(e, key), key),
    decreases e.len(),
{
    if e.len() > 0 {
        lemma_without_has(e.drop_last(), key);
        let w = without(e.drop_last(), key);
        assert(w.push(e.last()).drop_last() =~= w);
    }
}

proof fn lemma_prefix_absent(
    e: Seq<((Seq<char>, u32), (Seq<u8>, u32, u32))>,
    key: (Seq<char>, u32),
    n: int,
)
    requires
        !has_key(e, key),
        0 <= n <= e.len(),
    ensures
        !has_key(e.subrange(0, n), key),
    decreases e.len(),
{
    if n == e.len() {
        assert(e.subrange(0, n) =~= e);
    } else {
        lemma_prefix_absent(e.drop_last(), key, n);
        assert(e.drop_last().subrange(0, n) =~= e.subrange(0, n));
    }
}

proof fn lemma_front_found(
    key: (Seq<char>, u32),
    value: (Seq<u8>, u32, u32),
    e: Seq<((Seq<char>, u32), (Seq<u8>, u32, u32))>,
)
    requires
        !has_key(e, key),
    ensures
        has_key(in_front(key, value, e), key),
        value_of(in_front(key, value, e), key) == value,
    decreases e.len(),
{
    let f = in_front(key, value, e);
    if e.len() > 0 {
        lemma_front_found(key, value, e.drop_last());
        assert(f.drop_last() =~= in_front(key, value, e.drop_last()));
        assert(f.last() == e.last());
    } else {
        assert(f.last() == (key, value));
    }
}

proof fn lemma_without_other(
    e: Seq<((Seq<char>, u32), (Seq<u8>, u32, u32))>,
    key: (Seq<char>, u32),
    other: (Seq<char>, u32),
)
    requires
        !has_key(e, other),
    ensures
        !has_key(without(e, key), other),
    decreases e.len(),
{
    if e.len() > 0 {
        lemma_without_other(e.drop_last(), key, other);
        let w = without(e.drop_last(), key);
        assert(w.push(e.last()).drop_last() =~= w);
    }
}

proof fn lemma_distinct_without(
    e: Seq<((Seq<char>, u32), (Seq<u8>, u32, u32))>,
    key: (Seq<char>, u32),
)
    requires
        distinct(e),
    ensures
        distinct(without(e, key)),
    decreases e.len(),
{
    if e.len() > 0 {
        lemma_distinct_without(e.drop_last(), key);
        lemma_without_other(e.drop_last(), key, e.last().0);
        let w = without(e.drop_last(), key);
        assert(w.push(e.last()).drop_last() =~= w);
    }
}

proof fn lemma_front_other(
    key: (Seq<char>, u32),
    value: (Seq<u8>, u32, u32),
    e: Seq<((Seq<char>, u32), (Seq<u8>, u32, u32))>,
    other: (Seq<char>, u32),
)
    requires
        !has_key(e, other),
        other != key,
    ensures
        !has_key(in_front(key, value, e), other),
    decreases e.len(),
{
    let f = in_front(key, value, e);
    if e.len() > 0 {
        lemma_front_other(key, value, e.drop_last(), other);
        assert(f.drop_last() =~= in_front(key, value, e.drop_last()));
        assert(f.last() == e.last());
    } else {
        assert(!has_key(f.drop_last(), other) && f.last().0 == key);
    }
}

proof fn lemma_distinct_front(
    key: (Seq<char>, u32),
    value: (Seq<u8>, u32, u32),
    e: Seq<((Seq<char>, u32), (Seq<u8>, u32, u32))>,
)
    requires
        distinct(e),
        !has_key(e, key),
    ensures
        distinct(in_front(key, value, e)),
    decreases e.len(),
{
    let f = in_front(key, value, e);
    if e.len() > 0 {
        lemma_distinct_front(key, value, e.drop_last());
        assert(f.drop_last() =~= in_front(key, value, e.drop_last()));
        assert(f.last() == e.last());
        lemma_front_other(key, value, e.drop_last(), e.last().0);
    } else {
        assert(distinct(f.drop_last()) && !has_key(f.drop_last(), f.last().0));
    }
}

/// A new cache is within its limit.
pub proof fn lemma_new_bounded(bytes_limit: int)
    requires
        0 <= bytes_limit,
    ensures
        bounded(cache_new(bytes_limit)),
        exact(cache_new(bytes_limit)),
{
}

/// Looking an image up keeps the bytes counted and the images; a second look finds the same.
pub proof fn lemma_touched(c: CacheModel, key: (Seq<char>, u32))
    requires
        bounded(c),
    ensures
        bounded(cache_touched(c, key)),
        cache_found(cache_touched(c, key), key) == cache_found(c, key),
{
    if cache_found(c, key) is Some {
        let value = value_of(c.entries, key);
        lemma_total_without(c.entries, key);
        lemma_total_front(key, value, without(c.entries, key));
        lemma_without_has(c.entries, key);
        lemma_distinct_without(c.entries, key);
        lemma_distinct_front(key, value, without(c.entries, key));
        lemma_front_found(key, value, without(c.entries, key));
    }
}

/// A cache that is off neither keeps nor finds anything.
pub proof fn lemma_off(c: CacheModel, key: (Seq<char>, u32), value: (Seq<u8>, u32, u32))
    requires
        c.bytes_limit == 0,
    ensures
        cache_put(c, key, value) == c,
        cache_found(c, key) is None,
{
}

/// The limit in bytes for a limit in mebibytes, the greatest there is where it does not fit.
pub open spec fn limit_of(tile_cache_mb: int) -> int {
    if tile_cache_mb * 1048576 > usize::MAX {
        usize::MAX as int
    } else {
        tile_cache_mb * 1048576
    }
}

/// Empties the cache and sets its limit, in mebibytes.
pub fn init_decoded_image_cache(cache: &mut DecodedImageCache, tile_cache_mb: u64)
    ensures
        final(cache)@ == cache_new(limit_of(tile_cache_mb as int)),
{
    let bytes: u128 = tile_cache_mb as u128 * 1048576;
    let limit: usize = if bytes > usize::MAX as u128 {
        usize::MAX
    } else {
        bytes as usize
    };
    cache.reset(limit);
}

/// What is given up is what was not used for longest: the entries that stay are the most recent ones.
pub proof fn lemma_oldest_leave(c: CacheModel)
    ensures
        evicted(c).entries.len() <= c.entries.len(),
        evicted(c).entries == c.entries.take(evicted(c).entries.len() as int),
        c.current_bytes <= c.bytes_limit ==> evicted(c).entries == c.entries,
    decreases c.entries.len(),
{
    if c.current_bytes > c.bytes_limit && c.entries.len() > 0 {
        let less_one = CacheModel {
            entries: c.entries.drop_last(),
            current_bytes: less(c.current_bytes, c.entries.last().1.0.len() as int),
            ..c
        };
        lemma_oldest_leave(less_one);
        let n = evicted(c).entries.len() as int;
        assert(c.entries.drop_last().take(n) =~= c.entries.take(n));
    } else {
        assert(c.entries.take(c.entries.len() as int) =~= c.entries);
    }
}

} // verus!
