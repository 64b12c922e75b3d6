//! Parallel execution: maps, folds and chunk-wise work over index ranges.
//!
//! Every function takes a flag that forces sequential execution on the calling thread.
use rayon::iter::{IntoParallelIterator, ParallelIterator};
use vstd::prelude::*;

verus! {

/// Maps `f` over `0..n` on the thread pool: rayon's `into_par_iter`, `map` and `collect`.
///
/// Claims that the result holds, in index order, one outcome of `f` for every index.
#[verifier::external_body]
fn pool_map<T: Send, F: Fn(usize) -> T + Send + Sync>(n: usize, f: F) -> (r: Vec<T>)
    requires
        forall|i: usize| i < n ==> #[trigger] call_requires(f, (i,)),
    ensures
        r@.len() == n,
        forall|i: usize| i < n ==> call_ensures(f, (i,), #[trigger] r@[i as int]),
{
    (0..n).into_par_iter().map(f).collect()
}

/// Maps `f` over `0..n`, collecting results in index order.
pub fn parallel_map<T: Send, F: Fn(usize) -> T + Send + Sync>(
    n: usize,
    sequential: bool,
    f: F,
) -> (r: Vec<T>)
    requires
        forall|i: usize| i < n ==> #[trigger] call_requires(f, (i,)),
    ensures
        r@.len() == n,
        forall|i: usize| i < n ==> call_ensures(f, (i,), #[trigger] r@[i as int]),
{
    if !sequential {
        return pool_map(n, f);
    }
    let mut r: Vec<T> = Vec::new();
    let mut i: usize = 0;
    while i < n
        invariant
            i <= n,
            r@.len() == i,
            forall|k: usize| k < n ==> #[trigger] call_requires(f, (k,)),
            forall|k: usize| k < i ==> call_ensures(f, (k,), #[trigger] r@[k as int]),
        decreases n - i,
    {
        let v = f(i);
        r.push(v);
        i = i + 1;
    }
    r
}

/// `f` may succeed at index `i`.
pub open spec fn succeeds<T, E, F: Fn(usize) -> Result<T, E>>(f: F, i: usize) -> bool {
    exists|v: T| #[trigger] call_ensures(f, (i,), Ok::<T, E>(v))
}

/// `f` may fail with the given error at an index below `n`, and succeed at all indices before.
pub open spec fn fails<T, E, F: Fn(usize) -> Result<T, E>>(f: F, n: usize, e: E) -> bool {
    exists|i: usize|
        i < n && #[trigger] call_ensures(f, (i,), Err::<T, E>(e)) && forall|j: usize|
            j < i ==> succeeds(f, j)
}

/// Maps `f` over `0..n` where `f` may fail, collecting results in index order. If some index
/// fails, the error is that of the first one that does.
pub fn parallel_map_result<T: Send, E: Send, F: Fn(usize) -> Result<T, E> + Send + Sync>(
    n: usize,
    sequential: bool,
    f: F,
) -> (r: Result<Vec<T>, E>)
    requires
        forall|i: usize| i < n ==> #[trigger] call_requires(f, (i,)),
    ensures
        r is Ok ==> r->Ok_0@.len() == n,
        r is Ok ==> forall|i: usize|
            i < n ==> call_ensures(f, (i,), Ok::<T, E>(#[trigger] r->Ok_0@[i as int])),
        r is Err ==> fails(f, n, r->Err_0),
{
    if !sequential {
        let ghost f0 = f;
        let all: Vec<Result<T, E>> = pool_map(n, f);
        return first_error::<T, E, F>(all, Ghost(f0), n);
    }
    let mut out: Vec<T> = Vec::new();
    let mut failed: Option<E> = None;
    let mut i: usize = 0;
    while i < n && failed.is_none()
        invariant
            i <= n,
            failed is None ==> out@.len() == i,
            forall|k: usize| k < n ==> #[trigger] call_requires(f, (k,)),
            failed is None ==> forall|k: usize|
                k < i ==> call_ensures(f, (k,), Ok::<T, E>(#[trigger] out@[k as int])),
            failed matches Some(e) ==> fails(f, n, e),
        decreases n - i,
    {
        assert(call_requires(f, (i,)));
        match f(i) {
            Ok(v) => {
                out.push(v);
            },
            Err(e) => {
                assert forall|j: usize| j < i implies succeeds(f, j) by {
                    assert(call_ensures(f, (j,), Ok::<T, E>(out@[j as int])));
                }
                assert(call_ensures(f, (i,), Err::<T, E>(e)));
                assert(fails(f, n, e));
                failed = Some(e);
            },
        }
        i = i + 1;
    }
    match failed {
        Some(e) => Err(e),
        None => Ok(out),
    }
}

/// All successes in order, or the first error.
fn first_error<T, E, F: Fn(usize) -> Result<T, E>>(
    all: Vec<Result<T, E>>,
    Ghost(f): Ghost<F>,
    n: usize,
) -> (r: Result<Vec<T>, E>)
    requires
        all@.len() == n,
        forall|i: usize| i < n ==> call_ensures(f, (i,), #[trigger] all@[i as int]),
    ensures
        r is Ok ==> r->Ok_0@.len() == n,
        r is Ok ==> forall|i: usize|
            i < n ==> call_ensures(f, (i,), Ok::<T, E>(#[trigger] r->Ok_0@[i as int])),
        r is Err ==> fails(f, n, r->Err_0),
{
    let ghost results = all@;
    let mut rest: Vec<Result<T, E>> = all;
    let mut back: Vec<T> = Vec::new();
    let mut failed: Option<E> = None;
    let ghost mut at: int = n as int;
    // from the last one on, keeping what lies before the error that was seen last
    while rest.len() > 0
        invariant
            rest@.len() <= at <= n,
            results.len() == n,
            rest@ == results.take(rest@.len() as int),
            rest@.len() + back@.len() == at,
            failed is None ==> at == n,
            failed matches Some(e) ==> at < n && results[at] == Err::<T, E>(e),
            forall|k: int|
                0 <= k < back@.len() ==> results[at - 1 - k] == Ok::<T, E>(#[trigger] back@[k]),
        decreases rest@.len(),
    {
        let ghost last = rest@.len() - 1;
        match rest.pop() {
            None => {
                assert(false);
            },
            Some(Ok(v)) => {
                back.push(v);
            },
            Some(Err(e)) => {
                assert(results[last] == Err::<T, E>(e));
                proof {
                    at = last;
                }
                failed = Some(e);
                back.clear();
            },
        }
    }
    if let Some(e) = failed {
        proof {
            let i = at as usize;
            assert(call_ensures(f, (i,), results[i as int]));
            assert forall|j: usize| j < i implies succeeds(f, j) by {
                let v = back@[at - 1 - j];
                assert(results[j as int] == Ok::<T, E>(v));
                assert(call_ensures(f, (j,), results[j as int]));
            }
            assert(call_ensures(f, (i,), Err::<T, E>(e)));
        }
        return Err(e);
    }
    let mut out: Vec<T> = Vec::new();
    while back.len() > 0
        invariant
            out@.len() + back@.len() == n,
            results.len() == n,
            forall|k: int|
                0 <= k < back@.len() ==> results[n - 1 - k] == Ok::<T, E>(#[trigger] back@[k]),
            forall|k: int| 0 <= k < out@.len() ==> results[k] == Ok::<T, E>(#[trigger] out@[k]),
        decreases back@.len(),
    {
        let ghost last = back@[back@.len() - 1];
        match back.pop() {
            None => {
                assert(false);
            },
            Some(v) => {
                out.push(v);
            },
        }
    }
    assert forall|i: usize| i < n implies call_ensures(
        f,
        (i,),
        Ok::<T, E>(#[trigger] out@[i as int]),
    ) by {
        assert(results[i as int] == Ok::<T, E>(out@[i as int]));
        assert(call_ensures(f, (i,), results[i as int]));
    }
    Ok(out)
}

/// Calls `f` for every index.
pub fn parallel_for_each<F: Fn(usize) + Send + Sync>(n: usize, sequential: bool, f: F)
    requires
        forall|i: usize| i < n ==> #[trigger] call_requires(f, (i,)),
    ensures
        forall|i: usize| i < n ==> #[trigger] call_ensures(f, (i,), ()),
{
    let done: Vec<()> = parallel_map(n, sequential, f);
    assert forall|i: usize| i < n implies #[trigger] call_ensures(f, (i,), ()) by {
        assert(done@[i as int] == ());
    }
}

/// A statement about ranges of indices and what was accumulated over them that holds of empty
/// ranges, is kept by one more index, and is kept where two ranges meet.
pub open spec fn accumulates<
    T,
    Init: Fn() -> T,
    Fold: Fn(T, usize) -> T,
    Reduce: Fn(T, T) -> T,
>(p: spec_fn(int, int, T) -> bool, n: int, init: Init, fold: Fold, reduce: Reduce) -> bool {
    &&& forall|lo: int, t: T|
        #![trigger p(lo, lo, t)]
        0 <= lo <= n && call_ensures(init, (), t) ==> p(lo, lo, t)
    &&& forall|lo: int, i: usize, t: T, t2: T|
        #![trigger p(lo, i as int, t), call_ensures(fold, (t, i), t2)]
        0 <= lo <= i < n && p(lo, i as int, t) && call_ensures(fold, (t, i), t2) ==> p(
            lo,
            i + 1,
            t2,
        )
    &&& forall|lo: int, mid: int, hi: int, a: T, b: T, c: T|
        #![trigger p(lo, mid, a), p(mid, hi, b), call_ensures(reduce, (a, b), c)]
        0 <= lo <= mid <= hi <= n && p(lo, mid, a) && p(mid, hi, b) && call_ensures(
            reduce,
            (a, b),
            c,
        ) ==> p(lo, hi, c)
}

/// Folds pieces of `0..n` on the thread pool and reduces them to one value: rayon's
/// `into_par_iter`, `fold` and `reduce`.
///
/// Claims that every statement that holds of what `init` makes, is kept by `fold` and is kept
/// where `reduce` joins neighbouring pieces, holds of the whole range and the result.
#[verifier::external_body]
fn pool_accumulate<
    T: Send,
    Init: Fn() -> T + Send + Sync,
    Fold: Fn(T, usize) -> T + Send + Sync,
    Reduce: Fn(T, T) -> T + Send + Sync,
>(n: usize, init: Init, fold: Fold, reduce: Reduce) -> (r: T)
    requires
        call_requires(init, ()),
        forall|t: T, i: usize| i < n ==> #[trigger] call_requires(fold, (t, i)),
        forall|a: T, b: T| #[trigger] call_requires(reduce, (a, b)),
    ensures
        forall|p: spec_fn(int, int, T) -> bool|
            #[trigger] accumulates(p, n as int, init, fold, reduce) ==> p(0, n as int, r),
{
    (0..n).into_par_iter().fold(|| init(), |acc, i| fold(acc, i)).reduce(|| init(), |a, b| reduce(a, b))
}

/// The steps of a fold over the first indices, from one initial value on.
pub open spec fn fold_steps<T, Init: Fn() -> T, Fold: Fn(T, usize) -> T>(
    steps: Seq<T>,
    init: Init,
    fold: Fold,
) -> bool {
    &&& steps.len() >= 1
    &&& call_ensures(init, (), steps[0])
    &&& forall|i: int|
        0 <= i < steps.len() - 1 ==> call_ensures(
            fold,
            (#[trigger] steps[i], i as usize),
            steps[i + 1],
        )
}

/// The value is what folding `0..n` in order comes to; without indices, an initial value.
pub open spec fn folded_in_order<T, Init: Fn() -> T, Fold: Fn(T, usize) -> T>(
    n: int,
    init: Init,
    fold: Fold,
    r: T,
) -> bool {
    exists|steps: Seq<T>| #[trigger]
        fold_steps(steps, init, fold) && steps.len() == n + 1 && steps[n] == r
}

/// Accumulates over `0..n`: pieces are folded on their own and reduced to one value. Fewer than
/// `min_parallel` indices are folded on the calling thread.
pub fn parallel_accumulate<
    T: Send,
    Init: Fn() -> T + Send + Sync,
    Fold: Fn(T, usize) -> T + Send + Sync,
    Reduce: Fn(T, T) -> T + Send + Sync,
>(n: usize, min_parallel: usize, sequential: bool, init: Init, fold: Fold, reduce: Reduce) -> (r: T)
    requires
        call_requires(init, ()),
        forall|t: T, i: usize| i < n ==> #[trigger] call_requires(fold, (t, i)),
        forall|a: T, b: T| #[trigger] call_requires(reduce, (a, b)),
    ensures
        forall|p: spec_fn(int, int, T) -> bool|
            #[trigger] accumulates(p, n as int, init, fold, reduce) ==> p(0, n as int, r),
        sequential || n < min_parallel ==> folded_in_order(n as int, init, fold, r),
{
    if !sequential && n >= min_parallel {
        return pool_accumulate(n, init, fold, reduce);
    }
    let mut acc: T = init();
    let ghost mut steps: Seq<T> = seq![acc];
    let mut i: usize = 0;
    assert forall|p: spec_fn(int, int, T) -> bool| #[trigger]
        accumulates(p, n as int, init, fold, reduce) implies p(0, 0, acc) by {}
    while i < n
        invariant
            i <= n,
            forall|t: T, k: usize| k < n ==> #[trigger] call_requires(fold, (t, k)),
            forall|p: spec_fn(int, int, T) -> bool|
                #[trigger] accumulates(p, n as int, init, fold, reduce) ==> p(0, i as int, acc),
            fold_steps(steps, init, fold),
            steps.len() == i + 1,
            steps[i as int] == acc,
        decreases n - i,
    {
        let ghost before = acc;
        acc = fold(acc, i);
        proof {
            let more = steps.push(acc);
            assert forall|k: int| 0 <= k < more.len() - 1 implies call_ensures(
                fold,
                (#[trigger] more[k], k as usize),
                more[k + 1],
            ) by {
                if k < i {
                    assert(more[k] == steps[k]);
                }
            }
            steps = more;
        }
        assert forall|p: spec_fn(int, int, T) -> bool| #[trigger]
            accumulates(p, n as int, init, fold, reduce) implies p(0, i + 1, acc) by {
            assert(p(0, i as int, before));
            assert(call_ensures(fold, (before, i), acc));
        }
        i = i + 1;
    }
    acc
}

/// Chunk `i` of data in chunks of `size`; the last one may be shorter.
pub open spec fn chunk_of<T>(data: Seq<T>, size: int, i: int) -> Seq<T> {
    data.subrange(
        i * size,
        if (i + 1) * size < data.len() {
            (i + 1) * size
        } else {
            data.len() as int
        },
    )
}

/// Chunk `i` of the data was replaced by what `f` makes of it.
pub open spec fn chunk_done<T, F: Fn(usize, Vec<T>) -> Vec<T>>(
    before: Seq<T>,
    after: Seq<T>,
    size: int,
    f: F,
    i: usize,
) -> bool {
    exists|c: Vec<T>, r: Vec<T>|
        c@ == chunk_of(before, size, i as int) && r@ == chunk_of(after, size, i as int)
            && #[trigger] call_ensures(f, (i, c), r)
}

/// What `f` makes of chunk `i`.
pub open spec fn chunk_made<T, F: Fn(usize, Vec<T>) -> Vec<T>>(
    data: Seq<T>,
    size: int,
    f: &F,
    i: usize,
    r: Vec<T>,
) -> bool {
    &&& r@.len() == chunk_of(data, size, i as int).len()
    &&& exists|c: Vec<T>|
        c@ == chunk_of(data, size, i as int) && #[trigger] call_ensures(*f, (i, c), r)
}

fn make_chunk<T: Copy, F: Fn(usize, Vec<T>) -> Vec<T>>(
    data: &Vec<T>,
    size: usize,
    i: usize,
    f: &F,
) -> (r: Vec<T>)
    requires
        size >= 1,
        i * size < data@.len(),
        forall|k: usize, c: Vec<T>| #[trigger] call_requires(*f, (k, c)),
        forall|k: usize, c: Vec<T>, r: Vec<T>|
            #[trigger] call_ensures(*f, (k, c), r) ==> r@.len() == c@.len(),
    ensures
        chunk_made(data@, size as int, f, i, r),
{
    let c: Vec<T> = copy_chunk(data, size, i);
    let ghost c0 = c;
    assert(call_requires(*f, (i, c)));
    let r: Vec<T> = f(i, c);
    assert(call_ensures(*f, (i, c0), r));
    r
}

/// One chunk as a vector.
fn copy_chunk<T: Copy>(data: &Vec<T>, size: usize, i: usize) -> (c: Vec<T>)
    requires
        size >= 1,
        i * size < data@.len(),
    ensures
        c@ == chunk_of(data@, size as int, i as int),
{
    let total: usize = data.len();
    assert((i + 1) * size == i * size + size) by (nonlinear_arith);
    assert(i * size >= 0) by (nonlinear_arith);
    let start: usize = i * size;
    let end: usize = if size < total - start {
        start + size
    } else {
        total
    };
    let mut c: Vec<T> = Vec::new();
    let mut k: usize = start;
    while k < end
        invariant
            start <= k <= end <= data@.len(),
            c@ == data@.subrange(start as int, k as int),
        decreases end - k,
    {
        c.push(data[k]);
        k = k + 1;
        assert(c@ =~= data@.subrange(start as int, k as int));
    }
    c
}

/// Replaces each chunk of `chunk_size` elements by what `f` makes of it; `f` gets the chunk's
/// index and keeps its length.
pub fn parallel_chunks_mut<T: Copy + Send + Sync, F: Fn(usize, Vec<T>) -> Vec<T> + Send + Sync>(
    data: &mut Vec<T>,
    chunk_size: usize,
    sequential: bool,
    f: F,
)
    requires
        chunk_size >= 1,
        forall|i: usize, c: Vec<T>| #[trigger] call_requires(f, (i, c)),
        forall|i: usize, c: Vec<T>, r: Vec<T>|
            #[trigger] call_ensures(f, (i, c), r) ==> r@.len() == c@.len(),
    ensures
        final(data)@.len() == old(data)@.len(),
        forall|i: usize|
            i * chunk_size < old(data)@.len() ==> #[trigger] chunk_done(
                old(data)@,
                final(data)@,
                chunk_size as int,
                f,
                i,
            ),
{
    let total: usize = data.len();
    let count: usize = if total % chunk_size == 0 {
        total / chunk_size
    } else {
        proof {
            let t = total as int;
            let c = chunk_size as int;
            assert(t / c < t) by (nonlinear_arith)
                requires
                    t % c != 0,
                    c >= 1,
                    t >= 0,
            ;
        }
        total / chunk_size + 1
    };
    let ghost size = chunk_size as int;
    let ghost before = data@;
    proof {
        lemma_chunk_count(total as int, size, count as int);
    }
    let parts: Vec<Vec<T>> = {
        let source: &Vec<T> = data;
        let g: &F = &f;
        let work = |i: usize| -> (r: Vec<T>)
            requires
                i * chunk_size < source@.len(),
            ensures
                chunk_made(source@, chunk_size as int, g, i, r),
            { make_chunk(source, chunk_size, i, g) };
        let parts: Vec<Vec<T>> = parallel_map(count, sequential, work);
        assert forall|i: usize| i < count implies chunk_made(
            before,
            size,
            &f,
            i,
            #[trigger] parts@[i as int],
        ) by {
            assert(call_ensures(work, (i,), parts@[i as int]));
        }
        parts
    };
    assert forall|i: usize| i < parts@.len() implies (#[trigger] parts@[i as int])@.len() == (if (i
        + 1) * chunk_size < total {
        chunk_size as int
    } else {
        total - i * chunk_size
    }) by {
        assert(chunk_made(before, size, &f, i, parts@[i as int]));
        assert((i + 1) * chunk_size == i * chunk_size + chunk_size) by (nonlinear_arith);
        assert((i * chunk_size < total) == (i < count));
        assert(i * chunk_size >= 0) by (nonlinear_arith);
    }
    let out: Vec<T> = join_chunks(&parts, chunk_size, total);
    assert forall|i: usize| i * chunk_size < total implies #[trigger] chunk_done(
        before,
        out@,
        size,
        f,
        i,
    ) by {
        assert(parts@[i as int]@ == chunk_of(out@, size, i as int));
        assert(chunk_made(before, size, &f, i, parts@[i as int]));
        let c = choose|c: Vec<T>|
            c@ == chunk_of(before, size, i as int) && #[trigger] call_ensures(
                f,
                (i, c),
                parts@[i as int],
            );
        assert(call_ensures(f, (i, c), parts@[i as int]));
    }
    *data = out;
}

/// The chunks are those that start within the data.
proof fn lemma_chunk_count(total: int, size: int, count: int)
    requires
        total >= 0,
        size >= 1,
        count == if total % size == 0 {
            total / size
        } else {
            total / size + 1
        },
    ensures
        forall|i: int| 0 <= i ==> (#[trigger] (i * size) < total) == (i < count),
{
    vstd::arithmetic::div_mod::lemma_fundamental_div_mod(total, size);
    vstd::arithmetic::div_mod::lemma_mod_bound(total, size);
    let q = total / size;
    let r = total % size;
    assert forall|i: int| 0 <= i implies (#[trigger] (i * size) < total) == (i < count) by {
        if i < count {
            assert(i * size <= q * size && (r == 0 ==> i * size + size <= q * size))
                by (nonlinear_arith)
                requires
                    i <= q,
                    r == 0 ==> i + 1 <= q,
                    size >= 1,
            ;
            assert(q * size == size * q) by (nonlinear_arith);
        } else {
            assert(i * size >= q * size && (r != 0 ==> i * size >= q * size + size))
                by (nonlinear_arith)
                requires
                    i >= q,
                    r != 0 ==> i >= q + 1,
                    size >= 1,
            ;
            assert(q * size == size * q) by (nonlinear_arith);
        }
    }
}

/// Joins chunks that have the lengths of the chunks of `total` elements.
fn join_chunks<T: Copy>(parts: &Vec<Vec<T>>, size: usize, total: usize) -> (out: Vec<T>)
    requires
        size >= 1,
        forall|i: int| 0 <= i ==> (#[trigger] (i * size) < total) == (i < parts@.len()),
        forall|i: usize|
            i < parts@.len() ==> (#[trigger] parts@[i as int])@.len() == (if (i + 1) * size
                < total {
                size as int
            } else {
                total - i * size
            }),
    ensures
        out@.len() == total,
        forall|i: int|
            0 <= i < parts@.len() ==> (#[trigger] parts@[i])@ == chunk_of(out@, size as int, i),
{
    let mut out: Vec<T> = Vec::new();
    let mut i: usize = 0;
    let ghost s = size as int;
    while i < parts.len()
        invariant
            i <= parts@.len(),
            size >= 1,
            s == size,
            forall|k: int| 0 <= k ==> (#[trigger] (k * size) < total) == (k < parts@.len()),
            forall|k: usize|
                k < parts@.len() ==> (#[trigger] parts@[k as int])@.len() == (if (k + 1) * size
                    < total {
                    size as int
                } else {
                    total - k * size
                }),
            out@.len() == if i < parts@.len() {
                i * size
            } else {
                total as int
            },
            forall|k: int|
                0 <= k < i ==> (#[trigger] parts@[k])@ == out@.subrange(
                    k * s,
                    k * s + parts@[k]@.len(),
                ),
        decreases parts@.len() - i,
    {
        let part = &parts[i];
        let ghost start = out@;
        let mut k: usize = 0;
        assert(start + part@.take(0) =~= start);
        while k < part.len()
            invariant
                k <= part@.len(),
                out@ == start + part@.take(k as int),
            decreases part@.len() - k,
        {
            out.push(part[k]);
            k = k + 1;
            assert(out@ =~= start + part@.take(k as int));
        }
        proof {
            assert(part@.take(k as int) =~= part@);
            assert((i + 1) * size == i * size + size) by (nonlinear_arith);
            assert(((i + 1) * size < total) == (i + 1 < parts@.len()));
            assert((i * size < total) == (i < parts@.len()));
            assert forall|j: int| 0 <= j < i + 1 implies (#[trigger] parts@[j])@
                == out@.subrange(j * s, j * s + parts@[j]@.len()) by {
                if j < i {
                    assert((j + 1) * s <= i * s) by (nonlinear_arith)
                        requires
                            j + 1 <= i,
                            s >= 1,
                    ;
                    assert((j + 1) * s == j * s + s) by (nonlinear_arith);
                    assert(j * s >= 0) by (nonlinear_arith)
                        requires
                            j >= 0,
                            s >= 1,
                    ;
                    let ju = j as usize;
                    assert(parts@[ju as int]@.len() <= s);
                    assert(start.subrange(j * s, j * s + parts@[j]@.len()) =~= out@.subrange(
                        j * s,
                        j * s + parts@[j]@.len(),
                    ));
                } else {
                    assert(out@.subrange(j * s, j * s + parts@[j]@.len()) =~= part@);
                }
            }
        }
        i = i + 1;
    }
    proof {
        if parts@.len() == 0 {
            assert((0 * size < total) == (0 < parts@.len()));
        }
        assert forall|k: int| 0 <= k < parts@.len() implies (#[trigger] parts@[k])@ == chunk_of(
            out@,
            s,
            k,
        ) by {
            let ku = k as usize;
            assert((k + 1) * s == k * s + s) by (nonlinear_arith);
            assert(parts@[ku as int]@.len() == if (ku + 1) * size < total {
                size as int
            } else {
                total - ku * size
            });
        }
    }
    out
}

} // verus!
