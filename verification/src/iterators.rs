//! Work partitioning and the fill engine.
//!
//! `get_work` splits an index domain `[0, len)` into contiguous, pairwise
//! disjoint chunks whose sizes differ by at most one; `fill_chunked` walks
//! those chunks and rewrites every slot of a vector exactly once from a
//! per-index function. The engine's correctness rests entirely on the
//! partition invariant: every index is owned by exactly one chunk.

use vstd::prelude::*;

verus! {

/// A half-open contiguous index range `[start, end)` assigned to one worker.
#[derive(Clone, Copy, Debug, PartialEq, Eq, Structural)]
pub struct Chunk {
    pub start: usize,
    pub end: usize,
}

pub open spec fn chunk_len(c: Chunk) -> int {
    c.end - c.start
}

/// The chunks tile `[0, len)` without gaps: the first starts at 0, each chunk
/// is non-empty and begins where its predecessor ended, and the last ends at
/// `len`.
pub open spec fn chunks_tile(chunks: Seq<Chunk>, len: int) -> bool {
    &&& 0 <= len
    &&& (chunks.len() == 0 <==> len == 0)
    &&& (len > 0 ==> chunks[0].start == 0 && chunks[chunks.len() - 1].end == len)
    &&& (forall|k: int| 0 <= k < chunks.len() ==> (#[trigger] chunks[k]).start < chunks[k].end)
    &&& (forall|k: int| 1 <= k < chunks.len() ==> (#[trigger] chunks[k]).start == chunks[k - 1].end)
}

/// Some chunk owns index `x`.
pub open spec fn covered(chunks: Seq<Chunk>, x: int) -> bool {
    exists|k: int| 0 <= k < chunks.len() && (#[trigger] chunks[k]).start <= x < chunks[k].end
}

/// The chunks are ordered by start, pairwise disjoint, stay within `[0, len)`,
/// and together cover every index of `[0, len)`.
pub open spec fn is_partition(chunks: Seq<Chunk>, len: int) -> bool {
    &&& (forall|k: int| 0 <= k < chunks.len() ==> (#[trigger] chunks[k]).end <= len)
    &&& (forall|k: int, l: int|
        0 <= k < l < chunks.len() ==> (#[trigger] chunks[k]).end <= (#[trigger] chunks[l]).start)
    &&& (forall|x: int| 0 <= x < len ==> #[trigger] covered(chunks, x))
}

/// No two chunks differ in size by more than one.
pub open spec fn balanced(chunks: Seq<Chunk>) -> bool {
    forall|k: int, l: int|
        0 <= k < chunks.len() && 0 <= l < chunks.len() ==> chunk_len(#[trigger] chunks[k])
            - chunk_len(#[trigger] chunks[l]) <= 1
}

/// Chunk `k` of a partition of `len` indices into `jobs` chunks holds
/// `len / jobs` indices, plus one of the `len % jobs` leftover indices if
/// `k` is early enough.
pub open spec fn fair_share(k: int, len: int, jobs: int) -> int {
    len / jobs + if k < len % jobs {
        1int
    } else {
        0int
    }
}

/// Splits `[0, len)` into `min(cores, len)` contiguous chunks, ordered by
/// ascending start, the remainder spread over the earliest chunks.
pub fn get_work(cores: usize, len: usize) -> (r: Vec<Chunk>)
    requires
        cores >= 1,
    ensures
        r@.len() == if len < cores {
            len
        } else {
            cores
        },
        chunks_tile(r@, len as int),
        forall|k: int| 0 <= k < r@.len() ==> chunk_len(#[trigger] r@[k]) == fair_share(
            k,
            len as int,
            r@.len() as int,
        ),
        is_partition(r@, len as int),
        balanced(r@),
{
    let mut out: Vec<Chunk> = Vec::new();
    if len == 0 {
        proof {
            lemma_tiling_is_partition(out@, 0);
        }
        return out;
    }
    let jobs: usize = if len < cores {
        len
    } else {
        cores
    };
    let base: usize = len / jobs;
    let rem: usize = len % jobs;
    proof {
        vstd::arithmetic::div_mod::lemma_fundamental_div_mod(len as int, jobs as int);
        assert(jobs as int * base as int == base as int * jobs as int) by (nonlinear_arith);
        assert(len as int == base as int * jobs as int + rem as int);
        assert(base >= 1) by (nonlinear_arith)
            requires
                1 <= jobs <= len,
                base == len as int / jobs as int,
        ;
        assert(rem >= 1 ==> base + base <= len) by (nonlinear_arith)
            requires
                len as int == base as int * jobs as int + rem as int,
                rem < jobs,
                base >= 0,
        ;
    }
    let mut start: usize = 0;
    let mut i: usize = 0;
    while i < jobs
        invariant
            1 <= jobs <= len,
            1 <= base,
            rem < jobs,
            rem >= 1 ==> base + base <= len,
            base == len as int / jobs as int,
            rem == len as int % jobs as int,
            len as int == base as int * jobs as int + rem as int,
            0 <= i <= jobs,
            out@.len() == i as int,
            start as int == i as int * base + if i < rem {
                i as int
            } else {
                rem as int
            },
            start <= len,
            forall|k: int| 0 <= k < i ==> chunk_len(#[trigger] out@[k]) == fair_share(
                k,
                len as int,
                jobs as int,
            ),
            forall|k: int| 0 <= k < i ==> (#[trigger] out@[k]).start < out@[k].end,
            forall|k: int| 1 <= k < i ==> (#[trigger] out@[k]).start == out@[k - 1].end,
            i > 0 ==> out@[0].start == 0,
            i > 0 ==> out@[i - 1].end == start,
        decreases jobs - i,
    {
        let size: usize = if i < rem {
            base + 1
        } else {
            base
        };
        proof {
            lemma_prefix_within_total(i as int, jobs as int, base as int, rem as int);
        }
        out.push(Chunk { start, end: start + size });
        start = start + size;
        i = i + 1;
    }
    proof {
        assert(start == len) by {
            assert(start as int == jobs as int * base + rem as int);
            assert(jobs as int * base == base * jobs) by (nonlinear_arith);
        }
        lemma_tiling_is_partition(out@, len as int);
        assert forall|k: int, l: int|
            0 <= k < out@.len() && 0 <= l < out@.len() implies chunk_len(#[trigger] out@[k])
            - chunk_len(#[trigger] out@[l]) <= 1 by {
            assert(chunk_len(out@[k]) == fair_share(k, len as int, jobs as int));
            assert(chunk_len(out@[l]) == fair_share(l, len as int, jobs as int));
        }
    }
    out
}

/// After placing the first `i` of `jobs` chunks, the next chunk still fits:
/// the indices handed out so far plus this chunk's share stay within `len`,
/// where `len == base * jobs + rem` and `rem < jobs`.
proof fn lemma_prefix_within_total(i: int, jobs: int, base: int, rem: int)
    requires
        0 <= i < jobs,
        0 <= rem < jobs,
        base >= 0,
    ensures
        i * base + (if i < rem {
            i
        } else {
            rem
        }) + (base + if i < rem {
            1int
        } else {
            0int
        }) <= base * jobs + rem,
        (i + 1) * base + (if i + 1 < rem {
            i + 1
        } else {
            rem
        }) == i * base + (if i < rem {
            i
        } else {
            rem
        }) + (base + if i < rem {
            1int
        } else {
            0int
        }),
{
    assert((i + 1) * base == i * base + base) by (nonlinear_arith);
    assert(i * base + base <= jobs * base) by (nonlinear_arith)
        requires
            i + 1 <= jobs,
            base >= 0,
    ;
    assert(jobs * base == base * jobs) by (nonlinear_arith);
}

/// Within a tiling, earlier chunks end no later than later chunks start.
proof fn lemma_tile_ordered(chunks: Seq<Chunk>, len: int, k: int, l: int)
    requires
        chunks_tile(chunks, len),
        0 <= k < l < chunks.len(),
    ensures
        chunks[k].end <= chunks[l].start,
    decreases l - k,
{
    if l > k + 1 {
        lemma_tile_ordered(chunks, len, k, l - 1);
        assert(chunks[l - 1].start < chunks[l - 1].end);
    }
}

/// Any index below the end of chunk `l` of a tiling is owned by some chunk.
proof fn lemma_tile_covers(chunks: Seq<Chunk>, len: int, x: int, l: int)
    requires
        chunks_tile(chunks, len),
        0 <= l < chunks.len(),
        0 <= x < chunks[l].end,
    ensures
        covered(chunks, x),
    decreases l,
{
    if x >= chunks[l].start {
        assert(chunks[l].start <= x < chunks[l].end);
    } else {
        assert(l > 0);
        assert(chunks[l].start == chunks[l - 1].end);
        lemma_tile_covers(chunks, len, x, l - 1);
    }
}

/// A gap-free tiling of `[0, len)` is a partition: ordered, pairwise
/// disjoint, within bounds, and covering every index.
pub proof fn lemma_tiling_is_partition(chunks: Seq<Chunk>, len: int)
    requires
        chunks_tile(chunks, len),
    ensures
        is_partition(chunks, len),
{
    let n = chunks.len() as int;
    assert forall|k: int| 0 <= k < n implies (#[trigger] chunks[k]).end <= len by {
        if k < n - 1 {
            lemma_tile_ordered(chunks, len, k, n - 1);
            assert(chunks[n - 1].start < chunks[n - 1].end);
        }
    }
    assert forall|k: int, l: int| 0 <= k < l < n implies (#[trigger] chunks[k]).end
        <= (#[trigger] chunks[l]).start by {
        lemma_tile_ordered(chunks, len, k, l);
    }
    assert forall|x: int| 0 <= x < len implies #[trigger] covered(chunks, x) by {
        assert(chunks[n - 1].end == len);
        lemma_tile_covers(chunks, len, x, n - 1);
    }
}

/// Rewrites every slot of `data` in place: slot `i` becomes an output of
/// `f(old value, i)`. The traversal is chunk by chunk over the partition
/// from `get_work`; because the chunks tile the index range, every slot is
/// written exactly once, whatever the worker count.
pub fn fill_chunked<T: Copy, F: Fn(T, usize) -> T>(data: &mut Vec<T>, workers: usize, f: &F)
    requires
        workers >= 1,
        forall|t: T, i: usize| i < old(data).len() ==> call_requires(f, (t, i)),
    ensures
        final(data)@.len() == old(data)@.len(),
        forall|i: int|
            0 <= i < old(data)@.len() ==> call_ensures(
                f,
                (old(data)@[i], i as usize),
                #[trigger] final(data)@[i],
            ),
{
    let ghost orig = data@;
    let chunks = get_work(workers, data.len());
    let mut ci: usize = 0;
    let mut pos: usize = 0;
    while ci < chunks.len()
        invariant
            data@.len() == orig.len(),
            chunks_tile(chunks@, orig.len() as int),
            is_partition(chunks@, orig.len() as int),
            forall|t: T, i: usize| i < orig.len() ==> call_requires(f, (t, i)),
            0 <= ci <= chunks@.len(),
            pos as int == if ci < chunks@.len() {
                chunks@[ci as int].start as int
            } else {
                orig.len() as int
            },
            forall|j: int| 0 <= j < pos ==> call_ensures(
                f,
                (orig[j], j as usize),
                #[trigger] data@[j],
            ),
            forall|j: int| pos <= j < orig.len() ==> data@[j] == orig[j],
        decreases chunks@.len() - ci,
    {
        let chunk = chunks[ci];
        let mut j: usize = chunk.start;
        while j < chunk.end
            invariant
                data@.len() == orig.len(),
                chunk.start <= j <= chunk.end,
                chunk.end <= orig.len(),
                forall|t: T, i: usize| i < orig.len() ==> call_requires(f, (t, i)),
                forall|k: int| 0 <= k < j ==> call_ensures(
                    f,
                    (orig[k], k as usize),
                    #[trigger] data@[k],
                ),
                forall|k: int| j <= k < orig.len() ==> data@[k] == orig[k],
            decreases chunk.end - j,
        {
            let cur = data[j];
            let next = f(cur, j);
            data.set(j, next);
            j = j + 1;
        }
        pos = chunk.end;
        ci = ci + 1;
        proof {
            if ci < chunks@.len() {
                assert(chunks@[ci as int].start == chunks@[ci - 1].end);
            }
        }
    }
}

/// Applies `f` to every slot in index order, single-threaded: slot `i`
/// becomes an output of `f(old value, i)`.
pub fn iter_mut<T: Copy, F: Fn(T, usize) -> T>(data: &mut Vec<T>, f: &F)
    requires
        forall|t: T, i: usize| i < old(data).len() ==> call_requires(f, (t, i)),
    ensures
        final(data)@.len() == old(data)@.len(),
        forall|i: int|
            0 <= i < old(data)@.len() ==> call_ensures(
                f,
                (old(data)@[i], i as usize),
                #[trigger] final(data)@[i],
            ),
{
    let ghost orig = data@;
    let mut i: usize = 0;
    while i < data.len()
        invariant
            data@.len() == orig.len(),
            forall|t: T, k: usize| k < orig.len() ==> call_requires(f, (t, k)),
            0 <= i <= orig.len(),
            forall|k: int| 0 <= k < i ==> call_ensures(f, (orig[k], k as usize), #[trigger] data@[k]),
            forall|k: int| i <= k < orig.len() ==> data@[k] == orig[k],
        decreases orig.len() - i,
    {
        let cur = data[i];
        let next = f(cur, i);
        data.set(i, next);
        i = i + 1;
    }
}

/// Law: filling is deterministic in the worker count. If the per-slot
/// function is pure — every output it admits for `(value, index)` equals
/// `g(value, index)` for one mathematical `g` — then any two buffers that
/// both arose by filling `before` with it are equal, however the work was
/// chunked.
pub proof fn lemma_fill_deterministic<T, F: Fn(T, usize) -> T>(
    f: F,
    before: Seq<T>,
    a: Seq<T>,
    b: Seq<T>,
    g: spec_fn(T, int) -> T,
)
    requires
        forall|t: T, i: usize, r: T| call_ensures(f, (t, i), r) ==> r == g(t, i as int),
        before.len() <= usize::MAX,
        a.len() == before.len(),
        b.len() == before.len(),
        forall|i: int| 0 <= i < before.len() ==> call_ensures(f, (before[i], i as usize), #[trigger] a[i]),
        forall|i: int| 0 <= i < before.len() ==> call_ensures(f, (before[i], i as usize), #[trigger] b[i]),
    ensures
        a == b,
{
    assert forall|i: int| 0 <= i < before.len() implies a[i] == b[i] by {
        assert(a[i] == g(before[i], i));
        assert(b[i] == g(before[i], i));
    }
    assert(a =~= b);
}

} // verus!
