//! Division of the process list among workers: contiguous chunks of equal
//! size, the last ones possibly shorter or empty.

use vstd::prelude::*;
use vstd::arithmetic::div_mod::lemma_fundamental_div_mod;

verus! {

/// A contiguous run of positions in the process list: `start..end`.
#[derive(Clone, Copy, Debug, PartialEq, Eq, Structural)]
pub struct Chunk {
    /// The position of its first entry.
    pub start: usize,
    /// The position after its last entry.
    pub end: usize,
}

/// The size of a full chunk: `total / workers`, rounded up.
pub open spec fn chunk_len(total: nat, workers: nat) -> nat
    recommends
        workers >= 1,
{
    ((total + workers - 1) / (workers as int)) as nat
}

/// Where chunk `k` starts: after `k` full chunks, or at the end of the list
/// if that comes first.
#[verifier::opaque]
pub open spec fn chunk_start(total: nat, workers: nat, k: nat) -> nat {
    if k * chunk_len(total, workers) <= total {
        k * chunk_len(total, workers)
    } else {
        total
    }
}

/// Where chunk `k` ends: where chunk `k + 1` starts.
pub open spec fn chunk_end(total: nat, workers: nat, k: nat) -> nat {
    chunk_start(total, workers, k + 1)
}

/// The chunks of a sequence, one per worker, in order.
pub open spec fn chunks_of<T>(items: Seq<T>, workers: nat) -> Seq<Seq<T>> {
    Seq::new(
        workers,
        |k: int|
            items.subrange(
                chunk_start(items.len(), workers, k as nat) as int,
                chunk_end(items.len(), workers, k as nat) as int,
            ),
    )
}

/// The size of a full chunk when `total` entries are divided among `workers`.
pub fn chunk_size(total: usize, workers: u8) -> (size: usize)
    requires
        workers >= 1,
    ensures
        size == chunk_len(total as nat, workers as nat),
{
    let w: usize = workers as usize;
    let quotient: usize = total / w;
    let remainder: usize = total % w;
    proof {
        lemma_ceil_div(total as nat, workers as nat);
    }
    if remainder == 0 {
        quotient
    } else {
        quotient + 1
    }
}

/// Rounding up adds one to the quotient exactly when there is a remainder.
proof fn lemma_ceil_div(total: nat, workers: nat)
    requires
        workers >= 1,
    ensures
        chunk_len(total, workers) == total / workers + if total % workers == 0 {
            0nat
        } else {
            1nat
        },
        chunk_len(total, workers) <= total,
        chunk_len(total, workers) * workers >= total,
{
    let w = workers as int;
    let t = total as int;
    let q = t / w;
    let r = t % w;
    lemma_fundamental_div_mod(t, w);
    assert(t == w * q + r);
    if r == 0 {
        assert(t + w - 1 == w * q + (w - 1));
        vstd::arithmetic::div_mod::lemma_fundamental_div_mod_converse(t + w - 1, w, q, w - 1);
        assert(q * w == w * q) by (nonlinear_arith);
    } else {
        assert(t + w - 1 == w * (q + 1) + (r - 1)) by (nonlinear_arith)
            requires
                t == w * q + r,
        ;
        vstd::arithmetic::div_mod::lemma_fundamental_div_mod_converse(t + w - 1, w, q + 1, r - 1);
        assert((q + 1) * w >= t) by (nonlinear_arith)
            requires
                t == w * q + r,
                r < w,
        ;
        assert(q + 1 <= t) by (nonlinear_arith)
            requires
                t == w * q + r,
                r >= 1,
                w >= 1,
                q >= 0,
        ;
    }
}

/// A full chunk is the list's length divided by the number of workers,
/// rounded up: the least size with which the workers cover the list.
pub proof fn lemma_chunk_len_is_ceiling(total: nat, workers: nat)
    requires
        workers >= 1,
    ensures
        chunk_len(total, workers) * workers >= total,
        forall|size: nat| #[trigger] (size * workers) >= total ==> size >= chunk_len(total, workers),
{
    lemma_ceil_div(total, workers);
    let len = chunk_len(total, workers);
    let w = workers as int;
    let t = total as int;
    lemma_fundamental_div_mod(t, w);
    assert forall|size: nat| #[trigger] (size * workers) >= total implies size >= len by {
        if size < len {
            let least = len - 1;
            assert(least * w < t) by (nonlinear_arith)
                requires
                    t == w * (t / w) + t % w,
                    0 <= t % w < w,
                    least == t / w + if t % w == 0 {
                        0int
                    } else {
                        1int
                    } - 1,
            ;
            assert(size * w <= least * w) by (nonlinear_arith)
                requires
                    size <= least,
                    w >= 1,
            ;
        }
    }
}

/// The chunks that `workers` workers take of a list of `total` entries, in
/// order. Without workers there are no chunks.
pub fn plan_chunks(total: usize, workers: u8) -> (chunks: Vec<Chunk>)
    ensures
        chunks.len() == workers,
        forall|k: int|
            0 <= k < workers ==> (#[trigger] chunks[k]).start == chunk_start(
                total as nat,
                workers as nat,
                k as nat,
            ) && chunks[k].end == chunk_end(total as nat, workers as nat, k as nat),
{
    let mut chunks: Vec<Chunk> = Vec::new();
    if workers == 0 {
        return chunks;
    }
    let size: usize = chunk_size(total, workers);
    let mut start: usize = 0;
    let mut k: u8 = 0;
    proof {
        lemma_first_start(total as nat, workers as nat);
    }
    while k < workers
        invariant
            k <= workers,
            size == chunk_len(total as nat, workers as nat),
            start == chunk_start(total as nat, workers as nat, k as nat),
            start <= total,
            chunks.len() == k,
            forall|j: int|
                0 <= j < k ==> (#[trigger] chunks[j]).start == chunk_start(
                    total as nat,
                    workers as nat,
                    j as nat,
                ) && chunks[j].end == chunk_end(total as nat, workers as nat, j as nat),
        decreases workers - k,
    {
        let room: usize = total - start;
        let end: usize = if size <= room {
            start + size
        } else {
            total
        };
        proof {
            lemma_next_start(total as nat, workers as nat, k as nat);
        }
        chunks.push(Chunk { start, end });
        start = end;
        k = k + 1;
    }
    chunks
}

/// The first chunk starts at the start of the list.
proof fn lemma_first_start(total: nat, workers: nat)
    ensures
        chunk_start(total, workers, 0) == 0,
{
    reveal(chunk_start);
    assert(0 * chunk_len(total, workers) == 0);
}

/// One chunk further, the start moves on by a full chunk or stops at the end
/// of the list.
proof fn lemma_next_start(total: nat, workers: nat, k: nat)
    ensures
        chunk_start(total, workers, k) <= total,
        chunk_end(total, workers, k) == if chunk_start(total, workers, k) + chunk_len(
            total,
            workers,
        ) <= total {
            chunk_start(total, workers, k) + chunk_len(total, workers)
        } else {
            total
        },
{
    reveal(chunk_start);
    let len = chunk_len(total, workers);
    assert((k + 1) * len == k * len + len) by (nonlinear_arith);
}

/// Chunk `k` lies at or after every position that `k` full chunks cover.
proof fn lemma_start_monotonic(total: nat, workers: nat, j: nat, k: nat)
    requires
        j <= k,
    ensures
        chunk_start(total, workers, j) <= chunk_start(total, workers, k),
{
    reveal(chunk_start);
    let len = chunk_len(total, workers);
    assert(j * len <= k * len) by (nonlinear_arith)
        requires
            j <= k,
    ;
}

/// A chunk lies within the list.
pub proof fn lemma_chunk_in_list(total: nat, workers: nat, k: nat)
    ensures
        chunk_start(total, workers, k) <= chunk_end(total, workers, k) <= total,
{
    lemma_next_start(total, workers, k);
}

/// The chunks are laid end to end from the first entry to the last, and none
/// is longer than a full chunk.
pub proof fn lemma_chunks_tile(total: nat, workers: nat)
    requires
        workers >= 1,
    ensures
        chunk_start(total, workers, 0) == 0,
        chunk_end(total, workers, (workers - 1) as nat) == total,
        forall|k: nat|
            #![trigger chunk_start(total, workers, k)]
            chunk_start(total, workers, k) <= chunk_end(total, workers, k) <= total,
        forall|k: nat|
            #![trigger chunk_start(total, workers, k)]
            chunk_end(total, workers, k) - chunk_start(total, workers, k) <= chunk_len(
                total,
                workers,
            ),
{
    let len = chunk_len(total, workers);
    lemma_first_start(total, workers);
    lemma_ceil_div(total, workers);
    assert(chunk_end(total, workers, (workers - 1) as nat) == total) by {
        reveal(chunk_start);
        assert(workers * len == len * workers) by (nonlinear_arith);
    }
    assert forall|k: nat| #![trigger chunk_start(total, workers, k)]
        chunk_start(total, workers, k) <= chunk_end(total, workers, k) <= total
        && chunk_end(total, workers, k) - chunk_start(total, workers, k) <= len by {
        lemma_next_start(total, workers, k);
    }
}

/// Every position of the list lies in exactly one chunk.
pub proof fn lemma_chunks_cover_once(total: nat, workers: nat, position: nat)
    requires
        workers >= 1,
        position < total,
    ensures
        exists|k: nat|
            k < workers && chunk_start(total, workers, k) <= position < #[trigger] chunk_end(
                total,
                workers,
                k,
            ),
        forall|j: nat, k: nat|
            chunk_start(total, workers, j) <= position < #[trigger] chunk_end(total, workers, j)
                && chunk_start(total, workers, k) <= position < #[trigger] chunk_end(
                total,
                workers,
                k,
            ) ==> j == k,
{
    let len = chunk_len(total, workers);
    lemma_ceil_div(total, workers);
    assert(len >= 1) by (nonlinear_arith)
        requires
            len * workers >= total,
            total >= 1,
    ;
    let k = position / len;
    lemma_fundamental_div_mod(position as int, len as int);
    assert(k * len == len * k) by (nonlinear_arith);
    assert((k + 1) * len == k * len + len) by (nonlinear_arith);
    assert(k < workers) by (nonlinear_arith)
        requires
            k * len <= position,
            position < total,
            total <= len * workers,
    ;
    assert(chunk_start(total, workers, k) <= position < chunk_end(total, workers, k)) by {
        reveal(chunk_start);
    }
    assert forall|i: nat, j: nat|
        chunk_start(total, workers, i) <= position < #[trigger] chunk_end(total, workers, i)
            && chunk_start(total, workers, j) <= position < #[trigger] chunk_end(
            total,
            workers,
            j,
        ) implies i == j by {
        if i < j {
            lemma_start_monotonic(total, workers, i + 1, j);
        } else if j < i {
            lemma_start_monotonic(total, workers, j + 1, i);
        }
    }
}

/// Laid end to end, the chunks of a list give the list back: every entry
/// once, in its place.
pub proof fn lemma_chunks_rebuild<T>(items: Seq<T>, workers: nat)
    requires
        workers >= 1,
    ensures
        chunks_of(items, workers).flatten() == items,
{
    let chunks = chunks_of(items, workers);
    lemma_chunks_tile(items.len(), workers);
    lemma_flatten_prefix(items, workers, workers);
    assert(chunks.take(workers as int) == chunks);
    assert(items.subrange(0, items.len() as int) == items);
    chunks.lemma_flatten_and_flatten_alt_are_equivalent();
}

/// The first `n` chunks, laid end to end, are the list up to where chunk `n`
/// starts.
proof fn lemma_flatten_prefix<T>(items: Seq<T>, workers: nat, n: nat)
    requires
        workers >= 1,
        n <= workers,
    ensures
        chunks_of(items, workers).take(n as int).flatten_alt() == items.subrange(
            0,
            chunk_start(items.len(), workers, n) as int,
        ),
    decreases n,
{
    let chunks = chunks_of(items, workers);
    let total = items.len();
    if n == 0 {
        lemma_first_start(total, workers);
        assert(chunks.take(0).flatten_alt() == Seq::<T>::empty());
        assert(items.subrange(0, 0) == Seq::<T>::empty());
    } else {
        let m = (n - 1) as nat;
        lemma_flatten_prefix(items, workers, m);
        lemma_chunk_in_list(total, workers, m);
        let start = chunk_start(total, workers, m) as int;
        let end = chunk_end(total, workers, m) as int;
        let head = chunks.take(n as int);
        assert(head.drop_last() == chunks.take(m as int));
        assert(head.last() == items.subrange(start, end));
        assert(head.flatten_alt() == head.drop_last().flatten_alt() + head.last());
        assert(items.subrange(0, start) + items.subrange(start, end) == items.subrange(0, end));
    }
}

} // verus!
