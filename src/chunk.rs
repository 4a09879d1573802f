//! Chunk coordinates: how a byte range maps onto fixed-size cached chunks.
use vstd::prelude::*;

verus! {

/// Size in bytes of every cached chunk (the last chunk of a file may be shorter).
pub const CHUNK_SIZE: u64 = 32768;

/// Largest byte offset a read may end at, so that a whole chunk past it still fits in `u64`.
pub const MAX_OFFSET: u64 = 18446744073709518847;

/// Index of the chunk that holds byte `offset`.
pub open spec fn chunk_of(offset: int) -> int {
    offset / (CHUNK_SIZE as int)
}

/// First chunk that the range `[start, end)` touches.
pub open spec fn span_first(start: int) -> int {
    chunk_of(start)
}

/// Last chunk (inclusive) that the range `[start, end)` touches; the first one for an empty range.
pub open spec fn span_last(start: int, end: int) -> int {
    if end > start {
        chunk_of(end - 1)
    } else {
        chunk_of(start)
    }
}

/// Byte offset at which chunk `c` begins.
pub open spec fn chunk_start(c: int) -> int {
    c * (CHUNK_SIZE as int)
}

/// Timeout in milliseconds for fetching `len` bytes: a fixed base plus one millisecond per KiB.
pub open spec fn timeout_for(len: int) -> int {
    500 + len / 1024
}

/// The inclusive span of chunk indices that covers the byte range `[start, end)`.
pub fn chunk_span(start: u64, end: u64) -> (r: (u64, u64))
    requires
        start <= end,
    ensures
        r.0 == span_first(start as int),
        r.1 == span_last(start as int, end as int),
        r.0 <= r.1,
        chunk_start(r.0 as int) <= start,
        end <= chunk_start(r.1 as int + 1),
        end > start ==> chunk_start(r.1 as int) < end,
{
    let first: u64 = start / CHUNK_SIZE;
    let last: u64 = if end > start {
        (end - 1) / CHUNK_SIZE
    } else {
        first
    };
    proof {
        lemma_span_bounds(start as int, end as int);
    }
    (first, last)
}

/// The span of `[start, end)` starts at or before `start` and ends at or after `end`.
pub proof fn lemma_span_bounds(start: int, end: int)
    requires
        0 <= start <= end,
    ensures
        span_first(start) <= span_last(start, end),
        chunk_start(span_first(start)) <= start,
        end <= chunk_start(span_last(start, end) + 1),
        end > start ==> chunk_start(span_last(start, end)) < end,
        0 <= span_first(start),
{
    vstd::arithmetic::div_mod::lemma_fundamental_div_mod(start, CHUNK_SIZE as int);
    if end > start {
        vstd::arithmetic::div_mod::lemma_div_is_ordered(start, end - 1, CHUNK_SIZE as int);
        vstd::arithmetic::div_mod::lemma_fundamental_div_mod(end - 1, CHUNK_SIZE as int);
    }
}

/// The chunk-aligned byte interval `[from, to)` that one request for chunks
/// `first..=last` asks the origin for.
pub fn fetch_bounds(first: u64, last: u64) -> (r: (u64, u64))
    requires
        first <= last,
        chunk_start(last as int + 1) <= u64::MAX,
    ensures
        r.0 == chunk_start(first as int),
        r.1 == chunk_start(last as int + 1),
        r.0 < r.1,
{
    proof {
        vstd::arithmetic::mul::lemma_mul_inequality(first as int, last as int + 1, CHUNK_SIZE as int);
    }
    (first * CHUNK_SIZE, (last + 1) * CHUNK_SIZE)
}

/// Timeout in milliseconds for a read of `[start, end)`.
pub fn fetch_timeout_ms(start: u64, end: u64) -> (r: u64)
    requires
        start <= end,
    ensures
        r == timeout_for(end - start),
{
    500 + (end - start) / 1024
}

/// A range that ends exactly on a chunk boundary spans no chunk past it: the last
/// chunk is the one that ends at `end`, and the request stops at `end`.
pub proof fn lemma_boundary_end(start: u64, end: u64)
    requires
        start < end,
        end % CHUNK_SIZE == 0,
    ensures
        span_last(start as int, end as int) == end / CHUNK_SIZE - 1,
        chunk_start(span_last(start as int, end as int) + 1) == end,
{
}

} // verus!
