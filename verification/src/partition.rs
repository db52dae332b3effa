//! Deterministic byte-range partitioning of a file of `file_size` bytes
//! across `w` workers.
//!
//! Worker `i` (for `i < w - 1`) receives the half-open range
//! `[i * chunk, (i + 1) * chunk)` where `chunk = file_size / w`; the last
//! worker absorbs the remainder and receives `[(w - 1) * chunk, file_size)`.
//! The ranges cover `[0, file_size)` exactly, with no gaps and no overlaps.

use vstd::prelude::*;

verus! {

/// Start of worker `rank`'s byte range.
pub open spec fn shard_start_spec(file_size: u64, w: u64, rank: u64) -> int {
    rank * (file_size as int / w as int)
}

/// End of worker `rank`'s byte range (the last worker absorbs the remainder).
pub open spec fn shard_end_spec(file_size: u64, w: u64, rank: u64) -> int {
    if rank == w - 1 {
        file_size as int
    } else {
        (rank + 1) * (file_size as int / w as int)
    }
}

/// The shard starts never exceed the file size.
proof fn lemma_chunk_bounds(file_size: u64, w: u64, rank: u64)
    requires
        1 <= w,
        rank < w,
    ensures
        0 <= shard_start_spec(file_size, w, rank) <= shard_end_spec(file_size, w, rank)
            <= file_size,
{
    let f = file_size as int;
    let chunk = f / w as int;
    vstd::arithmetic::div_mod::lemma_div_pos_is_pos(f, w as int);
    assert((rank + 1) * chunk <= w as int * chunk && rank * chunk <= (rank + 1) * chunk)
        by (nonlinear_arith)
        requires 0 <= chunk && rank < w;
    vstd::arithmetic::div_mod::lemma_fundamental_div_mod(f, w as int);
    vstd::arithmetic::div_mod::lemma_mod_bound(f, w as int);
    assert(w as int * chunk <= f);
}

/// Byte range `[start, end)` of the shard owned by worker `rank` out of `w`.
///
/// Mirrors the arithmetic of the coordinator's boundary setup: an even
/// `file_size / w` split, with the final worker extending to the end of the
/// file.
pub fn shard_bounds(file_size: u64, w: u64, rank: u64) -> (r: (u64, u64))
    requires
        1 <= w,
        rank < w,
    ensures
        r.0 == shard_start_spec(file_size, w, rank),
        r.1 == shard_end_spec(file_size, w, rank),
        r.0 <= r.1 <= file_size,
{
    proof {
        lemma_chunk_bounds(file_size, w, rank);
        if rank != w - 1 {
            lemma_chunk_bounds(file_size, w, (rank + 1) as u64);
        }
    }
    let chunk: u64 = file_size / w;
    let start: u64 = rank * chunk;
    let end: u64 = if rank == w - 1 {
        file_size
    } else {
        (rank + 1) * chunk
    };
    (start, end)
}

/// Consecutive shards tile the file: each shard ends exactly where the next
/// begins, the first starts at byte 0, and the last ends at `file_size`.
/// Together with `shard_bounds`'s own bounds this says the assigned ranges
/// are disjoint, ordered, and cover `[0, file_size)` with nothing left over.
pub proof fn lemma_shards_tile(file_size: u64, w: u64)
    requires
        1 <= w,
    ensures
        shard_start_spec(file_size, w, 0) == 0,
        shard_end_spec(file_size, w, (w - 1) as u64) == file_size,
        forall|rank: u64|
            rank + 1 < w ==> #[trigger] shard_end_spec(file_size, w, rank)
                == shard_start_spec(file_size, w, (rank + 1) as u64),
        forall|rank: u64|
            rank < w ==> #[trigger] shard_start_spec(file_size, w, rank)
                <= shard_end_spec(file_size, w, rank) <= file_size,
{
    assert forall|rank: u64| rank < w implies #[trigger] shard_start_spec(file_size, w, rank)
        <= shard_end_spec(file_size, w, rank) <= file_size by {
        lemma_chunk_bounds(file_size, w, rank);
    }
}

/// Sum of the lengths of the byte ranges of workers `0 .. k`.
pub open spec fn shards_total_len(file_size: u64, w: u64, k: int) -> int
    decreases k,
{
    if k <= 0 {
        0
    } else {
        shards_total_len(file_size, w, k - 1) + shard_end_spec(file_size, w, (k - 1) as u64)
            - shard_start_spec(file_size, w, (k - 1) as u64)
    }
}

/// Coverage: the byte-range lengths assigned to the `w` workers sum to the
/// file size exactly.
pub proof fn lemma_partition_coverage(file_size: u64, w: u64)
    requires
        1 <= w,
    ensures
        shards_total_len(file_size, w, w as int) == file_size,
{
    lemma_shards_tile(file_size, w);
    assert forall|k: int| 0 < k <= w implies #[trigger] shards_total_len(file_size, w, k)
        == shard_end_spec(file_size, w, (k - 1) as u64) by {
        lemma_prefix_total(file_size, w, k);
    }
}

proof fn lemma_prefix_total(file_size: u64, w: u64, k: int)
    requires
        1 <= w,
        0 < k <= w,
    ensures
        shards_total_len(file_size, w, k) == shard_end_spec(file_size, w, (k - 1) as u64),
    decreases k,
{
    lemma_shards_tile(file_size, w);
    if k == 1 {
        assert(shards_total_len(file_size, w, 0) == 0);
    } else {
        lemma_prefix_total(file_size, w, k - 1);
        assert(shard_end_spec(file_size, w, (k - 2) as u64)
            == shard_start_spec(file_size, w, (k - 1) as u64));
    }
}

} // verus!
