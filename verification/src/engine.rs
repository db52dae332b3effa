//! The shard scanner and the engine's laws.
//!
//! [`process_shard`] walks one worker's byte range of the memory-mapped
//! file in bounded segments, realigns segment edges to record boundaries,
//! decodes each owned record and sums it into the worker's two tables. Its
//! contract pins the result to folds over [`shard_lines`], the exact
//! sequence of records whose first byte lies in the range; on top of that
//! the laws at the end of this module show that, for any worker count, the
//! merged tables and the total record count equal those of a single scan
//! of the whole file.

use vstd::prelude::*;

use crate::entity::EntityTable;
use crate::entity::emerged_map;
use crate::entity::sum_or_zero;
use crate::lines::lemma_lines_upto_len;
use crate::lines::lemma_next_line_start_bounds;
use crate::lines::lemma_next_sep_bounds;
use crate::lines::lemma_shard_lines_split;
use crate::lines::lines_upto;
use crate::lines::next_line_start;
use crate::lines::next_sep;
use crate::lines::shard_lines;
use crate::lines::whole_file_lines;
use crate::partition::shard_end_spec;
use crate::partition::shard_start_spec;
use crate::partition::lemma_shards_tile;
use crate::record::counted;
use crate::record::decode_line;
use crate::record::line_effect;
use crate::table::BucketTable;
use crate::table::merged_map;
use crate::table::val_or_zero;

verus! {

/// How many of the lines count as processed records.
pub open spec fn count_fold(ls: Seq<Seq<u8>>) -> int
    decreases ls.len(),
{
    if ls.len() == 0 {
        0
    } else {
        count_fold(ls.drop_last()) + if counted(ls.last()) {
            1int
        } else {
            0int
        }
    }
}

/// The bucket table the lines build up, record by record.
pub open spec fn bucket_fold(ls: Seq<Seq<u8>>) -> Map<Seq<char>, int>
    decreases ls.len(),
{
    if ls.len() == 0 {
        Map::empty()
    } else {
        let m = bucket_fold(ls.drop_last());
        match line_effect(ls.last()).0 {
            Some(p) => m.insert(p.0, val_or_zero(m, p.0) + p.1),
            None => m,
        }
    }
}

/// The entity table the lines build up, record by record; the label under
/// a key is the first one observed for it.
pub open spec fn entity_fold(ls: Seq<Seq<u8>>) -> Map<Seq<char>, (Seq<char>, int)>
    decreases ls.len(),
{
    if ls.len() == 0 {
        Map::empty()
    } else {
        let m = entity_fold(ls.drop_last());
        match line_effect(ls.last()).1 {
            Some(t) => m.insert(
                t.0,
                (
                    if m.contains_key(t.0) {
                        m[t.0].0
                    } else {
                        t.1
                    },
                    sum_or_zero(m, t.0) + t.2,
                ),
            ),
            None => m,
        }
    }
}

pub proof fn lemma_count_fold_bounds(ls: Seq<Seq<u8>>)
    ensures
        0 <= count_fold(ls) <= ls.len(),
    decreases ls.len(),
{
    if ls.len() > 0 {
        lemma_count_fold_bounds(ls.drop_last());
    }
}

/// Counting is additive over concatenation.
pub proof fn lemma_count_fold_add(a: Seq<Seq<u8>>, b: Seq<Seq<u8>>)
    ensures
        count_fold(a + b) == count_fold(a) + count_fold(b),
    decreases b.len(),
{
    if b.len() == 0 {
        assert(a + b =~= a);
    } else {
        lemma_count_fold_add(a, b.drop_last());
        assert((a + b).drop_last() =~= a + b.drop_last());
        assert((a + b).last() == b.last());
    }
}

/// Folding the concatenation is merging the folds: scanning two ranges
/// and merging the tables gives the table of the combined range.
pub proof fn lemma_bucket_fold_add(a: Seq<Seq<u8>>, b: Seq<Seq<u8>>)
    ensures
        bucket_fold(a + b) == merged_map(bucket_fold(a), bucket_fold(b)),
    decreases b.len(),
{
    if b.len() == 0 {
        assert(a + b =~= a);
        assert(bucket_fold(a + b) =~= merged_map(bucket_fold(a), bucket_fold(b)));
    } else {
        lemma_bucket_fold_add(a, b.drop_last());
        assert((a + b).drop_last() =~= a + b.drop_last());
        assert((a + b).last() == b.last());
        let fa = bucket_fold(a);
        let fb = bucket_fold(b.drop_last());
        match line_effect(b.last()).0 {
            Some(p) => {
                assert(merged_map(fa, fb.insert(p.0, val_or_zero(fb, p.0) + p.1)) =~= merged_map(
                    fa,
                    fb,
                ).insert(p.0, val_or_zero(merged_map(fa, fb), p.0) + p.1));
            },
            None => {},
        }
    }
}

/// The same, for entity tables; the first-observed label carries over.
pub proof fn lemma_entity_fold_add(a: Seq<Seq<u8>>, b: Seq<Seq<u8>>)
    ensures
        entity_fold(a + b) == emerged_map(entity_fold(a), entity_fold(b)),
    decreases b.len(),
{
    if b.len() == 0 {
        assert(a + b =~= a);
        assert(entity_fold(a + b) =~= emerged_map(entity_fold(a), entity_fold(b)));
    } else {
        lemma_entity_fold_add(a, b.drop_last());
        assert((a + b).drop_last() =~= a + b.drop_last());
        assert((a + b).last() == b.last());
        let fa = entity_fold(a);
        let fb = entity_fold(b.drop_last());
        match line_effect(b.last()).1 {
            Some(t) => {
                assert(emerged_map(
                    fa,
                    fb.insert(
                        t.0,
                        (
                            if fb.contains_key(t.0) {
                                fb[t.0].0
                            } else {
                                t.1
                            },
                            sum_or_zero(fb, t.0) + t.2,
                        ),
                    ),
                ) =~= emerged_map(fa, fb).insert(
                    t.0,
                    (
                        if emerged_map(fa, fb).contains_key(t.0) {
                            emerged_map(fa, fb)[t.0].0
                        } else {
                            t.1
                        },
                        sum_or_zero(emerged_map(fa, fb), t.0) + t.2,
                    ),
                ));
            },
            None => {},
        }
    }
}

/// Position of the first record separator at or after `from`, or the data
/// length if there is none.
#[verifier::loop_isolation(false)]
fn find_sep(data: &[u8], from: usize) -> (r: usize)
    requires
        from <= data@.len(),
    ensures
        r as int == next_sep(data@, from as int),
        from <= r <= data@.len(),
{
    let n: usize = data.len();
    let mut i: usize = from;
    while i < n && *vstd::slice::slice_index_get(data, i) != 10u8
        invariant
            from <= i <= n,
            forall|q: int| from <= q < i ==> data@[q] != 10,
        decreases n - i,
    {
        i += 1;
    }
    proof {
        lemma_next_sep_bounds(data@, from as int);
        let ns = next_sep(data@, from as int);
        if ns < i {
            assert(data@[ns] != 10);
            assert(false);
        }
        if ns > i {
            assert(i < n && data@[i as int] == 10);
            assert(data@[i as int] != 10);
            assert(false);
        }
    }
    i
}

/// One worker's partial results: the two tables and the count of records
/// processed.
pub struct WorkerPartial {
    pub bucket: BucketTable,
    pub entity: EntityTable,
    pub lines: usize,
}

/// The ShardScanner: scans the byte range `[start, end)` of `data` in
/// segments of at most `seg` bytes, each extended to the next record
/// boundary, decoding and aggregating exactly the records whose first byte
/// lies in the range. A record cut by `start` is left to the previous
/// range; the record reaching past `end` is finished here.
#[verifier::loop_isolation(false)]
#[verifier::rlimit(100)]
pub fn process_shard(data: &[u8], start: usize, end: usize, seg: usize) -> (r: WorkerPartial)
    requires
        start <= end <= data@.len(),
        data@.len() < usize::MAX,
        seg >= 1,
    ensures
        r.bucket.wf(),
        r.entity.wf(),
        r.bucket@ == bucket_fold(shard_lines(data@, start as int, end as int)),
        r.entity@ == entity_fold(shard_lines(data@, start as int, end as int)),
        r.lines as int == count_fold(shard_lines(data@, start as int, end as int)),
        r.bucket.spec_count() <= shard_lines(data@, start as int, end as int).len(),
        r.entity.spec_count() <= shard_lines(data@, start as int, end as int).len(),
        shard_lines(data@, start as int, end as int).len() <= data@.len(),
{
    let mut bucket = BucketTable::new();
    let mut entity = EntityTable::new();
    let mut lines: usize = 0;
    let n: usize = data.len();

    // realign: skip a record cut in half by `start`
    let mut pos: usize;
    if start == 0 {
        pos = 0;
    } else {
        let sep: usize = find_sep(data, start - 1);
        if sep == n {
            pos = n;
        } else {
            pos = sep + 1;
        }
    }
    proof {
        assert(pos as int == next_line_start(data@, start as int));
        lemma_next_line_start_bounds(data@, start as int);
        if pos <= n {
            crate::lines::lemma_next_line_start_stable(data@, start as int, pos as int);
        }
    }
    let ghost owned = shard_lines(data@, start as int, end as int);
    let ghost mut done = Seq::<Seq<u8>>::empty();
    proof {
        assert(owned == lines_upto(data@, pos as int, end as int));
        assert(owned =~= done + lines_upto(data@, pos as int, end as int));
        lemma_lines_upto_len(data@, pos as int, end as int);
    }

    while pos < end
        invariant
            pos <= n + 1,
            pos <= n ==> pos as int == next_line_start(data@, pos as int),
            owned == done + lines_upto(data@, pos as int, end as int),
            bucket.wf(),
            bucket@ == bucket_fold(done),
            bucket.spec_count() <= done.len(),
            entity.wf(),
            entity@ == entity_fold(done),
            entity.spec_count() <= done.len(),
            lines as int == count_fold(done),
            lines <= done.len(),
            owned.len() <= n,
        decreases n + 2 - pos,
    {
        // the segment's nominal end, then extended to the next record start
        let nominal: usize = if seg < end - pos {
            pos + seg
        } else {
            end
        };
        let adj: usize;
        let s2: usize = find_sep(data, nominal - 1);
        if s2 == n {
            adj = n;
        } else {
            adj = s2 + 1;
        }
        proof {
            assert(adj as int == next_line_start(data@, nominal as int));
            lemma_next_line_start_bounds(data@, nominal as int);
        }
        let ghost out_pos = pos;
        while pos < adj
            invariant
                out_pos <= pos <= n + 1,
                pos <= n ==> pos as int == next_line_start(data@, pos as int),
                owned == done + lines_upto(data@, pos as int, end as int),
                bucket.wf(),
                bucket@ == bucket_fold(done),
                bucket.spec_count() <= done.len(),
                entity.wf(),
                entity@ == entity_fold(done),
                entity.spec_count() <= done.len(),
                lines as int == count_fold(done),
                lines <= done.len(),
            decreases n + 2 - pos,
        {
            proof {
                // a record start below the realigned segment end lies below
                // its nominal end, hence inside the owned range
                if pos >= nominal {
                    crate::lines::lemma_next_line_start_stable(data@, nominal as int, pos as int);
                    assert(adj as int <= pos as int);
                    assert(false);
                }
                assert(pos < nominal <= end);
            }
            let e_line: usize = find_sep(data, pos);
            let line: &[u8] = vstd::slice::slice_subrange(data, pos, e_line);
            proof {
                lemma_next_sep_bounds(data@, pos as int);
                assert(lines_upto(data@, pos as int, end as int) == seq![
                    data@.subrange(pos as int, e_line as int),
                ] + lines_upto(data@, e_line + 1, end as int));
                assert(line@ == data@.subrange(pos as int, e_line as int));
                lemma_lines_upto_len(data@, pos as int, end as int);
                lemma_count_fold_bounds(done);
            }
            let rec = decode_line(line);
            let ghost done2 = done.push(line@);
            proof {
                assert(done2.drop_last() =~= done);
                assert(done2.last() == line@);
                assert(owned =~= done2 + lines_upto(data@, e_line + 1, end as int));
                assert(done2.len() <= owned.len());
            }
            if rec.counted {
                lines += 1;
            }
            match rec.bucket {
                Some(kv) => {
                    bucket.add(kv.0, kv.1);
                },
                None => {},
            }
            match rec.entity {
                Some(klv) => {
                    entity.add(klv.0, klv.1, klv.2);
                },
                None => {},
            }
            proof {
                done = done2;
                assert(bucket@ == bucket_fold(done));
                assert(entity@ == entity_fold(done));
                assert(lines as int == count_fold(done));
            }
            pos = e_line + 1;
            proof {
                if pos <= n {
                    assert(data@[e_line as int] == 10);
                    assert(next_sep(data@, e_line as int) == e_line as int);
                    assert(pos as int == next_line_start(data@, pos as int));
                }
                if pos > n {
                    assert(lines_upto(data@, pos as int, end as int)
                        =~= Seq::<Seq<u8>>::empty());
                }
            }
        }
    }
    proof {
        assert(lines_upto(data@, pos as int, end as int) =~= Seq::<Seq<u8>>::empty());
        assert(owned =~= done);
    }
    WorkerPartial { bucket, entity, lines }
}

// ------------------------------------------------------------------
// Laws of the partitioned scan
// ------------------------------------------------------------------

/// The lines owned by worker `rank` out of `w`.
pub open spec fn worker_lines(data: Seq<u8>, w: u64, rank: u64) -> Seq<Seq<u8>> {
    shard_lines(
        data,
        shard_start_spec(data.len() as u64, w, rank),
        shard_end_spec(data.len() as u64, w, rank),
    )
}

/// Total records counted by workers `0 .. k`.
pub open spec fn workers_count_sum(data: Seq<u8>, w: u64, k: int) -> int
    decreases k,
{
    if k <= 0 {
        0
    } else {
        workers_count_sum(data, w, k - 1) + count_fold(worker_lines(data, w, (k - 1) as u64))
    }
}

/// Bucket tables of workers `0 .. k`, merged in rank order.
pub open spec fn workers_bucket_merged(data: Seq<u8>, w: u64, k: int) -> Map<Seq<char>, int>
    decreases k,
{
    if k <= 0 {
        Map::empty()
    } else {
        merged_map(
            workers_bucket_merged(data, w, k - 1),
            bucket_fold(worker_lines(data, w, (k - 1) as u64)),
        )
    }
}

/// Entity tables of workers `0 .. k`, merged in rank order.
pub open spec fn workers_entity_merged(data: Seq<u8>, w: u64, k: int) -> Map<
    Seq<char>,
    (Seq<char>, int),
>
    decreases k,
{
    if k <= 0 {
        Map::empty()
    } else {
        emerged_map(
            workers_entity_merged(data, w, k - 1),
            entity_fold(worker_lines(data, w, (k - 1) as u64)),
        )
    }
}

proof fn lemma_workers_prefix(data: Seq<u8>, w: u64, k: int)
    requires
        1 <= w,
        0 < k <= w,
        data.len() <= u64::MAX,
    ensures
        workers_count_sum(data, w, k) == count_fold(
            shard_lines(data, 0, shard_end_spec(data.len() as u64, w, (k - 1) as u64)),
        ),
        workers_bucket_merged(data, w, k) == bucket_fold(
            shard_lines(data, 0, shard_end_spec(data.len() as u64, w, (k - 1) as u64)),
        ),
        workers_entity_merged(data, w, k) == entity_fold(
            shard_lines(data, 0, shard_end_spec(data.len() as u64, w, (k - 1) as u64)),
        ),
    decreases k,
{
    let f = data.len() as u64;
    lemma_shards_tile(f, w);
    let s = shard_start_spec(f, w, (k - 1) as u64);
    let e = shard_end_spec(f, w, (k - 1) as u64);
    let part = worker_lines(data, w, (k - 1) as u64);
    if k == 1 {
        assert((k - 1) as u64 == 0u64);
        assert(s == 0);
        assert(workers_count_sum(data, w, 0) == 0);
        assert(workers_bucket_merged(data, w, 0) == Map::<Seq<char>, int>::empty());
        assert(workers_entity_merged(data, w, 0) == Map::<Seq<char>, (Seq<char>, int)>::empty());
        assert(workers_count_sum(data, w, 1) == count_fold(part));
        crate::table::lemma_merged_map_empty(bucket_fold(part));
        assert(emerged_map(Map::empty(), entity_fold(part)) =~= entity_fold(part));
    } else {
        lemma_workers_prefix(data, w, k - 1);
        let m = shard_end_spec(f, w, (k - 2) as u64);
        let rk: u64 = (k - 2) as u64;
        assert(rk + 1 < w);
        assert((rk + 1) as u64 == (k - 1) as u64);
        assert(shard_end_spec(f, w, rk) == shard_start_spec(f, w, (rk + 1) as u64));
        assert(m == s);
        lemma_shard_lines_split(data, 0, s, e);
        let a = shard_lines(data, 0, s);
        assert(shard_lines(data, 0, e) == a + part);
        lemma_count_fold_add(a, part);
        lemma_bucket_fold_add(a, part);
        lemma_entity_fold_add(a, part);
    }
}

/// No double counting, no omission: for any worker count, the records
/// counted across all workers are exactly the records of scanning the
/// whole file as one shard.
pub proof fn lemma_no_double_counting(data: Seq<u8>, w: u64)
    requires
        1 <= w,
        data.len() <= u64::MAX,
    ensures
        workers_count_sum(data, w, w as int) == count_fold(whole_file_lines(data)),
{
    lemma_workers_prefix(data, w, w as int);
    lemma_shards_tile(data.len() as u64, w);
}

/// Partition invariance: for any worker count, merging the per-worker
/// tables in rank order yields exactly the tables of a single whole-file
/// scan — hence any two worker counts agree, key for key and value for
/// value, labels included.
pub proof fn lemma_partition_invariance(data: Seq<u8>, w1: u64, w2: u64)
    requires
        1 <= w1,
        1 <= w2,
        data.len() <= u64::MAX,
    ensures
        workers_bucket_merged(data, w1, w1 as int) == workers_bucket_merged(data, w2, w2 as int),
        workers_entity_merged(data, w1, w1 as int) == workers_entity_merged(data, w2, w2 as int),
        workers_bucket_merged(data, w1, w1 as int) == bucket_fold(whole_file_lines(data)),
        workers_entity_merged(data, w1, w1 as int) == entity_fold(whole_file_lines(data)),
        workers_count_sum(data, w1, w1 as int) == workers_count_sum(data, w2, w2 as int),
{
    lemma_workers_prefix(data, w1, w1 as int);
    lemma_workers_prefix(data, w2, w2 as int);
    lemma_shards_tile(data.len() as u64, w1);
    lemma_shards_tile(data.len() as u64, w2);
}

} // verus!
