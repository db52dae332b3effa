//! The merge point's final step: reduce the per-worker tables and select
//! the bounded top-K of each merged table, in both directions.

use vstd::prelude::*;

use crate::entity::EntityTable;
use crate::entity::ecounts_total;
use crate::entity::emerge_tables;
use crate::entity::emerged_all;
use crate::entity::etable_views;
use crate::table::BucketTable;
use crate::table::counts_total;
use crate::table::merge_tables;
use crate::table::merged_all;
use crate::table::table_views;
use crate::topk::drawn_from;
use crate::topk::keeps;
use crate::topk::key_kept;
use crate::topk::top_k;

verus! {

/// `r` is a correct bounded top-K selection from the table `m`: sorted for
/// the direction, at most `k` long and only shorter when nothing was left
/// out, drawn from `m` with distinct keys, and no key left out beats any
/// kept value.
pub open spec fn topk_pairs_ok(
    r: Seq<(String, i128)>,
    m: Map<Seq<char>, int>,
    k: int,
    largest: bool,
) -> bool {
    &&& r.len() <= k
    &&& forall|p: int, q: int|
        0 <= p < q < r.len() ==> keeps(largest, (#[trigger] r[p]).1 as int, (#[trigger] r[q]).1 as int)
    &&& forall|p: int|
        0 <= p < r.len() ==> m.contains_key((#[trigger] r[p]).0@) && m[r[p].0@] == r[p].1 as int
    &&& forall|p: int, q: int|
        0 <= p < q < r.len() ==> (#[trigger] r[p]).0@ != (#[trigger] r[q]).0@
    &&& forall|key: Seq<char>|
        #[trigger] m.contains_key(key) && !(exists|p: int| 0 <= p < r.len() && (#[trigger] r[p]).0@ == key)
            ==> r.len() == k && (forall|p: int|
            0 <= p < r.len() ==> keeps(largest, (#[trigger] r[p]).1 as int, m[key]))
}

/// As [`topk_pairs_ok`], for `(key, label, sum)` selections from an entity
/// table; the label of each selected key is the table's.
pub open spec fn topk_triples_ok(
    r: Seq<(String, String, i128)>,
    m: Map<Seq<char>, (Seq<char>, int)>,
    k: int,
    largest: bool,
) -> bool {
    &&& r.len() <= k
    &&& forall|p: int, q: int|
        0 <= p < q < r.len() ==> keeps(largest, (#[trigger] r[p]).2 as int, (#[trigger] r[q]).2 as int)
    &&& forall|p: int|
        0 <= p < r.len() ==> m.contains_key((#[trigger] r[p]).0@) && m[r[p].0@] == (
            r[p].1@,
            r[p].2 as int,
        )
    &&& forall|p: int, q: int|
        0 <= p < q < r.len() ==> (#[trigger] r[p]).0@ != (#[trigger] r[q]).0@
    &&& forall|key: Seq<char>|
        #[trigger] m.contains_key(key) && !(exists|p: int| 0 <= p < r.len() && (#[trigger] r[p]).0@ == key)
            ==> r.len() == k && (forall|p: int|
            0 <= p < r.len() ==> keeps(largest, (#[trigger] r[p]).2 as int, m[key].1))
}

/// BoundedTopK over a bucket table.
pub fn top_k_buckets(t: &BucketTable, k: usize, largest: bool) -> (r: Vec<(String, i128)>)
    requires
        t.wf(),
    ensures
        topk_pairs_ok(r@, t@, k as int, largest),
{
    let ents = t.entries();
    let r = top_k(ents, k, largest);
    proof {
        assert forall|p: int|
            0 <= p < r@.len() implies t@.contains_key((#[trigger] r@[p]).0@) && t@[r@[p].0@]
            == r@[p].1 as int by {
            assert(drawn_from(r@, ents@, p, ents@.len() as int));
            let j = choose|j: int|
                0 <= j < ents@.len() && (#[trigger] ents@[j]).0@ == r@[p].0@ && ents@[j].1
                    == r@[p].1;
            assert(t@.contains_key(ents@[j].0@));
        }
        assert forall|key: Seq<char>|
            #[trigger] t@.contains_key(key) && !(exists|p: int|
                0 <= p < r@.len() && (#[trigger] r@[p]).0@ == key) implies r@.len() == k as int
            && (forall|p: int|
            0 <= p < r@.len() ==> keeps(largest, (#[trigger] r@[p]).1 as int, t@[key])) by {
            let j = choose|j: int| 0 <= j < ents@.len() && (#[trigger] ents@[j]).0@ == key;
            assert(!key_kept(r@, ents@, j));
            assert(ents@[j].1 as int == t@[key]);
            if r@.len() < k as int {
                assert(ents@.len() <= k as int);
                assert(key_kept(r@, ents@, j));
                assert(false);
            }
        }
    }
    r
}

/// BoundedTopK over an entity table: the `k` best `(key, label, sum)`
/// triples by sum.
#[verifier::loop_isolation(false)]
pub fn top_k_entities(t: &EntityTable, k: usize, largest: bool) -> (r: Vec<(String, String, i128)>)
    requires
        t.wf(),
    ensures
        topk_triples_ok(r@, t@, k as int, largest),
{
    let ents = t.entries();
    let n: usize = ents.len();
    let mut pairs: Vec<(String, i128)> = Vec::new();
    let mut i: usize = 0;
    while i < n
        invariant
            0 <= i <= n,
            pairs@.len() == i,
            forall|q: int|
                0 <= q < i ==> (#[trigger] pairs@[q]).0@ == ents@[q].0@ && pairs@[q].1
                    == ents@[q].2,
        decreases n - i,
    {
        pairs.push((ents[i].0.clone(), ents[i].2));
        i += 1;
    }
    proof {
        assert(crate::table::keys_unique(pairs@));
    }
    let sel = top_k(&pairs, k, largest);
    let m: usize = sel.len();
    let mut r: Vec<(String, String, i128)> = Vec::new();
    let mut j: usize = 0;
    while j < m
        invariant
            0 <= j <= m,
            r@.len() == j,
            forall|q: int|
                0 <= q < j ==> (#[trigger] r@[q]).0@ == sel@[q].0@ && r@[q].2 == sel@[q].1
                    && t@.contains_key(r@[q].0@) && t@[r@[q].0@] == (r@[q].1@, r@[q].2 as int),
        decreases m - j,
    {
        proof {
            assert(drawn_from(sel@, pairs@, j as int, pairs@.len() as int));
            let jj = choose|jj: int|
                0 <= jj < pairs@.len() && (#[trigger] pairs@[jj]).0@ == sel@[j as int].0@
                    && pairs@[jj].1 == sel@[j as int].1;
            assert(t@.contains_key(ents@[jj].0@));
            assert(t@[ents@[jj].0@] == (ents@[jj].1@, ents@[jj].2 as int));
        }
        let label: String = match t.label_of(&sel[j].0) {
            Some(l) => l,
            None => {
                // unreachable: every selected key came out of the table
                proof {
                    assert(false);
                }
                String::new()
            },
        };
        r.push((sel[j].0.clone(), label, sel[j].1));
        j += 1;
    }
    proof {
        assert forall|key: Seq<char>|
            #[trigger] t@.contains_key(key) && !(exists|p: int|
                0 <= p < r@.len() && (#[trigger] r@[p]).0@ == key) implies r@.len() == k as int
            && (forall|p: int|
            0 <= p < r@.len() ==> keeps(largest, (#[trigger] r@[p]).2 as int, t@[key].1)) by {
            let jt = choose|jt: int| 0 <= jt < ents@.len() && (#[trigger] ents@[jt]).0@ == key;
            assert(pairs@[jt].0@ == key);
            if exists|p: int| 0 <= p < sel@.len() && (#[trigger] sel@[p]).0@ == key {
                let p = choose|p: int| 0 <= p < sel@.len() && (#[trigger] sel@[p]).0@ == key;
                assert(r@[p].0@ == key);
                assert(false);
            }
            assert(!key_kept(sel@, pairs@, jt));
            assert(pairs@[jt].1 as int == t@[key].1);
            if sel@.len() < k as int {
                assert(pairs@.len() <= k as int);
                assert(key_kept(sel@, pairs@, jt));
                assert(false);
            }
            assert forall|p: int| 0 <= p < r@.len() implies keeps(
                largest,
                (#[trigger] r@[p]).2 as int,
                t@[key].1,
            ) by {
                assert(keeps(largest, sel@[p].1 as int, pairs@[jt].1 as int));
            }
        }
    }
    r
}

/// What the merge point hands to the reporting layer.
pub struct Report {
    pub happiest_buckets: Vec<(String, i128)>,
    pub saddest_buckets: Vec<(String, i128)>,
    pub happiest_entities: Vec<(String, String, i128)>,
    pub saddest_entities: Vec<(String, String, i128)>,
    pub total_records: u64,
}

/// Total of the per-worker record counts.
pub open spec fn lines_total(cs: Seq<usize>) -> int
    decreases cs.len(),
{
    if cs.len() == 0 {
        0
    } else {
        lines_total(cs.drop_last()) + cs.last()
    }
}

proof fn lemma_lines_total_prefix(cs: Seq<usize>, i: int)
    requires
        0 <= i <= cs.len(),
    ensures
        lines_total(cs.take(i)) <= lines_total(cs),
        lines_total(cs.take(i)) >= 0,
    decreases cs.len() - i,
{
    if i == cs.len() {
        assert(cs.take(i) =~= cs);
        lemma_lines_total_nonneg(cs);
    } else {
        lemma_lines_total_prefix(cs, i + 1);
        lemma_lines_total_nonneg(cs.take(i));
        assert(cs.take(i + 1).drop_last() =~= cs.take(i));
        assert(cs.take(i + 1).last() == cs[i]);
    }
}

proof fn lemma_lines_total_nonneg(cs: Seq<usize>)
    ensures
        lines_total(cs) >= 0,
    decreases cs.len(),
{
    if cs.len() > 0 {
        lemma_lines_total_nonneg(cs.drop_last());
    }
}

/// The merge point's work after the barrier: merge every worker's pair of
/// tables and record count, then select the bounded top-K of each merged
/// table in both directions. Fails exactly when a total record count
/// would not fit a `u64`.
#[verifier::loop_isolation(false)]
pub fn finalize(
    buckets: &Vec<BucketTable>,
    entities: &Vec<EntityTable>,
    line_counts: &Vec<usize>,
    k: usize,
) -> (r: Option<Report>)
    requires
        forall|i: int| 0 <= i < buckets@.len() ==> (#[trigger] buckets@[i]).wf(),
        forall|i: int| 0 <= i < entities@.len() ==> (#[trigger] entities@[i]).wf(),
    ensures
        match r {
            Some(rep) => {
                &&& topk_pairs_ok(
                    rep.happiest_buckets@,
                    merged_all(table_views(buckets@)),
                    k as int,
                    true,
                )
                &&& topk_pairs_ok(
                    rep.saddest_buckets@,
                    merged_all(table_views(buckets@)),
                    k as int,
                    false,
                )
                &&& topk_triples_ok(
                    rep.happiest_entities@,
                    emerged_all(etable_views(entities@)),
                    k as int,
                    true,
                )
                &&& topk_triples_ok(
                    rep.saddest_entities@,
                    emerged_all(etable_views(entities@)),
                    k as int,
                    false,
                )
                &&& rep.total_records as int == lines_total(line_counts@)
            },
            None => counts_total(buckets@) > u64::MAX || ecounts_total(entities@) > u64::MAX
                || lines_total(line_counts@) > u64::MAX,
        },
{
    let gb: BucketTable = match merge_tables(buckets) {
        Some(g) => g,
        None => {
            return None;
        },
    };
    let ge: EntityTable = match emerge_tables(entities) {
        Some(g) => g,
        None => {
            return None;
        },
    };
    let mut total: u64 = 0;
    let n: usize = line_counts.len();
    let mut i: usize = 0;
    while i < n
        invariant
            0 <= i <= n,
            total as int == lines_total(line_counts@.take(i as int)),
        decreases n - i,
    {
        let c: usize = line_counts[i];
        proof {
            assert(line_counts@.take(i as int + 1).drop_last() =~= line_counts@.take(i as int));
            assert(line_counts@.take(i as int + 1).last() == line_counts@[i as int]);
        }
        if c as u64 > u64::MAX - total {
            proof {
                lemma_lines_total_prefix(line_counts@, i as int + 1);
            }
            return None;
        }
        total = total + c as u64;
        i += 1;
    }
    proof {
        assert(line_counts@.take(n as int) =~= line_counts@);
    }
    Some(
        Report {
            happiest_buckets: top_k_buckets(&gb, k, true),
            saddest_buckets: top_k_buckets(&gb, k, false),
            happiest_entities: top_k_entities(&ge, k, true),
            saddest_entities: top_k_entities(&ge, k, false),
            total_records: total,
        },
    )
}

} // verus!
