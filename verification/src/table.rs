//! The bucket table: a keyed running-sum table, and the Reducer's
//! commutative key-wise merge.
//!
//! A table maps a time-bucket key to the exact sum, in micro-units, of the
//! metrics of the records filed under it. It also carries how many records
//! were summed into it, which bounds every value by
//! `count * METRIC_BOUND` and so keeps all arithmetic exact.

use vstd::prelude::*;
use vstd::pervasive::VecAdditionalExecFns;

use crate::metric::METRIC_BOUND;

verus! {

/// Key views of the entries are pairwise distinct.
pub open spec fn keys_unique(s: Seq<(String, i128)>) -> bool {
    forall|i: int, j: int| 0 <= i < j < s.len() ==> (#[trigger] s[i]).0@ != (#[trigger] s[j]).0@
}

/// The finite map an entry list denotes.
pub open spec fn entries_map(s: Seq<(String, i128)>) -> Map<Seq<char>, int>
    decreases s.len(),
{
    if s.len() == 0 {
        Map::empty()
    } else {
        entries_map(s.drop_last()).insert(s.last().0@, s.last().1 as int)
    }
}

/// The value a table holds for `k`, an absent key counting as zero.
pub open spec fn val_or_zero(m: Map<Seq<char>, int>, k: Seq<char>) -> int {
    if m.contains_key(k) {
        m[k]
    } else {
        0
    }
}

/// Key-wise sum of two tables: every key of either side, with the sum of
/// the values the two sides hold for it.
pub open spec fn merged_map(a: Map<Seq<char>, int>, b: Map<Seq<char>, int>) -> Map<
    Seq<char>,
    int,
> {
    Map::new(
        |k: Seq<char>| a.contains_key(k) || b.contains_key(k),
        |k: Seq<char>| val_or_zero(a, k) + val_or_zero(b, k),
    )
}

pub proof fn lemma_entries_map_props(s: Seq<(String, i128)>)
    requires
        keys_unique(s),
    ensures
        forall|i: int|
            0 <= i < s.len() ==> entries_map(s).contains_key((#[trigger] s[i]).0@)
                && entries_map(s)[s[i].0@] == s[i].1 as int,
        forall|k: Seq<char>|
            #[trigger] entries_map(s).contains_key(k) ==> exists|i: int|
                0 <= i < s.len() && (#[trigger] s[i]).0@ == k,
    decreases s.len(),
{
    if s.len() > 0 {
        let pre = s.drop_last();
        assert(keys_unique(pre)) by {
            assert(forall|i: int| 0 <= i < pre.len() ==> #[trigger] pre[i] == s[i]);
        }
        lemma_entries_map_props(pre);
        assert(forall|i: int| 0 <= i < pre.len() ==> #[trigger] pre[i] == s[i]);
        assert forall|i: int|
            0 <= i < s.len() implies entries_map(s).contains_key((#[trigger] s[i]).0@)
            && entries_map(s)[s[i].0@] == s[i].1 as int by {
            if i < s.len() - 1 {
                assert(pre[i] == s[i]);
                assert(s[i].0@ != s.last().0@);
            }
        }
        assert forall|k: Seq<char>| #[trigger] entries_map(s).contains_key(k) implies exists|i: int|
            0 <= i < s.len() && (#[trigger] s[i]).0@ == k by {
            if k == s.last().0@ {
                assert(s[s.len() - 1].0@ == k);
            } else {
                assert(entries_map(pre).contains_key(k));
                let i = choose|i: int| 0 <= i < pre.len() && (#[trigger] pre[i]).0@ == k;
                assert(s[i].0@ == k);
            }
        }
    }
}

pub proof fn lemma_entries_map_update(s: Seq<(String, i128)>, i: int, key: String, v: i128)
    requires
        keys_unique(s),
        0 <= i < s.len(),
        key@ == s[i].0@,
    ensures
        entries_map(s.update(i, (key, v))) == entries_map(s).insert(key@, v as int),
        keys_unique(s.update(i, (key, v))),
    decreases s.len(),
{
    let t = s.update(i, (key, v));
    assert(keys_unique(t)) by {
        assert(forall|q: int| 0 <= q < s.len() && q != i ==> #[trigger] t[q] == s[q]);
    }
    if i == s.len() - 1 {
        assert(t.drop_last() =~= s.drop_last());
        assert(entries_map(t) == entries_map(s.drop_last()).insert(key@, v as int));
        assert(entries_map(s.drop_last()).insert(s.last().0@, s.last().1 as int).insert(
            key@,
            v as int,
        ) =~= entries_map(s.drop_last()).insert(key@, v as int));
    } else {
        let pre = s.drop_last();
        assert(keys_unique(pre)) by {
            assert(forall|q: int| 0 <= q < pre.len() ==> #[trigger] pre[q] == s[q]);
        }
        lemma_entries_map_update(pre, i, key, v);
        assert(t.drop_last() =~= pre.update(i, (key, v)));
        assert(t.last() == s.last());
        assert(entries_map(t) == entries_map(pre).insert(key@, v as int).insert(
            s.last().0@,
            s.last().1 as int,
        ));
        // the updated key differs from the last key, so the inserts commute
        assert(key@ != s.last().0@);
        assert(entries_map(pre).insert(key@, v as int).insert(s.last().0@, s.last().1 as int)
            =~= entries_map(pre).insert(s.last().0@, s.last().1 as int).insert(key@, v as int));
    }
}

pub(crate) proof fn lemma_mb_linear(c1: int, c2: int)
    requires
        0 <= c1,
        0 <= c2,
    ensures
        (c1 + c2) * METRIC_BOUND == c1 * METRIC_BOUND + c2 * METRIC_BOUND,
        0 <= c1 * METRIC_BOUND,
        c1 + c2 <= 18446744073709551615int ==> (c1 + c2) * METRIC_BOUND
            <= 18446744073709551616int * METRIC_BOUND,
{
    assert((c1 + c2) * METRIC_BOUND == c1 * METRIC_BOUND + c2 * METRIC_BOUND)
        by (nonlinear_arith);
    assert(0 <= c1 * METRIC_BOUND) by (nonlinear_arith)
        requires 0 <= c1,
    ;
    if c1 + c2 <= 18446744073709551615int {
        assert((c1 + c2) * METRIC_BOUND <= 18446744073709551616int * METRIC_BOUND)
            by (nonlinear_arith)
            requires 0 <= c1 + c2 <= 18446744073709551616int,
        ;
    }
}

/// A keyed running-sum table.
pub struct BucketTable {
    entries: Vec<(String, i128)>,
    count: u64,
}

impl View for BucketTable {
    type V = Map<Seq<char>, int>;

    closed spec fn view(&self) -> Map<Seq<char>, int> {
        entries_map(self.entries@)
    }
}

impl BucketTable {
    /// How many records were summed into the table.
    pub closed spec fn spec_count(&self) -> int {
        self.count as int
    }

    /// How many keys the table holds.
    pub closed spec fn spec_len(&self) -> int {
        self.entries@.len() as int
    }

    /// Keys are unique and every value is a sum of at most `spec_count()`
    /// metrics, each bounded by [`METRIC_BOUND`].
    pub closed spec fn wf(&self) -> bool {
        &&& keys_unique(self.entries@)
        &&& forall|k: Seq<char>|
            #[trigger] self@.contains_key(k) ==> -self.spec_count() * METRIC_BOUND <= self@[k]
                <= self.spec_count() * METRIC_BOUND
    }

    pub fn new() -> (r: Self)
        ensures
            r.wf(),
            r@ == Map::<Seq<char>, int>::empty(),
            r.spec_count() == 0,
            r.spec_len() == 0,
    {
        BucketTable { entries: Vec::new(), count: 0 }
    }

    pub fn count(&self) -> (r: u64)
        ensures
            r as int == self.spec_count(),
    {
        self.count
    }

    pub fn len(&self) -> (r: usize)
        ensures
            r as int == self.spec_len(),
    {
        self.entries.len()
    }

    /// The entries as `(key, value)` pairs: exactly the table's map, one
    /// pair per key.
    pub fn entries(&self) -> (r: &Vec<(String, i128)>)
        requires
            self.wf(),
        ensures
            r@.len() == self.spec_len(),
            keys_unique(r@),
            entries_map(r@) == self@,
            forall|i: int|
                0 <= i < r@.len() ==> self@.contains_key((#[trigger] r@[i]).0@)
                    && self@[r@[i].0@] == r@[i].1 as int,
            forall|k: Seq<char>|
                #[trigger] self@.contains_key(k) ==> exists|i: int|
                    0 <= i < r@.len() && (#[trigger] r@[i]).0@ == k,
    {
        proof {
            lemma_entries_map_props(self.entries@);
        }
        &self.entries
    }

    fn find(&self, key: &String) -> (r: Option<usize>)
        ensures
            match r {
                Some(i) => i < self.entries@.len() && self.entries@[i as int].0@ == key@,
                None => forall|i: int|
                    0 <= i < self.entries@.len() ==> (#[trigger] self.entries@[i]).0@ != key@,
            },
    {
        let mut i: usize = 0;
        let n: usize = self.entries.len();
        while i < n
            invariant
                0 <= i <= n,
                n == self.entries@.len(),
                forall|q: int| 0 <= q < i ==> (#[trigger] self.entries@[q]).0@ != key@,
            decreases n - i,
        {
            if self.entries[i].0 == *key {
                return Some(i);
            }
            i += 1;
        }
        None
    }

    /// The value stored under `key`, if the key is present.
    pub fn get(&self, key: &String) -> (r: Option<i128>)
        requires
            self.wf(),
        ensures
            match r {
                Some(v) => self@.contains_key(key@) && self@[key@] == v as int,
                None => !self@.contains_key(key@),
            },
    {
        proof {
            lemma_entries_map_props(self.entries@);
        }
        match self.find(key) {
            Some(i) => Some(self.entries[i].1),
            None => {
                proof {
                    if self@.contains_key(key@) {
                        let j = choose|j: int|
                            0 <= j < self.entries@.len() && (#[trigger] self.entries@[j]).0@
                                == key@;
                        assert(false);
                    }
                }
                None
            },
        }
    }

    /// Upsert that leaves the record count alone; the callers account for
    /// what was added.
    fn add_raw(&mut self, key: String, v: i128)
        requires
            keys_unique(old(self).entries@),
            i128::MIN <= val_or_zero(old(self)@, key@) + v <= i128::MAX,
        ensures
            keys_unique(final(self).entries@),
            final(self)@ == old(self)@.insert(key@, val_or_zero(old(self)@, key@) + v),
            final(self).count == old(self).count,
            final(self).spec_len() == old(self).spec_len() + (if old(self)@.contains_key(key@) {
                0int
            } else {
                1int
            }),
    {
        proof {
            lemma_entries_map_props(self.entries@);
        }
        match self.find(&key) {
            Some(i) => {
                let cur: i128 = self.entries[i].1;
                proof {
                    assert(cur as int == self@[key@]);
                    lemma_entries_map_update(self.entries@, i as int, key, (cur + v) as i128);
                }
                let nv: i128 = cur + v;
                self.entries.set(i, (key, nv));
            },
            None => {
                proof {
                    if self@.contains_key(key@) {
                        assert(false);
                    }
                }
                self.entries.push((key, v));
                proof {
                    assert(self.entries@.drop_last() =~= old(self).entries@);
                    assert(keys_unique(self.entries@)) by {
                        assert(forall|q: int|
                            0 <= q < old(self).entries@.len() ==> #[trigger] self.entries@[q]
                                == old(self).entries@[q]);
                    }
                }
            },
        }
    }

    /// Files one record's metric under `key`:
    /// `table[key] = table.get(key, 0) + m`.
    pub fn add(&mut self, key: String, m: i64)
        requires
            old(self).wf(),
            old(self).spec_count() < u64::MAX,
            -METRIC_BOUND <= m <= METRIC_BOUND,
        ensures
            final(self).wf(),
            final(self)@ == old(self)@.insert(key@, val_or_zero(old(self)@, key@) + m),
            final(self).spec_count() == old(self).spec_count() + 1,
    {
        proof {
            lemma_mb_linear(self.spec_count(), 1);
        }
        self.add_raw(key, m as i128);
        self.count = self.count + 1;
        proof {
            let c = old(self).spec_count();
            assert forall|k: Seq<char>| #[trigger] self@.contains_key(k) implies -self.spec_count()
                * METRIC_BOUND <= self@[k] <= self.spec_count() * METRIC_BOUND by {
                lemma_mb_linear(c, 1);
            }
        }
    }

    /// The Reducer's pairwise merge: absorbs `other` key-wise.
    #[verifier::loop_isolation(false)]
    pub fn merge_from(&mut self, other: &BucketTable)
        requires
            old(self).wf(),
            other.wf(),
            old(self).spec_count() + other.spec_count() <= u64::MAX,
        ensures
            final(self).wf(),
            final(self)@ == merged_map(old(self)@, other@),
            final(self).spec_count() == old(self).spec_count() + other.spec_count(),
    {
        proof {
            lemma_entries_map_props(other.entries@);
            lemma_mb_linear(old(self).spec_count(), other.spec_count());
        }
        let ghost a = self@;
        let ghost bents = other.entries@;
        let ghost c1 = old(self).spec_count();
        let ghost c2 = other.spec_count();
        self.count = self.count + other.count;
        let n: usize = other.entries.len();
        let mut i: usize = 0;
        proof {
            assert(bents.take(0) =~= Seq::<(String, i128)>::empty());
            assert(self@ =~= merged_map(a, entries_map(bents.take(0))));
        }
        while i < n
            invariant
                0 <= i <= n,
                n == bents.len(),
                bents == other.entries@,
                other.wf(),
                keys_unique(self.entries@),
                self.count as int == c1 + c2,
                self@ == merged_map(a, entries_map(bents.take(i as int))),
                forall|k: Seq<char>|
                    #[trigger] self@.contains_key(k) ==> -(c1 + c2) * METRIC_BOUND <= self@[k]
                        <= (c1 + c2) * METRIC_BOUND,
                forall|k: Seq<char>|
                    #[trigger] a.contains_key(k) ==> -c1 * METRIC_BOUND <= a[k] <= c1
                        * METRIC_BOUND,
            decreases n - i,
        {
            let key: String = other.entries[i].0.clone();
            let v: i128 = other.entries[i].1;
            let ghost pre_map = entries_map(bents.take(i as int));
            proof {
                lemma_entries_map_props(bents);
                // the key is new to the prefix, so its prefix value is zero
                assert(bents.take(i as int + 1).drop_last() =~= bents.take(i as int));
                assert(entries_map(bents.take(i as int + 1)) == pre_map.insert(
                    key@,
                    v as int,
                ));
                lemma_entries_map_props(bents.take(i as int));
                if pre_map.contains_key(key@) {
                    let q = choose|q: int|
                        0 <= q < bents.take(i as int).len() && (#[trigger] bents.take(
                            i as int,
                        )[q]).0@ == key@;
                    assert(bents.take(i as int)[q] == bents[q]);
                    assert(bents[q].0@ == bents[i as int].0@);
                    assert(false);
                }
                // bounds for the upsert
                assert(other@.contains_key(bents[i as int].0@));
                assert(other@[bents[i as int].0@] == v as int);
                assert(-c2 * METRIC_BOUND <= v <= c2 * METRIC_BOUND);
                assert(c1 >= 0 && c2 >= 0);
                lemma_mb_linear(c1, c2);
                lemma_mb_linear(c2, c1);
            }
            self.add_raw(key, v);
            proof {
                assert(self@ =~= merged_map(a, entries_map(bents.take(i as int + 1))));
            }
            i += 1;
        }
        proof {
            assert(bents.take(n as int) =~= bents);
        }
    }
}

/// Merging tables is commutative.
pub proof fn lemma_merged_map_comm(a: Map<Seq<char>, int>, b: Map<Seq<char>, int>)
    ensures
        merged_map(a, b) == merged_map(b, a),
{
    assert(merged_map(a, b) =~= merged_map(b, a));
}

/// Merging tables is associative.
pub proof fn lemma_merged_map_assoc(
    a: Map<Seq<char>, int>,
    b: Map<Seq<char>, int>,
    c: Map<Seq<char>, int>,
)
    ensures
        merged_map(merged_map(a, b), c) == merged_map(a, merged_map(b, c)),
{
    assert(merged_map(merged_map(a, b), c) =~= merged_map(a, merged_map(b, c)));
}

/// Merging the empty table changes nothing.
pub proof fn lemma_merged_map_empty(a: Map<Seq<char>, int>)
    ensures
        merged_map(Map::empty(), a) == a,
{
    assert(merged_map(Map::empty(), a) =~= a);
}

/// Left-to-right merge of a list of tables.
pub open spec fn merged_all(ms: Seq<Map<Seq<char>, int>>) -> Map<Seq<char>, int>
    decreases ms.len(),
{
    if ms.len() == 0 {
        Map::empty()
    } else {
        merged_map(merged_all(ms.drop_last()), ms.last())
    }
}

/// Merging the tables `[a, b, c]` yields the same result as merging
/// `[c, a, b]`: the merge is order-independent.
pub proof fn lemma_merge_rotation(
    a: Map<Seq<char>, int>,
    b: Map<Seq<char>, int>,
    c: Map<Seq<char>, int>,
)
    ensures
        merged_all(seq![a, b, c]) == merged_all(seq![c, a, b]),
{
    let l = seq![a, b, c];
    let r = seq![c, a, b];
    reveal_with_fuel(merged_all, 5);
    lemma_merged_map_empty(a);
    lemma_merged_map_empty(c);
    assert(seq![a].drop_last() =~= Seq::<Map<Seq<char>, int>>::empty());
    assert(merged_all(seq![a]) == a);
    assert(seq![a, b].drop_last() =~= seq![a]);
    assert(seq![a, b].last() == b);
    assert(merged_all(seq![a, b]) == merged_map(a, b));
    assert(l.drop_last() =~= seq![a, b]);
    assert(l.last() == c);
    assert(merged_all(l) == merged_map(merged_map(a, b), c));
    assert(seq![c].drop_last() =~= Seq::<Map<Seq<char>, int>>::empty());
    assert(merged_all(seq![c]) == c);
    assert(seq![c, a].drop_last() =~= seq![c]);
    assert(seq![c, a].last() == a);
    assert(merged_all(seq![c, a]) == merged_map(c, a));
    assert(r.drop_last() =~= seq![c, a]);
    assert(r.last() == b);
    assert(merged_all(r) == merged_map(merged_map(c, a), b));
    lemma_merged_map_comm(merged_map(a, b), c);
    lemma_merged_map_assoc(c, a, b);
}

/// Any one table can be merged last: merging a list equals merging the
/// list without its `i`-th table, then that table.
pub proof fn lemma_merged_all_extract(s: Seq<Map<Seq<char>, int>>, i: int)
    requires
        0 <= i < s.len(),
    ensures
        merged_all(s) == merged_map(merged_all(s.remove(i)), s[i]),
    decreases s.len(),
{
    if i == s.len() - 1 {
        assert(s.remove(i) =~= s.drop_last());
    } else {
        let pre = s.drop_last();
        lemma_merged_all_extract(pre, i);
        let rest = merged_all(pre.remove(i));
        lemma_merged_map_assoc(rest, pre[i], s.last());
        lemma_merged_map_comm(pre[i], s.last());
        lemma_merged_map_assoc(rest, s.last(), pre[i]);
        assert(s.remove(i).drop_last() =~= pre.remove(i));
        assert(s.remove(i).last() == s.last());
        assert(merged_all(s.remove(i)) == merged_map(rest, s.last()));
        assert(pre[i] == s[i]);
    }
}

/// The merge is order-independent in full generality: two lists holding
/// the same tables, in any order, merge to the same table.
pub proof fn lemma_merged_all_permutation(
    a: Seq<Map<Seq<char>, int>>,
    b: Seq<Map<Seq<char>, int>>,
)
    requires
        a.to_multiset() == b.to_multiset(),
    ensures
        merged_all(a) == merged_all(b),
    decreases a.len(),
{
    a.to_multiset_ensures();
    b.to_multiset_ensures();
    if a.len() == 0 {
        assert(b.len() == 0);
    } else {
        let x = a.last();
        assert(a[a.len() - 1] == x);
        assert(a.contains(x));
        assert(a.to_multiset().count(x) > 0);
        assert(b.to_multiset().count(x) > 0);
        assert(b.contains(x));
        let i = choose|i: int| 0 <= i < b.len() && b[i] == x;
        lemma_merged_all_extract(b, i);
        assert(a.remove(a.len() - 1) =~= a.drop_last());
        assert(a.drop_last().to_multiset() == b.remove(i).to_multiset()) by {
            assert(a.remove(a.len() - 1).to_multiset() =~= a.to_multiset().remove(x));
            assert(b.remove(i).to_multiset() =~= b.to_multiset().remove(x));
        }
        lemma_merged_all_permutation(a.drop_last(), b.remove(i));
    }
}

pub open spec fn table_views(ts: Seq<BucketTable>) -> Seq<Map<Seq<char>, int>> {
    ts.map_values(|t: BucketTable| t@)
}

pub open spec fn counts_total(ts: Seq<BucketTable>) -> int
    decreases ts.len(),
{
    if ts.len() == 0 {
        0
    } else {
        counts_total(ts.drop_last()) + ts.last().spec_count()
    }
}

proof fn lemma_counts_total_prefix(ts: Seq<BucketTable>, i: int)
    requires
        0 <= i <= ts.len(),
    ensures
        counts_total(ts.take(i)) <= counts_total(ts),
        counts_total(ts.take(i)) >= 0,
    decreases ts.len() - i,
{
    if i == ts.len() {
        assert(ts.take(i) =~= ts);
        lemma_counts_total_nonneg(ts);
    } else {
        lemma_counts_total_prefix(ts, i + 1);
        lemma_counts_total_nonneg(ts.take(i));
        assert(ts.take(i + 1).drop_last() =~= ts.take(i));
        assert(ts.take(i + 1).last() == ts[i]);
        assert(counts_total(ts.take(i + 1)) == counts_total(ts.take(i))
            + ts[i].spec_count());
    }
}

proof fn lemma_counts_total_nonneg(ts: Seq<BucketTable>)
    ensures
        counts_total(ts) >= 0,
    decreases ts.len(),
{
    if ts.len() > 0 {
        lemma_counts_total_nonneg(ts.drop_last());
    }
}

/// The Reducer: merges the per-worker tables into one global table,
/// key-wise. Fails exactly when the total record count would not fit a
/// `u64`.
#[verifier::loop_isolation(false)]
pub fn merge_tables(ts: &Vec<BucketTable>) -> (r: Option<BucketTable>)
    requires
        forall|i: int| 0 <= i < ts@.len() ==> (#[trigger] ts@[i]).wf(),
    ensures
        match r {
            Some(g) => g.wf() && g@ == merged_all(table_views(ts@)) && g.spec_count()
                == counts_total(ts@) && counts_total(ts@) <= u64::MAX,
            None => counts_total(ts@) > u64::MAX,
        },
{
    let mut g = BucketTable::new();
    let n: usize = ts.len();
    let mut i: usize = 0;
    proof {
        assert(table_views(ts@.take(0)) =~= Seq::<Map<Seq<char>, int>>::empty());
    }
    while i < n
        invariant
            0 <= i <= n,
            n == ts@.len(),
            forall|q: int| 0 <= q < ts@.len() ==> (#[trigger] ts@[q]).wf(),
            g.wf(),
            g@ == merged_all(table_views(ts@.take(i as int))),
            g.spec_count() == counts_total(ts@.take(i as int)),
        decreases n - i,
    {
        let c: u64 = ts[i].count();
        proof {
            assert(ts@.take(i as int + 1).drop_last() =~= ts@.take(i as int));
            assert(counts_total(ts@.take(i as int + 1)) == counts_total(ts@.take(i as int))
                + ts@[i as int].spec_count());
        }
        if g.count() > u64::MAX - c {
            proof {
                lemma_counts_total_prefix(ts@, i as int + 1);
            }
            return None;
        }
        g.merge_from(&ts[i]);
        proof {
            assert(table_views(ts@.take(i as int + 1)).drop_last() =~= table_views(
                ts@.take(i as int),
            ));
            assert(table_views(ts@.take(i as int + 1)).last() == ts@[i as int]@);
        }
        i += 1;
    }
    proof {
        assert(ts@.take(n as int) =~= ts@);
    }
    Some(g)
}

} // verus!
