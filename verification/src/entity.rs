//! The entity table: a keyed table of `(label, running sum)` pairs.
//!
//! The sum under a key is the exact micro-unit sum of the metrics of the
//! records filed under it, just as in the bucket table. The label is
//! whichever label was first observed for the key; it takes no part in the
//! sums, and merge order may pick a different observed label.

use vstd::prelude::*;
use vstd::pervasive::VecAdditionalExecFns;

use crate::metric::METRIC_BOUND;
use crate::table::lemma_mb_linear;
use crate::table::merged_all;
use crate::table::merged_map;
use crate::table::lemma_merge_rotation;

verus! {

pub open spec fn ekeys_unique(s: Seq<(String, String, i128)>) -> bool {
    forall|i: int, j: int| 0 <= i < j < s.len() ==> (#[trigger] s[i]).0@ != (#[trigger] s[j]).0@
}

/// The finite map an entry list denotes: key to `(label, sum)`.
pub open spec fn eentries_map(s: Seq<(String, String, i128)>) -> Map<Seq<char>, (Seq<char>, int)>
    decreases s.len(),
{
    if s.len() == 0 {
        Map::empty()
    } else {
        eentries_map(s.drop_last()).insert(s.last().0@, (s.last().1@, s.last().2 as int))
    }
}

/// The sum a table holds for `k`, an absent key counting as zero.
pub open spec fn sum_or_zero(m: Map<Seq<char>, (Seq<char>, int)>, k: Seq<char>) -> int {
    if m.contains_key(k) {
        m[k].1
    } else {
        0
    }
}

/// The sums of a table, with the labels projected away.
pub open spec fn entity_sums(m: Map<Seq<char>, (Seq<char>, int)>) -> Map<Seq<char>, int> {
    Map::new(|k: Seq<char>| m.contains_key(k), |k: Seq<char>| m[k].1)
}

/// Key-wise merge of two entity tables: sums add; the label comes from the
/// left side where it has the key, else from the right.
pub open spec fn emerged_map(
    a: Map<Seq<char>, (Seq<char>, int)>,
    b: Map<Seq<char>, (Seq<char>, int)>,
) -> Map<Seq<char>, (Seq<char>, int)> {
    Map::new(
        |k: Seq<char>| a.contains_key(k) || b.contains_key(k),
        |k: Seq<char>|
            (
                if a.contains_key(k) {
                    a[k].0
                } else {
                    b[k].0
                },
                sum_or_zero(a, k) + sum_or_zero(b, k),
            ),
    )
}

pub proof fn lemma_eentries_map_props(s: Seq<(String, String, i128)>)
    requires
        ekeys_unique(s),
    ensures
        forall|i: int|
            0 <= i < s.len() ==> eentries_map(s).contains_key((#[trigger] s[i]).0@)
                && eentries_map(s)[s[i].0@] == (s[i].1@, s[i].2 as int),
        forall|k: Seq<char>|
            #[trigger] eentries_map(s).contains_key(k) ==> exists|i: int|
                0 <= i < s.len() && (#[trigger] s[i]).0@ == k,
    decreases s.len(),
{
    if s.len() > 0 {
        let pre = s.drop_last();
        assert(ekeys_unique(pre)) by {
            assert(forall|i: int| 0 <= i < pre.len() ==> #[trigger] pre[i] == s[i]);
        }
        lemma_eentries_map_props(pre);
        assert(forall|i: int| 0 <= i < pre.len() ==> #[trigger] pre[i] == s[i]);
        assert forall|i: int|
            0 <= i < s.len() implies eentries_map(s).contains_key((#[trigger] s[i]).0@)
            && eentries_map(s)[s[i].0@] == (s[i].1@, s[i].2 as int) by {
            if i < s.len() - 1 {
                assert(pre[i] == s[i]);
                assert(s[i].0@ != s.last().0@);
            }
        }
        assert forall|k: Seq<char>| #[trigger] eentries_map(s).contains_key(k) implies exists|
            i: int,
        |
            0 <= i < s.len() && (#[trigger] s[i]).0@ == k by {
            if k == s.last().0@ {
                assert(s[s.len() - 1].0@ == k);
            } else {
                assert(eentries_map(pre).contains_key(k));
                let i = choose|i: int| 0 <= i < pre.len() && (#[trigger] pre[i]).0@ == k;
                assert(s[i].0@ == k);
            }
        }
    }
}

pub proof fn lemma_eentries_map_update(
    s: Seq<(String, String, i128)>,
    i: int,
    key: String,
    label: String,
    v: i128,
)
    requires
        ekeys_unique(s),
        0 <= i < s.len(),
        key@ == s[i].0@,
    ensures
        eentries_map(s.update(i, (key, label, v))) == eentries_map(s).insert(
            key@,
            (label@, v as int),
        ),
        ekeys_unique(s.update(i, (key, label, v))),
    decreases s.len(),
{
    let t = s.update(i, (key, label, v));
    assert(ekeys_unique(t)) by {
        assert(forall|q: int| 0 <= q < s.len() && q != i ==> #[trigger] t[q] == s[q]);
    }
    if i == s.len() - 1 {
        assert(t.drop_last() =~= s.drop_last());
        assert(eentries_map(s.drop_last()).insert(s.last().0@, (s.last().1@, s.last().2 as int))
            .insert(key@, (label@, v as int)) =~= eentries_map(s.drop_last()).insert(
            key@,
            (label@, v as int),
        ));
    } else {
        let pre = s.drop_last();
        assert(ekeys_unique(pre)) by {
            assert(forall|q: int| 0 <= q < pre.len() ==> #[trigger] pre[q] == s[q]);
        }
        lemma_eentries_map_update(pre, i, key, label, v);
        assert(t.drop_last() =~= pre.update(i, (key, label, v)));
        assert(t.last() == s.last());
        assert(key@ != s.last().0@);
        assert(eentries_map(pre).insert(key@, (label@, v as int)).insert(
            s.last().0@,
            (s.last().1@, s.last().2 as int),
        ) =~= eentries_map(pre).insert(s.last().0@, (s.last().1@, s.last().2 as int)).insert(
            key@,
            (label@, v as int),
        ));
    }
}

/// A keyed `(label, running sum)` table.
pub struct EntityTable {
    entries: Vec<(String, String, i128)>,
    count: u64,
}

impl View for EntityTable {
    type V = Map<Seq<char>, (Seq<char>, int)>;

    closed spec fn view(&self) -> Map<Seq<char>, (Seq<char>, int)> {
        eentries_map(self.entries@)
    }
}

impl EntityTable {
    /// How many records were summed into the table.
    pub closed spec fn spec_count(&self) -> int {
        self.count as int
    }

    /// How many keys the table holds.
    pub closed spec fn spec_len(&self) -> int {
        self.entries@.len() as int
    }

    /// Keys are unique and every sum is a sum of at most `spec_count()`
    /// metrics, each bounded by [`METRIC_BOUND`].
    pub closed spec fn wf(&self) -> bool {
        &&& ekeys_unique(self.entries@)
        &&& forall|k: Seq<char>|
            #[trigger] self@.contains_key(k) ==> -self.spec_count() * METRIC_BOUND <= self@[k].1
                <= self.spec_count() * METRIC_BOUND
    }

    pub fn new() -> (r: Self)
        ensures
            r.wf(),
            r@ == Map::<Seq<char>, (Seq<char>, int)>::empty(),
            r.spec_count() == 0,
            r.spec_len() == 0,
    {
        EntityTable { entries: Vec::new(), count: 0 }
    }

    pub fn count(&self) -> (r: u64)
        ensures
            r as int == self.spec_count(),
    {
        self.count
    }

    pub fn len(&self) -> (r: usize)
        ensures
            r as int == self.spec_len(),
    {
        self.entries.len()
    }

    /// The entries as `(key, label, sum)` triples: exactly the table's
    /// map, one triple per key.
    pub fn entries(&self) -> (r: &Vec<(String, String, i128)>)
        requires
            self.wf(),
        ensures
            r@.len() == self.spec_len(),
            ekeys_unique(r@),
            eentries_map(r@) == self@,
            forall|i: int|
                0 <= i < r@.len() ==> self@.contains_key((#[trigger] r@[i]).0@)
                    && self@[r@[i].0@] == (r@[i].1@, r@[i].2 as int),
            forall|k: Seq<char>|
                #[trigger] self@.contains_key(k) ==> exists|i: int|
                    0 <= i < r@.len() && (#[trigger] r@[i]).0@ == k,
    {
        proof {
            lemma_eentries_map_props(self.entries@);
        }
        &self.entries
    }

    fn find(&self, key: &String) -> (r: Option<usize>)
        ensures
            match r {
                Some(i) => i < self.entries@.len() && self.entries@[i as int].0@ == key@,
                None => forall|i: int|
                    0 <= i < self.entries@.len() ==> (#[trigger] self.entries@[i]).0@ != key@,
            },
    {
        let mut i: usize = 0;
        let n: usize = self.entries.len();
        while i < n
            invariant
                0 <= i <= n,
                n == self.entries@.len(),
                forall|q: int| 0 <= q < i ==> (#[trigger] self.entries@[q]).0@ != key@,
            decreases n - i,
        {
            if self.entries[i].0 == *key {
                return Some(i);
            }
            i += 1;
        }
        None
    }

    /// The label stored under `key`, if the key is present.
    pub fn label_of(&self, key: &String) -> (r: Option<String>)
        requires
            self.wf(),
        ensures
            match r {
                Some(l) => self@.contains_key(key@) && l@ == self@[key@].0,
                None => !self@.contains_key(key@),
            },
    {
        proof {
            lemma_eentries_map_props(self.entries@);
        }
        match self.find(key) {
            Some(i) => Some(self.entries[i].1.clone()),
            None => {
                proof {
                    if self@.contains_key(key@) {
                        let j = choose|j: int|
                            0 <= j < self.entries@.len() && (#[trigger] self.entries@[j]).0@
                                == key@;
                        assert(false);
                    }
                }
                None
            },
        }
    }

    /// The `(label, sum)` stored under `key`, if the key is present.
    pub fn get(&self, key: &String) -> (r: Option<(String, i128)>)
        requires
            self.wf(),
        ensures
            match r {
                Some(p) => self@.contains_key(key@) && self@[key@] == (p.0@, p.1 as int),
                None => !self@.contains_key(key@),
            },
    {
        proof {
            lemma_eentries_map_props(self.entries@);
        }
        match self.find(key) {
            Some(i) => Some((self.entries[i].1.clone(), self.entries[i].2)),
            None => {
                proof {
                    if self@.contains_key(key@) {
                        let j = choose|j: int|
                            0 <= j < self.entries@.len() && (#[trigger] self.entries@[j]).0@
                                == key@;
                        assert(false);
                    }
                }
                None
            },
        }
    }

    /// Upsert that leaves the record count alone. The stored label is the
    /// existing one where the key is present, else the given one.
    fn add_raw(&mut self, key: String, label: String, v: i128)
        requires
            ekeys_unique(old(self).entries@),
            i128::MIN <= sum_or_zero(old(self)@, key@) + v <= i128::MAX,
        ensures
            ekeys_unique(final(self).entries@),
            final(self)@ == old(self)@.insert(
                key@,
                (
                    if old(self)@.contains_key(key@) {
                        old(self)@[key@].0
                    } else {
                        label@
                    },
                    sum_or_zero(old(self)@, key@) + v,
                ),
            ),
            final(self).count == old(self).count,
    {
        proof {
            lemma_eentries_map_props(self.entries@);
        }
        match self.find(&key) {
            Some(i) => {
                let cur: i128 = self.entries[i].2;
                let lab: String = self.entries[i].1.clone();
                proof {
                    assert((self.entries@[i as int].1@, cur as int) == self@[key@]);
                    lemma_eentries_map_update(
                        self.entries@,
                        i as int,
                        key,
                        lab,
                        (cur + v) as i128,
                    );
                }
                let nv: i128 = cur + v;
                self.entries.set(i, (key, lab, nv));
            },
            None => {
                proof {
                    if self@.contains_key(key@) {
                        assert(false);
                    }
                }
                self.entries.push((key, label, v));
                proof {
                    assert(self.entries@.drop_last() =~= old(self).entries@);
                    assert(ekeys_unique(self.entries@)) by {
                        assert(forall|q: int|
                            0 <= q < old(self).entries@.len() ==> #[trigger] self.entries@[q]
                                == old(self).entries@[q]);
                    }
                }
            },
        }
    }

    /// Files one record's metric under `key`, retaining the first observed
    /// label for the key.
    pub fn add(&mut self, key: String, label: String, m: i64)
        requires
            old(self).wf(),
            old(self).spec_count() < u64::MAX,
            -METRIC_BOUND <= m <= METRIC_BOUND,
        ensures
            final(self).wf(),
            final(self)@ == old(self)@.insert(
                key@,
                (
                    if old(self)@.contains_key(key@) {
                        old(self)@[key@].0
                    } else {
                        label@
                    },
                    sum_or_zero(old(self)@, key@) + m,
                ),
            ),
            final(self).spec_count() == old(self).spec_count() + 1,
    {
        proof {
            lemma_mb_linear(self.spec_count(), 1);
        }
        self.add_raw(key, label, m as i128);
        self.count = self.count + 1;
        proof {
            let c = old(self).spec_count();
            assert forall|k: Seq<char>| #[trigger] self@.contains_key(k) implies -self.spec_count()
                * METRIC_BOUND <= self@[k].1 <= self.spec_count() * METRIC_BOUND by {
                lemma_mb_linear(c, 1);
            }
        }
    }

    /// The Reducer's pairwise merge: absorbs `other` key-wise; sums add,
    /// and for a key both sides hold, this table's label stays.
    #[verifier::loop_isolation(false)]
    pub fn merge_from(&mut self, other: &EntityTable)
        requires
            old(self).wf(),
            other.wf(),
            old(self).spec_count() + other.spec_count() <= u64::MAX,
        ensures
            final(self).wf(),
            final(self)@ == emerged_map(old(self)@, other@),
            final(self).spec_count() == old(self).spec_count() + other.spec_count(),
    {
        proof {
            lemma_eentries_map_props(other.entries@);
            lemma_mb_linear(old(self).spec_count(), other.spec_count());
        }
        let ghost a = self@;
        let ghost bents = other.entries@;
        let ghost c1 = old(self).spec_count();
        let ghost c2 = other.spec_count();
        self.count = self.count + other.count;
        let n: usize = other.entries.len();
        let mut i: usize = 0;
        proof {
            assert(bents.take(0) =~= Seq::<(String, String, i128)>::empty());
            assert(self@ =~= emerged_map(a, eentries_map(bents.take(0))));
        }
        while i < n
            invariant
                0 <= i <= n,
                ekeys_unique(self.entries@),
                self.count as int == c1 + c2,
                self@ == emerged_map(a, eentries_map(bents.take(i as int))),
                forall|k: Seq<char>|
                    #[trigger] self@.contains_key(k) ==> -(c1 + c2) * METRIC_BOUND <= self@[k].1
                        <= (c1 + c2) * METRIC_BOUND,
            decreases n - i,
        {
            let key: String = other.entries[i].0.clone();
            let label: String = other.entries[i].1.clone();
            let v: i128 = other.entries[i].2;
            let ghost pre_map = eentries_map(bents.take(i as int));
            proof {
                lemma_eentries_map_props(bents);
                assert(bents.take(i as int + 1).drop_last() =~= bents.take(i as int));
                assert(eentries_map(bents.take(i as int + 1)) == pre_map.insert(
                    key@,
                    (label@, v as int),
                ));
                lemma_eentries_map_props(bents.take(i as int));
                if pre_map.contains_key(key@) {
                    let q = choose|q: int|
                        0 <= q < bents.take(i as int).len() && (#[trigger] bents.take(
                            i as int,
                        )[q]).0@ == key@;
                    assert(bents.take(i as int)[q] == bents[q]);
                    assert(bents[q].0@ == bents[i as int].0@);
                    assert(false);
                }
                assert(other@.contains_key(bents[i as int].0@));
                assert(other@[bents[i as int].0@] == (bents[i as int].1@, v as int));
                assert(-c2 * METRIC_BOUND <= v <= c2 * METRIC_BOUND);
                lemma_mb_linear(c1, c2);
                lemma_mb_linear(c2, c1);
            }
            self.add_raw(key, label, v);
            proof {
                assert(self@ =~= emerged_map(a, eentries_map(bents.take(i as int + 1))));
            }
            i += 1;
        }
        proof {
            assert(bents.take(n as int) =~= bents);
        }
    }
}

/// The sums of a merged entity table are the merged sums: labels take no
/// part in the reduction.
pub proof fn lemma_sums_of_emerged(
    a: Map<Seq<char>, (Seq<char>, int)>,
    b: Map<Seq<char>, (Seq<char>, int)>,
)
    ensures
        entity_sums(emerged_map(a, b)) == merged_map(entity_sums(a), entity_sums(b)),
{
    assert(entity_sums(emerged_map(a, b)) =~= merged_map(entity_sums(a), entity_sums(b)));
}

/// Left-to-right merge of a list of entity tables.
pub open spec fn emerged_all(ms: Seq<Map<Seq<char>, (Seq<char>, int)>>) -> Map<
    Seq<char>,
    (Seq<char>, int),
>
    decreases ms.len(),
{
    if ms.len() == 0 {
        Map::empty()
    } else {
        emerged_map(emerged_all(ms.drop_last()), ms.last())
    }
}

pub proof fn lemma_sums_of_emerged_all(ms: Seq<Map<Seq<char>, (Seq<char>, int)>>)
    ensures
        entity_sums(emerged_all(ms)) == merged_all(
            ms.map_values(|m: Map<Seq<char>, (Seq<char>, int)>| entity_sums(m)),
        ),
    decreases ms.len(),
{
    let f = |m: Map<Seq<char>, (Seq<char>, int)>| entity_sums(m);
    if ms.len() == 0 {
        assert(entity_sums(emerged_all(ms)) =~= merged_all(ms.map_values(f)));
    } else {
        lemma_sums_of_emerged_all(ms.drop_last());
        lemma_sums_of_emerged(emerged_all(ms.drop_last()), ms.last());
        assert(ms.map_values(f).drop_last() =~= ms.drop_last().map_values(f));
        assert(ms.map_values(f).last() == entity_sums(ms.last()));
    }
}

/// Merging entity tables `[a, b, c]` and `[c, a, b]` yields the same keys
/// and the same sums; only the choice among observed labels may differ.
pub proof fn lemma_entity_merge_rotation(
    a: Map<Seq<char>, (Seq<char>, int)>,
    b: Map<Seq<char>, (Seq<char>, int)>,
    c: Map<Seq<char>, (Seq<char>, int)>,
)
    ensures
        entity_sums(emerged_all(seq![a, b, c])) == entity_sums(emerged_all(seq![c, a, b])),
        emerged_all(seq![a, b, c]).dom() == emerged_all(seq![c, a, b]).dom(),
{
    lemma_sums_of_emerged_all(seq![a, b, c]);
    lemma_sums_of_emerged_all(seq![c, a, b]);
    let f = |m: Map<Seq<char>, (Seq<char>, int)>| entity_sums(m);
    assert(seq![a, b, c].map_values(f) =~= seq![entity_sums(a), entity_sums(b), entity_sums(c)]);
    assert(seq![c, a, b].map_values(f) =~= seq![entity_sums(c), entity_sums(a), entity_sums(b)]);
    lemma_merge_rotation(entity_sums(a), entity_sums(b), entity_sums(c));
    assert(emerged_all(seq![a, b, c]).dom() =~= entity_sums(emerged_all(seq![a, b, c])).dom());
    assert(emerged_all(seq![c, a, b]).dom() =~= entity_sums(emerged_all(seq![c, a, b])).dom());
}

/// Mapping a function over two lists holding the same elements yields
/// lists holding the same images.
proof fn lemma_map_values_to_multiset(
    a: Seq<Map<Seq<char>, (Seq<char>, int)>>,
    b: Seq<Map<Seq<char>, (Seq<char>, int)>>,
    f: spec_fn(Map<Seq<char>, (Seq<char>, int)>) -> Map<Seq<char>, int>,
)
    requires
        a.to_multiset() == b.to_multiset(),
    ensures
        a.map_values(f).to_multiset() == b.map_values(f).to_multiset(),
    decreases a.len(),
{
    broadcast use vstd::multiset::group_multiset_axioms;

    a.to_multiset_ensures();
    b.to_multiset_ensures();
    a.map_values(f).to_multiset_ensures();
    b.map_values(f).to_multiset_ensures();
    if a.len() == 0 {
        assert(b.len() == 0);
        assert(a.map_values(f) =~= Seq::<Map<Seq<char>, int>>::empty());
        assert(b.map_values(f) =~= Seq::<Map<Seq<char>, int>>::empty());
    } else {
        let x = a.last();
        assert(a[a.len() - 1] == x);
        assert(a.contains(x));
        assert(a.to_multiset().count(x) > 0);
        assert(b.to_multiset().count(x) > 0);
        assert(b.contains(x));
        let i = choose|i: int| 0 <= i < b.len() && b[i] == x;
        assert(a.remove(a.len() - 1) =~= a.drop_last());
        assert(a.drop_last().to_multiset() == b.remove(i).to_multiset()) by {
            assert(a.remove(a.len() - 1).to_multiset() =~= a.to_multiset().remove(x));
            assert(b.remove(i).to_multiset() =~= b.to_multiset().remove(x));
        }
        lemma_map_values_to_multiset(a.drop_last(), b.remove(i), f);
        let ma = a.map_values(f).to_multiset();
        let mb = b.map_values(f).to_multiset();
        assert(a.map_values(f).remove(a.len() - 1) =~= a.drop_last().map_values(f));
        assert(b.map_values(f).remove(i) =~= b.remove(i).map_values(f));
        assert(a.map_values(f)[a.len() - 1] == f(x));
        assert(b.map_values(f)[i] == f(x));
        assert(a.map_values(f).remove(a.len() - 1).to_multiset() =~= ma.remove(f(x)));
        assert(b.map_values(f).remove(i).to_multiset() =~= mb.remove(f(x)));
        assert(a.map_values(f).contains(f(x)));
        assert(ma.count(f(x)) > 0);
        assert(b.map_values(f).contains(f(x)));
        assert(mb.count(f(x)) > 0);
        assert(ma.remove(f(x)) == a.map_values(f).remove(a.len() - 1).to_multiset());
        assert(a.map_values(f).remove(a.len() - 1).to_multiset() == a.drop_last().map_values(
            f,
        ).to_multiset());
        assert(a.drop_last().map_values(f).to_multiset() == b.remove(i).map_values(
            f,
        ).to_multiset());
        assert(b.remove(i).map_values(f).to_multiset() == mb.remove(f(x)));
        assert(ma.remove(f(x)) == mb.remove(f(x)));
        assert forall|e: Map<Seq<char>, int>| #[trigger] ma.count(e) == mb.count(e) by {
            if e == f(x) {
                assert(ma.count(f(x)) == ma.remove(f(x)).count(f(x)) + 1);
                assert(mb.count(f(x)) == mb.remove(f(x)).count(f(x)) + 1);
            } else {
                assert(ma.remove(f(x)).count(e) == ma.count(e));
                assert(mb.remove(f(x)).count(e) == mb.count(e));
            }
        }
        assert(ma =~= mb);
    }
}

/// The entity merge is order-independent in full generality, labels
/// excepted: two lists holding the same tables, in any order, merge to the
/// same keys and the same sums.
pub proof fn lemma_emerged_all_permutation(
    a: Seq<Map<Seq<char>, (Seq<char>, int)>>,
    b: Seq<Map<Seq<char>, (Seq<char>, int)>>,
)
    requires
        a.to_multiset() == b.to_multiset(),
    ensures
        entity_sums(emerged_all(a)) == entity_sums(emerged_all(b)),
        emerged_all(a).dom() == emerged_all(b).dom(),
{
    lemma_sums_of_emerged_all(a);
    lemma_sums_of_emerged_all(b);
    let f = |m: Map<Seq<char>, (Seq<char>, int)>| entity_sums(m);
    lemma_map_values_to_multiset(a, b, f);
    crate::table::lemma_merged_all_permutation(a.map_values(f), b.map_values(f));
    assert(emerged_all(a).dom() =~= entity_sums(emerged_all(a)).dom());
    assert(emerged_all(b).dom() =~= entity_sums(emerged_all(b)).dom());
}

/// The label a merged table holds under a key was observed for that key in
/// one of the merged tables.
pub proof fn lemma_emerged_all_label_observed(
    ms: Seq<Map<Seq<char>, (Seq<char>, int)>>,
    k: Seq<char>,
)
    requires
        emerged_all(ms).contains_key(k),
    ensures
        exists|i: int|
            0 <= i < ms.len() && (#[trigger] ms[i]).contains_key(k) && ms[i][k].0
                == emerged_all(ms)[k].0,
    decreases ms.len(),
{
    let pre = ms.drop_last();
    if emerged_all(pre).contains_key(k) {
        lemma_emerged_all_label_observed(pre, k);
        let i = choose|i: int|
            0 <= i < pre.len() && (#[trigger] pre[i]).contains_key(k) && pre[i][k].0
                == emerged_all(pre)[k].0;
        assert(ms[i].contains_key(k) && ms[i][k].0 == emerged_all(ms)[k].0);
    } else {
        assert(ms.last().contains_key(k));
        assert(ms[ms.len() - 1].contains_key(k) && ms[ms.len() - 1][k].0
            == emerged_all(ms)[k].0);
    }
}

pub open spec fn etable_views(ts: Seq<EntityTable>) -> Seq<Map<Seq<char>, (Seq<char>, int)>> {
    ts.map_values(|t: EntityTable| t@)
}

pub open spec fn ecounts_total(ts: Seq<EntityTable>) -> int
    decreases ts.len(),
{
    if ts.len() == 0 {
        0
    } else {
        ecounts_total(ts.drop_last()) + ts.last().spec_count()
    }
}

proof fn lemma_ecounts_total_prefix(ts: Seq<EntityTable>, i: int)
    requires
        0 <= i <= ts.len(),
    ensures
        ecounts_total(ts.take(i)) <= ecounts_total(ts),
        ecounts_total(ts.take(i)) >= 0,
    decreases ts.len() - i,
{
    if i == ts.len() {
        assert(ts.take(i) =~= ts);
        lemma_ecounts_total_nonneg(ts);
    } else {
        lemma_ecounts_total_prefix(ts, i + 1);
        lemma_ecounts_total_nonneg(ts.take(i));
        assert(ts.take(i + 1).drop_last() =~= ts.take(i));
        assert(ts.take(i + 1).last() == ts[i]);
        assert(ecounts_total(ts.take(i + 1)) == ecounts_total(ts.take(i))
            + ts[i].spec_count());
    }
}

proof fn lemma_ecounts_total_nonneg(ts: Seq<EntityTable>)
    ensures
        ecounts_total(ts) >= 0,
    decreases ts.len(),
{
    if ts.len() > 0 {
        lemma_ecounts_total_nonneg(ts.drop_last());
    }
}

/// The Reducer for entity tables: merges the per-worker tables into one,
/// key-wise. Fails exactly when the total record count would not fit a
/// `u64`.
#[verifier::loop_isolation(false)]
pub fn emerge_tables(ts: &Vec<EntityTable>) -> (r: Option<EntityTable>)
    requires
        forall|i: int| 0 <= i < ts@.len() ==> (#[trigger] ts@[i]).wf(),
    ensures
        match r {
            Some(g) => g.wf() && g@ == emerged_all(etable_views(ts@)) && g.spec_count()
                == ecounts_total(ts@) && ecounts_total(ts@) <= u64::MAX,
            None => ecounts_total(ts@) > u64::MAX,
        },
{
    let mut g = EntityTable::new();
    let n: usize = ts.len();
    let mut i: usize = 0;
    proof {
        assert(etable_views(ts@.take(0)) =~= Seq::<Map<Seq<char>, (Seq<char>, int)>>::empty());
    }
    while i < n
        invariant
            0 <= i <= n,
            g.wf(),
            g@ == emerged_all(etable_views(ts@.take(i as int))),
            g.spec_count() == ecounts_total(ts@.take(i as int)),
        decreases n - i,
    {
        let c: u64 = ts[i].count();
        proof {
            assert(ts@.take(i as int + 1).drop_last() =~= ts@.take(i as int));
            assert(ts@.take(i as int + 1).last() == ts@[i as int]);
            assert(ecounts_total(ts@.take(i as int + 1)) == ecounts_total(ts@.take(i as int))
                + ts@[i as int].spec_count());
        }
        if g.count() > u64::MAX - c {
            proof {
                lemma_ecounts_total_prefix(ts@, i as int + 1);
            }
            return None;
        }
        g.merge_from(&ts[i]);
        proof {
            assert(etable_views(ts@.take(i as int + 1)).drop_last() =~= etable_views(
                ts@.take(i as int),
            ));
            assert(etable_views(ts@.take(i as int + 1)).last() == ts@[i as int]@);
        }
        i += 1;
    }
    proof {
        assert(ts@.take(n as int) =~= ts@);
    }
    Some(g)
}

} // verus!
