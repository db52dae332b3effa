//! Bounded top-K selection over a table's entries.
//!
//! A fixed-capacity selector: at most `k` entries are ever held, kept in
//! output order; a candidate beyond capacity evicts the worst kept entry
//! only if it is strictly better. The result holds the `k` best values —
//! greatest first when `largest`, least first otherwise — with ties broken
//! arbitrarily.

use vstd::prelude::*;

use crate::table::keys_unique;

verus! {

/// `a` may stand at or before `b` in the output order.
pub open spec fn keeps(largest: bool, a: int, b: int) -> bool {
    if largest {
        a >= b
    } else {
        a <= b
    }
}

fn keeps_exec(largest: bool, a: i128, b: i128) -> (r: bool)
    ensures
        r == keeps(largest, a as int, b as int),
{
    if largest {
        a >= b
    } else {
        a <= b
    }
}

/// The entry at `p` of `r` is one of the `entries`, key and value.
pub open spec fn drawn_from(
    r: Seq<(String, i128)>,
    entries: Seq<(String, i128)>,
    p: int,
    bound: int,
) -> bool {
    exists|j: int|
        0 <= j < bound && (#[trigger] entries[j]).0@ == r[p].0@ && entries[j].1 == r[p].1
}

/// Some kept entry has the key of the entry at `j`.
pub open spec fn key_kept(r: Seq<(String, i128)>, entries: Seq<(String, i128)>, j: int) -> bool {
    exists|p: int| 0 <= p < r.len() && (#[trigger] r[p]).0@ == entries[j].0@
}

/// Selects the `k` best entries by value.
///
/// The result is sorted for the direction, `min(k, n)` long, drawn from
/// the entries with its keys distinct, and complete: every entry whose key
/// was left out has a value no better than every value kept.
#[verifier::loop_isolation(false)]
#[verifier::rlimit(100)]
pub fn top_k(entries: &Vec<(String, i128)>, k: usize, largest: bool) -> (r: Vec<(String, i128)>)
    requires
        keys_unique(entries@),
    ensures
        r@.len() == (if k as int <= entries@.len() {
            k as int
        } else {
            entries@.len() as int
        }),
        forall|p: int, q: int|
            0 <= p < q < r@.len() ==> keeps(
                largest,
                (#[trigger] r@[p]).1 as int,
                (#[trigger] r@[q]).1 as int,
            ),
        forall|p: int| 0 <= p < r@.len() ==> drawn_from(r@, entries@, p, entries@.len() as int),
        forall|p: int, q: int|
            0 <= p < q < r@.len() ==> (#[trigger] r@[p]).0@ != (#[trigger] r@[q]).0@,
        forall|j: int|
            0 <= j < entries@.len() && !key_kept(r@, entries@, j) ==> forall|p: int|
                0 <= p < r@.len() ==> keeps(
                    largest,
                    (#[trigger] r@[p]).1 as int,
                    entries@[j].1 as int,
                ),
        entries@.len() <= k as int ==> forall|j: int|
            0 <= j < entries@.len() ==> key_kept(r@, entries@, j),
{
    let mut r: Vec<(String, i128)> = Vec::new();
    let n: usize = entries.len();
    let mut i: usize = 0;
    while i < n
        invariant
            0 <= i <= n,
            r@.len() == (if k as int <= i as int {
                k as int
            } else {
                i as int
            }),
            forall|p: int, q: int|
                0 <= p < q < r@.len() ==> keeps(
                    largest,
                    (#[trigger] r@[p]).1 as int,
                    (#[trigger] r@[q]).1 as int,
                ),
            forall|p: int| 0 <= p < r@.len() ==> drawn_from(r@, entries@, p, i as int),
            forall|p: int, q: int|
                0 <= p < q < r@.len() ==> (#[trigger] r@[p]).0@ != (#[trigger] r@[q]).0@,
            i as int <= k as int ==> forall|j: int| 0 <= j < i ==> key_kept(r@, entries@, j),
            forall|j: int|
                0 <= j < i && !key_kept(r@, entries@, j) ==> forall|p: int|
                    0 <= p < r@.len() ==> keeps(
                        largest,
                        (#[trigger] r@[p]).1 as int,
                        entries@[j].1 as int,
                    ),
        decreases n - i,
    {
        let e_key: String = entries[i].0.clone();
        let e_val: i128 = entries[i].1;
        let ghost old_r = r@;
        let mut pos: usize = 0;
        while pos < r.len() && keeps_exec(largest, r[pos].1, e_val)
            invariant
                0 <= pos <= r@.len(),
                r@ == old_r,
                forall|q: int|
                    0 <= q < pos ==> keeps(largest, (#[trigger] r@[q]).1 as int, e_val as int),
            decreases r@.len() - pos,
        {
            pos += 1;
        }
        proof {
            // everything at or after the insertion point is no better
            assert forall|q: int| pos <= q < old_r.len() implies keeps(
                largest,
                e_val as int,
                (#[trigger] old_r[q]).1 as int,
            ) by {
                if q > pos {
                    assert(keeps(largest, old_r[pos as int].1 as int, old_r[q].1 as int));
                }
            }
        }
        r.insert(pos, (e_key, e_val));
        let ghost mid = r@;
        proof {
            assert(mid[pos as int].1 == e_val && mid[pos as int].0@ == entries@[i as int].0@);
            assert(forall|q: int| 0 <= q < pos ==> mid[q] == old_r[q]);
            assert(forall|q: int| pos < q < mid.len() ==> mid[q] == old_r[q - 1]);
            // the inserted list is sorted
            assert forall|p: int, q: int| 0 <= p < q < mid.len() implies keeps(
                largest,
                (#[trigger] mid[p]).1 as int,
                (#[trigger] mid[q]).1 as int,
            ) by {
                if q == pos {
                    assert(keeps(largest, old_r[p].1 as int, e_val as int));
                } else if p == pos {
                    assert(keeps(largest, e_val as int, old_r[q - 1].1 as int));
                }
            }
            // every held entry is drawn from the processed prefix
            assert forall|p: int| 0 <= p < mid.len() implies #[trigger] drawn_from(
                mid,
                entries@,
                p,
                i as int + 1,
            ) by {
                if p == pos {
                    assert((#[trigger] entries@[i as int]).0@ == mid[p].0@
                        && entries@[i as int].1 == mid[p].1);
                } else {
                    let p0: int = if p < pos {
                        p
                    } else {
                        p - 1
                    };
                    assert(drawn_from(old_r, entries@, p0, i as int));
                    let j = choose|j: int|
                        0 <= j < i && (#[trigger] entries@[j]).0@ == old_r[p0].0@
                            && entries@[j].1 == old_r[p0].1;
                    assert((entries@[j]).0@ == mid[p].0@ && entries@[j].1 == mid[p].1);
                }
            }
            // keys stay pairwise distinct
            assert forall|p: int, q: int| 0 <= p < q < mid.len() implies (#[trigger] mid[p]).0@
                != (#[trigger] mid[q]).0@ by {
                if p == pos || q == pos {
                    let o: int = if p == pos {
                        q
                    } else {
                        p
                    };
                    let o0: int = if o < pos {
                        o
                    } else {
                        o - 1
                    };
                    assert(drawn_from(old_r, entries@, o0, i as int));
                    let j = choose|j: int|
                        0 <= j < i && (#[trigger] entries@[j]).0@ == old_r[o0].0@
                            && entries@[j].1 == old_r[o0].1;
                    assert(entries@[j].0@ != entries@[i as int].0@);
                }
            }
        }
        if r.len() > k {
            // capacity exceeded: the old list was full, evict the worst
            let ghost w = mid[k as int];
            r.truncate(k);
            proof {
                assert(r@ =~= mid.take(k as int));
                assert(forall|p: int| 0 <= p < r@.len() ==> r@[p] == mid[p]);
                assert(old_r.len() == k);
                assert forall|p: int| 0 <= p < r@.len() implies #[trigger] drawn_from(
                    r@,
                    entries@,
                    p,
                    i as int + 1,
                ) by {
                    assert(drawn_from(mid, entries@, p, i as int + 1));
                    let j = choose|j: int|
                        0 <= j < i + 1 && (#[trigger] entries@[j]).0@ == mid[p].0@
                            && entries@[j].1 == mid[p].1;
                    assert((entries@[j]).0@ == r@[p].0@ && entries@[j].1 == r@[p].1);
                }
                // completeness: a key absent from the kept list lost to
                // every kept value
                assert forall|j: int|
                    0 <= j < i + 1 && !key_kept(r@, entries@, j) implies forall|p: int|
                    0 <= p < r@.len() ==> keeps(
                        largest,
                        (#[trigger] r@[p]).1 as int,
                        entries@[j].1 as int,
                    ) by {
                    if key_kept(mid, entries@, j) {
                        // its key sits in mid only at the evicted slot k
                        let pm = choose|pm: int|
                            0 <= pm < mid.len() && (#[trigger] mid[pm]).0@ == entries@[j].0@;
                        if pm < k as int {
                            assert(r@[pm].0@ == entries@[j].0@);
                            assert(key_kept(r@, entries@, j));
                            assert(false);
                        }
                        assert(mid[pm] == w && pm == k as int);
                        // w's value is the value of entry j itself
                        assert(drawn_from(mid, entries@, pm, i as int + 1));
                        let jw = choose|jw: int|
                            0 <= jw < i + 1 && (#[trigger] entries@[jw]).0@ == mid[pm].0@
                                && entries@[jw].1 == mid[pm].1;
                        assert(jw == j);
                        assert(w.1 == entries@[j].1);
                        assert forall|p: int| 0 <= p < r@.len() implies keeps(
                            largest,
                            (#[trigger] r@[p]).1 as int,
                            entries@[j].1 as int,
                        ) by {
                            assert(keeps(largest, mid[p].1 as int, mid[k as int].1 as int));
                        }
                    } else {
                        // the key was already absent before this step
                        assert(j < i) by {
                            if j == i {
                                assert(mid[pos as int].0@ == entries@[i as int].0@);
                                assert(key_kept(mid, entries@, j));
                            }
                        }
                        assert(!key_kept(old_r, entries@, j)) by {
                            if key_kept(old_r, entries@, j) {
                                let po = choose|po: int|
                                    0 <= po < old_r.len() && (#[trigger] old_r[po]).0@
                                        == entries@[j].0@;
                                if po < pos {
                                    assert(mid[po].0@ == entries@[j].0@);
                                    assert(key_kept(mid, entries@, j));
                                } else {
                                    assert(mid[po + 1].0@ == entries@[j].0@);
                                    assert(key_kept(mid, entries@, j));
                                }
                                assert(false);
                            }
                        }
                        assert forall|p: int| 0 <= p < r@.len() implies keeps(
                            largest,
                            (#[trigger] r@[p]).1 as int,
                            entries@[j].1 as int,
                        ) by {
                            if p == pos as int && pos < k {
                                // the new entry beat what it displaced
                                assert(keeps(largest, e_val as int, old_r[pos as int].1 as int));
                                assert(keeps(
                                    largest,
                                    old_r[pos as int].1 as int,
                                    entries@[j].1 as int,
                                ));
                            } else {
                                let p0: int = if p < pos {
                                    p
                                } else {
                                    p - 1
                                };
                                assert(r@[p] == old_r[p0]);
                                assert(keeps(largest, old_r[p0].1 as int, entries@[j].1 as int));
                            }
                        }
                    }
                }
            }
        } else {
            proof {
                // no eviction: every processed key is still kept
                assert(old_r.len() < k);
                assert(i < k);
                assert forall|j: int| 0 <= j < i + 1 implies #[trigger] key_kept(r@, entries@, j) by {
                    if j == i {
                        assert(r@[pos as int].0@ == entries@[i as int].0@);
                    } else {
                        assert(key_kept(old_r, entries@, j));
                        let po = choose|po: int|
                            0 <= po < old_r.len() && (#[trigger] old_r[po]).0@
                                == entries@[j].0@;
                        if po < pos {
                            assert(r@[po].0@ == entries@[j].0@);
                        } else {
                            assert(r@[po + 1].0@ == entries@[j].0@);
                        }
                    }
                }
            }
        }
        i += 1;
    }
    r
}

} // verus!
