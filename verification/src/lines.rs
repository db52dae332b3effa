//! Mathematical model of a newline-delimited byte file and of the shard
//! ownership rule.
//!
//! A record (line) starts at byte 0 or right after a separator byte `\n`,
//! and runs to the next separator or to the end of the file. A shard
//! `[s, e)` owns exactly the lines whose first byte lies in `[s, e)`; the
//! central lemma [`lemma_shard_lines_split`] shows that splitting a range
//! anywhere splits its line sequence, so for any partition of the file each
//! line is owned by exactly one shard.

use vstd::prelude::*;

verus! {

/// Position of the first separator at or after `p`, or `data.len()` if there
/// is none.
pub open spec fn next_sep(data: Seq<u8>, p: int) -> int
    recommends
        0 <= p,
    decreases data.len() - p when 0 <= p
{
    if p >= data.len() {
        data.len() as int
    } else if data[p] == 10 {
        p
    } else {
        next_sep(data, p + 1)
    }
}

pub proof fn lemma_next_sep_bounds(data: Seq<u8>, p: int)
    requires
        0 <= p,
    ensures
        p <= data.len() ==> p <= next_sep(data, p),
        next_sep(data, p) <= data.len(),
        next_sep(data, p) < data.len() ==> data[next_sep(data, p)] == 10,
        forall|q: int| p <= q < next_sep(data, p) ==> data[q] != 10,
    decreases data.len() - p,
{
    if p >= data.len() {
    } else if data[p] == 10 {
    } else {
        lemma_next_sep_bounds(data, p + 1);
    }
}

/// Scanning for a separator from anywhere inside a separator-free stretch
/// finds the same separator.
pub proof fn lemma_next_sep_stable(data: Seq<u8>, a: int, b: int)
    requires
        0 <= a <= b,
        b <= next_sep(data, a),
        b <= data.len(),
    ensures
        next_sep(data, b) == next_sep(data, a),
    decreases b - a,
{
    lemma_next_sep_bounds(data, a);
    if a < b {
        lemma_next_sep_stable(data, a + 1, b);
    }
}

/// The first line start at or after `p`, or `data.len()` if no line begins
/// at or after `p`. Position 0 is always a line start; any other line start
/// is the position right after a separator.
pub open spec fn next_line_start(data: Seq<u8>, p: int) -> int
    recommends
        0 <= p <= data.len(),
{
    if p <= 0 {
        0
    } else if next_sep(data, p - 1) == data.len() {
        data.len() as int
    } else {
        next_sep(data, p - 1) + 1
    }
}

pub proof fn lemma_next_line_start_bounds(data: Seq<u8>, p: int)
    requires
        0 <= p <= data.len(),
    ensures
        p <= next_line_start(data, p) <= data.len(),
{
    if p > 0 {
        lemma_next_sep_bounds(data, p - 1);
    }
}

/// Starting the line-start scan from anywhere between `s` and the start it
/// finds yields that same start.
pub proof fn lemma_next_line_start_stable(data: Seq<u8>, s: int, m: int)
    requires
        0 <= s <= m,
        m <= next_line_start(data, s),
        m <= data.len(),
    ensures
        next_line_start(data, m) == next_line_start(data, s),
{
    if m > 0 {
        if s == 0 {
            // next_line_start(data, 0) == 0 and m <= 0: contradiction with m > 0
            assert(m <= 0);
        } else {
            lemma_next_sep_bounds(data, s - 1);
            lemma_next_sep_stable(data, s - 1, m - 1);
        }
    }
}

/// The sequence of lines chopped from `data` starting at position `p`,
/// taking each line whose first byte lies before `hi`. The final taken line
/// may extend past `hi`: a shard finishes the record it started.
pub open spec fn lines_upto(data: Seq<u8>, p: int, hi: int) -> Seq<Seq<u8>>
    recommends
        0 <= p,
    decreases data.len() + 2 - p when 0 <= p via lines_upto_decreases
{
    if p >= hi || p >= data.len() {
        Seq::empty()
    } else {
        seq![data.subrange(p, next_sep(data, p))] + lines_upto(data, next_sep(data, p) + 1, hi)
    }
}

#[via_fn]
proof fn lines_upto_decreases(data: Seq<u8>, p: int, hi: int) {
    if 0 <= p < data.len() && p < hi {
        lemma_next_sep_bounds(data, p);
    }
}

/// The lines owned by the byte range `[s, hi)`: those whose first byte lies
/// in `[s, hi)`. For `s > 0` the scan first realigns to the next line start,
/// so a record cut in half by `s` is left to the range that contains its
/// first byte.
pub open spec fn shard_lines(data: Seq<u8>, s: int, hi: int) -> Seq<Seq<u8>> {
    lines_upto(data, next_line_start(data, s), hi)
}

/// All lines of the file.
pub open spec fn whole_file_lines(data: Seq<u8>) -> Seq<Seq<u8>> {
    shard_lines(data, 0, data.len() as int)
}

/// A byte range owns at most as many lines as the file has bytes: each
/// owned line consumes at least one.
pub proof fn lemma_shard_lines_len(data: Seq<u8>, s: int, hi: int)
    requires
        0 <= s <= data.len(),
    ensures
        shard_lines(data, s, hi).len() <= data.len(),
{
    lemma_next_line_start_bounds(data, s);
    lemma_lines_upto_len(data, next_line_start(data, s), hi);
}

/// After a line is consumed, continuing at the byte past its separator is
/// itself a line-start-aligned scan.
proof fn lemma_lines_after_sep(data: Seq<u8>, p: int, hi: int)
    requires
        0 <= p < data.len(),
    ensures
        shard_lines(data, next_sep(data, p) + 1, hi) == lines_upto(
            data,
            next_sep(data, p) + 1,
            hi,
        ),
{
    let e = next_sep(data, p);
    lemma_next_sep_bounds(data, p);
    if e < data.len() {
        assert(next_sep(data, e) == e);
        assert(next_line_start(data, e + 1) == e + 1);
    } else {
        // e == data.len(): both sides are empty scans past the end
        assert(next_sep(data, e) == data.len());
        assert(next_line_start(data, e + 1) == data.len());
        assert(lines_upto(data, data.len() as int, hi) == Seq::<Seq<u8>>::empty());
        assert(lines_upto(data, e + 1, hi) == Seq::<Seq<u8>>::empty());
    }
}

/// Splitting a byte range splits its owned lines: the lines of `[s, hi)` are
/// exactly the lines of `[s, m)` followed by the lines of `[m, hi)`. Hence
/// no line is ever processed by two shards of a partition, and none is
/// dropped at a shard boundary.
pub proof fn lemma_shard_lines_split(data: Seq<u8>, s: int, m: int, hi: int)
    requires
        0 <= s <= m <= hi,
        m <= data.len(),
    ensures
        shard_lines(data, s, hi) == shard_lines(data, s, m) + shard_lines(data, m, hi),
    decreases m - s,
{
    let p = next_line_start(data, s);
    lemma_next_line_start_bounds(data, s);
    if p >= m {
        // no line starts in [s, m): the left part is empty and the right
        // part realigns to the same first line start
        lemma_next_line_start_stable(data, s, m);
        assert(shard_lines(data, s, m) == Seq::<Seq<u8>>::empty());
        assert(shard_lines(data, s, hi) =~= shard_lines(data, s, m) + shard_lines(data, m, hi));
    } else {
        // p < m <= data.len(), so the range owns the line at p
        let e = next_sep(data, p);
        lemma_next_sep_bounds(data, p);
        let line = seq![data.subrange(p, e)];
        assert(lines_upto(data, p, hi) == line + lines_upto(data, e + 1, hi));
        assert(lines_upto(data, p, m) == line + lines_upto(data, e + 1, m));
        lemma_lines_after_sep(data, p, hi);
        lemma_lines_after_sep(data, p, m);
        if e + 1 > m {
            // the line at p is the last line of [s, m); [m, hi) realigns to e + 1
            assert(lines_upto(data, e + 1, m) == Seq::<Seq<u8>>::empty());
            lemma_next_sep_stable(data, p, m - 1);
            assert(next_line_start(data, m) == if e == data.len() {
                data.len() as int
            } else {
                e + 1
            });
            if e == data.len() {
                assert(lines_upto(data, data.len() as int, hi) == Seq::<Seq<u8>>::empty());
                assert(lines_upto(data, e + 1, hi) == Seq::<Seq<u8>>::empty());
            }
            assert(shard_lines(data, m, hi) == lines_upto(data, e + 1, hi));
            assert(shard_lines(data, s, hi) =~= shard_lines(data, s, m) + shard_lines(
                data,
                m,
                hi,
            ));
        } else {
            lemma_shard_lines_split(data, e + 1, m, hi);
            assert(shard_lines(data, s, hi) =~= shard_lines(data, s, m) + shard_lines(
                data,
                m,
                hi,
            ));
        }
    }
}

/// Each owned line consumes at least one byte of the range, so a range of n
/// bytes owns at most n lines.
pub proof fn lemma_lines_upto_len(data: Seq<u8>, p: int, hi: int)
    requires
        0 <= p,
    ensures
        p <= data.len() ==> lines_upto(data, p, hi).len() <= data.len() - p,
        p > data.len() ==> lines_upto(data, p, hi).len() == 0,
    decreases data.len() + 2 - p,
{
    if p >= hi || p >= data.len() {
    } else {
        lemma_next_sep_bounds(data, p);
        lemma_lines_upto_len(data, next_sep(data, p) + 1, hi);
    }
}

} // verus!
