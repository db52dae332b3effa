//! Fixed-point metric values.
//!
//! Aggregation sums metrics exactly, so a decoded metric is an integer
//! number of micro-units. The decoder hands this module the metric's plain
//! decimal text (an optional minus sign, an integer part, an optional
//! fractional part); [`parse_metric`] turns it into micro-units, truncating
//! toward zero past six fractional digits. Texts of any other shape, or
//! with an integer part beyond nine digits, have no value and the record is
//! dropped from the tables as a record-level error.

use vstd::prelude::*;

verus! {

/// Largest magnitude, in micro-units, of any decoded metric
/// (999,999,999.999999 units).
pub const METRIC_BOUND: i64 = 1_000_000_000_000_000;

/// Largest value of a metric's integer part, in units.
pub const UNIT_BOUND: i64 = 999_999_999;

pub open spec fn is_digit(c: char) -> bool {
    '0' <= c && c <= '9'
}

pub open spec fn digit_val(c: char) -> int {
    c as u32 - '0' as u32
}

pub open spec fn all_digits(s: Seq<char>) -> bool {
    forall|i: int| 0 <= i < s.len() ==> is_digit(#[trigger] s[i])
}

/// Value of a digit string read in base ten.
pub open spec fn digits_val(s: Seq<char>) -> int
    decreases s.len(),
{
    if s.len() == 0 {
        0
    } else {
        digits_val(s.drop_last()) * 10 + digit_val(s.last())
    }
}

pub open spec fn pow10(k: int) -> int
    decreases k,
{
    if k <= 0 {
        1
    } else {
        10 * pow10(k - 1)
    }
}

/// Index of the first `.` in `s` at or after `i`, or `s.len()` if none.
pub open spec fn dot_pos(s: Seq<char>, i: int) -> int
    recommends
        0 <= i,
    decreases s.len() - i when 0 <= i
{
    if i >= s.len() {
        s.len() as int
    } else if s[i] == '.' {
        i
    } else {
        dot_pos(s, i + 1)
    }
}

/// Micro-unit value of the fractional digit string `f`: the first six
/// digits are significant, later ones are truncated away.
pub open spec fn frac_micros(f: Seq<char>) -> int {
    if f.len() >= 6 {
        digits_val(f.take(6))
    } else {
        digits_val(f) * pow10(6 - f.len())
    }
}

/// Micro-unit value of an unsigned decimal text: digits, optionally
/// followed by `.` and at least one more digit.
pub open spec fn unsigned_metric_of(s: Seq<char>) -> Option<int> {
    let d = dot_pos(s, 0);
    let ip = s.take(d);
    if ip.len() == 0 || !all_digits(ip) || digits_val(ip) > UNIT_BOUND {
        None
    } else if d == s.len() {
        Some(digits_val(ip) * 1_000_000)
    } else {
        let fp = s.subrange(d + 1, s.len() as int);
        if fp.len() == 0 || !all_digits(fp) {
            None
        } else {
            Some(digits_val(ip) * 1_000_000 + frac_micros(fp))
        }
    }
}

/// Micro-unit value of a metric text, or `None` if the text is not a plain
/// decimal of bounded magnitude.
pub open spec fn metric_of(s: Seq<char>) -> Option<int> {
    if s.len() > 0 && s[0] == '-' {
        match unsigned_metric_of(s.subrange(1, s.len() as int)) {
            Some(v) => Some(-v),
            None => None,
        }
    } else {
        unsigned_metric_of(s)
    }
}

proof fn lemma_digits_val_bounds(s: Seq<char>)
    requires
        all_digits(s),
    ensures
        0 <= digits_val(s) < pow10(s.len() as int),
    decreases s.len(),
{
    if s.len() > 0 {
        assert(all_digits(s.drop_last())) by {
            assert(forall|i: int|
                0 <= i < s.len() - 1 ==> #[trigger] s.drop_last()[i] == s[i]);
        }
        lemma_digits_val_bounds(s.drop_last());
        assert(digits_val(s.drop_last()) * 10 + digit_val(s.last()) < pow10(s.len() as int))
            by (nonlinear_arith)
            requires
                0 <= digits_val(s.drop_last()) < pow10(s.len() - 1),
                0 <= digit_val(s.last()) <= 9,
                pow10(s.len() as int) == 10 * pow10(s.len() - 1),
        ;
    }
}

proof fn lemma_digits_val_prefix_monotone(s: Seq<char>, i: int, j: int)
    requires
        all_digits(s),
        0 <= i <= j <= s.len(),
    ensures
        0 <= digits_val(s.take(i)) <= digits_val(s.take(j)),
    decreases j - i,
{
    lemma_digits_val_bounds(s.take(i));
    assert(all_digits(s.take(i)));
    if i < j {
        lemma_digits_val_prefix_monotone(s, i + 1, j);
        assert(s.take(i + 1).drop_last() =~= s.take(i));
        lemma_digits_val_bounds(s.take(i));
        assert(digits_val(s.take(i + 1)) == digits_val(s.take(i)) * 10 + digit_val(s[i]));
        assert(digits_val(s.take(i)) * 10 >= digits_val(s.take(i))) by (nonlinear_arith)
            requires digits_val(s.take(i)) >= 0,
        ;
    }
}

proof fn lemma_pow10_adds(a: int, b: int)
    requires
        0 <= a,
        0 <= b,
    ensures
        pow10(a + b) == pow10(a) * pow10(b),
        pow10(a) >= 1,
        pow10(b) >= 1,
    decreases a,
{
    if a == 0 {
        lemma_pow10_pos(b);
    } else {
        lemma_pow10_adds(a - 1, b);
        assert(10 * pow10(a - 1 + b) == (10 * pow10(a - 1)) * pow10(b)) by (nonlinear_arith)
            requires pow10(a - 1 + b) == pow10(a - 1) * pow10(b),
        ;
    }
}

proof fn lemma_pow10_pos(k: int)
    ensures
        pow10(k) >= 1,
    decreases (if k <= 0 { 0int } else { k }),
{
    if k > 0 {
        lemma_pow10_pos(k - 1);
    }
}

/// A defined metric value is bounded by [`METRIC_BOUND`] in magnitude.
pub proof fn lemma_metric_of_bound(s: Seq<char>)
    ensures
        metric_of(s) matches Some(v) ==> -METRIC_BOUND <= v <= METRIC_BOUND,
{
    lemma_unsigned_metric_bound(s);
    if s.len() > 0 && s[0] == '-' {
        lemma_unsigned_metric_bound(s.subrange(1, s.len() as int));
    }
}

proof fn lemma_unsigned_metric_bound(s: Seq<char>)
    ensures
        unsigned_metric_of(s) matches Some(v) ==> 0 <= v <= METRIC_BOUND,
{
    let d = dot_pos(s, 0);
    let ip = s.take(d);
    if unsigned_metric_of(s) is Some {
        lemma_digits_val_bounds(ip);
        assert(digits_val(ip) * 1_000_000 <= UNIT_BOUND * 1_000_000) by (nonlinear_arith)
            requires 0 <= digits_val(ip) <= UNIT_BOUND,
        ;
        if d != s.len() {
            let fp = s.subrange(d + 1, s.len() as int);
            lemma_frac_micros_bound(fp);
        }
    }
}

proof fn lemma_frac_micros_bound(f: Seq<char>)
    requires
        all_digits(f),
    ensures
        0 <= frac_micros(f) <= 999_999,
{
    if f.len() >= 6 {
        assert(all_digits(f.take(6)));
        lemma_digits_val_bounds(f.take(6));
        assert(pow10(6) == 1_000_000) by { reveal_with_fuel(pow10, 7); }
    } else {
        let k = 6 - f.len();
        lemma_digits_val_bounds(f);
        lemma_pow10_adds(f.len() as int, k);
        assert(pow10(6) == 1_000_000) by { reveal_with_fuel(pow10, 7); }
        assert(digits_val(f) * pow10(k) <= (pow10(f.len() as int) - 1) * pow10(k))
            by (nonlinear_arith)
            requires
                0 <= digits_val(f) <= pow10(f.len() as int) - 1,
                pow10(k) >= 1,
        ;
        assert((pow10(f.len() as int) - 1) * pow10(k) == pow10(6) - pow10(k))
            by (nonlinear_arith)
            requires pow10(f.len() as int) * pow10(k) == pow10(6),
        ;
        lemma_pow10_pos(k);
        assert(digits_val(f) * pow10(k) >= 0) by (nonlinear_arith)
            requires digits_val(f) >= 0, pow10(k) >= 1,
        ;
    }
}

proof fn lemma_dot_pos_bounds(s: Seq<char>, i: int)
    requires
        0 <= i <= s.len(),
    ensures
        i <= dot_pos(s, i) <= s.len(),
        dot_pos(s, i) < s.len() ==> s[dot_pos(s, i)] == '.',
        forall|q: int| i <= q < dot_pos(s, i) ==> s[q] != '.',
    decreases s.len() - i,
{
    if i < s.len() && s[i] != '.' {
        lemma_dot_pos_bounds(s, i + 1);
    }
}

proof fn lemma_non_ascii_metric_none(cs: Seq<char>)
    requires
        !vstd::utf8::is_ascii_chars(cs),
    ensures
        metric_of(cs) is None,
{
    let i = choose|i: int|
        0 <= i < cs.len() && !('\0' <= #[trigger] cs[i] <= '\u{7f}');
    let c = cs[i];
    let start: int = if cs.len() > 0 && cs[0] == '-' {
        1
    } else {
        0
    };
    // the offending character is not the sign: '-' is ASCII
    assert(i >= start);
    let u = cs.subrange(start, cs.len() as int);
    if start == 0 {
        assert(u =~= cs);
    }
    let k = i - start;
    assert(u[k] == c);
    let d = dot_pos(u, 0);
    lemma_dot_pos_bounds(u, 0);
    if k < d {
        assert(u.take(d)[k] == c);
        assert(!is_digit(c));
        assert(!all_digits(u.take(d)));
    } else if k == d {
        // would make the offending character the dot, but '.' is ASCII
        assert(c != '.');
        assert(false);
    } else {
        if unsigned_metric_of(u) is Some {
            let fp = u.subrange(d + 1, u.len() as int);
            assert(fp[k - d - 1] == c);
            assert(!is_digit(c));
            assert(!all_digits(fp));
            assert(false);
        }
    }
}

proof fn lemma_pow10_monotone(a: int, b: int)
    requires
        a <= b,
    ensures
        pow10(a) <= pow10(b),
    decreases (if b <= 0 { 0int } else { b }),
{
    lemma_pow10_pos(a);
    if a < b && b > 0 {
        lemma_pow10_monotone(a, b - 1);
    }
}

/// Reads the digit run `b[lo..hi]` (ghost-mirrored by `ds`) as a value in
/// units, bounded by [`UNIT_BOUND`].
#[verifier::loop_isolation(false)]
fn parse_units(b: &[u8], lo: usize, hi: usize, Ghost(ds): Ghost<Seq<char>>) -> (r: Option<i64>)
    requires
        lo <= hi <= b@.len(),
        ds.len() == hi - lo,
        forall|q: int|
            0 <= q < ds.len() ==> '\0' <= #[trigger] ds[q] <= '\u{7f}' && b@[lo + q] == ds[q] as u8,
    ensures
        match r {
            Some(v) => all_digits(ds) && v == digits_val(ds) && 0 <= v <= UNIT_BOUND,
            None => !all_digits(ds) || digits_val(ds) > UNIT_BOUND,
        },
{
    let mut val: i64 = 0;
    let mut i: usize = lo;
    while i < hi
        invariant
            lo <= i <= hi,
            all_digits(ds.take(i - lo)),
            val == digits_val(ds.take(i - lo)),
            0 <= val <= UNIT_BOUND,
        decreases hi - i,
    {
        let c: u8 = *vstd::slice::slice_index_get(b, i);
        if c < 48 || c > 57 {
            proof {
                assert(!is_digit(ds[i - lo]));
            }
            return None;
        }
        proof {
            assert(is_digit(ds[i - lo]));
            assert(ds.take(i - lo + 1).drop_last() =~= ds.take(i - lo));
        }
        let nv: i64 = val * 10 + (c - 48) as i64;
        if nv > UNIT_BOUND {
            proof {
                if all_digits(ds) {
                    lemma_digits_val_prefix_monotone(ds, i - lo + 1, ds.len() as int);
                    assert(ds.take(ds.len() as int) =~= ds);
                }
            }
            return None;
        }
        val = nv;
        i += 1;
    }
    proof {
        assert(ds.take(hi - lo) =~= ds);
    }
    Some(val)
}

/// Reads the fractional digit run `b[lo..hi]` (ghost-mirrored by `fs`) as
/// micro-units, truncating past six digits.
#[verifier::loop_isolation(false)]
fn parse_frac_micros(b: &[u8], lo: usize, hi: usize, Ghost(fs): Ghost<Seq<char>>) -> (r: Option<
    i64,
>)
    requires
        lo <= hi <= b@.len(),
        fs.len() == hi - lo,
        forall|q: int|
            0 <= q < fs.len() ==> '\0' <= #[trigger] fs[q] <= '\u{7f}' && b@[lo + q] == fs[q] as u8,
    ensures
        match r {
            Some(v) => all_digits(fs) && v == frac_micros(fs) && 0 <= v <= 999_999,
            None => !all_digits(fs),
        },
{
    let mut fval: i64 = 0;
    let mut cnt: usize = 0;
    let mut j: usize = lo;
    while j < hi
        invariant
            lo <= j <= hi,
            all_digits(fs.take(j - lo)),
            cnt == (if j - lo <= 6 {
                j - lo
            } else {
                6
            }),
            fval == digits_val(fs.take(cnt as int)),
            0 <= fval < pow10(cnt as int),
            fval <= 999_999,
        decreases hi - j,
    {
        let c: u8 = *vstd::slice::slice_index_get(b, j);
        if c < 48 || c > 57 {
            proof {
                assert(!is_digit(fs[j - lo]));
            }
            return None;
        }
        proof {
            assert(is_digit(fs[j - lo]));
            assert(fs.take(j - lo + 1).drop_last() =~= fs.take(j - lo));
        }
        if cnt < 6 {
            proof {
                assert(pow10(cnt as int) <= 100_000) by {
                    lemma_pow10_monotone(cnt as int, 5);
                    reveal_with_fuel(pow10, 7);
                }
                reveal_with_fuel(pow10, 7);
            }
            fval = fval * 10 + (c - 48) as i64;
            cnt += 1;
        } else {
            proof {
                assert(fs.take(cnt as int) =~= fs.take(j - lo + 1).take(cnt as int));
            }
        }
        j += 1;
    }
    proof {
        assert(fs.take(hi - lo) =~= fs);
        assert(all_digits(fs));
        lemma_frac_micros_bound(fs);
    }
    // scale up to six fractional digits
    let mut scale: i64 = 1;
    let mut k: usize = 0;
    while k < 6 - cnt
        invariant
            0 <= k <= 6 - cnt,
            cnt <= 6,
            scale == pow10(k as int),
            1 <= scale <= 1_000_000,
        decreases 6 - cnt - k,
    {
        proof {
            lemma_pow10_monotone(k as int + 1, 6);
            reveal_with_fuel(pow10, 7);
        }
        scale = scale * 10;
        k += 1;
    }
    proof {
        lemma_pow10_adds(cnt as int, (6 - cnt) as int);
        assert(fval * scale < pow10(6)) by (nonlinear_arith)
            requires
                0 <= fval < pow10(cnt as int),
                scale == pow10((6 - cnt) as int),
                1 <= scale,
                pow10(cnt as int) * pow10((6 - cnt) as int) == pow10(6),
        ;
        assert(pow10(6) == 1_000_000) by { reveal_with_fuel(pow10, 7); }
        assert(fval * scale >= 0) by (nonlinear_arith)
            requires 0 <= fval, 1 <= scale,
        ;
        if fs.len() >= 6 {
            assert(cnt == 6 && scale == 1);
        } else {
            assert(cnt == fs.len());
            assert(fs.take(cnt as int) =~= fs);
        }
    }
    Some(fval * scale)
}

/// Parses a metric text into micro-units, exactly as [`metric_of`]
/// prescribes: `Some` for a plain decimal of bounded magnitude, `None` for
/// anything else.
#[verifier::loop_isolation(false)]
#[verifier::rlimit(100)]
pub fn parse_metric(s: &str) -> (r: Option<i64>)
    ensures
        match r {
            Some(v) => metric_of(s@) == Some(v as int) && -METRIC_BOUND <= v <= METRIC_BOUND,
            None => metric_of(s@) is None,
        },
{
    broadcast use vstd::string::is_ascii_spec_bytes;

    if !s.is_ascii() {
        proof {
            lemma_non_ascii_metric_none(s@);
        }
        return None;
    }
    let b: &[u8] = s.as_bytes();
    let n: usize = b.len();
    let ghost cs = s@;
    proof {
        assert(b@.len() == cs.len());
        assert(forall|q: int| 0 <= q < cs.len() ==> b@[q] == #[trigger] cs[q] as u8);
    }
    let (neg, start): (bool, usize) = if n > 0 && *vstd::slice::slice_index_get(b, 0) == 45u8 {
        (true, 1)
    } else {
        (false, 0)
    };
    proof {
        assert(neg <==> (cs.len() > 0 && cs[0] == '-'));
    }
    let ghost u = cs.subrange(start as int, cs.len() as int);
    proof {
        assert(forall|q: int| 0 <= q < u.len() ==> #[trigger] u[q] == cs[q + start]);
        lemma_dot_pos_bounds(u, 0);
        if neg {
            assert(u =~= cs.subrange(1, cs.len() as int));
        } else {
            assert(u =~= cs);
        }
        // from here on it suffices to pin unsigned_metric_of(u)
        assert(metric_of(cs) == (if neg {
            match unsigned_metric_of(u) {
                Some(v) => Some(-v),
                None => None,
            }
        } else {
            unsigned_metric_of(u)
        }));
        lemma_metric_of_bound(cs);
    }
    let ghost dp = dot_pos(u, 0);

    // locate the dot, if any
    let mut d: usize = start;
    while d < n && *vstd::slice::slice_index_get(b, d) != 46u8
        invariant
            start <= d <= n,
            forall|q: int| 0 <= q < d - start ==> u[q] != '.',
        decreases n - d,
    {
        d += 1;
    }
    proof {
        if d < n {
            assert(cs[d as int] as u8 == 46);
            assert(cs[d as int] == '.');
            assert(u[d - start] == '.');
            if dp < d - start {
                assert(u[dp] != '.');
                assert(false);
            }
            if dp > d - start {
                assert(false);
            }
        } else {
            if dp < u.len() {
                assert(u[dp] != '.');
                assert(false);
            }
        }
        assert(dp == d - start);
    }
    let ghost ip = u.take(dp);

    if d == start {
        // empty integer part
        return None;
    }
    let val: i64 = match parse_units(b, start, d, Ghost(ip)) {
        Some(v) => v,
        None => {
            return None;
        },
    };
    if d == n {
        // no fractional part
        proof {
            assert(unsigned_metric_of(u) == Some(digits_val(ip) * 1_000_000));
        }
        let total: i64 = val * 1_000_000;
        return Some(
            if neg {
                -total
            } else {
                total
            },
        );
    }
    let ghost fp = u.subrange(dp + 1, u.len() as int);
    proof {
        assert(forall|q: int| 0 <= q < fp.len() ==> #[trigger] fp[q] == u[q + dp + 1]);
    }
    if d + 1 == n {
        // empty fractional part
        return None;
    }
    let micros: i64 = match parse_frac_micros(b, d + 1, n, Ghost(fp)) {
        Some(v) => v,
        None => {
            return None;
        },
    };
    proof {
        assert(unsigned_metric_of(u) == Some(digits_val(ip) * 1_000_000 + frac_micros(fp)));
    }
    let total: i64 = val * 1_000_000 + micros;
    Some(
        if neg {
            -total
        } else {
            total
        },
    )
}

} // verus!
