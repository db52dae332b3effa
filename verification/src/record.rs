//! The record decoder: from one raw line to its contribution to the two
//! tables.
//!
//! A line is decoded as UTF-8 text and trimmed of surrounding whitespace;
//! a non-empty trimmed line counts as one processed record. The text is
//! then read as one JSON value with the fields `time` (an RFC 3339
//! timestamp), `id` and `name` (strings) and `metric` (a decimal number).
//! The two tables are fed independently: a record with a parseable `time`
//! and a valid `metric` contributes its metric to the bucket table under
//! the timestamp's hour key; one with `id`, `name` and a valid `metric`
//! contributes it to the entity table — a record missing the fields one
//! table needs is excluded from that table only. Malformed lines
//! contribute nothing and are never an error.

use vstd::prelude::*;

use crate::metric::METRIC_BOUND;
use crate::metric::metric_of;
use crate::metric::parse_metric;

verus! {

/// What `core::str::from_utf8` decodes the bytes to, if anything: a
/// function of the bytes alone.
pub uninterp spec fn utf8_of(b: Seq<u8>) -> Option<Seq<char>>;

/// Relies on core::str::from_utf8: whether a byte sequence is valid UTF-8,
/// and which characters it decodes to, depend on the bytes alone.
#[verifier::external_body]
fn bytes_as_str(b: &[u8]) -> (r: Option<&str>)
    ensures
        match r {
            Some(t) => utf8_of(b@) == Some(t@),
            None => utf8_of(b@) is None,
        },
{
    core::str::from_utf8(b).ok()
}

/// The text with leading and trailing whitespace removed: a function of
/// the characters alone.
pub uninterp spec fn trimmed_of(s: Seq<char>) -> Seq<char>;

/// Relies on str::trim: which characters count as whitespace, and hence
/// the trimmed text, depend on the characters alone.
#[verifier::external_body]
fn trim_text(s: &str) -> (r: &str)
    ensures
        r@ == trimmed_of(s@),
{
    s.trim()
}

/// A line counts as one processed record when it decodes as UTF-8 and its
/// trimmed text is non-empty, whether or not its fields then parse.
pub open spec fn counted(line: Seq<u8>) -> bool {
    match utf8_of(line) {
        Some(cs) => trimmed_of(cs).len() > 0,
        None => false,
    }
}

/// The field texts a record's JSON carries: `time`, `id`, `name`, and the
/// decimal text of `metric`.
pub struct RawFields {
    pub time_text: Option<String>,
    pub id_text: Option<String>,
    pub name_text: Option<String>,
    pub metric_text: Option<String>,
}

pub open spec fn opt_text_view(o: Option<String>) -> Option<Seq<char>> {
    match o {
        Some(s) => Some(s@),
        None => None,
    }
}

pub open spec fn fields_view(r: Option<RawFields>) -> Option<
    (Option<Seq<char>>, Option<Seq<char>>, Option<Seq<char>>, Option<Seq<char>>),
> {
    match r {
        Some(f) => Some(
            (
                opt_text_view(f.time_text),
                opt_text_view(f.id_text),
                opt_text_view(f.name_text),
                opt_text_view(f.metric_text),
            ),
        ),
        None => None,
    }
}

/// The `(time, id, name, metric)` field texts of a record line: a function
/// of the line's characters alone. `None` when the text does not parse as
/// JSON at all; a JSON value of another shape than an object with these
/// fields simply carries the fields as absent.
pub uninterp spec fn json_fields_of(s: Seq<char>) -> Option<
    (Option<Seq<char>>, Option<Seq<char>>, Option<Seq<char>>, Option<Seq<char>>),
>;

/// Relies on serde_json::from_str::<Value>, Value::get, Value::as_str,
/// Value::as_number and Number's Display implementation: whether the text
/// parses as JSON and which field texts it carries depend on the
/// characters alone.
#[verifier::external_body]
fn json_fields(s: &str) -> (r: Option<RawFields>)
    ensures
        fields_view(r) == json_fields_of(s@),
{
    let v: serde_json::Value = match serde_json::from_str(s) {
        Ok(v) => v,
        Err(_) => return None,
    };
    Some(RawFields {
        time_text: v.get("time").and_then(|x| x.as_str()).map(|x| x.to_string()),
        id_text: v.get("id").and_then(|x| x.as_str()).map(|x| x.to_string()),
        name_text: v.get("name").and_then(|x| x.as_str()).map(|x| x.to_string()),
        metric_text: v.get("metric").and_then(|x| x.as_number()).map(|n| n.to_string()),
    })
}

/// The hour-bucket key of an RFC 3339 timestamp text, or `None` when the
/// text does not parse: a function of the characters alone.
pub uninterp spec fn hour_key_of(ts: Seq<char>) -> Option<Seq<char>>;

/// Relies on chrono's DateTime::parse_from_rfc3339 and DateTime::format
/// with "%Y-%m-%d %H": whether a timestamp parses, and the text of its
/// hour bucket, depend on the timestamp's characters alone.
#[verifier::external_body]
fn hour_bucket_of(ts: &str) -> (r: Option<String>)
    ensures
        match r {
            Some(k) => hour_key_of(ts@) == Some(k@),
            None => hour_key_of(ts@) is None,
        },
{
    match chrono::DateTime::parse_from_rfc3339(ts) {
        Ok(dt) => Some(dt.format("%Y-%m-%d %H").to_string()),
        Err(_) => None,
    }
}

/// What one raw line contributes: `.0` to the bucket table as
/// `(hour key, metric)`, `.1` to the entity table as `(id, name, metric)`.
/// Each table is fed from its own fields alone — a record lacking `time`
/// still feeds the entity table, and one lacking `id` or `name` still
/// feeds the bucket table.
pub open spec fn line_effect(line: Seq<u8>) -> (
    Option<(Seq<char>, int)>,
    Option<(Seq<char>, Seq<char>, int)>,
) {
    if !counted(line) {
        (None, None)
    } else {
        match json_fields_of(trimmed_of(utf8_of(line)->Some_0)) {
            None => (None, None),
            Some(f) => {
                match (match f.3 {
                    Some(mt) => metric_of(mt),
                    None => None,
                }) {
                    None => (None, None),
                    Some(mv) => (
                        match f.0 {
                            Some(ts) => match hour_key_of(ts) {
                                Some(h) => Some((h, mv)),
                                None => None,
                            },
                            None => None,
                        },
                        match (f.1, f.2) {
                            (Some(id), Some(name)) => Some((id, name, mv)),
                            _ => None,
                        },
                    ),
                }
            },
        }
    }
}

/// What [`decode_line`] reports for one raw line.
pub struct LineRecord {
    /// The line counted as a processed record.
    pub counted: bool,
    /// Contribution to the bucket table: `(hour key, metric)`.
    pub bucket: Option<(String, i64)>,
    /// Contribution to the entity table: `(id, name, metric)`.
    pub entity: Option<(String, String, i64)>,
}

pub open spec fn bucket_part_view(b: Option<(String, i64)>) -> Option<(Seq<char>, int)> {
    match b {
        Some(p) => Some((p.0@, p.1 as int)),
        None => None,
    }
}

pub open spec fn entity_part_view(e: Option<(String, String, i64)>) -> Option<
    (Seq<char>, Seq<char>, int),
> {
    match e {
        Some(p) => Some((p.0@, p.1@, p.2 as int)),
        None => None,
    }
}

/// Decodes one raw line, exactly as [`line_effect`] and [`counted`] say.
/// Any contributed metric is bounded by [`METRIC_BOUND`] in magnitude.
pub fn decode_line(line: &[u8]) -> (r: LineRecord)
    ensures
        r.counted == counted(line@),
        bucket_part_view(r.bucket) == line_effect(line@).0,
        entity_part_view(r.entity) == line_effect(line@).1,
        r.bucket matches Some(p) ==> -METRIC_BOUND <= p.1 <= METRIC_BOUND,
        r.entity matches Some(p) ==> -METRIC_BOUND <= p.2 <= METRIC_BOUND,
{
    let s: &str = match bytes_as_str(line) {
        Some(s) => s,
        None => {
            return LineRecord { counted: false, bucket: None, entity: None };
        },
    };
    let t: &str = trim_text(s);
    if t.is_empty() {
        return LineRecord { counted: false, bucket: None, entity: None };
    }
    let f: RawFields = match json_fields(t) {
        Some(f) => f,
        None => {
            return LineRecord { counted: true, bucket: None, entity: None };
        },
    };
    let mv: i64 = match (match &f.metric_text {
        Some(mt) => parse_metric(mt.as_str()),
        None => None,
    }) {
        Some(mv) => mv,
        None => {
            return LineRecord { counted: true, bucket: None, entity: None };
        },
    };
    let bucket: Option<(String, i64)> = match f.time_text {
        Some(ts) => match hour_bucket_of(ts.as_str()) {
            Some(h) => Some((h, mv)),
            None => None,
        },
        None => None,
    };
    let entity: Option<(String, String, i64)> = match (f.id_text, f.name_text) {
        (Some(id), Some(name)) => Some((id, name, mv)),
        _ => None,
    };
    LineRecord { counted: true, bucket, entity }
}

} // verus!
