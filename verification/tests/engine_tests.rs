use shardagg::decode_line;
use shardagg::phase_step;
use shardagg::Phase;
use shardagg::finalize;
use shardagg::process_shard;
use shardagg::shard_bounds;
use shardagg::BucketTable;
use shardagg::EntityTable;

const REC_ALICE: &str = r#"{"time":"2023-01-01T10:15:00Z","id":"1","name":"alice","metric":0.5}"#;
const REC_BOB: &str = r#"{"time":"2023-01-01T10:45:00Z","id":"2","name":"bob","metric":-0.2}"#;

fn scan_all(data: &[u8], w: u64, seg: usize) -> (BucketTable, EntityTable, usize) {
    let mut buckets = Vec::new();
    let mut entities = Vec::new();
    let mut total = 0usize;
    for rank in 0..w {
        let (s, e) = shard_bounds(data.len() as u64, w, rank);
        let part = process_shard(data, s as usize, e as usize, seg);
        total += part.lines;
        buckets.push(part.bucket);
        entities.push(part.entity);
    }
    let gb = shardagg::merge_tables(&buckets).expect("counts fit");
    let ge = shardagg::emerge_tables(&entities).expect("counts fit");
    (gb, ge, total)
}

#[test]
fn decode_extracts_fields() {
    let rec = decode_line(REC_ALICE.as_bytes());
    assert!(rec.counted);
    assert_eq!(rec.bucket, Some(("2023-01-01 10".to_string(), 500_000)));
    assert_eq!(
        rec.entity,
        Some(("1".to_string(), "alice".to_string(), 500_000))
    );
}

#[test]
fn decode_drops_malformed_records_silently() {
    // not JSON: counted, contributes nothing
    let rec = decode_line(b"not json at all");
    assert!(rec.counted);
    assert_eq!(rec.bucket, None);
    assert_eq!(rec.entity, None);
    // blank line: not even counted
    let rec = decode_line(b"   \t  ");
    assert!(!rec.counted);
    // missing metric: nothing contributed
    let rec = decode_line(br#"{"time":"2023-01-01T10:15:00Z","id":"1","name":"a"}"#);
    assert!(rec.counted);
    assert_eq!(rec.bucket, None);
    assert_eq!(rec.entity, None);
    // unparseable timestamp: no bucket, entity still filed
    let rec = decode_line(br#"{"time":"yesterday","id":"1","name":"a","metric":1}"#);
    assert_eq!(rec.bucket, None);
    assert_eq!(rec.entity, Some(("1".to_string(), "a".to_string(), 1_000_000)));
}

#[test]
fn tables_fed_independently() {
    // no time at all: the entity table is still fed
    let rec = decode_line(br#"{"id":"1","name":"a","metric":2}"#);
    assert!(rec.counted);
    assert_eq!(rec.bucket, None);
    assert_eq!(rec.entity, Some(("1".to_string(), "a".to_string(), 2_000_000)));
    // no id: the bucket table is still fed
    let rec = decode_line(br#"{"time":"2023-01-01T10:15:00Z","name":"a","metric":2}"#);
    assert_eq!(rec.bucket, Some(("2023-01-01 10".to_string(), 2_000_000)));
    assert_eq!(rec.entity, None);
    // no metric: neither table is fed
    let rec = decode_line(br#"{"time":"2023-01-01T10:15:00Z","id":"1","name":"a"}"#);
    assert!(rec.counted);
    assert_eq!(rec.bucket, None);
    assert_eq!(rec.entity, None);
}

#[test]
fn unicode_whitespace_is_trimmed() {
    // U+00A0 padding around a record is whitespace to str::trim
    let padded = format!("\u{a0}{}\u{a0}", REC_ALICE);
    let rec = decode_line(padded.as_bytes());
    assert!(rec.counted);
    assert_eq!(rec.bucket, Some(("2023-01-01 10".to_string(), 500_000)));
    // a line of only Unicode whitespace is not a record
    let rec = decode_line("\u{a0}\u{2003}".as_bytes());
    assert!(!rec.counted);
}

#[test]
fn decode_rejects_invalid_utf8() {
    let rec = decode_line(&[0xff, 0xfe, 0x41]);
    assert!(!rec.counted);
    assert_eq!(rec.bucket, None);
    assert_eq!(rec.entity, None);
}

#[test]
fn windows_line_endings_are_trimmed() {
    let data = format!("{}\r\n{}\r\n", REC_ALICE, REC_BOB);
    let (gb, _, total) = scan_all(data.as_bytes(), 2, 16);
    assert_eq!(total, 2);
    assert_eq!(gb.get(&"2023-01-01 10".to_string()), Some(300_000));
}

#[test]
fn two_records_single_worker() {
    let data = format!("{}\n{}\n", REC_ALICE, REC_BOB);
    let (gb, ge, total) = scan_all(data.as_bytes(), 1, 16);
    assert_eq!(total, 2);
    assert_eq!(gb.len(), 1);
    assert_eq!(gb.get(&"2023-01-01 10".to_string()), Some(300_000));
    assert_eq!(
        ge.get(&"1".to_string()),
        Some(("alice".to_string(), 500_000))
    );
    assert_eq!(ge.get(&"2".to_string()), Some(("bob".to_string(), -200_000)));
    let top = shardagg::top_k_buckets(&gb, 1, true);
    assert_eq!(top, vec![("2023-01-01 10".to_string(), 300_000)]);
}

#[test]
fn empty_file_yields_empty_results() {
    let data: &[u8] = b"";
    let (gb, ge, total) = scan_all(data, 1, 1024);
    assert_eq!(total, 0);
    assert_eq!(gb.len(), 0);
    assert_eq!(ge.len(), 0);
    let buckets = vec![gb];
    let entities = vec![ge];
    let counts = vec![total];
    let report = finalize(&buckets, &entities, &counts, 5).expect("counts fit");
    assert!(report.happiest_buckets.is_empty());
    assert!(report.saddest_buckets.is_empty());
    assert!(report.happiest_entities.is_empty());
    assert!(report.saddest_entities.is_empty());
    assert_eq!(report.total_records, 0);
}

#[test]
fn record_split_at_shard_boundary_counted_once() {
    // one record; with two workers the boundary falls inside it
    let data = format!("{}\n", REC_ALICE);
    assert!(data.len() > 2);
    let (s0, e0) = shard_bounds(data.len() as u64, 2, 0);
    let (s1, _) = shard_bounds(data.len() as u64, 2, 1);
    assert!(s0 == 0 && e0 == s1 && (e0 as usize) < data.len());
    let p0 = process_shard(data.as_bytes(), 0, e0 as usize, 8);
    let p1 = process_shard(data.as_bytes(), s1 as usize, data.len(), 8);
    assert_eq!(p0.lines, 1, "the worker holding the record's start owns it");
    assert_eq!(p1.lines, 0, "the other worker must not reprocess it");
    assert_eq!(p0.bucket.get(&"2023-01-01 10".to_string()), Some(500_000));
    assert_eq!(p1.bucket.len(), 0);
}

#[test]
fn partition_invariance_across_worker_counts() {
    let mut data = String::new();
    data.push_str(REC_ALICE);
    data.push('\n');
    data.push_str(REC_BOB);
    data.push('\n');
    data.push_str(r#"{"time":"2023-01-02T08:00:00Z","id":"1","name":"alice","metric":1.25}"#);
    data.push('\n');
    data.push_str("garbage line\n\n");
    data.push_str(r#"{"time":"2023-01-02T08:30:00Z","id":"3","name":"carol","metric":-4}"#);
    // no trailing newline on the last record
    let bytes = data.as_bytes();
    let (gb1, ge1, t1) = scan_all(bytes, 1, 7);
    for w in [2u64, 3, 4, 7, 64] {
        for seg in [1usize, 5, 1024] {
            let (gb, ge, t) = scan_all(bytes, w, seg);
            assert_eq!(t, t1, "w={w} seg={seg}");
            assert_eq!(gb.len(), gb1.len());
            assert_eq!(ge.len(), ge1.len());
            for key in ["2023-01-01 10", "2023-01-02 08"] {
                assert_eq!(gb.get(&key.to_string()), gb1.get(&key.to_string()));
            }
            for key in ["1", "2", "3"] {
                assert_eq!(ge.get(&key.to_string()), ge1.get(&key.to_string()));
            }
        }
    }
    assert_eq!(t1, 5, "garbage counts, the blank line does not");
    assert_eq!(gb1.get(&"2023-01-01 10".to_string()), Some(300_000));
    assert_eq!(gb1.get(&"2023-01-02 08".to_string()), Some(-2_750_000));
    assert_eq!(
        ge1.get(&"1".to_string()),
        Some(("alice".to_string(), 1_750_000))
    );
}

#[test]
fn boundary_on_record_start_not_dropped() {
    // a newline exactly at the shard boundary: the next record starts at
    // the boundary and belongs to the second worker alone
    let data = b"abc\ndef\n";
    let (s0, e0) = shard_bounds(data.len() as u64, 2, 0);
    let (s1, e1) = shard_bounds(data.len() as u64, 2, 1);
    assert_eq!((s0, e0, s1, e1), (0, 4, 4, 8));
    let p0 = process_shard(data, 0, 4, 1024);
    let p1 = process_shard(data, 4, 8, 1024);
    assert_eq!(p0.lines, 1);
    assert_eq!(p1.lines, 1);
}

#[test]
fn lifecycle_reaches_done() {
    for merge_point in [true, false] {
        let mut p = Phase::Init;
        let mut steps = 0;
        while !matches!(p, Phase::Done) {
            p = phase_step(p, merge_point);
            steps += 1;
            assert!(steps <= 6);
        }
        if merge_point {
            assert_eq!(steps, 6);
        } else {
            assert_eq!(steps, 4);
        }
    }
}

#[test]
fn finalize_reports_topk_both_ways() {
    let data = format!("{}\n{}\n", REC_ALICE, REC_BOB);
    let mut buckets = Vec::new();
    let mut entities = Vec::new();
    let mut counts = Vec::new();
    for rank in 0..2u64 {
        let (s, e) = shard_bounds(data.len() as u64, 2, rank);
        let part = process_shard(data.as_bytes(), s as usize, e as usize, 32);
        buckets.push(part.bucket);
        entities.push(part.entity);
        counts.push(part.lines);
    }
    let report = finalize(&buckets, &entities, &counts, 5).expect("counts fit");
    assert_eq!(report.total_records, 2);
    assert_eq!(
        report.happiest_buckets,
        vec![("2023-01-01 10".to_string(), 300_000)]
    );
    assert_eq!(
        report.happiest_entities[0],
        ("1".to_string(), "alice".to_string(), 500_000)
    );
    assert_eq!(
        report.saddest_entities[0],
        ("2".to_string(), "bob".to_string(), -200_000)
    );
}
