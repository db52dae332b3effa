use shardagg::BucketTable;
use shardagg::EntityTable;
use shardagg::top_k_buckets;
use shardagg::top_k_entities;

fn bucket_of(pairs: &[(&str, i64)]) -> BucketTable {
    let mut t = BucketTable::new();
    for (k, v) in pairs {
        t.add(k.to_string(), *v);
    }
    t
}

#[test]
fn largest_two_sorted_descending() {
    let t = bucket_of(&[("a", 3_000_000), ("b", -1_000_000), ("c", 7_000_000), ("d", 5_000_000)]);
    let top = top_k_buckets(&t, 2, true);
    assert_eq!(top.len(), 2);
    assert_eq!(top[0], ("c".to_string(), 7_000_000));
    assert_eq!(top[1], ("d".to_string(), 5_000_000));
}

#[test]
fn smallest_two_sorted_ascending() {
    let t = bucket_of(&[("a", 3_000_000), ("b", -1_000_000), ("c", 7_000_000), ("d", 5_000_000)]);
    let bottom = top_k_buckets(&t, 2, false);
    assert_eq!(bottom.len(), 2);
    assert_eq!(bottom[0], ("b".to_string(), -1_000_000));
    assert_eq!(bottom[1], ("a".to_string(), 3_000_000));
}

#[test]
fn capacity_beyond_table_returns_all_sorted() {
    let t = bucket_of(&[("a", 3_000_000), ("b", -1_000_000)]);
    let all = top_k_buckets(&t, 5, true);
    assert_eq!(all.len(), 2);
    assert_eq!(all[0], ("a".to_string(), 3_000_000));
    assert_eq!(all[1], ("b".to_string(), -1_000_000));
}

#[test]
fn zero_capacity_returns_nothing() {
    let t = bucket_of(&[("a", 3_000_000)]);
    assert!(top_k_buckets(&t, 0, true).is_empty());
    assert!(top_k_buckets(&t, 0, false).is_empty());
}

#[test]
fn entity_selection_carries_labels() {
    let mut t = EntityTable::new();
    t.add("1".to_string(), "alice".to_string(), 500_000);
    t.add("2".to_string(), "bob".to_string(), -200_000);
    t.add("3".to_string(), "carol".to_string(), 900_000);
    let top = top_k_entities(&t, 2, true);
    assert_eq!(top.len(), 2);
    assert_eq!(top[0], ("3".to_string(), "carol".to_string(), 900_000));
    assert_eq!(top[1], ("1".to_string(), "alice".to_string(), 500_000));
    let bottom = top_k_entities(&t, 1, false);
    assert_eq!(bottom, vec![("2".to_string(), "bob".to_string(), -200_000)]);
}
