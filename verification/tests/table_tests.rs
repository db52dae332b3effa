use shardagg::BucketTable;
use shardagg::EntityTable;
use shardagg::emerge_tables;
use shardagg::merge_tables;

fn bucket_of(pairs: &[(&str, i64)]) -> BucketTable {
    let mut t = BucketTable::new();
    for (k, v) in pairs {
        t.add(k.to_string(), *v);
    }
    t
}

#[test]
fn bucket_add_upserts() {
    let mut t = BucketTable::new();
    t.add("a".to_string(), 500_000);
    t.add("b".to_string(), -200_000);
    t.add("a".to_string(), 250_000);
    assert_eq!(t.len(), 2);
    assert_eq!(t.count(), 3);
    assert_eq!(t.get(&"a".to_string()), Some(750_000));
    assert_eq!(t.get(&"b".to_string()), Some(-200_000));
    assert_eq!(t.get(&"c".to_string()), None);
}

#[test]
fn bucket_merge_sums_keywise() {
    let a = bucket_of(&[("x", 1_000_000), ("y", 2_000_000)]);
    let b = bucket_of(&[("y", -500_000), ("z", 3_000_000)]);
    let merged = merge_tables(&vec![a, b]).expect("counts fit");
    assert_eq!(merged.get(&"x".to_string()), Some(1_000_000));
    assert_eq!(merged.get(&"y".to_string()), Some(1_500_000));
    assert_eq!(merged.get(&"z".to_string()), Some(3_000_000));
    assert_eq!(merged.count(), 4);
}

#[test]
fn bucket_merge_rotation_agrees() {
    // merging [A, B, C] and [C, A, B] gives identical tables
    let table_set = || {
        vec![
            bucket_of(&[("x", 1_000_000), ("y", 2_000_000)]),
            bucket_of(&[("y", 500_000)]),
            bucket_of(&[("x", -250_000), ("z", 9_000_000)]),
        ]
    };
    let abc = table_set();
    let t1 = merge_tables(&abc).expect("counts fit");
    let mut rotated = table_set();
    let c = rotated.remove(2);
    rotated.insert(0, c);
    let t2 = merge_tables(&rotated).expect("counts fit");
    for key in ["x", "y", "z"] {
        assert_eq!(t1.get(&key.to_string()), t2.get(&key.to_string()));
    }
    assert_eq!(t1.len(), t2.len());
}

#[test]
fn bucket_merge_any_order_agrees() {
    let parts = |order: [usize; 4]| {
        let make = [
            vec![("x", 1_000_000i64), ("y", 2_000_000)],
            vec![("y", 500_000)],
            vec![("z", -250_000), ("x", 9_000_000)],
            vec![("w", 4_000_000), ("y", -1_000_000)],
        ];
        let mut ts = Vec::new();
        for i in order {
            ts.push(bucket_of(&make[i]));
        }
        merge_tables(&ts).expect("counts fit")
    };
    let t1 = parts([0, 1, 2, 3]);
    let t2 = parts([2, 0, 3, 1]);
    for key in ["w", "x", "y", "z"] {
        assert_eq!(t1.get(&key.to_string()), t2.get(&key.to_string()));
    }
    assert_eq!(t1.get(&"y".to_string()), Some(1_500_000));
    assert_eq!(t1.len(), t2.len());
}

#[test]
fn entity_keeps_first_label_and_sums() {
    let mut t = EntityTable::new();
    t.add("1".to_string(), "alice".to_string(), 500_000);
    t.add("1".to_string(), "alicia".to_string(), 100_000);
    t.add("2".to_string(), "bob".to_string(), -200_000);
    assert_eq!(t.len(), 2);
    assert_eq!(
        t.get(&"1".to_string()),
        Some(("alice".to_string(), 600_000))
    );
    assert_eq!(t.get(&"2".to_string()), Some(("bob".to_string(), -200_000)));
    assert_eq!(t.get(&"3".to_string()), None);
}

#[test]
fn entity_merge_rotation_agrees_on_sums() {
    let make = |entries: &[(&str, &str, i64)]| {
        let mut t = EntityTable::new();
        for (k, l, v) in entries {
            t.add(k.to_string(), l.to_string(), *v);
        }
        t
    };
    let abc = vec![
        make(&[("1", "alice", 500_000)]),
        make(&[("1", "al", 100_000), ("2", "bob", -200_000)]),
        make(&[("2", "bobby", 50_000)]),
    ];
    let t1 = emerge_tables(&abc).expect("counts fit");
    let cab = vec![
        make(&[("2", "bobby", 50_000)]),
        make(&[("1", "alice", 500_000)]),
        make(&[("1", "al", 100_000), ("2", "bob", -200_000)]),
    ];
    let t2 = emerge_tables(&cab).expect("counts fit");
    // keys and sums agree; the label may be any observed one
    let (l1, s1) = t1.get(&"1".to_string()).unwrap();
    let (l2, s2) = t2.get(&"1".to_string()).unwrap();
    assert_eq!(s1, 600_000);
    assert_eq!(s2, 600_000);
    assert!(l1 == "alice" || l1 == "al");
    assert!(l2 == "alice" || l2 == "al");
    assert_eq!(t1.get(&"2".to_string()).unwrap().1, -150_000);
    assert_eq!(t2.get(&"2".to_string()).unwrap().1, -150_000);
    assert_eq!(t1.len(), t2.len());
}
