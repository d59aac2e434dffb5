use txtable::codec::{frame, unframe, IOError};
use txtable::node::{NodeError, RootNode};
use txtable::order::{KeyCmp, TreeKey};
use txtable::secondary::DefaultSecondaryIndex;
use txtable::transaction::Write;
use txtable::{Primitive, Request, Table, Transaction, TransactionError};

fn plain_table() -> Table<DefaultSecondaryIndex> {
    Table::new(10)
}

fn value_index_table() -> Table<DefaultSecondaryIndex> {
    let mut secondaries: Vec<(String, DefaultSecondaryIndex)> = Vec::new();
    secondaries.push(("by-value".to_string(), DefaultSecondaryIndex::new(10)));
    Table::with_secondary_indexes(10, secondaries)
}

#[test]
fn insert_then_reload_keeps_value() {
    let table = plain_table();
    let mut tx = Transaction::new(table);
    tx.exec(Request::Insert(("key".to_string(), "value".to_string())))
        .unwrap();
    assert_eq!(tx.find(&"key".to_string()).unwrap(), Some("value".to_string()));
    let (table, r) = tx.commit();
    r.unwrap();

    let snapshot = txtable::dump(&table);
    let table2 =
        txtable::load::<DefaultSecondaryIndex>(snapshot, Vec::new(), 10, Vec::new()).unwrap();
    assert_eq!(table2.primary.find(&"key".to_string()), Some(&"value".to_string()));
}

#[test]
fn update_within_one_transaction() {
    let table = plain_table();
    let mut tx = Transaction::new(table);
    tx.exec(Request::Insert(("k".to_string(), "v1".to_string())))
        .unwrap();
    tx.exec(Request::Update(("k".to_string(), "v2".to_string())))
        .unwrap();
    assert_eq!(tx.find(&"k".to_string()).unwrap(), Some("v2".to_string()));
    let (table, r) = tx.commit();
    r.unwrap();

    let snapshot = txtable::dump(&table);
    let table2 =
        txtable::load::<DefaultSecondaryIndex>(snapshot, Vec::new(), 10, Vec::new()).unwrap();
    assert_eq!(table2.primary.find(&"k".to_string()), Some(&"v2".to_string()));
}

#[test]
fn remove_after_insert_leaves_empty_write_set() {
    let table = plain_table();
    let mut tx = Transaction::new(table);
    tx.exec(Request::Insert(("k".to_string(), "v".to_string())))
        .unwrap();
    tx.exec(Request::Remove("k".to_string())).unwrap();
    assert_eq!(tx.write_set.writes().len(), 0);
    assert_eq!(tx.find(&"k".to_string()).unwrap(), None);
    let (table, r) = tx.commit();
    r.unwrap();
    assert_eq!(table.primary.find(&"k".to_string()), None);
}

#[test]
fn thousand_inserts_then_removes_empty_collect() {
    let table = plain_table();
    let mut tx = Transaction::new(table);
    for i in 0..1000 {
        tx.exec(Request::Insert((format!("key{}", i), format!("value{}", i))))
            .unwrap();
    }
    let (table, r) = tx.commit();
    r.unwrap();

    let mut tx = Transaction::new(table);
    for i in 0..1000 {
        tx.exec(Request::Remove(format!("key{}", i))).unwrap();
    }
    let (table, r) = tx.commit();
    r.unwrap();
    assert_eq!(table.primary.collect().len(), 0);
}

#[test]
fn secondary_select_follows_update() {
    let table = value_index_table();
    let mut tx = Transaction::new(table);
    tx.exec(Request::Insert(("k".to_string(), "v".to_string())))
        .unwrap();
    let (table, r) = tx.commit();
    r.unwrap();

    let keys = Transaction::new(table)
        .select(&"by-value".to_string(), &Primitive::String("v".to_string()))
        .unwrap();
    assert!(keys.len() == 1 && keys.contains(&"k".to_string()));
}

#[test]
fn secondary_select_after_value_change() {
    let table = value_index_table();
    let mut tx = Transaction::new(table);
    tx.exec(Request::Insert(("k".to_string(), "v".to_string())))
        .unwrap();
    let (table, r) = tx.commit();
    r.unwrap();

    let mut tx = Transaction::new(table);
    tx.exec(Request::Update(("k".to_string(), "v2".to_string())))
        .unwrap();
    let old_keys = tx
        .select(&"by-value".to_string(), &Primitive::String("v".to_string()))
        .unwrap();
    assert_eq!(old_keys.len(), 0);
    let new_keys = tx
        .select(&"by-value".to_string(), &Primitive::String("v2".to_string()))
        .unwrap();
    assert!(new_keys.len() == 1 && new_keys.contains(&"k".to_string()));
}

#[test]
fn failed_validation_leaves_table_unchanged() {
    let table = plain_table();
    let mut tx = Transaction::new(table);
    tx.exec(Request::Insert(("a".to_string(), "1".to_string())))
        .unwrap();
    let (table, r) = tx.commit();
    r.unwrap();

    // update a key that was never inserted: validation must refuse the
    // commit and keep every read unchanged
    let mut tx = Transaction::new(table);
    tx.exec(Request::Update(("missing".to_string(), "x".to_string())))
        .unwrap();
    let (table, r) = tx.commit();
    assert!(matches!(r, Err(TransactionError::KeyNotFound)));
    assert_eq!(table.primary.find(&"a".to_string()), Some(&"1".to_string()));
    assert_eq!(table.primary.find(&"missing".to_string()), None);
}

#[test]
fn duplicate_insert_is_refused() {
    let mut index: RootNode<String, String> = RootNode::new(10);
    index
        .insert(&"k".to_string(), "v".to_string(), false)
        .unwrap();
    let r = index.insert(&"k".to_string(), "w".to_string(), false);
    assert!(matches!(r, Err(NodeError::Duplicated)));
    assert_eq!(index.find(&"k".to_string()), Some(&"v".to_string()));
    // with upsert allowed, the value is replaced instead
    index.insert(&"k".to_string(), "w".to_string(), true).unwrap();
    assert_eq!(index.find(&"k".to_string()), Some(&"w".to_string()));
}

#[test]
fn missing_key_update_and_remove_are_refused() {
    let mut index: RootNode<String, String> = RootNode::new(10);
    assert!(matches!(
        index.update(&"k".to_string(), "v".to_string()),
        Err(NodeError::NotFound)
    ));
    assert!(matches!(index.remove(&"k".to_string()), Err(NodeError::NotFound)));
}

#[test]
fn select_refuses_unknown_index_and_wrong_key_type() {
    let table = value_index_table();
    let tx = Transaction::new(table);
    let r = tx.select(&"nope".to_string(), &Primitive::String("v".to_string()));
    assert!(matches!(r, Err(TransactionError::SecondaryIndexNotFound)));
    let r = tx.select(&"by-value".to_string(), &Primitive::Integer(7));
    assert!(matches!(r, Err(TransactionError::IllegalKeyType)));
}

#[test]
fn collect_is_sorted_ascending() {
    let mut index: RootNode<String, String> = RootNode::new(3);
    let keys = ["pear", "apple", "fig", "date", "cherry", "banana", "kiwi"];
    for k in keys.iter() {
        index
            .insert(&k.to_string(), format!("value-{}", k), false)
            .unwrap();
    }
    let pairs = index.collect();
    assert_eq!(pairs.len(), keys.len());
    for w in pairs.windows(2) {
        assert!(w[0].0 < w[1].0);
    }
    for (k, v) in pairs.iter() {
        assert_eq!(v, &format!("value-{}", k));
    }
}

#[test]
fn framed_record_round_trips() {
    let payload: Vec<u8> = b"{\"key\":\"value\"}".to_vec();
    let framed = frame(&payload);
    assert_eq!(framed.len(), 72 + payload.len());
    let back = unframe(&framed).unwrap();
    assert_eq!(back, payload);
}

#[test]
fn framed_record_detects_corruption() {
    let payload: Vec<u8> = b"hello".to_vec();
    let mut framed = frame(&payload);
    // flip one payload byte: the digest no longer matches
    let last = framed.len() - 1;
    framed[last] ^= 1;
    assert!(matches!(unframe(&framed), Err(IOError::HashMismatch)));

    // drop one payload byte: the recorded length no longer matches
    let mut truncated = frame(&payload);
    truncated.pop();
    assert!(matches!(unframe(&truncated), Err(IOError::FileSizeMismatch)));

    // a record shorter than its header carries nothing
    let stub: Vec<u8> = vec![0u8; 10];
    assert!(matches!(unframe(&stub), Err(IOError::FileSizeMismatch)));
}

#[test]
fn replaying_a_duplicate_log_is_idempotent() {
    // a log without removals replays the same whether applied once or twice
    let snapshot: Vec<(String, String)> = vec![("a".to_string(), "1".to_string())];
    let log: Vec<(String, Write)> = vec![
        ("a".to_string(), Write::Update("2".to_string())),
        ("b".to_string(), Write::Insert("3".to_string())),
    ];
    let once = txtable::load::<DefaultSecondaryIndex>(
        snapshot.clone(),
        vec![log.clone()],
        10,
        Vec::new(),
    )
    .unwrap();
    let twice = txtable::load::<DefaultSecondaryIndex>(
        snapshot,
        vec![log.clone(), log],
        10,
        Vec::new(),
    )
    .unwrap();
    assert_eq!(once.primary.collect(), twice.primary.collect());
}

#[test]
fn load_refuses_duplicate_snapshot_keys_and_dangling_updates() {
    let snapshot: Vec<(String, String)> = vec![
        ("a".to_string(), "1".to_string()),
        ("a".to_string(), "2".to_string()),
    ];
    let r = txtable::load::<DefaultSecondaryIndex>(snapshot, Vec::new(), 10, Vec::new());
    assert!(matches!(r, Err(NodeError::Duplicated)));

    let log: Vec<(String, Write)> = vec![("ghost".to_string(), Write::Remove)];
    let r = txtable::load::<DefaultSecondaryIndex>(Vec::new(), vec![log], 10, Vec::new());
    assert!(matches!(r, Err(NodeError::NotFound)));
}

#[test]
fn round_trip_preserves_collect_and_secondary_sets() {
    let table = value_index_table();
    let mut tx = Transaction::new(table);
    for i in 0..50 {
        tx.exec(Request::Insert((format!("key{:02}", i), "shared".to_string())))
            .unwrap();
    }
    let (table, r) = tx.commit();
    r.unwrap();

    let snapshot = txtable::dump(&table);
    let mut secondaries: Vec<(String, DefaultSecondaryIndex)> = Vec::new();
    secondaries.push(("by-value".to_string(), DefaultSecondaryIndex::new(10)));
    let table2 =
        txtable::load::<DefaultSecondaryIndex>(snapshot, Vec::new(), 10, secondaries).unwrap();

    assert_eq!(table.primary.collect(), table2.primary.collect());
    let before = Transaction::new(table)
        .select(&"by-value".to_string(), &Primitive::String("shared".to_string()))
        .unwrap();
    let after = Transaction::new(table2)
        .select(&"by-value".to_string(), &Primitive::String("shared".to_string()))
        .unwrap();
    assert_eq!(before.len(), 50);
    assert_eq!(after.len(), 50);
    for i in 0..50 {
        assert!(before.contains(&format!("key{:02}", i)));
        assert!(after.contains(&format!("key{:02}", i)));
    }
}

#[test]
fn primitive_order_is_by_variant_then_value() {
    let b = Primitive::Boolean(false);
    let bt = Primitive::Boolean(true);
    let i = Primitive::Integer(-5);
    let i2 = Primitive::Integer(7);
    let f = Primitive::Float(3);
    let s = Primitive::String("a".to_string());
    let s2 = Primitive::String("b".to_string());
    assert!(matches!(b.key_cmp(&bt), KeyCmp::Less));
    assert!(matches!(bt.key_cmp(&i), KeyCmp::Less));
    assert!(matches!(i.key_cmp(&i2), KeyCmp::Less));
    assert!(matches!(i2.key_cmp(&f), KeyCmp::Less));
    assert!(matches!(f.key_cmp(&s), KeyCmp::Less));
    assert!(matches!(s.key_cmp(&s2), KeyCmp::Less));
    assert!(matches!(s2.key_cmp(&s), KeyCmp::Greater));
    assert!(matches!(
        s.key_cmp(&Primitive::String("a".to_string())),
        KeyCmp::Equal
    ));
}

#[test]
fn string_keys_compare_lexicographically() {
    let a = "apple".to_string();
    let b = "apricot".to_string();
    let c = "app".to_string();
    assert!(matches!(a.key_cmp(&b), KeyCmp::Less));
    assert!(matches!(b.key_cmp(&a), KeyCmp::Greater));
    assert!(matches!(c.key_cmp(&a), KeyCmp::Less));
    assert!(matches!(a.key_cmp(&a.clone()), KeyCmp::Equal));
}
