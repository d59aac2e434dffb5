use txtable::secondary::DefaultSecondaryIndex;
use txtable::transaction::Write;
use txtable::{Request, Table, Transaction};

fn plain_table() -> Table<DefaultSecondaryIndex> {
    Table::new(10)
}

#[test]
fn transaction_without_commit() {
    let table = plain_table();
    let mut transaction = Transaction::new(table);
    assert_eq!(
        transaction
            .exec(Request::Insert(("key".to_string(), "value".to_string())))
            .unwrap(),
        ()
    );
    assert_eq!(
        transaction.find(&"key".to_string()).unwrap(),
        Some("value".to_string())
    );
}

#[test]
fn transaction_with_commit() {
    let table = plain_table();
    let mut transaction = Transaction::new(table);
    assert_eq!(
        transaction
            .exec(Request::Insert(("key".to_string(), "value".to_string())))
            .unwrap(),
        ()
    );
    let (table, r) = transaction.commit();
    r.unwrap();

    let transaction = Transaction::new(table);
    assert_eq!(
        transaction.find(&"key".to_string()).unwrap(),
        Some("value".to_string())
    );
    let (_table, r) = transaction.commit();
    r.unwrap();
}

#[test]
fn transaction_update() {
    let table = plain_table();
    let mut transaction = Transaction::new(table);
    assert_eq!(
        transaction
            .exec(Request::Insert(("key".to_string(), "value".to_string())))
            .unwrap(),
        ()
    );
    let (table, r) = transaction.commit();
    r.unwrap();

    let mut transaction = Transaction::new(table);
    assert_eq!(
        transaction
            .exec(Request::Update((
                "key".to_string(),
                "value_updated".to_string()
            )))
            .unwrap(),
        ()
    );
    assert_eq!(
        transaction.find(&"key".to_string()).unwrap(),
        Some("value_updated".to_string())
    );
    let (_table, r) = transaction.commit();
    r.unwrap();
}

#[test]
fn transaction_remove() {
    let table = plain_table();
    let mut transaction = Transaction::new(table);
    assert_eq!(
        transaction
            .exec(Request::Insert(("key".to_string(), "value".to_string())))
            .unwrap(),
        ()
    );
    let (table, r) = transaction.commit();
    r.unwrap();

    let mut transaction = Transaction::new(table);
    assert_eq!(
        transaction.exec(Request::Remove("key".to_string())).unwrap(),
        ()
    );
    assert_eq!(transaction.find(&"key".to_string()).unwrap(), None);
    let (_table, r) = transaction.commit();
    r.unwrap();
}

#[test]
fn transaction_many() {
    let mut table = plain_table();
    for i in 0..1000 {
        let key = format!("key{}", i);
        let value = format!("value{}", i);
        let mut transaction = Transaction::new(table);
        assert_eq!(transaction.exec(Request::Insert((key, value))).unwrap(), ());
        let (t, r) = transaction.commit();
        r.unwrap();
        table = t;
    }
    for i in 0..1000 {
        let key = format!("key{}", i);
        let value = format!("value{}", i);
        let transaction = Transaction::new(table);
        assert_eq!(transaction.find(&key).unwrap(), Some(value));
        let (t, r) = transaction.commit();
        r.unwrap();
        table = t;
    }
}

#[test]
fn transaction_persist() {
    let mut table = plain_table();
    for i in 0..100 {
        let key = format!("key{}", i);
        let value = format!("value{}", i);
        let mut transaction = Transaction::new(table);
        assert_eq!(transaction.exec(Request::Insert((key, value))).unwrap(), ());
        let (t, r) = transaction.commit();
        r.unwrap();
        table = t;
    }
    let snapshot = txtable::dump(&table);

    let mut logs: Vec<Vec<(String, Write)>> = Vec::new();
    for i in 100..200 {
        let key = format!("key{}", i);
        let value = format!("value{}", i);
        let mut transaction = Transaction::new(table);
        assert_eq!(transaction.exec(Request::Insert((key, value))).unwrap(), ());
        logs.push(transaction.write_set.writes());
        let (t, r) = transaction.commit();
        r.unwrap();
        table = t;
    }

    let mut table = txtable::load::<DefaultSecondaryIndex>(snapshot, logs, 10, Vec::new()).unwrap();
    for i in 0..200 {
        let key = format!("key{}", i);
        let value = format!("value{}", i);
        let transaction = Transaction::new(table);
        assert_eq!(transaction.find(&key).unwrap(), Some(value));
        let (t, r) = transaction.commit();
        r.unwrap();
        table = t;
    }
}
