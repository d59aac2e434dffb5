use txtable::secondary::DefaultSecondaryIndex;
use txtable::{Primitive, Request, Table, Transaction};

fn table_with_value_index() -> Table<DefaultSecondaryIndex> {
    let mut secondaries: Vec<(String, DefaultSecondaryIndex)> = Vec::new();
    secondaries.push(("value".to_string(), DefaultSecondaryIndex::new(10)));
    Table::with_secondary_indexes(10, secondaries)
}

#[test]
fn simple_secondary_index() {
    let table = table_with_value_index();
    let mut transaction = Transaction::new(table);
    transaction
        .exec(Request::Insert(("key".to_string(), "value".to_string())))
        .unwrap();
    let keys = transaction
        .select(&"value".to_string(), &Primitive::String("value".to_string()))
        .unwrap();
    assert!(keys.len() == 1 && keys.contains(&"key".to_string()));
}

#[test]
fn secondary_index_with_commit() {
    let table = table_with_value_index();
    let mut transaction = Transaction::new(table);
    transaction
        .exec(Request::Insert(("key".to_string(), "value".to_string())))
        .unwrap();
    let (table, r) = transaction.commit();
    r.unwrap();

    let transaction = Transaction::new(table);
    let keys = transaction
        .select(&"value".to_string(), &Primitive::String("value".to_string()))
        .unwrap();
    assert!(keys.len() == 1 && keys.contains(&"key".to_string()));
}

#[test]
fn secondary_index_update() {
    let table = table_with_value_index();
    let mut transaction = Transaction::new(table);
    transaction
        .exec(Request::Insert(("key".to_string(), "value".to_string())))
        .unwrap();
    let (table, r) = transaction.commit();
    r.unwrap();

    let mut transaction = Transaction::new(table);
    transaction
        .exec(Request::Update(("key".to_string(), "value2".to_string())))
        .unwrap();
    let keys = transaction
        .select(
            &"value".to_string(),
            &Primitive::String("value2".to_string()),
        )
        .unwrap();
    assert!(keys.len() == 1 && keys.contains(&"key".to_string()));
}

#[test]
fn secondary_index_remove() {
    let table = table_with_value_index();
    let mut transaction = Transaction::new(table);
    transaction
        .exec(Request::Insert(("key".to_string(), "value".to_string())))
        .unwrap();
    let (table, r) = transaction.commit();
    r.unwrap();

    let mut transaction = Transaction::new(table);
    transaction
        .exec(Request::Remove("key".to_string()))
        .unwrap();
    let keys = transaction
        .select(&"value".to_string(), &Primitive::String("value".to_string()))
        .unwrap();
    assert!(keys.len() == 0);
}
