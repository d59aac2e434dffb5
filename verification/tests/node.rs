use txtable::node::RootNode;
use txtable::secondary::DefaultSecondaryIndex;

#[test]
fn node_insert() {
    let mut index: RootNode<String, String> = RootNode::new(10);
    index
        .insert(&"key".to_string(), "value".to_string(), false)
        .unwrap();
    assert_eq!(index.find(&"key".to_string()), Some(&"value".to_string()));
}

#[test]
fn node_update() {
    let mut index: RootNode<String, String> = RootNode::new(10);
    index
        .insert(&"key".to_string(), "value".to_string(), false)
        .unwrap();
    index
        .update(&"key".to_string(), "value_updated".to_string())
        .unwrap();
    assert_eq!(
        index.find(&"key".to_string()),
        Some(&"value_updated".to_string())
    );
}

#[test]
fn node_remove() {
    let mut index: RootNode<String, String> = RootNode::new(10);
    index
        .insert(&"key".to_string(), "value".to_string(), false)
        .unwrap();
    index.remove(&"key".to_string()).unwrap();
    assert_eq!(index.find(&"key".to_string()), None);
}

#[test]
fn node_insert_many() {
    let mut index: RootNode<String, String> = RootNode::new(10);
    for i in 0..1000 {
        let key = format!("key{}", i);
        let value = format!("value{}", i);
        index.insert(&key, value.clone(), false).unwrap();
        assert_eq!(index.find(&key), Some(&value));
    }
}

#[test]
fn node_remove_many() {
    let mut index: RootNode<String, String> = RootNode::new(10);
    for i in 0..1000 {
        let key = format!("key{}", i);
        let value = format!("value{}", i);
        index.insert(&key, value, false).unwrap();
    }
    for i in 0..1000 {
        let key = format!("key{}", i);
        index.remove(&key).unwrap();
        assert_eq!(index.find(&key), None);
    }
    for i in 0..1000 {
        let key = format!("key{}", i);
        assert_eq!(index.find(&key), None);
    }
}

#[test]
fn node_dump() {
    let mut index: RootNode<String, String> = RootNode::new(10);
    for i in 0..1000 {
        let key = format!("key{}", i);
        let value = format!("value{}", i);
        index.insert(&key, value.clone(), false).unwrap();
    }
    let snapshot = index.collect();
    let table =
        txtable::load::<DefaultSecondaryIndex>(snapshot, Vec::new(), 10, Vec::new()).unwrap();
    for i in 0..1000 {
        let key = format!("key{}", i);
        let value = format!("value{}", i);
        assert_eq!(table.primary.find(&key), Some(&value));
    }
}
