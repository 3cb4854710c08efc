use luat::kv::{KVError, ListOptions, MemoryKVStore, PutOptions};
use luat::kv::{value_kind, ValueKind};

#[test]
fn test_basic_operations() {
    let mut store = MemoryKVStore::new();

    store.put("key1", b"value1", PutOptions::default()).unwrap();
    let value = store.get("key1").unwrap();
    assert_eq!(value, Some(b"value1".to_vec()));

    let value = store.get("nonexistent").unwrap();
    assert_eq!(value, None);

    store.delete("key1").unwrap();
    let value = store.get("key1").unwrap();
    assert_eq!(value, None);
}

#[test]
fn test_metadata() {
    let mut store = MemoryKVStore::new();

    let mut meta = serde_json::Map::new();
    meta.insert("author".to_string(), serde_json::Value::String("test".to_string()));
    let options = PutOptions {
        metadata: Some(serde_json::Value::Object(meta.clone())),
        ..Default::default()
    };
    store.put("key1", b"value1", options).unwrap();

    let entry = store.get_with_metadata("key1").unwrap().unwrap();
    assert_eq!(entry.value, b"value1".to_vec());
    assert_eq!(entry.metadata, Some(serde_json::Value::Object(meta)));
}

#[test]
fn test_expiration_ttl() {
    let mut store = MemoryKVStore::new();

    let options = PutOptions {
        expiration_ttl: Some(0),
        ..Default::default()
    };
    store.put("key1", b"value1", options).unwrap();

    let value = store.get("key1").unwrap();
    assert_eq!(value, None);
}

#[test]
fn test_list_with_prefix() {
    let mut store = MemoryKVStore::new();

    store.put("blog:post1", b"content1", PutOptions::default()).unwrap();
    store.put("blog:post2", b"content2", PutOptions::default()).unwrap();
    store.put("user:alice", b"data", PutOptions::default()).unwrap();

    let result = store
        .list(ListOptions {
            prefix: Some("blog:".to_string()),
            ..Default::default()
        })
        .unwrap();

    assert_eq!(result.keys.len(), 2);
    assert!(result.list_complete);
    assert!(result.keys.iter().all(|k| k.name.starts_with("blog:")));
}

#[test]
fn memory_test_list_pagination() {
    let mut store = MemoryKVStore::new();

    for i in 0..5 {
        store.put(&format!("key{}", i), b"value", PutOptions::default()).unwrap();
    }

    let result = store
        .list(ListOptions {
            limit: Some(2),
            ..Default::default()
        })
        .unwrap();

    assert_eq!(result.keys.len(), 2);
    assert!(!result.list_complete);
    assert!(result.cursor.is_some());

    let result = store
        .list(ListOptions {
            limit: Some(2),
            cursor: result.cursor,
            ..Default::default()
        })
        .unwrap();

    assert_eq!(result.keys.len(), 2);
    assert!(!result.list_complete);
}

#[test]
fn kv_pages_cover_all_keys_in_order() {
    let mut store = MemoryKVStore::new();
    for name in ["c", "a", "e", "b", "d"] {
        store.put(name, b"v", PutOptions::default()).unwrap();
    }
    let mut seen = Vec::new();
    let mut cursor = None;
    loop {
        let page = store.list_at(ListOptions { prefix: None, limit: Some(2), cursor }, 0).unwrap();
        for k in &page.keys {
            seen.push(k.name.clone());
        }
        if page.list_complete {
            assert!(page.cursor.is_none());
            break;
        }
        cursor = page.cursor;
    }
    assert_eq!(seen, vec!["a", "b", "c", "d", "e"]);
}

#[test]
fn kv_expiration_is_checked_against_the_given_time() {
    let mut store = MemoryKVStore::new();
    store
        .put_at("k", b"v", PutOptions { expiration: None, expiration_ttl: Some(10), metadata: None }, 100)
        .unwrap();
    assert_eq!(store.get_at("k", 109).unwrap(), Some(b"v".to_vec()));
    assert_eq!(store.get_at("k", 110).unwrap(), None);
    let listed = store.list_at(ListOptions::default(), 110).unwrap();
    assert!(listed.keys.is_empty());
    assert!(listed.list_complete);
}

#[test]
fn kv_put_replaces_and_unknown_cursor_lists_nothing() {
    let mut store = MemoryKVStore::new();
    store.put_at("k", b"one", PutOptions::default(), 0).unwrap();
    store.put_at("k", b"two", PutOptions::default(), 0).unwrap();
    assert_eq!(store.get_at("k", 0).unwrap(), Some(b"two".to_vec()));
    let page = store
        .list_at(ListOptions { prefix: None, limit: None, cursor: Some("zzz".to_string()) }, 0)
        .unwrap();
    assert!(page.keys.is_empty());
    assert!(page.list_complete);
    let page = store.list_at(ListOptions { prefix: None, limit: Some(0), cursor: None }, 0).unwrap();
    assert!(page.keys.is_empty());
    assert!(!page.list_complete);
    assert!(page.cursor.is_none());
}

#[test]
fn kv_expiration_explicit_wins_and_errors_have_text() {
    let options = PutOptions { expiration: Some(5), expiration_ttl: Some(100), metadata: None };
    assert_eq!(options.expiration_at(1000), Some(5));
    let options = PutOptions { expiration: None, expiration_ttl: Some(u64::MAX), metadata: None };
    assert_eq!(options.expiration_at(10), Some(u64::MAX));
    assert_eq!(KVError::Storage("disk".to_string()).to_message(), "Storage error: disk");
    assert_eq!(KVError::NotFound.to_message(), "Key not found");
}

#[test]
fn read_hints_pick_how_values_come_back() {
    assert_eq!(value_kind(None), Some(ValueKind::Text));
    assert_eq!(value_kind(Some("text")), Some(ValueKind::Text));
    assert_eq!(value_kind(Some("json")), Some(ValueKind::Json));
    assert_eq!(value_kind(Some("arrayBuffer")), Some(ValueKind::Bytes));
    assert_eq!(value_kind(Some("stream")), None);
}
