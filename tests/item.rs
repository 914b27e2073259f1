use cosmwasm_std::testing::MockStorage;
use cosmwasm_std::Storage;
use secret_storage_plus::{Item, StorageError, UpdateError};

fn config_json(owner: &str, max_tokens: i32) -> Vec<u8> {
    let mut obj = serde_json::Map::new();
    obj.insert("owner".to_string(), serde_json::Value::String(owner.to_string()));
    obj.insert("max_tokens".to_string(), serde_json::Value::from(max_tokens));
    serde_json::to_vec(&serde_json::Value::Object(obj)).unwrap()
}

fn config_bincode(owner: &str, max_tokens: i32) -> Vec<u8> {
    bincode2::serialize(&(owner.to_string(), max_tokens)).unwrap()
}

#[test]
fn isolated_reads() {
    let mut store = MockStorage::new();
    let config = Item::new("config");
    let cfg = config_json("admin", 1234);
    config.save(&mut store, &cfg).unwrap();

    let reader = Item::new("config");
    assert_eq!(cfg, reader.load(&store).unwrap());

    let other_reader = Item::new("config2");
    assert_eq!(other_reader.may_load(&store), None);
}

#[test]
fn isolated_reads_bincode() {
    let mut store = MockStorage::new();
    let config = Item::new("config");
    let cfg = config_bincode("admin", 1234);
    config.save(&mut store, &cfg).unwrap();

    let reader = Item::new("config");
    assert_eq!(cfg, reader.load(&store).unwrap());
    let decoded: (String, i32) = bincode2::deserialize(&reader.load(&store).unwrap()).unwrap();
    assert_eq!(decoded, ("admin".to_string(), 1234));

    let other_reader = Item::new("config2");
    assert_eq!(other_reader.may_load(&store), None);
}

#[test]
fn item_address_is_the_key_itself() {
    let item = Item::new("config");
    assert_eq!(item.as_slice(), b"config");
    let mut store = MockStorage::new();
    item.save(&mut store, b"v").unwrap();
    assert_eq!(store.get(b"config"), Some(b"v".to_vec()));
}

#[test]
fn save_load_remove_round() {
    let mut store = MockStorage::new();
    let item = Item::new("config");
    assert_eq!(item.load(&store), Err(StorageError::NotFound));
    assert_eq!(item.may_load(&store), None);
    assert!(!item.has(&store));

    let cfg = config_json("admin", 1234);
    item.save(&mut store, &cfg).unwrap();
    assert_eq!(item.load(&store).unwrap(), cfg);
    assert!(item.has(&store));

    item.remove(&mut store);
    assert_eq!(item.may_load(&store), None);
    item.remove(&mut store);
    assert_eq!(item.may_load(&store), None);
    assert_eq!(item.load(&store), Err(StorageError::NotFound));
}

#[test]
fn empty_value_is_refused() {
    let mut store = MockStorage::new();
    let item = Item::new("config");
    assert_eq!(item.save(&mut store, b""), Err(StorageError::EmptyValue));
    assert!(!item.has(&store));
}

#[test]
fn update_on_missing_item_fails_without_writing() {
    let mut store = MockStorage::new();
    let item = Item::new("config");
    let mut called = false;
    let r = item.update(&mut store, |v: Vec<u8>| -> Result<Vec<u8>, ()> {
        called = true;
        Ok(v)
    });
    assert_eq!(r, Err(UpdateError::Storage(StorageError::NotFound)));
    assert!(!called);
    assert_eq!(item.may_load(&store), None);
}

#[test]
fn update_success_stores_new_value() {
    let mut store = MockStorage::new();
    let item = Item::new("config");
    item.save(&mut store, &config_json("admin", 1234)).unwrap();
    let out = item
        .update(&mut store, |v: Vec<u8>| -> Result<Vec<u8>, ()> {
            let mut val: serde_json::Value = serde_json::from_slice(&v).unwrap();
            let doubled = val["max_tokens"].as_i64().unwrap() * 2;
            val["max_tokens"] = serde_json::Value::from(doubled);
            Ok(serde_json::to_vec(&val).unwrap())
        })
        .unwrap();
    let val: serde_json::Value = serde_json::from_slice(&out).unwrap();
    assert_eq!(val["max_tokens"].as_i64(), Some(2468));
    assert_eq!(item.load(&store).unwrap(), out);
}

#[test]
fn update_error_leaves_data() {
    let mut store = MockStorage::new();
    let item = Item::new("config");
    let cfg = config_json("admin", 1234);
    item.save(&mut store, &cfg).unwrap();
    let r = item.update(&mut store, |_v: Vec<u8>| -> Result<Vec<u8>, String> {
        Err("broken stuff".to_string())
    });
    assert_eq!(r, Err(UpdateError::Action("broken stuff".to_string())));
    assert_eq!(item.load(&store).unwrap(), cfg);

    let r = item.update(&mut store, |_v: Vec<u8>| -> Result<Vec<u8>, String> { Ok(vec![]) });
    assert_eq!(r, Err(UpdateError::Storage(StorageError::EmptyValue)));
    assert_eq!(item.load(&store).unwrap(), cfg);
}
