use cosmwasm_std::testing::MockStorage;
use cosmwasm_std::Storage;
use secret_storage_plus::{Bound, KeyedMap, Order, StorageError, UpdateError};

fn json_u64(v: u64) -> Vec<u8> {
    serde_json::to_vec(&v).unwrap()
}

fn read_u64(b: &[u8]) -> u64 {
    serde_json::from_slice(b).unwrap()
}

#[test]
fn single_segment_address_has_no_separator() {
    let people = KeyedMap::new("people");
    let path = people.key(b"john".to_vec());
    assert_eq!(path.as_slice(), b"peoplejohn");
    assert_eq!(path.as_slice().len(), 10);
    assert_eq!(people.namespace(), b"people");
}

#[test]
fn composite_address_prefixes_all_but_the_last() {
    let allowance = KeyedMap::new("allow");
    let path = allowance.key((b"owner".to_vec(), b"spender".to_vec()));
    let mut expected = vec![0u8, 5];
    expected.extend_from_slice(b"allow");
    expected.extend_from_slice(&[0, 5]);
    expected.extend_from_slice(b"owner");
    expected.extend_from_slice(b"spender");
    assert_eq!(path.as_slice(), expected.as_slice());
}

#[test]
fn triple_key_address() {
    let triple = KeyedMap::new("triple");
    let path = triple.key((b"john".to_vec(), 8u8, "pedro".to_string()));
    let key = path.as_slice();
    assert_eq!("triple".len() + "john".len() + 1 + "pedro".len() + 2 * 3, key.len());
    assert_eq!(&key[2..8], b"triple");
    assert_eq!(&key[10..14], b"john");
    assert_eq!(&key[16..17], &[8u8]);
    assert_eq!(&key[17..], b"pedro");
}

#[test]
fn namespaces_do_not_collide() {
    let a = KeyedMap::new("ns1");
    let b = KeyedMap::new("ns2");
    assert_ne!(a.key(b"k".to_vec()).as_slice(), b.key(b"k".to_vec()).as_slice());
    assert_ne!(
        a.key((b"x".to_vec(), b"k".to_vec())).as_slice(),
        b.key((b"x".to_vec(), b"k".to_vec())).as_slice()
    );
}

#[test]
fn composite_keys_do_not_collide_on_concatenation() {
    let mut store = MockStorage::new();
    let allowance = KeyedMap::new("allow");
    allowance.save(&mut store, (b"owner".to_vec(), b"spender".to_vec()), &json_u64(1234)).unwrap();
    assert_eq!(
        allowance.may_load(&store, (b"owners".to_vec(), b"pender".to_vec())),
        None
    );
    assert_eq!(
        read_u64(&allowance.load(&store, (b"owner".to_vec(), b"spender".to_vec())).unwrap()),
        1234
    );
}

#[test]
fn prefix_scan_returns_exactly_the_matching_keys() {
    let mut store = MockStorage::new();
    let allowance = KeyedMap::new("allow");
    let other = KeyedMap::new("allowx");
    allowance.save(&mut store, (b"owner".to_vec(), b"spender".to_vec()), &json_u64(1)).unwrap();
    allowance.save(&mut store, (b"owner".to_vec(), b"spender2".to_vec()), &json_u64(2)).unwrap();
    allowance.save(&mut store, (b"owners".to_vec(), b"pender".to_vec()), &json_u64(3)).unwrap();
    allowance.save(&mut store, (b"own".to_vec(), b"erspender".to_vec()), &json_u64(4)).unwrap();
    other.save(&mut store, (b"owner".to_vec(), b"spender".to_vec()), &json_u64(5)).unwrap();

    let found = allowance.prefix_range(&store, b"owner".to_vec(), Order::Ascending);
    let values: Vec<u64> = found.iter().map(|(_, v)| read_u64(v)).collect();
    assert_eq!(values, vec![1, 2]);
    assert_eq!(
        found[0].0,
        allowance.key((b"owner".to_vec(), b"spender".to_vec())).as_slice().to_vec()
    );

    let found = allowance.prefix_range(&store, b"owner".to_vec(), Order::Descending);
    let values: Vec<u64> = found.iter().map(|(_, v)| read_u64(v)).collect();
    assert_eq!(values, vec![2, 1]);

    let none = allowance.prefix_range(&store, b"nobody".to_vec(), Order::Ascending);
    assert!(none.is_empty());
}

#[test]
fn prefix_scan_with_trailing_ff_bytes() {
    let mut store = MockStorage::new();
    store.set(b"\x01\xff", b"a");
    store.set(b"\x01\xff\x00", b"b");
    store.set(b"\x02", b"c");
    store.set(b"\x01\xfe", b"d");
    let found = secret_storage_plus::range::prefix_range(&store, b"\x01\xff", Order::Ascending);
    let values: Vec<Vec<u8>> = found.into_iter().map(|(_, v)| v).collect();
    assert_eq!(values, vec![b"a".to_vec(), b"b".to_vec()]);
    store.set(b"\xff\xff\x01", b"e");
    let found = secret_storage_plus::range::prefix_range(&store, b"\xff", Order::Ascending);
    assert_eq!(found.len(), 1);
}

#[test]
fn save_load_has_remove() {
    let mut store = MockStorage::new();
    let people = KeyedMap::new("people");
    let john = people.key(b"john".to_vec());
    assert_eq!(john.may_load(&store), None);
    john.save(&mut store, b"{\"name\":\"John\",\"age\":32}").unwrap();
    assert_eq!(john.load(&store).unwrap(), b"{\"name\":\"John\",\"age\":32}".to_vec());
    assert_eq!(people.may_load(&store, b"jack".to_vec()), None);
    assert_eq!(people.load(&store, b"jack".to_vec()), Err(StorageError::NotFound));
    assert!(people.has(&store, b"john".to_vec()));

    people.save(&mut store, b"removed".to_vec(), b"x").unwrap();
    people.remove(&mut store, b"removed".to_vec());
    assert!(!people.has(&store, b"removed".to_vec()));
    people.remove(&mut store, b"removed".to_vec());

    store.set(people.key(b"random".to_vec()).as_slice(), b"random-data");
    assert!(people.has(&store, b"random".to_vec()));
    assert!(!people.has(&store, b"never-writen".to_vec()));

    john.remove(&mut store);
    assert_eq!(john.may_load(&store), None);
}

#[test]
fn empty_key_gives_bare_namespace() {
    let mut store = MockStorage::new();
    let m = KeyedMap::new("ns");
    m.save(&mut store, Vec::<u8>::new(), b"v").unwrap();
    assert_eq!(store.get(b"ns"), Some(b"v".to_vec()));
}

#[test]
fn map_update_on_missing_key_sees_none_and_persists() {
    let mut store = MockStorage::new();
    let allowance = KeyedMap::new("allow");
    let key = (b"owner".to_vec(), b"spender".to_vec());
    let add_ten = |a: Option<Vec<u8>>| -> Result<Vec<u8>, ()> {
        Ok(json_u64(a.map(|b| read_u64(&b)).unwrap_or_default() + 10))
    };
    allowance.update(&mut store, key.clone(), add_ten).unwrap();
    let twenty = allowance.update(&mut store, key.clone(), add_ten).unwrap();
    assert_eq!(read_u64(&twenty), 20);
    assert_eq!(read_u64(&allowance.load(&store, key).unwrap()), 20);
}

#[test]
fn map_update_failure_writes_nothing() {
    let mut store = MockStorage::new();
    let people = KeyedMap::new("people");
    let r = people.update(&mut store, b"jack".to_vec(), |_a: Option<Vec<u8>>| -> Result<Vec<u8>, u8> {
        Err(7)
    });
    assert_eq!(r, Err(UpdateError::Action(7)));
    assert!(!people.has(&store, b"jack".to_vec()));
    let r = people.update(&mut store, b"jack".to_vec(), |_a: Option<Vec<u8>>| -> Result<Vec<u8>, u8> {
        Ok(vec![])
    });
    assert_eq!(r, Err(UpdateError::Storage(StorageError::EmptyValue)));
    assert!(!people.has(&store, b"jack".to_vec()));
}

#[test]
fn integer_keys() {
    let mut store = MockStorage::new();
    let m = KeyedMap::new("n");
    m.save(&mut store, 5u32, b"five").unwrap();
    m.save(&mut store, -5i32, b"minus five").unwrap();
    assert_eq!(m.load(&store, 5u32).unwrap(), b"five".to_vec());
    assert_eq!(m.load(&store, -5i32).unwrap(), b"minus five".to_vec());
    assert_eq!(m.key(5u32).as_slice(), b"n\x00\x00\x00\x05");
}

#[test]
fn bounded_scans_within_a_prefix() {
    let mut store = MockStorage::new();
    let m = KeyedMap::new("allow");
    for (spender, v) in [("a", 1u64), ("b", 2), ("c", 3), ("d", 4)] {
        m.save(&mut store, (b"owner".to_vec(), spender.as_bytes().to_vec()), &json_u64(v)).unwrap();
    }
    m.save(&mut store, (b"other".to_vec(), b"b".to_vec()), &json_u64(9)).unwrap();
    let vals = |r: Vec<(Vec<u8>, Vec<u8>)>| -> Vec<u64> { r.iter().map(|(_, v)| read_u64(v)).collect() };
    let owner = || b"owner".to_vec();
    assert_eq!(
        vals(m.range(&store, owner(), Some(Bound::Inclusive(b"b".to_vec())), Some(Bound::Exclusive(b"d".to_vec())), Order::Ascending)),
        vec![2, 3]
    );
    assert_eq!(
        vals(m.range(&store, owner(), Some(Bound::Exclusive(b"b".to_vec())), Some(Bound::Inclusive(b"d".to_vec())), Order::Ascending)),
        vec![3, 4]
    );
    assert_eq!(
        vals(m.range(&store, owner(), None, Some(Bound::Inclusive(b"b".to_vec())), Order::Descending)),
        vec![2, 1]
    );
    assert_eq!(vals(m.range(&store, owner(), None, None, Order::Ascending)), vec![1, 2, 3, 4]);
    assert_eq!(
        vals(m.range(&store, owner(), Some(Bound::Exclusive(b"d".to_vec())), None, Order::Ascending)),
        Vec::<u64>::new()
    );
}
