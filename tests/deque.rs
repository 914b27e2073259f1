use cosmwasm_std::testing::MockStorage;
use cosmwasm_std::Storage;
use secret_storage_plus::{AppendStore, DequeStore, StorageError};

#[test]
fn append_scenario_keeps_counting_positions() {
    let mut store = MockStorage::new();
    let seq = AppendStore::new("seq");
    assert_eq!(seq.len(&store), Ok(0));
    assert_eq!(seq.is_empty(&store), Ok(true));
    seq.push_back(&mut store, b"10").unwrap();
    seq.push_back(&mut store, b"20").unwrap();
    assert_eq!(seq.pop_front(&mut store), Ok(Some(b"10".to_vec())));
    assert_eq!(seq.values(&store, false), Ok(vec![b"20".to_vec()]));
    assert_eq!(seq.len(&store), Ok(1));
    assert_eq!(seq.get(&store, 0), Err(StorageError::NotFound));
    assert_eq!(seq.get(&store, 1), Ok(b"20".to_vec()));
    assert_eq!(seq.get(&store, 2), Err(StorageError::NotFound));
}

#[test]
fn append_store_layout() {
    let mut store = MockStorage::new();
    let seq = AppendStore::new("seq");
    seq.push_back(&mut store, b"a").unwrap();
    assert_eq!(store.get(b"seq\x00\x00\x00\x00"), Some(b"a".to_vec()));
    assert_eq!(store.get(b"seq_head"), Some(vec![0, 0, 0, 0]));
    assert_eq!(store.get(b"seq_tail"), Some(vec![0, 0, 0, 1]));
}

#[test]
fn pops_on_empty_give_none() {
    let mut store = MockStorage::new();
    let seq = AppendStore::new("seq");
    assert_eq!(seq.pop_front(&mut store), Ok(None));
    assert_eq!(seq.pop_back(&mut store), Ok(None));
    assert_eq!(seq.values(&store, false), Ok(vec![]));
}

#[test]
fn append_pop_back_and_values() {
    let mut store = MockStorage::new();
    let seq = AppendStore::new("seq");
    for v in [b"1", b"2", b"3"] {
        seq.push_back(&mut store, v).unwrap();
    }
    assert_eq!(
        seq.values(&store, true),
        Ok(vec![b"3".to_vec(), b"2".to_vec(), b"1".to_vec()])
    );
    assert_eq!(seq.pop_back(&mut store), Ok(Some(b"3".to_vec())));
    assert_eq!(seq.values(&store, false), Ok(vec![b"1".to_vec(), b"2".to_vec()]));
    assert_eq!(seq.push_back(&mut store, b""), Err(StorageError::EmptyValue));
}

#[test]
fn deque_grows_at_both_ends() {
    let mut store = MockStorage::new();
    let dq = DequeStore::new("dq");
    dq.push_back(&mut store, b"b").unwrap();
    dq.push_front(&mut store, b"a").unwrap();
    dq.push_back(&mut store, b"c").unwrap();
    assert_eq!(
        dq.values(&store, false),
        Ok(vec![b"a".to_vec(), b"b".to_vec(), b"c".to_vec()])
    );
    assert_eq!(dq.len(&store), Ok(3));
    assert_eq!(dq.get(&store, u32::MAX), Ok(b"a".to_vec()));
    assert_eq!(dq.get(&store, 0), Ok(b"b".to_vec()));
    assert_eq!(store.get(b"dq_head"), Some(vec![0xff, 0xff, 0xff, 0xff]));
    assert_eq!(dq.pop_front(&mut store), Ok(Some(b"a".to_vec())));
    assert_eq!(dq.pop_back(&mut store), Ok(Some(b"c".to_vec())));
    assert_eq!(dq.pop_back(&mut store), Ok(Some(b"b".to_vec())));
    assert_eq!(dq.pop_front(&mut store), Ok(None));
    assert_eq!(dq.is_empty(&store), Ok(true));
}

#[test]
fn full_sequence_refuses_pushes() {
    let mut store = MockStorage::new();
    let dq = DequeStore::new("dq");
    store.set(b"dq_head", &[0, 0, 0, 1]);
    store.set(b"dq_tail", &[0, 0, 0, 0]);
    assert_eq!(dq.len(&store), Ok(u32::MAX));
    assert_eq!(dq.push_back(&mut store, b"x"), Err(StorageError::Full));
    assert_eq!(dq.push_front(&mut store, b"x"), Err(StorageError::Full));
    assert_eq!(store.get(b"dq\x00\x00\x00\x00"), None);
}

#[test]
fn unreadable_index_cells_are_reported() {
    let mut store = MockStorage::new();
    let dq = DequeStore::new("dq");
    store.set(b"dq_head", &[1, 2, 3]);
    let err = StorageError::SegmentLengthMismatch { expected: 4, actual: 3 };
    assert_eq!(dq.len(&store), Err(err));
    assert_eq!(dq.push_back(&mut store, b"x"), Err(err));
    assert_eq!(dq.pop_front(&mut store), Err(err));
    assert_eq!(dq.get(&store, 0), Err(err));
    assert_eq!(dq.values(&store, false), Err(err));
}

#[test]
fn missing_entry_is_not_found() {
    let mut store = MockStorage::new();
    let dq = DequeStore::new("dq");
    dq.push_back(&mut store, b"a").unwrap();
    store.remove(b"dq\x00\x00\x00\x00");
    assert_eq!(dq.get(&store, 0), Err(StorageError::NotFound));
    assert_eq!(dq.values(&store, false), Err(StorageError::NotFound));
    assert_eq!(dq.pop_front(&mut store), Err(StorageError::NotFound));
}
