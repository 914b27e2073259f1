//! A single value stored at a fixed address.
use vstd::prelude::*;
use vstd::utf8::encode_utf8;

use cosmwasm_std::MemoryStorage;

use crate::error::StorageError;
use crate::path::{update_outcome, Path, UpdateError};
use crate::store::{opt_bytes, stored, value_at};

verus! {

/// One value at one address: the key itself, with no length prefix.
pub struct Item {
    storage_key: Vec<u8>,
}

impl Item {
    /// The address of the value.
    pub closed spec fn addr(&self) -> Seq<u8> {
        self.storage_key@
    }

    /// The cell at the UTF-8 bytes of `storage_key`.
    pub fn new(storage_key: &str) -> (r: Item)
        ensures
            r.addr() == encode_utf8(storage_key@),
    {
        Item { storage_key: vstd::slice::slice_to_vec(storage_key.as_bytes()) }
    }

    fn path(&self) -> (r: Path)
        ensures
            r.addr() == self.addr(),
    {
        Path::from_address(vstd::slice::slice_to_vec(self.storage_key.as_slice()))
    }

    /// The address of the value.
    pub fn as_slice(&self) -> (r: &[u8])
        ensures
            r@ == self.addr(),
    {
        self.storage_key.as_slice()
    }

    /// Stores `data`; empty `data` is refused and nothing is written.
    pub fn save(&self, store: &mut MemoryStorage, data: &[u8]) -> (r: Result<(), StorageError>)
        ensures
            r is Ok <==> data@.len() > 0,
            r is Ok ==> stored(*final(store)) == stored(*old(store)).insert(self.addr(), data@),
            r is Err ==> r == Err::<(), StorageError>(StorageError::EmptyValue) && stored(
                *final(store),
            ) == stored(*old(store)),
    {
        self.path().save(store, data)
    }

    /// Deletes the value; removing a missing value is no error.
    pub fn remove(&self, store: &mut MemoryStorage)
        ensures
            stored(*final(store)) == stored(*old(store)).remove(self.addr()),
    {
        self.path().remove(store)
    }

    /// The stored value, or `NotFound`.
    pub fn load(&self, store: &MemoryStorage) -> (r: Result<Vec<u8>, StorageError>)
        ensures
            r is Ok <==> stored(*store).contains_key(self.addr()),
            r matches Ok(v) ==> v@ == stored(*store)[self.addr()],
            r is Err ==> r == Err::<Vec<u8>, StorageError>(StorageError::NotFound),
    {
        self.path().load(store)
    }

    /// The stored value, or `None` where there is none.
    pub fn may_load(&self, store: &MemoryStorage) -> (r: Option<Vec<u8>>)
        ensures
            opt_bytes(r) == value_at(stored(*store), self.addr()),
    {
        self.path().may_load(store)
    }

    /// Whether a value is stored.
    pub fn has(&self, store: &MemoryStorage) -> (r: bool)
        ensures
            r == stored(*store).contains_key(self.addr()),
    {
        self.path().has(store)
    }

    /// Loads the value, hands it to `action`, and stores and returns what it
    /// makes. Fails with `NotFound`, without calling `action`, when there is
    /// no value; nothing is written when `action` fails or makes an empty
    /// value.
    pub fn update<F, E>(&self, store: &mut MemoryStorage, action: F) -> (r: Result<
        Vec<u8>,
        UpdateError<E>,
    >) where F: FnOnce(Vec<u8>) -> Result<Vec<u8>, E>
        requires
            forall|input: Vec<u8>| call_requires(action, (input,)),
        ensures
            !stored(*old(store)).contains_key(self.addr()) ==> r == Err::<
                Vec<u8>,
                UpdateError<E>,
            >(UpdateError::Storage(StorageError::NotFound)) && stored(*final(store)) == stored(
                *old(store),
            ),
            stored(*old(store)).contains_key(self.addr()) ==> exists|
                input: Vec<u8>,
                out: Result<Vec<u8>, E>,
            |
                #[trigger] call_ensures(action, (input,), out) && input@ == stored(
                    *old(store),
                )[self.addr()] && update_outcome(
                    stored(*old(store)),
                    stored(*final(store)),
                    self.addr(),
                    out,
                    r,
                ),
    {
        self.path().update_existing(store, action)
    }
}

} // verus!
