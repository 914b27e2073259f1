//! A resolved address, and the operations on the one value stored there.
use vstd::prelude::*;

use cosmwasm_std::MemoryStorage;

use crate::address::{address, addressable, build_address, segment_views};
use crate::error::StorageError;
use crate::store::{opt_bytes, store_get, store_remove, store_set, stored, value_at};

verus! {

/// Why an update did not store a new value.
#[derive(Debug, PartialEq, Eq)]
pub enum UpdateError<E> {
    /// Reading or writing the store failed.
    Storage(StorageError),
    /// The caller's action failed; its error is passed on unchanged.
    Action(E),
}

/// What an update leaves behind, given the store before (`m0`) and after
/// (`m1`), the action's result `out` and the update's result `r`: a
/// non-empty new value is stored at `addr` and returned; an empty one is
/// refused; a failed action is reported; only the first case writes.
pub open spec fn update_outcome<E>(
    m0: Map<Seq<u8>, Seq<u8>>,
    m1: Map<Seq<u8>, Seq<u8>>,
    addr: Seq<u8>,
    out: Result<Vec<u8>, E>,
    r: Result<Vec<u8>, UpdateError<E>>,
) -> bool {
    match out {
        Ok(v) => if v@.len() > 0 {
            r == Ok::<Vec<u8>, UpdateError<E>>(v) && m1 == m0.insert(addr, v@)
        } else {
            r == Err::<Vec<u8>, UpdateError<E>>(UpdateError::Storage(StorageError::EmptyValue))
                && m1 == m0
        },
        Err(e) => r == Err::<Vec<u8>, UpdateError<E>>(UpdateError::Action(e)) && m1 == m0,
    }
}

/// The fully resolved address of one key of one collection.
pub struct Path {
    storage_key: Vec<u8>,
}

impl Path {
    /// The address bytes.
    pub closed spec fn addr(&self) -> Seq<u8> {
        self.storage_key@
    }

    /// The path of the key with segments `keys` under `namespace`.
    pub fn new(namespace: &[u8], keys: &Vec<Vec<u8>>) -> (r: Path)
        requires
            addressable(namespace@, segment_views(keys@)),
        ensures
            r.addr() == address(namespace@, segment_views(keys@)),
    {
        Path { storage_key: build_address(namespace, keys) }
    }

    /// The path at exactly the address `addr`.
    pub fn from_address(addr: Vec<u8>) -> (r: Path)
        ensures
            r.addr() == addr@,
    {
        Path { storage_key: addr }
    }

    /// The address bytes.
    pub fn as_slice(&self) -> (r: &[u8])
        ensures
            r@ == self.addr(),
    {
        self.storage_key.as_slice()
    }

    /// Stores `data` at the address. The store holds no empty values, so
    /// empty `data` is refused and nothing is written.
    pub fn save(&self, store: &mut MemoryStorage, data: &[u8]) -> (r: Result<(), StorageError>)
        ensures
            r is Ok <==> data@.len() > 0,
            r is Ok ==> stored(*final(store)) == stored(*old(store)).insert(self.addr(), data@),
            r is Err ==> r == Err::<(), StorageError>(StorageError::EmptyValue) && stored(
                *final(store),
            ) == stored(*old(store)),
    {
        if data.len() == 0 {
            return Err(StorageError::EmptyValue);
        }
        store_set(store, self.storage_key.as_slice(), data);
        Ok(())
    }

    /// Deletes the value at the address; removing a missing value is no error.
    pub fn remove(&self, store: &mut MemoryStorage)
        ensures
            stored(*final(store)) == stored(*old(store)).remove(self.addr()),
    {
        store_remove(store, self.storage_key.as_slice())
    }

    /// The value at the address, or `NotFound`.
    pub fn load(&self, store: &MemoryStorage) -> (r: Result<Vec<u8>, StorageError>)
        ensures
            r is Ok <==> stored(*store).contains_key(self.addr()),
            r matches Ok(v) ==> v@ == stored(*store)[self.addr()],
            r is Err ==> r == Err::<Vec<u8>, StorageError>(StorageError::NotFound),
    {
        match store_get(store, self.storage_key.as_slice()) {
            Some(v) => Ok(v),
            None => Err(StorageError::NotFound),
        }
    }

    /// The value at the address, or `None` where there is none.
    pub fn may_load(&self, store: &MemoryStorage) -> (r: Option<Vec<u8>>)
        ensures
            opt_bytes(r) == value_at(stored(*store), self.addr()),
    {
        store_get(store, self.storage_key.as_slice())
    }

    /// Whether any value, however it reads, is stored at the address.
    pub fn has(&self, store: &MemoryStorage) -> (r: bool)
        ensures
            r == stored(*store).contains_key(self.addr()),
    {
        store_get(store, self.storage_key.as_slice()).is_some()
    }

    /// Hands the current value, or `None`, to `action`, and stores and
    /// returns what it makes. Nothing is written when `action` fails or
    /// makes an empty value.
    pub fn update<F, E>(&self, store: &mut MemoryStorage, action: F) -> (r: Result<
        Vec<u8>,
        UpdateError<E>,
    >) where F: FnOnce(Option<Vec<u8>>) -> Result<Vec<u8>, E>
        requires
            forall|input: Option<Vec<u8>>| call_requires(action, (input,)),
        ensures
            exists|input: Option<Vec<u8>>, out: Result<Vec<u8>, E>|
                #[trigger] call_ensures(action, (input,), out) && opt_bytes(input) == value_at(
                    stored(*old(store)),
                    self.addr(),
                ) && update_outcome(stored(*old(store)), stored(*final(store)), self.addr(), out, r),
    {
        let input = self.may_load(store);
        let ghost input_copy = input;
        let out = action(input);
        let r = match out {
            Ok(v) => match self.save(store, v.as_slice()) {
                Ok(()) => Ok(v),
                Err(e) => Err(UpdateError::Storage(e)),
            },
            Err(e) => Err(UpdateError::Action(e)),
        };
        assert(call_ensures(action, (input_copy,), out));
        r
    }

    /// Like `update`, for a value that must already be there: when there is
    /// none, fails with `NotFound` without calling `action` or writing.
    pub fn update_existing<F, E>(&self, store: &mut MemoryStorage, action: F) -> (r: Result<
        Vec<u8>,
        UpdateError<E>,
    >) where F: FnOnce(Vec<u8>) -> Result<Vec<u8>, E>
        requires
            forall|input: Vec<u8>| call_requires(action, (input,)),
        ensures
            !stored(*old(store)).contains_key(self.addr()) ==> r == Err::<
                Vec<u8>,
                UpdateError<E>,
            >(UpdateError::Storage(StorageError::NotFound)) && stored(*final(store)) == stored(
                *old(store),
            ),
            stored(*old(store)).contains_key(self.addr()) ==> exists|
                input: Vec<u8>,
                out: Result<Vec<u8>, E>,
            |
                #[trigger] call_ensures(action, (input,), out) && input@ == stored(
                    *old(store),
                )[self.addr()] && update_outcome(
                    stored(*old(store)),
                    stored(*final(store)),
                    self.addr(),
                    out,
                    r,
                ),
    {
        let input = match self.load(store) {
            Ok(v) => v,
            Err(e) => return Err(UpdateError::Storage(e)),
        };
        let ghost input_copy = input;
        let out = action(input);
        let r = match out {
            Ok(v) => match self.save(store, v.as_slice()) {
                Ok(()) => Ok(v),
                Err(e) => Err(UpdateError::Storage(e)),
            },
            Err(e) => Err(UpdateError::Action(e)),
        };
        assert(call_ensures(action, (input_copy,), out));
        r
    }
}

/// What the store operations leave at one address: after saving `data`
/// there, loading gives exactly `data`; after removing it, nothing is there;
/// and removing a second time changes nothing more.
pub proof fn lemma_save_load_remove(m: Map<Seq<u8>, Seq<u8>>, addr: Seq<u8>, data: Seq<u8>)
    ensures
        m.insert(addr, data).contains_key(addr),
        m.insert(addr, data)[addr] == data,
        value_at(m.insert(addr, data), addr) == Some(data),
        value_at(m.remove(addr), addr) == None::<Seq<u8>>,
        m.remove(addr).remove(addr) == m.remove(addr),
{
    assert(m.remove(addr).remove(addr) =~= m.remove(addr));
}

} // verus!
