//! The backing store: cosmwasm's in-memory byte store, whose contents the
//! library models as a map from address to value.
use vstd::prelude::*;

use cosmwasm_std::{MemoryStorage, Storage};

verus! {

#[verifier::external_type_specification]
#[verifier::external_body]
pub struct ExMemoryStorage(MemoryStorage);

/// What a store holds: each address that has a value, and that value.
pub uninterp spec fn stored(s: MemoryStorage) -> Map<Seq<u8>, Seq<u8>>;

/// The value at `addr` in `m`, if any.
pub open spec fn value_at(m: Map<Seq<u8>, Seq<u8>>, addr: Seq<u8>) -> Option<Seq<u8>> {
    if m.contains_key(addr) {
        Some(m[addr])
    } else {
        None
    }
}

/// The bytes that an optional byte vector holds.
pub open spec fn opt_bytes(o: Option<Vec<u8>>) -> Option<Seq<u8>> {
    match o {
        Some(v) => Some(v@),
        None => None,
    }
}

/// Relies on `Storage::get` of `MemoryStorage`: a copy of the value at the
/// key, or `None` where there is none.
#[verifier::external_body]
pub(crate) fn store_get(s: &MemoryStorage, key: &[u8]) -> (r: Option<Vec<u8>>)
    ensures
        opt_bytes(r) == value_at(stored(*s), key@),
{
    s.get(key)
}

/// Relies on `Storage::set` of `MemoryStorage`: the key now maps to the
/// value, nothing else changes. It panics on an empty value.
#[verifier::external_body]
pub(crate) fn store_set(s: &mut MemoryStorage, key: &[u8], value: &[u8])
    requires
        value@.len() > 0,
    ensures
        stored(*final(s)) == stored(*old(s)).insert(key@, value@),
{
    s.set(key, value)
}

/// Relies on `Storage::remove` of `MemoryStorage`: the key no longer has a
/// value, nothing else changes; removing a missing key does nothing.
#[verifier::external_body]
pub(crate) fn store_remove(s: &mut MemoryStorage, key: &[u8])
    ensures
        stored(*final(s)) == stored(*old(s)).remove(key@),
{
    s.remove(key)
}

} // verus!
