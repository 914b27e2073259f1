//! Values indexed by typed, possibly composite, keys under one namespace.
use vstd::prelude::*;
use vstd::utf8::encode_utf8;

use cosmwasm_std::MemoryStorage;

use crate::address::{
    address, addressable, build_scan_prefix, lemma_composite_prefix_scan, prefixable, scan_prefix,
    PrimaryKey,
};
use crate::error::StorageError;
use crate::path::{update_outcome, Path, UpdateError};
use crate::range::{lists_prefixed, lists_within, prefix_range, range_within, Bound, Order};
use crate::store::{opt_bytes, stored, value_at};

verus! {

/// A keyed collection: each key's value lives at the key's address under the
/// namespace.
pub struct KeyedMap {
    namespace: Vec<u8>,
}

impl KeyedMap {
    /// The namespace bytes.
    pub closed spec fn ns(&self) -> Seq<u8> {
        self.namespace@
    }

    /// Whether the key's length-prefixed parts are short enough.
    pub open spec fn accepts<K: PrimaryKey>(&self, k: &K) -> bool {
        addressable(self.ns(), k.key_segments())
    }

    /// The address of the key's value.
    pub open spec fn key_addr<K: PrimaryKey>(&self, k: &K) -> Seq<u8> {
        address(self.ns(), k.key_segments())
    }

    /// The map under the UTF-8 bytes of `namespace`.
    pub fn new(namespace: &str) -> (r: KeyedMap)
        ensures
            r.ns() == encode_utf8(namespace@),
    {
        KeyedMap { namespace: vstd::slice::slice_to_vec(namespace.as_bytes()) }
    }

    /// The namespace bytes.
    pub fn namespace(&self) -> (r: &[u8])
        ensures
            r@ == self.ns(),
    {
        self.namespace.as_slice()
    }

    /// The path of the value of `k`; touches no store.
    pub fn key<K: PrimaryKey>(&self, k: K) -> (r: Path)
        requires
            self.accepts(&k),
        ensures
            r.addr() == self.key_addr(&k),
    {
        let segs = k.key();
        Path::new(self.namespace.as_slice(), &segs)
    }

    /// Stores `data` under `k`; empty `data` is refused and nothing is written.
    pub fn save<K: PrimaryKey>(&self, store: &mut MemoryStorage, k: K, data: &[u8]) -> (r: Result<
        (),
        StorageError,
    >)
        requires
            self.accepts(&k),
        ensures
            r is Ok <==> data@.len() > 0,
            r is Ok ==> stored(*final(store)) == stored(*old(store)).insert(
                self.key_addr(&k),
                data@,
            ),
            r is Err ==> r == Err::<(), StorageError>(StorageError::EmptyValue) && stored(
                *final(store),
            ) == stored(*old(store)),
    {
        self.key(k).save(store, data)
    }

    /// Deletes the value of `k`; removing a missing value is no error.
    pub fn remove<K: PrimaryKey>(&self, store: &mut MemoryStorage, k: K)
        requires
            self.accepts(&k),
        ensures
            stored(*final(store)) == stored(*old(store)).remove(self.key_addr(&k)),
    {
        self.key(k).remove(store)
    }

    /// The value of `k`, or `NotFound`.
    pub fn load<K: PrimaryKey>(&self, store: &MemoryStorage, k: K) -> (r: Result<
        Vec<u8>,
        StorageError,
    >)
        requires
            self.accepts(&k),
        ensures
            r is Ok <==> stored(*store).contains_key(self.key_addr(&k)),
            r matches Ok(v) ==> v@ == stored(*store)[self.key_addr(&k)],
            r is Err ==> r == Err::<Vec<u8>, StorageError>(StorageError::NotFound),
    {
        self.key(k).load(store)
    }

    /// The value of `k`, or `None` where there is none.
    pub fn may_load<K: PrimaryKey>(&self, store: &MemoryStorage, k: K) -> (r: Option<Vec<u8>>)
        requires
            self.accepts(&k),
        ensures
            opt_bytes(r) == value_at(stored(*store), self.key_addr(&k)),
    {
        self.key(k).may_load(store)
    }

    /// Whether any value, however it reads, is stored under `k`.
    pub fn has<K: PrimaryKey>(&self, store: &MemoryStorage, k: K) -> (r: bool)
        requires
            self.accepts(&k),
        ensures
            r == stored(*store).contains_key(self.key_addr(&k)),
    {
        self.key(k).has(store)
    }

    /// Hands the value of `k`, or `None`, to `action`, and stores and returns
    /// what it makes; nothing is written when `action` fails or makes an
    /// empty value.
    pub fn update<K: PrimaryKey, F, E>(&self, store: &mut MemoryStorage, k: K, action: F) -> (r:
        Result<Vec<u8>, UpdateError<E>>) where F: FnOnce(Option<Vec<u8>>) -> Result<Vec<u8>, E>
        requires
            self.accepts(&k),
            forall|input: Option<Vec<u8>>| call_requires(action, (input,)),
        ensures
            exists|input: Option<Vec<u8>>, out: Result<Vec<u8>, E>|
                #[trigger] call_ensures(action, (input,), out) && opt_bytes(input) == value_at(
                    stored(*old(store)),
                    self.key_addr(&k),
                ) && update_outcome(
                    stored(*old(store)),
                    stored(*final(store)),
                    self.key_addr(&k),
                    out,
                    r,
                ),
    {
        self.key(k).update(store, action)
    }

    /// The stored entries, as (address, value), of every key whose leading
    /// segments are those of `prefix`, in address order or its reverse.
    pub fn prefix_range<P: PrimaryKey>(&self, store: &MemoryStorage, prefix: P, order: Order) -> (r:
        Vec<(Vec<u8>, Vec<u8>)>)
        requires
            prefixable(seq![self.ns()] + prefix.key_segments()),
        ensures
            lists_prefixed(stored(*store), r@, scan_prefix(self.ns(), prefix.key_segments()), order),
    {
        let segs = prefix.key();
        let start = build_scan_prefix(self.namespace.as_slice(), &segs);
        prefix_range(store, start.as_slice(), order)
    }

    /// The stored entries, as (address, value), of every key whose leading
    /// segments are those of `prefix` and whose remaining bytes lie within
    /// `min` and `max`, in address order or its reverse.
    pub fn range<P: PrimaryKey>(
        &self,
        store: &MemoryStorage,
        prefix: P,
        min: Option<Bound>,
        max: Option<Bound>,
        order: Order,
    ) -> (r: Vec<(Vec<u8>, Vec<u8>)>)
        requires
            prefixable(seq![self.ns()] + prefix.key_segments()),
        ensures
            lists_within(
                stored(*store),
                r@,
                scan_prefix(self.ns(), prefix.key_segments()),
                min,
                max,
                order,
            ),
    {
        let segs = prefix.key();
        let start = build_scan_prefix(self.namespace.as_slice(), &segs);
        range_within(store, start.as_slice(), min, max, order)
    }
}

/// A scan by the first component `a` of two-part keys under `ns` lists the
/// entries of two stored keys `(a, b)` and `(a, b2)`, which have different
/// addresses, and no entry of a key `(a2, c)` whose first component differs.
pub proof fn lemma_scan_by_first_component(
    m: Map<Seq<u8>, Seq<u8>>,
    r: Seq<(Vec<u8>, Vec<u8>)>,
    order: Order,
    ns: Seq<u8>,
    a: Seq<u8>,
    b: Seq<u8>,
    b2: Seq<u8>,
    a2: Seq<u8>,
    c: Seq<u8>,
)
    requires
        lists_prefixed(m, r, scan_prefix(ns, seq![a]), order),
        m.contains_key(address(ns, seq![a, b])),
        m.contains_key(address(ns, seq![a, b2])),
        b != b2,
        a2 != a,
        ns.len() <= 0xffff,
        a.len() <= 0xffff,
        a2.len() <= 0xffff,
    ensures
        address(ns, seq![a, b]) != address(ns, seq![a, b2]),
        exists|i: int| 0 <= i < r.len() && r[i].0@ == address(ns, seq![a, b]),
        exists|i: int| 0 <= i < r.len() && r[i].0@ == address(ns, seq![a, b2]),
        forall|i: int| 0 <= i < r.len() ==> r[i].0@ != address(ns, seq![a2, c]),
{
    lemma_composite_prefix_scan(ns, a, b, b2, a2, c);
    let p = scan_prefix(ns, seq![a]);
    assert(p.is_prefix_of(address(ns, seq![a, b])));
    assert(p.is_prefix_of(address(ns, seq![a, b2])));
    assert forall|i: int| 0 <= i < r.len() implies r[i].0@ != address(ns, seq![a2, c]) by {
        assert(p.is_prefix_of(r[i].0@));
    }
}

} // verus!
