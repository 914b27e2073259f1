//! Sequences over a namespace: entries at consecutive `u32` positions from a
//! head index up to a tail index, both kept in cells of their own. Positions
//! count modulo 2^32, so the head can move below zero; a sequence holds at
//! most `u32::MAX` entries, which keeps every live position distinct.
use vstd::prelude::*;
use vstd::utf8::encode_utf8;

use cosmwasm_std::MemoryStorage;

use crate::endian::{be_bytes, be_value, lemma_be_bytes_injective, lemma_be_round_trip};
use crate::address::{append_bytes, segment_views};
use crate::error::StorageError;
use crate::keys::{lemma_pow256_widths, KeySegment};
use crate::store::{store_get, store_remove, store_set, stored};

verus! {

broadcast use crate::endian::lemma_be_bytes_len;

/// Address of the entry at position `i`: the namespace, then `i` in four
/// big-endian bytes.
pub open spec fn entry_addr(ns: Seq<u8>, i: int) -> Seq<u8> {
    ns + be_bytes(i as nat, 4)
}

/// Address of the head index: the namespace, then `_head`.
pub open spec fn head_addr(ns: Seq<u8>) -> Seq<u8> {
    ns + seq![95u8, 104u8, 101u8, 97u8, 100u8]
}

/// Address of the tail index: the namespace, then `_tail`.
pub open spec fn tail_addr(ns: Seq<u8>) -> Seq<u8> {
    ns + seq![95u8, 116u8, 97u8, 105u8, 108u8]
}

/// An index cell's value: zero when absent, the four bytes read big-endian
/// when present, and no value when present with another length.
pub open spec fn counter(m: Map<Seq<u8>, Seq<u8>>, a: Seq<u8>) -> Option<int> {
    if !m.contains_key(a) {
        Some(0)
    } else if m[a].len() == 4 {
        Some(be_value(m[a]) as int)
    } else {
        None
    }
}

/// The head and tail indices, when both cells read.
pub open spec fn bounds_of(ns: Seq<u8>, m: Map<Seq<u8>, Seq<u8>>) -> Option<(int, int)> {
    match (counter(m, head_addr(ns)), counter(m, tail_addr(ns))) {
        (Some(h), Some(t)) => Some((h, t)),
        _ => None,
    }
}

/// The error that reading unreadable index cells gives: the head cell is
/// read first.
pub open spec fn counter_error(ns: Seq<u8>, m: Map<Seq<u8>, Seq<u8>>) -> StorageError {
    if counter(m, head_addr(ns)) is None {
        StorageError::SegmentLengthMismatch { expected: 4, actual: m[head_addr(ns)].len() as usize }
    } else {
        StorageError::SegmentLengthMismatch { expected: 4, actual: m[tail_addr(ns)].len() as usize }
    }
}

/// Number of positions from `h` up to `t`, counting modulo 2^32.
pub open spec fn span(h: int, t: int) -> int {
    if h <= t {
        t - h
    } else {
        t + 0x1_0000_0000 - h
    }
}

/// The position `j` steps after `h`, modulo 2^32.
pub open spec fn position(h: int, j: int) -> int {
    if h + j < 0x1_0000_0000 {
        h + j
    } else {
        h + j - 0x1_0000_0000
    }
}

/// The head index (meaningful when `bounds_of` has a value).
pub open spec fn head_of(ns: Seq<u8>, m: Map<Seq<u8>, Seq<u8>>) -> int {
    counter(m, head_addr(ns))->0
}

/// The tail index (meaningful when `bounds_of` has a value).
pub open spec fn tail_of(ns: Seq<u8>, m: Map<Seq<u8>, Seq<u8>>) -> int {
    counter(m, tail_addr(ns))->0
}

/// The entries from head to tail, in order.
pub open spec fn contents(ns: Seq<u8>, m: Map<Seq<u8>, Seq<u8>>) -> Seq<Seq<u8>> {
    Seq::new(
        span(head_of(ns, m), tail_of(ns, m)) as nat,
        |j: int| m[entry_addr(ns, position(head_of(ns, m), j))],
    )
}

/// Whether the index cells read and every position from head to tail holds
/// an entry.
pub open spec fn complete(ns: Seq<u8>, m: Map<Seq<u8>, Seq<u8>>) -> bool {
    &&& bounds_of(ns, m) is Some
    &&& forall|j: int|
        0 <= j < span(head_of(ns, m), tail_of(ns, m)) ==> m.contains_key(
            #[trigger] entry_addr(ns, position(head_of(ns, m), j)),
        )
}

/// The store after the index cells are set to `h` and `t`.
pub open spec fn with_bounds(ns: Seq<u8>, m: Map<Seq<u8>, Seq<u8>>, h: int, t: int) -> Map<
    Seq<u8>,
    Seq<u8>,
> {
    m.insert(head_addr(ns), be_bytes(h as nat, 4)).insert(tail_addr(ns), be_bytes(t as nat, 4))
}

/// What pushing `v` at the back does, given the store before and after.
pub open spec fn push_back_outcome(
    ns: Seq<u8>,
    m0: Map<Seq<u8>, Seq<u8>>,
    m1: Map<Seq<u8>, Seq<u8>>,
    v: Seq<u8>,
    r: Result<(), StorageError>,
) -> bool {
    match bounds_of(ns, m0) {
        None => r == Err::<(), StorageError>(counter_error(ns, m0)) && m1 == m0,
        Some((h, t)) => if v.len() == 0 {
            r == Err::<(), StorageError>(StorageError::EmptyValue) && m1 == m0
        } else if span(h, t) == 0xffff_ffff {
            r == Err::<(), StorageError>(StorageError::Full) && m1 == m0
        } else {
            r == Ok::<(), StorageError>(()) && m1 == with_bounds(
                ns,
                m0.insert(entry_addr(ns, t), v),
                h,
                position(t, 1),
            )
        },
    }
}

/// What pushing `v` at the front does, given the store before and after.
pub open spec fn push_front_outcome(
    ns: Seq<u8>,
    m0: Map<Seq<u8>, Seq<u8>>,
    m1: Map<Seq<u8>, Seq<u8>>,
    v: Seq<u8>,
    r: Result<(), StorageError>,
) -> bool {
    match bounds_of(ns, m0) {
        None => r == Err::<(), StorageError>(counter_error(ns, m0)) && m1 == m0,
        Some((h, t)) => if v.len() == 0 {
            r == Err::<(), StorageError>(StorageError::EmptyValue) && m1 == m0
        } else if span(h, t) == 0xffff_ffff {
            r == Err::<(), StorageError>(StorageError::Full) && m1 == m0
        } else {
            r == Ok::<(), StorageError>(()) && m1 == with_bounds(
                ns,
                m0.insert(entry_addr(ns, position(h, 0xffff_ffff)), v),
                position(h, 0xffff_ffff),
                t,
            )
        },
    }
}

/// What taking the entry at position `at` off one end does, given the store
/// before and after, where `h2` and `t2` are the indices that remain.
pub open spec fn pop_outcome(
    ns: Seq<u8>,
    m0: Map<Seq<u8>, Seq<u8>>,
    m1: Map<Seq<u8>, Seq<u8>>,
    at: int,
    h2: int,
    t2: int,
    r: Result<Option<Vec<u8>>, StorageError>,
) -> bool {
    if !m0.contains_key(entry_addr(ns, at)) {
        r == Err::<Option<Vec<u8>>, StorageError>(StorageError::NotFound) && m1 == m0
    } else {
        (r matches Ok(Some(v)) && v@ == m0[entry_addr(ns, at)]) && m1 == with_bounds(
            ns,
            m0.remove(entry_addr(ns, at)),
            h2,
            t2,
        )
    }
}

/// What popping the front entry does.
pub open spec fn pop_front_outcome(
    ns: Seq<u8>,
    m0: Map<Seq<u8>, Seq<u8>>,
    m1: Map<Seq<u8>, Seq<u8>>,
    r: Result<Option<Vec<u8>>, StorageError>,
) -> bool {
    match bounds_of(ns, m0) {
        None => r == Err::<Option<Vec<u8>>, StorageError>(counter_error(ns, m0)) && m1 == m0,
        Some((h, t)) => if span(h, t) == 0 {
            r == Ok::<Option<Vec<u8>>, StorageError>(None) && m1 == m0
        } else {
            pop_outcome(ns, m0, m1, h, position(h, 1), t, r)
        },
    }
}

/// What popping the back entry does.
pub open spec fn pop_back_outcome(
    ns: Seq<u8>,
    m0: Map<Seq<u8>, Seq<u8>>,
    m1: Map<Seq<u8>, Seq<u8>>,
    r: Result<Option<Vec<u8>>, StorageError>,
) -> bool {
    match bounds_of(ns, m0) {
        None => r == Err::<Option<Vec<u8>>, StorageError>(counter_error(ns, m0)) && m1 == m0,
        Some((h, t)) => if span(h, t) == 0 {
            r == Ok::<Option<Vec<u8>>, StorageError>(None) && m1 == m0
        } else {
            pop_outcome(
                ns,
                m0,
                m1,
                position(t, 0xffff_ffff),
                h,
                position(t, 0xffff_ffff),
                r,
            )
        },
    }
}

/// What reading position `i` gives: the entry when `i` lies from head to
/// tail and holds one, `NotFound` otherwise.
pub open spec fn get_outcome(
    ns: Seq<u8>,
    m: Map<Seq<u8>, Seq<u8>>,
    i: int,
    r: Result<Vec<u8>, StorageError>,
) -> bool {
    match bounds_of(ns, m) {
        None => r == Err::<Vec<u8>, StorageError>(counter_error(ns, m)),
        Some((h, t)) => if span(h, i) < span(h, t) && m.contains_key(entry_addr(ns, i)) {
            r matches Ok(v) && v@ == m[entry_addr(ns, i)]
        } else {
            r == Err::<Vec<u8>, StorageError>(StorageError::NotFound)
        },
    }
}

proof fn lemma_addrs_distinct(ns: Seq<u8>, i: int, k: int)
    requires
        0 <= i < 0x1_0000_0000,
        0 <= k < 0x1_0000_0000,
    ensures
        i != k ==> entry_addr(ns, i) != entry_addr(ns, k),
        entry_addr(ns, i) != head_addr(ns),
        entry_addr(ns, i) != tail_addr(ns),
        head_addr(ns) != tail_addr(ns),
{
    lemma_pow256_widths();
    assert(entry_addr(ns, i).len() == ns.len() + 4);
    assert(head_addr(ns).len() == ns.len() + 5);
    assert(tail_addr(ns).len() == ns.len() + 5);
    if i != k && entry_addr(ns, i) == entry_addr(ns, k) {
        assert(entry_addr(ns, i).subrange(ns.len() as int, ns.len() as int + 4) =~= be_bytes(i as nat, 4));
        assert(entry_addr(ns, k).subrange(ns.len() as int, ns.len() as int + 4) =~= be_bytes(k as nat, 4));
        lemma_be_bytes_injective(i as nat, k as nat, 4);
    }
    assert(head_addr(ns)[ns.len() as int + 1] != tail_addr(ns)[ns.len() as int + 1]);
}

/// Setting both index cells makes them read back as the values set.
proof fn lemma_with_bounds(ns: Seq<u8>, m: Map<Seq<u8>, Seq<u8>>, h: int, t: int)
    requires
        0 <= h < 0x1_0000_0000,
        0 <= t < 0x1_0000_0000,
    ensures
        bounds_of(ns, with_bounds(ns, m, h, t)) == Some((h, t)),
        forall|i: int|
            0 <= i < 0x1_0000_0000 ==> #[trigger] with_bounds(ns, m, h, t).contains_key(
                entry_addr(ns, i),
            ) == m.contains_key(entry_addr(ns, i)) && with_bounds(ns, m, h, t)[entry_addr(ns, i)]
                == m[entry_addr(ns, i)],
{
    lemma_pow256_widths();
    lemma_be_round_trip(h as nat, 4);
    lemma_be_round_trip(t as nat, 4);
    lemma_addrs_distinct(ns, 0, 0);
    assert forall|i: int| 0 <= i < 0x1_0000_0000 implies #[trigger] with_bounds(
        ns,
        m,
        h,
        t,
    ).contains_key(entry_addr(ns, i)) == m.contains_key(entry_addr(ns, i)) && with_bounds(
        ns,
        m,
        h,
        t,
    )[entry_addr(ns, i)] == m[entry_addr(ns, i)] by {
        lemma_addrs_distinct(ns, i, i);
    }
}

/// Index cells that read give indices below 2^32.
proof fn lemma_bounds_range(ns: Seq<u8>, m: Map<Seq<u8>, Seq<u8>>, h: int, t: int)
    requires
        bounds_of(ns, m) == Some((h, t)),
    ensures
        0 <= h < 0x1_0000_0000,
        0 <= t < 0x1_0000_0000,
{
    lemma_pow256_widths();
    if m.contains_key(head_addr(ns)) {
        crate::endian::lemma_be_value_bound(m[head_addr(ns)]);
    }
    if m.contains_key(tail_addr(ns)) {
        crate::endian::lemma_be_value_bound(m[tail_addr(ns)]);
    }
}

/// A complete sequence holds an entry at each of its positions.
proof fn lemma_complete_at(ns: Seq<u8>, m: Map<Seq<u8>, Seq<u8>>, h: int, t: int, j: int)
    requires
        bounds_of(ns, m) == Some((h, t)),
        complete(ns, m),
        0 <= j < span(h, t),
    ensures
        m.contains_key(entry_addr(ns, position(h, j))),
{
    assert(head_of(ns, m) == h && tail_of(ns, m) == t);
}

proof fn lemma_push_back(ns: Seq<u8>, m0: Map<Seq<u8>, Seq<u8>>, v: Seq<u8>, h: int, t: int)
    requires
        bounds_of(ns, m0) == Some((h, t)),
        span(h, t) < 0xffff_ffff,
        complete(ns, m0),
    ensures
        ({
            let m1 = with_bounds(ns, m0.insert(entry_addr(ns, t), v), h, position(t, 1));
            complete(ns, m1) && contents(ns, m1) == contents(ns, m0).push(v)
        }),
{
    lemma_bounds_range(ns, m0, h, t);
    let mi = m0.insert(entry_addr(ns, t), v);
    let m1 = with_bounds(ns, mi, h, position(t, 1));
    lemma_with_bounds(ns, mi, h, position(t, 1));
    assert forall|j: int| 0 <= j < span(h, position(t, 1)) implies m1.contains_key(
        #[trigger] entry_addr(ns, position(h, j)),
    ) by {
        lemma_addrs_distinct(ns, position(h, j), t);
        if j < span(h, t) {
            lemma_complete_at(ns, m0, h, t, j);
        }
    }
    assert(contents(ns, m1) =~= contents(ns, m0).push(v)) by {
        assert forall|j: int| 0 <= j < span(h, t) implies m1[entry_addr(ns, position(h, j))]
            == m0[entry_addr(ns, position(h, j))] by {
            lemma_addrs_distinct(ns, position(h, j), t);
        }
    }
}

proof fn lemma_push_front(ns: Seq<u8>, m0: Map<Seq<u8>, Seq<u8>>, v: Seq<u8>, h: int, t: int)
    requires
        bounds_of(ns, m0) == Some((h, t)),
        span(h, t) < 0xffff_ffff,
        complete(ns, m0),
    ensures
        ({
            let h2 = position(h, 0xffff_ffff);
            let m1 = with_bounds(ns, m0.insert(entry_addr(ns, h2), v), h2, t);
            complete(ns, m1) && contents(ns, m1) == seq![v] + contents(ns, m0)
        }),
{
    lemma_bounds_range(ns, m0, h, t);
    let h2 = position(h, 0xffff_ffff);
    let mi = m0.insert(entry_addr(ns, h2), v);
    let m1 = with_bounds(ns, mi, h2, t);
    lemma_with_bounds(ns, mi, h2, t);
    assert forall|j: int| 0 <= j < span(h2, t) implies m1.contains_key(
        #[trigger] entry_addr(ns, position(h2, j)),
    ) by {
        if j > 0 {
            assert(position(h2, j) == position(h, j - 1));
            lemma_addrs_distinct(ns, position(h, j - 1), h2);
            lemma_complete_at(ns, m0, h, t, j - 1);
        }
    }
    assert(contents(ns, m1) =~= seq![v] + contents(ns, m0)) by {
        assert forall|j: int| 0 < j < span(h2, t) implies m1[entry_addr(ns, position(h2, j))]
            == m0[entry_addr(ns, position(h, j - 1))] by {
            assert(position(h2, j) == position(h, j - 1));
            lemma_addrs_distinct(ns, position(h, j - 1), h2);
        }
    }
}

proof fn lemma_pop_front(ns: Seq<u8>, m0: Map<Seq<u8>, Seq<u8>>, h: int, t: int)
    requires
        bounds_of(ns, m0) == Some((h, t)),
        span(h, t) > 0,
        complete(ns, m0),
    ensures
        m0.contains_key(entry_addr(ns, h)),
        m0[entry_addr(ns, h)] == contents(ns, m0)[0],
        ({
            let m1 = with_bounds(ns, m0.remove(entry_addr(ns, h)), position(h, 1), t);
            complete(ns, m1) && contents(ns, m1) == contents(ns, m0).drop_first()
        }),
{
    lemma_bounds_range(ns, m0, h, t);
    let h2 = position(h, 1);
    let mi = m0.remove(entry_addr(ns, h));
    let m1 = with_bounds(ns, mi, h2, t);
    lemma_with_bounds(ns, mi, h2, t);
    assert(position(h, 0) == h);
    lemma_complete_at(ns, m0, h, t, 0);
    assert forall|j: int| 0 <= j < span(h2, t) implies m1.contains_key(
        #[trigger] entry_addr(ns, position(h2, j)),
    ) by {
        assert(position(h2, j) == position(h, j + 1));
        lemma_addrs_distinct(ns, position(h, j + 1), h);
        lemma_complete_at(ns, m0, h, t, j + 1);
    }
    assert(contents(ns, m1) =~= contents(ns, m0).drop_first()) by {
        assert forall|j: int| 0 <= j < span(h2, t) implies m1[entry_addr(ns, position(h2, j))]
            == m0[entry_addr(ns, position(h, j + 1))] by {
            assert(position(h2, j) == position(h, j + 1));
            lemma_addrs_distinct(ns, position(h, j + 1), h);
        }
    }
}

proof fn lemma_pop_back(ns: Seq<u8>, m0: Map<Seq<u8>, Seq<u8>>, h: int, t: int)
    requires
        bounds_of(ns, m0) == Some((h, t)),
        span(h, t) > 0,
        complete(ns, m0),
    ensures
        m0.contains_key(entry_addr(ns, position(t, 0xffff_ffff))),
        m0[entry_addr(ns, position(t, 0xffff_ffff))] == contents(ns, m0).last(),
        ({
            let t2 = position(t, 0xffff_ffff);
            let m1 = with_bounds(ns, m0.remove(entry_addr(ns, t2)), h, t2);
            complete(ns, m1) && contents(ns, m1) == contents(ns, m0).drop_last()
        }),
{
    lemma_bounds_range(ns, m0, h, t);
    let t2 = position(t, 0xffff_ffff);
    let mi = m0.remove(entry_addr(ns, t2));
    let m1 = with_bounds(ns, mi, h, t2);
    lemma_with_bounds(ns, mi, h, t2);
    assert(t2 == position(h, span(h, t) - 1));
    lemma_complete_at(ns, m0, h, t, span(h, t) - 1);
    assert forall|j: int| 0 <= j < span(h, t2) implies m1.contains_key(
        #[trigger] entry_addr(ns, position(h, j)),
    ) by {
        lemma_addrs_distinct(ns, position(h, j), t2);
        lemma_complete_at(ns, m0, h, t, j);
    }
    assert(contents(ns, m1) =~= contents(ns, m0).drop_last()) by {
        assert forall|j: int| 0 <= j < span(h, t2) implies m1[entry_addr(ns, position(h, j))]
            == m0[entry_addr(ns, position(h, j))] by {
            lemma_addrs_distinct(ns, position(h, j), t2);
        }
    }
}

fn entry_address(ns: &[u8], i: u32) -> (r: Vec<u8>)
    ensures
        r@ == entry_addr(ns@, i as int),
{
    let mut out: Vec<u8> = Vec::new();
    append_bytes(&mut out, ns);
    let idx = i.to_segment();
    append_bytes(&mut out, idx.as_slice());
    assert(out@ =~= entry_addr(ns@, i as int));
    out
}

fn head_address(ns: &[u8]) -> (r: Vec<u8>)
    ensures
        r@ == head_addr(ns@),
{
    let mut out: Vec<u8> = Vec::new();
    append_bytes(&mut out, ns);
    out.push(95u8);
    out.push(104u8);
    out.push(101u8);
    out.push(97u8);
    out.push(100u8);
    assert(out@ =~= head_addr(ns@));
    out
}

fn tail_address(ns: &[u8]) -> (r: Vec<u8>)
    ensures
        r@ == tail_addr(ns@),
{
    let mut out: Vec<u8> = Vec::new();
    append_bytes(&mut out, ns);
    out.push(95u8);
    out.push(116u8);
    out.push(97u8);
    out.push(105u8);
    out.push(108u8);
    assert(out@ =~= tail_addr(ns@));
    out
}

/// Reads an index cell: zero when absent.
fn read_counter(store: &MemoryStorage, addr: &[u8]) -> (r: Result<u32, StorageError>)
    ensures
        counter(stored(*store), addr@) matches Some(v) ==> r == Ok::<u32, StorageError>(v as u32)
            && 0 <= v < 0x1_0000_0000,
        counter(stored(*store), addr@) is None ==> r == Err::<u32, StorageError>(
            StorageError::SegmentLengthMismatch {
                expected: 4,
                actual: stored(*store)[addr@].len() as usize,
            },
        ),
{
    match store_get(store, addr) {
        None => Ok(0),
        Some(b) => {
            let r = u32::from_segment(b.as_slice());
            proof {
                lemma_pow256_widths();
                if let Ok(v) = r {
                    lemma_be_round_trip(v as nat, 4);
                }
            }
            r
        },
    }
}

/// Reads the head and tail indices.
fn read_bounds(ns: &[u8], store: &MemoryStorage) -> (r: Result<(u32, u32), StorageError>)
    ensures
        bounds_of(ns@, stored(*store)) matches Some((h, t)) ==> r == Ok::<
            (u32, u32),
            StorageError,
        >((h as u32, t as u32)) && 0 <= h < 0x1_0000_0000 && 0 <= t < 0x1_0000_0000,
        bounds_of(ns@, stored(*store)) is None ==> r == Err::<(u32, u32), StorageError>(
            counter_error(ns@, stored(*store)),
        ),
{
    let h = match read_counter(store, head_address(ns).as_slice()) {
        Ok(h) => h,
        Err(e) => return Err(e),
    };
    let t = match read_counter(store, tail_address(ns).as_slice()) {
        Ok(t) => t,
        Err(e) => return Err(e),
    };
    Ok((h, t))
}

/// Sets both index cells.
fn write_bounds(ns: &[u8], store: &mut MemoryStorage, h: u32, t: u32)
    ensures
        stored(*final(store)) == with_bounds(ns@, stored(*old(store)), h as int, t as int),
{
    let hb = h.to_segment();
    let tb = t.to_segment();
    store_set(store, head_address(ns).as_slice(), hb.as_slice());
    store_set(store, tail_address(ns).as_slice(), tb.as_slice());
}

/// Number of positions from `h` up to `t`, modulo 2^32.
fn span_of(h: u32, t: u32) -> (r: u32)
    ensures
        r as int == span(h as int, t as int),
{
    if h <= t {
        t - h
    } else {
        (u32::MAX - h) + t + 1
    }
}

/// The position after `i`, modulo 2^32.
fn next_position(i: u32) -> (r: u32)
    ensures
        r as int == position(i as int, 1),
{
    if i == u32::MAX {
        0
    } else {
        i + 1
    }
}

/// The position before `i`, modulo 2^32.
fn prev_position(i: u32) -> (r: u32)
    ensures
        r as int == position(i as int, 0xffff_ffff),
{
    if i == 0 {
        u32::MAX
    } else {
        i - 1
    }
}

fn push_back_in(ns: &[u8], store: &mut MemoryStorage, data: &[u8]) -> (r: Result<
    (),
    StorageError,
>)
    ensures
        push_back_outcome(ns@, stored(*old(store)), stored(*final(store)), data@, r),
        r is Ok && complete(ns@, stored(*old(store))) ==> complete(ns@, stored(*final(store)))
            && contents(ns@, stored(*final(store))) == contents(ns@, stored(*old(store))).push(
            data@,
        ),
{
    let ghost m0 = stored(*store);
    let (h, t) = match read_bounds(ns, store) {
        Ok(b) => b,
        Err(e) => return Err(e),
    };
    if data.len() == 0 {
        return Err(StorageError::EmptyValue);
    }
    if span_of(h, t) == u32::MAX {
        return Err(StorageError::Full);
    }
    store_set(store, entry_address(ns, t).as_slice(), data);
    write_bounds(ns, store, h, next_position(t));
    proof {
        if complete(ns@, m0) {
            lemma_push_back(ns@, m0, data@, h as int, t as int);
        }
    }
    Ok(())
}

fn push_front_in(ns: &[u8], store: &mut MemoryStorage, data: &[u8]) -> (r: Result<
    (),
    StorageError,
>)
    ensures
        push_front_outcome(ns@, stored(*old(store)), stored(*final(store)), data@, r),
        r is Ok && complete(ns@, stored(*old(store))) ==> complete(ns@, stored(*final(store)))
            && contents(ns@, stored(*final(store))) == seq![data@] + contents(
            ns@,
            stored(*old(store)),
        ),
{
    let ghost m0 = stored(*store);
    let (h, t) = match read_bounds(ns, store) {
        Ok(b) => b,
        Err(e) => return Err(e),
    };
    if data.len() == 0 {
        return Err(StorageError::EmptyValue);
    }
    if span_of(h, t) == u32::MAX {
        return Err(StorageError::Full);
    }
    let h2 = prev_position(h);
    store_set(store, entry_address(ns, h2).as_slice(), data);
    write_bounds(ns, store, h2, t);
    proof {
        if complete(ns@, m0) {
            lemma_push_front(ns@, m0, data@, h as int, t as int);
        }
    }
    Ok(())
}

/// Takes the entry at position `at` and moves the indices to `h2` and `t2`.
fn take_entry(ns: &[u8], store: &mut MemoryStorage, at: u32, h2: u32, t2: u32) -> (r: Result<
    Option<Vec<u8>>,
    StorageError,
>)
    ensures
        pop_outcome(
            ns@,
            stored(*old(store)),
            stored(*final(store)),
            at as int,
            h2 as int,
            t2 as int,
            r,
        ),
{
    let addr = entry_address(ns, at);
    let v = match store_get(store, addr.as_slice()) {
        Some(v) => v,
        None => return Err(StorageError::NotFound),
    };
    store_remove(store, addr.as_slice());
    write_bounds(ns, store, h2, t2);
    Ok(Some(v))
}

fn pop_front_in(ns: &[u8], store: &mut MemoryStorage) -> (r: Result<
    Option<Vec<u8>>,
    StorageError,
>)
    ensures
        pop_front_outcome(ns@, stored(*old(store)), stored(*final(store)), r),
        complete(ns@, stored(*old(store))) ==> complete(ns@, stored(*final(store))) && (if contents(
            ns@,
            stored(*old(store)),
        ).len() == 0 {
            r == Ok::<Option<Vec<u8>>, StorageError>(None)
        } else {
            (r matches Ok(Some(v)) && v@ == contents(ns@, stored(*old(store)))[0]) && contents(
                ns@,
                stored(*final(store)),
            ) == contents(ns@, stored(*old(store))).drop_first()
        }),
{
    let ghost m0 = stored(*store);
    let (h, t) = match read_bounds(ns, store) {
        Ok(b) => b,
        Err(e) => return Err(e),
    };
    if h == t {
        return Ok(None);
    }
    proof {
        if complete(ns@, m0) {
            lemma_pop_front(ns@, m0, h as int, t as int);
        }
    }
    take_entry(ns, store, h, next_position(h), t)
}

fn pop_back_in(ns: &[u8], store: &mut MemoryStorage) -> (r: Result<
    Option<Vec<u8>>,
    StorageError,
>)
    ensures
        pop_back_outcome(ns@, stored(*old(store)), stored(*final(store)), r),
        complete(ns@, stored(*old(store))) ==> complete(ns@, stored(*final(store))) && (if contents(
            ns@,
            stored(*old(store)),
        ).len() == 0 {
            r == Ok::<Option<Vec<u8>>, StorageError>(None)
        } else {
            (r matches Ok(Some(v)) && v@ == contents(ns@, stored(*old(store))).last()) && contents(
                ns@,
                stored(*final(store)),
            ) == contents(ns@, stored(*old(store))).drop_last()
        }),
{
    let ghost m0 = stored(*store);
    let (h, t) = match read_bounds(ns, store) {
        Ok(b) => b,
        Err(e) => return Err(e),
    };
    if h == t {
        return Ok(None);
    }
    let t2 = prev_position(t);
    proof {
        if complete(ns@, m0) {
            lemma_pop_back(ns@, m0, h as int, t as int);
        }
    }
    take_entry(ns, store, t2, h, t2)
}

fn get_in(ns: &[u8], store: &MemoryStorage, index: u32) -> (r: Result<Vec<u8>, StorageError>)
    ensures
        get_outcome(ns@, stored(*store), index as int, r),
{
    let (h, t) = match read_bounds(ns, store) {
        Ok(b) => b,
        Err(e) => return Err(e),
    };
    if span_of(h, index) >= span_of(h, t) {
        return Err(StorageError::NotFound);
    }
    match store_get(store, entry_address(ns, index).as_slice()) {
        Some(v) => Ok(v),
        None => Err(StorageError::NotFound),
    }
}

fn len_in(ns: &[u8], store: &MemoryStorage) -> (r: Result<u32, StorageError>)
    ensures
        bounds_of(ns@, stored(*store)) is Some ==> contents(ns@, stored(*store)).len() <= u32::MAX,
        bounds_of(ns@, stored(*store)) is Some ==> r == Ok::<u32, StorageError>(
            contents(ns@, stored(*store)).len() as u32,
        ),
        bounds_of(ns@, stored(*store)) is None ==> r == Err::<u32, StorageError>(
            counter_error(ns@, stored(*store)),
        ),
{
    let (h, t) = match read_bounds(ns, store) {
        Ok(b) => b,
        Err(e) => return Err(e),
    };
    Ok(span_of(h, t))
}

fn values_in(ns: &[u8], store: &MemoryStorage, descending: bool) -> (r: Result<
    Vec<Vec<u8>>,
    StorageError,
>)
    ensures
        bounds_of(ns@, stored(*store)) is None ==> r == Err::<Vec<Vec<u8>>, StorageError>(
            counter_error(ns@, stored(*store)),
        ),
        bounds_of(ns@, stored(*store)) is Some && !complete(ns@, stored(*store)) ==> r == Err::<
            Vec<Vec<u8>>,
            StorageError,
        >(StorageError::NotFound),
        complete(ns@, stored(*store)) ==> (r matches Ok(vs) && segment_views(vs@) == (if descending {
            contents(ns@, stored(*store)).reverse()
        } else {
            contents(ns@, stored(*store))
        })),
{
    let ghost m = stored(*store);
    let (h, t) = match read_bounds(ns, store) {
        Ok(b) => b,
        Err(e) => return Err(e),
    };
    let n = span_of(h, t);
    let ghost all = contents(ns@, m);
    let mut out: Vec<Vec<u8>> = Vec::new();
    let mut j: u32 = 0;
    while j < n
        invariant
            j <= n,
            n as int == span(h as int, t as int),
            bounds_of(ns@, m) == Some((h as int, t as int)),
            m == stored(*store),
            all == contents(ns@, m),
            forall|k: int|
                (if descending {
                    n - j <= k < n
                } else {
                    0 <= k < j
                }) ==> m.contains_key(#[trigger] entry_addr(ns@, position(h as int, k))),
            segment_views(out@) == (if descending {
                all.subrange(n - j, n as int).reverse()
            } else {
                all.subrange(0, j as int)
            }),
        decreases n - j,
    {
        let k: u32 = if descending { n - 1 - j } else { j };
        let at: u32 = if h as u64 + k as u64 <= u32::MAX as u64 {
            h + k
        } else {
            (h as u64 + k as u64 - 0x1_0000_0000u64) as u32
        };
        assert(at as int == position(h as int, k as int));
        let v = match store_get(store, entry_address(ns, at).as_slice()) {
            Some(v) => v,
            None => {
                proof {
                    assert(!complete(ns@, m)) by {
                        if complete(ns@, m) {
                            lemma_complete_at(ns@, m, h as int, t as int, k as int);
                        }
                    }
                }
                return Err(StorageError::NotFound);
            },
        };
        let ghost before = out@;
        out.push(v);
        proof {
            assert(head_of(ns@, m) == h as int);
            assert(v@ == all[k as int]);
            assert(segment_views(out@) =~= segment_views(before).push(v@));
            if descending {
                assert(segment_views(out@) =~= all.subrange(n - j - 1, n as int).reverse());
            } else {
                assert(segment_views(out@) =~= all.subrange(0, j + 1));
            }
        }
        j = j + 1;
    }
    proof {
        assert(all.subrange(0, n as int) =~= all);
        assert(all.subrange(n - n, n as int) =~= all);
        if !complete(ns@, m) {
            assert(false);
        }
    }
    Ok(out)
}

/// A sequence that grows at the tail and shrinks at either end.
pub struct AppendStore {
    namespace: Vec<u8>,
}

impl AppendStore {
    /// The namespace bytes.
    pub closed spec fn ns(&self) -> Seq<u8> {
        self.namespace@
    }

    /// The store under the UTF-8 bytes of `namespace`.
    pub fn new(namespace: &str) -> (r: Self)
        ensures
            r.ns() == encode_utf8(namespace@),
    {
        Self { namespace: vstd::slice::slice_to_vec(namespace.as_bytes()) }
    }

    /// Number of entries.
    pub fn len(&self, store: &MemoryStorage) -> (r: Result<u32, StorageError>)
        ensures
            bounds_of(self.ns(), stored(*store)) is Some ==> r == Ok::<u32, StorageError>(
                contents(self.ns(), stored(*store)).len() as u32,
            ),
            bounds_of(self.ns(), stored(*store)) is None ==> r == Err::<u32, StorageError>(
                counter_error(self.ns(), stored(*store)),
            ),
    {
        len_in(self.namespace.as_slice(), store)
    }

    /// Whether there are no entries.
    pub fn is_empty(&self, store: &MemoryStorage) -> (r: Result<bool, StorageError>)
        ensures
            bounds_of(self.ns(), stored(*store)) is Some ==> r == Ok::<bool, StorageError>(
                contents(self.ns(), stored(*store)).len() == 0,
            ),
            bounds_of(self.ns(), stored(*store)) is None ==> r == Err::<bool, StorageError>(
                counter_error(self.ns(), stored(*store)),
            ),
    {
        match len_in(self.namespace.as_slice(), store) {
            Ok(n) => Ok(n == 0),
            Err(e) => Err(e),
        }
    }

    /// Appends `data` at the tail.
    pub fn push_back(&self, store: &mut MemoryStorage, data: &[u8]) -> (r: Result<(), StorageError>)
        ensures
            push_back_outcome(self.ns(), stored(*old(store)), stored(*final(store)), data@, r),
            r is Ok && complete(self.ns(), stored(*old(store))) ==> complete(
                self.ns(),
                stored(*final(store)),
            ) && contents(self.ns(), stored(*final(store))) == contents(
                self.ns(),
                stored(*old(store)),
            ).push(data@),
    {
        push_back_in(self.namespace.as_slice(), store, data)
    }

    /// Removes and returns the head entry; `None` when empty.
    pub fn pop_front(&self, store: &mut MemoryStorage) -> (r: Result<Option<Vec<u8>>, StorageError>)
        ensures
            pop_front_outcome(self.ns(), stored(*old(store)), stored(*final(store)), r),
            complete(self.ns(), stored(*old(store))) ==> complete(self.ns(), stored(*final(store)))
                && (if contents(self.ns(), stored(*old(store))).len() == 0 {
                r == Ok::<Option<Vec<u8>>, StorageError>(None)
            } else {
                (r matches Ok(Some(v)) && v@ == contents(self.ns(), stored(*old(store)))[0])
                    && contents(self.ns(), stored(*final(store))) == contents(
                    self.ns(),
                    stored(*old(store)),
                ).drop_first()
            }),
    {
        pop_front_in(self.namespace.as_slice(), store)
    }

    /// Removes and returns the tail entry; `None` when empty.
    pub fn pop_back(&self, store: &mut MemoryStorage) -> (r: Result<Option<Vec<u8>>, StorageError>)
        ensures
            pop_back_outcome(self.ns(), stored(*old(store)), stored(*final(store)), r),
            complete(self.ns(), stored(*old(store))) ==> complete(self.ns(), stored(*final(store)))
                && (if contents(self.ns(), stored(*old(store))).len() == 0 {
                r == Ok::<Option<Vec<u8>>, StorageError>(None)
            } else {
                (r matches Ok(Some(v)) && v@ == contents(self.ns(), stored(*old(store))).last())
                    && contents(self.ns(), stored(*final(store))) == contents(
                    self.ns(),
                    stored(*old(store)),
                ).drop_last()
            }),
    {
        pop_back_in(self.namespace.as_slice(), store)
    }

    /// The entry at position `index`, counted in the store's own positions
    /// (which keep counting after entries leave the head); `NotFound` outside
    /// head to tail.
    pub fn get(&self, store: &MemoryStorage, index: u32) -> (r: Result<Vec<u8>, StorageError>)
        ensures
            get_outcome(self.ns(), stored(*store), index as int, r),
    {
        get_in(self.namespace.as_slice(), store, index)
    }

    /// All entries from head to tail, or from tail to head when `descending`.
    pub fn values(&self, store: &MemoryStorage, descending: bool) -> (r: Result<
        Vec<Vec<u8>>,
        StorageError,
    >)
        ensures
            bounds_of(self.ns(), stored(*store)) is None ==> r == Err::<
                Vec<Vec<u8>>,
                StorageError,
            >(counter_error(self.ns(), stored(*store))),
            bounds_of(self.ns(), stored(*store)) is Some && !complete(self.ns(), stored(*store))
                ==> r == Err::<Vec<Vec<u8>>, StorageError>(StorageError::NotFound),
            complete(self.ns(), stored(*store)) ==> (r matches Ok(vs) && segment_views(vs@) == (
            if descending {
                contents(self.ns(), stored(*store)).reverse()
            } else {
                contents(self.ns(), stored(*store))
            })),
    {
        values_in(self.namespace.as_slice(), store, descending)
    }
}

/// A sequence that grows and shrinks at both ends.
pub struct DequeStore {
    namespace: Vec<u8>,
}

impl DequeStore {
    /// The namespace bytes.
    pub closed spec fn ns(&self) -> Seq<u8> {
        self.namespace@
    }

    /// The store under the UTF-8 bytes of `namespace`.
    pub fn new(namespace: &str) -> (r: Self)
        ensures
            r.ns() == encode_utf8(namespace@),
    {
        Self { namespace: vstd::slice::slice_to_vec(namespace.as_bytes()) }
    }

    /// Number of entries.
    pub fn len(&self, store: &MemoryStorage) -> (r: Result<u32, StorageError>)
        ensures
            bounds_of(self.ns(), stored(*store)) is Some ==> r == Ok::<u32, StorageError>(
                contents(self.ns(), stored(*store)).len() as u32,
            ),
            bounds_of(self.ns(), stored(*store)) is None ==> r == Err::<u32, StorageError>(
                counter_error(self.ns(), stored(*store)),
            ),
    {
        len_in(self.namespace.as_slice(), store)
    }

    /// Whether there are no entries.
    pub fn is_empty(&self, store: &MemoryStorage) -> (r: Result<bool, StorageError>)
        ensures
            bounds_of(self.ns(), stored(*store)) is Some ==> r == Ok::<bool, StorageError>(
                contents(self.ns(), stored(*store)).len() == 0,
            ),
            bounds_of(self.ns(), stored(*store)) is None ==> r == Err::<bool, StorageError>(
                counter_error(self.ns(), stored(*store)),
            ),
    {
        match len_in(self.namespace.as_slice(), store) {
            Ok(n) => Ok(n == 0),
            Err(e) => Err(e),
        }
    }

    /// Appends `data` at the tail.
    pub fn push_back(&self, store: &mut MemoryStorage, data: &[u8]) -> (r: Result<(), StorageError>)
        ensures
            push_back_outcome(self.ns(), stored(*old(store)), stored(*final(store)), data@, r),
            r is Ok && complete(self.ns(), stored(*old(store))) ==> complete(
                self.ns(),
                stored(*final(store)),
            ) && contents(self.ns(), stored(*final(store))) == contents(
                self.ns(),
                stored(*old(store)),
            ).push(data@),
    {
        push_back_in(self.namespace.as_slice(), store, data)
    }

    /// Puts `data` before the head.
    pub fn push_front(&self, store: &mut MemoryStorage, data: &[u8]) -> (r: Result<(), StorageError>)
        ensures
            push_front_outcome(self.ns(), stored(*old(store)), stored(*final(store)), data@, r),
            r is Ok && complete(self.ns(), stored(*old(store))) ==> complete(
                self.ns(),
                stored(*final(store)),
            ) && contents(self.ns(), stored(*final(store))) == seq![data@] + contents(
                self.ns(),
                stored(*old(store)),
            ),
    {
        push_front_in(self.namespace.as_slice(), store, data)
    }

    /// Removes and returns the head entry; `None` when empty.
    pub fn pop_front(&self, store: &mut MemoryStorage) -> (r: Result<Option<Vec<u8>>, StorageError>)
        ensures
            pop_front_outcome(self.ns(), stored(*old(store)), stored(*final(store)), r),
            complete(self.ns(), stored(*old(store))) ==> complete(self.ns(), stored(*final(store)))
                && (if contents(self.ns(), stored(*old(store))).len() == 0 {
                r == Ok::<Option<Vec<u8>>, StorageError>(None)
            } else {
                (r matches Ok(Some(v)) && v@ == contents(self.ns(), stored(*old(store)))[0])
                    && contents(self.ns(), stored(*final(store))) == contents(
                    self.ns(),
                    stored(*old(store)),
                ).drop_first()
            }),
    {
        pop_front_in(self.namespace.as_slice(), store)
    }

    /// Removes and returns the tail entry; `None` when empty.
    pub fn pop_back(&self, store: &mut MemoryStorage) -> (r: Result<Option<Vec<u8>>, StorageError>)
        ensures
            pop_back_outcome(self.ns(), stored(*old(store)), stored(*final(store)), r),
            complete(self.ns(), stored(*old(store))) ==> complete(self.ns(), stored(*final(store)))
                && (if contents(self.ns(), stored(*old(store))).len() == 0 {
                r == Ok::<Option<Vec<u8>>, StorageError>(None)
            } else {
                (r matches Ok(Some(v)) && v@ == contents(self.ns(), stored(*old(store))).last())
                    && contents(self.ns(), stored(*final(store))) == contents(
                    self.ns(),
                    stored(*old(store)),
                ).drop_last()
            }),
    {
        pop_back_in(self.namespace.as_slice(), store)
    }

    /// The entry at position `index`, counted in the store's own positions
    /// (which keep counting after entries leave the head); `NotFound` outside
    /// head to tail.
    pub fn get(&self, store: &MemoryStorage, index: u32) -> (r: Result<Vec<u8>, StorageError>)
        ensures
            get_outcome(self.ns(), stored(*store), index as int, r),
    {
        get_in(self.namespace.as_slice(), store, index)
    }

    /// All entries from head to tail, or from tail to head when `descending`.
    pub fn values(&self, store: &MemoryStorage, descending: bool) -> (r: Result<
        Vec<Vec<u8>>,
        StorageError,
    >)
        ensures
            bounds_of(self.ns(), stored(*store)) is None ==> r == Err::<
                Vec<Vec<u8>>,
                StorageError,
            >(counter_error(self.ns(), stored(*store))),
            bounds_of(self.ns(), stored(*store)) is Some && !complete(self.ns(), stored(*store))
                ==> r == Err::<Vec<Vec<u8>>, StorageError>(StorageError::NotFound),
            complete(self.ns(), stored(*store)) ==> (r matches Ok(vs) && segment_views(vs@) == (
            if descending {
                contents(self.ns(), stored(*store)).reverse()
            } else {
                contents(self.ns(), stored(*store))
            })),
    {
        values_in(self.namespace.as_slice(), store, descending)
    }
}

} // verus!
