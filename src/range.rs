//! Range scans over the store, and the bounds that make a scan return
//! exactly the entries whose address starts with a given prefix.
use vstd::prelude::*;

use cosmwasm_std::{MemoryStorage, Storage};

use crate::store::stored;

verus! {

/// Byte strings in the order std gives `Vec<u8>`: lexicographic, with a
/// proper prefix before any longer string.
pub open spec fn lex_lt(a: Seq<u8>, b: Seq<u8>) -> bool
    decreases a.len(),
{
    if a.len() == 0 {
        b.len() > 0
    } else if b.len() == 0 {
        false
    } else if a[0] != b[0] {
        a[0] < b[0]
    } else {
        lex_lt(a.drop_first(), b.drop_first())
    }
}

/// Whether `k` lies from `start` (inclusive) to `end` (exclusive); a missing
/// bound does not limit.
pub open spec fn in_range(k: Seq<u8>, start: Option<Seq<u8>>, end: Option<Seq<u8>>) -> bool {
    &&& (start matches Some(s) ==> !lex_lt(k, s))
    &&& (end matches Some(e) ==> lex_lt(k, e))
}

/// The bytes an optional slice holds.
pub open spec fn opt_slice(o: Option<&[u8]>) -> Option<Seq<u8>> {
    match o {
        Some(s) => Some(s@),
        None => None,
    }
}

/// The least byte string above every string that starts with `p`: `p` with
/// its trailing `0xff` bytes dropped and its last byte raised by one; none
/// when `p` holds only `0xff` bytes.
pub open spec fn prefix_end(p: Seq<u8>) -> Option<Seq<u8>>
    decreases p.len(),
{
    if p.len() == 0 {
        None
    } else if p.last() == 0xff {
        prefix_end(p.drop_last())
    } else {
        Some(p.drop_last().push((p.last() + 1) as u8))
    }
}

/// Direction of a scan.
#[derive(Debug, Clone, Copy, PartialEq, Eq, Structural)]
pub enum Order {
    Ascending,
    Descending,
}

/// Whether `r` lists entries of `m` with keys from `start` (inclusive) to
/// `end` (exclusive), every such entry, in key order or its reverse.
pub open spec fn lists_range(
    m: Map<Seq<u8>, Seq<u8>>,
    r: Seq<(Vec<u8>, Vec<u8>)>,
    start: Option<Seq<u8>>,
    end: Option<Seq<u8>>,
    order: Order,
) -> bool {
    &&& forall|i: int|
        0 <= i < r.len() ==> m.contains_key(#[trigger] r[i].0@) && m[r[i].0@] == r[i].1@
            && in_range(r[i].0@, start, end)
    &&& forall|k: Seq<u8>|
        m.contains_key(k) && #[trigger] in_range(k, start, end) ==> exists|i: int|
            0 <= i < r.len() && r[i].0@ == k
    &&& sorted_keys(r, order)
}

/// Whether `r` lists entries of `m` whose keys start with `p`, every such
/// entry, in key order or its reverse.
pub open spec fn lists_prefixed(
    m: Map<Seq<u8>, Seq<u8>>,
    r: Seq<(Vec<u8>, Vec<u8>)>,
    p: Seq<u8>,
    order: Order,
) -> bool {
    &&& forall|i: int|
        0 <= i < r.len() ==> m.contains_key(#[trigger] r[i].0@) && m[r[i].0@] == r[i].1@
            && p.is_prefix_of(r[i].0@)
    &&& forall|k: Seq<u8>|
        m.contains_key(k) && #[trigger] p.is_prefix_of(k) ==> exists|i: int|
            0 <= i < r.len() && r[i].0@ == k
    &&& sorted_keys(r, order)
}

/// Whether the keys of `r` strictly ascend, or strictly descend.
pub open spec fn sorted_keys(r: Seq<(Vec<u8>, Vec<u8>)>, order: Order) -> bool {
    forall|i: int, j: int|
        0 <= i < j < r.len() ==> (if order == Order::Ascending {
            lex_lt(#[trigger] r[i].0@, #[trigger] r[j].0@)
        } else {
            lex_lt(r[j].0@, r[i].0@)
        })
}

/// Relies on `Storage::range` of `MemoryStorage`, a scan of its ordered
/// map: the entries with keys from `start` (inclusive) to `end` (exclusive),
/// ascending or descending by key; empty when `start` lies above `end`.
#[verifier::external_body]
fn store_range(s: &MemoryStorage, start: Option<&[u8]>, end: Option<&[u8]>, order: Order) -> (r:
    Vec<(Vec<u8>, Vec<u8>)>)
    ensures
        lists_range(stored(*s), r@, opt_slice(start), opt_slice(end), order),
{
    let o = match order {
        Order::Ascending => cosmwasm_std::Order::Ascending,
        Order::Descending => cosmwasm_std::Order::Descending,
    };
    s.range(start, end, o).collect()
}

proof fn lemma_lex_common(c: Seq<u8>, a: Seq<u8>, b: Seq<u8>)
    ensures
        lex_lt(c + a, c + b) == lex_lt(a, b),
    decreases c.len(),
{
    if c.len() == 0 {
        assert(c + a =~= a);
        assert(c + b =~= b);
    } else {
        assert((c + a).drop_first() =~= c.drop_first() + a);
        assert((c + b).drop_first() =~= c.drop_first() + b);
        lemma_lex_common(c.drop_first(), a, b);
    }
}

proof fn lemma_lex_transitive(a: Seq<u8>, b: Seq<u8>, c: Seq<u8>)
    requires
        lex_lt(a, b),
        lex_lt(b, c),
    ensures
        lex_lt(a, c),
    decreases a.len(),
{
    if a.len() > 0 && b.len() > 0 && c.len() > 0 && a[0] == b[0] && b[0] == c[0] {
        lemma_lex_transitive(a.drop_first(), b.drop_first(), c.drop_first());
    }
}

/// Every string that starts with `p` lies below `prefix_end(p)`.
proof fn lemma_below_prefix_end(p: Seq<u8>, k: Seq<u8>)
    requires
        p.is_prefix_of(k),
        prefix_end(p) is Some,
    ensures
        lex_lt(k, prefix_end(p)->0),
    decreases p.len(),
{
    let q = p.drop_last();
    assert(q.is_prefix_of(k)) by {
        assert(k.subrange(0, q.len() as int) =~= p.subrange(0, q.len() as int));
    }
    if p.last() == 0xff {
        lemma_below_prefix_end(q, k);
    } else {
        let rest = k.subrange(q.len() as int, k.len() as int);
        assert(k =~= q + rest);
        let x = p.last();
        assert(rest[0] == x);
        assert(prefix_end(p)->0 =~= q + seq![(x + 1) as u8]);
        lemma_lex_common(q, rest, seq![(x + 1) as u8]);
    }
}

/// A string below `p` that `p` does not start stays below any extension of `p`.
proof fn lemma_below_extension(k: Seq<u8>, a: Seq<u8>, b: Seq<u8>)
    requires
        lex_lt(k, a),
        a.is_prefix_of(b),
    ensures
        lex_lt(k, b),
    decreases k.len(),
{
    if k.len() > 0 && a.len() > 0 && k[0] == a[0] {
        assert(a.drop_first().is_prefix_of(b.drop_first())) by {
            assert(b.drop_first().subrange(0, a.len() - 1) =~= b.subrange(0, a.len() as int).drop_first());
        }
        lemma_below_extension(k.drop_first(), a.drop_first(), b.drop_first());
    } else if a.len() > 0 {
        assert(b[0] == a[0]) by {
            assert(b.subrange(0, a.len() as int)[0] == b[0]);
        }
    }
}

/// A string that `p` does not start lies below `p` or at or above
/// `prefix_end(p)`.
proof fn lemma_outside_prefix(p: Seq<u8>, k: Seq<u8>)
    requires
        !p.is_prefix_of(k),
    ensures
        lex_lt(k, p) || (prefix_end(p) is Some && !lex_lt(k, prefix_end(p)->0)),
    decreases p.len(),
{
    if p.len() == 0 {
        assert(p.is_prefix_of(k)) by {
            assert(k.subrange(0, 0) =~= p);
        }
    } else {
        let q = p.drop_last();
        let x = p.last();
        assert(p =~= q + seq![x]);
        if !q.is_prefix_of(k) {
            lemma_outside_prefix(q, k);
            if lex_lt(k, q) {
                assert(q.is_prefix_of(p)) by {
                    assert(p.subrange(0, q.len() as int) =~= q);
                }
                lemma_below_extension(k, q, p);
            } else if x != 0xff {
                let e = q + seq![(x + 1) as u8];
                assert(prefix_end(p)->0 =~= e);
                assert(q.is_prefix_of(e)) by {
                    assert(e.subrange(0, q.len() as int) =~= q);
                }
                lemma_below_prefix_end(q, e);
                if lex_lt(k, e) {
                    lemma_lex_transitive(k, e, prefix_end(q)->0);
                }
            }
        } else {
            let rest = k.subrange(q.len() as int, k.len() as int);
            assert(k =~= q + rest);
            if rest.len() == 0 {
                lemma_lex_common(q, rest, seq![x]);
            } else if rest[0] < x {
                lemma_lex_common(q, rest, seq![x]);
            } else {
                assert(rest[0] != x) by {
                    if rest[0] == x {
                        assert(k.subrange(0, p.len() as int) =~= p);
                    }
                }
                assert(x != 0xff);
                let e = q + seq![(x + 1) as u8];
                assert(prefix_end(p)->0 =~= e);
                let one = seq![(x + 1) as u8];
                lemma_lex_common(q, rest, one);
                assert(one.drop_first() =~= Seq::<u8>::empty());
                assert(!lex_lt(rest.drop_first(), Seq::<u8>::empty()));
                assert(!lex_lt(rest, one));
            }
        }
    }
}

/// The scan from `p` up to `prefix_end(p)` takes exactly the strings that
/// start with `p`.
pub proof fn lemma_prefix_bounds(p: Seq<u8>, k: Seq<u8>)
    ensures
        in_range(k, Some(p), prefix_end(p)) <==> p.is_prefix_of(k),
{
    if p.is_prefix_of(k) {
        let rest = k.subrange(p.len() as int, k.len() as int);
        assert(k =~= p + rest);
        assert(p =~= p + Seq::<u8>::empty());
        lemma_lex_common(p, rest, Seq::<u8>::empty());
        if prefix_end(p) is Some {
            lemma_below_prefix_end(p, k);
        }
    } else {
        lemma_outside_prefix(p, k);
        if lex_lt(k, p) {
        }
    }
}

/// `prefix_end(p)`.
fn prefix_end_bytes(p: &[u8]) -> (r: Option<Vec<u8>>)
    ensures
        opt_bytes_vec(r) == prefix_end(p@),
{
    let mut n: usize = p.len();
    assert(p@.subrange(0, n as int) =~= p@);
    while n > 0 && p[n - 1] == 0xff
        invariant
            n <= p@.len(),
            prefix_end(p@) == prefix_end(p@.subrange(0, n as int)),
        decreases n,
    {
        assert(p@.subrange(0, n as int).drop_last() =~= p@.subrange(0, n - 1));
        n -= 1;
    }
    if n == 0 {
        return None;
    }
    let mut out: Vec<u8> = Vec::new();
    let mut i: usize = 0;
    while i < n - 1
        invariant
            i <= n - 1,
            n <= p@.len(),
            out@ == p@.subrange(0, i as int),
        decreases n - 1 - i,
    {
        out.push(p[i]);
        i += 1;
        assert(out@ =~= p@.subrange(0, i as int));
    }
    out.push(p[n - 1] + 1);
    assert(out@ =~= p@.subrange(0, n as int).drop_last().push((p@[n - 1] + 1) as u8));
    Some(out)
}

/// The bytes an optional vector holds.
pub open spec fn opt_bytes_vec(o: Option<Vec<u8>>) -> Option<Seq<u8>> {
    match o {
        Some(v) => Some(v@),
        None => None,
    }
}

/// All entries whose address starts with `prefix`, in address order or its
/// reverse.
pub fn prefix_range(store: &MemoryStorage, prefix: &[u8], order: Order) -> (r: Vec<
    (Vec<u8>, Vec<u8>),
>)
    ensures
        lists_prefixed(stored(*store), r@, prefix@, order),
{
    let end = prefix_end_bytes(prefix);
    let r = match &end {
        Some(e) => store_range(store, Some(prefix), Some(e.as_slice()), order),
        None => store_range(store, Some(prefix), None, order),
    };
    proof {
        let m = stored(*store);
        assert(lists_range(m, r@, Some(prefix@), prefix_end(prefix@), order));
        assert forall|i: int| 0 <= i < r@.len() implies #[trigger] prefix@.is_prefix_of(
            r@[i].0@,
        ) by {
            lemma_prefix_bounds(prefix@, r@[i].0@);
        }
        assert forall|k: Seq<u8>|
            m.contains_key(k) && #[trigger] prefix@.is_prefix_of(k) implies exists|i: int|
                0 <= i < r@.len() && r@[i].0@ == k by {
            lemma_prefix_bounds(prefix@, k);
            assert(in_range(k, Some(prefix@), prefix_end(prefix@)));
        }
    }
    r
}

/// One end of a scan within a prefix: the key remainder after the prefix,
/// included or excluded.
#[derive(Debug, Clone, PartialEq, Eq)]
pub enum Bound {
    Inclusive(Vec<u8>),
    Exclusive(Vec<u8>),
}

/// Whether the remainder `rest` lies above the lower bound `min`.
pub open spec fn above(rest: Seq<u8>, min: Option<Bound>) -> bool {
    match min {
        None => true,
        Some(Bound::Inclusive(a)) => !lex_lt(rest, a@),
        Some(Bound::Exclusive(a)) => lex_lt(a@, rest),
    }
}

/// Whether the remainder `rest` lies below the upper bound `max`.
pub open spec fn below(rest: Seq<u8>, max: Option<Bound>) -> bool {
    match max {
        None => true,
        Some(Bound::Inclusive(b)) => !lex_lt(b@, rest),
        Some(Bound::Exclusive(b)) => lex_lt(rest, b@),
    }
}

/// Whether `k` starts with `p` and its remainder lies within `min` and `max`.
pub open spec fn within(k: Seq<u8>, p: Seq<u8>, min: Option<Bound>, max: Option<Bound>) -> bool {
    &&& p.is_prefix_of(k)
    &&& above(k.subrange(p.len() as int, k.len() as int), min)
    &&& below(k.subrange(p.len() as int, k.len() as int), max)
}

/// Whether `r` lists entries of `m` whose keys are `within` the prefix and
/// bounds, every such entry, in key order or its reverse.
pub open spec fn lists_within(
    m: Map<Seq<u8>, Seq<u8>>,
    r: Seq<(Vec<u8>, Vec<u8>)>,
    p: Seq<u8>,
    min: Option<Bound>,
    max: Option<Bound>,
    order: Order,
) -> bool {
    &&& forall|i: int|
        0 <= i < r.len() ==> m.contains_key(#[trigger] r[i].0@) && m[r[i].0@] == r[i].1@
            && within(r[i].0@, p, min, max)
    &&& forall|k: Seq<u8>|
        m.contains_key(k) && #[trigger] within(k, p, min, max) ==> exists|i: int|
            0 <= i < r.len() && r[i].0@ == k
    &&& sorted_keys(r, order)
}

/// The store bound where a scan within `p` from `min` starts.
pub open spec fn start_bound(p: Seq<u8>, min: Option<Bound>) -> Seq<u8> {
    match min {
        None => p,
        Some(Bound::Inclusive(a)) => p + a@,
        Some(Bound::Exclusive(a)) => (p + a@).push(0),
    }
}

/// The store bound where a scan within `p` up to `max` stops.
pub open spec fn end_bound(p: Seq<u8>, max: Option<Bound>) -> Option<Seq<u8>> {
    match max {
        None => prefix_end(p),
        Some(Bound::Inclusive(b)) => Some((p + b@).push(0)),
        Some(Bound::Exclusive(b)) => Some(p + b@),
    }
}

/// `a` followed by a zero byte is the least string above `a`.
proof fn lemma_successor(x: Seq<u8>, a: Seq<u8>)
    ensures
        lex_lt(x, a.push(0)) <==> !lex_lt(a, x),
    decreases a.len(),
{
    if a.len() == 0 {
        assert(a.push(0) =~= seq![0u8]);
        if x.len() > 0 {
            assert(seq![0u8].drop_first() =~= Seq::<u8>::empty());
            assert(!lex_lt(x.drop_first(), Seq::<u8>::empty()));
        }
    } else if x.len() > 0 {
        assert(a.push(0).drop_first() =~= a.drop_first().push(0));
        assert(a.push(0)[0] == a[0]);
        lemma_successor(x.drop_first(), a.drop_first());
    }
}

/// A string that starts with `p` and a bound that starts with `p` compare as
/// their remainders do.
proof fn lemma_compare_within(p: Seq<u8>, k: Seq<u8>, tail: Seq<u8>)
    requires
        p.is_prefix_of(k),
    ensures
        lex_lt(k, p + tail) == lex_lt(k.subrange(p.len() as int, k.len() as int), tail),
        lex_lt(p + tail, k) == lex_lt(tail, k.subrange(p.len() as int, k.len() as int)),
{
    let rest = k.subrange(p.len() as int, k.len() as int);
    assert(k =~= p + rest);
    lemma_lex_common(p, rest, tail);
    lemma_lex_common(p, tail, rest);
}

/// The store bounds of a scan within `p` select exactly the strings within
/// `p`, `min` and `max`.
pub proof fn lemma_within_bounds(p: Seq<u8>, k: Seq<u8>, min: Option<Bound>, max: Option<Bound>)
    ensures
        in_range(k, Some(start_bound(p, min)), end_bound(p, max)) <==> within(k, p, min, max),
{
    let st = start_bound(p, min);
    let rest = k.subrange(p.len() as int, k.len() as int);
    assert(p.is_prefix_of(st)) by {
        match min {
            None => {
                assert(st.subrange(0, p.len() as int) =~= p);
            },
            Some(Bound::Inclusive(a)) => {
                assert(st.subrange(0, p.len() as int) =~= p);
            },
            Some(Bound::Exclusive(a)) => {
                assert(st.subrange(0, p.len() as int) =~= p);
            },
        }
    }
    if p.is_prefix_of(k) {
        lemma_prefix_bounds(p, k);
        match min {
            None => {},
            Some(Bound::Inclusive(a)) => {
                lemma_compare_within(p, k, a@);
            },
            Some(Bound::Exclusive(a)) => {
                assert((p + a@).push(0) =~= p + a@.push(0));
                lemma_compare_within(p, k, a@.push(0));
                lemma_successor(rest, a@);
            },
        }
        match max {
            None => {},
            Some(Bound::Inclusive(b)) => {
                assert((p + b@).push(0) =~= p + b@.push(0));
                lemma_compare_within(p, k, b@.push(0));
                lemma_successor(rest, b@);
            },
            Some(Bound::Exclusive(b)) => {
                lemma_compare_within(p, k, b@);
            },
        }
    } else {
        lemma_outside_prefix(p, k);
        if lex_lt(k, p) {
            lemma_below_extension(k, p, st);
        } else {
            let pe = prefix_end(p)->0;
            match end_bound(p, max) {
                None => {},
                Some(e) => {
                    if max is Some {
                        assert(p.is_prefix_of(e)) by {
                            assert(e.subrange(0, p.len() as int) =~= p);
                        }
                        lemma_below_prefix_end(p, e);
                        if lex_lt(k, e) {
                            lemma_lex_transitive(k, e, pe);
                        }
                    }
                },
            }
        }
    }
}

fn concat_bytes(a: &[u8], b: &[u8]) -> (r: Vec<u8>)
    ensures
        r@ == a@ + b@,
{
    let mut out: Vec<u8> = Vec::new();
    crate::address::append_bytes(&mut out, a);
    crate::address::append_bytes(&mut out, b);
    out
}

/// All entries whose address starts with `prefix` and whose remainder after
/// it lies within `min` and `max`, in address order or its reverse.
pub fn range_within(
    store: &MemoryStorage,
    prefix: &[u8],
    min: Option<Bound>,
    max: Option<Bound>,
    order: Order,
) -> (r: Vec<(Vec<u8>, Vec<u8>)>)
    ensures
        lists_within(stored(*store), r@, prefix@, min, max, order),
{
    let start = match &min {
        None => vstd::slice::slice_to_vec(prefix),
        Some(Bound::Inclusive(a)) => concat_bytes(prefix, a.as_slice()),
        Some(Bound::Exclusive(a)) => {
            let mut v = concat_bytes(prefix, a.as_slice());
            v.push(0);
            v
        },
    };
    let end = match &max {
        None => prefix_end_bytes(prefix),
        Some(Bound::Inclusive(b)) => {
            let mut v = concat_bytes(prefix, b.as_slice());
            v.push(0);
            Some(v)
        },
        Some(Bound::Exclusive(b)) => Some(concat_bytes(prefix, b.as_slice())),
    };
    assert(start@ == start_bound(prefix@, min));
    assert(opt_bytes_vec(end) == end_bound(prefix@, max));
    let r = match &end {
        Some(e) => store_range(store, Some(start.as_slice()), Some(e.as_slice()), order),
        None => store_range(store, Some(start.as_slice()), None, order),
    };
    proof {
        let m = stored(*store);
        assert(lists_range(m, r@, Some(start_bound(prefix@, min)), end_bound(prefix@, max), order));
        assert forall|i: int| 0 <= i < r@.len() implies #[trigger] within(
            r@[i].0@,
            prefix@,
            min,
            max,
        ) by {
            lemma_within_bounds(prefix@, r@[i].0@, min, max);
        }
        assert forall|k: Seq<u8>|
            m.contains_key(k) && #[trigger] within(k, prefix@, min, max) implies exists|i: int|
                0 <= i < r@.len() && r@[i].0@ == k by {
            lemma_within_bounds(prefix@, k, min, max);
            assert(in_range(k, Some(start_bound(prefix@, min)), end_bound(prefix@, max)));
        }
    }
    r
}

} // verus!
