//! Storage addresses: a namespace and the segments of a key joined into one
//! byte string, with every non-final part length-prefixed.
use vstd::prelude::*;

use crate::endian::{
    be_value, len16, len16_bytes, lemma_be_bytes_injective, lemma_be_bytes_of_value,
    lemma_be_round_trip, lemma_be_value_bound,
};
use crate::error::StorageError;
use crate::keys::{lemma_pow256_widths, KeySegment};

verus! {

broadcast use crate::endian::lemma_be_bytes_len;

/// The byte strings that a vector of byte vectors holds.
pub open spec fn segment_views(v: Seq<Vec<u8>>) -> Seq<Seq<u8>> {
    v.map_values(|s: Vec<u8>| s@)
}

/// Each part preceded by its two-byte length, all concatenated.
pub open spec fn length_prefixed(parts: Seq<Seq<u8>>) -> Seq<u8>
    decreases parts.len(),
{
    if parts.len() == 0 {
        Seq::empty()
    } else {
        length_prefixed(parts.drop_last()) + len16(parts.last().len()) + parts.last()
    }
}

/// Whether every part is short enough for a two-byte length prefix.
pub open spec fn prefixable(parts: Seq<Seq<u8>>) -> bool {
    forall|i: int| 0 <= i < parts.len() ==> #[trigger] parts[i].len() <= 0xffff
}

/// The address of the key with segments `segs` under namespace `ns`.
/// With one segment it is the namespace followed by the segment; with more,
/// the namespace and every segment but the last are length-prefixed and the
/// last follows as it is.
pub open spec fn address(ns: Seq<u8>, segs: Seq<Seq<u8>>) -> Seq<u8> {
    if segs.len() == 0 {
        ns
    } else if segs.len() == 1 {
        ns + segs[0]
    } else {
        length_prefixed(seq![ns] + segs.drop_last()) + segs.last()
    }
}

/// Whether the parts of `address(ns, segs)` that get a length prefix fit one.
pub open spec fn addressable(ns: Seq<u8>, segs: Seq<Seq<u8>>) -> bool {
    segs.len() >= 2 ==> prefixable(seq![ns] + segs.drop_last())
}

/// The common start of the addresses of all keys whose leading segments are
/// `segs`, under namespace `ns`.
pub open spec fn scan_prefix(ns: Seq<u8>, segs: Seq<Seq<u8>>) -> Seq<u8> {
    length_prefixed(seq![ns] + segs)
}

/// A key: one or more segments.
pub trait PrimaryKey: Sized {
    /// The segments of the key, in order.
    spec fn key_segments(&self) -> Seq<Seq<u8>>;

    fn key(&self) -> (r: Vec<Vec<u8>>)
        ensures
            segment_views(r@) == self.key_segments(),
            r@.len() >= 1,
    ;
}

impl<T: KeySegment> PrimaryKey for T {
    open spec fn key_segments(&self) -> Seq<Seq<u8>> {
        seq![self.segment_of()]
    }

    fn key(&self) -> (r: Vec<Vec<u8>>) {
        let mut r: Vec<Vec<u8>> = Vec::new();
        r.push(self.to_segment());
        assert(segment_views(r@) =~= self.key_segments());
        r
    }
}

impl<A: KeySegment, B: KeySegment> PrimaryKey for (A, B) {
    open spec fn key_segments(&self) -> Seq<Seq<u8>> {
        seq![self.0.segment_of(), self.1.segment_of()]
    }

    fn key(&self) -> (r: Vec<Vec<u8>>) {
        let mut r: Vec<Vec<u8>> = Vec::new();
        r.push(self.0.to_segment());
        r.push(self.1.to_segment());
        assert(segment_views(r@) =~= self.key_segments());
        r
    }
}

impl<A: KeySegment, B: KeySegment, C: KeySegment> PrimaryKey for (A, B, C) {
    open spec fn key_segments(&self) -> Seq<Seq<u8>> {
        seq![self.0.segment_of(), self.1.segment_of(), self.2.segment_of()]
    }

    fn key(&self) -> (r: Vec<Vec<u8>>) {
        let mut r: Vec<Vec<u8>> = Vec::new();
        r.push(self.0.to_segment());
        r.push(self.1.to_segment());
        r.push(self.2.to_segment());
        assert(segment_views(r@) =~= self.key_segments());
        r
    }
}

proof fn lemma_length_prefixed_push(parts: Seq<Seq<u8>>, x: Seq<u8>)
    ensures
        length_prefixed(parts.push(x)) == length_prefixed(parts) + len16(x.len()) + x,
{
    assert(parts.push(x).drop_last() =~= parts);
}

/// Length-prefixing a sequence that starts with `first` starts with the
/// prefixed `first`.
pub proof fn lemma_length_prefixed_first(first: Seq<u8>, rest: Seq<Seq<u8>>)
    ensures
        length_prefixed(seq![first] + rest) == len16(first.len()) + first + length_prefixed(rest),
    decreases rest.len(),
{
    if rest.len() == 0 {
        assert(seq![first] + rest =~= seq![first]);
        assert(seq![first] =~= Seq::<Seq<u8>>::empty().push(first));
        lemma_length_prefixed_push(Seq::<Seq<u8>>::empty(), first);
        assert(length_prefixed(seq![first] + rest) =~= len16(first.len()) + first + length_prefixed(
            rest,
        ));
    } else {
        lemma_length_prefixed_first(first, rest.drop_last());
        assert((seq![first] + rest).drop_last() =~= seq![first] + rest.drop_last());
        assert(length_prefixed(seq![first] + rest) =~= len16(first.len()) + first + length_prefixed(
            rest,
        ));
    }
}

/// Appends the bytes of `b` to `out`.
pub(crate) fn append_bytes(out: &mut Vec<u8>, b: &[u8])
    ensures
        final(out)@ == old(out)@ + b@,
{
    let mut i: usize = 0;
    while i < b.len()
        invariant
            i <= b@.len(),
            out@ == old(out)@ + b@.subrange(0, i as int),
        decreases b@.len() - i,
    {
        out.push(b[i]);
        i += 1;
        assert(out@ =~= old(out)@ + b@.subrange(0, i as int));
    }
    assert(b@.subrange(0, b@.len() as int) =~= b@);
}

/// Appends the two-byte length of `b`, then `b`.
fn append_length_prefixed(out: &mut Vec<u8>, b: &[u8])
    requires
        b@.len() <= 0xffff,
    ensures
        final(out)@ == old(out)@ + len16(b@.len()) + b@,
{
    let len = len16_bytes(b.len());
    append_bytes(out, len.as_slice());
    append_bytes(out, b);
}

/// Appends `ns` and the first `n` of `parts`, each length-prefixed.
fn append_prefixed_parts(out: &mut Vec<u8>, ns: &[u8], parts: &Vec<Vec<u8>>, n: usize)
    requires
        n <= parts@.len(),
        prefixable(seq![ns@] + segment_views(parts@).subrange(0, n as int)),
    ensures
        final(out)@ == old(out)@ + length_prefixed(
            seq![ns@] + segment_views(parts@).subrange(0, n as int),
        ),
{
    let ghost views = segment_views(parts@);
    let ghost all = seq![ns@] + views.subrange(0, n as int);
    assert(all[0] == ns@);
    append_length_prefixed(out, ns);
    proof {
        assert(seq![ns@] + views.subrange(0, 0) =~= Seq::<Seq<u8>>::empty().push(ns@));
        lemma_length_prefixed_push(Seq::<Seq<u8>>::empty(), ns@);
        assert(out@ =~= old(out)@ + length_prefixed(seq![ns@] + views.subrange(0, 0)));
    }
    let mut i: usize = 0;
    while i < n
        invariant
            i <= n <= parts@.len(),
            views == segment_views(parts@),
            all == seq![ns@] + views.subrange(0, n as int),
            prefixable(all),
            out@ == old(out)@ + length_prefixed(seq![ns@] + views.subrange(0, i as int)),
        decreases n - i,
    {
        assert(all[i + 1] == parts@[i as int]@);
        append_length_prefixed(out, parts[i].as_slice());
        proof {
            let before = seq![ns@] + views.subrange(0, i as int);
            assert(seq![ns@] + views.subrange(0, i + 1) =~= before.push(views[i as int]));
            lemma_length_prefixed_push(before, views[i as int]);
        }
        i += 1;
    }
}

/// The address of the key with segments `segs` under namespace `ns`.
pub fn build_address(ns: &[u8], segs: &Vec<Vec<u8>>) -> (r: Vec<u8>)
    requires
        addressable(ns@, segment_views(segs@)),
    ensures
        r@ == address(ns@, segment_views(segs@)),
{
    let ghost views = segment_views(segs@);
    let mut out: Vec<u8> = Vec::new();
    if segs.len() <= 1 {
        append_bytes(&mut out, ns);
        if segs.len() == 1 {
            append_bytes(&mut out, segs[0].as_slice());
        }
        assert(out@ =~= address(ns@, views));
    } else {
        let n = segs.len() - 1;
        assert(views.subrange(0, n as int) =~= views.drop_last());
        append_prefixed_parts(&mut out, ns, segs, n);
        append_bytes(&mut out, segs[n].as_slice());
    }
    out
}

/// The common start of the addresses of all keys whose leading segments are
/// `segs`, under namespace `ns`.
pub fn build_scan_prefix(ns: &[u8], segs: &Vec<Vec<u8>>) -> (r: Vec<u8>)
    requires
        prefixable(seq![ns@] + segment_views(segs@)),
    ensures
        r@ == scan_prefix(ns@, segment_views(segs@)),
{
    let ghost views = segment_views(segs@);
    assert(views.subrange(0, segs@.len() as int) =~= views);
    let mut out: Vec<u8> = Vec::new();
    append_prefixed_parts(&mut out, ns, segs, segs.len());
    assert(out@ =~= scan_prefix(ns@, views));
    out
}

/// The length-prefixed form of a namespace followed by one part.
proof fn lemma_length_prefixed_pair(ns: Seq<u8>, a: Seq<u8>)
    ensures
        length_prefixed(seq![ns, a]) == len16(ns.len()) + ns + len16(a.len()) + a,
{
    lemma_length_prefixed_first(ns, seq![a]);
    lemma_length_prefixed_first(a, Seq::<Seq<u8>>::empty());
    assert(seq![ns] + seq![a] =~= seq![ns, a]);
    assert(seq![a] + Seq::<Seq<u8>>::empty() =~= seq![a]);
    assert(len16(ns.len()) + ns + (len16(a.len()) + a + Seq::<u8>::empty()) =~= len16(ns.len())
        + ns + len16(a.len()) + a);
}

/// An address written as its namespace part followed by the rest.
proof fn lemma_address_split(ns: Seq<u8>, segs: Seq<Seq<u8>>)
    ensures
        segs.len() <= 1 ==> address(ns, segs) == ns + (if segs.len() == 1 {
            segs[0]
        } else {
            Seq::empty()
        }),
        segs.len() >= 2 ==> address(ns, segs) == len16(ns.len()) + ns + (length_prefixed(
            segs.drop_last(),
        ) + segs.last()),
{
    if segs.len() >= 2 {
        lemma_length_prefixed_first(ns, segs.drop_last());
        assert(len16(ns.len()) + ns + length_prefixed(segs.drop_last()) + segs.last() =~= len16(
            ns.len(),
        ) + ns + (length_prefixed(segs.drop_last()) + segs.last()));
    } else if segs.len() == 0 {
        assert(ns + Seq::<u8>::empty() =~= ns);
    }
}

/// Two namespaces never give the same address to one key: every address
/// begins with its namespace, length-prefixed whenever the key has more than
/// one segment, and the rest of it depends on the key alone.
pub proof fn lemma_namespaces_do_not_collide(ns1: Seq<u8>, ns2: Seq<u8>, segs: Seq<Seq<u8>>)
    requires
        ns1 != ns2,
        addressable(ns1, segs),
        addressable(ns2, segs),
    ensures
        address(ns1, segs) != address(ns2, segs),
{
    lemma_address_split(ns1, segs);
    lemma_address_split(ns2, segs);
    if address(ns1, segs) == address(ns2, segs) {
        if segs.len() <= 1 {
            let t: Seq<u8> = if segs.len() == 1 {
                segs[0]
            } else {
                Seq::empty()
            };
            assert((ns1 + t).subrange(0, ns1.len() as int) =~= ns1);
            assert((ns2 + t).subrange(0, ns2.len() as int) =~= ns2);
        } else {
            let t = length_prefixed(segs.drop_last()) + segs.last();
            let a1 = len16(ns1.len()) + ns1 + t;
            let a2 = len16(ns2.len()) + ns2 + t;
            assert(a1.subrange(2, 2 + ns1.len() as int) =~= ns1);
            assert(a2.subrange(2, 2 + ns2.len() as int) =~= ns2);
        }
    }
}

/// Under one namespace, two keys that share a first component and differ in
/// the second have different addresses; the scan prefix of that first
/// component starts both addresses, and starts the address of a two-part key
/// exactly when its first component is the same.
pub proof fn lemma_composite_prefix_scan(
    ns: Seq<u8>,
    a: Seq<u8>,
    b: Seq<u8>,
    b2: Seq<u8>,
    a2: Seq<u8>,
    c: Seq<u8>,
)
    requires
        b != b2,
        ns.len() <= 0xffff,
        a.len() <= 0xffff,
        a2.len() <= 0xffff,
    ensures
        address(ns, seq![a, b]) != address(ns, seq![a, b2]),
        scan_prefix(ns, seq![a]).is_prefix_of(address(ns, seq![a, b])),
        scan_prefix(ns, seq![a]).is_prefix_of(address(ns, seq![a, b2])),
        scan_prefix(ns, seq![a]).is_prefix_of(address(ns, seq![a2, c])) <==> a2 == a,
{
    let p = scan_prefix(ns, seq![a]);
    assert(seq![ns] + seq![a] =~= seq![ns, a]);
    assert(seq![a, b].drop_last() =~= seq![a]);
    assert(seq![a, b2].drop_last() =~= seq![a]);
    assert(seq![a2, c].drop_last() =~= seq![a2]);
    assert(seq![ns] + seq![a2] =~= seq![ns, a2]);
    lemma_length_prefixed_pair(ns, a);
    lemma_length_prefixed_pair(ns, a2);
    let x = address(ns, seq![a, b]);
    let y = address(ns, seq![a, b2]);
    assert(x == p + b);
    assert(y == p + b2);
    assert(x.subrange(0, p.len() as int) =~= p);
    assert(y.subrange(0, p.len() as int) =~= p);
    if x == y {
        assert(x.subrange(p.len() as int, x.len() as int) =~= b);
        assert(y.subrange(p.len() as int, y.len() as int) =~= b2);
    }
    let parts2 = length_prefixed(seq![ns, a2]);
    let z = address(ns, seq![a2, c]);
    assert(z == parts2 + c);
    if a2 == a {
        assert(z.subrange(0, p.len() as int) =~= p);
    }
    if p.is_prefix_of(z) {
        let k: int = 2 + ns.len() as int;
        assert(p.subrange(k, k + 2) =~= len16(a.len()));
        assert(z.subrange(k, k + 2) =~= len16(a2.len()));
        assert(z.subrange(k, k + 2) =~= p.subrange(k, k + 2));
        lemma_pow256_widths();
        lemma_be_bytes_injective(a.len(), a2.len(), 2);
        assert(p.subrange(k + 2, k + 2 + a.len()) =~= a);
        assert(z.subrange(k + 2, k + 2 + a2.len()) =~= a2);
        assert(z.subrange(k + 2, k + 2 + a.len()) =~= p.subrange(k + 2, k + 2 + a.len()));
    }
}

/// A length-prefixed part is read back unambiguously from the front of a
/// byte string.
proof fn lemma_prefixed_part_cancel(x1: Seq<u8>, t1: Seq<u8>, x2: Seq<u8>, t2: Seq<u8>)
    requires
        x1.len() <= 0xffff,
        x2.len() <= 0xffff,
        len16(x1.len()) + x1 + t1 == len16(x2.len()) + x2 + t2,
    ensures
        x1 == x2,
        t1 == t2,
{
    let a = len16(x1.len()) + x1 + t1;
    let b = len16(x2.len()) + x2 + t2;
    assert(a.subrange(0, 2) =~= len16(x1.len()));
    assert(b.subrange(0, 2) =~= len16(x2.len()));
    lemma_pow256_widths();
    lemma_be_bytes_injective(x1.len(), x2.len(), 2);
    assert(a.subrange(2, 2 + x1.len() as int) =~= x1);
    assert(b.subrange(2, 2 + x2.len() as int) =~= x2);
    assert(a.subrange(2 + x1.len() as int, a.len() as int) =~= t1);
    assert(b.subrange(2 + x2.len() as int, b.len() as int) =~= t2);
}

/// Equal-length sequences of length-prefixed parts, each followed by a tail,
/// coincide only when the parts and the tails do.
proof fn lemma_length_prefixed_injective(
    parts1: Seq<Seq<u8>>,
    l1: Seq<u8>,
    parts2: Seq<Seq<u8>>,
    l2: Seq<u8>,
)
    requires
        parts1.len() == parts2.len(),
        prefixable(parts1),
        prefixable(parts2),
        length_prefixed(parts1) + l1 == length_prefixed(parts2) + l2,
    ensures
        parts1 == parts2,
        l1 == l2,
    decreases parts1.len(),
{
    if parts1.len() == 0 {
        assert(length_prefixed(parts1) + l1 =~= l1);
        assert(length_prefixed(parts2) + l2 =~= l2);
        assert(parts1 =~= parts2);
    } else {
        let r1 = parts1.drop_first();
        let r2 = parts2.drop_first();
        assert(parts1 =~= seq![parts1[0]] + r1);
        assert(parts2 =~= seq![parts2[0]] + r2);
        lemma_length_prefixed_first(parts1[0], r1);
        lemma_length_prefixed_first(parts2[0], r2);
        assert(length_prefixed(parts1) + l1 =~= len16(parts1[0].len()) + parts1[0] + (length_prefixed(r1)
            + l1));
        assert(length_prefixed(parts2) + l2 =~= len16(parts2[0].len()) + parts2[0] + (length_prefixed(r2)
            + l2));
        lemma_prefixed_part_cancel(parts1[0], length_prefixed(r1) + l1, parts2[0], length_prefixed(r2) + l2);
        assert(prefixable(r1));
        assert(prefixable(r2));
        lemma_length_prefixed_injective(r1, l1, r2, l2);
        assert(parts1 =~= parts2);
    }
}

/// Addresses are unambiguous: two keys with the same number of segments,
/// two or more, get one address only when namespace and segments are all
/// the same; with one segment, under one namespace, only when the segment
/// is the same.
pub proof fn lemma_address_unambiguous(
    ns1: Seq<u8>,
    segs1: Seq<Seq<u8>>,
    ns2: Seq<u8>,
    segs2: Seq<Seq<u8>>,
)
    requires
        segs1.len() == segs2.len(),
        segs1.len() >= 1,
        segs1.len() == 1 ==> ns1 == ns2,
        addressable(ns1, segs1),
        addressable(ns2, segs2),
        address(ns1, segs1) == address(ns2, segs2),
    ensures
        ns1 == ns2,
        segs1 == segs2,
{
    if segs1.len() == 1 {
        let a = ns1 + segs1[0];
        assert(a.subrange(ns1.len() as int, a.len() as int) =~= segs1[0]);
        assert((ns2 + segs2[0]).subrange(ns2.len() as int, a.len() as int) =~= segs2[0]);
        assert(segs1 =~= segs2);
    } else {
        lemma_length_prefixed_injective(
            seq![ns1] + segs1.drop_last(),
            segs1.last(),
            seq![ns2] + segs2.drop_last(),
            segs2.last(),
        );
        assert((seq![ns1] + segs1.drop_last())[0] == ns1);
        assert((seq![ns1] + segs1.drop_last()).drop_first() =~= segs1.drop_last());
        assert((seq![ns2] + segs2.drop_last()).drop_first() =~= segs2.drop_last());
        assert(segs1 =~= segs1.drop_last().push(segs1.last()));
        assert(segs2 =~= segs2.drop_last().push(segs2.last()));
    }
}

/// Length-prefixing a concatenation is concatenating the length-prefixed halves.
proof fn lemma_length_prefixed_concat(a: Seq<Seq<u8>>, b: Seq<Seq<u8>>)
    ensures
        length_prefixed(a + b) == length_prefixed(a) + length_prefixed(b),
    decreases b.len(),
{
    if b.len() == 0 {
        assert(a + b =~= a);
        assert(length_prefixed(a) + length_prefixed(b) =~= length_prefixed(a));
    } else {
        lemma_length_prefixed_concat(a, b.drop_last());
        assert((a + b).drop_last() =~= a + b.drop_last());
        assert(length_prefixed(a + b) =~= length_prefixed(a) + length_prefixed(b));
    }
}

/// Copies `b[from..to]`.
fn copy_range(b: &[u8], from: usize, to: usize) -> (r: Vec<u8>)
    requires
        from <= to <= b@.len(),
    ensures
        r@ == b@.subrange(from as int, to as int),
{
    let mut out: Vec<u8> = Vec::new();
    let mut i: usize = from;
    while i < to
        invariant
            from <= i <= to <= b@.len(),
            out@ == b@.subrange(from as int, i as int),
        decreases to - i,
    {
        out.push(b[i]);
        i += 1;
        assert(out@ =~= b@.subrange(from as int, i as int));
    }
    out
}

/// Reads the length-prefixed part that starts at `pos`.
fn read_part(addr: &[u8], pos: usize) -> (r: Option<(Vec<u8>, usize)>)
    requires
        pos <= addr@.len(),
    ensures
        r is None <==> (pos + 2 > addr@.len() || pos + 2 + be_value(
            addr@.subrange(pos as int, pos + 2),
        ) > addr@.len()),
        r matches Some((part, next)) ==> next == pos + 2 + part@.len() && next <= addr@.len()
            && part@.len() <= 0xffff && addr@.subrange(pos as int, addr@.len() as int) == len16(
            part@.len(),
        ) + part@ + addr@.subrange(next as int, addr@.len() as int),
{
    if addr.len() - pos < 2 {
        return None;
    }
    let ghost two = addr@.subrange(pos as int, pos + 2);
    let n: usize = addr[pos] as usize * 256 + addr[pos + 1] as usize;
    proof {
        let one = seq![addr@[pos as int]];
        assert(two.drop_last() =~= one);
        assert(one.drop_last() =~= Seq::<u8>::empty());
        assert(one.last() == addr@[pos as int]);
        assert(be_value(Seq::<u8>::empty()) == 0);
        assert(be_value(one) == addr@[pos as int] as nat);
        assert(two.last() == addr@[pos + 1]);
        assert(be_value(two) == n);
        lemma_pow256_widths();
        lemma_be_value_bound(two);
        lemma_be_bytes_of_value(two);
    }
    if addr.len() - pos - 2 < n {
        return None;
    }
    let part = copy_range(addr, pos + 2, pos + 2 + n);
    proof {
        assert(addr@.subrange(pos as int, addr@.len() as int) =~= len16(part@.len()) + part@
            + addr@.subrange(pos + 2 + n, addr@.len() as int));
    }
    Some((part, pos + 2 + n))
}

/// Whether `addr` is the address under `ns` of some key with `n` segments.
pub open spec fn is_address_of(ns: Seq<u8>, addr: Seq<u8>, n: nat) -> bool {
    exists|segs: Seq<Seq<u8>>|
        segs.len() == n && addressable(ns, segs) && #[trigger] address(ns, segs) == addr
}

/// The segments of `addr`, read as the address of a key with `n` segments
/// under `ns`: how the keys of scanned entries are recovered. Fails with
/// `Decode` exactly when `addr` is no such address.
pub fn split_address(ns: &[u8], addr: &[u8], n: usize) -> (r: Result<Vec<Vec<u8>>, StorageError>)
    requires
        n >= 1,
    ensures
        r is Ok <==> is_address_of(ns@, addr@, n as nat),
        r matches Ok(segs) ==> segs@.len() == n && addressable(ns@, segment_views(segs@))
            && address(ns@, segment_views(segs@)) == addr@,
        r is Err ==> r == Err::<Vec<Vec<u8>>, StorageError>(StorageError::Decode),
{
    let ghost exists_key = is_address_of(ns@, addr@, n as nat);
    let ghost w: Seq<Seq<u8>> = if exists_key {
        choose|segs: Seq<Seq<u8>>|
            segs.len() == n && addressable(ns@, segs) && #[trigger] address(ns@, segs) == addr@
    } else {
        Seq::empty()
    };
    if n == 1 {
        if addr.len() < ns.len() {
            return Err(StorageError::Decode);
        }
        let mut k: usize = 0;
        while k < ns.len()
            invariant
                k <= ns@.len() <= addr@.len(),
                n == 1,
                forall|j: int| 0 <= j < k ==> addr@[j] == ns@[j],
                exists_key == is_address_of(ns@, addr@, n as nat),
                exists_key ==> w.len() == n && addressable(ns@, w) && address(ns@, w) == addr@,
            decreases ns@.len() - k,
        {
            if addr[k] != ns[k] {
                proof {
                    if exists_key {
                        assert(addr@ == ns@ + w[0]);
                        assert(addr@[k as int] == ns@[k as int]);
                    }
                }
                return Err(StorageError::Decode);
            }
            k += 1;
        }
        let seg = copy_range(addr, ns.len(), addr.len());
        let mut out: Vec<Vec<u8>> = Vec::new();
        out.push(seg);
        proof {
            assert(segment_views(out@) =~= seq![seg@]);
            assert(ns@ + seg@ =~= addr@);
            assert(address(ns@, segment_views(out@)) == addr@);
        }
        return Ok(out);
    }
    // The namespace comes first, length-prefixed.
    let ghost rest_w = if exists_key {
        length_prefixed(w.drop_last()) + w.last()
    } else {
        Seq::empty()
    };
    proof {
        if exists_key {
            lemma_length_prefixed_first(ns@, w.drop_last());
            assert(addr@ =~= len16(ns@.len()) + ns@ + rest_w);
            assert((seq![ns@] + w.drop_last())[0] == ns@);
            assert((seq![ns@] + w.drop_last())[0].len() <= 0xffff);
            assert(addr@.subrange(0, addr@.len() as int) =~= addr@);
        }
    }
    let (first, mut pos) = match read_part(addr, 0) {
        Some(p) => p,
        None => {
            proof {
                if exists_key {
                    assert(addr@.subrange(0, 2) =~= len16(ns@.len()));
                    lemma_pow256_widths();
                    lemma_be_round_trip(ns@.len(), 2);
                }
            }
            return Err(StorageError::Decode);
        },
    };
    proof {
        assert(addr@.subrange(0, addr@.len() as int) =~= addr@);
        if exists_key {
            lemma_prefixed_part_cancel(
                first@,
                addr@.subrange(pos as int, addr@.len() as int),
                ns@,
                rest_w,
            );
        }
    }
    if first.len() != ns.len() {
        return Err(StorageError::Decode);
    }
    let mut k: usize = 0;
    while k < ns.len()
        invariant
            k <= ns@.len() == first@.len(),
            forall|j: int| 0 <= j < k ==> first@[j] == ns@[j],
            exists_key == is_address_of(ns@, addr@, n as nat),
            exists_key ==> first@ == ns@,
        decreases ns@.len() - k,
    {
        if first[k] != ns[k] {
            return Err(StorageError::Decode);
        }
        k += 1;
    }
    assert(first@ =~= ns@);
    let mut out: Vec<Vec<u8>> = Vec::new();
    let mut i: usize = 0;
    proof {
        assert(seq![ns@] + segment_views(out@) =~= seq![ns@]);
        assert(seq![ns@] =~= Seq::<Seq<u8>>::empty().push(ns@));
        lemma_length_prefixed_push(Seq::<Seq<u8>>::empty(), ns@);
        assert(addr@.subrange(0, pos as int) =~= length_prefixed(seq![ns@]));
        if exists_key {
            assert(w.drop_last().subrange(0, 0) =~= segment_views(out@));
            assert(w.drop_last().subrange(0, n - 1) =~= w.drop_last());
        }
    }
    while i < n - 1
        invariant
            1 <= n,
            i <= n - 1,
            pos <= addr@.len(),
            out@.len() == i,
            prefixable(seq![ns@] + segment_views(out@)),
            addr@.subrange(0, pos as int) == length_prefixed(seq![ns@] + segment_views(out@)),
            exists_key == is_address_of(ns@, addr@, n as nat),
            exists_key ==> w.len() == n && addressable(ns@, w) && address(ns@, w) == addr@,
            exists_key ==> segment_views(out@) == w.drop_last().subrange(0, i as int),
            exists_key ==> addr@.subrange(pos as int, addr@.len() as int) == length_prefixed(
                w.drop_last().subrange(i as int, n - 1),
            ) + w.last(),
        decreases n - 1 - i,
    {
        let ghost tail_i = w.drop_last().subrange(i as int, n - 1);
        proof {
            if exists_key {
                assert(tail_i =~= seq![tail_i[0]] + tail_i.drop_first());
                lemma_length_prefixed_first(tail_i[0], tail_i.drop_first());
                assert(addr@.subrange(pos as int, addr@.len() as int) =~= len16(tail_i[0].len())
                    + tail_i[0] + (length_prefixed(tail_i.drop_first()) + w.last()));
                assert((seq![ns@] + w.drop_last())[i + 1] == tail_i[0]);
                assert(tail_i[0].len() <= 0xffff);
            }
        }
        let (part, next) = match read_part(addr, pos) {
            Some(p) => p,
            None => {
                proof {
                    if exists_key {
                        let sub = addr@.subrange(pos as int, addr@.len() as int);
                        assert(sub.subrange(0, 2) =~= addr@.subrange(pos as int, pos + 2));
                        assert(sub.subrange(0, 2) =~= len16(tail_i[0].len()));
                        lemma_pow256_widths();
                        lemma_be_round_trip(tail_i[0].len(), 2);
                    }
                }
                return Err(StorageError::Decode);
            },
        };
        let ghost before = segment_views(out@);
        proof {
            if exists_key {
                lemma_prefixed_part_cancel(
                    part@,
                    addr@.subrange(next as int, addr@.len() as int),
                    tail_i[0],
                    length_prefixed(tail_i.drop_first()) + w.last(),
                );
                assert(tail_i.drop_first() =~= w.drop_last().subrange(i + 1, n - 1));
            }
        }
        out.push(part);
        proof {
            assert(segment_views(out@) =~= before.push(part@));
            assert(seq![ns@] + segment_views(out@) =~= (seq![ns@] + before).push(part@));
            lemma_length_prefixed_push(seq![ns@] + before, part@);
            let whole = addr@.subrange(0, next as int);
            assert(whole =~= addr@.subrange(0, pos as int) + (len16(part@.len()) + part@)) by {
                let sub = addr@.subrange(pos as int, addr@.len() as int);
                assert(sub.subrange(0, next - pos) =~= addr@.subrange(pos as int, next as int));
                assert(sub.subrange(0, next - pos) =~= len16(part@.len()) + part@);
            }
            assert(length_prefixed(seq![ns@] + segment_views(out@)) =~= length_prefixed(
                seq![ns@] + before,
            ) + len16(part@.len()) + part@);
            if exists_key {
                assert(segment_views(out@) =~= w.drop_last().subrange(0, i + 1));
            }
        }
        pos = next;
        i += 1;
    }
    let last = copy_range(addr, pos, addr.len());
    let ghost init = segment_views(out@);
    out.push(last);
    proof {
        let views = segment_views(out@);
        assert(views =~= init.push(last@));
        assert(views.drop_last() =~= init);
        assert(views.last() == last@);
        assert(addr@ =~= addr@.subrange(0, pos as int) + last@);
        assert(forall|j: int| 0 <= j < (seq![ns@] + views.drop_last()).len() ==>
            (seq![ns@] + views.drop_last())[j] == (seq![ns@] + init)[j]);
        assert(seq![ns@] + views.drop_last() =~= seq![ns@] + init);
        assert(address(ns@, views) == addr@);
        assert(addressable(ns@, views));
    }
    Ok(out)
}

/// The address under `ns` of the one-part key `k`.
pub open spec fn address_of_key<K: KeySegment>(ns: Seq<u8>, k: K) -> Seq<u8> {
    address(ns, seq![k.segment_of()])
}

/// The address under `ns` of the two-part key `(a, b)`, when its first part
/// fits a length prefix.
pub open spec fn address_of_pair<A: KeySegment, B: KeySegment>(ns: Seq<u8>, a: A, b: B) -> Option<
    Seq<u8>,
> {
    if addressable(ns, seq![a.segment_of(), b.segment_of()]) {
        Some(address(ns, seq![a.segment_of(), b.segment_of()]))
    } else {
        None
    }
}

/// The component of a one-part key, read back from its address under `ns`.
pub fn decode_key<K: KeySegment>(ns: &[u8], addr: &[u8]) -> (r: Result<K, StorageError>)
    ensures
        r matches Ok(k) ==> address_of_key(ns@, k) == addr@,
        (exists|k: K| #[trigger] address_of_key(ns@, k) == addr@) ==> r is Ok,
{
    let segs = match split_address(ns, addr, 1) {
        Ok(segs) => segs,
        Err(e) => {
            proof {
                assert forall|k: K| #[trigger] address_of_key(ns@, k) != addr@ by {
                    if address_of_key(ns@, k) == addr@ {
                        assert(addressable(ns@, seq![k.segment_of()]));
                    }
                }
            }
            return Err(e);
        },
    };
    assert(segment_views(segs@)[0] == segs@[0]@);
    let r = K::from_segment(segs[0].as_slice());
    proof {
        assert(seq![segs@[0]@] =~= segment_views(segs@));
        assert forall|k: K| #[trigger] address_of_key(ns@, k) == addr@ implies r is Ok by {
            lemma_address_unambiguous(ns@, seq![k.segment_of()], ns@, segment_views(segs@));
            assert(k.segment_of() == segs@[0]@);
        }
        if r is Ok {
            assert(seq![r->Ok_0.segment_of()] =~= segment_views(segs@));
        }
    }
    r
}

/// The two components of a two-part key, read back from its address under
/// `ns`: how the keys of scanned entries are recovered.
pub fn decode_key2<A: KeySegment, B: KeySegment>(ns: &[u8], addr: &[u8]) -> (r: Result<
    (A, B),
    StorageError,
>)
    ensures
        r matches Ok((a, b)) ==> address_of_pair(ns@, a, b) == Some(addr@),
        (exists|a: A, b: B| #[trigger] address_of_pair(ns@, a, b) == Some(addr@)) ==> r is Ok,
{
    let segs = match split_address(ns, addr, 2) {
        Ok(segs) => segs,
        Err(e) => {
            proof {
                assert forall|a: A, b: B| #[trigger] address_of_pair(ns@, a, b) != Some(addr@) by {
                    if address_of_pair(ns@, a, b) == Some(addr@) {
                        assert(seq![a.segment_of(), b.segment_of()].len() == 2);
                    }
                }
            }
            return Err(e);
        },
    };
    let ghost views = segment_views(segs@);
    assert(views[0] == segs@[0]@ && views[1] == segs@[1]@);
    let ra = A::from_segment(segs[0].as_slice());
    let rb = B::from_segment(segs[1].as_slice());
    proof {
        assert forall|a: A, b: B| #[trigger] address_of_pair(ns@, a, b) == Some(addr@) implies ra is Ok
            && rb is Ok by {
            lemma_address_unambiguous(ns@, seq![a.segment_of(), b.segment_of()], ns@, views);
            assert(seq![a.segment_of(), b.segment_of()][0] == views[0]);
            assert(seq![a.segment_of(), b.segment_of()][1] == views[1]);
        }
    }
    match (ra, rb) {
        (Ok(a), Ok(b)) => {
            assert(seq![a.segment_of(), b.segment_of()] =~= views);
            Ok((a, b))
        },
        (Err(e), _) => Err(e),
        (_, Err(e)) => Err(e),
    }
}

} // verus!
