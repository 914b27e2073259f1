//! Fixed-width big-endian integer encoding, the order-preserving signed
//! variant, and the two-byte length prefix used between key segments.
use vstd::prelude::*;

verus! {

/// `256^n`.
pub open spec fn pow256(n: nat) -> nat
    decreases n,
{
    if n == 0 {
        1
    } else {
        256 * pow256((n - 1) as nat)
    }
}

/// The `width` low-order bytes of `v`, most significant first.
pub open spec fn be_bytes(v: nat, width: nat) -> Seq<u8>
    decreases width,
{
    if width == 0 {
        Seq::empty()
    } else {
        be_bytes(v / 256, (width - 1) as nat).push((v % 256) as u8)
    }
}

/// The number that a big-endian byte string denotes.
pub open spec fn be_value(b: Seq<u8>) -> nat
    decreases b.len(),
{
    if b.len() == 0 {
        0
    } else {
        be_value(b.drop_last()) * 256 + b.last() as nat
    }
}

/// Encoding of a signed value of `width` bytes: the value shifted up by
/// half the range, which is the two's complement form with its sign bit
/// flipped, so that byte order follows numeric order.
pub open spec fn signed_be_bytes(v: int, width: nat) -> Seq<u8> {
    be_bytes((v + pow256(width) / 2) as nat, width)
}

/// Two-byte big-endian length prefix.
pub open spec fn len16(n: nat) -> Seq<u8> {
    be_bytes(n, 2)
}

pub proof fn lemma_pow256_pos(n: nat)
    ensures
        pow256(n) >= 1,
    decreases n,
{
    if n > 0 {
        lemma_pow256_pos((n - 1) as nat);
    }
}

pub proof fn lemma_pow256_mono(a: nat, b: nat)
    requires
        a <= b,
    ensures
        pow256(a) <= pow256(b),
    decreases b,
{
    if a < b {
        lemma_pow256_mono(a, (b - 1) as nat);
        lemma_pow256_pos((b - 1) as nat);
    }
}

pub broadcast proof fn lemma_be_bytes_len(v: nat, width: nat)
    ensures
        #[trigger] be_bytes(v, width).len() == width,
    decreases width,
{
    if width > 0 {
        lemma_be_bytes_len(v / 256, (width - 1) as nat);
    }
}

pub proof fn lemma_be_value_bound(b: Seq<u8>)
    ensures
        be_value(b) < pow256(b.len()),
    decreases b.len(),
{
    if b.len() > 0 {
        lemma_be_value_bound(b.drop_last());
        let p = pow256((b.len() - 1) as nat);
        let x = be_value(b.drop_last());
        assert(x * 256 + (b.last() as nat) < p * 256) by (nonlinear_arith)
            requires
                x < p,
                b.last() < 256,
        ;
    }
}

/// Reading back the encoding of a value that fits gives the value.
pub proof fn lemma_be_round_trip(v: nat, width: nat)
    requires
        v < pow256(width),
    ensures
        be_value(be_bytes(v, width)) == v,
        be_bytes(v, width).len() == width,
    decreases width,
{
    lemma_be_bytes_len(v, width);
    if width > 0 {
        let p = pow256((width - 1) as nat);
        assert(v / 256 < p) by (nonlinear_arith)
            requires
                v < 256 * p,
        ;
        lemma_be_round_trip(v / 256, (width - 1) as nat);
        let b = be_bytes(v, width);
        assert(b.drop_last() == be_bytes(v / 256, (width - 1) as nat));
        assert(v == (v / 256) * 256 + v % 256) by (nonlinear_arith);
    }
}

/// Encoding the value of a byte string at its own width gives the string back.
pub proof fn lemma_be_bytes_of_value(b: Seq<u8>)
    ensures
        be_bytes(be_value(b), b.len()) == b,
    decreases b.len(),
{
    if b.len() > 0 {
        let x = be_value(b.drop_last());
        let v = x * 256 + (b.last() as nat);
        assert(v / 256 == x && v % 256 == (b.last() as nat)) by (nonlinear_arith)
            requires
                v == x * 256 + (b.last() as nat),
                b.last() < 256,
        ;
        lemma_be_bytes_of_value(b.drop_last());
        assert(be_bytes(v, b.len()) =~= b);
    }
}

/// Two values that fit in `width` bytes have the same encoding only if equal.
pub proof fn lemma_be_bytes_injective(a: nat, b: nat, width: nat)
    requires
        a < pow256(width),
        b < pow256(width),
        be_bytes(a, width) == be_bytes(b, width),
    ensures
        a == b,
{
    lemma_be_round_trip(a, width);
    lemma_be_round_trip(b, width);
}

/// Big-endian encoding of `v` in `width` bytes.
pub fn uint_to_be(v: u128, width: usize) -> (r: Vec<u8>)
    ensures
        r@ == be_bytes(v as nat, width as nat),
    decreases width,
{
    if width == 0 {
        Vec::new()
    } else {
        let mut r = uint_to_be(v / 256, width - 1);
        r.push((v % 256) as u8);
        r
    }
}

/// The number denoted by at most sixteen big-endian bytes.
pub fn be_to_uint(b: &[u8]) -> (r: u128)
    requires
        b@.len() <= 16,
    ensures
        r as nat == be_value(b@),
{
    let mut acc: u128 = 0;
    let mut i: usize = 0;
    while i < b.len()
        invariant
            i <= b@.len() <= 16,
            acc as nat == be_value(b@.subrange(0, i as int)),
        decreases b@.len() - i,
    {
        let ghost prefix = b@.subrange(0, i as int);
        proof {
            lemma_be_value_bound(prefix);
            lemma_pow256_mono(i as nat, 15);
            reveal_with_fuel(pow256, 16);
            assert(pow256(15) == 0x1_0000_0000_0000_0000_0000_0000_0000_00nat);
            assert(b@.subrange(0, i + 1).drop_last() =~= prefix);
        }
        acc = acc * 256 + b[i] as u128;
        i += 1;
    }
    assert(b@.subrange(0, b@.len() as int) =~= b@);
    acc
}

/// Two-byte big-endian length prefix of `n`.
pub fn len16_bytes(n: usize) -> (r: Vec<u8>)
    requires
        n <= 0xffff,
    ensures
        r@ == len16(n as nat),
        r@.len() == 2,
{
    proof {
        lemma_be_bytes_len(n as nat, 2);
    }
    uint_to_be(n as u128, 2)
}

} // verus!
