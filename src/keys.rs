//! Key components and their byte segments.
use vstd::prelude::*;
use vstd::utf8::{decode_utf8, decode_utf8_encode_utf8, encode_utf8, encode_utf8_decode_utf8, valid_utf8};

use crate::endian::{
    be_bytes, be_to_uint, be_value, lemma_be_bytes_of_value, lemma_be_round_trip, lemma_be_value_bound,
    pow256, signed_be_bytes, uint_to_be,
};
use crate::error::StorageError;

verus! {

broadcast use crate::endian::lemma_be_bytes_len;

/// One component of a key: how it is written as a segment of bytes, and
/// read back from one.
pub trait KeySegment: Sized {
    /// The segment that this component is written as.
    spec fn segment_of(&self) -> Seq<u8>;

    /// Whether `b` is the segment of some component of this type.
    spec fn is_segment(b: Seq<u8>) -> bool;

    /// Whether two components denote the same key.
    spec fn same_key(&self, other: &Self) -> bool;

    /// The error that decoding `b` gives when it is no segment of this type.
    spec fn segment_error(b: Seq<u8>) -> StorageError;

    fn to_segment(&self) -> (r: Vec<u8>)
        ensures
            r@ == self.segment_of(),
    ;

    fn from_segment(b: &[u8]) -> (r: Result<Self, StorageError>)
        ensures
            r is Ok <==> Self::is_segment(b@),
            r matches Ok(v) ==> v.segment_of() == b@,
            r matches Err(e) ==> e == Self::segment_error(b@),
            forall|x: Self| #[trigger] x.segment_of() == b@ ==> (r matches Ok(v) && v.same_key(&x)),
    ;
}

/// Numeric facts on the powers of 256 that the integer widths use.
pub proof fn lemma_pow256_widths()
    ensures
        pow256(1) == 0x100,
        pow256(2) == 0x1_0000,
        pow256(4) == 0x1_0000_0000,
        pow256(8) == 0x1_0000_0000_0000_0000,
        pow256(16) == 0x1_0000_0000_0000_0000_0000_0000_0000_0000,
{
    reveal_with_fuel(pow256, 17);
}

/// A fixed-width segment decodes to the one value below `256^width` that it encodes.
proof fn lemma_uint_segment(b: Seq<u8>, width: nat)
    requires
        b.len() == width,
    ensures
        be_value(b) < pow256(width),
        be_bytes(be_value(b), width) == b,
        forall|x: nat| x < pow256(width) && #[trigger] be_bytes(x, width) == b ==> x == be_value(b),
{
    lemma_be_value_bound(b);
    lemma_be_bytes_of_value(b);
    assert forall|x: nat| x < pow256(width) && #[trigger] be_bytes(x, width) == b implies x
        == be_value(b) by {
        lemma_be_round_trip(x, width);
    }
}

/// Checks that `b` holds exactly `width` bytes.
fn check_width(b: &[u8], width: usize) -> (r: Result<(), StorageError>)
    ensures
        r is Ok <==> b@.len() == width,
        r matches Err(e) ==> e == (StorageError::SegmentLengthMismatch {
            expected: width,
            actual: b@.len() as usize,
        }),
{
    if b.len() == width {
        Ok(())
    } else {
        Err(StorageError::SegmentLengthMismatch { expected: width, actual: b.len() })
    }
}

/// Relies on `std::str::from_utf8`: it succeeds exactly on valid UTF-8,
/// and then holds the characters that the bytes encode.
#[verifier::external_body]
fn utf8_string(b: &[u8]) -> (r: Option<String>)
    ensures
        r is Some <==> valid_utf8(b@),
        r matches Some(s) ==> s@ == decode_utf8(b@),
{
    match std::str::from_utf8(b) {
        Ok(s) => Some(s.to_string()),
        Err(_) => None,
    }
}

impl KeySegment for Vec<u8> {
    open spec fn segment_of(&self) -> Seq<u8> {
        self@
    }

    open spec fn is_segment(b: Seq<u8>) -> bool {
        true
    }

    open spec fn same_key(&self, other: &Self) -> bool {
        self@ == other@
    }

    open spec fn segment_error(b: Seq<u8>) -> StorageError {
        StorageError::Decode
    }

    fn to_segment(&self) -> (r: Vec<u8>) {
        vstd::slice::slice_to_vec(self.as_slice())
    }

    fn from_segment(b: &[u8]) -> (r: Result<Self, StorageError>) {
        Ok(vstd::slice::slice_to_vec(b))
    }
}

impl KeySegment for String {
    open spec fn segment_of(&self) -> Seq<u8> {
        encode_utf8(self@)
    }

    open spec fn is_segment(b: Seq<u8>) -> bool {
        valid_utf8(b)
    }

    open spec fn same_key(&self, other: &Self) -> bool {
        self@ == other@
    }

    open spec fn segment_error(b: Seq<u8>) -> StorageError {
        StorageError::InvalidUtf8
    }

    fn to_segment(&self) -> (r: Vec<u8>) {
        vstd::slice::slice_to_vec(self.as_str().as_bytes())
    }

    fn from_segment(b: &[u8]) -> (r: Result<Self, StorageError>) {
        match utf8_string(b) {
            Some(s) => {
                proof {
                    decode_utf8_encode_utf8(b@);
                    assert forall|x: String| #[trigger] x.segment_of() == b@ implies x@ == s@ by {
                        encode_utf8_decode_utf8(x@);
                    }
                }
                Ok(s)
            },
            None => {
                proof {
                    assert forall|x: String| #[trigger] x.segment_of() != b@ by {
                        vstd::utf8::encode_utf8_valid_utf8(x@);
                    }
                }
                Err(StorageError::InvalidUtf8)
            },
        }
    }
}

impl KeySegment for u8 {
    open spec fn segment_of(&self) -> Seq<u8> {
        be_bytes(*self as nat, 1)
    }

    open spec fn is_segment(b: Seq<u8>) -> bool {
        b.len() == 1
    }

    open spec fn same_key(&self, other: &Self) -> bool {
        *self == *other
    }

    open spec fn segment_error(b: Seq<u8>) -> StorageError {
        StorageError::SegmentLengthMismatch { expected: 1, actual: b.len() as usize }
    }

    fn to_segment(&self) -> (r: Vec<u8>) {
        uint_to_be(*self as u128, 1)
    }

    fn from_segment(b: &[u8]) -> (r: Result<Self, StorageError>) {
        if let Err(e) = check_width(b, 1) {
            return Err(e);
        }
        let v = be_to_uint(b);
        proof {
            lemma_pow256_widths();
            lemma_uint_segment(b@, 1);
        }
        Ok(v as u8)
    }
}

impl KeySegment for u16 {
    open spec fn segment_of(&self) -> Seq<u8> {
        be_bytes(*self as nat, 2)
    }

    open spec fn is_segment(b: Seq<u8>) -> bool {
        b.len() == 2
    }

    open spec fn same_key(&self, other: &Self) -> bool {
        *self == *other
    }

    open spec fn segment_error(b: Seq<u8>) -> StorageError {
        StorageError::SegmentLengthMismatch { expected: 2, actual: b.len() as usize }
    }

    fn to_segment(&self) -> (r: Vec<u8>) {
        uint_to_be(*self as u128, 2)
    }

    fn from_segment(b: &[u8]) -> (r: Result<Self, StorageError>) {
        if let Err(e) = check_width(b, 2) {
            return Err(e);
        }
        let v = be_to_uint(b);
        proof {
            lemma_pow256_widths();
            lemma_uint_segment(b@, 2);
        }
        Ok(v as u16)
    }
}

impl KeySegment for u32 {
    open spec fn segment_of(&self) -> Seq<u8> {
        be_bytes(*self as nat, 4)
    }

    open spec fn is_segment(b: Seq<u8>) -> bool {
        b.len() == 4
    }

    open spec fn same_key(&self, other: &Self) -> bool {
        *self == *other
    }

    open spec fn segment_error(b: Seq<u8>) -> StorageError {
        StorageError::SegmentLengthMismatch { expected: 4, actual: b.len() as usize }
    }

    fn to_segment(&self) -> (r: Vec<u8>) {
        uint_to_be(*self as u128, 4)
    }

    fn from_segment(b: &[u8]) -> (r: Result<Self, StorageError>) {
        if let Err(e) = check_width(b, 4) {
            return Err(e);
        }
        let v = be_to_uint(b);
        proof {
            lemma_pow256_widths();
            lemma_uint_segment(b@, 4);
        }
        Ok(v as u32)
    }
}

impl KeySegment for u64 {
    open spec fn segment_of(&self) -> Seq<u8> {
        be_bytes(*self as nat, 8)
    }

    open spec fn is_segment(b: Seq<u8>) -> bool {
        b.len() == 8
    }

    open spec fn same_key(&self, other: &Self) -> bool {
        *self == *other
    }

    open spec fn segment_error(b: Seq<u8>) -> StorageError {
        StorageError::SegmentLengthMismatch { expected: 8, actual: b.len() as usize }
    }

    fn to_segment(&self) -> (r: Vec<u8>) {
        uint_to_be(*self as u128, 8)
    }

    fn from_segment(b: &[u8]) -> (r: Result<Self, StorageError>) {
        if let Err(e) = check_width(b, 8) {
            return Err(e);
        }
        let v = be_to_uint(b);
        proof {
            lemma_pow256_widths();
            lemma_uint_segment(b@, 8);
        }
        Ok(v as u64)
    }
}

impl KeySegment for u128 {
    open spec fn segment_of(&self) -> Seq<u8> {
        be_bytes(*self as nat, 16)
    }

    open spec fn is_segment(b: Seq<u8>) -> bool {
        b.len() == 16
    }

    open spec fn same_key(&self, other: &Self) -> bool {
        *self == *other
    }

    open spec fn segment_error(b: Seq<u8>) -> StorageError {
        StorageError::SegmentLengthMismatch { expected: 16, actual: b.len() as usize }
    }

    fn to_segment(&self) -> (r: Vec<u8>) {
        uint_to_be(*self as u128, 16)
    }

    fn from_segment(b: &[u8]) -> (r: Result<Self, StorageError>) {
        if let Err(e) = check_width(b, 16) {
            return Err(e);
        }
        let v = be_to_uint(b);
        proof {
            lemma_pow256_widths();
            lemma_uint_segment(b@, 16);
        }
        Ok(v as u128)
    }
}

impl KeySegment for i8 {
    open spec fn segment_of(&self) -> Seq<u8> {
        signed_be_bytes(*self as int, 1)
    }

    open spec fn is_segment(b: Seq<u8>) -> bool {
        b.len() == 1
    }

    open spec fn same_key(&self, other: &Self) -> bool {
        *self == *other
    }

    open spec fn segment_error(b: Seq<u8>) -> StorageError {
        StorageError::SegmentLengthMismatch { expected: 1, actual: b.len() as usize }
    }

    fn to_segment(&self) -> (r: Vec<u8>) {
        proof {
            lemma_pow256_widths();
        }
        uint_to_be((*self as i128 + 0x80) as u128, 1)
    }

    fn from_segment(b: &[u8]) -> (r: Result<Self, StorageError>) {
        if let Err(e) = check_width(b, 1) {
            return Err(e);
        }
        let v = be_to_uint(b);
        proof {
            lemma_pow256_widths();
            lemma_uint_segment(b@, 1);
        }
        let r = (v as i128 - 0x80) as i8;
        proof {
            assert forall|x: i8| #[trigger] x.segment_of() == b@ implies x == r by {
                assert(((x as int + pow256(1) / 2) as nat) < pow256(1));
            }
        }
        Ok(r)
    }
}

impl KeySegment for i16 {
    open spec fn segment_of(&self) -> Seq<u8> {
        signed_be_bytes(*self as int, 2)
    }

    open spec fn is_segment(b: Seq<u8>) -> bool {
        b.len() == 2
    }

    open spec fn same_key(&self, other: &Self) -> bool {
        *self == *other
    }

    open spec fn segment_error(b: Seq<u8>) -> StorageError {
        StorageError::SegmentLengthMismatch { expected: 2, actual: b.len() as usize }
    }

    fn to_segment(&self) -> (r: Vec<u8>) {
        proof {
            lemma_pow256_widths();
        }
        uint_to_be((*self as i128 + 0x8000) as u128, 2)
    }

    fn from_segment(b: &[u8]) -> (r: Result<Self, StorageError>) {
        if let Err(e) = check_width(b, 2) {
            return Err(e);
        }
        let v = be_to_uint(b);
        proof {
            lemma_pow256_widths();
            lemma_uint_segment(b@, 2);
        }
        let r = (v as i128 - 0x8000) as i16;
        proof {
            assert forall|x: i16| #[trigger] x.segment_of() == b@ implies x == r by {
                assert(((x as int + pow256(2) / 2) as nat) < pow256(2));
            }
        }
        Ok(r)
    }
}

impl KeySegment for i32 {
    open spec fn segment_of(&self) -> Seq<u8> {
        signed_be_bytes(*self as int, 4)
    }

    open spec fn is_segment(b: Seq<u8>) -> bool {
        b.len() == 4
    }

    open spec fn same_key(&self, other: &Self) -> bool {
        *self == *other
    }

    open spec fn segment_error(b: Seq<u8>) -> StorageError {
        StorageError::SegmentLengthMismatch { expected: 4, actual: b.len() as usize }
    }

    fn to_segment(&self) -> (r: Vec<u8>) {
        proof {
            lemma_pow256_widths();
        }
        uint_to_be((*self as i128 + 0x80000000) as u128, 4)
    }

    fn from_segment(b: &[u8]) -> (r: Result<Self, StorageError>) {
        if let Err(e) = check_width(b, 4) {
            return Err(e);
        }
        let v = be_to_uint(b);
        proof {
            lemma_pow256_widths();
            lemma_uint_segment(b@, 4);
        }
        let r = (v as i128 - 0x80000000) as i32;
        proof {
            assert forall|x: i32| #[trigger] x.segment_of() == b@ implies x == r by {
                assert(((x as int + pow256(4) / 2) as nat) < pow256(4));
            }
        }
        Ok(r)
    }
}

impl KeySegment for i64 {
    open spec fn segment_of(&self) -> Seq<u8> {
        signed_be_bytes(*self as int, 8)
    }

    open spec fn is_segment(b: Seq<u8>) -> bool {
        b.len() == 8
    }

    open spec fn same_key(&self, other: &Self) -> bool {
        *self == *other
    }

    open spec fn segment_error(b: Seq<u8>) -> StorageError {
        StorageError::SegmentLengthMismatch { expected: 8, actual: b.len() as usize }
    }

    fn to_segment(&self) -> (r: Vec<u8>) {
        proof {
            lemma_pow256_widths();
        }
        uint_to_be((*self as i128 + 0x8000000000000000) as u128, 8)
    }

    fn from_segment(b: &[u8]) -> (r: Result<Self, StorageError>) {
        if let Err(e) = check_width(b, 8) {
            return Err(e);
        }
        let v = be_to_uint(b);
        proof {
            lemma_pow256_widths();
            lemma_uint_segment(b@, 8);
        }
        let r = (v as i128 - 0x8000000000000000) as i64;
        proof {
            assert forall|x: i64| #[trigger] x.segment_of() == b@ implies x == r by {
                assert(((x as int + pow256(8) / 2) as nat) < pow256(8));
            }
        }
        Ok(r)
    }
}

impl KeySegment for i128 {
    open spec fn segment_of(&self) -> Seq<u8> {
        signed_be_bytes(*self as int, 16)
    }

    open spec fn is_segment(b: Seq<u8>) -> bool {
        b.len() == 16
    }

    open spec fn same_key(&self, other: &Self) -> bool {
        *self == *other
    }

    open spec fn segment_error(b: Seq<u8>) -> StorageError {
        StorageError::SegmentLengthMismatch { expected: 16, actual: b.len() as usize }
    }

    fn to_segment(&self) -> (r: Vec<u8>) {
        proof {
            lemma_pow256_widths();
        }
        let shifted: u128 = if *self < 0 {
            (*self + i128::MAX + 1) as u128
        } else {
            *self as u128 + 0x80000000000000000000000000000000
        };
        uint_to_be(shifted, 16)
    }

    fn from_segment(b: &[u8]) -> (r: Result<Self, StorageError>) {
        if let Err(e) = check_width(b, 16) {
            return Err(e);
        }
        let v = be_to_uint(b);
        proof {
            lemma_pow256_widths();
            lemma_uint_segment(b@, 16);
        }
        let r: i128 = if v >= 0x80000000000000000000000000000000 {
            (v - 0x80000000000000000000000000000000) as i128
        } else {
            v as i128 - i128::MAX - 1
        };
        proof {
            assert forall|x: i128| #[trigger] x.segment_of() == b@ implies x == r by {
                assert(((x as int + pow256(16) / 2) as nat) < pow256(16));
            }
        }
        Ok(r)
    }
}

} // verus!
