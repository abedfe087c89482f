//! Byte-layout primitives: little-endian scalars read out of byte buffers,
//! and the bridges between raw bytes and text.
//!
//! All multi-byte scalars in the on-disk formats are little-endian.  Records
//! are decoded by copying their fields out of the buffer, after an explicit
//! length check; nothing is reinterpreted in place.

use core::cmp::Ordering;

use vstd::prelude::*;
use vstd::slice::slice_subrange;
use vstd::string::StringSliceAdditionalSpecFns;
use vstd::utf8::{encode_scalar, encode_utf8, is_scalar, valid_utf8};

use crate::error::Error;

verus! {

/// The value of the four bytes starting at `i`, read as an unsigned 32-bit
/// little-endian integer.
pub open spec fn le32_at(b: Seq<u8>, i: int) -> u32
    recommends
        0 <= i,
        i + 4 <= b.len(),
{
    (b[i] as int + b[i + 1] as int * 0x100 + b[i + 2] as int * 0x10000 + b[i + 3] as int
        * 0x1000000) as u32
}

/// The value of the two bytes starting at `i`, read as an unsigned 16-bit
/// little-endian integer.
pub open spec fn le16_at(b: Seq<u8>, i: int) -> u16
    recommends
        0 <= i,
        i + 2 <= b.len(),
{
    (b[i] as int + b[i + 1] as int * 0x100) as u16
}

/// A 32-bit scalar as it appears in an on-disk record.
#[derive(Debug, Clone, Copy, PartialEq, Eq, Structural)]
pub struct LE32(pub u32);

impl LE32 {
    /// The numeric value of the scalar.
    pub fn read(self) -> (r: u32)
        ensures
            r == self.0,
    {
        self.0
    }

    /// The numeric value of the scalar, widened to `usize`.
    pub fn us(self) -> (r: usize)
        ensures
            r == self.0 as usize,
    {
        self.0 as usize
    }

    /// Consumes four bytes from the head of `slice`: returns the scalar they
    /// hold and the remaining tail, or `BufferTooSmall` when fewer than four
    /// bytes remain.
    pub fn from(slice: &[u8]) -> (r: Result<(Self, &[u8]), Error>)
        ensures
            slice@.len() >= 4 ==> (r matches Ok(p) && p.0.0 == le32_at(slice@, 0) && p.1@
                == slice@.subrange(4, slice@.len() as int)),
            slice@.len() < 4 ==> (r matches Err(e) && e == Error::BufferTooSmall),
    {
        if slice.len() < 4 {
            return Err(Error::BufferTooSmall);
        }
        let v = read_le32(slice, 0);
        let tail = slice_subrange(slice, 4, slice.len());
        Ok((LE32(v), tail))
    }
}

/// Reads the little-endian 32-bit scalar at byte offset `i`.
pub fn read_le32(b: &[u8], i: usize) -> (r: u32)
    requires
        i + 4 <= b@.len(),
    ensures
        r == le32_at(b@, i as int),
{
    let b0 = b[i] as u32;
    let b1 = b[i + 1] as u32;
    let b2 = b[i + 2] as u32;
    let b3 = b[i + 3] as u32;
    b0 + b1 * 0x100 + b2 * 0x10000 + b3 * 0x1000000
}

/// Reads the little-endian 16-bit scalar at byte offset `i`.
pub fn read_le16(b: &[u8], i: usize) -> (r: u16)
    requires
        i + 2 <= b@.len(),
    ensures
        r == le16_at(b@, i as int),
{
    let b0 = b[i] as u16;
    let b1 = b[i + 1] as u16;
    b0 + b1 * 0x100
}

/// Reads `n` consecutive little-endian 32-bit scalars starting at byte
/// offset `start`.
pub fn read_le32_run(b: &[u8], start: usize, n: usize) -> (r: Vec<u32>)
    requires
        start + n * 4 <= b@.len(),
    ensures
        r@.len() == n,
        forall|k: int| 0 <= k < n ==> r@[k] == le32_at(b@, start + 4 * k),
{
    let blen: usize = b.len();
    let mut out: Vec<u32> = Vec::new();
    let mut i: usize = 0;
    while i < n
        invariant
            i <= n,
            start + n * 4 <= blen,
            blen == b@.len(),
            out@.len() == i,
            forall|k: int| 0 <= k < i ==> out@[k] == le32_at(b@, start + 4 * k),
        decreases n - i,
    {
        let v = read_le32(b, start + 4 * i);
        out.push(v);
        i = i + 1;
    }
    out
}

/// Lexicographic (byte-wise) ordering of two byte sequences.
pub open spec fn bytes_cmp(a: Seq<u8>, b: Seq<u8>) -> Ordering
    decreases a.len(),
{
    if a.len() == 0 && b.len() == 0 {
        Ordering::Equal
    } else if a.len() == 0 {
        Ordering::Less
    } else if b.len() == 0 {
        Ordering::Greater
    } else if a[0] < b[0] {
        Ordering::Less
    } else if a[0] > b[0] {
        Ordering::Greater
    } else {
        bytes_cmp(a.skip(1), b.skip(1))
    }
}

/// The byte-wise order is equality exactly on equal sequences.
pub proof fn lemma_bytes_cmp_equal(a: Seq<u8>, b: Seq<u8>)
    ensures
        bytes_cmp(a, b) == Ordering::Equal <==> a == b,
    decreases a.len(),
{
    if a.len() == 0 && b.len() == 0 {
        assert(a =~= b);
    } else if a.len() == 0 || b.len() == 0 {
        assert(a != b);
    } else if a[0] == b[0] {
        lemma_bytes_cmp_equal(a.skip(1), b.skip(1));
        if a.skip(1) == b.skip(1) {
            assert forall|i: int| 0 <= i < a.len() implies a[i] == b[i] by {
                if i >= 1 {
                    assert(a[i] == a.skip(1)[i - 1]);
                    assert(b[i] == b.skip(1)[i - 1]);
                }
            }
            assert(a =~= b);
        } else {
            assert(a != b) by {
                if a == b {
                    assert(a.skip(1) =~= b.skip(1));
                }
            }
        }
    } else {
        assert(a != b) by {
            if a == b {
                assert(a[0] == b[0]);
            }
        }
    }
}

/// The byte-wise order is antisymmetric: swapping the arguments swaps
/// `Less` and `Greater`.
pub proof fn lemma_bytes_cmp_swap(a: Seq<u8>, b: Seq<u8>)
    ensures
        bytes_cmp(a, b) == Ordering::Less <==> bytes_cmp(b, a) == Ordering::Greater,
        bytes_cmp(a, b) == Ordering::Equal <==> bytes_cmp(b, a) == Ordering::Equal,
    decreases a.len(),
{
    if a.len() != 0 && b.len() != 0 && a[0] == b[0] {
        lemma_bytes_cmp_swap(a.skip(1), b.skip(1));
    }
}

/// The byte-wise order is transitive in `Less`.
pub proof fn lemma_bytes_cmp_trans(a: Seq<u8>, b: Seq<u8>, c: Seq<u8>)
    requires
        bytes_cmp(a, b) == Ordering::Less,
        bytes_cmp(b, c) == Ordering::Less,
    ensures
        bytes_cmp(a, c) == Ordering::Less,
    decreases a.len(),
{
    if a.len() == 0 {
        assert(b.len() > 0);
        assert(c.len() > 0);
    } else {
        assert(b.len() > 0);
        assert(c.len() > 0);
        if a[0] == b[0] && b[0] == c[0] {
            lemma_bytes_cmp_trans(a.skip(1), b.skip(1), c.skip(1));
        }
    }
}

/// Compares two byte slices in lexicographic order.
pub fn cmp_bytes(a: &[u8], b: &[u8]) -> (r: Ordering)
    ensures
        r == bytes_cmp(a@, b@),
{
    let alen: usize = a.len();
    let blen: usize = b.len();
    let mut i: usize = 0;
    proof {
        assert(a@.skip(0) =~= a@);
        assert(b@.skip(0) =~= b@);
    }
    loop
        invariant
            i <= alen,
            i <= blen,
            alen == a@.len(),
            blen == b@.len(),
            bytes_cmp(a@, b@) == bytes_cmp(a@.skip(i as int), b@.skip(i as int)),
        decreases alen - i,
    {
        if i >= alen && i >= blen {
            return Ordering::Equal;
        }
        if i >= alen {
            return Ordering::Less;
        }
        if i >= blen {
            return Ordering::Greater;
        }
        if a[i] < b[i] {
            return Ordering::Less;
        }
        if a[i] > b[i] {
            return Ordering::Greater;
        }
        proof {
            assert(a@.skip(i as int).skip(1) =~= a@.skip(i + 1));
            assert(b@.skip(i as int).skip(1) =~= b@.skip(i + 1));
        }
        i = i + 1;
    }
}

/// Position of the first zero byte at or after `from`, or the sequence's
/// length when no zero byte follows.
pub open spec fn first_zero(b: Seq<u8>, from: int) -> int
    decreases b.len() - from when 0 <= from <= b.len()
{
    if from >= b.len() {
        b.len() as int
    } else if b[from] == 0 {
        from
    } else {
        first_zero(b, from + 1)
    }
}

/// Bounds and meaning of `first_zero`: no zero byte lies in between, and a
/// zero byte sits at the returned position unless the end was reached.
pub proof fn lemma_first_zero(b: Seq<u8>, from: int)
    requires
        0 <= from <= b.len(),
    ensures
        from <= first_zero(b, from) <= b.len(),
        forall|k: int| from <= k < first_zero(b, from) ==> b[k] != 0,
        first_zero(b, from) < b.len() ==> b[first_zero(b, from)] == 0,
    decreases b.len() - from,
{
    if from < b.len() && b[from] != 0 {
        lemma_first_zero(b, from + 1);
    }
}

/// Scans for the first zero byte at or after `from`.
pub fn find_zero(b: &[u8], from: usize) -> (r: usize)
    requires
        from <= b@.len(),
    ensures
        r == first_zero(b@, from as int),
{
    let blen: usize = b.len();
    let mut i: usize = from;
    loop
        invariant
            from <= i <= blen,
            blen == b@.len(),
            first_zero(b@, from as int) == first_zero(b@, i as int),
        decreases blen - i,
    {
        if i >= blen {
            return i;
        }
        if b[i] == 0 {
            return i;
        }
        i = i + 1;
    }
}


/// Some byte of the sequence is a null.
pub open spec fn has_zero_byte(t: Seq<u8>) -> bool {
    exists|i: int| 0 <= i < t.len() && t[i] == 0
}

/// The UTF-8 encoding of a scalar other than zero contains no zero byte:
/// a one-byte encoding is the scalar itself, and every longer encoding
/// sets the top bit of each of its bytes.
pub proof fn lemma_encode_scalar_no_zero(s: u32)
    requires
        is_scalar(s),
        s != 0,
    ensures
        !has_zero_byte(encode_scalar(s)),
{
    if vstd::utf8::has_width_1_encoding(s) {
        assert((s & 0x7F) as u8 != 0) by (bit_vector)
            requires
                1 <= s <= 0x7F,
        ;
    } else {
        assert(0xC0u8 | ((s >> 6) & 0x1F) as u8 != 0) by (bit_vector);
        assert(0xE0u8 | ((s >> 12) & 0x0F) as u8 != 0) by (bit_vector);
        assert(0xF0u8 | ((s >> 18) & 0x7) as u8 != 0) by (bit_vector);
        assert(0x80u8 | (s & 0x3F) as u8 != 0) by (bit_vector);
        assert(0x80u8 | ((s >> 6) & 0x3F) as u8 != 0) by (bit_vector);
        assert(0x80u8 | ((s >> 12) & 0x3F) as u8 != 0) by (bit_vector);
    }
}

/// The UTF-8 encoding of a character sequence without the NUL character
/// contains no zero byte.
pub proof fn lemma_encode_utf8_no_zero(q: Seq<char>)
    requires
        forall|i: int| 0 <= i < q.len() ==> (#[trigger] q[i]) as u32 != 0,
    ensures
        !has_zero_byte(encode_utf8(q)),
    decreases q.len(),
{
    if q.len() > 0 {
        vstd::utf8::char_is_scalar(q[0]);
        lemma_encode_scalar_no_zero(q[0] as u32);
        assert(forall|i: int|
            0 <= i < q.drop_first().len() ==> (#[trigger] q.drop_first()[i]) as u32 != 0);
        lemma_encode_utf8_no_zero(q.drop_first());
        let a = encode_scalar(q[0] as u32);
        let b = encode_utf8(q.drop_first());
        assert forall|k: int| 0 <= k < (a + b).len() implies (a + b)[k] != 0 by {
            if k < a.len() {
                assert(a[k] != 0);
            } else {
                assert(b[k - a.len()] != 0);
            }
        }
    }
}

/// Relies on `char::from_u32`: it returns `Some` exactly on Unicode scalar
/// values, and the returned character casts back to the argument.
#[verifier::external_body]
pub(crate) fn char_from_u32(u: u32) -> (r: Option<char>)
    ensures
        r is Some <==> is_scalar(u),
        r matches Some(c) ==> c as u32 == u,
{
    char::from_u32(u)
}

/// Relies on `String`'s `FromIterator<char>` impl: collecting an iterator
/// over the characters of `v` yields the string with exactly those
/// characters.
#[verifier::external_body]
pub(crate) fn string_from_chars(v: &Vec<char>) -> (r: String)
    ensures
        r@ == v@,
{
    v.iter().collect()
}

/// Relies on `core::str::from_utf8`: it succeeds exactly on valid UTF-8,
/// and the returned string slice views the input bytes.
#[verifier::external_body]
pub(crate) fn bytes_to_str(b: &[u8]) -> (r: Option<&str>)
    ensures
        r is Some <==> valid_utf8(b@),
        r matches Some(s) ==> s.spec_bytes() == b@,
{
    core::str::from_utf8(b).ok()
}

} // verus!
