//! Little-endian fixed-width integers and the decimal text of an id.

use vstd::prelude::*;
use vstd::arithmetic::div_mod::lemma_fundamental_div_mod_converse;
use crate::error::Error;

verus! {

/// The four little-endian bytes of a 32-bit integer.
pub open spec fn u32_le_bytes(x: u32) -> Seq<u8> {
    seq![
        (x % 256) as u8,
        (x / 256 % 256) as u8,
        (x / 65536 % 256) as u8,
        (x / 16777216 % 256) as u8,
    ]
}

/// The 32-bit integer that four little-endian bytes stand for.
pub open spec fn u32_from_le(s: Seq<u8>) -> u32 {
    ((s[0] as int) + 256 * (s[1] as int) + 65536 * (s[2] as int) + 16777216 * (s[3] as int)) as u32
}

/// The eight little-endian bytes of a 64-bit integer.
pub open spec fn u64_le_bytes(x: u64) -> Seq<u8> {
    u32_le_bytes((x % 0x1_0000_0000) as u32) + u32_le_bytes((x / 0x1_0000_0000) as u32)
}

/// The 64-bit integer that eight little-endian bytes stand for.
pub open spec fn u64_from_le(s: Seq<u8>) -> u64 {
    (u32_from_le(s.subrange(0, 4)) as int + 0x1_0000_0000 * (u32_from_le(s.subrange(4, 8)) as int))
        as u64
}

/// Four bytes, and the integer can be read back from them.
pub proof fn lemma_u32_le_roundtrip(x: u32)
    ensures
        u32_le_bytes(x).len() == 4,
        u32_from_le(u32_le_bytes(x)) == x,
{
}

/// The bytes of the integer that four bytes stand for are those bytes.
pub proof fn lemma_u32_le_inverse(s: Seq<u8>)
    requires
        s.len() == 4,
    ensures
        u32_le_bytes(u32_from_le(s)) == s,
{
    let a = s[0] as int;
    let b = s[1] as int;
    let c = s[2] as int;
    let d = s[3] as int;
    let x = u32_from_le(s) as int;
    assert(x == a + 256 * b + 65536 * c + 16777216 * d);
    lemma_fundamental_div_mod_converse(x, 256, b + 256 * c + 65536 * d, a);
    lemma_fundamental_div_mod_converse(x / 256, 256, c + 256 * d, b);
    lemma_fundamental_div_mod_converse(x, 65536, c + 256 * d, a + 256 * b);
    lemma_fundamental_div_mod_converse(x / 65536, 256, d, c);
    lemma_fundamental_div_mod_converse(x, 16777216, d, a + 256 * b + 65536 * c);
    lemma_fundamental_div_mod_converse(x / 16777216, 256, 0, d);
    assert(u32_le_bytes(u32_from_le(s)) =~= s);
}

/// Eight bytes, and the integer can be read back from them.
pub proof fn lemma_u64_le_roundtrip(x: u64)
    ensures
        u64_le_bytes(x).len() == 8,
        u64_from_le(u64_le_bytes(x)) == x,
{
    let lo = (x % 0x1_0000_0000) as u32;
    let hi = (x / 0x1_0000_0000) as u32;
    lemma_u32_le_roundtrip(lo);
    lemma_u32_le_roundtrip(hi);
    assert(u64_le_bytes(x).subrange(0, 4) =~= u32_le_bytes(lo));
    assert(u64_le_bytes(x).subrange(4, 8) =~= u32_le_bytes(hi));
}

/// The bytes of the integer that eight bytes stand for are those bytes.
pub proof fn lemma_u64_le_inverse(s: Seq<u8>)
    requires
        s.len() == 8,
    ensures
        u64_le_bytes(u64_from_le(s)) == s,
{
    let low = u32_from_le(s.subrange(0, 4));
    let high = u32_from_le(s.subrange(4, 8));
    let x = u64_from_le(s) as int;
    lemma_u32_le_inverse(s.subrange(0, 4));
    lemma_u32_le_inverse(s.subrange(4, 8));
    lemma_fundamental_div_mod_converse(x, 0x1_0000_0000, high as int, low as int);
    assert(u64_le_bytes(u64_from_le(s)) =~= s.subrange(0, 4) + s.subrange(4, 8));
    assert(s.subrange(0, 4) + s.subrange(4, 8) =~= s);
}

/// The four little-endian bytes of a 32-bit integer.
pub fn u32_to_le_bytes(x: u32) -> (out: Vec<u8>)
    ensures
        out@ == u32_le_bytes(x),
        out@.len() == 4,
{
    let mut out: Vec<u8> = Vec::with_capacity(4);
    out.push((x % 256) as u8);
    out.push((x / 256 % 256) as u8);
    out.push((x / 65536 % 256) as u8);
    out.push((x / 16777216 % 256) as u8);
    assert(out@ =~= u32_le_bytes(x));
    out
}

/// Reads a 32-bit integer from four little-endian bytes.
pub fn u32_from_le_bytes(s: &[u8]) -> (x: u32)
    requires
        s@.len() == 4,
    ensures
        x == u32_from_le(s@),
{
    s[0] as u32 + 256 * (s[1] as u32) + 65536 * (s[2] as u32) + 16777216 * (s[3] as u32)
}

/// The eight little-endian bytes of a 64-bit integer.
pub fn u64_to_le_bytes(x: u64) -> (out: Vec<u8>)
    ensures
        out@ == u64_le_bytes(x),
        out@.len() == 8,
{
    let mut out = u32_to_le_bytes((x % 0x1_0000_0000) as u32);
    let mut high = u32_to_le_bytes((x / 0x1_0000_0000) as u32);
    out.append(&mut high);
    out
}

/// Reads a 64-bit integer from eight little-endian bytes.
pub fn u64_from_le_bytes(s: &[u8]) -> (x: u64)
    requires
        s@.len() == 8,
    ensures
        x == u64_from_le(s@),
{
    let low = u32_from_le_bytes(vstd::slice::slice_subrange(s, 0, 4));
    let high = u32_from_le_bytes(vstd::slice::slice_subrange(s, 4, 8));
    low as u64 + 0x1_0000_0000 * (high as u64)
}

/// An unsigned integer tagged with its width.
#[derive(Debug, Clone, Copy, PartialEq, Eq, Structural, PartialOrd, Ord)]
pub enum UInt {
    U32(u32),
    U64(u64),
}

impl UInt {
    /// The number of bytes of the encoded integer.
    pub open spec fn spec_len(self) -> nat {
        match self {
            UInt::U32(_) => 4,
            UInt::U64(_) => 8,
        }
    }

    /// The little-endian bytes of the integer.
    pub open spec fn spec_encode(self) -> Seq<u8> {
        match self {
            UInt::U32(v) => u32_le_bytes(v),
            UInt::U64(v) => u64_le_bytes(v),
        }
    }

    /// What a byte sequence decodes to: the width is taken from the length.
    pub open spec fn spec_decode(s: Seq<u8>) -> Result<UInt, Error> {
        if s.len() == 4 {
            Ok(UInt::U32(u32_from_le(s)))
        } else if s.len() == 8 {
            Ok(UInt::U64(u64_from_le(s)))
        } else {
            Err(Error::UnsupportedWidth)
        }
    }

    /// What narrowing to 32 bits gives.
    pub open spec fn spec_into_u32(self) -> Result<u32, Error> {
        match self {
            UInt::U32(v) => Ok(v),
            UInt::U64(_) => Err(Error::KindMismatch),
        }
    }

    pub fn len(&self) -> (n: usize)
        ensures
            n == self.spec_len(),
    {
        match self {
            UInt::U32(_) => 4,
            UInt::U64(_) => 8,
        }
    }

    /// Decodes a slice of 4 or 8 little-endian bytes; any other length is
    /// `UnsupportedWidth`.
    pub fn from_slice(slice: &[u8]) -> (r: Result<UInt, Error>)
        ensures
            r == Self::spec_decode(slice@),
    {
        if slice.len() == 4 {
            Ok(UInt::U32(u32_from_le_bytes(slice)))
        } else if slice.len() == 8 {
            Ok(UInt::U64(u64_from_le_bytes(slice)))
        } else {
            Err(Error::UnsupportedWidth)
        }
    }

    /// Narrows to 32 bits; a 64-bit value is `KindMismatch`.
    pub fn into_u32(self) -> (r: Result<u32, Error>)
        ensures
            r == self.spec_into_u32(),
    {
        match self {
            UInt::U32(v) => Ok(v),
            UInt::U64(_) => Err(Error::KindMismatch),
        }
    }

    /// Encodes the integer as little-endian bytes of its own width.
    pub fn to_le_bytes(&self) -> (out: Vec<u8>)
        ensures
            out@ == self.spec_encode(),
            out@.len() == self.spec_len(),
    {
        match self {
            UInt::U32(v) => u32_to_le_bytes(*v),
            UInt::U64(v) => u64_to_le_bytes(*v),
        }
    }
}

/// Decoding what was encoded gives the integer back, tag included.
pub proof fn lemma_decode_encode(x: UInt)
    ensures
        x.spec_encode().len() == x.spec_len(),
        UInt::spec_decode(x.spec_encode()) == Ok::<UInt, Error>(x),
{
    match x {
        UInt::U32(v) => lemma_u32_le_roundtrip(v),
        UInt::U64(v) => lemma_u64_le_roundtrip(v),
    }
}

/// Encoding what was decoded gives the bytes back.
pub proof fn lemma_encode_decode(s: Seq<u8>)
    requires
        s.len() == 4 || s.len() == 8,
    ensures
        UInt::spec_decode(s) is Ok,
        UInt::spec_decode(s)->Ok_0.spec_encode() == s,
{
    if s.len() == 4 {
        lemma_u32_le_inverse(s);
    } else {
        lemma_u64_le_inverse(s);
    }
}

/// The decimal text of `n`, most significant digit first, without leading
/// zeros, as ASCII bytes.
pub open spec fn decimal_digits(n: nat) -> Seq<u8>
    decreases n,
{
    if n < 10 {
        seq![(48 + n) as u8]
    } else {
        decimal_digits(n / 10).push((48 + n % 10) as u8)
    }
}

/// The decimal text of `n` as ASCII bytes.
pub fn decimal_ascii(n: u32) -> (out: Vec<u8>)
    ensures
        out@ == decimal_digits(n as nat),
    decreases n,
{
    if n < 10 {
        let d: u8 = 48 + n as u8;
        let mut out: Vec<u8> = Vec::new();
        out.push(d);
        assert(out@ =~= seq![(48 + n as nat) as u8]);
        out
    } else {
        let mut out = decimal_ascii(n / 10);
        let d: u8 = 48 + (n % 10) as u8;
        out.push(d);
        out
    }
}

} // verus!
