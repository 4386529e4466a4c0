//! The two hash functions of the store: both are CRC-32 over decimal text.

use vstd::prelude::*;
use crate::codec::{decimal_ascii, decimal_digits};

verus! {

/// The CRC-32 checksum of a byte sequence.
pub uninterp spec fn crc32(bytes: Seq<u8>) -> u32;

/// `crc32fast::hash` computes the CRC-32 checksum of the slice it is given:
/// its result depends on the bytes alone, and is what `crc32` stands for.
pub assume_specification[ crc32fast::hash ](buf: &[u8]) -> (sum: u32)
    ensures
        sum == crc32(buf@),
;

/// The primary key of an id: the checksum of its decimal text.
pub open spec fn spec_primary_key(id: u32) -> u32 {
    crc32(decimal_digits(id as nat))
}

/// The primary key of an id: the checksum of its decimal text.
pub fn primary_key(id: u32) -> (key: u32)
    ensures
        key == spec_primary_key(id),
{
    let text = decimal_ascii(id);
    crc32fast::hash(text.as_slice())
}

/// The second hash of a primary key: the checksum of the decimal text of the
/// key.
pub open spec fn spec_rehash(hashval: u32) -> u32 {
    crc32(decimal_digits(hashval as nat))
}

/// The second hash of a primary key: the checksum of the decimal text of the
/// key.
pub fn rehash(hashval: u32) -> (key: u32)
    ensures
        key == spec_rehash(hashval),
{
    let text = decimal_ascii(hashval);
    crc32fast::hash(text.as_slice())
}

} // verus!
