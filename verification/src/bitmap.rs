//! The dense bit map of `m6coll`, and the set of seen keys that is kept in it.

use vstd::prelude::*;

verus! {

/// `m6coll::BitMap`, a map of bits in memory of its own: nothing inside it is
/// looked at here.
#[verifier::external_type_specification]
#[verifier::external_body]
pub struct ExBitMap(m6coll::BitMap);

/// The positions of a bit map whose bit is set.
pub uninterp spec fn bitmap_bits(map: m6coll::BitMap) -> Set<int>;

/// The number of bits that a bit map was made with.
pub uninterp spec fn bitmap_cap(map: m6coll::BitMap) -> int;

/// `BitMap::new` reserves `cap / 8` zeroed bytes: a map of `cap` bits, none of
/// them set. The bit count has to be a multiple of eight, and the byte count
/// one that can be allocated at all. (The allocation is taken to succeed.)
pub assume_specification[ m6coll::BitMap::new ](cap: u128) -> (map: m6coll::BitMap)
    requires
        cap % 8 == 0,
        cap / 8 <= isize::MAX,
    ensures
        bitmap_bits(map) == Set::<int>::empty(),
        bitmap_cap(map) == cap,
;

/// `BitMap::test` reads bit `i`, which has to lie inside the map. The bit
/// count of the map has to fit in `usize`, in which the bound is computed.
pub assume_specification[ m6coll::BitMap::test ](map: &m6coll::BitMap, i: usize) -> (set: bool)
    requires
        i < bitmap_cap(*map),
        bitmap_cap(*map) <= usize::MAX,
    ensures
        set == bitmap_bits(*map).contains(i as int),
;

/// `BitMap::set` sets bit `i`, which has to lie inside the map, and leaves
/// every other bit and the size as they were. The bit count of the map has
/// to fit in `usize`, in which the bound is computed.
pub assume_specification[ m6coll::BitMap::set ](map: &mut m6coll::BitMap, i: usize)
    requires
        i < bitmap_cap(*old(map)),
        bitmap_cap(*old(map)) <= usize::MAX,
    ensures
        bitmap_bits(*final(map)) == bitmap_bits(*old(map)).insert(i as int),
        bitmap_cap(*final(map)) == bitmap_cap(*old(map)),
;

/// The number of keys that one of the two maps of `SeenKeys` stands for.
pub const HALF: u32 = 0x8000_0000;

/// The keys seen so far, one bit for each of the 2³² possible keys. The bits
/// lie in two maps of 2³¹ bits, the lower and the upper half of the keys, so
/// that a position inside a map fits in `usize` wherever a pointer has 32
/// bits at least.
pub struct SeenKeys {
    low: m6coll::BitMap,
    high: m6coll::BitMap,
}

impl SeenKeys {
    /// The keys seen so far.
    pub closed spec fn keys(self) -> Set<u32> {
        Set::new(
            |k: u32|
                if k < HALF {
                    bitmap_bits(self.low).contains(k as int)
                } else {
                    bitmap_bits(self.high).contains(k - HALF)
                },
        )
    }

    /// Each map has a bit for every key of its half.
    pub closed spec fn wf(self) -> bool {
        bitmap_cap(self.low) == HALF && bitmap_cap(self.high) == HALF
    }

    /// No key seen yet.
    pub fn new() -> (seen: SeenKeys)
        ensures
            seen.wf(),
            seen.keys() == Set::<u32>::empty(),
    {
        let low = m6coll::BitMap::new(0x8000_0000);
        let high = m6coll::BitMap::new(0x8000_0000);
        let seen = SeenKeys { low, high };
        assert(seen.keys() =~= Set::<u32>::empty());
        seen
    }

    /// Whether `key` was seen before.
    pub fn contains(&self, key: u32) -> (seen: bool)
        requires
            self.wf(),
        ensures
            seen == self.keys().contains(key),
    {
        if key < HALF {
            self.low.test(key as usize)
        } else {
            self.high.test((key - HALF) as usize)
        }
    }

    /// Marks `key` as seen, and says whether it was seen before.
    pub fn observe(&mut self, key: u32) -> (seen: bool)
        requires
            old(self).wf(),
        ensures
            final(self).wf(),
            seen == old(self).keys().contains(key),
            final(self).keys() == old(self).keys().insert(key),
    {
        let seen = self.contains(key);
        if !seen {
            if key < HALF {
                self.low.set(key as usize);
            } else {
                self.high.set((key - HALF) as usize);
            }
        }
        assert(self.keys() =~= old(self).keys().insert(key));
        seen
    }
}

} // verus!
