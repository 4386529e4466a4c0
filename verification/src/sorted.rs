//! The sorted vector of `sorted_vec`, holding the entries of a catalog as plain
//! integers: a table's number, then its header.

use vstd::prelude::*;
use sorted_vec::SortedVec;

verus! {

/// `sorted_vec::SortedVec`, a vector that is kept in order: nothing inside it
/// is looked at here.
#[verifier::external_type_specification]
#[verifier::external_body]
#[verifier::reject_recursive_types(T)]
pub struct ExSortedVec<T: Ord>(SortedVec<T>);

/// A catalog entry as integers: number, `len`, `keysize`, `valsize`.
pub type Item = (u32, u64, u32, u32);

/// The order of tuples: by the first component, then by the second, and so on.
pub open spec fn item_le(a: Item, b: Item) -> bool {
    a.0 < b.0 || (a.0 == b.0 && (a.1 < b.1 || (a.1 == b.1 && (a.2 < b.2 || (a.2 == b.2 && a.3
        <= b.3)))))
}

/// Items never decrease along the sequence.
pub open spec fn items_sorted(s: Seq<Item>) -> bool {
    forall|i: int, j: int| 0 <= i <= j < s.len() ==> item_le(s[i], s[j])
}

/// The items of a sorted vector, from first to last.
pub uninterp spec fn sorted_vec_items(v: SortedVec<(u32, u64, u32, u32)>) -> Seq<
    (u32, u64, u32, u32),
>;

/// `SortedVec::new` gives a vector without items.
#[verifier::external_body]
pub(crate) fn sorted_vec_new() -> (v: SortedVec<Item>)
    ensures
        sorted_vec_items(v) == Seq::<Item>::empty(),
{
    SortedVec::new()
}

/// `SortedVec::insert` puts the item in at a place that a binary search
/// finds and returns that place: the other items keep their order, and items
/// that were in order stay in order.
#[verifier::external_body]
pub(crate) fn sorted_vec_insert(v: &mut SortedVec<Item>, item: Item) -> (at: usize)
    ensures
        at <= sorted_vec_items(*old(v)).len(),
        sorted_vec_items(*final(v)) == sorted_vec_items(*old(v)).insert(at as int, item),
        items_sorted(sorted_vec_items(*old(v))) ==> items_sorted(sorted_vec_items(*final(v))),
{
    v.insert(item)
}

/// `SortedVec::into_vec` hands out the items as they stand.
#[verifier::external_body]
pub(crate) fn sorted_vec_into_vec(v: SortedVec<Item>) -> (out: Vec<Item>)
    ensures
        out@ == sorted_vec_items(v),
{
    v.into_vec()
}

} // verus!
