//! The compressed bitmaps that hold the sets of code indices.
//!
//! The sets are `roaring::RoaringBitmap` values. Verus does not look inside
//! one: what it holds is named by [`bitmap_values`], and every item of this
//! file states, without proof, what one operation of the `roaring` crate
//! does to that set.

use crate::ascending::lists_ascending;
use roaring::RoaringBitmap;
use std::ops::{BitOrAssign, BitXorAssign};
use vstd::prelude::*;

verus! {

/// `roaring::RoaringBitmap`: a set of `u32` values. It is carried as it
/// is; none of its fields is read here.
#[verifier::external_type_specification]
#[verifier::external_body]
pub struct ExRoaringBitmap(roaring::RoaringBitmap);

/// The set of integers that a bitmap holds.
pub uninterp spec fn bitmap_values(bitmap: RoaringBitmap) -> Set<u32>;

/// `RoaringBitmap::new` gives a bitmap that holds nothing.
pub assume_specification[ RoaringBitmap::new ]() -> (bitmap: RoaringBitmap)
    ensures
        bitmap_values(bitmap) == Set::<u32>::empty(),
;

/// `RoaringBitmap::contains` tells whether the value is in the set.
pub assume_specification[ RoaringBitmap::contains ](bitmap: &RoaringBitmap, value: u32) -> (found: bool)
    ensures
        found == bitmap_values(*bitmap).contains(value),
;

/// `RoaringBitmap::insert` adds the value to the set and tells whether it
/// was absent before.
pub assume_specification[ RoaringBitmap::insert ](bitmap: &mut RoaringBitmap, value: u32) -> (added: bool)
    ensures
        bitmap_values(*final(bitmap)) == bitmap_values(*old(bitmap)).insert(value),
        added == !bitmap_values(*old(bitmap)).contains(value),
;

/// `RoaringBitmap::remove` takes the value out of the set and tells whether
/// it was present before.
pub assume_specification[ RoaringBitmap::remove ](bitmap: &mut RoaringBitmap, value: u32) -> (removed: bool)
    ensures
        bitmap_values(*final(bitmap)) == bitmap_values(*old(bitmap)).remove(value),
        removed == bitmap_values(*old(bitmap)).contains(value),
;

/// `RoaringBitmap::min` gives the smallest value of the set, and `None`
/// exactly when the set is empty.
pub assume_specification[ RoaringBitmap::min ](bitmap: &RoaringBitmap) -> (least: Option<u32>)
    ensures
        match least {
            Some(m) => bitmap_values(*bitmap).contains(m) && forall|x: u32|
                bitmap_values(*bitmap).contains(x) ==> m <= x,
            None => bitmap_values(*bitmap) == Set::<u32>::empty(),
        },
;

/// `RoaringBitmap::len` counts the values of the set.
pub assume_specification[ RoaringBitmap::len ](bitmap: &RoaringBitmap) -> (count: u64)
    ensures
        count == bitmap_values(*bitmap).len(),
;

/// `BitOrAssign::bitor_assign` with a bitmap by value: the union of the two
/// sets.
pub assume_specification[ <RoaringBitmap as core::ops::BitOrAssign<RoaringBitmap>>::bitor_assign ](
    bitmap: &mut RoaringBitmap,
    other: RoaringBitmap,
)
    ensures
        bitmap_values(*final(bitmap)) == bitmap_values(*old(bitmap)).union(bitmap_values(other)),
;

/// `BitXorAssign::bitxor_assign` with a borrowed bitmap: the values that
/// are in exactly one of the two sets.
pub assume_specification<'a>[ <RoaringBitmap as core::ops::BitXorAssign<&'a RoaringBitmap>>::bitxor_assign ](
    bitmap: &mut RoaringBitmap,
    other: &RoaringBitmap,
)
    ensures
        bitmap_values(*final(bitmap)) == bitmap_values(*old(bitmap)).difference(
            bitmap_values(*other),
        ).union(bitmap_values(*other).difference(bitmap_values(*old(bitmap)))),
;

/// `RoaringBitmap::insert_range` with the range `start..end`: every value
/// from `start` up to, and without, `end` joins the set, and the call tells
/// how many of them were new.
#[verifier::external_body]
pub(crate) fn bitmap_insert_range(bitmap: &mut RoaringBitmap, start: u32, end: u32) -> (added: u64)
    ensures
        bitmap_values(*final(bitmap)) == bitmap_values(*old(bitmap)).union(
            Set::new(|x: u32| start <= x < end),
        ),
        added == Set::new(|x: u32| start <= x < end).difference(bitmap_values(*old(bitmap))).len(),
{
    bitmap.insert_range(start..end)
}

/// `RoaringBitmap::iter`, collected: the values of the set, each once, in
/// ascending order.
#[verifier::external_body]
pub(crate) fn bitmap_iter(bitmap: &RoaringBitmap) -> (values: Vec<u32>)
    ensures
        lists_ascending(values@, bitmap_values(*bitmap)),
{
    bitmap.iter().collect()
}

/// `FromIterator::from_iter` for `RoaringBitmap`: the set of the values
/// that the vector holds.
#[verifier::external_body]
pub(crate) fn bitmap_from_iter(values: Vec<u32>) -> (bitmap: RoaringBitmap)
    ensures
        bitmap_values(bitmap) == values@.to_set(),
{
    RoaringBitmap::from_iter(values)
}

} // verus!
