//! Trusted interface to `roaring::RoaringBitmap`, the compressed set of
//! `u32` memory ids used by the graph.
//!
//! A bitmap is modelled by the finite set of ids it holds, named
//! `bitmap_members`; each wrapper below states what the `roaring` source does
//! to that set.
use vstd::prelude::*;

use roaring::RoaringBitmap;

verus! {

#[verifier::external_type_specification]
#[verifier::external_body]
pub struct ExRoaringBitmap(RoaringBitmap);

/// The ids held by a bitmap.
pub uninterp spec fn bitmap_members(b: RoaringBitmap) -> Set<u32>;

/// `RoaringBitmap::new`: an empty bitmap.
#[verifier::external_body]
pub(crate) fn bm_new() -> (r: RoaringBitmap)
    ensures
        bitmap_members(r) == Set::<u32>::empty(),
{
    RoaringBitmap::new()
}

/// `RoaringBitmap::insert`: adds `v`; returns whether it was absent.
#[verifier::external_body]
pub(crate) fn bm_insert(b: &mut RoaringBitmap, v: u32) -> (r: bool)
    ensures
        bitmap_members(*final(b)) == bitmap_members(*old(b)).insert(v),
        r == !bitmap_members(*old(b)).contains(v),
{
    b.insert(v)
}

/// `RoaringBitmap::remove`: removes `v`; returns whether it was present.
#[verifier::external_body]
pub(crate) fn bm_remove(b: &mut RoaringBitmap, v: u32) -> (r: bool)
    ensures
        bitmap_members(*final(b)) == bitmap_members(*old(b)).remove(v),
        r == bitmap_members(*old(b)).contains(v),
{
    b.remove(v)
}

/// `RoaringBitmap::len`: the number of ids held.
#[verifier::external_body]
pub(crate) fn bm_len(b: &RoaringBitmap) -> (r: u64)
    ensures
        r == bitmap_members(*b).len(),
{
    b.len()
}

/// `RoaringBitmap::is_empty`.
#[verifier::external_body]
pub(crate) fn bm_is_empty(b: &RoaringBitmap) -> (r: bool)
    ensures
        r == (bitmap_members(*b) == Set::<u32>::empty()),
{
    b.is_empty()
}

/// `RoaringBitmap::clone`: a bitmap with the same ids.
#[verifier::external_body]
pub(crate) fn bm_clone(b: &RoaringBitmap) -> (r: RoaringBitmap)
    ensures
        bitmap_members(r) == bitmap_members(*b),
{
    b.clone()
}

/// `a |= b`: adds every id of `b` to `a`.
#[verifier::external_body]
pub(crate) fn bm_union_with(a: &mut RoaringBitmap, b: &RoaringBitmap)
    ensures
        bitmap_members(*final(a)) == bitmap_members(*old(a)).union(bitmap_members(*b)),
{
    *a |= b;
}

/// `a &= b`: keeps only the ids of `a` that `b` also holds.
#[verifier::external_body]
pub(crate) fn bm_intersect_with(a: &mut RoaringBitmap, b: &RoaringBitmap)
    ensures
        bitmap_members(*final(a)) == bitmap_members(*old(a)).intersect(bitmap_members(*b)),
{
    *a &= b;
}

/// `a -= b`: drops from `a` every id that `b` holds.
#[verifier::external_body]
pub(crate) fn bm_difference_with(a: &mut RoaringBitmap, b: &RoaringBitmap)
    ensures
        bitmap_members(*final(a)) == bitmap_members(*old(a)).difference(bitmap_members(*b)),
{
    *a -= b;
}

/// `RoaringBitmap::is_disjoint`: whether the two hold no id in common.
#[verifier::external_body]
pub(crate) fn bm_is_disjoint(a: &RoaringBitmap, b: &RoaringBitmap) -> (r: bool)
    ensures
        r == bitmap_members(*a).disjoint(bitmap_members(*b)),
{
    a.is_disjoint(b)
}

/// `RoaringBitmap::iter` collected: the ids held, in increasing order.
#[verifier::external_body]
pub(crate) fn bm_to_vec(b: &RoaringBitmap) -> (r: Vec<u32>)
    ensures
        r@.to_set() == bitmap_members(*b),
        forall|i: int, j: int| 0 <= i < j < r@.len() ==> r@[i] < r@[j],
{
    b.iter().collect()
}

} // verus!
