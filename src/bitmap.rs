//! Document-id sets, held in `roaring::RoaringBitmap`.
use roaring::RoaringBitmap;
use vstd::prelude::*;

verus! {

/// `roaring::RoaringBitmap`, a compressed set of `u32`, seen only through `docids`.
#[verifier::external_type_specification]
#[verifier::external_body]
pub struct ExRoaringBitmap(RoaringBitmap);

/// The set of document ids that a bitmap holds: the ids of all its containers.
pub uninterp spec fn docids(b: RoaringBitmap) -> Set<u32>;

/// The bitmap's containers are in strictly increasing key order and none is
/// empty, as every operation of roaring but its decoders leaves them.
pub uninterp spec fn bitmap_wf(b: RoaringBitmap) -> bool;

/// Relies on `RoaringBitmap::new`: the new bitmap is empty.
#[verifier::external_body]
pub(crate) fn bitmap_new() -> (r: RoaringBitmap)
    ensures
        docids(r) == Set::<u32>::empty(),
        bitmap_wf(r),
{
    RoaringBitmap::new()
}

/// Relies on `RoaringBitmap::clone`: the copy holds the same ids.
#[verifier::external_body]
pub(crate) fn bitmap_clone(b: &RoaringBitmap) -> (r: RoaringBitmap)
    ensures
        docids(r) == docids(*b),
        bitmap_wf(r) == bitmap_wf(*b),
{
    b.clone()
}

/// Relies on `RoaringBitmap::is_empty`: true when no id is held.
#[verifier::external_body]
pub(crate) fn bitmap_is_empty(b: &RoaringBitmap) -> (r: bool)
    requires
        bitmap_wf(*b),
    ensures
        r == (docids(*b) == Set::<u32>::empty()),
{
    b.is_empty()
}

/// Relies on `RoaringBitmap::min`: the smallest id, or `None` when empty.
#[verifier::external_body]
pub(crate) fn bitmap_min(b: &RoaringBitmap) -> (r: Option<u32>)
    requires
        bitmap_wf(*b),
    ensures
        r is None <==> docids(*b) == Set::<u32>::empty(),
        r matches Some(m) ==> docids(*b).contains(m) && forall|x: u32| #[trigger] docids(*b).contains(x) ==> m <= x,
{
    b.min()
}

/// Relies on `RoaringBitmap::intersection_len`: the size of the intersection.
#[verifier::external_body]
pub(crate) fn bitmap_intersection_len(a: &RoaringBitmap, b: &RoaringBitmap) -> (r: u64)
    requires
        bitmap_wf(*a),
        bitmap_wf(*b),
    ensures
        r as nat == docids(*a).intersect(docids(*b)).len(),
{
    a.intersection_len(b)
}

/// Relies on `&RoaringBitmap & &RoaringBitmap`: the intersection, built
/// from the non-empty intersections of containers paired in key order.
#[verifier::external_body]
pub(crate) fn bitmap_and(a: &RoaringBitmap, b: &RoaringBitmap) -> (r: RoaringBitmap)
    requires
        bitmap_wf(*a),
        bitmap_wf(*b),
    ensures
        docids(r) == docids(*a).intersect(docids(*b)),
        bitmap_wf(r),
{
    a & b
}

/// Relies on `RoaringBitmap -= &RoaringBitmap`: removes the ids of `b`,
/// and the containers that it empties.
#[verifier::external_body]
pub(crate) fn bitmap_sub_assign(a: &mut RoaringBitmap, b: &RoaringBitmap)
    requires
        bitmap_wf(*old(a)),
        bitmap_wf(*b),
    ensures
        docids(*final(a)) == docids(*old(a)).difference(docids(*b)),
        bitmap_wf(*final(a)),
{
    *a -= b;
}

/// Relies on `RoaringBitmap |= &RoaringBitmap`: adds the ids of `b`,
/// inserting its containers at their place in key order.
#[verifier::external_body]
pub(crate) fn bitmap_or_assign(a: &mut RoaringBitmap, b: &RoaringBitmap)
    ensures
        docids(*final(a)) == docids(*old(a)).union(docids(*b)),
        bitmap_wf(*old(a)) && bitmap_wf(*b) ==> bitmap_wf(*final(a)),
{
    *a |= b;
}

} // verus!
