//! The invariant that ties the levels of the facet index together: a group
//! above level 0 holds exactly the documents of the groups that it spans.
use crate::bitmap::{bitmap_clone, bitmap_is_empty, bitmap_new, bitmap_or_assign, bitmap_sub_assign, bitmap_wf, docids};
use crate::facet::FacetIndex;
use roaring::RoaringBitmap;
use vstd::prelude::*;

verus! {

/// The documents of at most `take` groups from position `pos` on, up to the
/// first group of another field.
pub open spec fn span_docs(idx: FacetIndex, field_id: u16, pos: int, take: nat) -> Set<u32>
    decreases take,
{
    if take == 0 || pos < 0 || pos >= idx.len() || idx.entry(pos).key.field_id != field_id {
        Set::empty()
    } else {
        idx.entry(pos).docs().union(span_docs(idx, field_id, pos + 1, (take - 1) as nat))
    }
}

/// The group at `p`, if above level 0, holds the documents of the `size`
/// groups of the level below that start at its left bound.
pub open spec fn group_is_union(idx: FacetIndex, p: int) -> bool {
    let e = idx.entry(p);
    e.key.level > 0 ==> e.docs() == span_docs(
        idx,
        e.key.field_id,
        idx.seek_spec(e.key.field_id, (e.key.level - 1) as u8, e.key.left_bound@, false),
        e.value.size as nat,
    )
}

/// Every group of the field above level 0 is the union of its children.
pub open spec fn union_invariant(idx: FacetIndex, field_id: u16) -> bool {
    forall|p: int| 0 <= p < idx.len() && #[trigger] idx.entry(p).key.field_id == field_id ==> group_is_union(idx, p)
}

/// Whether two bitmaps hold the same documents.
fn same_docs(a: &RoaringBitmap, b: &RoaringBitmap) -> (r: bool)
    requires
        bitmap_wf(*a),
        bitmap_wf(*b),
    ensures
        r == (docids(*a) == docids(*b)),
{
    let mut a_only = bitmap_clone(a);
    bitmap_sub_assign(&mut a_only, b);
    let mut b_only = bitmap_clone(b);
    bitmap_sub_assign(&mut b_only, a);
    let r = bitmap_is_empty(&a_only) && bitmap_is_empty(&b_only);
    proof {
        if r {
            assert forall|x: u32| docids(*a).contains(x) <==> docids(*b).contains(x) by {
                if docids(*a).contains(x) && !docids(*b).contains(x) {
                    assert(docids(a_only).contains(x));
                }
                if docids(*b).contains(x) && !docids(*a).contains(x) {
                    assert(docids(b_only).contains(x));
                }
            }
            assert(docids(*a) =~= docids(*b));
        } else if docids(*a) == docids(*b) {
            assert(docids(a_only) =~= Set::<u32>::empty());
            assert(docids(b_only) =~= Set::<u32>::empty());
        }
    }
    r
}

impl FacetIndex {
    /// Checks that every group of the field above level 0 holds exactly the
    /// documents of the groups that it spans on the level below.
    pub fn check_union_invariant(&self, field_id: u16) -> (r: bool)
        requires
            self.bitmaps_wf(),
        ensures
            r == union_invariant(*self, field_id),
    {
        let mut p: usize = 0;
        while p < self.entries.len()
            invariant
                p <= self.len(),
                self.bitmaps_wf(),
                forall|j: int| 0 <= j < p && #[trigger] self.entry(j).key.field_id == field_id ==> group_is_union(*self, j),
            decreases self.entries.len() - p,
        {
            let e = &self.entries[p];
            if e.key.field_id == field_id && e.key.level > 0 {
                let start = self.seek(field_id, e.key.level - 1, e.key.left_bound.as_slice(), false);
                let size = e.value.size as usize;
                let ghost whole = span_docs(*self, field_id, start as int, size as nat);
                let mut union = bitmap_new();
                let mut q: usize = start;
                let mut taken: usize = 0;
                assert(docids(union).union(whole) =~= whole);
                while q < self.entries.len() && taken < size && self.entries[q].key.field_id == field_id
                    invariant
                        start <= q <= self.len(),
                        taken <= size,
                        self.bitmaps_wf(),
                        bitmap_wf(union),
                        whole == span_docs(*self, field_id, start as int, size as nat),
                        whole == docids(union).union(span_docs(*self, field_id, q as int, (size - taken) as nat)),
                    decreases self.entries.len() - q,
                {
                    let ghost before = docids(union);
                    bitmap_or_assign(&mut union, &self.entries[q].value.bitmap);
                    assert(docids(union).union(span_docs(*self, field_id, q + 1, (size - taken - 1) as nat))
                        =~= before.union(span_docs(*self, field_id, q as int, (size - taken) as nat)));
                    q = q + 1;
                    taken = taken + 1;
                }
                assert(docids(union) =~= whole);
                if !same_docs(&e.value.bitmap, &union) {
                    assert(!group_is_union(*self, p as int));
                    return false;
                }
            }
            p = p + 1;
        }
        true
    }
}

} // verus!
