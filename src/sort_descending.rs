//! Descending facet sort: the candidates, split into groups of documents
//! that share a facet value, in decreasing order of that value.
use crate::bitmap::{bitmap_and, bitmap_is_empty, bitmap_sub_assign, bitmap_wf, docids};
use crate::facet::{bytes_lt, lemma_bytes_lt_total, FacetIndex};
use roaring::RoaringBitmap;
use vstd::prelude::*;

verus! {

/// End of a reverse range at `level` whose right edge is `right`
/// (included when `inclusive`).
pub open spec fn range_end(idx: FacetIndex, field_id: u16, level: u8, right: Seq<u8>, inclusive: bool) -> int {
    idx.seek_spec(field_id, level, right, inclusive)
}

/// The groups of documents that a reverse scan yields: it walks positions
/// `hi - 1` down to `lo`, at most `take` of them, at `level`, while
/// candidates remain in `cands`. A group that holds some of them takes them
/// out of `cands`: at level 0 they are yielded, above it the scan opens
/// the groups of the level below that lie between the group's left bound
/// and `right`, the right edge of the range not yet walked. The flag tells
/// whether the scan met a group of another field, which ends the sort.
pub open spec fn sort_scan(
    idx: FacetIndex,
    field_id: u16,
    level: u8,
    lo: int,
    hi: int,
    take: nat,
    right: Seq<u8>,
    inclusive: bool,
    cands: Set<u32>,
) -> (Seq<(int, Set<u32>)>, bool)
    decreases level, (hi - lo) as nat,
{
    if take == 0 || hi <= lo || lo < 0 || hi > idx.len() {
        (Seq::empty(), false)
    } else if idx.entry(hi - 1).key.field_id != field_id {
        (Seq::empty(), true)
    } else if cands == Set::<u32>::empty() {
        (Seq::empty(), false)
    } else {
        let e = idx.entry(hi - 1);
        let common = e.docs().intersect(cands);
        if common == Set::<u32>::empty() {
            sort_scan(idx, field_id, level, lo, hi - 1, (take - 1) as nat, e.key.left_bound@, false, cands)
        } else {
            let head: (Seq<(int, Set<u32>)>, bool) = if level == 0 {
                (seq![(hi - 1, common)], false)
            } else {
                sort_scan(
                    idx,
                    field_id,
                    (level - 1) as u8,
                    idx.seek_spec(field_id, (level - 1) as u8, e.key.left_bound@, false),
                    range_end(idx, field_id, (level - 1) as u8, right, inclusive),
                    e.value.size as nat,
                    right,
                    inclusive,
                    common,
                )
            };
            if head.1 {
                head
            } else {
                let rest = sort_scan(
                    idx,
                    field_id,
                    level,
                    lo,
                    hi - 1,
                    (take - 1) as nat,
                    e.key.left_bound@,
                    false,
                    cands.difference(common),
                );
                (head.0 + rest.0, rest.1)
            }
        }
    }
}

/// The groups that the descending sort yields for the field and candidates:
/// a reverse scan of the highest level, from the last value of the field
/// (included) down to the first.
pub open spec fn descending(idx: FacetIndex, field_id: u16, cands: Set<u32>) -> Seq<(int, Set<u32>)> {
    let level = choose|l: u8| idx.is_highest_level(field_id, l);
    let first = choose|i: int| idx.is_first_value(i, field_id);
    let last = choose|i: int| idx.is_last_value(i, field_id);
    let last_bound = idx.entry(last).key.left_bound@;
    if idx.has_values(field_id) {
        sort_scan(
            idx,
            field_id,
            level,
            idx.seek_spec(field_id, level, idx.entry(first).key.left_bound@, false),
            range_end(idx, field_id, level, last_bound, true),
            usize::MAX as nat,
            last_bound,
            true,
            cands,
        ).0
    } else {
        Seq::empty()
    }
}

/// `out` is `before` followed by bitmaps that hold the sets of `items`.
pub open spec fn yields(out: Seq<RoaringBitmap>, before: Seq<RoaringBitmap>, items: Seq<(int, Set<u32>)>) -> bool {
    &&& out.len() == before.len() + items.len()
    &&& forall|k: int| 0 <= k < before.len() ==> out[k] == before[k]
    &&& forall|k: int| before.len() <= k < out.len() ==> docids(#[trigger] out[k]) == items[k - before.len()].1
}

/// Every group is a nonempty set of candidates, and no two groups share a
/// document.
pub open spec fn partitions(groups: Seq<(int, Set<u32>)>, cands: Set<u32>) -> bool {
    &&& forall|k: int| 0 <= k < groups.len() ==> (#[trigger] groups[k]).1.subset_of(cands) && groups[k].1
        != Set::<u32>::empty()
    &&& forall|i: int, j: int| 0 <= i < j < groups.len() ==> (#[trigger] groups[i]).1.disjoint((#[trigger] groups[j]).1)
}

proof fn lemma_partitions_concat(a: Seq<(int, Set<u32>)>, b: Seq<(int, Set<u32>)>, sa: Set<u32>, sb: Set<u32>, cands: Set<u32>)
    requires
        partitions(a, sa),
        partitions(b, sb),
        sa.subset_of(cands),
        sb.subset_of(cands),
        sa.disjoint(sb),
    ensures
        partitions(a + b, cands),
{
    let c = a + b;
    assert forall|k: int| 0 <= k < c.len() implies (#[trigger] c[k]).1.subset_of(cands) && c[k].1 != Set::<
        u32,
    >::empty() by {
        if k < a.len() {
            assert(c[k] == a[k]);
        } else {
            assert(c[k] == b[k - a.len()]);
        }
    }
    assert forall|i: int, j: int| 0 <= i < j < c.len() implies (#[trigger] c[i]).1.disjoint((#[trigger] c[j]).1) by {
        if j < a.len() {
            assert(c[i] == a[i] && c[j] == a[j]);
        } else if i >= a.len() {
            assert(c[i] == b[i - a.len()] && c[j] == b[j - a.len()]);
        } else {
            assert(c[i] == a[i] && c[j] == b[j - a.len()]);
            assert forall|x: u32| c[i].1.contains(x) implies !c[j].1.contains(x) by {
                assert(sa.contains(x));
            }
        }
    }
}

proof fn lemma_sort_scan_partitions(
    idx: FacetIndex,
    field_id: u16,
    level: u8,
    lo: int,
    hi: int,
    take: nat,
    right: Seq<u8>,
    inclusive: bool,
    cands: Set<u32>,
)
    ensures
        partitions(sort_scan(idx, field_id, level, lo, hi, take, right, inclusive, cands).0, cands),
    decreases level, (hi - lo) as nat,
{
    if take == 0 || hi <= lo || lo < 0 || hi > idx.len() {
    } else if idx.entry(hi - 1).key.field_id != field_id {
    } else if cands == Set::<u32>::empty() {
    } else {
        let e = idx.entry(hi - 1);
        let common = e.docs().intersect(cands);
        if common == Set::<u32>::empty() {
            lemma_sort_scan_partitions(idx, field_id, level, lo, hi - 1, (take - 1) as nat, e.key.left_bound@, false, cands);
        } else {
            let head: (Seq<(int, Set<u32>)>, bool) = if level == 0 {
                (seq![(hi - 1, common)], false)
            } else {
                let sub_lo = idx.seek_spec(field_id, (level - 1) as u8, e.key.left_bound@, false);
                let sub_hi = range_end(idx, field_id, (level - 1) as u8, right, inclusive);
                lemma_sort_scan_partitions(
                    idx,
                    field_id,
                    (level - 1) as u8,
                    sub_lo,
                    sub_hi,
                    e.value.size as nat,
                    right,
                    inclusive,
                    common,
                );
                sort_scan(idx, field_id, (level - 1) as u8, sub_lo, sub_hi, e.value.size as nat, right, inclusive, common)
            };
            assert(partitions(head.0, common));
            if !head.1 {
                let rest_cands = cands.difference(common);
                lemma_sort_scan_partitions(
                    idx,
                    field_id,
                    level,
                    lo,
                    hi - 1,
                    (take - 1) as nat,
                    e.key.left_bound@,
                    false,
                    rest_cands,
                );
                let rest = sort_scan(idx, field_id, level, lo, hi - 1, (take - 1) as nat, e.key.left_bound@, false, rest_cands);
                lemma_partitions_concat(head.0, rest.0, common, rest_cands, cands);
            } else {
                assert forall|k: int| 0 <= k < head.0.len() implies (#[trigger] head.0[k]).1.subset_of(cands) by {
                    assert(head.0[k].1.subset_of(common));
                }
            }
        }
    }
}

/// The descending sort never yields a document twice, yields only
/// candidates, and yields no empty group.
pub proof fn lemma_descending_partitions(index: FacetIndex, field_id: u16, cands: Set<u32>)
    ensures
        partitions(descending(index, field_id, cands), cands),
{
    let level = choose|l: u8| index.is_highest_level(field_id, l);
    let first = choose|i: int| index.is_first_value(i, field_id);
    let last = choose|i: int| index.is_last_value(i, field_id);
    let last_bound = index.entry(last).key.left_bound@;
    if index.has_values(field_id) {
        lemma_sort_scan_partitions(
            index,
            field_id,
            level,
            index.seek_spec(field_id, level, index.entry(first).key.left_bound@, false),
            range_end(index, field_id, level, last_bound, true),
            usize::MAX as nat,
            last_bound,
            true,
            cands,
        );
    }
}

/// The descending sort is a function of the index, the field and the
/// candidates: two runs on the same inputs yield the same groups.
pub proof fn lemma_descending_deterministic(
    index: FacetIndex,
    field_id: u16,
    cands: Set<u32>,
    first_run: Seq<RoaringBitmap>,
    second_run: Seq<RoaringBitmap>,
)
    requires
        yields(first_run, Seq::empty(), descending(index, field_id, cands)),
        yields(second_run, Seq::empty(), descending(index, field_id, cands)),
    ensures
        first_run.len() == second_run.len(),
        forall|k: int| 0 <= k < first_run.len() ==> docids(#[trigger] first_run[k]) == docids(second_run[k]),
{
}

/// The entries at positions `lo` to `hi` are groups of the field at `level`
/// whose left bound is no lower than `a` and lower than `r` (or equal to it,
/// when `inclusive`).
pub open spec fn frame_region(
    idx: FacetIndex,
    field_id: u16,
    level: u8,
    lo: int,
    hi: int,
    a: Seq<u8>,
    r: Seq<u8>,
    inclusive: bool,
) -> bool {
    forall|p: int|
        lo <= p < hi ==> #[trigger] idx.entry(p).key.field_id == field_id && idx.entry(p).key.level == level
            && !bytes_lt(idx.entry(p).key.left_bound@, a) && (bytes_lt(idx.entry(p).key.left_bound@, r) || (
        inclusive && idx.entry(p).key.left_bound@ == r))
}

/// Each item comes from a value of the field at a position in `[lo, hi)`,
/// holds only documents of that value, and the positions strictly decrease.
pub open spec fn ordered_yields(idx: FacetIndex, field_id: u16, items: Seq<(int, Set<u32>)>, lo: int, hi: int) -> bool {
    &&& forall|k: int|
        0 <= k < items.len() ==> lo <= (#[trigger] items[k]).0 < hi && idx.is_value(items[k].0, field_id)
            && items[k].1.subset_of(idx.entry(items[k].0).docs())
    &&& forall|i: int, j: int| 0 <= i < j < items.len() ==> (#[trigger] items[j]).0 < (#[trigger] items[i]).0
}

proof fn lemma_ordered_concat(
    idx: FacetIndex,
    field_id: u16,
    x: Seq<(int, Set<u32>)>,
    y: Seq<(int, Set<u32>)>,
    mid: int,
    lo: int,
    hi: int,
)
    requires
        lo <= mid <= hi,
        ordered_yields(idx, field_id, x, mid, hi),
        ordered_yields(idx, field_id, y, lo, mid),
    ensures
        ordered_yields(idx, field_id, x + y, lo, hi),
{
    let c = x + y;
    assert forall|k: int| 0 <= k < c.len() implies lo <= (#[trigger] c[k]).0 < hi && idx.is_value(c[k].0, field_id)
        && c[k].1.subset_of(idx.entry(c[k].0).docs()) by {
        if k < x.len() {
            assert(c[k] == x[k]);
        } else {
            assert(c[k] == y[k - x.len()]);
        }
    }
    assert forall|i: int, j: int| 0 <= i < j < c.len() implies (#[trigger] c[j]).0 < (#[trigger] c[i]).0 by {
        if j < x.len() {
            assert(c[i] == x[i] && c[j] == x[j]);
        } else if i >= x.len() {
            assert(c[i] == y[i - x.len()] && c[j] == y[j - x.len()]);
        } else {
            assert(c[i] == x[i] && c[j] == y[j - x.len()]);
        }
    }
}

proof fn lemma_ordered_widen(idx: FacetIndex, field_id: u16, x: Seq<(int, Set<u32>)>, lo: int, hi: int, lo2: int, hi2: int)
    requires
        ordered_yields(idx, field_id, x, lo, hi),
        lo2 <= lo,
        hi <= hi2,
    ensures
        ordered_yields(idx, field_id, x, lo2, hi2),
{
}

/// Entries between two seeks on one level lie in the range of the two keys.
proof fn lemma_region_of_seeks(idx: FacetIndex, field_id: u16, level: u8, a: Seq<u8>, r: Seq<u8>, inclusive: bool)
    requires
        idx.wf(),
    ensures
        frame_region(
            idx,
            field_id,
            level,
            idx.seek_spec(field_id, level, a, false),
            idx.seek_spec(field_id, level, r, inclusive),
            a,
            r,
            inclusive,
        ),
{
    let lo = idx.seek_spec(field_id, level, a, false);
    let hi = idx.seek_spec(field_id, level, r, inclusive);
    assert forall|p: int| lo <= p < hi implies #[trigger] idx.entry(p).key.field_id == field_id
        && idx.entry(p).key.level == level && !bytes_lt(idx.entry(p).key.left_bound@, a) && (bytes_lt(
        idx.entry(p).key.left_bound@,
        r,
    ) || (inclusive && idx.entry(p).key.left_bound@ == r)) by {
        idx.lemma_seek_from_bounds(0, field_id, level, r, inclusive);
        idx.lemma_seek_from_bounds(0, field_id, level, a, false);
        idx.lemma_seek_sorted(field_id, level, a, false, p);
        idx.lemma_seek_sorted(field_id, level, r, inclusive, p);
    }
}

proof fn lemma_sort_scan_ordered(
    idx: FacetIndex,
    field_id: u16,
    level: u8,
    lo: int,
    hi: int,
    take: nat,
    a: Seq<u8>,
    right: Seq<u8>,
    inclusive: bool,
    cands: Set<u32>,
)
    requires
        idx.wf(),
        0 <= lo,
        hi <= idx.len(),
        frame_region(idx, field_id, level, lo, hi, a, right, inclusive),
    ensures
        ordered_yields(
            idx,
            field_id,
            sort_scan(idx, field_id, level, lo, hi, take, right, inclusive, cands).0,
            idx.seek_spec(field_id, 0, a, false),
            idx.seek_spec(field_id, 0, right, inclusive),
        ),
    decreases level, (hi - lo) as nat,
{
    let lo0 = idx.seek_spec(field_id, 0, a, false);
    let hi0 = idx.seek_spec(field_id, 0, right, inclusive);
    if take == 0 || hi <= lo || lo < 0 || hi > idx.len() {
    } else if idx.entry(hi - 1).key.field_id != field_id {
    } else if cands == Set::<u32>::empty() {
    } else {
        let e = idx.entry(hi - 1);
        let b = e.key.left_bound@;
        let common = e.docs().intersect(cands);
        assert(idx.entry(hi - 1).key.field_id == field_id);
        // what is left of the frame lies below `b`
        assert(frame_region(idx, field_id, level, lo, hi - 1, a, b, false)) by {
            assert forall|p: int| lo <= p < hi - 1 implies #[trigger] idx.entry(p).key.field_id == field_id
                && idx.entry(p).key.level == level && !bytes_lt(idx.entry(p).key.left_bound@, a) && (bytes_lt(
                idx.entry(p).key.left_bound@,
                b,
            ) || (false && idx.entry(p).key.left_bound@ == b)) by {
                assert(idx.entry(p).lt_key(e.key.field_id, e.key.level, e.key.left_bound@));
            }
        }
        let mid = idx.seek_spec(field_id, 0, b, false);
        idx.lemma_seek_monotone(field_id, 0, b, false, right, inclusive);
        if !bytes_lt(a, b) {
            if a != b {
                lemma_bytes_lt_total(b, a);
            }
        }
        idx.lemma_seek_monotone(field_id, 0, a, false, b, false);
        let rest_cands = if common == Set::<u32>::empty() {
            cands
        } else {
            cands.difference(common)
        };
        lemma_sort_scan_ordered(idx, field_id, level, lo, hi - 1, (take - 1) as nat, a, b, false, rest_cands);
        let rest = sort_scan(idx, field_id, level, lo, hi - 1, (take - 1) as nat, b, false, rest_cands);
        if common == Set::<u32>::empty() {
            lemma_ordered_widen(idx, field_id, rest.0, lo0, mid, lo0, hi0);
        } else {
            let head: (Seq<(int, Set<u32>)>, bool) = if level == 0 {
                idx.lemma_seek_sorted(field_id, 0, a, false, hi - 1);
                idx.lemma_seek_sorted(field_id, 0, right, inclusive, hi - 1);
                let h = seq![(hi - 1, common)];
                assert(ordered_yields(idx, field_id, h, mid, hi0)) by {
                    idx.lemma_seek_sorted(field_id, 0, b, false, hi - 1);
                    crate::facet::lemma_bytes_lt_irreflexive(b);
                    assert(h[0] == (hi - 1, common));
                }
                (h, false)
            } else {
                let clo = idx.seek_spec(field_id, (level - 1) as u8, b, false);
                let chi = range_end(idx, field_id, (level - 1) as u8, right, inclusive);
                lemma_region_of_seeks(idx, field_id, (level - 1) as u8, b, right, inclusive);
                idx.lemma_seek_from_bounds(0, field_id, (level - 1) as u8, b, false);
                idx.lemma_seek_from_bounds(0, field_id, (level - 1) as u8, right, inclusive);
                lemma_sort_scan_ordered(
                    idx,
                    field_id,
                    (level - 1) as u8,
                    clo,
                    chi,
                    e.value.size as nat,
                    b,
                    right,
                    inclusive,
                    common,
                );
                sort_scan(idx, field_id, (level - 1) as u8, clo, chi, e.value.size as nat, right, inclusive, common)
            };
            assert(ordered_yields(idx, field_id, head.0, mid, hi0));
            if head.1 {
                lemma_ordered_widen(idx, field_id, head.0, mid, hi0, lo0, hi0);
            } else {
                lemma_ordered_concat(idx, field_id, head.0, rest.0, mid, lo0, hi0);
            }
        }
    }
}

/// On an index in key order, the descending sort yields each group from one
/// value of the field, holding only documents of that value, and the
/// values of consecutive groups strictly decrease.
pub proof fn lemma_descending_order(index: FacetIndex, field_id: u16, cands: Set<u32>)
    requires
        index.wf(),
    ensures
        ({
            let d = descending(index, field_id, cands);
            &&& forall|k: int|
                0 <= k < d.len() ==> index.is_value((#[trigger] d[k]).0, field_id) && d[k].1.subset_of(
                    index.entry(d[k].0).docs(),
                )
            &&& forall|i: int, j: int|
                0 <= i < j < d.len() ==> bytes_lt(
                    index.entry((#[trigger] d[j]).0).key.left_bound@,
                    index.entry((#[trigger] d[i]).0).key.left_bound@,
                )
        }),
{
    let d = descending(index, field_id, cands);
    if index.has_values(field_id) {
        let level = choose|l: u8| index.is_highest_level(field_id, l);
        let first = choose|i: int| index.is_first_value(i, field_id);
        let last = choose|i: int| index.is_last_value(i, field_id);
        let first_bound = index.entry(first).key.left_bound@;
        let last_bound = index.entry(last).key.left_bound@;
        let lo = index.seek_spec(field_id, level, first_bound, false);
        let hi = range_end(index, field_id, level, last_bound, true);
        lemma_region_of_seeks(index, field_id, level, first_bound, last_bound, true);
        index.lemma_seek_from_bounds(0, field_id, level, first_bound, false);
        index.lemma_seek_from_bounds(0, field_id, level, last_bound, true);
        lemma_sort_scan_ordered(index, field_id, level, lo, hi, usize::MAX as nat, first_bound, last_bound, true, cands);
        assert forall|i: int, j: int| 0 <= i < j < d.len() implies bytes_lt(
            index.entry((#[trigger] d[j]).0).key.left_bound@,
            index.entry((#[trigger] d[i]).0).key.left_bound@,
        ) by {
            assert(d[j].0 < d[i].0);
            assert(index.entry(d[j].0).lt_key(
                index.entry(d[i].0).key.field_id,
                index.entry(d[i].0).key.level,
                index.entry(d[i].0).key.left_bound@,
            ));
        }
    }
}

fn descend<'a>(
    idx: &'a FacetIndex,
    field_id: u16,
    level: u8,
    lo: usize,
    hi: usize,
    take: usize,
    right: &'a [u8],
    inclusive: bool,
    candidates: RoaringBitmap,
    out: &mut Vec<RoaringBitmap>,
) -> (ended: bool)
    requires
        lo <= hi <= idx.len(),
        idx.bitmaps_wf(),
        bitmap_wf(candidates),
    ensures
        ({
            let scan = sort_scan(
                *idx,
                field_id,
                level,
                lo as int,
                hi as int,
                take as nat,
                right@,
                inclusive,
                docids(candidates),
            );
            yields(final(out)@, old(out)@, scan.0) && ended == scan.1
        }),
    decreases level,
{
    let ghost before = out@;
    let ghost full = sort_scan(
        *idx,
        field_id,
        level,
        lo as int,
        hi as int,
        take as nat,
        right@,
        inclusive,
        docids(candidates),
    );
    let ghost mut done: Seq<(int, Set<u32>)> = Seq::empty();
    let mut documents = candidates;
    let mut pos: usize = hi;
    let mut left: usize = take;
    let mut right_bound: &'a [u8] = right;
    let mut right_inclusive: bool = inclusive;
    assert(done + full.0 =~= full.0);
    while pos > lo && left > 0
        invariant
            lo <= pos <= hi <= idx.len(),
            idx.bitmaps_wf(),
            bitmap_wf(documents),
            before == old(out)@,
            full == sort_scan(
                *idx,
                field_id,
                level,
                lo as int,
                hi as int,
                take as nat,
                right@,
                inclusive,
                docids(candidates),
            ),
            full.0 == done + sort_scan(
                *idx,
                field_id,
                level,
                lo as int,
                pos as int,
                left as nat,
                right_bound@,
                right_inclusive,
                docids(documents),
            ).0,
            full.1 == sort_scan(
                *idx,
                field_id,
                level,
                lo as int,
                pos as int,
                left as nat,
                right_bound@,
                right_inclusive,
                docids(documents),
            ).1,
            yields(out@, before, done),
        decreases pos,
    {
        let ghost step = sort_scan(
            *idx,
            field_id,
            level,
            lo as int,
            pos as int,
            left as nat,
            right_bound@,
            right_inclusive,
            docids(documents),
        );
        let entry = &idx.entries[pos - 1];
        if entry.key.field_id != field_id {
            assert(step.0 =~= Seq::<(int, Set<u32>)>::empty());
            assert(done + Seq::<(int, Set<u32>)>::empty() =~= done);
            return true;
        }
        if bitmap_is_empty(&documents) {
            assert(step.0 =~= Seq::<(int, Set<u32>)>::empty());
            assert(done + Seq::<(int, Set<u32>)>::empty() =~= done);
            return false;
        }
        let bitmap = bitmap_and(&entry.value.bitmap, &documents);
        let ghost common = docids(bitmap);
        if !bitmap_is_empty(&bitmap) {
            let ghost old_docs = docids(documents);
            bitmap_sub_assign(&mut documents, &bitmap);
            if level == 0 {
                out.push(bitmap);
                proof {
                    let rest = sort_scan(
                        *idx,
                        field_id,
                        level,
                        lo as int,
                        pos - 1,
                        (left - 1) as nat,
                        entry.key.left_bound@,
                        false,
                        old_docs.difference(common),
                    );
                    assert(step.0 =~= seq![(pos - 1, common)] + rest.0);
                    assert(done + step.0 =~= done.push((pos - 1, common)) + rest.0);
                    done = done.push((pos - 1, common));
                }
            } else {
                let child_lo = idx.seek(field_id, level - 1, entry.key.left_bound.as_slice(), false);
                let child_hi = idx.seek(field_id, level - 1, right_bound, right_inclusive);
                let ghost sub_docs = docids(bitmap);
                let child_ended = if child_lo <= child_hi {
                    descend(
                        idx,
                        field_id,
                        level - 1,
                        child_lo,
                        child_hi,
                        entry.value.size as usize,
                        right_bound,
                        right_inclusive,
                        bitmap,
                        out,
                    )
                } else {
                    false
                };
                proof {
                    let sub = sort_scan(
                        *idx,
                        field_id,
                        (level - 1) as u8,
                        child_lo as int,
                        child_hi as int,
                        entry.value.size as nat,
                        right_bound@,
                        right_inclusive,
                        sub_docs,
                    );
                    let rest = sort_scan(
                        *idx,
                        field_id,
                        level,
                        lo as int,
                        pos - 1,
                        (left - 1) as nat,
                        entry.key.left_bound@,
                        false,
                        old_docs.difference(common),
                    );
                    if sub.1 {
                        assert(step == sub);
                    } else {
                        assert(step.0 =~= sub.0 + rest.0);
                        assert(done + step.0 =~= (done + sub.0) + rest.0);
                    }
                    done = done + sub.0;
                }
                if child_ended {
                    return true;
                }
            }
        }
        right_bound = entry.key.left_bound.as_slice();
        right_inclusive = false;
        pos = pos - 1;
        left = left - 1;
    }
    assert(done + Seq::<(int, Set<u32>)>::empty() =~= done);
    false
}

/// Splits the candidates into groups of documents that share a facet value
/// of the field, in decreasing order of that value.
pub fn descending_facet_sort(index: &FacetIndex, field_id: u16, candidates: RoaringBitmap) -> (r: Vec<
    RoaringBitmap,
>)
    requires
        index.bitmaps_wf(),
        bitmap_wf(candidates),
    ensures
        yields(r@, Seq::empty(), descending(*index, field_id, docids(candidates))),
{
    let mut out: Vec<RoaringBitmap> = Vec::new();
    let highest = index.highest_level(field_id);
    match (index.first_value(field_id), index.last_value(field_id)) {
        (Some(first), Some(last)) => {
            let level = match highest {
                Some(l) => l,
                None => 0,
            };
            proof {
                assert(index.entry(first as int).key.field_id == field_id);
                let l = choose|l: u8| index.is_highest_level(field_id, l);
                index.lemma_highest_level_unique(field_id, l, level);
                let f = choose|i: int| index.is_first_value(i, field_id);
                index.lemma_first_value_unique(field_id, f, first as int);
                let g = choose|i: int| index.is_last_value(i, field_id);
                index.lemma_last_value_unique(field_id, g, last as int);
            }
            let first_bound = index.entries[first].key.left_bound.as_slice();
            let last_bound = index.entries[last].key.left_bound.as_slice();
            let lo = index.seek(field_id, level, first_bound, false);
            let hi = index.seek(field_id, level, last_bound, true);
            if lo <= hi {
                descend(index, field_id, level, lo, hi, usize::MAX, last_bound, true, candidates, &mut out);
            }
            out
        },
        _ => out,
    }
}

} // verus!
