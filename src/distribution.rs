//! Facet distribution: for each facet value of a field, in ascending order,
//! how many candidate documents hold it.
use crate::bitmap::{bitmap_and, bitmap_intersection_len, bitmap_is_empty, bitmap_min, bitmap_wf, docids};
use crate::facet::{copy_bytes, FacetIndex};
use crate::levels::{group_is_union, span_docs, union_invariant};
use roaring::RoaringBitmap;
use vstd::prelude::*;

verus! {

/// One facet value that candidates hold: its encoded value, how many
/// candidates hold it, and the smallest document id of its group.
pub struct FacetCount {
    pub left_bound: Vec<u8>,
    pub count: u64,
    pub any_docid: u32,
}

pub open spec fn is_min_of(m: u32, s: Set<u32>) -> bool {
    s.contains(m) && forall|x: u32| s.contains(x) ==> m <= x
}

/// The facet values that a scan reports: at most `take` groups from
/// position `pos` on, at `level`, restricted to `cands`, the groups of a
/// level above 0 being opened into the `size` groups below that start at
/// their left bound. Each value is given by the position of its level-0
/// group and the number of candidates that it holds; values that no
/// candidate holds are passed over. The flag tells whether the scan met a
/// group of another field, which ends the whole traversal.
pub open spec fn distribution_scan(
    idx: FacetIndex,
    field_id: u16,
    level: u8,
    pos: int,
    take: nat,
    cands: Set<u32>,
) -> (Seq<(int, nat)>, bool)
    decreases level, take,
{
    if take == 0 || pos < 0 || pos >= idx.len() {
        (Seq::empty(), false)
    } else if idx.entry(pos).key.field_id != field_id {
        (Seq::empty(), true)
    } else {
        let common = idx.entry(pos).docs().intersect(cands);
        let head: (Seq<(int, nat)>, bool) = if level == 0 {
            if common.len() > 0 {
                (seq![(pos, common.len())], false)
            } else {
                (Seq::empty(), false)
            }
        } else if common != Set::<u32>::empty() {
            distribution_scan(
                idx,
                field_id,
                (level - 1) as u8,
                idx.seek_spec(field_id, (level - 1) as u8, idx.entry(pos).key.left_bound@, false),
                idx.entry(pos).value.size as nat,
                common,
            )
        } else {
            (Seq::empty(), false)
        };
        if head.1 {
            head
        } else {
            let rest = distribution_scan(idx, field_id, level, pos + 1, (take - 1) as nat, cands);
            (head.0 + rest.0, rest.1)
        }
    }
}

/// `c` reports the value of the level-0 group at `item.0`, held by `item.1` candidates.
pub open spec fn reports_item(idx: FacetIndex, c: FacetCount, item: (int, nat)) -> bool {
    &&& c.left_bound@ == idx.entry(item.0).key.left_bound@
    &&& c.count as nat == item.1
    &&& is_min_of(c.any_docid, idx.entry(item.0).docs())
}

/// `out` is `before` followed by the reports of `items`, cut at `limit` entries.
pub open spec fn reports(
    idx: FacetIndex,
    out: Seq<FacetCount>,
    before: Seq<FacetCount>,
    items: Seq<(int, nat)>,
    limit: nat,
) -> bool {
    &&& out.len() == if before.len() + items.len() < limit {
        before.len() + items.len()
    } else {
        limit
    }
    &&& forall|k: int| 0 <= k < before.len() ==> out[k] == before[k]
    &&& forall|k: int|
        before.len() <= k < out.len() ==> reports_item(idx, #[trigger] out[k], items[k - before.len()])
}

/// The full distribution of a field over a candidate set, before any limit.
pub open spec fn distribution(idx: FacetIndex, field_id: u16, cands: Set<u32>) -> Seq<(int, nat)> {
    let level = choose|l: u8| idx.is_highest_level(field_id, l);
    let first = choose|i: int| idx.is_first_value(i, field_id);
    if idx.has_values(field_id) {
        distribution_scan(
            idx,
            field_id,
            level,
            idx.seek_spec(field_id, level, idx.entry(first).key.left_bound@, false),
            usize::MAX as nat,
            cands,
        ).0
    } else {
        Seq::empty()
    }
}

fn iterate(
    idx: &FacetIndex,
    field_id: u16,
    level: u8,
    start_bound: &[u8],
    group_size: usize,
    candidates: &RoaringBitmap,
    limit: usize,
    out: &mut Vec<FacetCount>,
) -> (stopped: bool)
    requires
        old(out)@.len() < limit,
        idx.bitmaps_wf(),
        bitmap_wf(*candidates),
    ensures
        ({
            let scan = distribution_scan(
                *idx,
                field_id,
                level,
                idx.seek_spec(field_id, level, start_bound@, false),
                group_size as nat,
                docids(*candidates),
            );
            reports(*idx, final(out)@, old(out)@, scan.0, limit as nat) && stopped == (old(
                out,
            )@.len() + scan.0.len() >= limit || scan.1)
        }),
    decreases level,
{
    let start = idx.seek(field_id, level, start_bound, false);
    let mut pos: usize = start;
    let mut taken: usize = 0;
    let ghost before = out@;
    let ghost cands = docids(*candidates);
    let ghost full = distribution_scan(*idx, field_id, level, start as int, group_size as nat, cands);
    let ghost mut done: Seq<(int, nat)> = Seq::empty();
    assert(done + full.0 =~= full.0);
    while pos < idx.entries.len() && taken < group_size
        invariant
            pos <= idx.len(),
            taken <= group_size,
            cands == docids(*candidates),
            idx.bitmaps_wf(),
            bitmap_wf(*candidates),
            before == old(out)@,
            start == idx.seek_spec(field_id, level, start_bound@, false),
            full == distribution_scan(*idx, field_id, level, start as int, group_size as nat, cands),
            full.0 == done + distribution_scan(
                *idx,
                field_id,
                level,
                pos as int,
                (group_size - taken) as nat,
                cands,
            ).0,
            full.1 == distribution_scan(
                *idx,
                field_id,
                level,
                pos as int,
                (group_size - taken) as nat,
                cands,
            ).1,
            out@.len() == before.len() + done.len(),
            out@.len() < limit,
            reports(*idx, out@, before, done, limit as nat),
        decreases idx.entries.len() - pos,
    {
        let ghost step = distribution_scan(
            *idx,
            field_id,
            level,
            pos as int,
            (group_size - taken) as nat,
            cands,
        );
        let ghost rest = distribution_scan(
            *idx,
            field_id,
            level,
            pos + 1,
            (group_size - taken - 1) as nat,
            cands,
        );
        let entry = &idx.entries[pos];
        if entry.key.field_id != field_id {
            assert(step.0 =~= Seq::<(int, nat)>::empty());
            assert(done + Seq::<(int, nat)>::empty() =~= done);
            return true;
        }
        if level == 0 {
            let count = bitmap_intersection_len(&entry.value.bitmap, candidates);
            if count > 0 {
                proof {
                    if docids(entry.value.bitmap) == Set::<u32>::empty() {
                        assert(docids(entry.value.bitmap).intersect(cands) =~= Set::<u32>::empty());
                    }
                }
                let any = bitmap_min(&entry.value.bitmap);
                let any_docid = match any {
                    Some(m) => m,
                    None => 0,
                };
                out.push(
                    FacetCount { left_bound: copy_bytes(entry.key.left_bound.as_slice()), count, any_docid },
                );
                let ghost item = (pos as int, count as nat);
                assert(step.0 =~= seq![item] + rest.0);
                assert(done + step.0 =~= done.push(item) + rest.0);
                proof {
                    done = done.push(item);
                }
                if out.len() >= limit {
                    return true;
                }
            } else {
                assert(step.0 =~= rest.0);
            }
        } else {
            let common = bitmap_and(&entry.value.bitmap, candidates);
            if !bitmap_is_empty(&common) {
                let ghost mid = out@;
                let stop = iterate(
                    idx,
                    field_id,
                    level - 1,
                    entry.key.left_bound.as_slice(),
                    entry.value.size as usize,
                    &common,
                    limit,
                    out,
                );
                let ghost sub = distribution_scan(
                    *idx,
                    field_id,
                    (level - 1) as u8,
                    idx.seek_spec(field_id, (level - 1) as u8, entry.key.left_bound@, false),
                    entry.value.size as nat,
                    docids(common),
                );
                proof {
                    if sub.1 {
                        assert(step == sub);
                    } else {
                        assert(step.0 =~= sub.0 + rest.0);
                        assert(done + step.0 =~= (done + sub.0) + rest.0);
                    }
                    done = done + sub.0;
                }
                if stop {
                    return true;
                }
            } else {
                assert(step.0 =~= rest.0);
            }
        }
        pos = pos + 1;
        taken = taken + 1;
    }
    assert(done + Seq::<(int, nat)>::empty() =~= done);
    false
}

/// Reports, in ascending order of value, each facet value of the field that
/// some candidate holds, with the number of candidates that hold it, and
/// stops after `limit` reports.
pub fn iterate_over_facet_distribution(
    index: &FacetIndex,
    field_id: u16,
    candidates: &RoaringBitmap,
    limit: usize,
) -> (r: Vec<FacetCount>)
    requires
        index.bitmaps_wf(),
        bitmap_wf(*candidates),
    ensures
        reports(*index, r@, Seq::empty(), distribution(*index, field_id, docids(*candidates)), limit as nat),
{
    let mut out: Vec<FacetCount> = Vec::new();
    if limit == 0 {
        return out;
    }
    let highest = index.highest_level(field_id);
    match index.first_value(field_id) {
        Some(first) => {
            let level = match highest {
                Some(l) => l,
                None => 0,
            };
            proof {
                assert(index.entry(first as int).key.field_id == field_id);
                let l = choose|l: u8| index.is_highest_level(field_id, l);
                index.lemma_highest_level_unique(field_id, l, level);
                let f = choose|i: int| index.is_first_value(i, field_id);
                index.lemma_first_value_unique(field_id, f, first as int);
            }
            let bound = index.entries[first].key.left_bound.as_slice();
            iterate(index, field_id, level, bound, usize::MAX, candidates, limit, &mut out);
            out
        },
        None => out,
    }
}

/// The groups that a scan of at most `take` groups from `pos` on can reach,
/// up to the first group of another field, are all at `level`.
pub open spec fn span_at_level(idx: FacetIndex, field_id: u16, pos: int, take: nat, level: u8) -> bool
    decreases take,
{
    if take == 0 || pos < 0 || pos >= idx.len() || idx.entry(pos).key.field_id != field_id {
        true
    } else {
        idx.entry(pos).key.level == level && span_at_level(idx, field_id, pos + 1, (take - 1) as nat, level)
    }
}

/// Every group of the field above level 0 spans groups of the level just below.
pub open spec fn levels_fit(idx: FacetIndex, field_id: u16) -> bool {
    forall|p: int|
        0 <= p < idx.len() && #[trigger] idx.entry(p).key.field_id == field_id && idx.entry(p).key.level > 0
            ==> span_at_level(
            idx,
            field_id,
            idx.seek_spec(field_id, (idx.entry(p).key.level - 1) as u8, idx.entry(p).key.left_bound@, false),
            idx.entry(p).value.size as nat,
            (idx.entry(p).key.level - 1) as u8,
        )
}

proof fn lemma_span_docs_cover(idx: FacetIndex, field_id: u16, pos: int, take: nat, q: int)
    requires
        pos <= q < pos + take,
        0 <= pos,
        q < idx.len(),
        forall|j: int| pos <= j <= q ==> #[trigger] idx.entry(j).key.field_id == field_id,
    ensures
        idx.entry(q).docs().subset_of(span_docs(idx, field_id, pos, take)),
    decreases take,
{
    if pos < q {
        lemma_span_docs_cover(idx, field_id, pos + 1, (take - 1) as nat, q);
    }
}

proof fn lemma_scan_counts(
    idx: FacetIndex,
    field_id: u16,
    level: u8,
    pos: int,
    take: nat,
    cands: Set<u32>,
    c: Set<u32>,
    x: Set<u32>,
)
    requires
        union_invariant(idx, field_id),
        levels_fit(idx, field_id),
        span_at_level(idx, field_id, pos, take, level),
        cands == c.intersect(x),
        span_docs(idx, field_id, pos, take).subset_of(x),
    ensures
        ({
            let items = distribution_scan(idx, field_id, level, pos, take, cands).0;
            forall|k: int|
                0 <= k < items.len() ==> idx.entry((#[trigger] items[k]).0).key.field_id == field_id && items[k].1
                    == idx.entry(items[k].0).docs().intersect(c).len()
        }),
    decreases level, take,
{
    if take == 0 || pos < 0 || pos >= idx.len() {
    } else if idx.entry(pos).key.field_id != field_id {
    } else {
        let e = idx.entry(pos);
        let common = e.docs().intersect(cands);
        assert(e.docs().subset_of(x)) by {
            assert(e.docs().subset_of(span_docs(idx, field_id, pos, take)));
        }
        assert(span_docs(idx, field_id, pos + 1, (take - 1) as nat).subset_of(x));
        lemma_scan_counts(idx, field_id, level, pos + 1, (take - 1) as nat, cands, c, x);
        let head: (Seq<(int, nat)>, bool) = if level == 0 {
            assert(common =~= e.docs().intersect(c));
            if common.len() > 0 {
                (seq![(pos, common.len())], false)
            } else {
                (Seq::empty(), false)
            }
        } else if common != Set::<u32>::empty() {
            let start = idx.seek_spec(field_id, (level - 1) as u8, e.key.left_bound@, false);
            assert(group_is_union(idx, pos));
            assert(e.key.level == level);
            assert(common =~= c.intersect(x.intersect(e.docs())));
            lemma_scan_counts(
                idx,
                field_id,
                (level - 1) as u8,
                start,
                e.value.size as nat,
                common,
                c,
                x.intersect(e.docs()),
            );
            distribution_scan(idx, field_id, (level - 1) as u8, start, e.value.size as nat, common)
        } else {
            (Seq::empty(), false)
        };
        let rest = distribution_scan(idx, field_id, level, pos + 1, (take - 1) as nat, cands);
        let all = distribution_scan(idx, field_id, level, pos, take, cands);
        if !head.1 {
            assert(all.0 == head.0 + rest.0);
            assert forall|k: int| 0 <= k < all.0.len() implies idx.entry((#[trigger] all.0[k]).0).key.field_id
                == field_id && all.0[k].1 == idx.entry(all.0[k].0).docs().intersect(c).len() by {
                if k < head.0.len() {
                    assert(all.0[k] == head.0[k]);
                } else {
                    assert(all.0[k] == rest.0[k - head.0.len()]);
                }
            }
        }
    }
}

proof fn lemma_top_at_level(idx: FacetIndex, field_id: u16, level: u8, pos: int, take: nat)
    requires
        0 <= pos,
        forall|p: int| pos <= p < idx.len() && #[trigger] idx.entry(p).key.field_id == field_id ==> idx.entry(p).key.level
            == level,
    ensures
        span_at_level(idx, field_id, pos, take, level),
    decreases take,
{
    if take > 0 && pos < idx.len() {
        lemma_top_at_level(idx, field_id, level, pos + 1, (take - 1) as nat);
    }
}

/// On an index in key order whose groups above level 0 hold the union of
/// the groups that they span on the level just below, every value that the
/// distribution reports is a group of the field, counted against the
/// candidates themselves: its count is the number of candidates that its
/// level-0 group holds.
pub proof fn lemma_distribution_counts(idx: FacetIndex, field_id: u16, cands: Set<u32>)
    requires
        idx.wf(),
        union_invariant(idx, field_id),
        levels_fit(idx, field_id),
    ensures
        ({
            let d = distribution(idx, field_id, cands);
            forall|k: int|
                0 <= k < d.len() ==> idx.entry((#[trigger] d[k]).0).key.field_id == field_id && d[k].1
                    == idx.entry(d[k].0).docs().intersect(cands).len()
        }),
{
    if idx.has_values(field_id) {
        let v = choose|i: int| idx.is_value(i, field_id);
        idx.lemma_highest_level_exists(field_id, v);
        let level = choose|l: u8| idx.is_highest_level(field_id, l);
        let first = choose|i: int| idx.is_first_value(i, field_id);
        let b = idx.entry(first).key.left_bound@;
        let start = idx.seek_spec(field_id, level, b, false);
        idx.lemma_seek_from_bounds(0, field_id, level, b, false);
        assert forall|p: int| start <= p < idx.len() && #[trigger] idx.entry(p).key.field_id == field_id implies idx.entry(
            p,
        ).key.level == level by {
            idx.lemma_seek_sorted(field_id, level, b, false, p);
            assert(idx.entry(p).key.level <= level);
        }
        lemma_top_at_level(idx, field_id, level, start, usize::MAX as nat);
        assert(cands =~= cands.intersect(Set::<u32>::full()));
        lemma_scan_counts(idx, field_id, level, start, usize::MAX as nat, cands, cands, Set::<u32>::full());
    }
}

} // verus!
