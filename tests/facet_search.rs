use milli_core::distribution::iterate_over_facet_distribution;
use milli_core::facet::{bytes_equal, bytes_less, copy_bytes, FacetGroupEntry, FacetGroupKey, FacetGroupValue, FacetIndex};
use milli_core::sort_descending::descending_facet_sort;
use roaring::RoaringBitmap;

fn bound(v: u32) -> Vec<u8> {
    (v as u16).to_be_bytes().to_vec()
}

/// Builds the levels of one field over its level-0 groups, `group_size`
/// children per group, while a level has at least `min_level_size` groups.
fn build_index(values: &[(u32, Vec<u32>)], group_size: usize, min_level_size: usize) -> FacetIndex {
    let mut level: Vec<(Vec<u8>, u8, RoaringBitmap)> = Vec::new();
    let mut sorted: Vec<(u32, Vec<u32>)> = values.to_vec();
    sorted.sort();
    for (v, docs) in sorted {
        let b = bound(v);
        if let Some(last) = level.last_mut() {
            if last.0 == b {
                for d in docs {
                    last.2.insert(d);
                }
                continue;
            }
        }
        level.push((b, 1, docs.into_iter().collect()));
    }
    let mut levels = vec![level];
    while levels.last().unwrap().len() >= min_level_size {
        let below = levels.last().unwrap();
        let mut above = Vec::new();
        for chunk in below.chunks(group_size) {
            let mut bitmap = RoaringBitmap::new();
            for (_, _, b) in chunk {
                bitmap |= b;
            }
            above.push((chunk[0].0.clone(), chunk.len() as u8, bitmap));
        }
        levels.push(above);
    }
    let mut entries = Vec::new();
    for (l, groups) in levels.into_iter().enumerate() {
        for (b, size, bitmap) in groups {
            entries.push(FacetGroupEntry {
                key: FacetGroupKey { field_id: 0, level: l as u8, left_bound: b },
                value: FacetGroupValue { size, bitmap },
            });
        }
    }
    FacetIndex { entries }
}

fn get_simple_index() -> FacetIndex {
    let values: Vec<(u32, Vec<u32>)> = (0..256u32).map(|i| (i, vec![i])).collect();
    build_index(&values, 4, 5)
}

fn random_keys() -> Vec<u32> {
    let mut state: u64 = 0x2545_f491_4f6c_dd1d;
    let mut keys = Vec::new();
    for _ in 0..128 {
        state = state.wrapping_mul(6364136223846793005).wrapping_add(1442695040888963407);
        keys.push(((state >> 33) % 256) as u32);
    }
    keys
}

fn get_random_looking_index() -> FacetIndex {
    let values: Vec<(u32, Vec<u32>)> = random_keys().into_iter().map(|k| (k, vec![k, k + 100])).collect();
    build_index(&values, 4, 5)
}

/// What the level-0 groups of field 0 give for the candidates, value by value.
fn level0_groups(index: &FacetIndex, candidates: &RoaringBitmap) -> Vec<(Vec<u8>, RoaringBitmap)> {
    index
        .entries
        .iter()
        .filter(|e| e.key.field_id == 0 && e.key.level == 0)
        .map(|e| (e.key.left_bound.clone(), &e.value.bitmap & candidates))
        .filter(|(_, b)| !b.is_empty())
        .collect()
}

/// The groups that a descending sort must yield: level-0 groups from the
/// highest value down, each without the documents already yielded.
fn brute_force_descending(index: &FacetIndex, candidates: &RoaringBitmap) -> Vec<RoaringBitmap> {
    let mut remaining = candidates.clone();
    let mut groups = Vec::new();
    for (_, b) in level0_groups(index, candidates).into_iter().rev() {
        let g = &b & &remaining;
        if !g.is_empty() {
            remaining -= &g;
            groups.push(g);
        }
    }
    groups
}

#[test]
fn filter_distribution_all() {
    let indexes = [get_simple_index(), get_random_looking_index()];
    for index in indexes.iter() {
        let candidates = (0..=255).collect::<RoaringBitmap>();
        let results = iterate_over_facet_distribution(index, 0, &candidates, usize::MAX);
        let expected = level0_groups(index, &candidates);
        assert_eq!(results.len(), expected.len());
        for (r, (b, docs)) in results.iter().zip(expected.iter()) {
            assert_eq!(&r.left_bound, b);
            assert_eq!(r.count, docs.len());
        }
    }
    let simple = get_simple_index();
    let candidates = (0..=255).collect::<RoaringBitmap>();
    let results = iterate_over_facet_distribution(&simple, 0, &candidates, usize::MAX);
    assert_eq!(results.len(), 256);
    for (i, r) in results.iter().enumerate() {
        assert_eq!(r.left_bound, bound(i as u32));
        assert_eq!(r.count, 1);
        assert_eq!(r.any_docid, i as u32);
    }
}

#[test]
fn filter_distribution_all_stop_early() {
    let indexes = [get_simple_index(), get_random_looking_index()];
    for index in indexes.iter() {
        let candidates = (0..=255).collect::<RoaringBitmap>();
        let all = iterate_over_facet_distribution(index, 0, &candidates, usize::MAX);
        let results = iterate_over_facet_distribution(index, 0, &candidates, 100);
        assert_eq!(results.len(), 100.min(all.len()));
        for (r, a) in results.iter().zip(all.iter()) {
            assert_eq!(r.left_bound, a.left_bound);
            assert_eq!(r.count, a.count);
        }
    }
}

#[test]
fn distribution_of_missing_field_is_empty() {
    let index = get_simple_index();
    let candidates = (0..=255).collect::<RoaringBitmap>();
    assert!(iterate_over_facet_distribution(&index, 1, &candidates, usize::MAX).is_empty());
    assert!(iterate_over_facet_distribution(&index, 0, &candidates, 0).is_empty());
    assert!(iterate_over_facet_distribution(&FacetIndex::empty(), 0, &candidates, 10).is_empty());
}

#[test]
fn distribution_skips_values_without_candidates() {
    let index = get_simple_index();
    let candidates: RoaringBitmap = [3u32, 77, 200].into_iter().collect();
    let results = iterate_over_facet_distribution(&index, 0, &candidates, usize::MAX);
    let bounds: Vec<Vec<u8>> = results.iter().map(|r| r.left_bound.clone()).collect();
    assert_eq!(bounds, vec![bound(3), bound(77), bound(200)]);
}

#[test]
fn random_looking_index_snap() {
    let index = get_random_looking_index();
    let mut distinct = random_keys();
    distinct.sort();
    distinct.dedup();
    let level0 = index.entries.iter().filter(|e| e.key.level == 0).count();
    assert_eq!(level0, distinct.len());
    assert_eq!(index.highest_level(0), index.entries.last().map(|e| e.key.level));
}

#[test]
fn filter_sort_descending() {
    let indexes = [get_simple_index(), get_random_looking_index()];
    for index in indexes.iter() {
        let candidates = (200..=300).collect::<RoaringBitmap>();
        let results = descending_facet_sort(index, 0, candidates.clone());
        assert_eq!(results, brute_force_descending(index, &candidates));
    }
    let simple = get_simple_index();
    let results = descending_facet_sort(&simple, 0, (200..=300).collect());
    assert_eq!(results.len(), 56);
    assert_eq!(results[0], [255u32].into_iter().collect::<RoaringBitmap>());
    assert_eq!(results[55], [200u32].into_iter().collect::<RoaringBitmap>());
}

#[test]
fn sort_descending_partitions_candidates() {
    let index = get_random_looking_index();
    let candidates = (0..400).collect::<RoaringBitmap>();
    let results = descending_facet_sort(&index, 0, candidates.clone());
    let mut seen = RoaringBitmap::new();
    for group in &results {
        assert!(!group.is_empty());
        assert!(group.is_subset(&candidates));
        assert!((&seen & group).is_empty());
        seen |= group;
    }
    let mut indexed = RoaringBitmap::new();
    for e in index.entries.iter().filter(|e| e.key.level == 0) {
        indexed |= &e.value.bitmap;
    }
    assert_eq!(seen, &candidates & &indexed);
}

#[test]
fn sort_descending_is_deterministic_and_decreasing() {
    let index = get_random_looking_index();
    let candidates = (0..400).collect::<RoaringBitmap>();
    let first = descending_facet_sort(&index, 0, candidates.clone());
    let second = descending_facet_sort(&index, 0, candidates);
    assert_eq!(first, second);
    assert_eq!(first, brute_force_descending(&index, &(0..400).collect()));
}

#[test]
fn restricted_candidates_count_matches_level_zero() {
    let index = get_simple_index();
    let candidates = (200..=300).collect::<RoaringBitmap>();
    let total: u64 = descending_facet_sort(&index, 0, candidates.clone()).iter().map(|b| b.len()).sum();
    let direct: u64 = level0_groups(&index, &candidates).iter().map(|(_, b)| b.len()).sum();
    assert_eq!(total, direct);
    assert_eq!(total, 56);
    let random = get_random_looking_index();
    let total: u64 = descending_facet_sort(&random, 0, candidates.clone()).iter().map(|b| b.len()).sum();
    let mut direct = RoaringBitmap::new();
    for (_, b) in level0_groups(&random, &candidates) {
        direct |= b;
    }
    assert_eq!(total, direct.len());
}

#[test]
fn sort_descending_of_missing_field_is_empty() {
    let index = get_simple_index();
    assert!(descending_facet_sort(&index, 3, (0..10).collect()).is_empty());
    assert!(descending_facet_sort(&index, 0, RoaringBitmap::new()).is_empty());
}

#[test]
fn seek_and_lookups() {
    let index = get_simple_index();
    assert_eq!(index.seek(0, 0, &bound(0), false), 0);
    assert_eq!(index.seek(0, 0, &bound(10), false), 10);
    assert_eq!(index.seek(0, 0, &bound(10), true), 11);
    assert_eq!(index.seek(0, 1, &[], false), 256);
    assert_eq!(index.first_value(0), Some(0));
    assert_eq!(index.last_value(0), Some(255));
    assert_eq!(index.highest_level(0), Some(3));
    assert_eq!(index.highest_level(1), None);
    assert_eq!(index.first_value(1), None);
}

#[test]
fn byte_order() {
    assert!(bytes_less(&[1, 2], &[1, 3]));
    assert!(bytes_less(&[1], &[1, 0]));
    assert!(!bytes_less(&[1, 0], &[1]));
    assert!(!bytes_less(&[2], &[2]));
    assert!(bytes_less(&[], &[0]));
    assert!(bytes_equal(&[4, 5], &[4, 5]));
    assert!(!bytes_equal(&[4, 5], &[4]));
    assert_eq!(copy_bytes(&[9, 8, 7]), vec![9, 8, 7]);
}

#[test]
fn built_levels_are_unions_of_their_children() {
    assert!(get_simple_index().check_union_invariant(0));
    assert!(get_random_looking_index().check_union_invariant(0));
    assert!(FacetIndex::empty().check_union_invariant(0));
}

#[test]
fn union_invariant_detects_a_stale_group() {
    let mut index = get_simple_index();
    let pos = index.entries.iter().position(|e| e.key.level == 1).unwrap();
    index.entries[pos].value.bitmap.remove(0);
    assert!(!index.check_union_invariant(0));
    assert!(index.check_union_invariant(1));

    let mut index = get_simple_index();
    let pos = index.entries.iter().position(|e| e.key.level == 2).unwrap();
    index.entries[pos].value.bitmap.insert(999);
    assert!(!index.check_union_invariant(0));
}
