use milli_core::bulk::{document_chunk_ends, memory_per_thread, GrenadParameters};
use milli_core::merge::{merge_values, resolve_write, MergeError, MergeFn};
use roaring::RoaringBitmap;
use std::borrow::Cow;

fn encode(ids: &[u32]) -> Vec<u8> {
    let b: RoaringBitmap = ids.iter().copied().collect();
    let mut out = Vec::new();
    b.serialize_into(&mut out).unwrap();
    out
}

fn decode(bytes: &[u8]) -> RoaringBitmap {
    RoaringBitmap::deserialize_from(bytes).unwrap()
}

#[test]
fn keep_first_and_latest() {
    let values = vec![b"a".to_vec(), b"b".to_vec(), b"c".to_vec()];
    assert_eq!(merge_values(MergeFn::KeepFirst, b"k", &values), Ok(b"a".to_vec()));
    assert_eq!(merge_values(MergeFn::KeepLatest, b"k", &values), Ok(b"c".to_vec()));
}

#[test]
fn bitmap_union_merge() {
    let values = vec![encode(&[1, 2]), encode(&[2, 3]), encode(&[10])];
    let merged = merge_values(MergeFn::RoaringBitmapUnion, b"k", &values).unwrap();
    assert_eq!(decode(&merged), [1u32, 2, 3, 10].into_iter().collect::<RoaringBitmap>());
}

#[test]
fn bitmap_union_of_one_value_keeps_it() {
    let values = vec![b"not a bitmap".to_vec()];
    assert_eq!(merge_values(MergeFn::RoaringBitmapUnion, b"k", &values), Ok(b"not a bitmap".to_vec()));
}

#[test]
fn bitmap_union_reports_malformed_value() {
    let values = vec![encode(&[1]), b"xx".to_vec(), b"yy".to_vec()];
    assert_eq!(
        merge_values(MergeFn::RoaringBitmapUnion, b"k", &values),
        Err(MergeError::MalformedBitmap { position: 1 })
    );
}

#[test]
fn write_new_and_existing_keys() {
    assert_eq!(resolve_write(MergeFn::KeepFirst, b"k", None, b"new"), Ok(b"new".to_vec()));
    assert_eq!(resolve_write(MergeFn::KeepFirst, b"k", Some(b"old"), b"new"), Ok(b"old".to_vec()));
    assert_eq!(resolve_write(MergeFn::KeepLatest, b"k", Some(b"old"), b"new"), Ok(b"new".to_vec()));
    let r = resolve_write(MergeFn::RoaringBitmapUnion, b"k", Some(&encode(&[1])), &encode(&[2])).unwrap();
    assert_eq!(decode(&r), [1u32, 2].into_iter().collect::<RoaringBitmap>());
}

#[test]
fn reingesting_a_record_changes_nothing() {
    let record = b"{\"id\":1}".to_vec();
    let once = resolve_write(MergeFn::KeepLatest, b"k", None, &record).unwrap();
    let twice = resolve_write(MergeFn::KeepLatest, b"k", Some(&once), &record).unwrap();
    assert_eq!(once, twice);

    let bitmap = encode(&[4, 8, 15]);
    let once = resolve_write(MergeFn::RoaringBitmapUnion, b"k", None, &bitmap).unwrap();
    let twice = resolve_write(MergeFn::RoaringBitmapUnion, b"k", Some(&once), &bitmap).unwrap();
    assert_eq!(decode(&once), decode(&twice));
}

#[test]
fn chunk_ends_by_size() {
    assert_eq!(document_chunk_ends(&vec![3, 3, 3, 3, 3], 6), vec![2, 4, 5]);
    assert_eq!(document_chunk_ends(&vec![10, 1, 1], 5), vec![1, 3]);
    assert_eq!(document_chunk_ends(&vec![2, 2, 2], 6), vec![3, 3]);
    assert_eq!(document_chunk_ends(&vec![], 6), vec![0]);
    assert_eq!(document_chunk_ends(&vec![1, 1], 0), vec![1, 2, 2]);
    assert_eq!(document_chunk_ends(&vec![u64::MAX, u64::MAX], usize::MAX), vec![1, 2, 2]);
}

#[test]
fn memory_split_between_threads() {
    assert_eq!(memory_per_thread(Some(100), 3), Some(33));
    assert_eq!(memory_per_thread(Some(100), 0), Some(100));
    assert_eq!(memory_per_thread(None, 4), None);
    let params = GrenadParameters { max_memory: Some(1 << 20), ..GrenadParameters::default() };
    let per_thread = params.max_memory_by_thread().unwrap();
    assert!(per_thread <= 1 << 20);
    assert_eq!(Some(per_thread), memory_per_thread(Some(1 << 20), rayon::current_num_threads()));
    let default = GrenadParameters::default();
    assert_eq!(default.max_memory_by_thread(), None);
    assert_eq!(default.max_nb_chunks, None);
    assert_eq!(default.chunk_compression_level, None);
    assert!(matches!(default.chunk_compression_type, grenad::CompressionType::None));
}

fn union_merge<'a>(key: &[u8], values: &[Cow<'a, [u8]>]) -> Result<Cow<'a, [u8]>, MergeError> {
    let owned: Vec<Vec<u8>> = values.iter().map(|v| v.to_vec()).collect();
    merge_values(MergeFn::RoaringBitmapUnion, key, &owned).map(Cow::Owned)
}

type UnionFn = for<'a> fn(&[u8], &[Cow<'a, [u8]>]) -> Result<Cow<'a, [u8]>, MergeError>;

fn sorted_output(spill: bool) -> Vec<(Vec<u8>, Vec<u8>)> {
    let mut builder = grenad::Sorter::builder(union_merge as UnionFn);
    if spill {
        builder.dump_threshold(1024);
        builder.allow_realloc(false);
        builder.max_nb_chunks(3);
    }
    let mut sorter = builder.build();
    for i in 0..3000u32 {
        let key = (i.wrapping_mul(7919) % 97).to_be_bytes();
        sorter.insert(key, encode(&[i])).unwrap();
    }
    let mut iter = sorter.into_stream_merger_iter().unwrap();
    let mut out = Vec::new();
    while let Some((k, v)) = iter.next().unwrap() {
        out.push((k.to_vec(), v.to_vec()));
    }
    out
}

#[test]
fn spilling_does_not_change_merged_output() {
    let in_memory = sorted_output(false);
    let spilled = sorted_output(true);
    assert_eq!(in_memory.len(), 97);
    assert_eq!(in_memory, spilled);
    let all: RoaringBitmap = in_memory.iter().map(|(_, v)| decode(v)).fold(RoaringBitmap::new(), |a, b| a | b);
    assert_eq!(all.len(), 3000);
}

#[test]
fn union_of_bitmaps_with_empty_containers() {
    // one run container that holds no run
    let empty_run = vec![0x3B, 0x30, 0x00, 0x00, 0x01, 0x00, 0x00, 0x00, 0x00, 0x00, 0x00];
    assert!(RoaringBitmap::deserialize_from(&empty_run[..]).is_ok());
    let values = vec![empty_run.clone(), empty_run.clone()];
    let merged = merge_values(MergeFn::RoaringBitmapUnion, b"k", &values).unwrap();
    assert!(decode(&merged).is_empty());
    let values = vec![empty_run, encode(&[7, 70000])];
    let merged = merge_values(MergeFn::RoaringBitmapUnion, b"k", &values).unwrap();
    assert_eq!(decode(&merged), [7u32, 70000].into_iter().collect::<RoaringBitmap>());
}
