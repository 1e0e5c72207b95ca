//! Merge functions, and how a value that is loaded meets the value that the
//! store already holds under the same key.
use crate::bitmap::{bitmap_new, bitmap_or_assign, bitmap_wf, docids};
use roaring::RoaringBitmap;
use vstd::prelude::*;

verus! {

/// The document ids that the bytes encode in the portable Roaring format
/// (the ids of all the containers that they hold), or `None` when they are
/// not such an encoding.
pub uninterp spec fn decoded_bitmap(bytes: Seq<u8>) -> Option<Set<u32>>;

/// Relies on `RoaringBitmap::deserialize_from`: decodes the portable
/// format, and fails on bytes that are not in it. The decoder leaves
/// containers as the bytes give them, so the ids are collected into a new
/// bitmap (`RoaringBitmap::iter`, `FromIterator`), whose containers are in
/// order and not empty.
#[verifier::external_body]
fn bitmap_decode(bytes: &[u8]) -> (r: Option<RoaringBitmap>)
    ensures
        r is Some <==> decoded_bitmap(bytes@) is Some,
        r matches Some(b) ==> decoded_bitmap(bytes@) == Some(docids(b)) && bitmap_wf(b),
{
    RoaringBitmap::deserialize_from(bytes).ok().map(|b| b.iter().collect())
}

/// Relies on `RoaringBitmap::serialize_into`, writing into a `Vec<u8>`
/// (which cannot fail): for containers in order and not empty, the bytes
/// decode back to the same ids.
#[verifier::external_body]
fn bitmap_encode(b: &RoaringBitmap) -> (r: Vec<u8>)
    requires
        bitmap_wf(*b),
    ensures
        decoded_bitmap(r@) == Some(docids(*b)),
{
    let mut bytes = Vec::with_capacity(b.serialized_size());
    match b.serialize_into(&mut bytes) {
        Ok(()) => bytes,
        Err(_) => Vec::new(),
    }
}

/// How the values that share a key become one value.
#[derive(Clone, Copy, Debug, PartialEq, Eq, Structural)]
pub enum MergeFn {
    /// The first value is kept.
    KeepFirst,
    /// The last value is kept: the last write wins.
    KeepLatest,
    /// The values are bitmaps of document ids: their union is kept.
    RoaringBitmapUnion,
}

/// Why values could not be merged.
#[derive(Clone, Copy, Debug, PartialEq, Eq, Structural)]
pub enum MergeError {
    /// The value at this position is not an encoded bitmap.
    MalformedBitmap { position: usize },
}

pub open spec fn union_all(sets: Seq<Set<u32>>) -> Set<u32>
    decreases sets.len(),
{
    if sets.len() == 0 {
        Set::empty()
    } else {
        union_all(sets.drop_last()).union(sets.last())
    }
}

/// The first position among the first `n` values that does not decode.
pub open spec fn first_malformed(values: Seq<Seq<u8>>, n: int) -> Option<int>
    decreases n,
{
    if n <= 0 {
        None
    } else {
        match first_malformed(values, n - 1) {
            Some(p) => Some(p),
            None => if decoded_bitmap(values[n - 1]) is None {
                Some(n - 1)
            } else {
                None
            },
        }
    }
}

proof fn lemma_first_malformed_stays(values: Seq<Seq<u8>>, n: int, m: int)
    requires
        n <= m,
        first_malformed(values, n) is Some,
    ensures
        first_malformed(values, m) == first_malformed(values, n),
    decreases m - n,
{
    if n < m {
        lemma_first_malformed_stays(values, n, m - 1);
    }
}

pub open spec fn decoded_sets(values: Seq<Seq<u8>>) -> Seq<Set<u32>> {
    values.map_values(|v: Seq<u8>| decoded_bitmap(v).unwrap())
}

/// `r` is what merging `values` under `merge` gives.
pub open spec fn merged(merge: MergeFn, values: Seq<Seq<u8>>, r: Result<Seq<u8>, MergeError>) -> bool {
    match merge {
        MergeFn::KeepFirst => r == Ok::<Seq<u8>, MergeError>(values[0]),
        MergeFn::KeepLatest => r == Ok::<Seq<u8>, MergeError>(values.last()),
        MergeFn::RoaringBitmapUnion => if values.len() == 1 {
            r == Ok::<Seq<u8>, MergeError>(values[0])
        } else {
            match first_malformed(values, values.len() as int) {
                Some(p) => r == Err::<Seq<u8>, MergeError>(MergeError::MalformedBitmap { position: p as usize }),
                None => r matches Ok(bytes) && decoded_bitmap(bytes) == Some(
                    union_all(decoded_sets(values)),
                ),
            }
        },
    }
}

pub open spec fn result_view(r: Result<Vec<u8>, MergeError>) -> Result<Seq<u8>, MergeError> {
    match r {
        Ok(v) => Ok(v@),
        Err(e) => Err(e),
    }
}

pub open spec fn values_view(values: Seq<Vec<u8>>) -> Seq<Seq<u8>> {
    values.map_values(|v: Vec<u8>| v@)
}

/// Merges the values that share `key`, in the order in which they came.
pub fn merge_values(merge: MergeFn, key: &[u8], values: &Vec<Vec<u8>>) -> (r: Result<Vec<u8>, MergeError>)
    requires
        values@.len() >= 1,
    ensures
        merged(merge, values_view(values@), result_view(r)),
{
    let ghost vs = values_view(values@);
    match merge {
        MergeFn::KeepFirst => Ok(copy_value(&values[0])),
        MergeFn::KeepLatest => Ok(copy_value(&values[values.len() - 1])),
        MergeFn::RoaringBitmapUnion => {
            if values.len() == 1 {
                return Ok(copy_value(&values[0]));
            }
            let mut acc = bitmap_new();
            let mut i: usize = 0;
            while i < values.len()
                invariant
                    i <= values@.len(),
                    values@.len() > 1,
                    merge == MergeFn::RoaringBitmapUnion,
                    vs == values_view(values@),
                    first_malformed(vs, i as int) is None,
                    docids(acc) == union_all(decoded_sets(vs).subrange(0, i as int)),
                    bitmap_wf(acc),
                decreases values.len() - i,
            {
                assert(decoded_sets(vs).subrange(0, i + 1).drop_last() =~= decoded_sets(vs).subrange(0, i as int));
                match bitmap_decode(values[i].as_slice()) {
                    Some(b) => {
                        bitmap_or_assign(&mut acc, &b);
                    },
                    None => {
                        proof {
                            assert(vs[i as int] == values@[i as int]@);
                            assert(first_malformed(vs, i + 1) == Some(i as int));
                            lemma_first_malformed_stays(vs, i + 1, vs.len() as int);
                        }
                        return Err(MergeError::MalformedBitmap { position: i });
                    },
                }
                i = i + 1;
            }
            assert(decoded_sets(vs).subrange(0, i as int) =~= decoded_sets(vs));
            Ok(bitmap_encode(&acc))
        },
    }
}

fn copy_value(v: &Vec<u8>) -> (r: Vec<u8>)
    ensures
        r@ == v@,
{
    crate::facet::copy_bytes(v.as_slice())
}

/// `r` is what the store holds under a key after a write of `incoming`,
/// when it held `existing` before.
pub open spec fn resolved(
    merge: MergeFn,
    existing: Option<Seq<u8>>,
    incoming: Seq<u8>,
    r: Result<Seq<u8>, MergeError>,
) -> bool {
    match existing {
        None => r == Ok::<Seq<u8>, MergeError>(incoming),
        Some(old_value) => merged(merge, seq![old_value, incoming], r),
    }
}

pub open spec fn option_view(o: Option<&[u8]>) -> Option<Seq<u8>> {
    match o {
        Some(v) => Some(v@),
        None => None,
    }
}

/// The value to store under a key when `incoming` is written there: the
/// incoming value where the key is new, else the merge of the stored value
/// and the incoming one, in that order.
pub fn resolve_write(merge: MergeFn, key: &[u8], existing: Option<&[u8]>, incoming: &[u8]) -> (r: Result<
    Vec<u8>,
    MergeError,
>)
    ensures
        resolved(merge, option_view(existing), incoming@, result_view(r)),
{
    match existing {
        None => Ok(crate::facet::copy_bytes(incoming)),
        Some(old_value) => {
            let mut values: Vec<Vec<u8>> = Vec::new();
            values.push(crate::facet::copy_bytes(old_value));
            values.push(crate::facet::copy_bytes(incoming));
            assert(values_view(values@) =~= seq![old_value@, incoming@]);
            merge_values(merge, key, &values)
        },
    }
}

proof fn lemma_merge_pair(a: Seq<u8>, b: Seq<u8>)
    requires
        decoded_bitmap(a) is Some,
        decoded_bitmap(b) is Some,
    ensures
        first_malformed(seq![a, b], 2) is None,
        union_all(decoded_sets(seq![a, b])) == decoded_bitmap(a).unwrap().union(decoded_bitmap(b).unwrap()),
{
    let vs = seq![a, b];
    assert(vs[0] == a && vs[1] == b);
    assert(first_malformed(vs, 0) is None);
    assert(first_malformed(vs, 1) is None);
    let ds = decoded_sets(vs);
    assert(ds[0] == decoded_bitmap(a).unwrap() && ds[1] == decoded_bitmap(b).unwrap());
    assert(ds.drop_last().drop_last() =~= Seq::<Set<u32>>::empty());
    assert(ds.drop_last().last() == ds[0]);
    assert(union_all(ds.drop_last().drop_last()) == Set::<u32>::empty());
    assert(union_all(ds.drop_last()) =~= ds[0]);
    assert(union_all(ds) =~= decoded_bitmap(a).unwrap().union(decoded_bitmap(b).unwrap()));
}

/// Loading a record a second time changes nothing: with the first or the
/// last write kept, the store holds the same bytes as after one load; with
/// bitmaps merged by union, bytes that decode to the same documents.
pub proof fn lemma_reingest_idempotent(
    merge: MergeFn,
    existing: Option<Seq<u8>>,
    incoming: Seq<u8>,
    once: Seq<u8>,
    twice: Result<Seq<u8>, MergeError>,
)
    requires
        resolved(merge, existing, incoming, Ok(once)),
        resolved(merge, Some(once), incoming, twice),
        merge == MergeFn::RoaringBitmapUnion ==> decoded_bitmap(incoming) is Some,
    ensures
        merge != MergeFn::RoaringBitmapUnion ==> twice == Ok::<Seq<u8>, MergeError>(once),
        merge == MergeFn::RoaringBitmapUnion ==> (twice matches Ok(t) && decoded_bitmap(t)
            == decoded_bitmap(once)),
{
    if merge == MergeFn::RoaringBitmapUnion {
        let s = decoded_bitmap(incoming).unwrap();
        match existing {
            None => {
                lemma_merge_pair(once, incoming);
                assert(s.union(s) =~= s);
            },
            Some(o) => {
                if decoded_bitmap(o) is None {
                    assert(first_malformed(seq![o, incoming], 1) == Some(0int));
                    assert(first_malformed(seq![o, incoming], 2) == Some(0int));
                } else {
                    lemma_merge_pair(o, incoming);
                    lemma_merge_pair(once, incoming);
                    let so = decoded_bitmap(o).unwrap();
                    assert(so.union(s).union(s) =~= so.union(s));
                }
            },
        }
    }
}

/// The documents that a stored value holds: none when the key is absent.
pub open spec fn stored_docs(existing: Option<Seq<u8>>) -> Set<u32> {
    match existing {
        None => Set::empty(),
        Some(bytes) => decoded_bitmap(bytes).unwrap(),
    }
}

/// The stored value is absent or an encoded bitmap.
pub open spec fn stored_decodes(existing: Option<Seq<u8>>) -> bool {
    existing matches Some(bytes) ==> decoded_bitmap(bytes) is Some
}

/// A write with the union merge stores the union of what the key held and
/// what was written.
pub proof fn lemma_union_write(existing: Option<Seq<u8>>, incoming: Seq<u8>, written: Seq<u8>)
    requires
        resolved(MergeFn::RoaringBitmapUnion, existing, incoming, Ok(written)),
        stored_decodes(existing),
        decoded_bitmap(incoming) is Some,
    ensures
        decoded_bitmap(written) == Some(stored_docs(existing).union(decoded_bitmap(incoming).unwrap())),
{
    match existing {
        None => {
            assert(Set::<u32>::empty().union(decoded_bitmap(incoming).unwrap()) =~= decoded_bitmap(
                incoming,
            ).unwrap());
        },
        Some(o) => {
            lemma_merge_pair(o, incoming);
        },
    }
}

proof fn lemma_union_all_pairwise(a: Seq<Set<u32>>, b: Seq<Set<u32>>, c: Seq<Set<u32>>)
    requires
        a.len() == b.len() == c.len(),
        forall|i: int| 0 <= i < c.len() ==> #[trigger] c[i] == a[i].union(b[i]),
    ensures
        union_all(c) == union_all(a).union(union_all(b)),
    decreases c.len(),
{
    if c.len() > 0 {
        lemma_union_all_pairwise(a.drop_last(), b.drop_last(), c.drop_last());
        assert(c.last() == a.last().union(b.last()));
        assert(union_all(c) =~= union_all(a).union(union_all(b)));
    }
}

/// Loading with the union merge keeps a group the union of its children:
/// when the stored group holds the union of its stored children, and the
/// loaded group the union of the loaded children, every key written with
/// the union merge leaves the written group the union of the written
/// children.
pub proof fn lemma_union_load_keeps_invariant(
    old_group: Option<Seq<u8>>,
    delta_group: Seq<u8>,
    new_group: Seq<u8>,
    old_children: Seq<Option<Seq<u8>>>,
    delta_children: Seq<Seq<u8>>,
    new_children: Seq<Seq<u8>>,
)
    requires
        old_children.len() == delta_children.len(),
        new_children.len() == delta_children.len(),
        resolved(MergeFn::RoaringBitmapUnion, old_group, delta_group, Ok(new_group)),
        forall|i: int|
            0 <= i < new_children.len() ==> resolved(
                MergeFn::RoaringBitmapUnion,
                old_children[i],
                delta_children[i],
                Ok(#[trigger] new_children[i]),
            ),
        stored_decodes(old_group),
        decoded_bitmap(delta_group) is Some,
        forall|i: int|
            0 <= i < old_children.len() ==> stored_decodes(#[trigger] old_children[i]) && decoded_bitmap(
                delta_children[i],
            ) is Some,
        stored_docs(old_group) == union_all(old_children.map_values(|c: Option<Seq<u8>>| stored_docs(c))),
        decoded_bitmap(delta_group).unwrap() == union_all(decoded_sets(delta_children)),
    ensures
        decoded_bitmap(new_group) == Some(union_all(decoded_sets(new_children))),
{
    lemma_union_write(old_group, delta_group, new_group);
    let a = old_children.map_values(|c: Option<Seq<u8>>| stored_docs(c));
    let b = decoded_sets(delta_children);
    let c = decoded_sets(new_children);
    assert forall|i: int| 0 <= i < c.len() implies #[trigger] c[i] == a[i].union(b[i]) by {
        assert(resolved(MergeFn::RoaringBitmapUnion, old_children[i], delta_children[i], Ok(new_children[i])));
        assert(stored_decodes(old_children[i]));
        lemma_union_write(old_children[i], delta_children[i], new_children[i]);
    }
    lemma_union_all_pairwise(a, b, c);
}

} // verus!
