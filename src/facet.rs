//! The facet level index: groups of facet values, sorted by
//! `(field_id, level, left_bound)`, each with the documents that it covers.
use crate::bitmap::{bitmap_wf, docids};
use roaring::RoaringBitmap;
use vstd::prelude::*;

verus! {

/// Byte-lexicographic order: `a` sorts strictly before `b`.
pub open spec fn bytes_lt(a: Seq<u8>, b: Seq<u8>) -> bool
    decreases a.len(),
{
    if a.len() == 0 {
        b.len() > 0
    } else if b.len() == 0 {
        false
    } else if a[0] != b[0] {
        a[0] < b[0]
    } else {
        bytes_lt(a.drop_first(), b.drop_first())
    }
}

/// The order of keys: by field, then level, then left bound.
pub open spec fn key_lt(fa: u16, la: u8, ba: Seq<u8>, fb: u16, lb: u8, bb: Seq<u8>) -> bool {
    fa < fb || (fa == fb && (la < lb || (la == lb && bytes_lt(ba, bb))))
}

pub proof fn lemma_bytes_lt_irreflexive(a: Seq<u8>)
    ensures
        !bytes_lt(a, a),
    decreases a.len(),
{
    if a.len() > 0 {
        lemma_bytes_lt_irreflexive(a.drop_first());
    }
}

pub proof fn lemma_bytes_lt_transitive(a: Seq<u8>, b: Seq<u8>, c: Seq<u8>)
    requires
        bytes_lt(a, b),
        bytes_lt(b, c),
    ensures
        bytes_lt(a, c),
    decreases a.len(),
{
    if a.len() > 0 && b.len() > 0 && c.len() > 0 && a[0] == b[0] && b[0] == c[0] {
        lemma_bytes_lt_transitive(a.drop_first(), b.drop_first(), c.drop_first());
    }
}

pub proof fn lemma_bytes_lt_total(a: Seq<u8>, b: Seq<u8>)
    requires
        a != b,
        !bytes_lt(a, b),
    ensures
        bytes_lt(b, a),
    decreases a.len(),
{
    if a.len() > 0 && b.len() > 0 && a[0] == b[0] {
        if a.drop_first() == b.drop_first() {
            assert(a =~= seq![a[0]] + a.drop_first());
            assert(b =~= seq![b[0]] + b.drop_first());
        }
        lemma_bytes_lt_total(a.drop_first(), b.drop_first());
    } else if a.len() == 0 && b.len() == 0 {
        assert(a =~= b);
    }
}

proof fn lemma_bytes_lt_skip(a: Seq<u8>, b: Seq<u8>, i: int)
    requires
        0 <= i <= a.len(),
        i <= b.len(),
        a.subrange(0, i) == b.subrange(0, i),
    ensures
        bytes_lt(a, b) == bytes_lt(a.skip(i), b.skip(i)),
    decreases i,
{
    if i > 0 {
        assert(a[0] == a.subrange(0, i)[0]);
        assert(b[0] == b.subrange(0, i)[0]);
        assert(a.drop_first().subrange(0, i - 1) =~= a.subrange(0, i).drop_first());
        assert(b.drop_first().subrange(0, i - 1) =~= b.subrange(0, i).drop_first());
        lemma_bytes_lt_skip(a.drop_first(), b.drop_first(), i - 1);
        assert(a.drop_first().skip(i - 1) =~= a.skip(i));
        assert(b.drop_first().skip(i - 1) =~= b.skip(i));
    } else {
        assert(a.skip(0) =~= a);
        assert(b.skip(0) =~= b);
    }
}

/// Compares two byte strings in lexicographic order.
pub fn bytes_less(a: &[u8], b: &[u8]) -> (r: bool)
    ensures
        r == bytes_lt(a@, b@),
{
    let mut i: usize = 0;
    while i < a.len() && i < b.len() && a[i] == b[i]
        invariant
            i <= a@.len(),
            i <= b@.len(),
            a@.subrange(0, i as int) == b@.subrange(0, i as int),
        decreases a.len() - i,
    {
        assert(a@.subrange(0, i + 1) =~= a@.subrange(0, i as int).push(a@[i as int]));
        assert(b@.subrange(0, i + 1) =~= b@.subrange(0, i as int).push(b@[i as int]));
        i = i + 1;
    }
    proof {
        lemma_bytes_lt_skip(a@, b@, i as int);
        if i < a.len() && i < b.len() {
            assert(a@.skip(i as int)[0] == a@[i as int]);
            assert(b@.skip(i as int)[0] == b@[i as int]);
        }
    }
    if i == a.len() {
        i < b.len()
    } else if i == b.len() {
        false
    } else {
        a[i] < b[i]
    }
}

/// Tests two byte strings for equality.
pub fn bytes_equal(a: &[u8], b: &[u8]) -> (r: bool)
    ensures
        r == (a@ == b@),
{
    if a.len() != b.len() {
        return false;
    }
    let mut i: usize = 0;
    while i < a.len()
        invariant
            a@.len() == b@.len(),
            i <= a@.len(),
            forall|j: int| 0 <= j < i ==> a@[j] == b@[j],
        decreases a.len() - i,
    {
        if a[i] != b[i] {
            return false;
        }
        i = i + 1;
    }
    assert(a@ =~= b@);
    true
}

/// Copies a byte string.
pub fn copy_bytes(b: &[u8]) -> (r: Vec<u8>)
    ensures
        r@ == b@,
{
    let mut r: Vec<u8> = Vec::with_capacity(b.len());
    let mut i: usize = 0;
    while i < b.len()
        invariant
            i <= b@.len(),
            r@ == b@.subrange(0, i as int),
        decreases b.len() - i,
    {
        r.push(b[i]);
        i = i + 1;
        assert(r@ =~= b@.subrange(0, i as int));
    }
    assert(r@ =~= b@);
    r
}

/// The key of a facet group.
pub struct FacetGroupKey {
    pub field_id: u16,
    pub level: u8,
    pub left_bound: Vec<u8>,
}

/// What a facet group holds: how many groups of the level below it spans
/// (`u8::MAX` for the last group of a level), and its documents.
pub struct FacetGroupValue {
    pub size: u8,
    pub bitmap: RoaringBitmap,
}

/// One stored group.
pub struct FacetGroupEntry {
    pub key: FacetGroupKey,
    pub value: FacetGroupValue,
}

/// A read-only snapshot of the facet level index: all groups, in key order.
pub struct FacetIndex {
    pub entries: Vec<FacetGroupEntry>,
}

impl FacetGroupEntry {
    pub open spec fn lt_key(&self, field_id: u16, level: u8, bound: Seq<u8>) -> bool {
        key_lt(self.key.field_id, self.key.level, self.key.left_bound@, field_id, level, bound)
    }

    pub open spec fn is_key(&self, field_id: u16, level: u8, bound: Seq<u8>) -> bool {
        self.key.field_id == field_id && self.key.level == level && self.key.left_bound@ == bound
    }

    pub open spec fn docs(&self) -> Set<u32> {
        docids(self.value.bitmap)
    }
}

impl FacetIndex {
    pub open spec fn len(&self) -> nat {
        self.entries@.len()
    }

    pub open spec fn entry(&self, i: int) -> FacetGroupEntry {
        self.entries@[i]
    }

    /// Every group's bitmap has its containers in order and none empty.
    pub open spec fn bitmaps_wf(&self) -> bool {
        forall|i: int| 0 <= i < self.entries@.len() ==> bitmap_wf(#[trigger] self.entries@[i].value.bitmap)
    }

    /// The entries are in strictly increasing key order.
    pub open spec fn wf(&self) -> bool {
        forall|i: int, j: int|
            0 <= i < j < self.len() ==> #[trigger] self.entry(i).lt_key(
                #[trigger] self.entry(j).key.field_id,
                self.entry(j).key.level,
                self.entry(j).key.left_bound@,
            )
    }

    /// A snapshot over no groups.
    pub fn empty() -> (r: FacetIndex)
        ensures
            r.len() == 0,
            r.wf(),
            r.bitmaps_wf(),
    {
        FacetIndex { entries: Vec::new() }
    }

    /// Whether a scan for the given key passes over entry `i`.
    pub open spec fn passes(&self, i: int, field_id: u16, level: u8, bound: Seq<u8>, past_equal: bool) -> bool {
        self.entry(i).lt_key(field_id, level, bound) || (past_equal && self.entry(i).is_key(
            field_id,
            level,
            bound,
        ))
    }

    pub open spec fn seek_from(&self, i: int, field_id: u16, level: u8, bound: Seq<u8>, past_equal: bool) -> int
        decreases self.len() - i,
    {
        if i < 0 || i >= self.len() {
            self.len() as int
        } else if self.passes(i, field_id, level, bound, past_equal) {
            self.seek_from(i + 1, field_id, level, bound, past_equal)
        } else {
            i
        }
    }

    /// Position of the first entry whose key is not below the given key
    /// (with `past_equal`: neither below nor equal to it).
    pub open spec fn seek_spec(&self, field_id: u16, level: u8, bound: Seq<u8>, past_equal: bool) -> int {
        self.seek_from(0, field_id, level, bound, past_equal)
    }

    /// On an index in key order, the entries that a seek passes over are
    /// exactly those before the position that it returns.
    pub proof fn lemma_seek_sorted(&self, field_id: u16, level: u8, bound: Seq<u8>, past_equal: bool, p: int)
        requires
            self.wf(),
            0 <= p < self.len(),
        ensures
            (p < self.seek_spec(field_id, level, bound, past_equal)) == self.passes(p, field_id, level, bound, past_equal),
    {
        self.lemma_seek_from(0, field_id, level, bound, past_equal, p);
    }

    proof fn lemma_seek_from(&self, i: int, field_id: u16, level: u8, bound: Seq<u8>, past_equal: bool, p: int)
        requires
            self.wf(),
            0 <= i <= p < self.len(),
            forall|j: int| 0 <= j < i ==> self.passes(j, field_id, level, bound, past_equal),
        ensures
            (p < self.seek_from(i, field_id, level, bound, past_equal)) == self.passes(p, field_id, level, bound, past_equal),
        decreases self.len() - i,
    {
        if self.passes(i, field_id, level, bound, past_equal) {
            if i < p {
                self.lemma_seek_from(i + 1, field_id, level, bound, past_equal, p);
            } else {
                self.lemma_seek_from_bounds(i + 1, field_id, level, bound, past_equal);
            }
        } else if i < p {
            // entry i is not below the bound, so neither is entry p, which follows it
            let ki = self.entry(i).key;
            let kp = self.entry(p).key;
            assert(self.entry(i).lt_key(kp.field_id, kp.level, kp.left_bound@));
            if self.passes(p, field_id, level, bound, past_equal) {
                if self.entry(p).lt_key(field_id, level, bound) {
                    if ki.field_id == kp.field_id && ki.level == kp.level && kp.field_id == field_id && kp.level == level {
                        lemma_bytes_lt_transitive(ki.left_bound@, kp.left_bound@, bound);
                    }
                }
            }
        }
    }

    pub proof fn lemma_seek_from_bounds(&self, i: int, field_id: u16, level: u8, bound: Seq<u8>, past_equal: bool)
        ensures
            i <= self.len() ==> i <= self.seek_from(i, field_id, level, bound, past_equal),
            self.seek_from(i, field_id, level, bound, past_equal) <= self.len(),
        decreases self.len() - i,
    {
        if 0 <= i < self.len() && self.passes(i, field_id, level, bound, past_equal) {
            self.lemma_seek_from_bounds(i + 1, field_id, level, bound, past_equal);
        }
    }

    /// A seek for a key that sorts no earlier stops no earlier.
    pub proof fn lemma_seek_monotone(
        &self,
        field_id: u16,
        level: u8,
        a: Seq<u8>,
        a_equal: bool,
        b: Seq<u8>,
        b_equal: bool,
    )
        requires
            bytes_lt(a, b) || (a == b && (b_equal || !a_equal)),
        ensures
            self.seek_spec(field_id, level, a, a_equal) <= self.seek_spec(field_id, level, b, b_equal),
    {
        self.lemma_seek_monotone_from(0, field_id, level, a, a_equal, b, b_equal);
    }

    proof fn lemma_seek_monotone_from(
        &self,
        i: int,
        field_id: u16,
        level: u8,
        a: Seq<u8>,
        a_equal: bool,
        b: Seq<u8>,
        b_equal: bool,
    )
        requires
            0 <= i,
            bytes_lt(a, b) || (a == b && (b_equal || !a_equal)),
        ensures
            self.seek_from(i, field_id, level, a, a_equal) <= self.seek_from(i, field_id, level, b, b_equal),
        decreases self.len() - i,
    {
        if i < self.len() {
            if self.passes(i, field_id, level, a, a_equal) {
                let k = self.entry(i).key;
                if k.field_id == field_id && k.level == level && bytes_lt(k.left_bound@, a) && bytes_lt(a, b) {
                    lemma_bytes_lt_transitive(k.left_bound@, a, b);
                }
                assert(self.passes(i, field_id, level, b, b_equal));
                self.lemma_seek_monotone_from(i + 1, field_id, level, a, a_equal, b, b_equal);
            } else {
                self.lemma_seek_from_bounds(i, field_id, level, b, b_equal);
            }
        }
    }

    /// Finds where a range that starts at the given key begins, or where one
    /// that stops there ends: the first entry whose key is not below it.
    pub fn seek(&self, field_id: u16, level: u8, bound: &[u8], past_equal: bool) -> (r: usize)
        ensures
            r == self.seek_spec(field_id, level, bound@, past_equal),
            r <= self.len(),
    {
        let mut i: usize = 0;
        while i < self.entries.len()
            invariant
                i <= self.len(),
                self.seek_from(i as int, field_id, level, bound@, past_equal) == self.seek_spec(
                    field_id,
                    level,
                    bound@,
                    past_equal,
                ),
            decreases self.entries.len() - i,
        {
            let k = &self.entries[i].key;
            let before = k.field_id < field_id || (k.field_id == field_id && (k.level < level || (
            k.level == level && bytes_less(k.left_bound.as_slice(), bound))));
            let equal = k.field_id == field_id && k.level == level && bytes_equal(
                k.left_bound.as_slice(),
                bound,
            );
            if !(before || (past_equal && equal)) {
                return i;
            }
            i = i + 1;
        }
        i
    }

    /// `level` is the highest level of any group of the field.
    pub open spec fn is_highest_level(&self, field_id: u16, level: u8) -> bool {
        &&& exists|i: int| 0 <= i < self.len() && #[trigger] self.entry(i).key.field_id == field_id
            && self.entry(i).key.level == level
        &&& forall|i: int|
            0 <= i < self.len() && #[trigger] self.entry(i).key.field_id == field_id
                ==> self.entry(i).key.level <= level
    }

    /// Entry `i` holds a value of the field: a group of level 0.
    pub open spec fn is_value(&self, i: int, field_id: u16) -> bool {
        0 <= i < self.len() && self.entry(i).key.field_id == field_id && self.entry(i).key.level == 0
    }

    pub open spec fn has_values(&self, field_id: u16) -> bool {
        exists|i: int| self.is_value(i, field_id)
    }

    /// Entry `i` holds the first value of the field.
    pub open spec fn is_first_value(&self, i: int, field_id: u16) -> bool {
        self.is_value(i, field_id) && forall|j: int| 0 <= j < i ==> !self.is_value(j, field_id)
    }

    /// Entry `i` holds the last value of the field.
    pub open spec fn is_last_value(&self, i: int, field_id: u16) -> bool {
        self.is_value(i, field_id) && forall|j: int| i < j < self.len() ==> !self.is_value(j, field_id)
    }

    pub proof fn lemma_highest_level_unique(&self, field_id: u16, a: u8, b: u8)
        requires
            self.is_highest_level(field_id, a),
            self.is_highest_level(field_id, b),
        ensures
            a == b,
    {
        let i = choose|i: int| 0 <= i < self.len() && #[trigger] self.entry(i).key.field_id == field_id
            && self.entry(i).key.level == a;
        let j = choose|j: int| 0 <= j < self.len() && #[trigger] self.entry(j).key.field_id == field_id
            && self.entry(j).key.level == b;
        assert(self.entry(i).key.level <= b);
        assert(self.entry(j).key.level <= a);
    }

    /// A field with a group has a highest level.
    pub proof fn lemma_highest_level_exists(&self, field_id: u16, i: int)
        requires
            0 <= i < self.len(),
            self.entry(i).key.field_id == field_id,
        ensures
            exists|l: u8| self.is_highest_level(field_id, l),
        decreases 255 - self.entry(i).key.level,
    {
        if exists|j: int|
            0 <= j < self.len() && #[trigger] self.entry(j).key.field_id == field_id && self.entry(j).key.level
                > self.entry(i).key.level {
            let j = choose|j: int|
                0 <= j < self.len() && #[trigger] self.entry(j).key.field_id == field_id && self.entry(j).key.level
                    > self.entry(i).key.level;
            self.lemma_highest_level_exists(field_id, j);
        } else {
            assert(self.is_highest_level(field_id, self.entry(i).key.level));
        }
    }

    pub proof fn lemma_first_value_unique(&self, field_id: u16, a: int, b: int)
        requires
            self.is_first_value(a, field_id),
            self.is_first_value(b, field_id),
        ensures
            a == b,
    {
    }

    pub proof fn lemma_last_value_unique(&self, field_id: u16, a: int, b: int)
        requires
            self.is_last_value(a, field_id),
            self.is_last_value(b, field_id),
        ensures
            a == b,
    {
    }

    /// The highest level of the field, or `None` when it has no group.
    pub fn highest_level(&self, field_id: u16) -> (r: Option<u8>)
        ensures
            r matches Some(l) ==> self.is_highest_level(field_id, l),
            r is None <==> forall|i: int| 0 <= i < self.len() ==> #[trigger] self.entry(i).key.field_id != field_id,
    {
        let mut best: Option<u8> = None;
        let mut i: usize = 0;
        while i < self.entries.len()
            invariant
                i <= self.len(),
                best matches Some(l) ==> (exists|j: int| 0 <= j < i && #[trigger] self.entry(j).key.field_id == field_id
                    && self.entry(j).key.level == l),
                best matches Some(l) ==> forall|j: int|
                    0 <= j < i && #[trigger] self.entry(j).key.field_id == field_id ==> self.entry(j).key.level <= l,
                best is None ==> forall|j: int| 0 <= j < i ==> #[trigger] self.entry(j).key.field_id != field_id,
            decreases self.entries.len() - i,
        {
            let k = &self.entries[i].key;
            if k.field_id == field_id {
                match best {
                    Some(l) => {
                        if k.level > l {
                            best = Some(k.level);
                            assert(self.entry(i as int).key.field_id == field_id);
                        }
                    },
                    None => {
                        best = Some(k.level);
                        assert(self.entry(i as int).key.field_id == field_id);
                    },
                }
            }
            i = i + 1;
        }
        best
    }

    /// Position of the first value of the field, if it has any.
    pub fn first_value(&self, field_id: u16) -> (r: Option<usize>)
        ensures
            r matches Some(i) ==> self.is_first_value(i as int, field_id),
            r is None <==> !self.has_values(field_id),
    {
        let mut i: usize = 0;
        while i < self.entries.len()
            invariant
                i <= self.len(),
                forall|j: int| 0 <= j < i ==> !self.is_value(j, field_id),
            decreases self.entries.len() - i,
        {
            if self.entries[i].key.field_id == field_id && self.entries[i].key.level == 0 {
                assert(self.is_value(i as int, field_id));
                return Some(i);
            }
            i = i + 1;
        }
        None
    }

    /// Position of the last value of the field, if it has any.
    pub fn last_value(&self, field_id: u16) -> (r: Option<usize>)
        ensures
            r matches Some(i) ==> self.is_last_value(i as int, field_id),
            r is None <==> !self.has_values(field_id),
    {
        let mut i: usize = self.entries.len();
        while i > 0
            invariant
                i <= self.len(),
                forall|j: int| i <= j < self.len() ==> !self.is_value(j, field_id),
            decreases i,
        {
            i = i - 1;
            if self.entries[i].key.field_id == field_id && self.entries[i].key.level == 0 {
                assert(self.is_value(i as int, field_id));
                return Some(i);
            }
        }
        None
    }
}

} // verus!
