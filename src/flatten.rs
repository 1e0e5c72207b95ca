//! Flattening of nested JSON objects into dotted field paths.
use crate::json::{JsonModel, JsonValue};
use vstd::prelude::*;

verus! {

broadcast use vstd::std_specs::vec::group_vec_axioms;

pub type Members = Seq<(Seq<char>, JsonModel)>;

pub open spec fn join_key(base: Option<Seq<char>>, key: Seq<char>) -> Seq<char> {
    match base {
        None => key,
        Some(b) => b + "."@ + key,
    }
}

/// The scalar values under a value found at path `p`, each with its path:
/// object members extend the path with their key, array items keep it.
pub open spec fn leaves_of(v: JsonModel, p: Seq<char>) -> Members
    decreases v,
{
    match v {
        JsonModel::Array(items) => items_leaves(items, p),
        JsonModel::Object(members) => members_leaves(members, Some(p)),
        _ => seq![(p, v)],
    }
}

pub open spec fn items_leaves(items: Seq<JsonModel>, p: Seq<char>) -> Members
    decreases items,
{
    if items.len() == 0 {
        Seq::empty()
    } else {
        items_leaves(items.drop_last(), p) + leaves_of(items.last(), p)
    }
}

pub open spec fn members_leaves(members: Members, base: Option<Seq<char>>) -> Members
    decreases members,
{
    if members.len() == 0 {
        Seq::empty()
    } else {
        members_leaves(members.drop_last(), base) + leaves_of(members.last().1, join_key(base, members.last().0))
    }
}

/// Position of the first member named `key`.
pub open spec fn find_key(out: Members, key: Seq<char>, from: int) -> Option<int>
    decreases out.len() - from,
{
    if from < 0 || from >= out.len() {
        None
    } else if out[from].0 == key {
        Some(from)
    } else {
        find_key(out, key, from + 1)
    }
}

/// Adds a value under a path: a new path gets it as is; a path that holds an
/// array gets it appended; a path that holds another value gets an array of
/// both.
pub open spec fn insert_leaf(out: Members, leaf: (Seq<char>, JsonModel)) -> Members {
    match find_key(out, leaf.0, 0) {
        None => out.push(leaf),
        Some(i) => out.update(
            i,
            (
                leaf.0,
                match out[i].1 {
                    JsonModel::Array(a) => JsonModel::Array(a.push(leaf.1)),
                    old_value => JsonModel::Array(seq![old_value, leaf.1]),
                },
            ),
        ),
    }
}

pub open spec fn insert_all(out: Members, leaves: Members) -> Members
    decreases leaves.len(),
{
    if leaves.len() == 0 {
        out
    } else {
        insert_leaf(insert_all(out, leaves.drop_last()), leaves.last())
    }
}

pub proof fn lemma_insert_all_concat(out: Members, a: Members, b: Members)
    ensures
        insert_all(out, a + b) == insert_all(insert_all(out, a), b),
    decreases b.len(),
{
    if b.len() == 0 {
        assert(a + b =~= a);
    } else {
        lemma_insert_all_concat(out, a, b.drop_last());
        assert((a + b).drop_last() =~= a + b.drop_last());
        assert((a + b).last() == b.last());
    }
}

/// Whether some member is an object, or an array that holds an object or
/// an array.
pub open spec fn can_be_flattened_spec(members: Members) -> bool {
    exists|i: int| 0 <= i < members.len() && nests(#[trigger] members[i].1)
}

pub open spec fn is_container(v: JsonModel) -> bool {
    v is Object || v is Array
}

/// The value is an object, or an array that holds an object or an array.
pub open spec fn nests(v: JsonModel) -> bool {
    ||| v is Object
    ||| (v is Array && exists|j: int| 0 <= j < v->Array_0.len() && #[trigger] is_container(v->Array_0[j]))
}

/// The flattened form of an object: unchanged when nothing in it nests,
/// else its scalar values gathered under their dotted paths.
pub open spec fn flattened(members: Members) -> Members {
    if can_be_flattened_spec(members) {
        insert_all(Seq::empty(), members_leaves(members, None))
    } else {
        members
    }
}

pub open spec fn members_model(members: Seq<(String, JsonValue)>) -> Members {
    Seq::new(
        members.len(),
        |i: int|
            if 0 <= i < members.len() {
                (members[i].0@, members[i].1.model())
            } else {
                (Seq::<char>::empty(), JsonModel::Null)
            },
    )
}

pub open spec fn items_model(items: Seq<JsonValue>) -> Seq<JsonModel> {
    Seq::new(
        items.len(),
        |i: int|
            if 0 <= i < items.len() {
                items[i].model()
            } else {
                JsonModel::Null
            },
    )
}

proof fn lemma_nests_array(items: Seq<JsonModel>, j: int)
    requires
        0 <= j < items.len(),
        is_container(items[j]),
    ensures
        nests(JsonModel::Array(items)),
{
    let v = JsonModel::Array(items);
    assert(v is Array);
    assert(v->Array_0 == items);
    assert(is_container(v->Array_0[j]));
}

proof fn lemma_models(v: JsonValue)
    ensures
        v matches JsonValue::Array(items) ==> v.model() == JsonModel::Array(items_model(items@)),
        v matches JsonValue::Object(ms) ==> v.model() == JsonModel::Object(members_model(ms@)),
{
    match v {
        JsonValue::Array(items) => {
            let s = v.model()->Array_0;
            assert(s =~= items_model(items@));
        },
        JsonValue::Object(ms) => {
            let s = v.model()->Object_0;
            assert(s =~= members_model(ms@));
        },
        _ => {},
    }
}

/// Whether flattening changes the object.
pub fn can_be_flattened(object: &Vec<(String, JsonValue)>) -> (r: bool)
    ensures
        r == can_be_flattened_spec(members_model(object@)),
{
    let ghost m = members_model(object@);
    let mut i: usize = 0;
    while i < object.len()
        invariant
            i <= object@.len(),
            m == members_model(object@),
            forall|k: int| 0 <= k < i ==> !nests(#[trigger] m[k].1),
        decreases object.len() - i,
    {
        proof {
            lemma_models(object@[i as int].1);
        }
        match &object[i].1 {
            JsonValue::Object(_) => {
                assert(m[i as int].1 is Object);
                assert(nests(m[i as int].1));
                return true;
            },
            JsonValue::Array(vs) => {
                let mut j: usize = 0;
                while j < vs.len()
                    invariant
                        j <= vs@.len(),
                        i < object@.len(),
                        m == members_model(object@),
                        m[i as int].1 == JsonModel::Array(items_model(vs@)),
                        forall|l: int|
                            0 <= l < j ==> !is_container(#[trigger] items_model(vs@)[l]),
                    decreases vs.len() - j,
                {
                    proof {
                        lemma_models(vs@[j as int]);
                    }
                    match &vs[j] {
                        JsonValue::Object(_) => {
                            assert(items_model(vs@)[j as int] is Object);
                            assert(can_be_flattened_spec(m)) by {
                                let items = items_model(vs@);
                                assert(0 <= j < items.len() && is_container(items[j as int]));
                                assert(m[i as int].1 == JsonModel::Array(items));
                                lemma_nests_array(items, j as int);
                                assert(nests(m[i as int].1));
                            }
                            return true;
                        },
                        JsonValue::Array(_) => {
                            assert(items_model(vs@)[j as int] is Array);
                            assert(can_be_flattened_spec(m)) by {
                                let items = items_model(vs@);
                                assert(0 <= j < items.len() && is_container(items[j as int]));
                                assert(m[i as int].1 == JsonModel::Array(items));
                                lemma_nests_array(items, j as int);
                                assert(nests(m[i as int].1));
                            }
                            return true;
                        },
                        _ => {},
                    }
                    j = j + 1;
                }
            },
            _ => {},
        }
        i = i + 1;
    }
    false
}

pub open spec fn base_view(base: Option<&String>) -> Option<Seq<char>> {
    match base {
        Some(b) => Some(b@),
        None => None,
    }
}

proof fn lemma_items_model_push(s: Seq<JsonValue>, x: JsonValue)
    ensures
        items_model(s.push(x)) == items_model(s).push(x.model()),
{
    assert(items_model(s.push(x)) =~= items_model(s).push(x.model()));
}

proof fn lemma_members_model_push(s: Seq<(String, JsonValue)>, x: (String, JsonValue))
    ensures
        members_model(s.push(x)) == members_model(s).push((x.0@, x.1.model())),
{
    assert(members_model(s.push(x)) =~= members_model(s).push((x.0@, x.1.model())));
}

proof fn lemma_members_model_update(s: Seq<(String, JsonValue)>, i: int, x: (String, JsonValue))
    requires
        0 <= i < s.len(),
    ensures
        members_model(s.update(i, x)) == members_model(s).update(i, (x.0@, x.1.model())),
{
    assert(members_model(s.update(i, x)) =~= members_model(s).update(i, (x.0@, x.1.model())));
}

proof fn lemma_prefix_step<A>(s: Seq<A>, i: int)
    requires
        0 <= i < s.len(),
    ensures
        s.subrange(0, i + 1) == s.subrange(0, i).push(s[i]),
{
    assert(s.subrange(0, i + 1) =~= s.subrange(0, i).push(s[i]));
}

proof fn lemma_find_key(out: Members, key: Seq<char>, from: int)
    requires
        0 <= from,
    ensures
        find_key(out, key, from) matches Some(i) ==> from <= i < out.len() && out[i].0 == key,
    decreases out.len() - from,
{
    if from < out.len() && out[from].0 != key {
        lemma_find_key(out, key, from + 1);
    }
}

/// A copy of a JSON value.
pub fn copy_json(v: &JsonValue) -> (r: JsonValue)
    ensures
        r.model() == v.model(),
    decreases v.model(),
{
    proof {
        lemma_models(*v);
    }
    let r = match v {
        JsonValue::Null => JsonValue::Null,
        JsonValue::Bool(b) => JsonValue::Bool(*b),
        JsonValue::Number(n) => JsonValue::Number(n.clone()),
        JsonValue::Str(s) => JsonValue::Str(s.clone()),
        JsonValue::Array(items) => {
            let mut out: Vec<JsonValue> = Vec::new();
            let mut i: usize = 0;
            while i < items.len()
                invariant
                    i <= items@.len(),
                    *v == JsonValue::Array(*items),
                    items_model(out@) =~= items_model(items@).subrange(0, i as int),
                decreases items.len() - i,
            {
                proof {
                    lemma_models(*v);
                    let s = items_model(items@);
                    assert(s[i as int] == items@[i as int].model());
                    let x = v.model();
                    assert(decreases_to!(x => x->Array_0));
                    assert(decreases_to!(x->Array_0 => x->Array_0[i as int]));
                }
                let c = copy_json(&items[i]);
                let ghost before = out@;
                out.push(c);
                proof {
                    lemma_items_model_push(before, c);
                    lemma_prefix_step(items_model(items@), i as int);
                }
                i = i + 1;
            }
            JsonValue::Array(out)
        },
        JsonValue::Object(ms) => {
            let mut out: Vec<(String, JsonValue)> = Vec::new();
            let mut i: usize = 0;
            while i < ms.len()
                invariant
                    i <= ms@.len(),
                    *v == JsonValue::Object(*ms),
                    members_model(out@) =~= members_model(ms@).subrange(0, i as int),
                decreases ms.len() - i,
            {
                proof {
                    lemma_models(*v);
                    let s = members_model(ms@);
                    assert(s[i as int].1 == ms@[i as int].1.model());
                    let x = v.model();
                    assert(decreases_to!(x => x->Object_0));
                    assert(decreases_to!(x->Object_0 => x->Object_0[i as int]));
                    assert(decreases_to!(x->Object_0[i as int] => x->Object_0[i as int].1));
                }
                let c = copy_json(&ms[i].1);
                let k = ms[i].0.clone();
                let ghost before = out@;
                out.push((k, c));
                proof {
                    lemma_members_model_push(before, (k, c));
                    lemma_prefix_step(members_model(ms@), i as int);
                }
                i = i + 1;
            }
            JsonValue::Object(out)
        },
    };
    proof {
        lemma_models(r);
        match v {
            JsonValue::Array(items) => {
                assert(items_model(items@).subrange(0, items@.len() as int) =~= items_model(items@));
            },
            JsonValue::Object(ms) => {
                assert(members_model(ms@).subrange(0, ms@.len() as int) =~= members_model(ms@));
            },
            _ => {},
        }
    }
    r
}

fn join_key_exec(base: Option<&String>, key: &String) -> (r: String)
    ensures
        r@ == join_key(base_view(base), key@),
{
    match base {
        None => key.clone(),
        Some(b) => b.clone().concat(".").concat(key.as_str()),
    }
}

fn find_member(out: &Vec<(String, JsonValue)>, key: &String) -> (r: Option<usize>)
    ensures
        r is None <==> find_key(members_model(out@), key@, 0) is None,
        r matches Some(i) ==> find_key(members_model(out@), key@, 0) == Some(i as int),
{
    let ghost m = members_model(out@);
    let mut j: usize = 0;
    while j < out.len()
        invariant
            j <= out@.len(),
            m == members_model(out@),
            find_key(m, key@, 0) == find_key(m, key@, j as int),
        decreases out.len() - j,
    {
        if out[j].0 == *key {
            return Some(j);
        }
        j = j + 1;
    }
    None
}

fn insert_value(out: &mut Vec<(String, JsonValue)>, key: String, to_insert: JsonValue)
    ensures
        members_model(final(out)@) == insert_leaf(members_model(old(out)@), (key@, to_insert.model())),
{
    let ghost m = members_model(out@);
    let ghost leaf = (key@, to_insert.model());
    match find_member(out, &key) {
        None => {
            out.push((key, to_insert));
            assert(members_model(out@) =~= m.push(leaf));
        },
        Some(i) => {
            let ghost before = out@;
            proof {
                lemma_find_key(m, key@, 0);
                assert(find_key(m, key@, 0) == Some(i as int));
                assert(m[i as int].0 == key@);
                assert(m[i as int].0 == before[i as int].0@);
            }
            let (k, old_value) = out.remove(i);
            proof {
                lemma_models(old_value);
            }
            let new_value = match old_value {
                JsonValue::Array(a) => {
                    let mut a = a;
                    let ghost a0 = a@;
                    a.push(to_insert);
                    proof {
                        lemma_items_model_push(a0, to_insert);
                    }
                    JsonValue::Array(a)
                },
                other => {
                    let mut a: Vec<JsonValue> = Vec::new();
                    let ghost a0 = a@;
                    a.push(other);
                    let ghost a1 = a@;
                    a.push(to_insert);
                    proof {
                        lemma_items_model_push(a0, other);
                        lemma_items_model_push(a1, to_insert);
                        assert(items_model(a0) =~= Seq::<JsonModel>::empty());
                        assert(items_model(a@) =~= seq![m[i as int].1, leaf.1]);
                    }
                    JsonValue::Array(a)
                },
            };
            proof {
                lemma_models(new_value);
            }
            out.insert(i, (k, new_value));
            assert(out@ =~= before.update(i as int, (k, new_value)));
            proof {
                lemma_members_model_update(before, i as int, (k, new_value));
                assert(m[i as int].1 == old_value.model());
                assert(k@ == key@);
                assert(new_value.model() == match m[i as int].1 {
                    JsonModel::Array(a) => JsonModel::Array(a.push(leaf.1)),
                    old_model => JsonModel::Array(seq![old_model, leaf.1]),
                });
            }
        },
    }
}

proof fn lemma_members_leaves_step(members: Members, base: Option<Seq<char>>, i: int)
    requires
        0 <= i < members.len(),
    ensures
        members_leaves(members.subrange(0, i + 1), base) == members_leaves(members.subrange(0, i), base) + leaves_of(
            members[i].1,
            join_key(base, members[i].0),
        ),
{
    assert(members.subrange(0, i + 1).drop_last() =~= members.subrange(0, i));
}

proof fn lemma_items_leaves_step(items: Seq<JsonModel>, p: Seq<char>, i: int)
    requires
        0 <= i < items.len(),
    ensures
        items_leaves(items.subrange(0, i + 1), p) == items_leaves(items.subrange(0, i), p) + leaves_of(items[i], p),
{
    assert(items.subrange(0, i + 1).drop_last() =~= items.subrange(0, i));
}

proof fn lemma_insert_one(out: Members, leaf: (Seq<char>, JsonModel))
    ensures
        insert_all(out, seq![leaf]) == insert_leaf(out, leaf),
{
    assert(seq![leaf].drop_last() =~= Seq::<(Seq<char>, JsonModel)>::empty());
    assert(insert_all(out, Seq::<(Seq<char>, JsonModel)>::empty()) == out);
}

fn insert_object(out: &mut Vec<(String, JsonValue)>, base: Option<&String>, object: &Vec<(String, JsonValue)>)
    ensures
        members_model(final(out)@) == insert_all(
            members_model(old(out)@),
            members_leaves(members_model(object@), base_view(base)),
        ),
    decreases object,
{
    let ghost m0 = members_model(out@);
    let ghost om = members_model(object@);
    let ghost b = base_view(base);
    let mut i: usize = 0;
    assert(om.subrange(0, 0) =~= Seq::<(Seq<char>, JsonModel)>::empty());
    while i < object.len()
        invariant
            i <= object@.len(),
            om == members_model(object@),
            b == base_view(base),
            members_model(out@) == insert_all(m0, members_leaves(om.subrange(0, i as int), b)),
        decreases object.len() - i,
    {
        let ghost prev = members_model(out@);
        let new_key = join_key_exec(base, &object[i].0);
        proof {
            lemma_members_leaves_step(om, b, i as int);
            lemma_insert_all_concat(m0, members_leaves(om.subrange(0, i as int), b), leaves_of(om[i as int].1, new_key@));
            lemma_models(object@[i as int].1);
        }
        match &object[i].1 {
            JsonValue::Array(items) => {
                assert(decreases_to!(object => items));
                insert_array(out, &new_key, items);
            },
            JsonValue::Object(ms) => {
                assert(decreases_to!(object => ms));
                insert_object(out, Some(&new_key), ms);
            },
            value => {
                let c = copy_json(value);
                insert_value(out, new_key, c);
                proof {
                    lemma_insert_one(prev, (new_key@, c.model()));
                }
            },
        }
        i = i + 1;
    }
    assert(om.subrange(0, om.len() as int) =~= om);
}

fn insert_array(out: &mut Vec<(String, JsonValue)>, base_key: &String, array: &Vec<JsonValue>)
    ensures
        members_model(final(out)@) == insert_all(
            members_model(old(out)@),
            items_leaves(items_model(array@), base_key@),
        ),
    decreases array,
{
    let ghost m0 = members_model(out@);
    let ghost im = items_model(array@);
    let mut i: usize = 0;
    assert(im.subrange(0, 0) =~= Seq::<JsonModel>::empty());
    while i < array.len()
        invariant
            i <= array@.len(),
            im == items_model(array@),
            members_model(out@) == insert_all(m0, items_leaves(im.subrange(0, i as int), base_key@)),
        decreases array.len() - i,
    {
        let ghost prev = members_model(out@);
        proof {
            lemma_items_leaves_step(im, base_key@, i as int);
            lemma_insert_all_concat(m0, items_leaves(im.subrange(0, i as int), base_key@), leaves_of(im[i as int], base_key@));
            lemma_models(array@[i as int]);
        }
        match &array[i] {
            JsonValue::Object(ms) => {
                assert(decreases_to!(array => ms));
                insert_object(out, Some(base_key), ms);
            },
            JsonValue::Array(sub) => {
                assert(decreases_to!(array => sub));
                insert_array(out, base_key, sub);
            },
            value => {
                let c = copy_json(value);
                insert_value(out, base_key.clone(), c);
                proof {
                    lemma_insert_one(prev, (base_key@, c.model()));
                }
            },
        }
        i = i + 1;
    }
    assert(im.subrange(0, im.len() as int) =~= im);
}

/// Flattens an object: the keys of nested objects are joined to their
/// parents' with dots, arrays are opened, and the values met more than once
/// under one path are gathered in an array. An object in which nothing
/// nests is returned as it is.
pub fn flatten(json: &Vec<(String, JsonValue)>) -> (r: Vec<(String, JsonValue)>)
    ensures
        members_model(r@) == flattened(members_model(json@)),
{
    if can_be_flattened(json) {
        let mut obj: Vec<(String, JsonValue)> = Vec::new();
        assert(members_model(obj@) =~= Seq::<(Seq<char>, JsonModel)>::empty());
        insert_object(&mut obj, None, json);
        obj
    } else {
        let mut obj: Vec<(String, JsonValue)> = Vec::new();
        let mut i: usize = 0;
        while i < json.len()
            invariant
                i <= json@.len(),
                members_model(obj@) =~= members_model(json@).subrange(0, i as int),
            decreases json.len() - i,
        {
            let c = copy_json(&json[i].1);
            let k = json[i].0.clone();
            let ghost before = obj@;
            obj.push((k, c));
            proof {
                lemma_members_model_push(before, (k, c));
                lemma_prefix_step(members_model(json@), i as int);
            }
            i = i + 1;
        }
        assert(members_model(obj@) =~= members_model(json@));
        obj
    }
}

} // verus!
