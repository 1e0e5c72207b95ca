use milli_core::flatten::{can_be_flattened, flatten};
use milli_core::json::JsonValue;

fn s(v: &str) -> JsonValue {
    JsonValue::Str(v.to_string())
}

fn n(v: &str) -> JsonValue {
    JsonValue::Number(v.to_string())
}

fn arr(items: Vec<JsonValue>) -> JsonValue {
    JsonValue::Array(items)
}

fn members(items: Vec<(&str, JsonValue)>) -> Vec<(String, JsonValue)> {
    items.into_iter().map(|(k, v)| (k.to_string(), v)).collect()
}

fn obj(items: Vec<(&str, JsonValue)>) -> JsonValue {
    JsonValue::Object(members(items))
}

/// Objects compare by their members, whatever their order.
fn sorted(mut m: Vec<(String, JsonValue)>) -> Vec<(String, JsonValue)> {
    m.sort_by(|a, b| a.0.cmp(&b.0));
    m
}

#[test]
fn no_flattening() {
    let json = members(vec![
        ("genres", arr(vec![s("Action"), s("Comedy"), s("Fantasy")])),
        ("id", s("287947")),
        ("release_date", n("1553299200")),
        ("title", s("Shazam!")),
    ]);
    assert!(!can_be_flattened(&json));
    assert_eq!(flatten(&json), json);
}

#[test]
fn flatten_object() {
    let json = members(vec![("a", obj(vec![("b", s("c")), ("d", s("e")), ("f", s("g"))]))]);
    assert!(can_be_flattened(&json));
    assert_eq!(
        sorted(flatten(&json)),
        sorted(members(vec![("a.b", s("c")), ("a.d", s("e")), ("a.f", s("g"))]))
    );
}

#[test]
fn flatten_array() {
    let json = members(vec![(
        "a",
        arr(vec![obj(vec![("b", s("c"))]), obj(vec![("b", s("d"))]), obj(vec![("b", s("e"))])]),
    )]);
    assert_eq!(sorted(flatten(&json)), sorted(members(vec![("a.b", arr(vec![s("c"), s("d"), s("e")]))])));

    // here we must keep 42 in "a"
    let json = members(vec![(
        "a",
        arr(vec![n("42"), obj(vec![("b", s("c"))]), obj(vec![("b", s("d"))]), obj(vec![("b", s("e"))])]),
    )]);
    assert_eq!(
        sorted(flatten(&json)),
        sorted(members(vec![("a", n("42")), ("a.b", arr(vec![s("c"), s("d"), s("e")]))]))
    );
}

#[test]
fn collision_with_object() {
    let json = members(vec![("a", obj(vec![("b", s("c"))])), ("a.b", s("d"))]);
    assert_eq!(sorted(flatten(&json)), sorted(members(vec![("a.b", arr(vec![s("c"), s("d")]))])));
}

#[test]
fn collision_with_array() {
    let json = members(vec![
        (
            "a",
            arr(vec![
                obj(vec![("b", s("c"))]),
                obj(vec![("b", s("d")), ("c", s("e"))]),
                arr(vec![n("35")]),
            ]),
        ),
        ("a.b", s("f")),
    ]);
    assert_eq!(
        sorted(flatten(&json)),
        sorted(members(vec![("a.b", arr(vec![s("c"), s("d"), s("f")])), ("a.c", s("e")), ("a", n("35"))]))
    );
}

#[test]
fn flatten_simple_nested_arrays() {
    let json = members(vec![("a", arr(vec![arr(vec![s("b"), s("c")]), arr(vec![s("f"), s("g")])]))]);
    assert_eq!(sorted(flatten(&json)), sorted(members(vec![("a", arr(vec![s("b"), s("c"), s("f"), s("g")]))])));
}

#[test]
fn flatten_nested_arrays() {
    let json = members(vec![(
        "a",
        arr(vec![
            arr(vec![s("b"), s("c")]),
            obj(vec![("d", s("e"))]),
            arr(vec![s("f"), s("g")]),
            arr(vec![obj(vec![("h", s("i"))]), obj(vec![("d", s("j"))])]),
            arr(vec![s("k"), s("l")]),
        ]),
    )]);
    assert_eq!(
        sorted(flatten(&json)),
        sorted(members(vec![
            ("a", arr(vec![s("b"), s("c"), s("f"), s("g"), s("k"), s("l")])),
            ("a.d", arr(vec![s("e"), s("j")])),
            ("a.h", s("i")),
        ]))
    );
}

#[test]
fn flatten_nested_arrays_and_objects() {
    let json = members(vec![(
        "a",
        arr(vec![
            s("b"),
            arr(vec![s("c"), s("d")]),
            obj(vec![("e", arr(vec![s("f"), s("g")]))]),
            arr(vec![obj(vec![("h", s("i"))]), obj(vec![("e", arr(vec![s("j"), obj(vec![("z", s("y"))])]))])]),
            arr(vec![s("l")]),
            s("m"),
        ]),
    )]);
    assert_eq!(
        sorted(flatten(&json)),
        sorted(members(vec![
            ("a", arr(vec![s("b"), s("c"), s("d"), s("l"), s("m")])),
            ("a.e", arr(vec![s("f"), s("g"), s("j")])),
            ("a.h", s("i")),
            ("a.e.z", s("y")),
        ]))
    );
}

#[test]
fn flatten_drops_empty_arrays_when_something_nests() {
    let json = members(vec![("a", obj(vec![("b", arr(vec![]))])), ("c", arr(vec![]))]);
    assert!(can_be_flattened(&json));
    assert_eq!(flatten(&json), vec![]);
    let json = members(vec![("c", arr(vec![]))]);
    assert_eq!(flatten(&json), json);
}
