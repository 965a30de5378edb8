use json_structural_diff::{JsonDiff, Value};

fn n(x: i64) -> Value {
    Value::Number(x.to_string())
}

fn s(x: &str) -> Value {
    Value::String(x.to_string())
}

fn arr(items: Vec<Value>) -> Value {
    Value::Array(items)
}

fn obj(members: Vec<(&str, Value)>) -> Value {
    Value::Object(members.into_iter().map(|(k, v)| (k.to_string(), v)).collect())
}

fn change(a: Value, b: Value) -> Value {
    obj(vec![("__old", a), ("__new", b)])
}

fn entry(tag: &str, v: Value) -> Value {
    arr(vec![s(tag), v])
}

fn same() -> Value {
    arr(vec![s(" ")])
}

fn foo(x: i64) -> Value {
    obj(vec![("foo", n(x))])
}

fn d(a: &Value, b: &Value, keys_only: bool) -> Option<Value> {
    JsonDiff::diff(a, b, keys_only).diff
}

#[test]
fn test_scalar() {
    assert_eq!(d(&n(42), &n(42), false), None);
    assert_eq!(d(&s("foo"), &s("foo"), false), None);
    assert_eq!(d(&n(42), &n(10), false), Some(change(n(42), n(10))));
}

#[test]
fn test_objects() {
    assert_eq!(d(&obj(vec![]), &obj(vec![]), false), None);
    assert_eq!(
        d(&obj(vec![("foo", n(42)), ("bar", n(10))]), &obj(vec![("foo", n(42)), ("bar", n(10))]), false),
        None
    );
    let nested = || obj(vec![("foo", n(42)), ("bar", obj(vec![("bbbar", n(10)), ("bbboz", n(11))]))]);
    assert_eq!(d(&nested(), &nested(), false), None);
    assert_eq!(
        d(&obj(vec![("foo", n(42)), ("bar", n(10))]), &obj(vec![("bar", n(10))]), false),
        Some(obj(vec![("foo__deleted", n(42))]))
    );
    assert_eq!(
        d(&obj(vec![("bar", n(10))]), &obj(vec![("foo", n(42)), ("bar", n(10))]), false),
        Some(obj(vec![("foo__added", n(42))]))
    );
    assert_eq!(
        d(&foo(42), &foo(10), false),
        Some(obj(vec![("foo", change(n(42), n(10)))]))
    );
    assert_eq!(
        d(&nested(), &obj(vec![("foo", n(42)), ("bar", obj(vec![("bbbar", n(12))]))]), false),
        Some(obj(vec![(
            "bar",
            obj(vec![("bbboz__deleted", n(11)), ("bbbar", change(n(10), n(12)))])
        )]))
    );
}

#[test]
fn test_array_of_scalars() {
    let a = |v: Vec<i64>| arr(v.into_iter().map(n).collect());
    assert_eq!(d(&a(vec![10, 20, 30]), &a(vec![10, 20, 30]), false), None);
    assert_eq!(
        d(&a(vec![10, 20, 30]), &a(vec![10, 30]), false),
        Some(arr(vec![entry(" ", n(10)), entry("-", n(20)), entry(" ", n(30))]))
    );
    assert_eq!(
        d(&a(vec![10, 30]), &a(vec![10, 20, 30]), false),
        Some(arr(vec![entry(" ", n(10)), entry("+", n(20)), entry(" ", n(30))]))
    );
    assert_eq!(
        d(&a(vec![10, 20]), &a(vec![10, 20, 30]), false),
        Some(arr(vec![entry(" ", n(10)), entry(" ", n(20)), entry("+", n(30))]))
    );
}

fn rich(x: i64, bbbar: i64, bbboz: i64) -> Value {
    obj(vec![("foo", n(x)), ("bar", obj(vec![("bbbar", n(bbbar)), ("bbboz", n(bbboz))]))])
}

fn named(with_c: bool) -> Value {
    let mut m = vec![("name", s("Foo")), ("a", n(3)), ("b", n(1))];
    if with_c {
        m.push(("c", n(1)));
    }
    obj(m)
}

#[test]
fn test_array_of_objects() {
    let three = || arr(vec![foo(10), foo(20), foo(30)]);
    assert_eq!(d(&three(), &three(), false), None);
    assert_eq!(d(&arr(vec![obj(vec![])]), &arr(vec![obj(vec![])]), false), None);
    assert_eq!(d(&arr(vec![arr(vec![])]), &arr(vec![arr(vec![])]), false), None);
    let mixed = || arr(vec![n(1), Value::Null, Value::Null]);
    assert_eq!(d(&mixed(), &mixed(), false), None);
    let ab = || obj(vec![("a", n(1)), ("b", n(2))]);
    assert_eq!(d(&arr(vec![ab(), ab()]), &arr(vec![ab(), ab()]), false), None);
    assert_eq!(
        d(&three(), &arr(vec![foo(10), foo(30)]), false),
        Some(arr(vec![same(), entry("-", foo(20)), same()]))
    );
    assert_eq!(
        d(&arr(vec![foo(10), foo(30)]), &three(), false),
        Some(arr(vec![same(), entry("+", foo(20)), same()]))
    );
    assert_eq!(
        d(&arr(vec![named(false), foo(10)]), &arr(vec![named(false), named(true), foo(10)]), false),
        Some(arr(vec![same(), entry("+", named(true)), same()]))
    );
    assert_eq!(
        d(
            &arr(vec![rich(10, 10, 11), rich(20, 50, 25), rich(30, 92, 34)]),
            &arr(vec![rich(10, 10, 11), rich(21, 50, 25), rich(30, 92, 34)]),
            false
        ),
        Some(arr(vec![same(), entry("~", obj(vec![("foo", change(n(20), n(21)))])), same()]))
    );
}

#[test]
fn test_scalar_keys() {
    assert_eq!(d(&n(42), &n(42), true), None);
    assert_eq!(d(&s("foo"), &s("foo"), true), None);
    assert_eq!(d(&n(42), &n(10), true), None);
}

#[test]
fn test_objects_keys() {
    assert_eq!(d(&obj(vec![]), &obj(vec![]), true), None);
    assert_eq!(
        d(&obj(vec![("foo", n(42)), ("bar", n(10))]), &obj(vec![("foo", n(42)), ("bar", n(10))]), true),
        None
    );
    let nested = || obj(vec![("foo", n(42)), ("bar", obj(vec![("bbbar", n(10)), ("bbboz", n(11))]))]);
    assert_eq!(d(&nested(), &nested(), true), None);
    assert_eq!(
        d(&obj(vec![("foo", n(42)), ("bar", n(10))]), &obj(vec![("bar", n(10))]), true),
        Some(obj(vec![("foo__deleted", n(42))]))
    );
    assert_eq!(
        d(&obj(vec![("bar", n(10))]), &obj(vec![("foo", n(42)), ("bar", n(10))]), true),
        Some(obj(vec![("foo__added", n(42))]))
    );
    assert_eq!(d(&foo(42), &foo(10), true), None);
    assert_eq!(
        d(
            &obj(vec![("foo", n(42)), ("bar", obj(vec![("bbbar", n(10))]))]),
            &obj(vec![("foo", n(42)), ("bar", obj(vec![("bbbar", n(12))]))]),
            true
        ),
        None
    );
    assert_eq!(
        d(&nested(), &obj(vec![("foo", n(42)), ("bar", obj(vec![("bbbar", n(12))]))]), true),
        Some(obj(vec![("bar", obj(vec![("bbboz__deleted", n(11))]))]))
    );
}

#[test]
fn test_array_of_scalars_keys() {
    let a = |v: Vec<i64>| arr(v.into_iter().map(n).collect());
    assert_eq!(d(&a(vec![10, 20, 30]), &a(vec![10, 20, 30]), true), None);
    assert_eq!(d(&a(vec![10, 20, 30]), &a(vec![10, 42, 30]), true), None);
    assert_eq!(
        d(&a(vec![10, 20, 30]), &a(vec![10, 30]), true),
        Some(arr(vec![entry(" ", n(10)), entry("-", n(20)), entry(" ", n(30))]))
    );
    assert_eq!(
        d(&a(vec![10, 30]), &a(vec![10, 20, 30]), true),
        Some(arr(vec![entry(" ", n(10)), entry("+", n(20)), entry(" ", n(30))]))
    );
    assert_eq!(
        d(&a(vec![10, 20]), &a(vec![10, 20, 30]), true),
        Some(arr(vec![entry(" ", n(10)), entry(" ", n(20)), entry("+", n(30))]))
    );
}

#[test]
fn test_array_of_objects_keys() {
    // An object literal that repeats a key keeps the last value.
    assert_eq!(d(&arr(vec![foo(30)]), &arr(vec![foo(30)]), true), None);
    assert_eq!(d(&arr(vec![obj(vec![])]), &arr(vec![obj(vec![])]), true), None);
    assert_eq!(d(&arr(vec![arr(vec![])]), &arr(vec![arr(vec![])]), true), None);
    let ab = || obj(vec![("a", n(1)), ("b", n(2))]);
    assert_eq!(d(&arr(vec![ab(), ab()]), &arr(vec![ab(), ab()]), true), None);
    let three = || arr(vec![foo(10), foo(20), foo(30)]);
    assert_eq!(
        d(&three(), &arr(vec![foo(10), foo(30)]), true),
        Some(arr(vec![same(), entry("-", foo(20)), same()]))
    );
    assert_eq!(
        d(&arr(vec![foo(10), foo(30)]), &three(), true),
        Some(arr(vec![same(), entry("+", foo(20)), same()]))
    );
    assert_eq!(
        d(
            &arr(vec![rich(10, 10, 11), rich(20, 50, 25), rich(30, 92, 34)]),
            &arr(vec![rich(10, 10, 11), rich(21, 50, 25), rich(30, 92, 34)]),
            true
        ),
        None
    );
}

#[test]
fn reflexive_on_nested_values() {
    let v = obj(vec![
        ("a", arr(vec![foo(1), foo(1), n(2), arr(vec![n(3)])])),
        ("b", Value::Null),
        ("c", obj(vec![])),
    ]);
    let r = JsonDiff::diff(&v, &v, false);
    assert_eq!(r.diff, None);
    assert_eq!(r.score, 300_000);
    assert_eq!(JsonDiff::diff(&obj(vec![]), &obj(vec![]), false).score, 50_000);
    assert_eq!(JsonDiff::diff(&n(7), &n(7), false).score, 100_000);
    assert_eq!(JsonDiff::diff(&arr(vec![]), &arr(vec![]), false).score, 100_000);
}

#[test]
fn detection_is_symmetric() {
    let pairs = vec![
        (foo(1), foo(2)),
        (arr(vec![n(1), n(2)]), arr(vec![n(2), n(1)])),
        (obj(vec![("a", n(1))]), obj(vec![("b", n(1))])),
        (n(1), s("1")),
    ];
    for (a, b) in pairs.iter() {
        for k in [false, true] {
            assert_eq!(d(a, b, k).is_none(), d(b, a, k).is_none());
        }
    }
}

#[test]
fn keys_only_ignores_leaf_changes() {
    assert_eq!(d(&n(1), &s("x"), true), None);
    assert_eq!(d(&Value::Bool(true), &Value::Null, true), None);
    assert_eq!(d(&n(1), &s("x"), false), Some(change(n(1), s("x"))));
}

#[test]
fn mixed_kinds_are_a_change() {
    assert_eq!(d(&foo(1), &n(1), false), Some(change(foo(1), n(1))));
    assert_eq!(d(&arr(vec![]), &obj(vec![]), false), Some(change(arr(vec![]), obj(vec![]))));
    assert_eq!(JsonDiff::diff(&foo(1), &n(1), false).score, 0);
}

#[test]
fn object_scores() {
    // One member removed: -30 points, clamped at 0.
    assert_eq!(JsonDiff::diff(&foo(1), &obj(vec![]), false).score, 0);
    // Shared member with a changed leaf: 20 + clamp(0 / 5) = 20 points.
    assert_eq!(JsonDiff::diff(&foo(1), &foo(2), false).score, 20_000);
    // Shared member that is equal but beside a change: 20 + 20 points each.
    let a = obj(vec![("x", n(1)), ("y", n(1))]);
    let b = obj(vec![("x", n(1)), ("y", n(2))]);
    assert_eq!(JsonDiff::diff(&a, &b, false).score, 60_000);
}

#[test]
fn array_scores() {
    let a = arr(vec![n(10), n(20), n(30)]);
    let b = arr(vec![n(10), n(30)]);
    // Two equal elements (+10 each), one removed (-5).
    assert_eq!(JsonDiff::diff(&a, &b, false).score, 15_000);
}

#[test]
fn replace_with_keys_only_pairs_elements() {
    let a = arr(vec![foo(1), n(5)]);
    let b = arr(vec![obj(vec![("bar", n(1))]), n(6)]);
    assert_eq!(
        d(&a, &b, true),
        Some(arr(vec![
            entry("~", obj(vec![("foo__deleted", n(1)), ("bar__added", n(1))])),
            arr(vec![s(" ")]),
        ]))
    );
    assert_eq!(
        d(&a, &b, false),
        Some(arr(vec![
            entry("-", foo(1)),
            entry("-", n(5)),
            entry("+", obj(vec![("bar", n(1))])),
            entry("+", n(6)),
        ]))
    );
}

#[test]
fn tie_prefers_nearest_position() {
    // Both candidates match equally well; each element keeps its own place.
    let a = arr(vec![foo(1), foo(1)]);
    let b = arr(vec![foo(1), foo(1)]);
    assert_eq!(d(&a, &b, false), None);
    let a = arr(vec![n(5), foo(1), foo(1)]);
    assert_eq!(d(&a, &a, false), None);
}

fn op(tag: &str, fs: usize, fe: usize, ss: usize, se: usize) -> json_structural_diff::align::Opcode {
    json_structural_diff::align::Opcode {
        tag: tag.to_string(),
        first_start: fs,
        first_end: fe,
        second_start: ss,
        second_end: se,
    }
}

#[test]
fn edit_script_becomes_entries() {
    let a = arr(vec![n(10), n(20), n(30)]);
    let b = arr(vec![n(10), n(30)]);
    let ops = vec![op("equal", 0, 1, 0, 1), op("delete", 1, 2, 1, 1), op("equal", 2, 3, 1, 2)];
    let (score, entries, all_equal) = json_structural_diff::diff::apply_opcodes(&a, &b, false, &ops);
    assert_eq!(score, 15_000);
    assert_eq!(entries, vec![entry(" ", n(10)), entry("-", n(20)), entry(" ", n(30))]);
    assert!(!all_equal);
    let ops = vec![op("replace", 0, 1, 0, 1)];
    let (score, entries, all_equal) =
        json_structural_diff::diff::apply_opcodes(&arr(vec![n(1)]), &arr(vec![n(2)]), true, &ops);
    assert_eq!((score, all_equal), (0, true));
    assert_eq!(entries, vec![arr(vec![s(" ")])]);
}

#[test]
fn keys_only_hides_nested_leaf_changes() {
    let a = obj(vec![("a", arr(vec![foo(1), n(2)])), ("b", obj(vec![("c", s("x"))]))]);
    let b = obj(vec![("a", arr(vec![foo(5), n(3)])), ("b", obj(vec![("c", s("y"))]))]);
    assert_eq!(d(&a, &b, true), None);
    let c = obj(vec![("a", arr(vec![obj(vec![("bar", n(1))]), n(2)])), ("b", obj(vec![("c", s("y"))]))]);
    assert_eq!(
        d(&a, &c, true),
        Some(obj(vec![(
            "a",
            arr(vec![entry("~", obj(vec![("foo__deleted", n(1)), ("bar__added", n(1))])), entry(" ", n(2))])
        )]))
    );
}

#[test]
fn no_array_difference_means_equal_lengths() {
    let a = arr(vec![n(1), foo(2)]);
    assert_eq!(d(&a, &arr(vec![n(1), foo(2)]), false), None);
    assert!(d(&a, &arr(vec![n(1), foo(2), foo(2)]), false).is_some());
}
