use json_structural_diff::{colorize, colorize_to_array, JsonDiff, Value};

fn n(x: i64) -> Value {
    Value::Number(x.to_string())
}

fn s(x: &str) -> Value {
    Value::String(x.to_string())
}

fn arr(items: Vec<Value>) -> Value {
    Value::Array(items)
}

fn obj(members: Vec<(&str, Value)>) -> Value {
    Value::Object(members.into_iter().map(|(k, v)| (k.to_string(), v)).collect())
}

fn change(a: Value, b: Value) -> Value {
    obj(vec![("__old", a), ("__new", b)])
}

fn entry(tag: &str, v: Value) -> Value {
    arr(vec![s(tag), v])
}

fn lines(v: &Value) -> Vec<String> {
    colorize_to_array(v)
}

#[test]
fn test_colorize_to_array() {
    assert_eq!(lines(&n(42)), &[" 42"]);
    assert_eq!(lines(&Value::Null), &[" null"]);
    assert_eq!(lines(&Value::Bool(false)), &[" false"]);
    assert_eq!(lines(&change(n(42), n(10))), &["-42", "+10"]);
    assert_eq!(lines(&change(Value::Bool(false), Value::Null)), &["-false", "+null"]);
    assert_eq!(lines(&obj(vec![("foo__deleted", n(42))])), &[" {", "-  foo: 42", " }"]);
    assert_eq!(lines(&obj(vec![("foo__added", n(42))])), &[" {", "+  foo: 42", " }"]);
    assert_eq!(lines(&obj(vec![("foo__added", Value::Null)])), &[" {", "+  foo: null", " }"]);
    assert_eq!(lines(&obj(vec![("foo__added", Value::Bool(false))])), &[" {", "+  foo: false", " }"]);
    assert_eq!(
        lines(&obj(vec![("foo__added", obj(vec![("bar", n(42))]))])),
        &[" {", "+  foo: {", "+    bar: 42", "+  }", " }"]
    );
    assert_eq!(
        lines(&obj(vec![("foo", change(n(42), n(10)))])),
        &[" {", "-  foo: 42", "+  foo: 10", " }"]
    );
    assert_eq!(
        lines(&arr(vec![entry(" ", n(10)), entry("+", n(20)), entry(" ", n(30))])),
        &[" [", "   10", "+  20", "   30", " ]"]
    );
    assert_eq!(
        lines(&arr(vec![entry(" ", n(10)), entry("-", n(20)), entry(" ", n(30))])),
        &[" [", "   10", "-  20", "   30", " ]"]
    );
    assert_eq!(
        lines(&arr(vec![
            arr(vec![s(" ")]),
            entry("~", obj(vec![("foo__added", n(42))])),
            arr(vec![s(" ")])
        ])),
        &[" [", "   ...", "   {", "+    foo: 42", "   }", "   ...", " ]"]
    );
}

#[test]
fn test_colorize_no_colors() {
    assert_eq!(
        colorize(&obj(vec![("foo", change(n(42), n(10)))]), false),
        " {\n-  foo: 42\n+  foo: 10\n }\n"
    );
}

#[test]
fn strings_render_quoted_and_escaped() {
    assert_eq!(lines(&s("a\"b")), &[" \"a\\\"b\""]);
    assert_eq!(lines(&change(s("x"), n(1))), &["-\"x\"", "+1"]);
}

#[test]
fn plain_array_renders_each_element() {
    assert_eq!(lines(&arr(vec![n(1), s("+")])), &[" [", "   1", "   \"+\"", " ]"]);
    assert_eq!(lines(&arr(vec![])), &[" [", " ]"]);
}

#[test]
fn array_with_one_plain_element_is_not_a_diff() {
    // Every element must be a tagged entry for the array to read as a diff.
    assert_eq!(
        lines(&arr(vec![entry("+", n(1)), n(2)])),
        &[" [", "   [", "     \"+\"", "     1", "   ]", "   2", " ]"]
    );
}

#[test]
fn diff_string_matches_rendered_lines() {
    let a = obj(vec![("foo", n(42)), ("bar", n(10))]);
    let b = obj(vec![("bar", n(11))]);
    let text = JsonDiff::diff_string(&a, &b, false).unwrap();
    assert_eq!(text, " {\n-  foo: 42\n   bar: {\n-    10\n+    11\n   }\n }\n".replace("   bar: {\n-    10\n+    11\n   }\n", "-  bar: 10\n+  bar: 11\n"));
    let d = JsonDiff::diff(&a, &b, false).diff.unwrap();
    assert_eq!(text, colorize_to_array(&d).join("\n") + "\n");
    assert_eq!(JsonDiff::diff_string(&a, &obj(vec![("foo", n(42)), ("bar", n(10))]), false), None);
}

#[test]
fn rendered_change_pair_is_two_lines() {
    let d = JsonDiff::diff(&n(1), &s("one"), false).diff.unwrap();
    assert_eq!(lines(&d), &["-1", "+\"one\""]);
}

#[test]
fn colorize_keeps_every_line_when_painting() {
    let d = obj(vec![("foo", change(n(42), n(10)))]);
    let text = colorize(&d, true);
    assert_eq!(text.lines().count(), 4);
    assert!(text.contains("foo: 42"));
    assert!(text.contains("foo: 10"));
}

#[test]
fn diff_string_of_nested_arrays() {
    let a = obj(vec![("xs", arr(vec![n(1), n(2)]))]);
    let b = obj(vec![("xs", arr(vec![n(1), n(3)]))]);
    assert_eq!(
        JsonDiff::diff_string(&a, &b, false).unwrap(),
        " {\n   xs: [\n     1\n-    2\n+    3\n   ]\n }\n"
    );
}
