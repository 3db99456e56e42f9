//! The source merge, checked through parsed relaxed JSON.

use tabnas_jsonic_cli::engine::parse_relaxed;
use tabnas_jsonic_cli::merge::merge;
use tabnas_jsonic_cli::stringify::json_text;
use tabnas_jsonic_cli::value::Value;

const DANGEROUS: [&str; 3] = ["__proto__", "constructor", "prototype"];

fn parse(source: &str) -> Value {
    parse_relaxed(source).expect("the fixture parses")
}

fn merged(sources: &[&str]) -> String {
    let mut data = Value::Null;
    for source in sources {
        data = merge(data, parse(source));
    }
    json_text(&data, &None, "")
}

#[test]
fn objects_merge_by_key_and_arrays_by_index() {
    assert_eq!(merged(&["a:b:1", "a:c:2"]), r#"{"a":{"b":1,"c":2}}"#);
    assert_eq!(merged(&["[1,2,3]", "[9]"]), "[9,2,3]");
    assert_eq!(merged(&["a:1", "b:2", "a:3"]), r#"{"a":3,"b":2}"#);
}

#[test]
fn an_empty_source_leaves_the_base_alone() {
    assert_eq!(merged(&["a:1", ""]), r#"{"a":1}"#);
    assert_eq!(merged(&[""]), "null");
}

#[test]
fn a_scalar_overlay_replaces_the_base() {
    assert_eq!(merged(&["a:1", "2"]), "2");
    assert_eq!(merged(&["[1,2]", "a:1"]), r#"{"a":1}"#);
}

#[test]
fn the_dangerous_keys_are_dropped_at_every_level() {
    for key in DANGEROUS {
        assert_eq!(merged(&[&format!("{key}:1")]), "{}", "top level {key}");
        assert_eq!(
            merged(&[&format!("a:{{{key}:1}}")]),
            r#"{"a":{}}"#,
            "nested {key}"
        );
        assert_eq!(
            merged(&["a:{b:1}", &format!("a:{{{key}:1}}")]),
            r#"{"a":{"b":1}}"#,
            "merged {key}"
        );
    }
}

#[test]
fn the_dangerous_keys_are_dropped_from_an_appended_element() {
    for key in DANGEROUS {
        assert_eq!(
            merged(&[&format!("a:[{{{key}:1}}]")]),
            r#"{"a":[{}]}"#,
            "fresh array, {key}"
        );
        assert_eq!(
            merged(&[&format!("[{{{key}:1}}]")]),
            "[{}]",
            "top level array, {key}"
        );
        assert_eq!(
            merged(&["[1]", &format!("[{{{key}:1}},{{{key}:2}}]")]),
            "[{},{}]",
            "replaced and appended, {key}"
        );
        assert_eq!(
            merged(&[&format!("a:[[{{{key}:1}}]]")]),
            r#"{"a":[[{}]]}"#,
            "nested array, {key}"
        );
    }
}

#[test]
fn an_undefined_overlay_is_a_no_op() {
    let base = parse("a:[1,{b:2}]");
    let kept = merge(base, Value::Undefined);
    assert_eq!(json_text(&kept, &None, ""), r#"{"a":[1,{"b":2}]}"#);
    assert_eq!(json_text(&merge(Value::Bool(true), Value::Undefined), &None, ""), "true");
}

#[test]
fn an_existing_key_keeps_its_position() {
    assert_eq!(merged(&["a:1,b:2,c:3", "c:9,b:8,d:7"]), r#"{"a":1,"b":8,"c":9,"d":7}"#);
}

#[test]
fn a_longer_array_overlay_extends_the_base() {
    assert_eq!(merged(&["[1]", "[7,8,9]"]), "[7,8,9]");
    assert_eq!(merged(&["[[1,2],3]", "[[9]]"]), "[[9,2],3]");
}

#[test]
fn a_container_over_a_scalar_starts_fresh() {
    assert_eq!(merged(&["1", "a:1"]), r#"{"a":1}"#);
    assert_eq!(merged(&["a:1", "[1]"]), "[1]");
    assert_eq!(merged(&["a:{b:1}", "a:[2]"]), r#"{"a":[2]}"#);
}

#[test]
fn merging_the_same_overlay_twice_changes_nothing() {
    for (base, over) in [
        ("a:{b:1,c:[1,2,3]}", "a:{c:[9],d:2},e:x"),
        ("[1,{a:1},3]", "[{b:2},{a:5}]"),
        ("a:1", "7"),
        ("x:[1,2]", "x:{y:1},__proto__:{z:1}"),
        ("", "a:b:c:1"),
    ] {
        let once = merge(parse(base), parse(over));
        let twice = merge(merge(parse(base), parse(over)), parse(over));
        assert_eq!(json_text(&twice, &None, ""), json_text(&once, &None, ""), "{base} / {over}");
    }
}
