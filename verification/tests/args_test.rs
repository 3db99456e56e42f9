//! The argument loop, the `name=value` split and the dotted-path bags.

use tabnas_jsonic_cli::args::{
    engine_options, handle_props, parse_args, set_prop, split_propval, sub_object,
};
use tabnas_jsonic_cli::registry::lookup;
use tabnas_jsonic_cli::stringify::json_text;
use tabnas_jsonic_cli::value::Value;

fn argv(list: &[&str]) -> Vec<String> {
    std::iter::once("jsonic")
        .chain(list.iter().copied())
        .map(String::from)
        .collect()
}

fn strings(list: &[&str]) -> Vec<String> {
    list.iter().map(|s| s.to_string()).collect()
}

fn text(value: &Value) -> String {
    json_text(value, &None, "")
}

#[test]
fn a_trailing_value_flag_consumes_nothing() {
    for flag in ["-o", "-m", "-f", "-p"] {
        let args = parse_args(&argv(&["a:1", flag]));
        assert_eq!(args.sources, vec!["a:1".to_string()]);
        assert!(args.options.is_empty());
        assert!(args.files.is_empty());
        assert!(args.plugins.is_empty());
    }
}

#[test]
fn end_of_flags_turns_the_rest_into_sources() {
    let args = parse_args(&argv(&["--", "-h", "-n"]));
    assert!(!args.help);
    assert_eq!(args.sources, vec!["-h".to_string(), "-n".to_string()]);
}

#[test]
fn an_equals_form_is_not_a_flag() {
    let args = parse_args(&argv(&["--option=JSON.space=2"]));
    assert!(args.options.is_empty());
    assert_eq!(args.sources, vec!["--option=JSON.space=2".to_string()]);
}

#[test]
fn a_propval_reads_only_the_first_two_segments() {
    assert_eq!(split_propval("a=b=c"), Some(("a".to_string(), "b".to_string())));
    assert_eq!(split_propval("a=b"), Some(("a".to_string(), "b".to_string())));
    assert_eq!(split_propval("a="), Some(("a".to_string(), "".to_string())));
    assert_eq!(split_propval("a"), None);
}

#[test]
fn a_dotted_path_builds_intermediate_objects() {
    let bag = handle_props(&strings(&["a.b.c=1"])).expect("parses");
    assert_eq!(text(&bag), r#"{"a":{"b":{"c":1}}}"#);
}

#[test]
fn a_whole_option_value_narrows_to_an_integer() {
    let bag = handle_props(&strings(&["debug.maxlen=11"])).expect("parses");
    let json: serde_json::Value = serde_json::from_str(&text(&bag)).expect("standard JSON");
    assert_eq!(json["debug"]["maxlen"].as_u64(), Some(11));
    let bag = handle_props(&strings(&["a=1.5"])).expect("parses");
    let json: serde_json::Value = serde_json::from_str(&text(&bag)).expect("standard JSON");
    assert_eq!(json["a"].as_f64(), Some(1.5));
}

#[test]
fn a_reference_resolves_through_the_require_fallbacks() {
    let names = strings(&["debug", "json", "jsonic"]);
    assert!(lookup(&names, &"json".to_string()).is_some());
    assert!(lookup(&names, &"@tabnas/json".to_string()).is_some());
    assert!(lookup(&names, &"../test/json.js".to_string()).is_some());
    assert!(lookup(&names, &"no-such-plugin".to_string()).is_none());
}

#[test]
fn a_reference_resolves_to_the_position_of_its_name() {
    let names = strings(&["debug", "json", "jsonic"]);
    assert_eq!(lookup(&names, &"jsonic".to_string()), Some(2));
    assert_eq!(lookup(&names, &"@tabnas/debug".to_string()), Some(0));
    assert_eq!(lookup(&names, &"a\\b\\json.js".to_string()), Some(1));
    assert_eq!(lookup(&names, &"json.js.js".to_string()), None);
}

#[test]
fn every_flag_and_its_value() {
    let args = parse_args(&argv(&[
        "-", "-f", "x.jsonic", "--option", "a=1", "-m", "b=2", "-d", "-p", "json", "-n", "-h",
        "--not-a-flag", "src",
    ]));
    assert!(args.stdin);
    assert!(args.debug);
    assert!(args.help);
    assert_eq!(args.files, strings(&["x.jsonic"]));
    assert_eq!(args.options, strings(&["a=1", "JSON.space=2"]));
    assert_eq!(args.meta, strings(&["b=2", "log=-1"]));
    assert_eq!(args.plugins, strings(&["json"]));
    assert_eq!(args.sources, strings(&["--not-a-flag", "src"]));
}

#[test]
fn only_the_program_name_parses_to_nothing() {
    let args = parse_args(&argv(&[]));
    assert!(!args.help && !args.stdin && !args.debug);
    assert!(args.sources.is_empty() && args.files.is_empty());
    let args = parse_args(&Vec::new());
    assert!(args.sources.is_empty());
}

#[test]
fn a_propval_keeps_an_empty_name() {
    assert_eq!(split_propval("=b"), Some(("".to_string(), "b".to_string())));
    assert_eq!(split_propval("=="), Some(("".to_string(), "".to_string())));
}

#[test]
fn empty_names_and_values_are_no_ops() {
    let bag = handle_props(&strings(&["", "=", "bad=", "=1", "plain"])).expect("no-ops");
    assert_eq!(text(&bag), "{}");
}

#[test]
fn a_later_setting_wins_and_keeps_its_place() {
    let bag = handle_props(&strings(&["a=1", "b=2", "a=3"])).expect("parses");
    assert_eq!(text(&bag), r#"{"a":3,"b":2}"#);
    // A path through a scalar replaces it with an object.
    let bag = handle_props(&strings(&["a=1", "a.b=2"])).expect("parses");
    assert_eq!(text(&bag), r#"{"a":{"b":2}}"#);
    let bag = handle_props(&strings(&["a.b=1", "a.c=[x]"])).expect("parses");
    assert_eq!(text(&bag), r#"{"a":{"b":1,"c":["x"]}}"#);
}

#[test]
fn a_value_that_does_not_parse_is_the_error() {
    let failed = handle_props(&strings(&["a=1", "b='", "c=2"]));
    let report = failed.expect_err("an unterminated string");
    assert!(report.contains("unterminated"), "{report}");
}

#[test]
fn a_value_that_parses_to_nothing_is_null() {
    let bag = handle_props(&strings(&["a= "])).expect("parses");
    assert_eq!(text(&bag), r#"{"a":null}"#);
}

#[test]
fn set_prop_builds_the_path() {
    let mut bag: Vec<(String, Value)> = Vec::new();
    set_prop(&mut bag, "x.y", Value::Bool(true));
    set_prop(&mut bag, "x.z", Value::Null);
    assert_eq!(text(&Value::Object(bag)), r#"{"x":{"y":true,"z":null}}"#);
}

#[test]
fn the_json_key_stays_with_the_command() {
    let bag = handle_props(&strings(&["JSON.space=2", "number.lex=false", "plugin.p.q=1"]))
        .expect("parses");
    assert_eq!(text(&engine_options(&bag)), r#"{"number":{"lex":false},"plugin":{"p":{"q":1}}}"#);
    let json = sub_object(&bag, "JSON").expect("an object");
    assert_eq!(json.len(), 1);
    assert_eq!(json[0].0, "space");
    assert!(sub_object(&bag, "missing").is_none());
    assert!(sub_object(&Value::Null, "JSON").is_none());
    assert_eq!(text(&engine_options(&Value::Null)), "{}");
}

#[test]
fn end_of_flags_keeps_the_state_reached_before_it() {
    let before = parse_args(&argv(&["-o", "a=1", "x", "-m", "k=v", "-d"]));
    let whole = parse_args(&argv(&["-o", "a=1", "x", "-m", "k=v", "-d", "--", "-h", "-o", "--", "y"]));
    assert_eq!(whole.help, before.help);
    assert_eq!(whole.stdin, before.stdin);
    assert_eq!(whole.debug, before.debug);
    assert!(whole.debug);
    assert_eq!(whole.files, before.files);
    assert_eq!(whole.options, before.options);
    assert_eq!(whole.meta, before.meta);
    assert_eq!(whole.plugins, before.plugins);
    assert_eq!(before.sources, strings(&["x"]));
    assert_eq!(whole.sources, strings(&["x", "-h", "-o", "--", "y"]));
}

#[test]
fn dashes_taken_as_a_flag_value_do_not_end_flags() {
    let args = parse_args(&argv(&["-f", "--", "-h"]));
    assert_eq!(args.files, strings(&["--"]));
    assert!(args.help);
    assert!(args.sources.is_empty());
}
