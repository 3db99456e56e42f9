//! Reading the engine's standard JSON text back into values.

use tabnas_jsonic_cli::engine::{parse_relaxed, value_from_outcome};
use tabnas_jsonic_cli::stringify::json_text;
use tabnas_jsonic_cli::value::Value;

fn read(text: &str) -> Result<Value, String> {
    value_from_outcome(Ok(Some(text.to_string())))
}

fn round(text: &str) -> String {
    json_text(&read(text).expect("standard JSON"), &None, "")
}

#[test]
fn escapes_read_as_their_characters() {
    match read(r#""a\u00e9\ud83d\ude00\n\/\"""#).expect("a string") {
        Value::Str(text) => assert_eq!(text, "a\u{e9}\u{1F600}\n/\""),
        other => panic!("not a string: {other:?}"),
    }
    assert!(read(r#""\ud83d""#).is_err(), "a lone surrogate is not a character");
    assert!(read(r#""\x""#).is_err());
}

#[test]
fn numbers_are_normalized() {
    assert_eq!(round("100"), "100");
    assert_eq!(round("1.50"), "1.5");
    assert_eq!(round("-0.0"), "0");
    assert_eq!(round("1E+2"), "100");
    assert_eq!(round("0.000120"), "0.00012");
    assert_eq!(round("12e-1"), "1.2");
    assert_eq!(round("[1e21,-3.5e-9]"), "[1e+21,-3.5e-9]");
}

#[test]
fn whitespace_and_nesting_read() {
    assert_eq!(round(" { \"a\" : [ true , false , null ] , \"b\" : { } } \n"), r#"{"a":[true,false,null],"b":{}}"#);
}

#[test]
fn a_repeated_key_keeps_its_place_and_the_later_value() {
    assert_eq!(round(r#"{"a":1,"b":2,"a":3}"#), r#"{"a":3,"b":2}"#);
}

#[test]
fn text_that_is_not_one_json_value_is_refused() {
    for text in ["", "{", "[1,]", "01x", "1 2", "tru", "{\"a\" 1}", "-", "1.", "1e"] {
        assert_eq!(read(text).err(), Some("unreadable engine result".to_string()), "{text:?}");
    }
}

#[test]
fn outcomes_become_values() {
    assert!(matches!(value_from_outcome(Ok(None)), Ok(Value::Undefined)));
    assert_eq!(value_from_outcome(Err("bad".to_string())).err(), Some("bad".to_string()));
    assert!(matches!(parse_relaxed(""), Ok(Value::Undefined)));
    assert_eq!(json_text(&parse_relaxed("a:[x,'y',2.50]").expect("parses"), &None, ""), r#"{"a":["x","y",2.5]}"#);
}

#[test]
fn a_compact_text_has_no_line_break() {
    let value = parse_relaxed(r"a:'x\ny',b:[1,{c:'\r'}]").expect("parses");
    let text = json_text(&value, &None, "");
    assert!(!text.contains('\n'), "{text}");
    assert_eq!(text, r#"{"a":"x\ny","b":[1,{"c":"\r"}]}"#);
}
