//! The output contract: what the command prints for a value is what
//! `JSON.stringify` prints for it, key order, number text, escaping and
//! the `replacer` and `space` options included. The runs below drive the
//! session with jsonic's default parser answering each parse.

use tabnas_jsonic_cli::cli::{Action, Captured, Event, Session};
use tabnas_jsonic_cli::engine::value_from_outcome;
use tabnas_jsonic_cli::stringify::{
    parse_replacer, parse_space, write_string, json_text, truncate_utf16,
};
use tabnas_jsonic_cli::value::Value;

/// What jsonic's default parser makes of `source`, as the engine hands
/// it over.
fn outcome(source: &str) -> Result<Option<String>, String> {
    match tabnas_jsonic::parse(source) {
        Ok(tabnas::Value::Undefined) => Ok(None),
        Ok(value) => Ok(Some(serde_json::to_string(&value).expect("serializes"))),
        Err(error) => Err(error.to_string()),
    }
}

/// Drive a session over `list` with `stdin` as standard input. Only the
/// default engine is available, so a run may not set engine options.
fn run(list: &[&str], stdin: &str) -> Captured {
    let argv: Vec<String> = std::iter::once("jsonic")
        .chain(list.iter().copied())
        .map(String::from)
        .collect();
    let names: Vec<String> = ["debug", "json", "jsonic"].iter().map(|s| s.to_string()).collect();
    let (mut session, mut command) = Session::start(&argv, &names);
    let mut lines: Vec<String> = Vec::new();
    loop {
        lines.extend(command.print.iter().cloned());
        let event = match command.action {
            Action::Exit(code) => {
                return Captured { code, lines, stderr: String::new() };
            }
            Action::Fail(report) => {
                return Captured { code: 1, lines, stderr: report };
            }
            Action::Build(options, _meta) => {
                assert_eq!(json_text(&options, &None, ""), "{}", "engine options");
                Event::Built(Ok(()))
            }
            Action::Install(_) => Event::Installed(Ok(())),
            Action::Describe => Event::Described(String::new()),
            Action::ReadFile(path) => Event::Read(Err(format!("no file {path}"))),
            Action::ReadStdin => Event::Read(Ok(stdin.to_string())),
            Action::Parse(source) => Event::Parsed(Vec::new(), outcome(&source)),
        };
        command = session.answer(event);
    }
}

/// Print one jsonic source and read back the single printed entry.
fn out(source: &str) -> String {
    let result = run(&[source], "");
    assert_eq!(result.code, 0, "{source}: {}", result.stderr);
    result.first().to_string()
}

/// `JSON.stringify` of a double, through the engine's JSON text.
fn format_number(number: f64) -> String {
    let text = serde_json::to_string(&number).expect("serializes");
    let value = value_from_outcome(Ok(Some(text))).expect("reads back");
    json_text(&value, &None, "")
}

#[test]
fn numbers_print_as_javascript_prints_them() {
    for (number, text) in [
        (1.0, "1"),
        (-0.0, "0"),
        (0.1, "0.1"),
        (1e3, "1000"),
        (1.5, "1.5"),
        (-2.25, "-2.25"),
        (18446744073709551615.0, "18446744073709552000"),
        (1e21, "1e+21"),
        (1.5e22, "1.5e+22"),
        (1e-7, "1e-7"),
        (0.000001, "0.000001"),
        (1.2345e-8, "1.2345e-8"),
        (f64::NAN, "null"),
        (f64::INFINITY, "null"),
    ] {
        assert_eq!(format_number(number), text, "for {number}");
    }
}

#[test]
fn control_characters_escape() {
    let mut out: Vec<char> = Vec::new();
    write_string(&mut out, "a\u{1}b\nc");
    assert_eq!(String::from_iter(out), r#""a\u0001b\nc""#);
}

#[test]
fn numbers_match_json_stringify() {
    for (source, want) in [
        ("0", "0"),
        ("-0", "0"),
        ("1", "1"),
        ("-1", "-1"),
        ("1e3", "1000"),
        ("1e20", "100000000000000000000"),
        ("1e21", "1e+21"),
        ("1e22", "1e+22"),
        ("1.5e22", "1.5e+22"),
        ("0.1", "0.1"),
        ("0.5", "0.5"),
        ("-2.25", "-2.25"),
        ("1e-6", "0.000001"),
        ("1e-7", "1e-7"),
        ("1.2345e-8", "1.2345e-8"),
        ("123456789012345678901234", "1.2345678901234569e+23"),
        ("18446744073709551615", "18446744073709552000"),
        ("0xFFFFFFFFFFFFFFFF", "18446744073709552000"),
        ("9007199254740993", "9007199254740992"),
        ("1e100", "1e+100"),
        ("5e-324", "5e-324"),
        ("1.7976931348623157e308", "1.7976931348623157e+308"),
        ("1234.5678", "1234.5678"),
        ("100.5", "100.5"),
        ("0.000001234", "0.000001234"),
        ("3.0000000000000004", "3.0000000000000004"),
        ("1e-21", "1e-21"),
        ("6.02e23", "6.02e+23"),
    ] {
        assert_eq!(out(&format!("a:{source}")), format!("{{\"a\":{want}}}"));
    }
}

#[test]
fn keys_keep_their_source_order() {
    assert_eq!(
        out("z:1,a:2,m:{y:1,b:2}"),
        r#"{"z":1,"a":2,"m":{"y":1,"b":2}}"#
    );
}

#[test]
fn strings_escape_like_json_stringify() {
    let source = r#"a:'q"\\\n\r\t\b\f\u0001\u007f é'"#;
    let out = run(&[source], "");
    assert_eq!(out.code, 0, "{}", out.stderr);
    let want = format!(
        "{{\"a\":\"q\\\"\\\\\\n\\r\\t\\b\\f\\u0001{} é\"}}",
        '\u{7f}'
    );
    assert_eq!(out.first(), want);
}

#[test]
fn space_matches_json_stringify() {
    assert_eq!(
        run(&["-o", "JSON.space=2", "a:1"], "").first(),
        "{\n  \"a\": 1\n}"
    );
    assert_eq!(
        run(&["-o", "JSON.space=20", "a:1"], "").first(),
        "{\n          \"a\": 1\n}"
    );
    assert_eq!(
        run(&["-o", "JSON.space=-1", "a:1"], "").first(),
        r#"{"a":1}"#
    );
    assert_eq!(
        run(&["-o", "JSON.space=0", "a:1"], "").first(),
        r#"{"a":1}"#
    );
    assert_eq!(
        run(&["-o", r#"JSON.space="--""#, "a:b:1"], "").first(),
        "{\n--\"a\": {\n----\"b\": 1\n--}\n}"
    );
    assert_eq!(
        run(&["-o", "JSON.space=2", "a:[1,{}],b:[]"], "").first(),
        "{\n  \"a\": [\n    1,\n    {}\n  ],\n  \"b\": []\n}"
    );
}

#[test]
fn replacer_matches_json_stringify() {
    assert_eq!(
        run(&["-o", "JSON.replacer=[a,c]", "a:1,b:2,c:{a:3,b:4}"], "").first(),
        r#"{"a":1,"c":{"a":3}}"#
    );
    assert_eq!(
        run(&["-o", "JSON.replacer=1", "a:1,1:2"], "").first(),
        r#"{"1":2}"#
    );
    assert_eq!(
        run(&["-o", "JSON.replacer=[b]", "a:[{a:1,b:2}]"], "").first(),
        r#"{}"#
    );
    assert_eq!(
        run(&["-o", "JSON.replacer=[a,b]", "a:[{a:1,c:2}]"], "").first(),
        r#"{"a":[{"a":1}]}"#
    );
}

#[test]
fn a_replacer_list_sets_the_key_order() {
    assert_eq!(
        run(&["-o", "JSON.replacer=[b,a]", "a:1,b:2"], "").first(),
        r#"{"b":2,"a":1}"#
    );
    assert_eq!(
        run(&["-o", "JSON.replacer=[c,a]", "a:1,b:2,c:{a:3,b:4}"], "").first(),
        r#"{"c":{"a":3},"a":1}"#
    );
    assert_eq!(
        run(&["-o", "JSON.replacer=[a,a,b]", "a:1,b:2"], "").first(),
        r#"{"a":1,"b":2}"#
    );
    assert_eq!(
        run(&["-o", "JSON.replacer=[z,a]", "a:1"], "").first(),
        r#"{"a":1}"#
    );
    assert_eq!(
        run(&["-o", "JSON.replacer=[true,a]", "a:1"], "").first(),
        r#"{"a":1}"#
    );
    assert_eq!(run(&["-o", "JSON.replacer=[]", "a:1"], "").first(), "{}");
}

#[test]
fn a_string_json_option_is_parsed_again() {
    assert_eq!(
        run(&["-o", r#"JSON.space="2""#, "a:1"], "").first(),
        "{\n  \"a\": 1\n}"
    );
    assert_eq!(
        run(&["-o", r#"JSON.replacer="[a]""#, "a:1,b:2"], "").first(),
        r#"{"a":1}"#
    );
    assert_eq!(
        run(&["-o", r#"JSON.space="--""#, "a:1"], "").first(),
        "{\n--\"a\": 1\n}"
    );
    assert_eq!(
        run(&["-o", r#"JSON.space="  ""#, "a:1"], "").first(),
        r#"{"a":1}"#
    );
    let failed = run(&["-o", r#"JSON.space="'""#, "a:1"], "");
    assert_eq!(failed.code, 1);
    assert!(failed.stderr.contains("unterminated"), "{}", failed.stderr);
}

#[test]
fn a_string_space_is_cut_at_ten_utf16_units() {
    assert_eq!(
        run(&["-o", r#"JSON.space="abcdefghijklmno""#, "a:1"], "").first(),
        "{\nabcdefghij\"a\": 1\n}"
    );
    let six = "\u{1F600}".repeat(6);
    assert_eq!(
        run(&["-o", &format!("JSON.space=\"{six}\""), "a:1"], "").first(),
        format!("{{\n{}\"a\": 1\n}}", "\u{1F600}".repeat(5))
    );
}

#[test]
fn array_index_keys_enumerate_before_the_others() {
    for (source, want) in [
        ("2:b,1:a", r#"{"1":"a","2":"b"}"#),
        ("b:1,10:x,9:y,a:2", r#"{"9":"y","10":"x","b":1,"a":2}"#),
        (
            "4294967295:a,4294967294:b",
            r#"{"4294967294":"b","4294967295":"a"}"#,
        ),
        ("01:a,1:b", r#"{"1":"b","01":"a"}"#),
        ("00:a,0:b", r#"{"0":"b","00":"a"}"#),
        ("-1:a,0:b", r#"{"0":"b","-1":"a"}"#),
        ("-0:a,0:b", r#"{"0":"b","-0":"a"}"#),
        ("1.5:a,1:b", r#"{"1":"b","1.5":"a"}"#),
        (
            "2:b,1:a,x:{5:q,0:p}",
            r#"{"1":"a","2":"b","x":{"0":"p","5":"q"}}"#,
        ),
        ("z:1,a:2,m:{y:1,b:2}", r#"{"z":1,"a":2,"m":{"y":1,"b":2}}"#),
    ] {
        assert_eq!(out(source), want, "for {source}");
    }
}

#[test]
fn a_space_cut_through_an_astral_character_keeps_its_half() {
    assert_eq!(
        run(&["-o", "JSON.space=\"abcdefghi\u{1F600}\"", "a:1"], "").first(),
        "{\nabcdefghi\u{FFFD}\"a\": 1\n}"
    );
    assert_eq!(
        run(&["-o", "JSON.space=\"abcdefgh\u{1F600}\"", "a:1"], "").first(),
        "{\nabcdefgh\u{1F600}\"a\": 1\n}"
    );
    assert_eq!(
        run(&["-o", "JSON.space=\"abcdefghij\u{1F600}\"", "a:1"], "").first(),
        "{\nabcdefghij\"a\": 1\n}"
    );
}

#[test]
fn numbers_at_a_shortest_form_tie_round_to_even() {
    for (source, want) in [
        ("1658206780088562.2", "1658206780088562.2"),
        ("165793407361858.12", "165793407361858.12"),
        ("-1149636667324797.2", "-1149636667324797.2"),
        ("34461792646535.312", "34461792646535.312"),
        ("213751243550068.62", "213751243550068.62"),
        ("-264310078315752.62", "-264310078315752.62"),
    ] {
        assert_eq!(
            out(&format!("a:{source}")),
            format!("{{\"a\":{want}}}"),
            "for {source}"
        );
    }
}

#[test]
fn truncation_counts_utf16_units() {
    assert_eq!(truncate_utf16("abc", 10), "abc");
    assert_eq!(truncate_utf16("abc", 2), "ab");
    assert_eq!(truncate_utf16("a\u{1F600}", 2), "a\u{FFFD}");
    assert_eq!(truncate_utf16("a\u{1F600}", 3), "a\u{1F600}");
    assert_eq!(truncate_utf16("abc", 0), "");
    assert_eq!(truncate_utf16("\u{1F600}", 1), "\u{FFFD}");
}

#[test]
fn a_space_option_becomes_an_indent() {
    let num = |text: &str| value_from_outcome(Ok(Some(text.to_string()))).expect("reads");
    assert_eq!(parse_space(None), "");
    assert_eq!(parse_space(Some(&num("3.9"))), "   ");
    assert_eq!(parse_space(Some(&num("0.5"))), "");
    assert_eq!(parse_space(Some(&num("12"))), "          ");
    assert_eq!(parse_space(Some(&num("-4"))), "");
    assert_eq!(parse_space(Some(&Value::Str("\t".to_string()))), "\t");
    assert_eq!(parse_space(Some(&Value::Bool(true))), "");
}

#[test]
fn a_replacer_option_becomes_a_key_list() {
    let value = |text: &str| value_from_outcome(Ok(Some(text.to_string()))).expect("reads");
    assert_eq!(parse_replacer(None), None);
    assert_eq!(parse_replacer(Some(&Value::Null)), None);
    assert_eq!(parse_replacer(Some(&Value::Undefined)), None);
    assert_eq!(parse_replacer(Some(&value("\"a\""))), Some(vec!["a".to_string()]));
    assert_eq!(parse_replacer(Some(&value("1.5e2"))), Some(vec!["150".to_string()]));
    assert_eq!(parse_replacer(Some(&value("true"))), Some(Vec::new()));
    assert_eq!(
        parse_replacer(Some(&value("[\"b\",1,\"b\",null,{}]"))),
        Some(vec!["b".to_string(), "1".to_string()])
    );
}

#[test]
fn undefined_prints_as_the_word() {
    assert_eq!(json_text(&Value::Undefined, &None, ""), "undefined");
    assert_eq!(
        json_text(&Value::Array(vec![Value::Undefined, Value::Null]), &None, ""),
        "[null,null]"
    );
    let object = Value::Object(vec![
        ("a".to_string(), Value::Undefined),
        ("b".to_string(), Value::Bool(false)),
    ]);
    assert_eq!(json_text(&object, &None, ""), r#"{"b":false}"#);
}

#[test]
fn an_escaped_string_reads_back_as_the_same_text() {
    for text in ["", "plain", "q\"b\\s/", "\u{0}\u{1}\u{8}\u{9}\u{a}\u{c}\u{d}\u{1f}", "\u{7f}é€😀", "a\u{2028}b"] {
        let mut written: Vec<char> = Vec::new();
        write_string(&mut written, text);
        let written = String::from_iter(written);
        assert!(written.chars().all(|c| c >= ' '), "{written}");
        let back = value_from_outcome(Ok(Some(written.clone()))).expect("reads back");
        match back {
            Value::Str(s) => assert_eq!(s, text),
            other => panic!("{written} read back as {other:?}"),
        }
    }
}

#[test]
fn a_written_string_is_a_json_string_of_the_same_text() {
    for text in ["", "x", "q\"b\\s/", "\u{0}\u{1}\u{8}\u{9}\u{a}\u{b}\u{c}\u{d}\u{1b}\u{1f}", "\u{7f}é€😀\u{2028}"] {
        let mut written: Vec<char> = Vec::new();
        write_string(&mut written, text);
        let written = String::from_iter(written);
        let back: String = serde_json::from_str(&written).expect("a JSON string");
        assert_eq!(back, text);
    }
}

#[test]
fn escapes_are_short_forms_or_lowercase_hex() {
    let mut written: Vec<char> = Vec::new();
    write_string(&mut written, "\"\\\n\r\t\u{8}\u{c}\u{0}\u{b}\u{1b}\u{1f} \u{7f}é");
    assert_eq!(
        String::from_iter(written),
        "\"\\\"\\\\\\n\\r\\t\\b\\f\\u0000\\u000b\\u001b\\u001f \u{7f}é\""
    );
}
