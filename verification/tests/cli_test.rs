//! The command's argument handling and failures, driven through the
//! session with jsonic's default parser answering each parse and every
//! file read failing.

use tabnas_jsonic_cli::cli::{Action, Captured, Event, Session};

fn outcome(source: &str) -> Result<Option<String>, String> {
    match tabnas_jsonic::parse(source) {
        Ok(tabnas::Value::Undefined) => Ok(None),
        Ok(value) => Ok(Some(serde_json::to_string(&value).expect("serializes"))),
        Err(error) => Err(error.to_string()),
    }
}

fn run(list: &[&str], stdin: &str) -> Captured {
    let argv: Vec<String> = std::iter::once("jsonic")
        .chain(list.iter().copied())
        .map(String::from)
        .collect();
    let names: Vec<String> = ["debug", "json", "jsonic"].iter().map(|s| s.to_string()).collect();
    let (mut session, mut command) = Session::start(&argv, &names);
    let mut lines: Vec<String> = Vec::new();
    loop {
        lines.extend(command.print.iter().cloned());
        let event = match command.action {
            Action::Exit(code) => {
                return Captured { code, lines, stderr: String::new() };
            }
            Action::Fail(report) => {
                return Captured { code: 1, lines, stderr: report };
            }
            Action::Build(..) => Event::Built(Ok(())),
            Action::Install(_) => Event::Installed(Ok(())),
            Action::Describe => Event::Described(String::new()),
            Action::ReadFile(path) => Event::Read(Err(format!("no file {path}"))),
            Action::ReadStdin => Event::Read(Ok(stdin.to_string())),
            Action::Parse(source) => Event::Parsed(Vec::new(), outcome(&source)),
        };
        command = session.answer(event);
    }
}

#[test]
fn bad_args() {
    // An empty `--file` is skipped rather than read.
    assert_eq!(run(&["-f", "", "a:1"], "").first(), r#"{"a":1}"#);

    // Empty and malformed `-o` values are no-ops.
    for option in ["", "=", "bad="] {
        let out = run(&["-o", option, "a:1"], "");
        assert_eq!(out.first(), r#"{"a":1}"#, "-o {option:?}");
        assert_eq!(out.code, 0);
    }

    // A value-taking flag in the last position consumes nothing.
    for flag in ["-o", "-m", "-f", "-p"] {
        let out = run(&["a:1", flag], "");
        assert_eq!(out.first(), r#"{"a":1}"#, "trailing {flag}");
        assert_eq!(out.code, 0);
    }
}

#[test]
fn a_missing_file_fails() {
    let out = run(&["-f", "no-such-file.jsonic", "a:1"], "");
    assert_eq!(out.code, 1);
    assert!(
        out.stderr.contains("no-such-file.jsonic"),
        "stderr: {}",
        out.stderr
    );
}

#[test]
fn a_bad_source_fails() {
    let out = run(&["a:1,"], "");
    assert_eq!(out.code, 0, "a trailing comma is legal jsonic");

    let out = run(&["}"], "");
    assert_eq!(out.code, 1);
    assert!(!out.stderr.is_empty(), "a parse failure says why");
}

#[test]
fn sources_merge_left_to_right() {
    let out = run(&["a:1", "b:[2]", "c:{x:1}"], "");
    assert_eq!(out.first(), r#"{"a":1,"b":[2],"c":{"x":1}}"#);
    let out = run(&["--not-an-arg-so-ignored", "a:1"], "");
    assert_eq!(out.first(), r#"{"a":1}"#);
    let out = run(&[], "{a:1}");
    assert_eq!(out.first(), r#"{"a":1}"#);
    let out = run(&["-", "b:2"], "{a:1}");
    assert_eq!(out.first(), r#"{"a":1,"b":2}"#);
    let out = run(&["--option=JSON.space=2"], "");
    assert_eq!(out.first(), r#""--option=JSON.space=2""#);
    let out = run(&["-o", "JSON.replacer=b", "a:1,b:2"], "");
    assert_eq!(out.first(), r#"{"b":2}"#);
}

#[test]
fn stringify() {
    assert_eq!(
        run(&["-o", "JSON.space=2", "a:1"], "").first(),
        "{\n  \"a\": 1\n}"
    );
    assert_eq!(run(&["-n", "a:1"], "").first(), "{\n  \"a\": 1\n}");
    assert_eq!(
        run(&["-o", "JSON.replacer=[b]", "a:1,b:2"], "").first(),
        r#"{"b":2}"#
    );
    assert_eq!(
        run(&["-o", "JSON.replacer=b", "a:1,b:2"], "").first(),
        r#"{"b":2}"#
    );
}

/// Both spellings of every flag that has a long form, and the `--k=v`
/// form, which is a source and not a flag.
#[test]
fn long_and_short_spellings() {
    for (long, short) in [
        ("--option", "-o"),
        ("--meta", "-m"),
        ("--file", "-f"),
        ("--plugin", "-p"),
    ] {
        assert_eq!(
            run(&[long, "x=1", "a:1"], "").first(),
            run(&[short, "x=1", "a:1"], "").first(),
            "{long} and {short} disagree",
        );
    }
    assert_eq!(run(&["--nice", "a:1"], "").first(), "{\n  \"a\": 1\n}");
    assert_eq!(run(&["-n", "a:1"], "").first(), "{\n  \"a\": 1\n}");

    let out = run(&["--option=JSON.space=2", "a:1"], "");
    assert_eq!(out.first(), r#"{"a":1}"#);
    let out = run(&["--option=JSON.space=2"], "");
    assert_eq!(out.first(), r#""--option=JSON.space=2""#);
    let out = run(&["--nice=1", "a:1"], "");
    assert_eq!(out.first(), r#"{"a":1}"#);
}
