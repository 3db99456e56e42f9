//! Standard input is untrusted: deep nesting, long input, unterminated
//! constructs, no input at all and odd characters are parsed or reported,
//! never a crash. The runs drive the session with jsonic's default parser.

use std::time::Instant;

use tabnas_jsonic_cli::cli::{Action, Captured, Event, Session};

fn outcome(source: &str) -> Result<Option<String>, String> {
    match tabnas_jsonic::parse(source) {
        Ok(tabnas::Value::Undefined) => Ok(None),
        Ok(value) => Ok(Some(serde_json::to_string(&value).expect("serializes"))),
        Err(error) => Err(error.to_string()),
    }
}

fn run(list: &[&str], stdin: &str) -> Captured {
    let argv: Vec<String> = std::iter::once("jsonic")
        .chain(list.iter().copied())
        .map(String::from)
        .collect();
    let names: Vec<String> = ["debug", "json", "jsonic"].iter().map(|s| s.to_string()).collect();
    let (mut session, mut command) = Session::start(&argv, &names);
    let mut lines: Vec<String> = Vec::new();
    loop {
        lines.extend(command.print.iter().cloned());
        let event = match command.action {
            Action::Exit(code) => {
                return Captured { code, lines, stderr: String::new() };
            }
            Action::Fail(report) => {
                return Captured { code: 1, lines, stderr: report };
            }
            Action::Build(..) => Event::Built(Ok(())),
            Action::Install(_) => Event::Installed(Ok(())),
            Action::Describe => Event::Described(String::new()),
            Action::ReadFile(path) => Event::Read(Err(format!("no file {path}"))),
            Action::ReadStdin => Event::Read(Ok(stdin.to_string())),
            Action::Parse(source) => Event::Parsed(Vec::new(), outcome(&source)),
        };
        command = session.answer(event);
    }
}

#[test]
fn deep_nesting_is_refused_rather_than_crashing() {
    for depth in [200usize, 5_000, 50_000] {
        let source = format!("{}{}", "[".repeat(depth), "]".repeat(depth));
        let out = run(&[], &source);
        assert_eq!(out.code, 1, "depth {depth} was not refused");
        assert!(
            out.stderr.contains("cancel"),
            "depth {depth}: {}",
            &out.stderr[..out.stderr.len().min(200)]
        );
    }
}

#[test]
fn nesting_just_inside_the_bound_parses() {
    let depth = 120;
    let source = format!("{}1{}", "[".repeat(depth), "]".repeat(depth));
    let out = run(&[], &source);
    assert_eq!(out.code, 0, "{}", out.stderr);
    assert_eq!(out.first(), source);
}

#[test]
fn a_deep_key_dive_is_bounded() {
    let source = (0..5_000)
        .map(|_| "a")
        .collect::<Vec<_>>()
        .join(":")
        .to_string()
        + ":1";
    let out = run(&[], &source);
    assert_eq!(out.code, 1);
    assert!(out.stderr.contains("cancel"), "{}", out.stderr);
}

#[test]
fn an_unterminated_construct_is_reported() {
    for (source, want) in [
        ("{a:1", r#"{"a":1}"#),
        ("[1,2", "[1,2]"),
        ("{a:[1,{b:", r#"{"a":[1,{"b":null}]}"#),
    ] {
        let out = run(&[], source);
        assert_eq!(out.code, 0, "{source:?}: {}", out.stderr);
        assert_eq!(out.first(), want, "{source:?}");
    }

    for source in ["\"abc", "'abc", "`abc", "/* a"] {
        let out = run(&[], source);
        assert_eq!(out.code, 1, "{source:?} did not fail: {:?}", out.lines);
        assert!(
            out.stderr.contains("unterminated"),
            "{source:?}: {}",
            out.stderr
        );
    }
}

#[test]
fn empty_input_prints_the_seed() {
    assert_eq!(run(&[], "").first(), "null");
    assert_eq!(run(&[""], "").first(), "null");
    assert_eq!(run(&["-"], "").first(), "null");
}

#[test]
fn control_characters_and_odd_unicode_are_handled() {
    for source in [
        "a:\u{0}",
        "a:'x\u{7f}y'",
        "a:'\u{2028}\u{2029}'",
        "a:'\u{1f600}'",
        "a:'\\ud800'",
        "\u{feff}a:1",
        "a:'\u{202e}'",
    ] {
        let out = run(&[], source);
        assert!(
            out.code == 0 || out.code == 1,
            "{source:?} gave {}",
            out.code
        );
        if out.code == 0 {
            assert!(!out.first().is_empty(), "{source:?} printed nothing");
        }
    }
}

#[test]
fn long_input_stays_linear() {
    let small = elapsed_ms(20_000);
    let large = elapsed_ms(80_000);
    let budget = (small.max(1.0) * 16.0).max(2_000.0);
    assert!(
        large < budget,
        "four times the input took {large}ms against {small}ms for a quarter of it"
    );
}

fn elapsed_ms(count: usize) -> f64 {
    let source = format!("[{}]", "1,".repeat(count / 2));
    let started = Instant::now();
    let out = run(&[], &source);
    assert_eq!(out.code, 0, "{}", out.stderr);
    started.elapsed().as_secs_f64() * 1000.0
}
