//! The session's protocol, answered by hand: what a run asks for, in
//! which order, and what it prints and reports.

use tabnas_jsonic_cli::cli::{Action, Captured, Command, Event, PluginSource, Session, HELP};

fn argv(list: &[&str]) -> Vec<String> {
    std::iter::once("jsonic")
        .chain(list.iter().copied())
        .map(String::from)
        .collect()
}

fn names() -> Vec<String> {
    ["debug", "json", "jsonic"].iter().map(|s| s.to_string()).collect()
}

fn describe(command: &Command) -> String {
    match &command.action {
        Action::Build(..) => "build".to_string(),
        Action::Install(PluginSource::Traced) => "install traced".to_string(),
        Action::Install(PluginSource::Registered(at)) => format!("install {at}"),
        Action::Describe => "describe".to_string(),
        Action::ReadFile(path) => format!("read {path}"),
        Action::ReadStdin => "stdin".to_string(),
        Action::Parse(source) => format!("parse {source}"),
        Action::Exit(code) => format!("exit {code}"),
        Action::Fail(report) => format!("fail {report}"),
    }
}

fn parsed(json: &str) -> Event {
    Event::Parsed(Vec::new(), Ok(Some(json.to_string())))
}

#[test]
fn help_prints_the_usage_and_exits() {
    let (_, command) = Session::start(&argv(&["-h", "a:1"]), &names());
    assert_eq!(command.print, vec![HELP.to_string()]);
    assert_eq!(describe(&command), "exit 0");
    assert!(HELP.contains("Usage:"));
    assert!(HELP.contains("Plugins are compiled into the binary"));
    assert!(HELP.contains("debug, jsonic, json"));
}

#[test]
fn an_unknown_plugin_is_reported_before_anything_is_built() {
    let (_, command) = Session::start(&argv(&["-p", "json", "-p", "nope", "a:1"]), &names());
    assert!(command.print.is_empty());
    assert_eq!(describe(&command), "fail Plugin not found: nope");
}

#[test]
fn a_bad_option_value_is_reported_first() {
    let (_, command) = Session::start(&argv(&["-o", "a='", "-p", "nope"]), &names());
    match command.action {
        Action::Fail(report) => assert!(report.contains("unterminated"), "{report}"),
        _ => panic!("expected a failure"),
    }
}

#[test]
fn the_debug_run_installs_describes_and_then_parses() {
    let (mut session, command) =
        Session::start(&argv(&["-d", "-p", "debug", "-p", "@tabnas/json", "-p", "json.js", "a:1"]), &names());
    match &command.action {
        Action::Build(options, meta) => {
            let meta = tabnas_jsonic_cli::stringify::json_text(meta, &None, "");
            assert_eq!(meta, r#"{"log":-1}"#);
            assert_eq!(tabnas_jsonic_cli::stringify::json_text(options, &None, ""), "{}");
        }
        _ => panic!("expected a build"),
    }
    let command = session.answer(Event::Built(Ok(())));
    assert_eq!(describe(&command), "install traced");
    let command = session.answer(Event::Installed(Ok(())));
    assert_eq!(describe(&command), "install 1");
    let command = session.answer(Event::Installed(Ok(())));
    assert_eq!(describe(&command), "install 1");
    let command = session.answer(Event::Installed(Ok(())));
    assert_eq!(describe(&command), "describe");
    let command = session.answer(Event::Described("GRAMMAR".to_string()));
    assert_eq!(command.print, vec!["GRAMMAR\n=== PARSE ===".to_string()]);
    assert_eq!(describe(&command), "parse a:1");
    let command = session.answer(Event::Parsed(
        vec!["t1".to_string(), "t2".to_string()],
        Ok(Some("{\"a\":1}".to_string())),
    ));
    assert_eq!(
        command.print,
        vec!["t1".to_string(), "t2".to_string(), "{\"a\":1}".to_string()]
    );
    assert_eq!(describe(&command), "exit 0");
}

#[test]
fn a_repeated_reference_installs_once() {
    let (mut session, _) = Session::start(&argv(&["-p", "json", "-p", "json", "a:1"]), &names());
    let command = session.answer(Event::Built(Ok(())));
    assert_eq!(describe(&command), "install 1");
    let command = session.answer(Event::Installed(Ok(())));
    assert_eq!(describe(&command), "parse a:1");
}

#[test]
fn inputs_come_in_precedence_order() {
    let (mut session, _) =
        Session::start(&argv(&["-f", "one", "-f", "", "--file", "two", "-", "s1", "s2"]), &names());
    let mut seen = Vec::new();
    let mut command = session.answer(Event::Built(Ok(())));
    let answers = [
        Event::Read(Ok("f1".to_string())),
        parsed(r#"{"a":1,"b":1,"c":1,"d":1}"#),
        Event::Read(Ok("f2".to_string())),
        parsed(r#"{"b":2}"#),
        Event::Read(Ok("in".to_string())),
        parsed(r#"{"c":3}"#),
        parsed(r#"{"d":4}"#),
        Event::Parsed(Vec::new(), Ok(None)),
    ];
    for answer in answers {
        seen.push(describe(&command));
        command = session.answer(answer);
    }
    assert_eq!(
        seen,
        vec!["read one", "parse f1", "read two", "parse f2", "stdin", "parse in", "parse s1", "parse s2"]
    );
    assert_eq!(command.print, vec![r#"{"a":1,"b":2,"c":3,"d":4}"#.to_string()]);
    assert_eq!(describe(&command), "exit 0");
}

#[test]
fn a_failed_read_names_the_file() {
    let (mut session, _) = Session::start(&argv(&["-f", "missing.jsonic", "a:1"]), &names());
    let command = session.answer(Event::Built(Ok(())));
    assert_eq!(describe(&command), "read missing.jsonic");
    let command = session.answer(Event::Read(Err("No such file".to_string())));
    assert_eq!(describe(&command), "fail missing.jsonic: No such file");
}

#[test]
fn a_failed_parse_prints_its_trace_and_fails() {
    let (mut session, _) = Session::start(&argv(&["a:1,"]), &names());
    session.answer(Event::Built(Ok(())));
    let command = session.answer(Event::Parsed(vec!["trace".to_string()], Err("bad".to_string())));
    assert_eq!(command.print, vec!["trace".to_string()]);
    assert_eq!(describe(&command), "fail bad");
}

#[test]
fn failures_from_the_engine_are_reported() {
    let (mut session, _) = Session::start(&argv(&["a:1"]), &names());
    let command = session.answer(Event::Built(Err("Grammar: options.x".to_string())));
    assert_eq!(describe(&command), "fail Grammar: options.x");

    let (mut session, _) = Session::start(&argv(&["-p", "json", "a:1"]), &names());
    session.answer(Event::Built(Ok(())));
    let command = session.answer(Event::Installed(Err("boom".to_string())));
    assert_eq!(describe(&command), "fail boom");

    let (mut session, _) = Session::start(&argv(&[]), &names());
    let command = session.answer(Event::Built(Ok(())));
    assert_eq!(describe(&command), "stdin");
    let command = session.answer(Event::Read(Err("broken pipe".to_string())));
    assert_eq!(describe(&command), "fail broken pipe");
}

#[test]
fn an_answer_out_of_turn_fails() {
    let (mut session, _) = Session::start(&argv(&["a:1"]), &names());
    let command = session.answer(Event::Described(String::new()));
    assert_eq!(describe(&command), "fail unexpected event");
    let command = session.answer(Event::Built(Ok(())));
    assert_eq!(describe(&command), "fail unexpected event");
}

#[test]
fn an_unreadable_engine_result_is_reported() {
    let (mut session, _) = Session::start(&argv(&["a:1"]), &names());
    session.answer(Event::Built(Ok(())));
    let command = session.answer(Event::Parsed(Vec::new(), Ok(Some("{".to_string()))));
    assert_eq!(describe(&command), "fail unreadable engine result");
}

#[test]
fn the_nice_flag_indents_the_result() {
    let (mut session, _) = Session::start(&argv(&["-n", "a:1"]), &names());
    session.answer(Event::Built(Ok(())));
    let command = session.answer(parsed(r#"{"a":1}"#));
    assert_eq!(command.print, vec!["{\n  \"a\": 1\n}".to_string()]);
}

#[test]
fn captured_reads_the_first_and_last_entries() {
    let out = Captured {
        code: 0,
        lines: vec!["one".to_string(), "two".to_string()],
        stderr: String::new(),
    };
    assert_eq!(out.first(), "one");
    assert_eq!(out.last(), "two");
    let empty = Captured::default();
    assert_eq!(empty.first(), "");
    assert_eq!(empty.last(), "");
    assert_eq!(empty.code, 0);
}
