//! Where this command knowingly differs from the canonical one: a
//! failure exits nonzero, a plugin reference is resolved against a
//! compiled-in registry, and the help text says so.

use tabnas_jsonic_cli::cli::{Action, Captured, Event, Session};

fn outcome(source: &str) -> Result<Option<String>, String> {
    match tabnas_jsonic::parse(source) {
        Ok(tabnas::Value::Undefined) => Ok(None),
        Ok(value) => Ok(Some(serde_json::to_string(&value).expect("serializes"))),
        Err(error) => Err(error.to_string()),
    }
}

fn run(list: &[&str], stdin: &str) -> Captured {
    let argv: Vec<String> = std::iter::once("jsonic")
        .chain(list.iter().copied())
        .map(String::from)
        .collect();
    let names: Vec<String> = ["debug", "json", "jsonic"].iter().map(|s| s.to_string()).collect();
    let (mut session, mut command) = Session::start(&argv, &names);
    let mut lines: Vec<String> = Vec::new();
    loop {
        lines.extend(command.print.iter().cloned());
        let event = match command.action {
            Action::Exit(code) => {
                return Captured { code, lines, stderr: String::new() };
            }
            Action::Fail(report) => {
                return Captured { code: 1, lines, stderr: report };
            }
            Action::Build(..) => Event::Built(Ok(())),
            Action::Install(_) => Event::Installed(Ok(())),
            Action::Describe => Event::Described(String::new()),
            Action::ReadFile(path) => Event::Read(Err(format!("no file {path}"))),
            Action::ReadStdin => Event::Read(Ok(stdin.to_string())),
            Action::Parse(source) => Event::Parsed(Vec::new(), outcome(&source)),
        };
        command = session.answer(event);
    }
}

#[test]
fn a_failure_exits_nonzero_where_typescript_exits_zero() {
    for args in [
        vec!["}"],
        vec!["-f", "no-such-file.jsonic"],
        vec!["-p", "no-such-plugin", "a:1"],
        vec!["-o", "JSON.space='"],
    ] {
        let out = run(&args, "");
        assert_eq!(out.code, 1, "{args:?} did not exit 1");
        assert!(out.lines.is_empty(), "{args:?} printed to stdout");
        assert!(!out.stderr.is_empty(), "{args:?} failed silently");
    }
}

#[test]
fn an_unresolvable_plugin_reports_a_registry_miss() {
    let out = run(&["-p", "no-such-plugin", "a:1"], "");
    assert_eq!(out.code, 1);
    assert_eq!(out.stderr.trim(), "Plugin not found: no-such-plugin");
}

#[test]
fn the_help_text_describes_compiled_in_plugins() {
    let out = run(&["-h"], "");
    let help = out.first();
    assert!(help.contains("Usage:"), "the shared part is still there");
    assert!(
        help.contains("Plugins are compiled into the binary"),
        "the Plugins section does not say plugins are compiled in"
    );
    assert!(
        help.contains("debug, jsonic, json"),
        "the Plugins section does not name the built-in references"
    );
    assert!(
        !help.contains("./plugin folder of the distribution"),
        "the Plugins section promises runtime module loading"
    );
}
