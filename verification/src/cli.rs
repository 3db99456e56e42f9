//! The command itself as a session: the decisions of a run, from the
//! argument list to the printed result, with the engine, the files and
//! standard input left to the caller. The caller starts a session, does
//! what each [`Command`] asks, and answers with the [`Event`] that came of
//! it, until the command exits or fails.

use vstd::prelude::*;

use indexmap::IndexMap;

use crate::args::{
    engine_bag, engine_options, handle_props, parse_args, parsed_args, props_bag, strings_view,
    sub_object, sub_object_of, ArgsModel, CliArgs,
};
use crate::engine::{outcome_value, outcome_view, value_from_outcome};
use crate::merge::{deep, lemma_deep_wf, merge};
use crate::registry::{lookup, resolve};
use crate::stringify::{
    json_option, json_option_of, parse_replacer, parse_space, replacer_of, space_of,
    json_text, stringify_text,
};
use crate::value::{Json, Value};

verus! {

/// The usage message `--help` prints.
pub const HELP: &'static str = "A JSON parser that isn't strict.

Usage: jsonic <args> [<source-text>]*

where
  <source-text> is the source text to be parsed into JSON.
    If omitted, the source text is read from STDIN. If multiple source
    texts are provided, they will be merged in precedence (from highest)
    right to left, STDIN, <file>.

  <args> are the command arguments:

    -                        Alias for STDIN.

    --file <file>            Load and parse <file>.
    -f <file>

    --option <name=value>    Set option <name> to <value>, where <name>
    -o <name=value>          can be a dotted path (see example below).

    --nice                   Pretty-print output, alias for:
    -n                       -o JSON.space=2

    --meta <meta=value>      Set parse meta data <name> to <value>, where
    -m <meta=value>          <name> can be a dotted path (see option example).

    --plugin <require>       Load a plugin, where <require> is the plugin
    -p <require>             reference (name or path).

    --debug                  Print abstract syntax tree, and trace the parse
    -d                       (loads the debug plugin).

    --help                   Print this help message.
    -h

Plugins
  Plugins are compiled into the binary (Rust cannot load modules at
  runtime). The built-in references are: debug, jsonic, json.
  A reference may also be written @tabnas/<name>, or as a path ending
  in <name> or <name>.js. Plugin options are set with
  -o plugin.<name>.<option>=<value>.

Examples:

# Basic usage
> jsonic a:1
{\"a\":1}

# Parse a file
> jsonic -f input.jsonic

# Parse from STDIN
> echo a:1 | jsonic
{\"a\":1}

# Merge text arguments
> jsonic a:b:1 a:c:2
{\"a\":{\"b\":1,\"c\":2}}

# Set options
> jsonic -o JSON.space=2 a:1
{
  \"a\": 1
}

# Use a built-in plugin
> jsonic -p json '{\"a\":1}'
{\"a\":1}

# Full debug tracing
> jsonic -d a:1

See also: https://github.com/tabnas/jsonic
";

/// Where a plugin to install comes from.
#[derive(Clone, Copy, Debug, PartialEq, Eq, Structural)]
pub enum PluginSource {
    /// The tracing debug plugin `--debug` installs.
    Traced,
    /// The registered plugin at this position of the names the session
    /// was started with.
    Registered(usize),
}

/// A plugin source as the contracts see it.
pub enum SourceModel {
    Traced,
    Registered(int),
}

impl View for PluginSource {
    type V = SourceModel;

    open spec fn view(&self) -> SourceModel {
        match self {
            PluginSource::Traced => SourceModel::Traced,
            PluginSource::Registered(i) => SourceModel::Registered(*i as int),
        }
    }
}

/// What the session asks its caller to do next.
pub enum Action {
    /// Build the engine from this option document, and keep this
    /// metadata for every parse.
    Build(Value, Value),
    /// Install this plugin on the engine.
    Install(PluginSource),
    /// Describe the engine's grammar.
    Describe,
    /// Read the file at this path.
    ReadFile(String),
    /// Read standard input.
    ReadStdin,
    /// Parse this source text.
    Parse(String),
    /// Exit with this code.
    Exit(i32),
    /// Report this message on standard error and exit with code 1.
    Fail(String),
}

/// The lines to print, in order, and then the action to take.
pub struct Command {
    pub print: Vec<String>,
    pub action: Action,
}

/// What came of an action.
pub enum Event {
    /// The engine was built, or the report of why not.
    Built(Result<(), String>),
    /// The plugin was installed, or the report of why not.
    Installed(Result<(), String>),
    /// The grammar description.
    Described(String),
    /// The text read, or the report of the failed read.
    Read(Result<String, String>),
    /// The trace lines the parse printed, and its outcome: the value as
    /// standard JSON text, nothing for a source that parsed to
    /// `undefined`, or the engine's report.
    Parsed(Vec<String>, Result<Option<String>, String>),
}

/// Where a session stands: what it waits for.
#[derive(Clone, Copy, Debug, PartialEq, Eq, Structural)]
pub enum Stage {
    Building,
    Installing(usize),
    Describing,
    ReadingFile(usize),
    ParsingFile(usize),
    ReadingStdin,
    ParsingStdin,
    ParsingSource(usize),
    Finished,
}

/// A run of the command in progress.
pub struct Session {
    pub args: CliArgs,
    pub options: Value,
    pub plugins: Vec<(String, PluginSource)>,
    pub stage: Stage,
    pub data: Value,
}

/// `IndexMap`, as the wanted plugins are collected in: keyed by
/// reference, each reference once, in the order first seen.
#[verifier::external_type_specification]
#[verifier::external_body]
#[verifier::reject_recursive_types(K)]
#[verifier::reject_recursive_types(V)]
#[verifier::reject_recursive_types(S)]
pub struct ExIndexMap<K, V, S>(IndexMap<K, V, S>);

// ---------------------------------------------------------------------
// Models
// ---------------------------------------------------------------------

pub enum ActionModel {
    Build(Json, Json),
    Install(SourceModel),
    Describe,
    ReadFile(Seq<char>),
    ReadStdin,
    Parse(Seq<char>),
    Exit(int),
    Fail(Seq<char>),
}

pub struct CommandModel {
    pub print: Seq<Seq<char>>,
    pub action: ActionModel,
}

pub enum EventModel {
    Built(Result<(), Seq<char>>),
    Installed(Result<(), Seq<char>>),
    Described(Seq<char>),
    Read(Result<Seq<char>, Seq<char>>),
    Parsed(Seq<Seq<char>>, Result<Option<Seq<char>>, Seq<char>>),
}

pub struct SessionModel {
    pub args: ArgsModel,
    pub options: Json,
    pub plugins: Seq<(Seq<char>, SourceModel)>,
    pub stage: Stage,
    pub data: Json,
}

impl View for Action {
    type V = ActionModel;

    open spec fn view(&self) -> ActionModel {
        match self {
            Action::Build(options, meta) => ActionModel::Build(options@, meta@),
            Action::Install(source) => ActionModel::Install(source@),
            Action::Describe => ActionModel::Describe,
            Action::ReadFile(path) => ActionModel::ReadFile(path@),
            Action::ReadStdin => ActionModel::ReadStdin,
            Action::Parse(source) => ActionModel::Parse(source@),
            Action::Exit(code) => ActionModel::Exit(*code as int),
            Action::Fail(report) => ActionModel::Fail(report@),
        }
    }
}

impl View for Command {
    type V = CommandModel;

    open spec fn view(&self) -> CommandModel {
        CommandModel { print: strings_view(self.print@), action: self.action@ }
    }
}

pub open spec fn unit_result_view(r: Result<(), String>) -> Result<(), Seq<char>> {
    match r {
        Ok(()) => Ok(()),
        Err(report) => Err(report@),
    }
}

pub open spec fn text_result_view(r: Result<String, String>) -> Result<Seq<char>, Seq<char>> {
    match r {
        Ok(text) => Ok(text@),
        Err(report) => Err(report@),
    }
}

impl View for Event {
    type V = EventModel;

    open spec fn view(&self) -> EventModel {
        match self {
            Event::Built(r) => EventModel::Built(unit_result_view(*r)),
            Event::Installed(r) => EventModel::Installed(unit_result_view(*r)),
            Event::Described(text) => EventModel::Described(text@),
            Event::Read(r) => EventModel::Read(text_result_view(*r)),
            Event::Parsed(trace, outcome) => EventModel::Parsed(
                strings_view(trace@),
                outcome_view(*outcome),
            ),
        }
    }
}

pub open spec fn plugins_view(plugins: Seq<(String, PluginSource)>) -> Seq<(Seq<char>, SourceModel)> {
    Seq::new(plugins.len(), |i: int| (plugins[i].0@, plugins[i].1@))
}

/// The entries a map of wanted plugins holds, in order.
pub uninterp spec fn wanted_entries(map: IndexMap<String, PluginSource>) -> Seq<(Seq<char>, SourceModel)>;

impl View for Session {
    type V = SessionModel;

    open spec fn view(&self) -> SessionModel {
        SessionModel {
            args: self.args@,
            options: self.options@,
            plugins: plugins_view(self.plugins@),
            stage: self.stage,
            data: self.data@,
        }
    }
}

impl Session {
    /// The option bag is a well-formed object, the merged data is well
    /// formed, and a plugin or file position the session waits on is in
    /// range.
    pub open spec fn wf(&self) -> bool {
        &&& self.options@ is Object
        &&& self.options@.wf()
        &&& self.data@.wf()
        &&& match self.stage {
            Stage::Installing(i) => i < self.plugins@.len(),
            Stage::ReadingFile(i) => i < self.args.files@.len(),
            Stage::ParsingFile(i) => i < self.args.files@.len(),
            Stage::ParsingSource(k) => k < self.args.sources@.len(),
            _ => true,
        }
    }
}

// ---------------------------------------------------------------------
// The rules
// ---------------------------------------------------------------------

/// `debug`: the reference `--debug`'s plugin is listed under.
pub open spec fn debug_ref() -> Seq<char> {
    seq!['d', 'e', 'b', 'u', 'g']
}

/// `Plugin not found: <name>`.
pub open spec fn not_found(name: Seq<char>) -> Seq<char> {
    seq![
        'P', 'l', 'u', 'g', 'i', 'n', ' ', 'n', 'o', 't', ' ', 'f', 'o', 'u', 'n', 'd', ':', ' ',
    ] + name
}

/// `\n=== PARSE ===`, which follows the grammar description.
pub open spec fn parse_marker() -> Seq<char> {
    seq!['\n', '=', '=', '=', ' ', 'P', 'A', 'R', 'S', 'E', ' ', '=', '=', '=']
}

/// The report for an event that does not answer what the session asked.
pub open spec fn out_of_turn() -> Seq<char> {
    seq![
        'u', 'n', 'e', 'x', 'p', 'e', 'c', 't', 'e', 'd', ' ', 'e', 'v', 'e', 'n', 't',
    ]
}

/// Some entry of `list` is listed under `name`.
pub open spec fn ref_listed(list: Seq<(Seq<char>, SourceModel)>, name: Seq<char>) -> bool {
    exists|j: int| 0 <= j < list.len() && #[trigger] list[j].0 == name
}

/// The plugins to install, each under its reference: `--debug`'s tracing
/// plugin first, then each `-p` reference resolved against the registered
/// `names`, a repeated reference kept once at its first position. The
/// first reference that resolves to nothing is the error.
pub open spec fn wanted(debug: bool, refs: Seq<Seq<char>>, names: Seq<Seq<char>>) -> Result<
    Seq<(Seq<char>, SourceModel)>,
    Seq<char>,
>
    decreases refs.len(),
{
    if refs.len() == 0 {
        Ok(
            if debug {
                seq![(debug_ref(), SourceModel::Traced)]
            } else {
                Seq::empty()
            },
        )
    } else {
        match wanted(debug, refs.drop_last(), names) {
            Err(report) => Err(report),
            Ok(list) => match resolve(names, refs.last()) {
                None => Err(not_found(refs.last())),
                Some(i) => if ref_listed(list, refs.last()) {
                    Ok(list)
                } else {
                    Ok(list.push((refs.last(), SourceModel::Registered(i))))
                },
            },
        }
    }
}

/// A session that has stopped.
pub open spec fn stopped(args: ArgsModel) -> SessionModel {
    SessionModel {
        args,
        options: Json::Object(Seq::empty()),
        plugins: Seq::empty(),
        stage: Stage::Finished,
        data: Json::Null,
    }
}

pub open spec fn fail_command(report: Seq<char>) -> CommandModel {
    CommandModel { print: Seq::empty(), action: ActionModel::Fail(report) }
}

/// How a session starts on `argv` with the registered plugin `names`:
/// `--help` prints the usage and exits; otherwise the option bag, the
/// metadata bag and the plugin references are resolved in that order, the
/// first failure is reported, and the engine is built from the option bag
/// without its `JSON` key.
pub open spec fn start_spec(argv: Seq<Seq<char>>, names: Seq<Seq<char>>) -> (
    SessionModel,
    CommandModel,
) {
    let a = parsed_args(argv);
    if a.help {
        (stopped(a), CommandModel { print: seq![HELP@], action: ActionModel::Exit(0) })
    } else {
        match props_bag(a.options) {
            Err(report) => (stopped(a), fail_command(report)),
            Ok(options) => match props_bag(a.meta) {
                Err(report) => (stopped(a), fail_command(report)),
                Ok(meta) => match wanted(a.debug, a.plugins, names) {
                    Err(report) => (stopped(a), fail_command(report)),
                    Ok(plugins) => (
                        SessionModel {
                            args: a,
                            options: Json::Object(options),
                            plugins,
                            stage: Stage::Building,
                            data: Json::Null,
                        },
                        CommandModel {
                            print: Seq::empty(),
                            action: ActionModel::Build(
                                engine_bag(Json::Object(options)),
                                Json::Object(meta),
                            ),
                        },
                    ),
                },
            },
        }
    }
}


/// `(session, command)` with `lines` printed before the command's own.
pub open spec fn printing(lines: Seq<Seq<char>>, step: (SessionModel, CommandModel)) -> (
    SessionModel,
    CommandModel,
) {
    (step.0, CommandModel { print: lines + step.1.print, action: step.1.action })
}

/// Wait at `stage` for what `action` brings.
pub open spec fn ask(s: SessionModel, stage: Stage, action: ActionModel) -> (
    SessionModel,
    CommandModel,
) {
    (
        SessionModel {
            args: s.args,
            options: s.options,
            plugins: s.plugins,
            stage,
            data: s.data,
        },
        CommandModel { print: Seq::empty(), action },
    )
}

/// The session with `v` merged over its data.
pub open spec fn merged_into(s: SessionModel, v: Json) -> SessionModel {
    SessionModel {
        args: s.args,
        options: s.options,
        plugins: s.plugins,
        stage: s.stage,
        data: deep(s.data, v),
    }
}

/// `replacer`.
pub open spec fn replacer_key() -> Seq<char> {
    seq!['r', 'e', 'p', 'l', 'a', 'c', 'e', 'r']
}

/// `space`.
pub open spec fn space_key() -> Seq<char> {
    seq!['s', 'p', 'a', 'c', 'e']
}

/// The end of a run: the `JSON.replacer` and then the `JSON.space`
/// option are read, either one's report is the failure, and otherwise
/// the merged data is printed with them and the command exits with 0.
pub open spec fn finish(s: SessionModel) -> (SessionModel, CommandModel) {
    let bag = sub_object_of(s.options, crate::args::json_key());
    match json_option_of(bag, replacer_key()) {
        Err(report) => (stopped(s.args), fail_command(report)),
        Ok(replacer) => match json_option_of(bag, space_key()) {
            Err(report) => (stopped(s.args), fail_command(report)),
            Ok(space) => (
                stopped(s.args),
                CommandModel {
                    print: seq![stringify_text(s.data, replacer_of(replacer), space_of(space))],
                    action: ActionModel::Exit(0),
                },
            ),
        },
    }
}

/// Parse the positional sources from the `k`th on, in order, then finish.
pub open spec fn sources_from(s: SessionModel, k: int) -> (SessionModel, CommandModel) {
    if 0 <= k < s.args.sources.len() {
        ask(s, Stage::ParsingSource(k as usize), ActionModel::Parse(s.args.sources[k]))
    } else {
        finish(s)
    }
}

/// After the files: standard input when there is no positional source or
/// when `-` was given, then the positional sources.
pub open spec fn after_files(s: SessionModel) -> (SessionModel, CommandModel) {
    if s.args.sources.len() == 0 || s.args.stdin {
        ask(s, Stage::ReadingStdin, ActionModel::ReadStdin)
    } else {
        sources_from(s, 0)
    }
}

/// Read the `--file` paths from the `i`th on, in order, skipping an empty
/// one, then go on to standard input and the sources.
pub open spec fn files_from(s: SessionModel, i: int) -> (SessionModel, CommandModel)
    decreases s.args.files.len() - i,
{
    if i < 0 || i >= s.args.files.len() {
        after_files(s)
    } else if s.args.files[i].len() == 0 {
        files_from(s, i + 1)
    } else {
        ask(s, Stage::ReadingFile(i as usize), ActionModel::ReadFile(s.args.files[i]))
    }
}

/// Install the plugins from the `i`th on, in order; then, when one is
/// listed as `debug`, describe the grammar; then read the inputs.
pub open spec fn install_from(s: SessionModel, i: int) -> (SessionModel, CommandModel) {
    if 0 <= i < s.plugins.len() {
        ask(s, Stage::Installing(i as usize), ActionModel::Install(s.plugins[i].1))
    } else if ref_listed(s.plugins, debug_ref()) {
        ask(s, Stage::Describing, ActionModel::Describe)
    } else {
        files_from(s, 0)
    }
}

/// `<path>: <report>`.
pub open spec fn read_failure(path: Seq<char>, report: Seq<char>) -> Seq<char> {
    path + seq![':', ' '] + report
}

/// A parse outcome at the end of reading one input: the trace is printed,
/// an outcome that is not a value is the failure, and a value is merged
/// over the data before the session goes on as `then` says.
pub open spec fn after_parse(
    s: SessionModel,
    trace: Seq<Seq<char>>,
    outcome: Result<Option<Seq<char>>, Seq<char>>,
    then: spec_fn(SessionModel) -> (SessionModel, CommandModel),
) -> (SessionModel, CommandModel) {
    match outcome_value(outcome) {
        Err(report) => (stopped(s.args), CommandModel { print: trace, action: ActionModel::Fail(report) }),
        Ok(v) => printing(trace, then(merged_into(s, v))),
    }
}

/// What the session does with `e`, the answer to what it last asked.
pub open spec fn answer_spec(s: SessionModel, e: EventModel) -> (SessionModel, CommandModel) {
    match (s.stage, e) {
        (Stage::Building, EventModel::Built(Ok(()))) => install_from(s, 0),
        (Stage::Building, EventModel::Built(Err(report))) => (stopped(s.args), fail_command(report)),
        (Stage::Installing(i), EventModel::Installed(Ok(()))) => install_from(s, i + 1),
        (Stage::Installing(_), EventModel::Installed(Err(report))) => (
            stopped(s.args),
            fail_command(report),
        ),
        (Stage::Describing, EventModel::Described(text)) => printing(
            seq![text + parse_marker()],
            files_from(s, 0),
        ),
        (Stage::ReadingFile(i), EventModel::Read(Ok(text))) => ask(
            s,
            Stage::ParsingFile(i),
            ActionModel::Parse(text),
        ),
        (Stage::ReadingFile(i), EventModel::Read(Err(report))) => (
            stopped(s.args),
            fail_command(read_failure(s.args.files[i as int], report)),
        ),
        (Stage::ParsingFile(i), EventModel::Parsed(trace, outcome)) => after_parse(
            s,
            trace,
            outcome,
            |t: SessionModel| files_from(t, i + 1),
        ),
        (Stage::ReadingStdin, EventModel::Read(Ok(text))) => ask(
            s,
            Stage::ParsingStdin,
            ActionModel::Parse(text),
        ),
        (Stage::ReadingStdin, EventModel::Read(Err(report))) => (
            stopped(s.args),
            fail_command(report),
        ),
        (Stage::ParsingStdin, EventModel::Parsed(trace, outcome)) => after_parse(
            s,
            trace,
            outcome,
            |t: SessionModel| sources_from(t, 0),
        ),
        (Stage::ParsingSource(k), EventModel::Parsed(trace, outcome)) => after_parse(
            s,
            trace,
            outcome,
            |t: SessionModel| sources_from(t, k + 1),
        ),
        _ => (stopped(s.args), fail_command(out_of_turn())),
    }
}


/// Each plugin is listed once: a repeated `-p` reference installs once,
/// at its first position.
pub proof fn lemma_wanted_distinct(debug: bool, refs: Seq<Seq<char>>, names: Seq<Seq<char>>)
    ensures
        wanted(debug, refs, names) matches Ok(list) ==> forall|i: int, j: int|
            0 <= i < j < list.len() ==> #[trigger] list[i].0 != #[trigger] list[j].0,
    decreases refs.len(),
{
    if refs.len() > 0 {
        lemma_wanted_distinct(debug, refs.drop_last(), names);
        if let Ok(list) = wanted(debug, refs.drop_last(), names) {
            if let Some(k) = resolve(names, refs.last()) {
                if !ref_listed(list, refs.last()) {
                    let next = list.push((refs.last(), SourceModel::Registered(k)));
                    assert forall|i: int, j: int| 0 <= i < j < next.len() implies #[trigger] next[i].0
                        != #[trigger] next[j].0 by {
                        if j == list.len() {
                            if next[i].0 == refs.last() {
                                assert(list[i].0 == refs.last());
                            }
                        } else {
                            assert(list[i].0 != list[j].0);
                        }
                    }
                }
            }
        }
    }
}


/// `values` merged in order over `base`, each later one over what came
/// before it.
pub open spec fn merged_all(base: Json, values: Seq<Json>) -> Json
    decreases values.len(),
{
    if values.len() == 0 {
        base
    } else {
        deep(merged_all(base, values.drop_last()), values.last())
    }
}

/// Where a session and its last command stand after each of `events` is
/// answered in turn.
pub open spec fn answer_all(step: (SessionModel, CommandModel), events: Seq<EventModel>) -> (
    SessionModel,
    CommandModel,
)
    decreases events.len(),
{
    if events.len() == 0 {
        step
    } else {
        answer_all(answer_spec(step.0, events[0]), events.drop_first())
    }
}

/// The answers a run of positional sources gets: the engine is built, and
/// each source parses, with no trace, to the JSON text in `texts`.
pub open spec fn parse_answers(texts: Seq<Seq<char>>) -> Seq<EventModel> {
    Seq::new(texts.len(), |k: int| EventModel::Parsed(Seq::empty(), Ok(Some(texts[k]))))
}

/// The session `s` with `data` in place of its own.
pub open spec fn with_data(s: SessionModel, data: Json) -> SessionModel {
    SessionModel { args: s.args, options: s.options, plugins: s.plugins, stage: s.stage, data }
}

proof fn lemma_merged_all_step(base: Json, values: Seq<Json>, k: int)
    requires
        0 <= k < values.len(),
    ensures
        merged_all(base, values.take(k + 1)) == deep(merged_all(base, values.take(k)), values[k]),
{
    assert(values.take(k + 1).drop_last() =~= values.take(k));
}

proof fn lemma_merged_all_front(base: Json, v: Json, values: Seq<Json>)
    ensures
        merged_all(base, seq![v] + values) == merged_all(deep(base, v), values),
    decreases values.len(),
{
    if values.len() == 0 {
        assert(seq![v] + values =~= seq![v]);
        assert(seq![v].drop_last() =~= Seq::<Json>::empty());
        assert(merged_all(base, Seq::<Json>::empty()) == base);
        assert(merged_all(deep(base, v), values) == deep(base, v));
        assert(merged_all(base, seq![v]) == deep(merged_all(base, seq![v].drop_last()), seq![v].last()));
    } else {
        assert((seq![v] + values).drop_last() =~= seq![v] + values.drop_last());
        assert((seq![v] + values).last() == values.last());
        lemma_merged_all_front(base, v, values.drop_last());
    }
}

proof fn lemma_merged_all_concat(base: Json, first: Seq<Json>, second: Seq<Json>)
    ensures
        merged_all(base, first + second) == merged_all(merged_all(base, first), second),
    decreases second.len(),
{
    if second.len() == 0 {
        assert(first + second =~= first);
    } else {
        assert((first + second).drop_last() =~= first + second.drop_last());
        lemma_merged_all_concat(base, first, second.drop_last());
    }
}

/// What a step printed does not change where later answers lead.
proof fn lemma_answer_all_printing(lines: Seq<Seq<char>>, step: (SessionModel, CommandModel), events: Seq<EventModel>)
    requires
        events.len() > 0,
    ensures
        answer_all(printing(lines, step), events) == answer_all(step, events),
{
}

proof fn lemma_finish_fields(a: SessionModel, b: SessionModel)
    requires
        a.args == b.args,
        a.options == b.options,
        a.data == b.data,
    ensures
        finish(a) == finish(b),
{
}

proof fn lemma_after_files_fields(a: SessionModel, b: SessionModel)
    requires
        a.args == b.args,
        a.options == b.options,
        a.plugins == b.plugins,
        a.data == b.data,
    ensures
        after_files(a) == after_files(b),
{
}

#[verifier::spinoff_prover]
proof fn lemma_sources_tail(
    s: SessionModel,
    c: CommandModel,
    k: int,
    base: Json,
    texts: Seq<Seq<char>>,
    values: Seq<Json>,
)
    requires
        s.args.sources.len() == texts.len(),
        values.len() == texts.len(),
        texts.len() <= usize::MAX,
        0 <= k < texts.len(),
        s.stage == Stage::ParsingSource(k as usize),
        s.data == merged_all(base, values.take(k)),
        forall|j: int| 0 <= j < texts.len() ==> outcome_value(Ok(Some(#[trigger] texts[j]))) == Ok::<Json, Seq<char>>(values[j]),
    ensures
        answer_all((s, c), parse_answers(texts).skip(k)).1 == finish(
            with_data(s, merged_all(base, values)),
        ).1,
    decreases texts.len() - k,
{
    let events = parse_answers(texts).skip(k);
    assert(events[0] == EventModel::Parsed(Seq::empty(), Ok(Some(texts[k]))));
    assert(events.drop_first() =~= parse_answers(texts).skip(k + 1));
    assert(outcome_value(Ok(Some(texts[k]))) == Ok::<Json, Seq<char>>(values[k]));
    lemma_merged_all_step(base, values, k);
    let t = merged_into(s, values[k]);
    assert(t.data == merged_all(base, values.take(k + 1)));
    let next = answer_spec(s, events[0]);
    assert(answer_all((s, c), events) == answer_all(next, events.drop_first()));
    assert(next == printing(Seq::empty(), sources_from(t, k + 1)));
    let m = merged_all(base, values);
    if k + 1 < texts.len() {
        let asked = ask(t, Stage::ParsingSource((k + 1) as usize), ActionModel::Parse(t.args.sources[k + 1]));
        assert(sources_from(t, k + 1) == asked);
        assert(next.0 == asked.0);
        lemma_sources_tail(next.0, next.1, k + 1, base, texts, values);
        assert(next == (next.0, next.1));
        lemma_finish_fields(with_data(next.0, m), with_data(s, m));
    } else {
        assert(values.take(k + 1) =~= values);
        assert(parse_answers(texts).skip(k + 1) =~= Seq::<EventModel>::empty());
        assert(sources_from(t, k + 1) == finish(t));
        let done = finish(t);
        assert(next.1.print =~= done.1.print);
        assert(next.1 == done.1);
        assert(answer_all(next, Seq::<EventModel>::empty()) == next);
        lemma_finish_fields(with_data(s, m), t);
    }
}

/// The positional sources parse in order, each merged over the data.
#[verifier::spinoff_prover]
proof fn lemma_sources_run(s: SessionModel, texts: Seq<Seq<char>>, values: Seq<Json>)
    requires
        s.args.sources.len() == texts.len(),
        values.len() == texts.len(),
        texts.len() <= usize::MAX,
        forall|j: int| 0 <= j < texts.len() ==> outcome_value(Ok(Some(#[trigger] texts[j]))) == Ok::<Json, Seq<char>>(values[j]),
    ensures
        answer_all(sources_from(s, 0), parse_answers(texts)).1 == finish(
            with_data(s, merged_all(s.data, values)),
        ).1,
{
    if texts.len() == 0 {
        assert(parse_answers(texts) =~= Seq::<EventModel>::empty());
        assert(values =~= Seq::<Json>::empty());
        assert(with_data(s, merged_all(s.data, values)) == s);
    } else {
        let step = sources_from(s, 0);
        assert(values.take(0) =~= Seq::<Json>::empty());
        assert(parse_answers(texts).skip(0) =~= parse_answers(texts));
        lemma_sources_tail(step.0, step.1, 0, s.data, texts, values);
        assert(step == (step.0, step.1));
        lemma_finish_fields(with_data(step.0, merged_all(s.data, values)), with_data(s, merged_all(s.data, values)));
    }
}

/// Whether a run reads standard input: when it has no positional source,
/// and when `-` was given.
pub open spec fn reads_stdin(args: ArgsModel) -> bool {
    args.sources.len() == 0 || args.stdin
}

/// The answers to reading standard input, when the run reads it: the
/// text read, then the JSON text it parses to.
pub open spec fn stdin_answers(args: ArgsModel, text: Seq<char>, json: Seq<char>) -> Seq<EventModel> {
    if reads_stdin(args) {
        seq![EventModel::Read(Ok(text)), EventModel::Parsed(Seq::empty(), Ok(Some(json)))]
    } else {
        Seq::empty()
    }
}

/// The value standard input contributes, when the run reads it.
pub open spec fn stdin_values(args: ArgsModel, value: Json) -> Seq<Json> {
    if reads_stdin(args) {
        seq![value]
    } else {
        Seq::empty()
    }
}

#[verifier::spinoff_prover]
proof fn lemma_after_files_run(
    s: SessionModel,
    text: Seq<char>,
    json: Seq<char>,
    value: Json,
    texts: Seq<Seq<char>>,
    values: Seq<Json>,
)
    requires
        s.args.sources.len() == texts.len(),
        values.len() == texts.len(),
        texts.len() <= usize::MAX,
        forall|j: int| 0 <= j < texts.len() ==> outcome_value(Ok(Some(#[trigger] texts[j]))) == Ok::<Json, Seq<char>>(values[j]),
        reads_stdin(s.args) ==> outcome_value(Ok(Some(json))) == Ok::<Json, Seq<char>>(value),
    ensures
        answer_all(after_files(s), stdin_answers(s.args, text, json) + parse_answers(texts)).1
            == finish(with_data(s, merged_all(s.data, stdin_values(s.args, value) + values))).1,
{
    let pa = parse_answers(texts);
    if !reads_stdin(s.args) {
        assert(stdin_answers(s.args, text, json) + pa =~= pa);
        assert(stdin_values(s.args, value) + values =~= values);
        lemma_sources_run(s, texts, values);
    } else {
        let step1 = after_files(s);
        let events = stdin_answers(s.args, text, json) + pa;
        assert(events[0] == EventModel::Read(Ok(text)));
        let step2 = answer_spec(step1.0, events[0]);
        assert(answer_all(step1, events) == answer_all(step2, events.drop_first()));
        let rest = events.drop_first();
        assert(rest[0] == EventModel::Parsed(Seq::empty(), Ok(Some(json))));
        assert(rest.drop_first() =~= pa);
        let step3 = answer_spec(step2.0, rest[0]);
        assert(answer_all(step2, rest) == answer_all(step3, pa));
        let u = merged_into(step2.0, value);
        assert(step3 == printing(Seq::empty(), sources_from(u, 0)));
        lemma_merged_all_front(s.data, value, values);
        assert(stdin_values(s.args, value) + values =~= seq![value] + values);
        let m = merged_all(s.data, seq![value] + values);
        if texts.len() > 0 {
            lemma_answer_all_printing(Seq::empty(), sources_from(u, 0), pa);
            lemma_sources_run(u, texts, values);
            lemma_finish_fields(with_data(u, merged_all(u.data, values)), with_data(s, m));
        } else {
            assert(pa =~= Seq::<EventModel>::empty());
            assert(values =~= Seq::<Json>::empty());
            assert(sources_from(u, 0) == finish(u));
            assert(step3.1.print =~= finish(u).1.print);
            assert(step3.1 == finish(u).1);
            assert(seq![value] + values =~= seq![value]);
            assert(merged_all(s.data, seq![value]) == deep(s.data, value));
            lemma_finish_fields(u, with_data(s, m));
        }
    }
}

/// The answers a run gives while reading its `--file` inputs from the
/// `j`th on: for each path that is not empty, the text read and then the
/// JSON text it parses to.
pub open spec fn file_answers(
    files: Seq<Seq<char>>,
    reads: Seq<Seq<char>>,
    jsons: Seq<Seq<char>>,
    j: int,
) -> Seq<EventModel>
    decreases files.len() - j,
{
    if j < 0 || j >= files.len() {
        Seq::empty()
    } else if files[j].len() == 0 {
        file_answers(files, reads, jsons, j + 1)
    } else {
        seq![EventModel::Read(Ok(reads[j])), EventModel::Parsed(Seq::empty(), Ok(Some(jsons[j])))]
            + file_answers(files, reads, jsons, j + 1)
    }
}

/// The values the `--file` inputs from the `j`th on contribute, in order;
/// an empty path contributes nothing.
pub open spec fn file_values(files: Seq<Seq<char>>, values: Seq<Json>, j: int) -> Seq<Json>
    decreases files.len() - j,
{
    if j < 0 || j >= files.len() {
        Seq::empty()
    } else if files[j].len() == 0 {
        file_values(files, values, j + 1)
    } else {
        seq![values[j]] + file_values(files, values, j + 1)
    }
}

#[verifier::spinoff_prover]
proof fn lemma_files_run(
    s: SessionModel,
    j: int,
    reads: Seq<Seq<char>>,
    jsons: Seq<Seq<char>>,
    values: Seq<Json>,
    rest: Seq<EventModel>,
)
    requires
        0 <= j <= s.args.files.len(),
        s.args.files.len() <= usize::MAX,
        reads.len() == s.args.files.len(),
        jsons.len() == s.args.files.len(),
        values.len() == s.args.files.len(),
        forall|i: int|
            0 <= i < s.args.files.len() && s.args.files[i].len() > 0 ==> outcome_value(
                Ok(Some(#[trigger] jsons[i])),
            ) == Ok::<Json, Seq<char>>(values[i]),
        rest.len() > 0,
    ensures
        answer_all(files_from(s, j), file_answers(s.args.files, reads, jsons, j) + rest) == answer_all(
            after_files(with_data(s, merged_all(s.data, file_values(s.args.files, values, j)))),
            rest,
        ),
    decreases s.args.files.len() - j,
{
    let files = s.args.files;
    if j >= files.len() {
        assert(file_answers(files, reads, jsons, j) + rest =~= rest);
        assert(file_values(files, values, j) =~= Seq::<Json>::empty());
        assert(with_data(s, merged_all(s.data, Seq::<Json>::empty())) == s);
    } else if files[j].len() == 0 {
        lemma_files_run(s, j + 1, reads, jsons, values, rest);
    } else {
        let fa = file_answers(files, reads, jsons, j + 1);
        let events = file_answers(files, reads, jsons, j) + rest;
        let step1 = files_from(s, j);
        assert(step1 == ask(s, Stage::ReadingFile(j as usize), ActionModel::ReadFile(files[j])));
        assert(events[0] == EventModel::Read(Ok(reads[j])));
        let step2 = answer_spec(step1.0, events[0]);
        assert(answer_all(step1, events) == answer_all(step2, events.drop_first()));
        let tail = events.drop_first();
        assert(tail[0] == EventModel::Parsed(Seq::empty(), Ok(Some(jsons[j]))));
        assert(tail.drop_first() =~= fa + rest);
        let step3 = answer_spec(step2.0, tail[0]);
        assert(answer_all(step2, tail) == answer_all(step3, fa + rest));
        let u = merged_into(step2.0, values[j]);
        assert(step3 == printing(Seq::empty(), files_from(u, j + 1)));
        lemma_answer_all_printing(Seq::empty(), files_from(u, j + 1), fa + rest);
        lemma_files_run(u, j + 1, reads, jsons, values, rest);
        lemma_merged_all_front(s.data, values[j], file_values(files, values, j + 1));
        let m = merged_all(s.data, file_values(files, values, j));
        lemma_after_files_fields(
            with_data(u, merged_all(u.data, file_values(files, values, j + 1))),
            with_data(s, m),
        );
    }
}

/// A run without `--help` whose option and metadata values parse and
/// whose plugin references resolve starts by building the engine, and
/// the engine built, it installs its plugins.
proof fn lemma_plain_start(argv: Seq<Seq<char>>, names: Seq<Seq<char>>)
    requires
        !parsed_args(argv).help,
        props_bag(parsed_args(argv).options) is Ok,
        props_bag(parsed_args(argv).meta) is Ok,
        wanted(parsed_args(argv).debug, parsed_args(argv).plugins, names) is Ok,
    ensures
        start_spec(argv, names).0.stage == Stage::Building,
        start_spec(argv, names).0.args == parsed_args(argv),
        start_spec(argv, names).0.data == Json::Null,
        answer_spec(start_spec(argv, names).0, EventModel::Built(Ok(()))) == install_from(
            start_spec(argv, names).0,
            0,
        ),
{
}

/// Installing and describing do not touch what the inputs are read into:
/// where the inputs start depends on the arguments, the options, the
/// plugins and the data alone.
proof fn lemma_files_from_fields(a: SessionModel, b: SessionModel, j: int)
    requires
        a.args == b.args,
        a.options == b.options,
        a.plugins == b.plugins,
        a.data == b.data,
    ensures
        files_from(a, j) == files_from(b, j),
    decreases a.args.files.len() - j,
{
    if 0 <= j < a.args.files.len() && a.args.files[j].len() == 0 {
        lemma_files_from_fields(a, b, j + 1);
    }
}

/// The answers to installing `count` plugins, each installed.
pub open spec fn install_answers(count: nat) -> Seq<EventModel> {
    Seq::new(count, |i: int| EventModel::Installed(Ok(())))
}

/// The answer to describing the grammar, when a plugin is listed as
/// `debug`.
pub open spec fn describe_answers(plugins: Seq<(Seq<char>, SourceModel)>, text: Seq<char>) -> Seq<
    EventModel,
> {
    if ref_listed(plugins, debug_ref()) {
        seq![EventModel::Described(text)]
    } else {
        Seq::empty()
    }
}

#[verifier::spinoff_prover]
proof fn lemma_install_run(s: SessionModel, i: int, text: Seq<char>, rest: Seq<EventModel>)
    requires
        0 <= i <= s.plugins.len(),
        s.plugins.len() <= usize::MAX,
        rest.len() > 0,
    ensures
        answer_all(
            install_from(s, i),
            install_answers((s.plugins.len() - i) as nat) + describe_answers(s.plugins, text) + rest,
        ) == answer_all(files_from(s, 0), rest),
    decreases s.plugins.len() - i,
{
    let n = s.plugins.len();
    let da = describe_answers(s.plugins, text);
    if i < n {
        let step = install_from(s, i);
        assert(step == ask(s, Stage::Installing(i as usize), ActionModel::Install(s.plugins[i].1)));
        let events = install_answers((n - i) as nat) + da + rest;
        assert(events[0] == EventModel::Installed(Ok(())));
        assert(events.drop_first() =~= install_answers((n - i - 1) as nat) + da + rest);
        let next = answer_spec(step.0, events[0]);
        assert(next == install_from(step.0, i + 1));
        lemma_install_run(step.0, i + 1, text, rest);
        lemma_files_from_fields(step.0, s, 0);
    } else {
        assert(install_answers(0) =~= Seq::<EventModel>::empty());
        if ref_listed(s.plugins, debug_ref()) {
            let step = ask(s, Stage::Describing, ActionModel::Describe);
            assert(install_from(s, i) == step);
            let events = install_answers(0) + da + rest;
            assert(events[0] == EventModel::Described(text));
            assert(events.drop_first() =~= rest);
            let next = answer_spec(step.0, events[0]);
            assert(next == printing(seq![text + parse_marker()], files_from(step.0, 0)));
            lemma_answer_all_printing(seq![text + parse_marker()], files_from(step.0, 0), rest);
            lemma_files_from_fields(step.0, s, 0);
        } else {
            assert(install_answers(0) + da + rest =~= rest);
        }
    }
}

/// Once the engine is built, a run installs its plugins.
#[verifier::spinoff_prover]
proof fn lemma_after_built(start: (SessionModel, CommandModel), rest: Seq<EventModel>)
    requires
        answer_spec(start.0, EventModel::Built(Ok(()))) == install_from(start.0, 0),
    ensures
        answer_all(start, seq![EventModel::Built(Ok(()))] + rest) == answer_all(install_from(start.0, 0), rest),
{
    let events = seq![EventModel::Built(Ok(()))] + rest;
    assert(events[0] == EventModel::Built(Ok(())));
    assert(events.drop_first() =~= rest);
}

/// Inputs merge in precedence, each later one winning over the ones
/// before it: the `--file` inputs first, in order, then standard input
/// when there is no positional source or `-` was given, then the
/// positional sources, in order. A run whose plugins install and whose
/// inputs all read and parse finishes as it would with the in-order merge
/// of their values as its data, which is what it prints.
#[verifier::spinoff_prover]
pub proof fn lemma_inputs_merge_in_precedence(
    argv: Seq<Seq<char>>,
    names: Seq<Seq<char>>,
    description: Seq<char>,
    reads: Seq<Seq<char>>,
    file_jsons: Seq<Seq<char>>,
    file_vals: Seq<Json>,
    stdin_text: Seq<char>,
    stdin_json: Seq<char>,
    stdin_value: Json,
    texts: Seq<Seq<char>>,
    values: Seq<Json>,
)
    requires
        argv.len() <= usize::MAX,
        !parsed_args(argv).help,
        props_bag(parsed_args(argv).options) is Ok,
        props_bag(parsed_args(argv).meta) is Ok,
        wanted(parsed_args(argv).debug, parsed_args(argv).plugins, names) is Ok,
        reads.len() == parsed_args(argv).files.len(),
        file_jsons.len() == parsed_args(argv).files.len(),
        file_vals.len() == parsed_args(argv).files.len(),
        forall|i: int|
            0 <= i < parsed_args(argv).files.len() && parsed_args(argv).files[i].len() > 0
                ==> outcome_value(Ok(Some(#[trigger] file_jsons[i]))) == Ok::<Json, Seq<char>>(file_vals[i]),
        reads_stdin(parsed_args(argv)) ==> outcome_value(Ok(Some(stdin_json))) == Ok::<Json, Seq<char>>(stdin_value),
        texts.len() == parsed_args(argv).sources.len(),
        values.len() == texts.len(),
        forall|j: int| 0 <= j < texts.len() ==> outcome_value(Ok(Some(#[trigger] texts[j]))) == Ok::<Json, Seq<char>>(values[j]),
    ensures
        answer_all(
            start_spec(argv, names),
            seq![EventModel::Built(Ok(()))] + install_answers(start_spec(argv, names).0.plugins.len())
                + describe_answers(start_spec(argv, names).0.plugins, description)
                + file_answers(parsed_args(argv).files, reads, file_jsons, 0)
                + stdin_answers(parsed_args(argv), stdin_text, stdin_json) + parse_answers(texts),
        ).1 == finish(
            with_data(
                start_spec(argv, names).0,
                merged_all(
                    Json::Null,
                    file_values(parsed_args(argv).files, file_vals, 0) + stdin_values(parsed_args(argv), stdin_value) + values,
                ),
            ),
        ).1,
{
    let a = parsed_args(argv);
    if argv.len() >= 1 {
        crate::args::lemma_scan_sources_len(argv, 1, true, crate::args::empty_args());
        crate::args::lemma_scan_files_len(argv, 1, true, crate::args::empty_args());
        crate::args::lemma_scan_plugins_len(argv, 1, true, crate::args::empty_args());
    }
    let start = start_spec(argv, names);
    lemma_plain_start(argv, names);
    lemma_wanted_len(a.debug, a.plugins, names);
    assert(start == (start.0, start.1));
    lemma_run_after_start(
        start.0,
        start.1,
        description,
        reads,
        file_jsons,
        file_vals,
        stdin_text,
        stdin_json,
        stdin_value,
        texts,
        values,
    );
}

#[verifier::spinoff_prover]
proof fn lemma_run_after_start(
    s0: SessionModel,
    c0: CommandModel,
    description: Seq<char>,
    reads: Seq<Seq<char>>,
    file_jsons: Seq<Seq<char>>,
    file_vals: Seq<Json>,
    stdin_text: Seq<char>,
    stdin_json: Seq<char>,
    stdin_value: Json,
    texts: Seq<Seq<char>>,
    values: Seq<Json>,
)
    requires
        s0.data == Json::Null,
        s0.plugins.len() <= usize::MAX,
        s0.args.sources.len() <= usize::MAX,
        s0.args.files.len() <= usize::MAX,
        answer_spec(s0, EventModel::Built(Ok(()))) == install_from(s0, 0),
        reads.len() == s0.args.files.len(),
        file_jsons.len() == s0.args.files.len(),
        file_vals.len() == s0.args.files.len(),
        forall|i: int|
            0 <= i < s0.args.files.len() && s0.args.files[i].len() > 0
                ==> outcome_value(Ok(Some(#[trigger] file_jsons[i]))) == Ok::<Json, Seq<char>>(file_vals[i]),
        reads_stdin(s0.args) ==> outcome_value(Ok(Some(stdin_json))) == Ok::<Json, Seq<char>>(stdin_value),
        texts.len() == s0.args.sources.len(),
        values.len() == texts.len(),
        forall|j: int| 0 <= j < texts.len() ==> outcome_value(Ok(Some(#[trigger] texts[j]))) == Ok::<Json, Seq<char>>(values[j]),
    ensures
        answer_all(
            (s0, c0),
            seq![EventModel::Built(Ok(()))] + install_answers(s0.plugins.len())
                + describe_answers(s0.plugins, description)
                + file_answers(s0.args.files, reads, file_jsons, 0)
                + stdin_answers(s0.args, stdin_text, stdin_json) + parse_answers(texts),
        ).1 == finish(
            with_data(
                s0,
                merged_all(
                    Json::Null,
                    file_values(s0.args.files, file_vals, 0) + stdin_values(s0.args, stdin_value) + values,
                ),
            ),
        ).1,
{
    let a = s0.args;
    let ia = install_answers(s0.plugins.len());
    let da = describe_answers(s0.plugins, description);
    let fa = file_answers(a.files, reads, file_jsons, 0);
    let sa = stdin_answers(a, stdin_text, stdin_json);
    let pa = parse_answers(texts);
    assert(seq![EventModel::Built(Ok(()))] + ia + da + fa + sa + pa =~= seq![EventModel::Built(Ok(()))] + (ia + da + (fa + (sa + pa))));
    lemma_after_built((s0, c0), ia + da + (fa + (sa + pa)));
    assert((sa + pa).len() > 0) by {
        if !reads_stdin(a) {
            assert(pa.len() == texts.len());
        }
    }
    assert(ia + da + (fa + (sa + pa)) =~= install_answers((s0.plugins.len() - 0) as nat) + da + (fa + (sa + pa)));
    lemma_install_run(s0, 0, description, fa + (sa + pa));
    lemma_files_run(s0, 0, reads, file_jsons, file_vals, sa + pa);
    let fv = file_values(a.files, file_vals, 0);
    let s1 = with_data(s0, merged_all(s0.data, fv));
    lemma_after_files_run(s1, stdin_text, stdin_json, stdin_value, texts, values);
    let sv = stdin_values(a, stdin_value);
    lemma_merged_all_concat(Json::Null, fv, sv + values);
    assert(fv + sv + values =~= fv + (sv + values));
    lemma_finish_fields(
        with_data(s1, merged_all(s1.data, sv + values)),
        with_data(s0, merged_all(Json::Null, fv + sv + values)),
    );
}

/// The plugin list has at most one entry per reference, plus the traced
/// one.
proof fn lemma_wanted_len(debug: bool, refs: Seq<Seq<char>>, names: Seq<Seq<char>>)
    ensures
        wanted(debug, refs, names) matches Ok(list) ==> list.len() <= refs.len() + 1,
    decreases refs.len(),
{
    if refs.len() > 0 {
        lemma_wanted_len(debug, refs.drop_last(), names);
    }
}

// ---------------------------------------------------------------------
// Small executable helpers
// ---------------------------------------------------------------------

/// `a` followed by `b`.
fn joined(a: &str, b: &str) -> (r: String)
    ensures
        r@ == a@ + b@,
{
    let mut out = crate::text::chars_of(a);
    crate::text::push_str(&mut out, b);
    crate::text::string_of(&out)
}

fn listed(list: &Vec<(String, PluginSource)>, name: &String) -> (r: bool)
    ensures
        r == ref_listed(plugins_view(list@), name@),
{
    let ghost pv = plugins_view(list@);
    let mut i: usize = 0;
    while i < list.len()
        invariant
            i <= list@.len(),
            pv == plugins_view(list@),
            forall|j: int| 0 <= j < i ==> list@[j].0@ != name@,
        decreases list@.len() - i,
    {
        if list[i].0 == *name {
            assert(pv[i as int].0 == name@);
            return true;
        }
        i = i + 1;
    }
    proof {
        if ref_listed(pv, name@) {
            let j = choose|j: int| 0 <= j < pv.len() && #[trigger] pv[j].0 == name@;
            assert(pv[j].0 == list@[j].0@);
        }
    }
    false
}

/// An empty map of wanted plugins, from `IndexMap::new`.
#[verifier::external_body]
fn wanted_new() -> (r: IndexMap<String, PluginSource>)
    ensures
        wanted_entries(r) == Seq::<(Seq<char>, SourceModel)>::empty(),
{
    IndexMap::new()
}

/// `map.entry(key).or_insert(source)`: a key the map already holds keeps
/// its place and its plugin, and a new one is appended at the end, which
/// is what `IndexMap`'s vacant-entry insert does.
#[verifier::external_body]
fn wanted_keep_first(map: &mut IndexMap<String, PluginSource>, key: String, source: PluginSource)
    ensures
        wanted_entries(*final(map)) == if ref_listed(wanted_entries(*old(map)), key@) {
            wanted_entries(*old(map))
        } else {
            wanted_entries(*old(map)).push((key@, source@))
        },
{
    map.entry(key).or_insert(source);
}

/// The map's entries in order, from `IndexMap::into_iter`.
#[verifier::external_body]
fn wanted_list(map: IndexMap<String, PluginSource>) -> (r: Vec<(String, PluginSource)>)
    ensures
        plugins_view(r@) == wanted_entries(map),
{
    map.into_iter().collect()
}

/// The plugins to install: see [`wanted`].
fn wanted_plugins(debug: bool, refs: &Vec<String>, names: &Vec<String>) -> (r: Result<
    Vec<(String, PluginSource)>,
    String,
>)
    ensures
        match (r, wanted(debug, strings_view(refs@), strings_view(names@))) {
            (Ok(list), Ok(expected)) => plugins_view(list@) == expected,
            (Err(m), Err(report)) => m@ == report,
            _ => false,
        },
{
    let ghost rv = strings_view(refs@);
    let ghost nv = strings_view(names@);
    let mut map = wanted_new();
    if debug {
        let name = String::from_str("debug");
        proof {
            reveal_strlit("debug");
        }
        assert(name@ =~= debug_ref());
        wanted_keep_first(&mut map, name, PluginSource::Traced);
        assert(!ref_listed(Seq::<(Seq<char>, SourceModel)>::empty(), debug_ref()));
        assert(wanted_entries(map) =~= seq![(debug_ref(), SourceModel::Traced)]);
    }
    assert(rv.take(0) =~= Seq::<Seq<char>>::empty());
    assert(wanted_entries(map) =~= (if debug {
        seq![(debug_ref(), SourceModel::Traced)]
    } else {
        Seq::empty()
    }));
    let mut i: usize = 0;
    while i < refs.len()
        invariant
            i <= refs@.len(),
            rv == strings_view(refs@),
            nv == strings_view(names@),
            wanted(debug, rv.take(i as int), nv) == Ok::<Seq<(Seq<char>, SourceModel)>, Seq<char>>(
                wanted_entries(map),
            ),
        decreases refs@.len() - i,
    {
        assert(rv.take(i + 1).drop_last() =~= rv.take(i as int));
        assert(rv.take(i + 1).last() == refs@[i as int]@);
        let name = &refs[i];
        match lookup(names, name) {
            None => {
                let report = joined("Plugin not found: ", name.as_str());
                proof {
                    reveal_strlit("Plugin not found: ");
                    lemma_wanted_err(debug, rv, nv, i + 1);
                    assert(rv.take(refs@.len() as int) =~= rv);
                }
                assert(report@ =~= not_found(name@));
                return Err(report);
            },
            Some(at) => {
                wanted_keep_first(&mut map, name.clone(), PluginSource::Registered(at));
            },
        }
        i = i + 1;
    }
    assert(rv.take(refs@.len() as int) =~= rv);
    Ok(wanted_list(map))
}

proof fn lemma_wanted_err(debug: bool, refs: Seq<Seq<char>>, names: Seq<Seq<char>>, k: int)
    requires
        0 <= k <= refs.len(),
        wanted(debug, refs.take(k), names) is Err,
    ensures
        wanted(debug, refs, names) == wanted(debug, refs.take(k), names),
    decreases refs.len() - k,
{
    if k < refs.len() {
        assert(refs.take(k + 1).drop_last() =~= refs.take(k));
        lemma_wanted_err(debug, refs, names, k + 1);
    } else {
        assert(refs.take(k) =~= refs);
    }
}

impl Session {
    fn stopped(args: CliArgs) -> (s: Session)
        ensures
            s@ == stopped(args@),
            s.wf(),
    {
        let empty: Vec<(String, Value)> = Vec::new();
        assert(crate::value::entry_models(empty@) =~= Seq::<(Seq<char>, Json)>::empty());
        let s = Session {
            args,
            options: Value::Object(empty),
            plugins: Vec::new(),
            stage: Stage::Finished,
            data: Value::Null,
        };
        assert(plugins_view(s.plugins@) =~= Seq::<(Seq<char>, SourceModel)>::empty());
        s
    }

    fn failing(report: String) -> (c: Command)
        ensures
            c@ == fail_command(report@),
    {
        let c = Command { print: Vec::new(), action: Action::Fail(report) };
        assert(strings_view(c.print@) =~= Seq::<Seq<char>>::empty());
        c
    }

    /// Start a session on `argv` (the program name first) with the
    /// registered plugin `names`: see [`start_spec`].
    pub fn start(argv: &Vec<String>, names: &Vec<String>) -> (r: (Session, Command))
        ensures
            (r.0@, r.1@) == start_spec(strings_view(argv@), strings_view(names@)),
            r.0.wf(),
            r.1.action matches Action::Build(options, meta) ==> options@.wf() && meta@.wf(),
    {
        let args = parse_args(argv);
        if args.help {
            let help = String::from_str(HELP);
            let print = vec![help];
            assert(strings_view(print@) =~= seq![HELP@]);
            return (Session::stopped(args), Command { print, action: Action::Exit(0) });
        }
        let options = match handle_props(&args.options) {
            Ok(bag) => bag,
            Err(report) => {
                return (Session::stopped(args), Session::failing(report));
            },
        };
        let meta = match handle_props(&args.meta) {
            Ok(bag) => bag,
            Err(report) => {
                return (Session::stopped(args), Session::failing(report));
            },
        };
        let plugins = match wanted_plugins(args.debug, &args.plugins, names) {
            Ok(list) => list,
            Err(report) => {
                return (Session::stopped(args), Session::failing(report));
            },
        };
        let engine = engine_options(&options);
        let session = Session { args, options, plugins, stage: Stage::Building, data: Value::Null };
        let command = Command { print: Vec::new(), action: Action::Build(engine, meta) };
        assert(strings_view(command.print@) =~= Seq::<Seq<char>>::empty());
        (session, command)
    }
}


impl Session {
    /// Stop: the session keeps its arguments and nothing else.
    fn stop(&mut self)
        ensures
            final(self)@ == stopped(old(self)@.args),
            final(self).wf(),
    {
        let empty: Vec<(String, Value)> = Vec::new();
        assert(crate::value::entry_models(empty@) =~= Seq::<(Seq<char>, Json)>::empty());
        self.options = Value::Object(empty);
        self.plugins = Vec::new();
        self.stage = Stage::Finished;
        self.data = Value::Null;
        assert(plugins_view(self.plugins@) =~= Seq::<(Seq<char>, SourceModel)>::empty());
    }

    fn stop_failing(&mut self, report: String) -> (c: Command)
        ensures
            (final(self)@, c@) == (stopped(old(self)@.args), fail_command(report@)),
            final(self).wf(),
    {
        self.stop();
        Session::failing(report)
    }

    fn ask(&mut self, stage: Stage, action: Action) -> (c: Command)
        ensures
            (final(self)@, c@) == ask(old(self)@, stage, action@),
            final(self).args == old(self).args,
            final(self).options == old(self).options,
            final(self).plugins == old(self).plugins,
            final(self).data == old(self).data,
    {
        self.stage = stage;
        let c = Command { print: Vec::new(), action };
        assert(strings_view(c.print@) =~= Seq::<Seq<char>>::empty());
        c
    }

    fn finish(&mut self) -> (c: Command)
        requires
            old(self).wf(),
        ensures
            (final(self)@, c@) == finish(old(self)@),
            final(self).wf(),
    {
        let json_name = String::from_str("JSON");
        let replacer_name = String::from_str("replacer");
        let space_name = String::from_str("space");
        proof {
            reveal_strlit("JSON");
            reveal_strlit("replacer");
            reveal_strlit("space");
        }
        assert(json_name@ =~= crate::args::json_key());
        assert(replacer_name@ =~= replacer_key());
        assert(space_name@ =~= space_key());
        let bag = sub_object(&self.options, json_name.as_str());
        let replacer = match json_option(bag, replacer_name.as_str()) {
            Ok(value) => parse_replacer(value.as_ref()),
            Err(report) => {
                return self.stop_failing(report);
            },
        };
        let space = match json_option(bag, space_name.as_str()) {
            Ok(value) => parse_space(value.as_ref()),
            Err(report) => {
                return self.stop_failing(report);
            },
        };
        let text = json_text(&self.data, &replacer, space.as_str());
        let print = vec![text];
        assert(strings_view(print@) =~= seq![text@]);
        self.stop();
        Command { print, action: Action::Exit(0) }
    }

    fn sources_from(&mut self, k: usize) -> (c: Command)
        requires
            old(self).wf(),
        ensures
            (final(self)@, c@) == sources_from(old(self)@, k as int),
            final(self).wf(),
    {
        if k < self.args.sources.len() {
            let source = self.args.sources[k].clone();
            self.ask(Stage::ParsingSource(k), Action::Parse(source))
        } else {
            self.finish()
        }
    }

    fn after_files(&mut self) -> (c: Command)
        requires
            old(self).wf(),
        ensures
            (final(self)@, c@) == after_files(old(self)@),
            final(self).wf(),
    {
        if self.args.sources.len() == 0 || self.args.stdin {
            self.ask(Stage::ReadingStdin, Action::ReadStdin)
        } else {
            self.sources_from(0)
        }
    }

    fn files_from(&mut self, i: usize) -> (c: Command)
        requires
            old(self).wf(),
        ensures
            (final(self)@, c@) == files_from(old(self)@, i as int),
            final(self).wf(),
    {
        let ghost s0 = self@;
        let mut at = i;
        while at < self.args.files.len() && self.args.files[at].as_str().unicode_len() == 0
            invariant
                self@ == s0,
                self.wf(),
                files_from(s0, i as int) == files_from(s0, at as int),
            decreases self.args.files@.len() - at,
        {
            at = at + 1;
        }
        if at < self.args.files.len() {
            let path = self.args.files[at].clone();
            self.ask(Stage::ReadingFile(at), Action::ReadFile(path))
        } else {
            self.after_files()
        }
    }

    fn install_from(&mut self, i: usize) -> (c: Command)
        requires
            old(self).wf(),
        ensures
            (final(self)@, c@) == install_from(old(self)@, i as int),
            final(self).wf(),
    {
        if i < self.plugins.len() {
            let source = self.plugins[i].1;
            self.ask(Stage::Installing(i), Action::Install(source))
        } else {
            let debug = String::from_str("debug");
            proof {
                reveal_strlit("debug");
            }
            assert(debug@ =~= debug_ref());
            if listed(&self.plugins, &debug) {
                self.ask(Stage::Describing, Action::Describe)
            } else {
                self.files_from(0)
            }
        }
    }

    /// Merge the parsed value over the data, or stop on the outcome's
    /// report; the trace is printed either way.
    fn take_outcome(&mut self, trace: &Vec<String>, outcome: Result<Option<String>, String>) -> (r: Option<Command>)
        requires
            old(self).wf(),
        ensures
            final(self).wf(),
            match outcome_value(outcome_view(outcome)) {
                Err(report) => r matches Some(c) && final(self)@ == stopped(old(self)@.args) && c@ == (
                CommandModel { print: strings_view(trace@), action: ActionModel::Fail(report) }),
                Ok(v) => r is None && final(self)@ == merged_into(old(self)@, v),
            },
    {
        match value_from_outcome(outcome) {
            Ok(v) => {
                proof {
                    lemma_deep_wf(self.data@, v@);
                }
                let mut base = Value::Null;
                std::mem::swap(&mut base, &mut self.data);
                self.data = merge(base, v);
                None
            },
            Err(report) => {
                self.stop();
                Some(Command { print: trace.clone(), action: Action::Fail(report) })
            },
        }
    }

    /// What the session does with `event`: see [`answer_spec`].
    pub fn answer(&mut self, event: Event) -> (c: Command)
        requires
            old(self).wf(),
        ensures
            (final(self)@, c@) == answer_spec(old(self)@, event@),
            final(self).wf(),
    {
        let _plugins = self.plugins.len();
        let _files = self.args.files.len();
        let _sources = self.args.sources.len();
        match (self.stage, event) {
            (Stage::Building, Event::Built(Ok(()))) => self.install_from(0),
            (Stage::Installing(i), Event::Installed(Ok(()))) => self.install_from(i + 1),
            (Stage::Building, Event::Built(Err(report))) => self.stop_failing(report),
            (Stage::Installing(_), Event::Installed(Err(report))) => self.stop_failing(report),
            (Stage::Describing, Event::Described(text)) => {
                let header = joined(text.as_str(), "\n=== PARSE ===");
                proof {
                    reveal_strlit("\n=== PARSE ===");
                }
                assert(header@ =~= text@ + parse_marker());
                let next = self.files_from(0);
                let mut lines: Vec<String> = Vec::new();
                lines.push(header);
                assert(strings_view(lines@) =~= seq![text@ + parse_marker()]);
                prepend(lines, next)
            },
            (Stage::ReadingFile(i), Event::Read(Ok(text))) => self.ask(Stage::ParsingFile(i), Action::Parse(text)),
            (Stage::ReadingFile(i), Event::Read(Err(report))) => {
                let path = self.args.files[i].clone();
                let head = joined(path.as_str(), ": ");
                proof {
                    reveal_strlit(": ");
                }
                let message = joined(head.as_str(), report.as_str());
                assert(message@ =~= read_failure(path@, report@));
                self.stop_failing(message)
            },
            (Stage::ReadingStdin, Event::Read(Ok(text))) => self.ask(Stage::ParsingStdin, Action::Parse(text)),
            (Stage::ReadingStdin, Event::Read(Err(report))) => self.stop_failing(report),
            (Stage::ParsingFile(i), Event::Parsed(trace, outcome)) => {
                match self.take_outcome(&trace, outcome) {
                    Some(c) => c,
                    None => {
                        let next = self.files_from(i + 1);
                        prepend(trace, next)
                    },
                }
            },
            (Stage::ParsingStdin, Event::Parsed(trace, outcome)) => {
                match self.take_outcome(&trace, outcome) {
                    Some(c) => c,
                    None => {
                        let next = self.sources_from(0);
                        prepend(trace, next)
                    },
                }
            },
            (Stage::ParsingSource(k), Event::Parsed(trace, outcome)) => {
                match self.take_outcome(&trace, outcome) {
                    Some(c) => c,
                    None => {
                        let next = self.sources_from(k + 1);
                        prepend(trace, next)
                    },
                }
            },
            _ => {
                let report = String::from_str("unexpected event");
                proof {
                    reveal_strlit("unexpected event");
                }
                assert(report@ =~= out_of_turn());
                self.stop_failing(report)
            },
        }
    }
}

/// `lines` printed before `c`'s own lines.
fn prepend(lines: Vec<String>, c: Command) -> (r: Command)
    ensures
        r@ == (CommandModel { print: strings_view(lines@) + c@.print, action: c@.action }),
{
    let mut print = lines;
    let ghost head = strings_view(print@);
    let mut rest = c.print;
    let ghost tail = strings_view(rest@);
    print.append(&mut rest);
    assert(strings_view(print@) =~= head + tail);
    Command { print, action: c.action }
}


/// What one captured run produced: the exit code, what went to standard
/// output as one entry per printed line, and what went to standard error.
#[derive(Clone, Debug, PartialEq, Eq)]
pub struct Captured {
    /// The process exit code.
    pub code: i32,
    /// What went to standard output, one entry per printed call.
    pub lines: Vec<String>,
    /// What went to standard error.
    pub stderr: String,
}

impl Default for Captured {
    fn default() -> (r: Captured)
        ensures
            r.code == 0,
            r.lines@.len() == 0,
            r.stderr@.len() == 0,
    {
        Captured { code: 0, lines: Vec::new(), stderr: String::new() }
    }
}

impl Captured {
    /// The first printed entry, or the empty string when nothing was
    /// printed.
    pub fn first(&self) -> (r: &str)
        ensures
            r@ == if self.lines@.len() == 0 {
                Seq::<char>::empty()
            } else {
                self.lines@[0]@
            },
    {
        if self.lines.len() == 0 {
            let empty = "";
            proof {
                reveal_strlit("");
            }
            assert(empty@ =~= Seq::<char>::empty());
            empty
        } else {
            self.lines[0].as_str()
        }
    }

    /// The last printed entry: the JSON result, after any debug trace.
    pub fn last(&self) -> (r: &str)
        ensures
            r@ == if self.lines@.len() == 0 {
                Seq::<char>::empty()
            } else {
                self.lines@.last()@
            },
    {
        let n = self.lines.len();
        if n == 0 {
            let empty = "";
            proof {
                reveal_strlit("");
            }
            assert(empty@ =~= Seq::<char>::empty());
            empty
        } else {
            self.lines[n - 1].as_str()
        }
    }
}

} // verus!
