//! Argument parsing and the dotted-path property bags behind `-o` and
//! `-m`.

use vstd::prelude::*;

use crate::engine::{parse_relaxed, relaxed_value};
use crate::merge::{find_key, key_index, lemma_key_index};
use crate::value::{entry_models, keys_unique, lemma_entry_models, Json, Value};

verus! {

/// The parsed command line.
pub struct CliArgs {
    pub help: bool,
    pub stdin: bool,
    pub debug: bool,
    pub sources: Vec<String>,
    pub files: Vec<String>,
    pub options: Vec<String>,
    pub meta: Vec<String>,
    pub plugins: Vec<String>,
}

/// A parsed command line as the contracts see it.
#[verifier::ext_equal]
pub struct ArgsModel {
    pub help: bool,
    pub stdin: bool,
    pub debug: bool,
    pub sources: Seq<Seq<char>>,
    pub files: Seq<Seq<char>>,
    pub options: Seq<Seq<char>>,
    pub meta: Seq<Seq<char>>,
    pub plugins: Seq<Seq<char>>,
}

pub open spec fn strings_view(v: Seq<String>) -> Seq<Seq<char>> {
    Seq::new(v.len(), |i: int| v[i]@)
}

impl View for CliArgs {
    type V = ArgsModel;

    open spec fn view(&self) -> ArgsModel {
        ArgsModel {
            help: self.help,
            stdin: self.stdin,
            debug: self.debug,
            sources: strings_view(self.sources@),
            files: strings_view(self.files@),
            options: strings_view(self.options@),
            meta: strings_view(self.meta@),
            plugins: strings_view(self.plugins@),
        }
    }
}

/// What one argument is to the argument loop. Only the exact spellings
/// are flags.
pub enum Flag {
    Stdin,
    End,
    File,
    Option,
    Meta,
    Debug,
    Help,
    Plugin,
    Nice,
    Source,
}

pub open spec fn flag_of(arg: Seq<char>) -> Flag {
    if arg == seq!['-'] {
        Flag::Stdin
    } else if arg == seq!['-', '-'] {
        Flag::End
    } else if arg == seq!['-', '-', 'f', 'i', 'l', 'e'] || arg == seq!['-', 'f'] {
        Flag::File
    } else if arg == seq!['-', '-', 'o', 'p', 't', 'i', 'o', 'n'] || arg == seq!['-', 'o'] {
        Flag::Option
    } else if arg == seq!['-', '-', 'm', 'e', 't', 'a'] || arg == seq!['-', 'm'] {
        Flag::Meta
    } else if arg == seq!['-', '-', 'd', 'e', 'b', 'u', 'g'] || arg == seq!['-', 'd'] {
        Flag::Debug
    } else if arg == seq!['-', '-', 'h', 'e', 'l', 'p'] || arg == seq!['-', 'h'] {
        Flag::Help
    } else if arg == seq!['-', '-', 'p', 'l', 'u', 'g', 'i', 'n'] || arg == seq!['-', 'p'] {
        Flag::Plugin
    } else if arg == seq!['-', '-', 'n', 'i', 'c', 'e'] || arg == seq!['-', 'n'] {
        Flag::Nice
    } else {
        Flag::Source
    }
}

/// The metadata `-d` adds: `log=-1`.
pub open spec fn log_meta() -> Seq<char> {
    seq!['l', 'o', 'g', '=', '-', '1']
}

/// The option `-n` adds: `JSON.space=2`.
pub open spec fn nice_option() -> Seq<char> {
    seq!['J', 'S', 'O', 'N', '.', 's', 'p', 'a', 'c', 'e', '=', '2']
}

/// The argument loop from position `i` on, with flags still accepted
/// when `accept` holds, over what `acc` has collected so far: a bare `-`
/// asks for standard input, `--` makes every later argument a source, a
/// value-taking flag takes the argument after it when there is one, and
/// every other argument is a source.
pub open spec fn scan(argv: Seq<Seq<char>>, i: int, accept: bool, acc: ArgsModel) -> ArgsModel
    decreases argv.len() - i,
{
    if i < 0 || i >= argv.len() {
        acc
    } else {
        let arg = argv[i];
        let has_value = i + 1 < argv.len();
        if accept && arg.len() > 0 && arg[0] == '-' {
            match flag_of(arg) {
                Flag::Stdin => scan(argv, i + 1, accept, ArgsModel { stdin: true, ..acc }),
                Flag::End => scan(argv, i + 1, false, acc),
                Flag::File => if has_value {
                    scan(argv, i + 2, accept, ArgsModel { files: acc.files.push(argv[i + 1]), ..acc })
                } else {
                    scan(argv, i + 1, accept, acc)
                },
                Flag::Option => if has_value {
                    scan(
                        argv,
                        i + 2,
                        accept,
                        ArgsModel { options: acc.options.push(argv[i + 1]), ..acc },
                    )
                } else {
                    scan(argv, i + 1, accept, acc)
                },
                Flag::Meta => if has_value {
                    scan(argv, i + 2, accept, ArgsModel { meta: acc.meta.push(argv[i + 1]), ..acc })
                } else {
                    scan(argv, i + 1, accept, acc)
                },
                Flag::Plugin => if has_value {
                    scan(
                        argv,
                        i + 2,
                        accept,
                        ArgsModel { plugins: acc.plugins.push(argv[i + 1]), ..acc },
                    )
                } else {
                    scan(argv, i + 1, accept, acc)
                },
                Flag::Debug => scan(
                    argv,
                    i + 1,
                    accept,
                    ArgsModel { debug: true, meta: acc.meta.push(log_meta()), ..acc },
                ),
                Flag::Help => scan(argv, i + 1, accept, ArgsModel { help: true, ..acc }),
                Flag::Nice => scan(
                    argv,
                    i + 1,
                    accept,
                    ArgsModel { options: acc.options.push(nice_option()), ..acc },
                ),
                Flag::Source => scan(
                    argv,
                    i + 1,
                    accept,
                    ArgsModel { sources: acc.sources.push(arg), ..acc },
                ),
            }
        } else {
            scan(argv, i + 1, accept, ArgsModel { sources: acc.sources.push(arg), ..acc })
        }
    }
}

pub open spec fn empty_args() -> ArgsModel {
    ArgsModel {
        help: false,
        stdin: false,
        debug: false,
        sources: Seq::empty(),
        files: Seq::empty(),
        options: Seq::empty(),
        meta: Seq::empty(),
        plugins: Seq::empty(),
    }
}

/// The command line `argv` (the program name first) parses to.
pub open spec fn parsed_args(argv: Seq<Seq<char>>) -> ArgsModel {
    scan(argv, 1, true, empty_args())
}

/// Whether `text` is exactly `word`.
pub fn text_is(text: &String, word: &[char]) -> (r: bool)
    ensures
        r == (text@ == word@),
{
    let chars = crate::text::chars_of(text.as_str());
    if chars.len() != word.len() {
        return false;
    }
    let mut i: usize = 0;
    while i < chars.len()
        invariant
            i <= chars@.len(),
            chars@.len() == word@.len(),
            chars@ == text@,
            forall|j: int| 0 <= j < i ==> chars@[j] == word@[j],
        decreases chars@.len() - i,
    {
        if chars[i] != word[i] {
            return false;
        }
        i = i + 1;
    }
    assert(chars@ =~= word@);
    true
}

fn flag(arg: &String) -> (r: Flag)
    ensures
        r == flag_of(arg@),
{
    let stdin = ['-'];
    let end = ['-', '-'];
    let file_long = ['-', '-', 'f', 'i', 'l', 'e'];
    let file_short = ['-', 'f'];
    let option_long = ['-', '-', 'o', 'p', 't', 'i', 'o', 'n'];
    let option_short = ['-', 'o'];
    let meta_long = ['-', '-', 'm', 'e', 't', 'a'];
    let meta_short = ['-', 'm'];
    let debug_long = ['-', '-', 'd', 'e', 'b', 'u', 'g'];
    let debug_short = ['-', 'd'];
    let help_long = ['-', '-', 'h', 'e', 'l', 'p'];
    let help_short = ['-', 'h'];
    let plugin_long = ['-', '-', 'p', 'l', 'u', 'g', 'i', 'n'];
    let plugin_short = ['-', 'p'];
    let nice_long = ['-', '-', 'n', 'i', 'c', 'e'];
    let nice_short = ['-', 'n'];
    assert(stdin@ =~= seq!['-']);
    assert(end@ =~= seq!['-', '-']);
    assert(file_long@ =~= seq!['-', '-', 'f', 'i', 'l', 'e']);
    assert(file_short@ =~= seq!['-', 'f']);
    assert(option_long@ =~= seq!['-', '-', 'o', 'p', 't', 'i', 'o', 'n']);
    assert(option_short@ =~= seq!['-', 'o']);
    assert(meta_long@ =~= seq!['-', '-', 'm', 'e', 't', 'a']);
    assert(meta_short@ =~= seq!['-', 'm']);
    assert(debug_long@ =~= seq!['-', '-', 'd', 'e', 'b', 'u', 'g']);
    assert(debug_short@ =~= seq!['-', 'd']);
    assert(help_long@ =~= seq!['-', '-', 'h', 'e', 'l', 'p']);
    assert(help_short@ =~= seq!['-', 'h']);
    assert(plugin_long@ =~= seq!['-', '-', 'p', 'l', 'u', 'g', 'i', 'n']);
    assert(plugin_short@ =~= seq!['-', 'p']);
    assert(nice_long@ =~= seq!['-', '-', 'n', 'i', 'c', 'e']);
    assert(nice_short@ =~= seq!['-', 'n']);
    if text_is(arg, &stdin) {
        Flag::Stdin
    } else if text_is(arg, &end) {
        Flag::End
    } else if text_is(arg, &file_long) || text_is(arg, &file_short) {
        Flag::File
    } else if text_is(arg, &option_long) || text_is(arg, &option_short) {
        Flag::Option
    } else if text_is(arg, &meta_long) || text_is(arg, &meta_short) {
        Flag::Meta
    } else if text_is(arg, &debug_long) || text_is(arg, &debug_short) {
        Flag::Debug
    } else if text_is(arg, &help_long) || text_is(arg, &help_short) {
        Flag::Help
    } else if text_is(arg, &plugin_long) || text_is(arg, &plugin_short) {
        Flag::Plugin
    } else if text_is(arg, &nice_long) || text_is(arg, &nice_short) {
        Flag::Nice
    } else {
        Flag::Source
    }
}

fn string_from(chars: &[char]) -> (s: String)
    ensures
        s@ == chars@,
{
    let mut v: Vec<char> = Vec::new();
    let mut i: usize = 0;
    while i < chars.len()
        invariant
            i <= chars@.len(),
            v@ == chars@.take(i as int),
        decreases chars@.len() - i,
    {
        v.push(chars[i]);
        i = i + 1;
        assert(v@ =~= chars@.take(i as int));
    }
    assert(chars@.take(i as int) =~= chars@);
    crate::text::string_of(&v)
}

proof fn lemma_push_view(v: Seq<String>, s: String)
    ensures
        strings_view(v.push(s)) == strings_view(v).push(s@),
{
    assert(strings_view(v.push(s)) =~= strings_view(v).push(s@));
}

/// Parse `argv` (the program name first), as the `jsonic` command reads
/// its arguments: see [`scan`].
pub fn parse_args(argv: &Vec<String>) -> (r: CliArgs)
    ensures
        r@ == parsed_args(strings_view(argv@)),
{
    let ghost av = strings_view(argv@);
    let mut args = CliArgs {
        help: false,
        stdin: false,
        debug: false,
        sources: Vec::new(),
        files: Vec::new(),
        options: Vec::new(),
        meta: Vec::new(),
        plugins: Vec::new(),
    };
    assert(strings_view(args.sources@) =~= Seq::<Seq<char>>::empty());
    assert(args@ =~= empty_args());
    let mut accept = true;
    let mut i: usize = 1;
    if argv.len() == 0 {
        return args;
    }
    while i < argv.len()
        invariant
            1 <= i <= argv@.len(),
            av == strings_view(argv@),
            parsed_args(av) == scan(av, i as int, accept, args@),
        decreases argv@.len() - i,
    {
        let arg = &argv[i];
        let ghost before = args@;
        let has_value = i + 1 < argv.len();
        assert(av[i as int] == arg@);
        let starts_dash = {
            let chars = crate::text::chars_of(arg.as_str());
            chars.len() > 0 && chars[0] == '-'
        };
        if accept && starts_dash {
            match flag(arg) {
                Flag::Stdin => {
                    args.stdin = true;
                },
                Flag::End => {
                    accept = false;
                },
                Flag::File => {
                    if has_value {
                        i = i + 1;
                        proof { lemma_push_view(args.files@, argv@[i as int]); }
                        args.files.push(argv[i].clone());
                    }
                },
                Flag::Option => {
                    if has_value {
                        i = i + 1;
                        proof { lemma_push_view(args.options@, argv@[i as int]); }
                        args.options.push(argv[i].clone());
                    }
                },
                Flag::Meta => {
                    if has_value {
                        i = i + 1;
                        proof { lemma_push_view(args.meta@, argv@[i as int]); }
                        args.meta.push(argv[i].clone());
                    }
                },
                Flag::Debug => {
                    args.debug = true;
                    let log = string_from(&['l', 'o', 'g', '=', '-', '1']);
                    proof { lemma_push_view(args.meta@, log); }
                    args.meta.push(log);
                },
                Flag::Help => {
                    args.help = true;
                },
                Flag::Plugin => {
                    if has_value {
                        i = i + 1;
                        proof { lemma_push_view(args.plugins@, argv@[i as int]); }
                        args.plugins.push(argv[i].clone());
                    }
                },
                Flag::Nice => {
                    let nice = string_from(
                        &['J', 'S', 'O', 'N', '.', 's', 'p', 'a', 'c', 'e', '=', '2'],
                    );
                    proof { lemma_push_view(args.options@, nice); }
                    args.options.push(nice);
                },
                Flag::Source => {
                    proof { lemma_push_view(args.sources@, *arg); }
                    args.sources.push(arg.clone());
                },
            }
        } else {
            proof { lemma_push_view(args.sources@, *arg); }
            args.sources.push(arg.clone());
        }
        i = i + 1;
    }
    args
}




/// The argument loop makes at most one source of each argument it reads.
pub proof fn lemma_scan_sources_len(argv: Seq<Seq<char>>, i: int, accept: bool, acc: ArgsModel)
    requires
        0 <= i <= argv.len(),
    ensures
        scan(argv, i, accept, acc).sources.len() <= acc.sources.len() + argv.len() - i,
    decreases argv.len() - i,
{
    if i < argv.len() {
        let arg = argv[i];
        let has_value = i + 1 < argv.len();
        if accept && arg.len() > 0 && arg[0] == '-' {
            match flag_of(arg) {
                Flag::Stdin => lemma_scan_sources_len(argv, i + 1, accept, ArgsModel { stdin: true, ..acc }),
                Flag::End => lemma_scan_sources_len(argv, i + 1, false, acc),
                Flag::File => if has_value {
                    lemma_scan_sources_len(argv, i + 2, accept, ArgsModel { files: acc.files.push(argv[i + 1]), ..acc })
                } else {
                    lemma_scan_sources_len(argv, i + 1, accept, acc)
                },
                Flag::Option => if has_value {
                    lemma_scan_sources_len(argv, i + 2, accept, ArgsModel { options: acc.options.push(argv[i + 1]), ..acc })
                } else {
                    lemma_scan_sources_len(argv, i + 1, accept, acc)
                },
                Flag::Meta => if has_value {
                    lemma_scan_sources_len(argv, i + 2, accept, ArgsModel { meta: acc.meta.push(argv[i + 1]), ..acc })
                } else {
                    lemma_scan_sources_len(argv, i + 1, accept, acc)
                },
                Flag::Plugin => if has_value {
                    lemma_scan_sources_len(argv, i + 2, accept, ArgsModel { plugins: acc.plugins.push(argv[i + 1]), ..acc })
                } else {
                    lemma_scan_sources_len(argv, i + 1, accept, acc)
                },
                Flag::Debug => lemma_scan_sources_len(argv, i + 1, accept, ArgsModel { debug: true, meta: acc.meta.push(log_meta()), ..acc }),
                Flag::Help => lemma_scan_sources_len(argv, i + 1, accept, ArgsModel { help: true, ..acc }),
                Flag::Nice => lemma_scan_sources_len(argv, i + 1, accept, ArgsModel { options: acc.options.push(nice_option()), ..acc }),
                Flag::Source => lemma_scan_sources_len(argv, i + 1, accept, ArgsModel { sources: acc.sources.push(arg), ..acc }),
            }
        } else {
            lemma_scan_sources_len(argv, i + 1, accept, ArgsModel { sources: acc.sources.push(arg), ..acc });
        }
    }
}

/// The argument loop takes at most one plugin reference of each argument
/// it reads.
pub proof fn lemma_scan_plugins_len(argv: Seq<Seq<char>>, i: int, accept: bool, acc: ArgsModel)
    requires
        0 <= i <= argv.len(),
    ensures
        scan(argv, i, accept, acc).plugins.len() <= acc.plugins.len() + argv.len() - i,
    decreases argv.len() - i,
{
    if i < argv.len() {
        let arg = argv[i];
        let has_value = i + 1 < argv.len();
        if accept && arg.len() > 0 && arg[0] == '-' {
            match flag_of(arg) {
                Flag::Stdin => lemma_scan_plugins_len(argv, i + 1, accept, ArgsModel { stdin: true, ..acc }),
                Flag::End => lemma_scan_plugins_len(argv, i + 1, false, acc),
                Flag::File => if has_value {
                    lemma_scan_plugins_len(argv, i + 2, accept, ArgsModel { files: acc.files.push(argv[i + 1]), ..acc })
                } else {
                    lemma_scan_plugins_len(argv, i + 1, accept, acc)
                },
                Flag::Option => if has_value {
                    lemma_scan_plugins_len(argv, i + 2, accept, ArgsModel { options: acc.options.push(argv[i + 1]), ..acc })
                } else {
                    lemma_scan_plugins_len(argv, i + 1, accept, acc)
                },
                Flag::Meta => if has_value {
                    lemma_scan_plugins_len(argv, i + 2, accept, ArgsModel { meta: acc.meta.push(argv[i + 1]), ..acc })
                } else {
                    lemma_scan_plugins_len(argv, i + 1, accept, acc)
                },
                Flag::Plugin => if has_value {
                    lemma_scan_plugins_len(argv, i + 2, accept, ArgsModel { plugins: acc.plugins.push(argv[i + 1]), ..acc })
                } else {
                    lemma_scan_plugins_len(argv, i + 1, accept, acc)
                },
                Flag::Debug => lemma_scan_plugins_len(argv, i + 1, accept, ArgsModel { debug: true, meta: acc.meta.push(log_meta()), ..acc }),
                Flag::Help => lemma_scan_plugins_len(argv, i + 1, accept, ArgsModel { help: true, ..acc }),
                Flag::Nice => lemma_scan_plugins_len(argv, i + 1, accept, ArgsModel { options: acc.options.push(nice_option()), ..acc }),
                Flag::Source => lemma_scan_plugins_len(argv, i + 1, accept, ArgsModel { sources: acc.sources.push(arg), ..acc }),
            }
        } else {
            lemma_scan_plugins_len(argv, i + 1, accept, ArgsModel { sources: acc.sources.push(arg), ..acc });
        }
    }
}

/// The argument loop takes at most one file path of each argument it reads.
pub proof fn lemma_scan_files_len(argv: Seq<Seq<char>>, i: int, accept: bool, acc: ArgsModel)
    requires
        0 <= i <= argv.len(),
    ensures
        scan(argv, i, accept, acc).files.len() <= acc.files.len() + argv.len() - i,
    decreases argv.len() - i,
{
    if i < argv.len() {
        let arg = argv[i];
        let has_value = i + 1 < argv.len();
        if accept && arg.len() > 0 && arg[0] == '-' {
            match flag_of(arg) {
                Flag::Stdin => lemma_scan_files_len(argv, i + 1, accept, ArgsModel { stdin: true, ..acc }),
                Flag::End => lemma_scan_files_len(argv, i + 1, false, acc),
                Flag::File => if has_value {
                    lemma_scan_files_len(argv, i + 2, accept, ArgsModel { files: acc.files.push(argv[i + 1]), ..acc })
                } else {
                    lemma_scan_files_len(argv, i + 1, accept, acc)
                },
                Flag::Option => if has_value {
                    lemma_scan_files_len(argv, i + 2, accept, ArgsModel { options: acc.options.push(argv[i + 1]), ..acc })
                } else {
                    lemma_scan_files_len(argv, i + 1, accept, acc)
                },
                Flag::Meta => if has_value {
                    lemma_scan_files_len(argv, i + 2, accept, ArgsModel { meta: acc.meta.push(argv[i + 1]), ..acc })
                } else {
                    lemma_scan_files_len(argv, i + 1, accept, acc)
                },
                Flag::Plugin => if has_value {
                    lemma_scan_files_len(argv, i + 2, accept, ArgsModel { plugins: acc.plugins.push(argv[i + 1]), ..acc })
                } else {
                    lemma_scan_files_len(argv, i + 1, accept, acc)
                },
                Flag::Debug => lemma_scan_files_len(argv, i + 1, accept, ArgsModel { debug: true, meta: acc.meta.push(log_meta()), ..acc }),
                Flag::Help => lemma_scan_files_len(argv, i + 1, accept, ArgsModel { help: true, ..acc }),
                Flag::Nice => lemma_scan_files_len(argv, i + 1, accept, ArgsModel { options: acc.options.push(nice_option()), ..acc }),
                Flag::Source => lemma_scan_files_len(argv, i + 1, accept, ArgsModel { sources: acc.sources.push(arg), ..acc }),
            }
        } else {
            lemma_scan_files_len(argv, i + 1, accept, ArgsModel { sources: acc.sources.push(arg), ..acc });
        }
    }
}


/// The argument loop, from position `i` with flags accepted, reads the
/// `--` at position `j` as a flag: it gets there without passing an
/// earlier `--`, and without `j` being taken as a flag's value.
pub open spec fn reaches_end(argv: Seq<Seq<char>>, i: int, j: int) -> bool
    decreases argv.len() - i,
{
    if i < 0 || i >= argv.len() || i > j {
        false
    } else if i == j {
        argv[i] == seq!['-', '-']
    } else {
        let arg = argv[i];
        if arg.len() > 0 && arg[0] == '-' {
            match flag_of(arg) {
                Flag::End => false,
                Flag::File | Flag::Option | Flag::Meta | Flag::Plugin => if i + 1 < argv.len() {
                    reaches_end(argv, i + 2, j)
                } else {
                    reaches_end(argv, i + 1, j)
                },
                _ => reaches_end(argv, i + 1, j),
            }
        } else {
            reaches_end(argv, i + 1, j)
        }
    }
}

proof fn lemma_reaches_end_bounds(argv: Seq<Seq<char>>, i: int, j: int)
    requires
        reaches_end(argv, i, j),
    ensures
        0 <= i <= j < argv.len(),
    decreases argv.len() - i,
{
    if i < j {
        let arg = argv[i];
        if arg.len() > 0 && arg[0] == '-' {
            match flag_of(arg) {
                Flag::End => {},
                Flag::File | Flag::Option | Flag::Meta | Flag::Plugin => if i + 1 < argv.len() {
                    lemma_reaches_end_bounds(argv, i + 2, j);
                } else {
                    lemma_reaches_end_bounds(argv, i + 1, j);
                },
                _ => lemma_reaches_end_bounds(argv, i + 1, j),
            }
        } else {
            lemma_reaches_end_bounds(argv, i + 1, j);
        }
    }
}

proof fn lemma_scan_to_end(argv: Seq<Seq<char>>, i: int, j: int, acc: ArgsModel)
    requires
        1 <= i,
        reaches_end(argv, i, j),
    ensures
        scan(argv, i, true, acc) == (ArgsModel {
            sources: scan(argv.take(j), i, true, acc).sources + argv.subrange(j + 1, argv.len() as int),
            ..scan(argv.take(j), i, true, acc)
        }),
    decreases argv.len() - i,
{
    lemma_reaches_end_bounds(argv, i, j);
    let pre = argv.take(j);
    if i == j {
        assert(argv[i] == seq!['-', '-']);
        assert(argv[i] != seq!['-']) by {
            assert(argv[i].len() != seq!['-'].len());
        }
        assert(flag_of(argv[i]) is End);
        lemma_after_end(argv, i + 1, acc);
        assert(scan(pre, i, true, acc) == acc);
    } else {
        let arg = argv[i];
        assert(pre[i] == arg);
        assert(i + 1 < argv.len());
        if arg.len() > 0 && arg[0] == '-' {
            match flag_of(arg) {
                Flag::Stdin => lemma_scan_to_end(argv, i + 1, j, ArgsModel { stdin: true, ..acc }),
                Flag::End => {},
                Flag::File => {
                    lemma_reaches_end_bounds(argv, i + 2, j);
                    assert(pre[i + 1] == argv[i + 1]);
                    lemma_scan_to_end(argv, i + 2, j, ArgsModel { files: acc.files.push(argv[i + 1]), ..acc });
                },
                Flag::Option => {
                    lemma_reaches_end_bounds(argv, i + 2, j);
                    assert(pre[i + 1] == argv[i + 1]);
                    lemma_scan_to_end(argv, i + 2, j, ArgsModel { options: acc.options.push(argv[i + 1]), ..acc });
                },
                Flag::Meta => {
                    lemma_reaches_end_bounds(argv, i + 2, j);
                    assert(pre[i + 1] == argv[i + 1]);
                    lemma_scan_to_end(argv, i + 2, j, ArgsModel { meta: acc.meta.push(argv[i + 1]), ..acc });
                },
                Flag::Plugin => {
                    lemma_reaches_end_bounds(argv, i + 2, j);
                    assert(pre[i + 1] == argv[i + 1]);
                    lemma_scan_to_end(argv, i + 2, j, ArgsModel { plugins: acc.plugins.push(argv[i + 1]), ..acc });
                },
                Flag::Debug => lemma_scan_to_end(argv, i + 1, j, ArgsModel { debug: true, meta: acc.meta.push(log_meta()), ..acc }),
                Flag::Help => lemma_scan_to_end(argv, i + 1, j, ArgsModel { help: true, ..acc }),
                Flag::Nice => lemma_scan_to_end(argv, i + 1, j, ArgsModel { options: acc.options.push(nice_option()), ..acc }),
                Flag::Source => lemma_scan_to_end(argv, i + 1, j, ArgsModel { sources: acc.sources.push(arg), ..acc }),
            }
        } else {
            lemma_scan_to_end(argv, i + 1, j, ArgsModel { sources: acc.sources.push(arg), ..acc });
        }
    }
}

/// `--` ends flag parsing: when the argument loop reads the `--` at
/// position `j` as a flag, the command line parses as the arguments
/// before it do, with every argument after it added to the sources,
/// verbatim and in order, and nothing else changed.
pub proof fn lemma_end_of_flags(argv: Seq<Seq<char>>, j: int)
    requires
        reaches_end(argv, 1, j),
    ensures
        parsed_args(argv) == (ArgsModel {
            sources: parsed_args(argv.take(j)).sources + argv.subrange(j + 1, argv.len() as int),
            ..parsed_args(argv.take(j))
        }),
{
    lemma_scan_to_end(argv, 1, j, empty_args());
}

/// Once `--` has stopped flag parsing, every later argument is a source,
/// in order, and nothing else changes.
pub proof fn lemma_after_end(argv: Seq<Seq<char>>, i: int, acc: ArgsModel)
    requires
        0 <= i <= argv.len(),
    ensures
        scan(argv, i, false, acc) == (ArgsModel { sources: acc.sources + argv.subrange(i, argv.len() as int), ..acc }),
    decreases argv.len() - i,
{
    if i < argv.len() {
        let next = ArgsModel { sources: acc.sources.push(argv[i]), ..acc };
        lemma_after_end(argv, i + 1, next);
        assert(next.sources + argv.subrange(i + 1, argv.len() as int) =~= acc.sources
            + argv.subrange(i, argv.len() as int));
    } else {
        assert(acc.sources + argv.subrange(i, argv.len() as int) =~= acc.sources);
    }
}

/// A flag that takes a value, in the last position, takes nothing: the
/// command line parses as if it were not there.
pub proof fn lemma_trailing_value_flag(argv: Seq<Seq<char>>, acc: ArgsModel)
    requires
        argv.len() >= 1,
        argv.last().len() > 0 && argv.last()[0] == '-',
        flag_of(argv.last()) is File || flag_of(argv.last()) is Option || flag_of(argv.last()) is Meta
            || flag_of(argv.last()) is Plugin,
    ensures
        scan(argv, argv.len() - 1, true, acc) == acc,
{
    assert(argv[argv.len() - 1] == argv.last());
    assert(scan(argv, argv.len() as int, true, acc) == acc);
}

/// What the argument loop gathers from `acc` on, put together with what
/// it gathers from nothing: flags set in either stay set, and each list
/// is the one from `acc` followed by the one gathered later.
pub open spec fn joined(a: ArgsModel, r: ArgsModel) -> ArgsModel {
    ArgsModel {
        help: a.help || r.help,
        stdin: a.stdin || r.stdin,
        debug: a.debug || r.debug,
        sources: a.sources + r.sources,
        files: a.files + r.files,
        options: a.options + r.options,
        meta: a.meta + r.meta,
        plugins: a.plugins + r.plugins,
    }
}

proof fn lemma_joined_assoc(a: ArgsModel, b: ArgsModel, c: ArgsModel)
    ensures
        joined(joined(a, b), c) == joined(a, joined(b, c)),
{
    assert(joined(joined(a, b), c) =~= joined(a, joined(b, c)));
}

proof fn lemma_joined_empty(a: ArgsModel)
    ensures
        joined(a, empty_args()) == a,
        joined(empty_args(), a) == a,
{
    assert(joined(a, empty_args()) =~= a);
    assert(joined(empty_args(), a) =~= a);
}

/// The step from `acc` to `next` adds `step` to it; then the rest of the
/// loop run from `next` is the rest run from `acc`'s own start, joined.
proof fn lemma_scan_step_joined(
    argv: Seq<Seq<char>>,
    j: int,
    accept: bool,
    acc: ArgsModel,
    step: ArgsModel,
)
    requires
        forall|a: ArgsModel| #[trigger]
            scan(argv, j, accept, joined(a, step)) == joined(joined(a, step), scan(argv, j, accept, empty_args())),
    ensures
        scan(argv, j, accept, joined(acc, step)) == joined(acc, scan(argv, j, accept, step)),
{
    lemma_joined_empty(step);
    assert(scan(argv, j, accept, joined(empty_args(), step)) == joined(joined(empty_args(), step), scan(argv, j, accept, empty_args())));
    lemma_joined_assoc(acc, step, scan(argv, j, accept, empty_args()));
}

/// The argument loop only adds to what it was given: run from `acc`, it
/// gives `acc` joined with what it gathers when run from nothing.
pub proof fn lemma_scan_joined(argv: Seq<Seq<char>>, i: int, accept: bool, acc: ArgsModel)
    ensures
        scan(argv, i, accept, acc) == joined(acc, scan(argv, i, accept, empty_args())),
    decreases argv.len() - i, 0int,
{
    if i < 0 || i >= argv.len() {
        lemma_joined_empty(acc);
    } else {
        let arg = argv[i];
        let e = empty_args();
        let has_value = i + 1 < argv.len();
        let next = if accept && arg.len() > 0 && arg[0] == '-' {
            match flag_of(arg) {
                Flag::End => (i + 1, false, e),
                Flag::Stdin => (i + 1, accept, ArgsModel { stdin: true, ..e }),
                Flag::File => if has_value {
                    (i + 2, accept, ArgsModel { files: seq![argv[i + 1]], ..e })
                } else {
                    (i + 1, accept, e)
                },
                Flag::Option => if has_value {
                    (i + 2, accept, ArgsModel { options: seq![argv[i + 1]], ..e })
                } else {
                    (i + 1, accept, e)
                },
                Flag::Meta => if has_value {
                    (i + 2, accept, ArgsModel { meta: seq![argv[i + 1]], ..e })
                } else {
                    (i + 1, accept, e)
                },
                Flag::Plugin => if has_value {
                    (i + 2, accept, ArgsModel { plugins: seq![argv[i + 1]], ..e })
                } else {
                    (i + 1, accept, e)
                },
                Flag::Debug => (i + 1, accept, ArgsModel { debug: true, meta: seq![log_meta()], ..e }),
                Flag::Help => (i + 1, accept, ArgsModel { help: true, ..e }),
                Flag::Nice => (i + 1, accept, ArgsModel { options: seq![nice_option()], ..e }),
                Flag::Source => (i + 1, accept, ArgsModel { sources: seq![arg], ..e }),
            }
        } else {
            (i + 1, accept, ArgsModel { sources: seq![arg], ..e })
        };
        let (j, acc2, step) = next;
        assert forall|a: ArgsModel| #[trigger]
            scan(argv, j, acc2, joined(a, step)) == joined(joined(a, step), scan(argv, j, acc2, empty_args())) by {
            lemma_scan_joined(argv, j, acc2, joined(a, step));
        }
        lemma_scan_step_joined(argv, j, acc2, acc, step);
        lemma_joined_empty(step);
        assert(scan(argv, i, accept, acc) == scan(argv, j, acc2, joined(acc, step))) by {
            assert(ArgsModel { stdin: true, ..acc } =~= joined(acc, ArgsModel { stdin: true, ..e }));
            assert(acc =~= joined(acc, e));
            assert(has_value ==> ArgsModel { files: acc.files.push(argv[i + 1]), ..acc } =~= joined(acc, ArgsModel { files: seq![argv[i + 1]], ..e }));
            assert(has_value ==> ArgsModel { options: acc.options.push(argv[i + 1]), ..acc } =~= joined(acc, ArgsModel { options: seq![argv[i + 1]], ..e }));
            assert(has_value ==> ArgsModel { meta: acc.meta.push(argv[i + 1]), ..acc } =~= joined(acc, ArgsModel { meta: seq![argv[i + 1]], ..e }));
            assert(has_value ==> ArgsModel { plugins: acc.plugins.push(argv[i + 1]), ..acc } =~= joined(acc, ArgsModel { plugins: seq![argv[i + 1]], ..e }));
            assert(ArgsModel { debug: true, meta: acc.meta.push(log_meta()), ..acc } =~= joined(acc, ArgsModel { debug: true, meta: seq![log_meta()], ..e }));
            assert(ArgsModel { help: true, ..acc } =~= joined(acc, ArgsModel { help: true, ..e }));
            assert(ArgsModel { options: acc.options.push(nice_option()), ..acc } =~= joined(acc, ArgsModel { options: seq![nice_option()], ..e }));
            assert(ArgsModel { sources: acc.sources.push(arg), ..acc } =~= joined(acc, ArgsModel { sources: seq![arg], ..e }));
        }
        assert(scan(argv, i, accept, e) == scan(argv, j, acc2, joined(e, step))) by {
            assert(ArgsModel { stdin: true, ..e } =~= joined(e, ArgsModel { stdin: true, ..e }));
            assert(has_value ==> ArgsModel { files: e.files.push(argv[i + 1]), ..e } =~= joined(e, ArgsModel { files: seq![argv[i + 1]], ..e }));
            assert(has_value ==> ArgsModel { options: e.options.push(argv[i + 1]), ..e } =~= joined(e, ArgsModel { options: seq![argv[i + 1]], ..e }));
            assert(has_value ==> ArgsModel { meta: e.meta.push(argv[i + 1]), ..e } =~= joined(e, ArgsModel { meta: seq![argv[i + 1]], ..e }));
            assert(has_value ==> ArgsModel { plugins: e.plugins.push(argv[i + 1]), ..e } =~= joined(e, ArgsModel { plugins: seq![argv[i + 1]], ..e }));
            assert(ArgsModel { debug: true, meta: e.meta.push(log_meta()), ..e } =~= joined(e, ArgsModel { debug: true, meta: seq![log_meta()], ..e }));
            assert(ArgsModel { help: true, ..e } =~= joined(e, ArgsModel { help: true, ..e }));
            assert(ArgsModel { options: e.options.push(nice_option()), ..e } =~= joined(e, ArgsModel { options: seq![nice_option()], ..e }));
            assert(ArgsModel { sources: e.sources.push(arg), ..e } =~= joined(e, ArgsModel { sources: seq![arg], ..e }));
        }
    }
}

/// Running the loop over `a` from `i + d` is running it over `b` from
/// `i` when `a` is `b` with `d` arguments put in before position `i`.
proof fn lemma_scan_shift(
    a: Seq<Seq<char>>,
    b: Seq<Seq<char>>,
    d: int,
    i: int,
    accept: bool,
    acc: ArgsModel,
)
    requires
        d >= 0,
        i >= 0,
        a.len() == b.len() + d,
        forall|k: int| i <= k < b.len() ==> a[k + d] == b[k],
    ensures
        scan(b, i, accept, acc) == scan(a, i + d, accept, acc),
    decreases b.len() - i,
{
    if i < b.len() {
        let arg = b[i];
        assert(a[i + d] == arg);
        let has_value = i + 1 < b.len();
        if has_value {
            assert(a[i + 1 + d] == b[i + 1]);
        }
        let (j, acc2, next) = if accept && arg.len() > 0 && arg[0] == '-' {
            match flag_of(arg) {
                Flag::Stdin => (i + 1, accept, ArgsModel { stdin: true, ..acc }),
                Flag::End => (i + 1, false, acc),
                Flag::File => if has_value {
                    (i + 2, accept, ArgsModel { files: acc.files.push(b[i + 1]), ..acc })
                } else {
                    (i + 1, accept, acc)
                },
                Flag::Option => if has_value {
                    (i + 2, accept, ArgsModel { options: acc.options.push(b[i + 1]), ..acc })
                } else {
                    (i + 1, accept, acc)
                },
                Flag::Meta => if has_value {
                    (i + 2, accept, ArgsModel { meta: acc.meta.push(b[i + 1]), ..acc })
                } else {
                    (i + 1, accept, acc)
                },
                Flag::Plugin => if has_value {
                    (i + 2, accept, ArgsModel { plugins: acc.plugins.push(b[i + 1]), ..acc })
                } else {
                    (i + 1, accept, acc)
                },
                Flag::Debug => (i + 1, accept, ArgsModel { debug: true, meta: acc.meta.push(log_meta()), ..acc }),
                Flag::Help => (i + 1, accept, ArgsModel { help: true, ..acc }),
                Flag::Nice => (i + 1, accept, ArgsModel { options: acc.options.push(nice_option()), ..acc }),
                Flag::Source => (i + 1, accept, ArgsModel { sources: acc.sources.push(arg), ..acc }),
            }
        } else {
            (i + 1, accept, ArgsModel { sources: acc.sources.push(arg), ..acc })
        };
        lemma_scan_shift(a, b, d, j, acc2, next);
        assert(scan(b, i, accept, acc) == scan(b, j, acc2, next));
        assert(scan(a, i + d, accept, acc) == scan(a, j + d, acc2, next));
    }
}

/// A command line whose first argument `x` is read as a flag that adds
/// `step` and takes `d - 1` arguments after it parses as the command
/// line without those `d` arguments, joined after `step`.
proof fn lemma_leading_flag(
    a: Seq<Seq<char>>,
    b: Seq<Seq<char>>,
    d: int,
    step: ArgsModel,
)
    requires
        d >= 1,
        b.len() >= 1,
        a.len() == b.len() + d,
        a[0] == b[0],
        forall|k: int| 1 <= k < b.len() ==> a[k + d] == b[k],
        scan(a, 1, true, empty_args()) == scan(a, 1 + d, true, step),
    ensures
        parsed_args(a) == joined(step, parsed_args(b)),
{
    lemma_scan_joined(a, 1 + d, true, step);
    lemma_scan_shift(a, b, d, 1, true, empty_args());
    assert(scan(b, 1, true, empty_args()) == scan(a, 1 + d, true, empty_args()));
}

/// `--help` is `-h`, and either, first on the command line, sets `help`
/// and leaves the rest of the command line to parse as it would alone.
pub proof fn lemma_help_flag(prog: Seq<char>, rest: Seq<Seq<char>>)
    ensures
        parsed_args(seq![prog, seq!['-', 'h']] + rest) == (ArgsModel {
            help: true,
            ..parsed_args(seq![prog] + rest)
        }),
        parsed_args(seq![prog, seq!['-', '-', 'h', 'e', 'l', 'p']] + rest)
            == parsed_args(seq![prog, seq!['-', 'h']] + rest),
{
    let b = seq![prog] + rest;
    let step = ArgsModel { help: true, ..empty_args() };
    let r = parsed_args(b);
    let short = seq![prog, seq!['-', 'h']] + rest;
    let long = seq![prog, seq!['-', '-', 'h', 'e', 'l', 'p']] + rest;
    assert(short[1] == seq!['-', 'h']);
    assert(long[1] == seq!['-', '-', 'h', 'e', 'l', 'p']);
    lemma_leading_flag(short, b, 1, step);
    lemma_leading_flag(long, b, 1, step);
    assert(joined(step, r) =~= ArgsModel { help: true, ..r });
}

/// `--debug` is `-d`, and either, first on the command line, sets
/// `debug` and puts `log=-1` first in the metadata, leaving the rest of
/// the command line to parse as it would alone.
pub proof fn lemma_debug_flag(prog: Seq<char>, rest: Seq<Seq<char>>)
    ensures
        parsed_args(seq![prog, seq!['-', 'd']] + rest) == ({
            let r = parsed_args(seq![prog] + rest);
            ArgsModel { debug: true, meta: seq![seq!['l', 'o', 'g', '=', '-', '1']] + r.meta, ..r }
        }),
        parsed_args(seq![prog, seq!['-', '-', 'd', 'e', 'b', 'u', 'g']] + rest)
            == parsed_args(seq![prog, seq!['-', 'd']] + rest),
{
    let b = seq![prog] + rest;
    let step = ArgsModel { debug: true, meta: seq![log_meta()], ..empty_args() };
    let r = parsed_args(b);
    let short = seq![prog, seq!['-', 'd']] + rest;
    let long = seq![prog, seq!['-', '-', 'd', 'e', 'b', 'u', 'g']] + rest;
    assert(short[1] == seq!['-', 'd']);
    assert(long[1] == seq!['-', '-', 'd', 'e', 'b', 'u', 'g']);
    lemma_leading_flag(short, b, 1, step);
    lemma_leading_flag(long, b, 1, step);
    assert(joined(step, r) =~= ArgsModel {
        debug: true,
        meta: seq![seq!['l', 'o', 'g', '=', '-', '1']] + r.meta,
        ..r
    });
}

/// `--nice` is `-n`, and either, first on the command line, puts
/// `JSON.space=2` first in the options, leaving the rest of the command
/// line to parse as it would alone.
pub proof fn lemma_nice_flag(prog: Seq<char>, rest: Seq<Seq<char>>)
    ensures
        parsed_args(seq![prog, seq!['-', 'n']] + rest) == ({
            let r = parsed_args(seq![prog] + rest);
            ArgsModel {
                options: seq![seq!['J', 'S', 'O', 'N', '.', 's', 'p', 'a', 'c', 'e', '=', '2']] + r.options,
                ..r
            }
        }),
        parsed_args(seq![prog, seq!['-', '-', 'n', 'i', 'c', 'e']] + rest)
            == parsed_args(seq![prog, seq!['-', 'n']] + rest),
{
    let b = seq![prog] + rest;
    let step = ArgsModel { options: seq![nice_option()], ..empty_args() };
    let r = parsed_args(b);
    let short = seq![prog, seq!['-', 'n']] + rest;
    let long = seq![prog, seq!['-', '-', 'n', 'i', 'c', 'e']] + rest;
    assert(short[1] == seq!['-', 'n']);
    assert(long[1] == seq!['-', '-', 'n', 'i', 'c', 'e']);
    lemma_leading_flag(short, b, 1, step);
    lemma_leading_flag(long, b, 1, step);
    assert(joined(step, r) =~= ArgsModel {
        options: seq![seq!['J', 'S', 'O', 'N', '.', 's', 'p', 'a', 'c', 'e', '=', '2']] + r.options,
        ..r
    });
}

/// A bare `-`, first on the command line, asks for standard input and
/// leaves the rest of the command line to parse as it would alone.
pub proof fn lemma_stdin_flag(prog: Seq<char>, rest: Seq<Seq<char>>)
    ensures
        parsed_args(seq![prog, seq!['-']] + rest) == (ArgsModel {
            stdin: true,
            ..parsed_args(seq![prog] + rest)
        }),
{
    let b = seq![prog] + rest;
    let step = ArgsModel { stdin: true, ..empty_args() };
    let r = parsed_args(b);
    let a = seq![prog, seq!['-']] + rest;
    assert(a[1] == seq!['-']);
    lemma_leading_flag(a, b, 1, step);
    assert(joined(step, r) =~= ArgsModel { stdin: true, ..r });
}

/// Each flag that takes a value has a long spelling that is its short
/// one, and either, first on the command line and followed by `v`, puts
/// `v` first in its list (`--file`/`-f` the files, `--option`/`-o` the
/// options, `--meta`/`-m` the metadata, `--plugin`/`-p` the plugins),
/// leaving the rest of the command line to parse as it would alone.
pub proof fn lemma_value_flags(prog: Seq<char>, v: Seq<char>, rest: Seq<Seq<char>>)
    ensures
        ({
            let r = parsed_args(seq![prog] + rest);
            &&& parsed_args(seq![prog, seq!['-', 'f'], v] + rest) == (ArgsModel { files: seq![v] + r.files, ..r })
            &&& parsed_args(seq![prog, seq!['-', 'o'], v] + rest) == (ArgsModel { options: seq![v] + r.options, ..r })
            &&& parsed_args(seq![prog, seq!['-', 'm'], v] + rest) == (ArgsModel { meta: seq![v] + r.meta, ..r })
            &&& parsed_args(seq![prog, seq!['-', 'p'], v] + rest) == (ArgsModel { plugins: seq![v] + r.plugins, ..r })
        }),
        parsed_args(seq![prog, seq!['-', '-', 'f', 'i', 'l', 'e'], v] + rest)
            == parsed_args(seq![prog, seq!['-', 'f'], v] + rest),
        parsed_args(seq![prog, seq!['-', '-', 'o', 'p', 't', 'i', 'o', 'n'], v] + rest)
            == parsed_args(seq![prog, seq!['-', 'o'], v] + rest),
        parsed_args(seq![prog, seq!['-', '-', 'm', 'e', 't', 'a'], v] + rest)
            == parsed_args(seq![prog, seq!['-', 'm'], v] + rest),
        parsed_args(seq![prog, seq!['-', '-', 'p', 'l', 'u', 'g', 'i', 'n'], v] + rest)
            == parsed_args(seq![prog, seq!['-', 'p'], v] + rest),
{
    let b = seq![prog] + rest;
    let r = parsed_args(b);
    let e = empty_args();
    let fs = ArgsModel { files: seq![v], ..e };
    let os = ArgsModel { options: seq![v], ..e };
    let ms = ArgsModel { meta: seq![v], ..e };
    let ps = ArgsModel { plugins: seq![v], ..e };
    let f1 = seq![prog, seq!['-', 'f'], v] + rest;
    let f2 = seq![prog, seq!['-', '-', 'f', 'i', 'l', 'e'], v] + rest;
    let o1 = seq![prog, seq!['-', 'o'], v] + rest;
    let o2 = seq![prog, seq!['-', '-', 'o', 'p', 't', 'i', 'o', 'n'], v] + rest;
    let m1 = seq![prog, seq!['-', 'm'], v] + rest;
    let m2 = seq![prog, seq!['-', '-', 'm', 'e', 't', 'a'], v] + rest;
    let p1 = seq![prog, seq!['-', 'p'], v] + rest;
    let p2 = seq![prog, seq!['-', '-', 'p', 'l', 'u', 'g', 'i', 'n'], v] + rest;
    assert(f1[1] == seq!['-', 'f'] && f1[2] == v);
    assert(f2[1] == seq!['-', '-', 'f', 'i', 'l', 'e'] && f2[2] == v);
    assert(o1[1] == seq!['-', 'o'] && o1[2] == v);
    assert(o2[1] == seq!['-', '-', 'o', 'p', 't', 'i', 'o', 'n'] && o2[2] == v);
    assert(m1[1] == seq!['-', 'm'] && m1[2] == v);
    assert(m2[1] == seq!['-', '-', 'm', 'e', 't', 'a'] && m2[2] == v);
    assert(p1[1] == seq!['-', 'p'] && p1[2] == v);
    assert(p2[1] == seq!['-', '-', 'p', 'l', 'u', 'g', 'i', 'n'] && p2[2] == v);
    assert(e.files.push(v) =~= seq![v]);
    assert(e.options.push(v) =~= seq![v]);
    assert(e.meta.push(v) =~= seq![v]);
    assert(e.plugins.push(v) =~= seq![v]);
    assert(ArgsModel { files: e.files.push(v), ..e } == fs);
    assert(ArgsModel { options: e.options.push(v), ..e } == os);
    assert(ArgsModel { meta: e.meta.push(v), ..e } == ms);
    assert(ArgsModel { plugins: e.plugins.push(v), ..e } == ps);
    lemma_leading_flag(f1, b, 2, fs);
    lemma_leading_flag(f2, b, 2, fs);
    lemma_leading_flag(o1, b, 2, os);
    lemma_leading_flag(o2, b, 2, os);
    lemma_leading_flag(m1, b, 2, ms);
    lemma_leading_flag(m2, b, 2, ms);
    lemma_leading_flag(p1, b, 2, ps);
    lemma_leading_flag(p2, b, 2, ps);
    assert(joined(fs, r) =~= ArgsModel { files: seq![v] + r.files, ..r });
    assert(joined(os, r) =~= ArgsModel { options: seq![v] + r.options, ..r });
    assert(joined(ms, r) =~= ArgsModel { meta: seq![v] + r.meta, ..r });
    assert(joined(ps, r) =~= ArgsModel { plugins: seq![v] + r.plugins, ..r });
}

/// `name=value` splits at its first `=`, and the value ends at the
/// second: the name and the value hold no `=`, and whatever follows the
/// value is empty or starts with one.
pub proof fn lemma_propval_parts(propval: Seq<char>)
    ensures
        match propval_parts(propval) {
            Some((name, value)) => {
                &&& forall|j: int| 0 <= j < name.len() ==> name[j] != '='
                &&& forall|j: int| 0 <= j < value.len() ==> value[j] != '='
                &&& propval.take((name.len() + 1 + value.len()) as int) == name + seq!['='] + value
                &&& (propval.len() == name.len() + 1 + value.len() || propval[(name.len() + 1 + value.len()) as int] == '=')
            },
            None => forall|j: int| 0 <= j < propval.len() ==> propval[j] != '=',
        },
{
    lemma_index_of(propval, '=');
    let i = index_of(propval, '=');
    if i >= 0 {
        let rest = propval.skip(i + 1);
        lemma_index_of(rest, '=');
        let j = index_of(rest, '=');
        let name = propval.take(i);
        let value = if j < 0 { rest } else { rest.take(j) };
        assert(propval.take((name.len() + 1 + value.len()) as int) =~= name + seq!['='] + value);
        if j >= 0 {
            assert(propval[(name.len() + 1 + value.len()) as int] == rest[j]);
        }
    }
}

/// The position of the first `c` in `s`, or `-1`.
pub open spec fn index_of(s: Seq<char>, c: char) -> int
    decreases s.len(),
{
    if s.len() == 0 {
        -1
    } else if s[0] == c {
        0
    } else {
        let rest = index_of(s.drop_first(), c);
        if rest < 0 {
            -1
        } else {
            rest + 1
        }
    }
}

pub proof fn lemma_index_of(s: Seq<char>, c: char)
    ensures
        -1 <= index_of(s, c) < s.len(),
        index_of(s, c) >= 0 ==> s[index_of(s, c)] == c,
        forall|j: int|
            0 <= j < s.len() && (index_of(s, c) < 0 || j < index_of(s, c)) ==> s[j] != c,
    decreases s.len(),
{
    if s.len() > 0 && s[0] != c {
        lemma_index_of(s.drop_first(), c);
        assert forall|j: int| 1 <= j < s.len() implies s[j] == s.drop_first()[j - 1] by {}
    }
}

/// The first position of `c` in `chars`, at or after `from`.
fn find_char(chars: &Vec<char>, from: usize, c: char) -> (r: Option<usize>)
    requires
        from <= chars@.len(),
    ensures
        match r {
            Some(i) => from + index_of(chars@.skip(from as int), c) == i && from <= i < chars@.len(),
            None => index_of(chars@.skip(from as int), c) == -1,
        },
{
    let ghost rest = chars@.skip(from as int);
    let mut i = from;
    while i < chars.len()
        invariant
            from <= i <= chars@.len(),
            rest == chars@.skip(from as int),
            forall|j: int| from <= j < i ==> chars@[j] != c,
        decreases chars@.len() - i,
    {
        if chars[i] == c {
            proof {
                lemma_index_of(rest, c);
                assert(rest[i - from] == c);
                if index_of(rest, c) < 0 || i - from < index_of(rest, c) {
                    assert(false);
                }
                if index_of(rest, c) < i - from {
                    assert(rest[index_of(rest, c)] == chars@[from + index_of(rest, c)]);
                }
            }
            return Some(i);
        }
        i = i + 1;
    }
    proof {
        lemma_index_of(rest, c);
        if index_of(rest, c) >= 0 {
            assert(rest[index_of(rest, c)] == chars@[from + index_of(rest, c)]);
        }
    }
    None
}

/// `name=value` the way `propval.split(/=/)` reads it: the text before
/// the first `=`, and the text between the first and the second. `None`
/// when there is no `=` at all.
pub open spec fn propval_parts(propval: Seq<char>) -> Option<(Seq<char>, Seq<char>)> {
    let i = index_of(propval, '=');
    if i < 0 {
        None
    } else {
        let rest = propval.skip(i + 1);
        let j = index_of(rest, '=');
        Some((propval.take(i), if j < 0 { rest } else { rest.take(j) }))
    }
}

/// Split a `name=value` argument: see [`propval_parts`].
pub fn split_propval(propval: &str) -> (r: Option<(String, String)>)
    ensures
        match r {
            Some((name, value)) => propval_parts(propval@) == Some((name@, value@)),
            None => propval_parts(propval@) is None,
        },
{
    let chars = crate::text::chars_of(propval);
    let n = chars.len();
    let first = match find_char(&chars, 0, '=') {
        Some(i) => i,
        None => {
            assert(chars@.skip(0) =~= propval@);
            return None;
        },
    };
    assert(chars@.skip(0) =~= propval@);
    let value_end = match find_char(&chars, first + 1, '=') {
        Some(j) => j,
        None => chars.len(),
    };
    let name = crate::text::string_of(&slice_chars(&chars, 0, first));
    let value = crate::text::string_of(&slice_chars(&chars, first + 1, value_end));
    proof {
        let rest = propval@.skip(first + 1);
        assert(chars@.skip(first + 1) =~= rest);
        assert(chars@.subrange(0, first as int) =~= propval@.take(first as int));
        if index_of(rest, '=') < 0 {
            assert(chars@.subrange(first + 1, value_end as int) =~= rest);
        } else {
            assert(chars@.subrange(first + 1, value_end as int) =~= rest.take(index_of(rest, '=')));
        }
    }
    Some((name, value))
}

/// `chars[from..to]`.
pub fn slice_chars(chars: &Vec<char>, from: usize, to: usize) -> (r: Vec<char>)
    requires
        from <= to <= chars@.len(),
    ensures
        r@ == chars@.subrange(from as int, to as int),
{
    let mut out: Vec<char> = Vec::new();
    let mut i = from;
    while i < to
        invariant
            from <= i <= to <= chars@.len(),
            out@ == chars@.subrange(from as int, i as int),
        decreases to - i,
    {
        out.push(chars[i]);
        i = i + 1;
        assert(out@ =~= chars@.subrange(from as int, i as int));
    }
    out
}


/// `s` cut at every `c`, as `str::split` cuts it: one more part than
/// there are `c`s.
pub open spec fn split_on(s: Seq<char>, c: char) -> Seq<Seq<char>>
    decreases s.len(),
{
    let i = index_of(s, c);
    if i < 0 {
        seq![s]
    } else {
        proof {
            lemma_index_of(s, c);
        }
        seq![s.take(i)] + split_on(s.skip(i + 1), c)
    }
}

/// Cut `path` at every `.`.
fn split_dots(path: &str) -> (r: Vec<String>)
    ensures
        strings_view(r@) == split_on(path@, '.'),
        r@.len() >= 1,
{
    let chars = crate::text::chars_of(path);
    let n = chars.len();
    let mut parts: Vec<String> = Vec::new();
    let mut from: usize = 0;
    assert(chars@.skip(0) =~= path@);
    loop
        invariant
            from <= n,
            n == chars@.len(),
            chars@ == path@,
            split_on(path@, '.') == strings_view(parts@) + split_on(chars@.skip(from as int), '.'),
        decreases n - from,
    {
        let ghost rest = chars@.skip(from as int);
        proof {
            lemma_index_of(rest, '.');
        }
        match find_char(&chars, from, '.') {
            Some(i) => {
                let part = crate::text::string_of(&slice_chars(&chars, from, i));
                proof {
                    assert(part@ =~= rest.take(i - from));
                    assert(chars@.skip(i + 1) =~= rest.skip(i - from + 1));
                    lemma_push_view(parts@, part);
                    assert(split_on(rest, '.') == seq![rest.take(i - from)] + split_on(
                        rest.skip(i - from + 1),
                        '.',
                    ));
                    assert(strings_view(parts@.push(part)) + split_on(chars@.skip(i + 1), '.')
                        =~= strings_view(parts@) + split_on(rest, '.'));
                }
                parts.push(part);
                from = i + 1;
            },
            None => {
                let part = crate::text::string_of(&slice_chars(&chars, from, n));
                proof {
                    assert(part@ =~= rest);
                    lemma_push_view(parts@, part);
                    assert(strings_view(parts@.push(part)) =~= strings_view(parts@) + split_on(
                        rest,
                        '.',
                    ));
                }
                parts.push(part);
                return parts;
            },
        }
    }
}

/// `entries` with `key` set to `value`: in place when the key is there,
/// appended when it is not.
pub open spec fn insert_entry(entries: Seq<(Seq<char>, Json)>, key: Seq<char>, value: Json) -> Seq<
    (Seq<char>, Json),
> {
    let i = key_index(entries, key);
    if i >= 0 {
        entries.update(i, (key, value))
    } else {
        entries.push((key, value))
    }
}

/// The engine's `util.prop`: set the dotted path `parts` in a nested
/// object bag, building the intermediate objects, and replacing an
/// intermediate that is not an object by one.
pub open spec fn set_path(entries: Seq<(Seq<char>, Json)>, parts: Seq<Seq<char>>, value: Json) -> Seq<
    (Seq<char>, Json),
>
    decreases parts.len(),
{
    if parts.len() == 0 {
        entries
    } else if parts.len() == 1 {
        insert_entry(entries, parts[0], value)
    } else {
        let key = parts[0];
        let i = key_index(entries, key);
        let child = if i >= 0 && 0 <= i < entries.len() && entries[i].1 is Object {
            entries[i].1->Object_0
        } else {
            Seq::empty()
        };
        insert_entry(entries, key, Json::Object(set_path(child, parts.drop_first(), value)))
    }
}

/// Set `key` to `value` in `entries`: see [`insert_entry`].
pub(crate) fn insert_exec(entries: &mut Vec<(String, Value)>, key: String, value: Value)
    ensures
        entry_models(final(entries)@) == insert_entry(entry_models(old(entries)@), key@, value@),
{
    proof {
        lemma_entry_models(entries@);
        lemma_key_index(entry_models(entries@), key@);
    }
    let ghost before = entry_models(entries@);
    let ghost km = key@;
    let ghost vm = value@;
    match find_key(entries, &key) {
        Some(i) => {
            entries.set(i, (key, value));
            proof {
                lemma_entry_models(entries@);
                assert(entry_models(entries@) =~= before.update(i as int, (km, vm)));
            }
        },
        None => {
            entries.push((key, value));
            proof {
                lemma_entry_models(entries@);
                assert(entry_models(entries@) =~= before.push((km, vm)));
            }
        },
    }
}

/// Set the path `parts[from..]` to `value`: see [`set_path`].
fn set_path_exec(entries: &mut Vec<(String, Value)>, parts: &Vec<String>, from: usize, value: Value)
    requires
        from < parts@.len(),
    ensures
        entry_models(final(entries)@) == set_path(
            entry_models(old(entries)@),
            strings_view(parts@).skip(from as int),
            value@,
        ),
    decreases parts@.len() - from,
{
    let ghost ps = strings_view(parts@).skip(from as int);
    assert(ps[0] == parts@[from as int]@);
    if parts.len() - from <= 1 {
        insert_exec(entries, parts[from].clone(), value);
        return;
    }
    assert(ps.drop_first() =~= strings_view(parts@).skip(from + 1));
    proof {
        lemma_entry_models(entries@);
        lemma_key_index(entry_models(entries@), parts@[from as int]@);
    }
    let ghost before = entry_models(entries@);
    let key = parts[from].clone();
    let found = find_key(entries, &key);
    let ghost taken = entries@;
    let mut child: Vec<(String, Value)> = match found {
        Some(i) => {
            let mut held: (String, Value) = (String::new(), Value::Undefined);
            entries.set_and_swap(i, &mut held);
            proof {
                taken = entries@;
            }
            let ghost held_model = held.1@;
            assert(held_model == before[i as int].1);
            match held.1 {
                Value::Object(inner) => inner,
                _ => {
                    let empty: Vec<(String, Value)> = Vec::new();
                    empty
                },
            }
        },
        None => Vec::new(),
    };
    proof {
        let i = key_index(before, key@);
        if i >= 0 && before[i].1 is Object {
        } else {
            assert(entry_models(child@) =~= Seq::<(Seq<char>, Json)>::empty());
        }
    }
    set_path_exec(&mut child, parts, from + 1, value);
    let node = Value::Object(child);
    let ghost node_model = node@;
    match found {
        Some(i) => {
            entries.set(i, (key, node));
            proof {
                lemma_entry_models(entries@);
                lemma_entry_models(old(entries)@);
                assert(entry_models(entries@) =~= before.update(i as int, (ps[0], node_model)));
            }
        },
        None => {
            entries.push((key, node));
            proof {
                lemma_entry_models(entries@);
                assert(entry_models(entries@) =~= before.push((ps[0], node_model)));
            }
        },
    }
}


/// `undefined` as the JSON `null` it is written as.
pub open spec fn defined(v: Json) -> Json {
    if v is Undefined {
        Json::Null
    } else {
        v
    }
}

/// The bag `handle_props` builds: each `name=value` whose name and value
/// are both non-empty sets the dotted path `name` to what jsonic parses
/// from `value`, in order; the first value that does not parse is the
/// error.
pub open spec fn props_bag(propvals: Seq<Seq<char>>) -> Result<Seq<(Seq<char>, Json)>, Seq<char>>
    decreases propvals.len(),
{
    if propvals.len() == 0 {
        Ok(Seq::empty())
    } else {
        match props_bag(propvals.drop_last()) {
            Err(report) => Err(report),
            Ok(bag) => match propval_parts(propvals.last()) {
                None => Ok(bag),
                Some((name, value)) => if name.len() == 0 || value.len() == 0 {
                    Ok(bag)
                } else {
                    match relaxed_value(value) {
                        Err(report) => Err(report),
                        Ok(v) => Ok(set_path(bag, split_on(name, '.'), defined(v))),
                    }
                },
            },
        }
    }
}

proof fn lemma_props_err(propvals: Seq<Seq<char>>, k: int)
    requires
        0 <= k <= propvals.len(),
        props_bag(propvals.take(k)) is Err,
    ensures
        props_bag(propvals) == props_bag(propvals.take(k)),
    decreases propvals.len() - k,
{
    if k < propvals.len() {
        assert(propvals.take(k + 1).drop_last() =~= propvals.take(k));
        lemma_props_err(propvals, k + 1);
    } else {
        assert(propvals.take(k) =~= propvals);
    }
}


proof fn lemma_insert_entry_wf(entries: Seq<(Seq<char>, Json)>, key: Seq<char>, value: Json)
    requires
        keys_unique(entries),
        forall|i: int| 0 <= i < entries.len() ==> (#[trigger] entries[i]).1.wf(),
        value.wf(),
    ensures
        keys_unique(insert_entry(entries, key, value)),
        forall|i: int|
            0 <= i < insert_entry(entries, key, value).len() ==> (#[trigger] insert_entry(
                entries,
                key,
                value,
            )[i]).1.wf(),
{
    lemma_key_index(entries, key);
    let next = insert_entry(entries, key, value);
    assert forall|i: int, j: int| 0 <= i < j < next.len() implies #[trigger] next[i].0
        != #[trigger] next[j].0 by {
        if j < entries.len() {
            assert(entries[i].0 != entries[j].0);
        } else {
            assert(entries[i].0 != key);
        }
    }
    assert forall|i: int| 0 <= i < next.len() implies (#[trigger] next[i]).1.wf() by {
        if i < entries.len() && next[i] == entries[i] {
        }
    }
}

/// Setting a dotted path keeps a bag well formed.
pub proof fn lemma_set_path_wf(entries: Seq<(Seq<char>, Json)>, parts: Seq<Seq<char>>, value: Json)
    requires
        Json::Object(entries).wf(),
        value.wf(),
    ensures
        Json::Object(set_path(entries, parts, value)).wf(),
    decreases parts.len(),
{
    crate::value::lemma_all_entries_wf(entries);
    if parts.len() == 1 {
        lemma_insert_entry_wf(entries, parts[0], value);
        crate::value::lemma_all_entries_wf(insert_entry(entries, parts[0], value));
    } else if parts.len() > 1 {
        let key = parts[0];
        let i = key_index(entries, key);
        lemma_key_index(entries, key);
        let child = if i >= 0 && 0 <= i < entries.len() && entries[i].1 is Object {
            entries[i].1->Object_0
        } else {
            Seq::empty()
        };
        if i >= 0 && 0 <= i < entries.len() && entries[i].1 is Object {
            assert(entries[i].1.wf());
        }
        lemma_set_path_wf(child, parts.drop_first(), value);
        let node = Json::Object(set_path(child, parts.drop_first(), value));
        lemma_insert_entry_wf(entries, key, node);
        crate::value::lemma_all_entries_wf(insert_entry(entries, key, node));
    }
}

/// Set the dotted path `path` in `bag` to `value`, building the
/// intermediate objects: see [`set_path`].
pub fn set_prop(bag: &mut Vec<(String, Value)>, path: &str, value: Value)
    ensures
        entry_models(final(bag)@) == set_path(
            entry_models(old(bag)@),
            split_on(path@, '.'),
            value@,
        ),
{
    let parts = split_dots(path);
    assert(strings_view(parts@).skip(0) =~= strings_view(parts@));
    set_path_exec(bag, &parts, 0, value);
}

/// Build the dotted-path bag of `propvals`: see [`props_bag`].
pub fn handle_props(propvals: &Vec<String>) -> (r: Result<Value, String>)
    ensures
        match (r, props_bag(strings_view(propvals@))) {
            (Ok(v), Ok(bag)) => v@ == Json::Object(bag),
            (Err(m), Err(report)) => m@ == report,
            _ => false,
        },
        r matches Ok(v) ==> v@.wf(),
{
    let ghost all = strings_view(propvals@);
    let mut out: Vec<(String, Value)> = Vec::new();
    let mut i: usize = 0;
    assert(all.take(0) =~= Seq::<Seq<char>>::empty());
    assert(entry_models(out@) =~= Seq::<(Seq<char>, Json)>::empty());
    assert(crate::value::all_entries_wf(entry_models(out@)));
    while i < propvals.len()
        invariant
            i <= propvals@.len(),
            all == strings_view(propvals@),
            props_bag(all.take(i as int)) == Ok::<Seq<(Seq<char>, Json)>, Seq<char>>(
                entry_models(out@),
            ),
            Json::Object(entry_models(out@)).wf(),
        decreases propvals@.len() - i,
    {
        let ghost before = entry_models(out@);
        assert(all.take(i + 1).drop_last() =~= all.take(i as int));
        assert(all.take(i + 1).last() == propvals@[i as int]@);
        match split_propval(propvals[i].as_str()) {
            None => {},
            Some((name, value)) => {
                if name.as_str().unicode_len() > 0 && value.as_str().unicode_len() > 0 {
                    match parse_relaxed(value.as_str()) {
                        Err(report) => {
                            proof {
                                lemma_props_err(all, i + 1);
                                assert(all.take(propvals@.len() as int) =~= all);
                            }
                            return Err(report);
                        },
                        Ok(v) => {
                            let v = match v {
                                Value::Undefined => Value::Null,
                                other => other,
                            };
                            proof {
                                lemma_set_path_wf(entry_models(out@), split_on(name@, '.'), v@);
                            }
                            set_prop(&mut out, name.as_str(), v);
                        },
                    }
                }
            },
        }
        i = i + 1;
    }
    assert(all.take(propvals@.len() as int) =~= all);
    Ok(Value::Object(out))
}

/// The object `bag` holds under `key`, when it holds one there.
pub open spec fn sub_object_of(bag: Json, key: Seq<char>) -> Option<Seq<(Seq<char>, Json)>> {
    match bag {
        Json::Object(entries) => {
            let i = key_index(entries, key);
            if i >= 0 && i < entries.len() && entries[i].1 is Object {
                Some(entries[i].1->Object_0)
            } else {
                None
            }
        },
        _ => None,
    }
}

/// The sub-object at `key`, or `None` when the bag has no object there.
pub fn sub_object<'a>(bag: &'a Value, key: &str) -> (r: Option<&'a Vec<(String, Value)>>)
    ensures
        match sub_object_of(bag@, key@) {
            Some(entries) => r matches Some(found) && entry_models(found@) == entries,
            None => r is None,
        },
        bag@.wf() ==> (r matches Some(found) ==> Json::Object(entry_models(found@)).wf()),
{
    match bag {
        Value::Object(entries) => {
            let key = String::from_str(key);
            proof {
                lemma_entry_models(entries@);
                lemma_key_index(entry_models(entries@), key@);
            }
            match find_key(entries, &key) {
                Some(i) => match &entries[i].1 {
                    Value::Object(inner) => {
                        assert(entry_models(entries@)[i as int] == (entries@[i as int].0@, entries@[i as int].1@));
                        proof {
                            if bag@.wf() {
                                crate::value::lemma_all_entries_wf(entry_models(entries@));
                                assert(entry_models(entries@)[i as int].1.wf());
                            }
                        }
                        Some(inner)
                    },
                    _ => {
                        assert(entry_models(entries@)[i as int] == (entries@[i as int].0@, entries@[i as int].1@));
                        None
                    },
                },
                None => None,
            }
        },
        _ => None,
    }
}

/// `entries` without the ones keyed `key`, in order.
pub open spec fn without_key(entries: Seq<(Seq<char>, Json)>, key: Seq<char>) -> Seq<
    (Seq<char>, Json),
>
    decreases entries.len(),
{
    if entries.len() == 0 {
        Seq::empty()
    } else {
        let rest = without_key(entries.drop_last(), key);
        if entries.last().0 == key {
            rest
        } else {
            rest.push(entries.last())
        }
    }
}

/// The key of the command's own output options.
pub open spec fn json_key() -> Seq<char> {
    seq!['J', 'S', 'O', 'N']
}


/// Dropping the entries under one key keeps a bag well formed.
pub proof fn lemma_without_key_wf(entries: Seq<(Seq<char>, Json)>, key: Seq<char>)
    requires
        Json::Object(entries).wf(),
    ensures
        Json::Object(without_key(entries, key)).wf(),
        forall|i: int| 0 <= i < without_key(entries, key).len() ==> exists|j: int|
            0 <= j < entries.len() && #[trigger] without_key(entries, key)[i] == entries[j],
    decreases entries.len(),
{
    crate::value::lemma_all_entries_wf(entries);
    if entries.len() > 0 {
        let rest = entries.drop_last();
        assert forall|i: int, j: int| 0 <= i < j < rest.len() implies #[trigger] rest[i].0
            != #[trigger] rest[j].0 by {
            assert(entries[i].0 != entries[j].0);
        }
        assert forall|i: int| 0 <= i < rest.len() implies #[trigger] rest[i].1.wf() by {
            assert(rest[i] == entries[i]);
        }
        crate::value::lemma_all_entries_wf(rest);
        lemma_without_key_wf(rest, key);
        let prev = without_key(rest, key);
        let next = without_key(entries, key);
        assert forall|i: int| 0 <= i < next.len() implies exists|j: int|
            0 <= j < entries.len() && #[trigger] next[i] == entries[j] by {
            if i < prev.len() {
                let j = choose|j: int| 0 <= j < rest.len() && #[trigger] prev[i] == rest[j];
                assert(next[i] == prev[i]);
                assert(rest[j] == entries[j]);
            } else {
                assert(next[i] == entries[entries.len() - 1]);
            }
        }
        if entries.last().0 != key {
            assert forall|i: int, j: int| 0 <= i < j < next.len() implies #[trigger] next[i].0
                != #[trigger] next[j].0 by {
                if j == prev.len() {
                    let a = choose|a: int| 0 <= a < rest.len() && #[trigger] prev[i] == rest[a];
                    assert(next[i] == prev[i]);
                    assert(rest[a] == entries[a]);
                    assert(entries[a].0 != entries[entries.len() - 1].0);
                } else {
                    assert(next[i] == prev[i] && next[j] == prev[j]);
                }
            }
            assert forall|i: int| 0 <= i < next.len() implies #[trigger] next[i].1.wf() by {
                if i < prev.len() {
                    assert(next[i] == prev[i]);
                    crate::value::lemma_all_entries_wf(prev);
                } else {
                    assert(next[i] == entries[entries.len() - 1]);
                }
            }
            crate::value::lemma_all_entries_wf(next);
        }
    }
}

/// What configures the engine: the option bag without its `JSON` entry,
/// and an empty object for a bag that is not an object.
pub open spec fn engine_bag(bag: Json) -> Json {
    match bag {
        Json::Object(entries) => Json::Object(without_key(entries, json_key())),
        _ => Json::Object(Seq::empty()),
    }
}

/// The bag with the command's own `JSON` key removed: see [`engine_bag`].
pub fn engine_options(bag: &Value) -> (r: Value)
    ensures
        r@ == engine_bag(bag@),
        bag@.wf() ==> r@.wf(),
{
    proof {
        if let Json::Object(entries) = bag@ {
            if bag@.wf() {
                lemma_without_key_wf(entries, json_key());
            }
        }
    }
    let mut out: Vec<(String, Value)> = Vec::new();
    match bag {
        Value::Object(entries) => {
            let json = String::from_str("JSON");
            proof {
                reveal_strlit("JSON");
            }
            assert(json@ =~= json_key());
            let mut i: usize = 0;
            assert(entries@.take(0) =~= Seq::<(String, Value)>::empty());
            assert(entry_models(out@) =~= Seq::<(Seq<char>, Json)>::empty());
            proof {
                lemma_entry_models(entries@);
            }
            while i < entries.len()
                invariant
                    i <= entries@.len(),
                    json@ == json_key(),
                    entry_models(entries@).len() == entries@.len(),
                    forall|j: int| 0 <= j < entries@.len() ==> #[trigger] entry_models(entries@)[j]
                        == (entries@[j].0@, entries@[j].1@),
                    entry_models(out@) == without_key(entry_models(entries@).take(i as int), json_key()),
                decreases entries@.len() - i,
            {
                let ghost em = entry_models(entries@);
                assert(em.take(i + 1).drop_last() =~= em.take(i as int));
                assert(em.take(i + 1).last() == em[i as int]);
                if entries[i].0 != json {
                    let ghost before = out@;
                    let copy = entries[i].1.copy();
                    out.push((entries[i].0.clone(), copy));
                    proof {
                        assert(out@.drop_last() =~= before);
                    }
                }
                i = i + 1;
            }
            proof {
                assert(entry_models(entries@).take(entries@.len() as int) =~= entry_models(entries@));
            }
        },
        _ => {
            assert(entry_models(out@) =~= Seq::<(Seq<char>, Json)>::empty());
        },
    }
    Value::Object(out)
}

} // verus!
