# tabnas-jsonic-cli

The `jsonic` command, a JSON parser that is not strict: it reads relaxed
JSON from its arguments, from `--file` and from standard input, parses each
source with jsonic, merges the results in precedence and prints standard
JSON the way `JSON.stringify` does.

The library in `src/` is verified with Verus. It holds every decision of a
run, each stated in a contract over a mathematical model of its values:

- `args`: the argument loop, the `name=value` split and the dotted-path
  option and metadata bags;
- `registry`: resolving a `-p` reference against the registered names;
- `merge`: jsonic's deep merge, with the laws it keeps (well-formed values,
  no prototype-reaching key from an overlay, existing keys kept in place);
- `stringify` and `number`: `JSON.stringify` with its `replacer` and
  `space` options, ECMAScript number text included;
- `reader` and `engine`: the engine's standard JSON answer read back into
  the library's values;
- `cli`: the run as a session that asks its caller for the engine, file
  and input work and answers each event with the next command.

`app/` is the thin part around it: the streams and files, the jsonic
engine with its debug trace, the plugin registry, and the `run`,
`run_with_plugins` and `capture` entry points that drive a session.
