# shorts

Like `pants dependees`, but not as long: which Python modules depend on the
files you changed, tracked down to the symbols they use.

The library under `src/` is written in Verus; every function there carries a
contract that Verus proves, except four small wrappers whose contracts Verus
takes on trust: `String::push`, `char::is_alphanumeric`, `glob::Pattern`
(compiling and matching a pattern), and `xxhash_rust::xxh3::xxh3_64`. Each says
in its doc comment what it claims of the outside function.

- `graph` — the import graph of one or more source roots, and the dependees
  of a change: module level, symbol level, and back to files.
- `reasons`, `explain` — why each dependee is affected, and which input
  triggered it.
- `imports`, `usage`, `refs`, `symbols` — what a module imports, what it uses
  of each import, how its top-level symbols refer to each other, and how a
  change spreads inside a module.
- `hashes` — hashes of the meaningful tokens of a module and of each of its
  top-level symbols (comments and blank lines change none).
- `cache` — the content-addressed cache of parse results: keys, entry paths,
  pruning, and the `.gitignore` entry.
- `roots`, `paths`, `git` — source roots, path-to-module mapping, and what git
  reports as changed.
- `targets`, `buildfiles`, `report` — pants BUILD files (targets, the BUILD
  files that own a file or refer to a changed one), filters, and the text of
  the report.
- `reach`, `strs`, `text`, `pyast` — reachability, sets of names, text
  helpers, and the Python syntax tree that the analyses read.

`app/` is the command-line program around the library: argument handling,
the file system, running git, parsing Python with ruff, and writing JSON.
