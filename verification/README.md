# ren

Bulk file renamer. `ren` rewrites file *names*: plain and regex find/replace,
smart replacement of every case variant of a word, letter case, prefixes and
suffixes with counters, an interactive preview, glob filters, dry runs, listing,
and several `-e/--expression` rewrites in one pass.

    ren foo bar                      # rename in the current directory
    ren -R -d foo bar src            # recurse, and rename directories too
    ren --smart foo_bar hello_world  # FooBar -> HelloWorld, foo-bar -> hello-world
    ren --prepend '{N}_'             # number the files of each directory
    ren --dry-run foo bar            # show what would be done
    ren --preview foo bar            # decide on each entry

## Layout

- `src/` is the library. Everything in it is verified with Verus: each function
  states in its contract what it returns, and the `law_` functions state what
  holds of several functions together.
  - `text`, `path`, `sort`: strings, paths and sorting.
  - `matcher`, `variants`, `expressions`: what is found in a name, and what is put
    in its place.
  - `transforms`, `names`, `rename`: what becomes of a name, and the plan.
  - `conflicts`, `apply`, `moves`, `outcome`: what stands in the way of a plan, how
    it is carried out and taken back, what renames do to a disk, and what a run
    leaves on it.
  - `scan`, `io`: which entries are renamed.
  - `cli`, `flags`, `config`, `run`: what the command line, the environment and
    the configuration file ask for.
  - `diff`, `preview`, `summary`, `help`: what the user sees.
- `app/` is the program around it: arguments, files, the terminal.
- `tests/` runs the library.

What the library takes on trust are the functions of other crates and of the
standard library that it calls. Each stands behind a small function marked
`#[verifier::external_body]`, or an `assume_specification`, whose comment says
what is claimed of it.

## How a plan is carried out

Entries are taken by depth, the deepest first. Within a depth every entry is moved
aside to a temporary name beside it, and then to its target, so that swaps, chains
and changes of letter case all work the same way. If a target cannot be reached,
that depth is taken back to where it was; depths that are done stay done.
