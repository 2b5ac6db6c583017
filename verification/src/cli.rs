//! The command line: what its options and arguments mean together.

use vstd::prelude::*;
use vstd::utf8::*;
use crate::expressions;
use crate::expressions::{CompileOptions, EXPR_SEP};
use crate::names::ExtensionScope;
use crate::path::PathName;
use crate::scan;
use crate::scan::FileSet;
use crate::text;
use crate::transforms::TransformOptions;

verus! {

/// The options and arguments of the command line.
#[derive(Debug)]
pub struct Cli {
    pub args: Vec<String>,
    pub help: bool,
    pub help_long: bool,
    pub files: Option<String>,
    pub null: bool,
    pub hidden: bool,
    pub no_ignore: bool,
    pub recursive: bool,
    pub include_dirs: bool,
    pub include_extension: bool,
    pub only_extension: bool,
    pub greedy: bool,
    pub ignore_case: bool,
    pub regexp: bool,
    pub smart: bool,
    pub lower: bool,
    pub upper: bool,
    pub prepend: Option<String>,
    pub append: Option<String>,
    pub expressions: Vec<String>,
    pub word_regexp: bool,
    pub list_files: bool,
    pub dry_run: bool,
    pub write: bool,
    pub preview: bool,
    pub create_dirs: bool,
}

// ---- what the arguments are ------------------------------------------------------

impl Cli {
    /// Whether there are expressions among the options.
    pub open spec fn has_expressions(&self) -> bool {
        self.expressions@.len() > 0
    }

    /// Whether the arguments hold something to find, and nothing to replace it by.
    pub open spec fn finds_only(&self) -> bool {
        !self.has_expressions() && self.list_files
    }

    /// Whether names are to be transformed.
    pub open spec fn transforms(&self) -> bool {
        self.lower || self.upper || self.append is Some || self.prepend is Some
    }

    /// Whether names are to be transformed, and nothing else: the arguments are
    /// then all paths.
    pub open spec fn transforms_only(&self) -> bool {
        self.transforms() && !self.has_expressions() && !self.finds_only()
    }

    /// How many of the arguments come before the paths.
    pub open spec fn skipped(&self) -> nat {
        if self.has_expressions() {
            0
        } else if self.finds_only() {
            if self.args@.len() == 0 {
                0
            } else {
                1
            }
        } else if self.transforms_only() {
            0
        } else {
            2
        }
    }

    /// Whether there are expressions among the options.
    pub fn uses_expressions(&self) -> (uses: bool)
        ensures
            uses == self.has_expressions(),
    {
        self.expressions.len() > 0
    }

    /// Whether the arguments hold something to find, and nothing to replace it by.
    pub fn is_find_only(&self) -> (only: bool)
        ensures
            only == self.finds_only(),
    {
        !self.uses_expressions() && self.list_files
    }

    /// Whether an option is given that is about regular expressions.
    pub fn is_regex(&self) -> (is: bool)
        ensures
            is == (self.regexp || self.ignore_case || self.greedy || self.word_regexp),
    {
        self.regexp || self.ignore_case || self.greedy || self.word_regexp
    }

    /// Whether names are to be transformed.
    pub fn uses_transforms(&self) -> (uses: bool)
        ensures
            uses == self.transforms(),
    {
        self.lower || self.upper || self.append.is_some() || self.prepend.is_some()
    }

    /// Whether names are to be transformed, and nothing else.
    pub fn is_transforms_only(&self) -> (only: bool)
        ensures
            only == self.transforms_only(),
    {
        self.uses_transforms() && !self.uses_expressions() && !self.is_find_only()
    }

    /// How many of the arguments come before the paths.
    pub fn positional_skip(&self) -> (skip: usize)
        ensures
            skip == self.skipped(),
    {
        if self.uses_expressions() {
            0
        } else if self.is_find_only() {
            if self.args.len() == 0 {
                0
            } else {
                1
            }
        } else if self.is_transforms_only() {
            0
        } else {
            2
        }
    }

    /// The paths to walk: those among the arguments, or the current directory if
    /// there are none.
    pub open spec fn roots(&self) -> Seq<Seq<char>> {
        let rest = text::views(self.args@).skip(self.skipped() as int);
        if rest.len() == 0 {
            seq!["."@]
        } else {
            rest
        }
    }

    /// The paths to walk.
    pub fn dirs(&self) -> (dirs: Vec<String>)
        requires
            self.skipped() <= self.args@.len(),
        ensures
            text::views(dirs@) == self.roots(),
    {
        let skip = self.positional_skip();
        let mut dirs = strings_from(&self.args, skip);
        if dirs.len() == 0 {
            dirs.push(".".to_string());
            assert(text::views(dirs@) == seq!["."@]);
        }
        dirs
    }

    /// The paths among the arguments.
    pub fn paths(&self) -> (paths: Vec<PathName>)
        ensures
            self.skipped() <= self.args@.len() ==> paths@.map_values(|p: PathName| p@)
                == text::views(self.args@).skip(self.skipped() as int).map_values(
                |s: Seq<char>| encode_utf8(s),
            ),
            self.skipped() > self.args@.len() ==> paths@.len() == 0,
    {
        let skip = self.positional_skip();
        let mut paths: Vec<PathName> = Vec::new();
        if skip > self.args.len() {
            return paths;
        }
        let ghost all = text::views(self.args@).skip(skip as int).map_values(
            |s: Seq<char>| encode_utf8(s),
        );
        for i in skip..self.args.len()
            invariant
                skip <= self.args@.len(),
                all == text::views(self.args@).skip(skip as int).map_values(
                    |s: Seq<char>| encode_utf8(s),
                ),
                paths@.map_values(|p: PathName| p@) == all.take(i - skip),
        {
            let ghost before = paths@.map_values(|p: PathName| p@);
            let path = PathName::from_text(self.args[i].as_str());
            paths.push(path);
            assert(paths@.map_values(|p: PathName| p@) == before.push(path@));
            assert(all[i - skip] == path@);
        }
        assert(all.take(all.len() as int) == all);
        paths
    }

    /// Which files the walk is restricted to: there is no restriction without a
    /// pattern that stands for a glob.
    pub fn file_set(&self) -> (set: Option<FileSet>)
        ensures
            match set {
                Some(s) => {
                    &&& self.files is Some
                    &&& s.case_insensitive
                    &&& text::views(s.matches@) == scan::globs_for(
                        text::split_on(self.files->0@, ','),
                    )
                    &&& s.matches@.len() > 0
                },
                None => self.files is None || scan::globs_for(
                    text::split_on(self.files->0@, ','),
                ).len() == 0,
            },
    {
        match &self.files {
            Some(patterns) => {
                let matches = scan::parse_file_globs(patterns.as_str());
                assert(matches@.len() == text::views(matches@).len());
                if matches.len() == 0 {
                    None
                } else {
                    Some(FileSet { matches, case_insensitive: true })
                }
            },
            None => None,
        }
    }

    /// What is to be found, where the arguments hold it.
    pub fn pattern(&self) -> (find: &str)
        requires
            self.args@.len() > 0,
        ensures
            find@ == self.args@[0]@,
    {
        self.args[0].as_str()
    }

    /// What it is to be replaced by, where the arguments hold it.
    pub fn replacement(&self) -> (replace: &str)
        requires
            self.args@.len() > 1,
        ensures
            replace@ == self.args@[1]@,
    {
        self.args[1].as_str()
    }
}

fn strings_from(list: &Vec<String>, from: usize) -> (rest: Vec<String>)
    requires
        from <= list@.len(),
    ensures
        text::views(rest@) == text::views(list@).skip(from as int),
        rest@.len() == list@.len() - from,
{
    let mut rest: Vec<String> = Vec::new();
    let ghost all = text::views(list@).skip(from as int);
    for i in from..list.len()
        invariant
            from <= list@.len(),
            all == text::views(list@).skip(from as int),
            rest@.len() == i - from,
            text::views(rest@) == all.take(i - from),
    {
        let ghost before = text::views(rest@);
        rest.push(list[i].clone());
        assert(text::views(rest@) == before.push(list@[i as int]@));
        assert(all[i - from] == list@[i as int]@);
    }
    assert(all.take(all.len() as int) == all);
    rest
}

// ---- expressions in the arguments ------------------------------------------------

/// The arguments with each expression that is given in two of them joined to one:
/// `-e find replace` and `-efind replace` both become `-e` and the two halves with
/// the separator between them.
pub open spec fn preprocessed(args: Seq<Seq<char>>) -> Seq<Seq<char>>
    decreases args.len(),
{
    if args.len() == 0 {
        Seq::empty()
    } else if args[0] == "-e"@ || args[0] == "--expression"@ {
        if args.len() == 1 {
            seq![args[0]]
        } else if args.len() == 2 {
            seq![args[0], args[1]]
        } else {
            seq![args[0], args[1].push(EXPR_SEP) + args[2]] + preprocessed(args.skip(3))
        }
    } else if text::starts_with(args[0], "-e"@) {
        if args.len() == 1 {
            seq!["-e"@, args[0].skip(2)]
        } else {
            seq!["-e"@, args[0].skip(2).push(EXPR_SEP) + args[1]] + preprocessed(args.skip(2))
        }
    } else {
        seq![args[0]] + preprocessed(args.skip(1))
    }
}

fn joined_halves(find: &str, replace: &str) -> (out: String)
    ensures
        out@ == find@.push(EXPR_SEP) + replace@,
{
    let mut out = find.to_string();
    out.push(EXPR_SEP);
    out.push_str(replace);
    out
}

/// Joins the halves of each expression, so that the second half can begin with a
/// hyphen without being taken for an option.
pub fn preprocess_expression_args(args: Vec<String>) -> (out: Vec<String>)
    ensures
        text::views(out@) == preprocessed(text::views(args@)),
{
    let mut out: Vec<String> = Vec::new();
    let mut i: usize = 0;
    let ghost all = text::views(args@);
    assert(all.skip(0) == all);
    assert(text::views(out@) + preprocessed(all) == preprocessed(all));
    while i < args.len()
        invariant
            i <= args@.len(),
            all == text::views(args@),
            preprocessed(all) == text::views(out@) + preprocessed(all.skip(i as int)),
        decreases args@.len() - i,
    {
        let ghost rest = all.skip(i as int);
        let ghost before = text::views(out@);
        let arg = &args[i];
        assert(rest[0] == arg@);
        let chars = text::chars_of(arg.as_str());
        assert(chars@.skip(0) == chars@);
        proof {
            reveal_strlit("-e");
        }
        if text::same_text(arg.as_str(), "-e") || text::same_text(arg.as_str(), "--expression") {
            out.push(arg.clone());
            assert(text::views(out@) == before.push(arg@));
            if args.len() - i == 1 {
                i = i + 1;
                assert(before.push(arg@) == before + seq![arg@]);
            } else if args.len() - i == 2 {
                out.push(args[i + 1].clone());
                assert(rest[1] == args@[i + 1]@);
                assert(text::views(out@) == before + seq![rest[0], rest[1]]);
                i = i + 2;
            } else {
                assert(rest[1] == args@[i + 1]@);
                assert(rest[2] == args@[i + 2]@);
                let pair = joined_halves(args[i + 1].as_str(), args[i + 2].as_str());
                out.push(pair);
                assert(text::views(out@) == before + seq![rest[0], pair@]);
                assert(rest.skip(3) == all.skip(i + 3));
                assert(before + (seq![rest[0], pair@] + preprocessed(rest.skip(3))) == before
                    + seq![rest[0], pair@] + preprocessed(rest.skip(3)));
                i = i + 3;
            }
        } else if text::chars_start_with(&chars, 0, "-e") {
            let find = text::string_of_range(&chars, 2, chars.len());
            assert(find@ == arg@.skip(2));
            out.push("-e".to_string());
            assert(text::views(out@) == before.push("-e"@));
            if args.len() - i == 1 {
                out.push(find);
                assert(text::views(out@) == before + seq!["-e"@, find@]);
                i = i + 1;
            } else {
                assert(rest[1] == args@[i + 1]@);
                let pair = joined_halves(find.as_str(), args[i + 1].as_str());
                out.push(pair);
                assert(text::views(out@) == before + seq!["-e"@, pair@]);
                assert(rest.skip(2) == all.skip(i + 2));
                assert(before + (seq!["-e"@, pair@] + preprocessed(rest.skip(2))) == before
                    + seq!["-e"@, pair@] + preprocessed(rest.skip(2)));
                i = i + 2;
            }
        } else {
            out.push(arg.clone());
            assert(text::views(out@) == before.push(arg@));
            assert(rest.skip(1) == all.skip(i + 1));
            assert(before + (seq![arg@] + preprocessed(rest.skip(1))) == before.push(arg@)
                + preprocessed(rest.skip(1)));
            i = i + 1;
        }
        assert(preprocessed(all) =~= text::views(out@) + preprocessed(all.skip(i as int)));
    }
    assert(all.skip(i as int) == Seq::<Seq<char>>::empty());
    assert(text::views(out@) + Seq::<Seq<char>>::empty() == text::views(out@));
    out
}

/// Arguments without an expression stay as they are.
pub proof fn law_other_arguments_stay(args: Seq<Seq<char>>)
    requires
        forall|i: int|
            0 <= i < args.len() ==> !text::starts_with(#[trigger] args[i], "-e"@) && args[i]
                != "--expression"@,
    ensures
        preprocessed(args) == args,
    decreases args.len(),
{
    if args.len() > 0 {
        assert(!text::starts_with(args[0], "-e"@) && args[0] != "--expression"@);
        assert("-e"@.take("-e"@.len() as int) == "-e"@);
        law_other_arguments_stay(args.skip(1));
        assert(seq![args[0]] + args.skip(1) == args);
    }
}

/// The halves of an expression reach the expression that is parsed, whatever the
/// second half begins with.
pub proof fn law_halves_reach_the_expression(
    find: Seq<char>,
    replace: Seq<char>,
    rest: Seq<Seq<char>>,
)
    requires
        !find.contains(EXPR_SEP),
    ensures
        ({
            let out = preprocessed(seq!["-e"@, find, replace] + rest);
            &&& out.len() >= 2
            &&& out[0] == "-e"@
            &&& expressions::parsed(out[1]) == Some(expressions::Rule { find, replace })
            &&& out.skip(2) == preprocessed(rest)
        }),
{
    let args = seq!["-e"@, find, replace] + rest;
    assert(args.skip(3) == rest);
    expressions::law_halves_come_back(find, replace);
    let out = preprocessed(args);
    assert(out.skip(2) == preprocessed(rest));
}

// ---- what is asked for -----------------------------------------------------------

/// The text of a string, if there is one.
pub open spec fn maybe_text(s: Option<String>) -> Option<Seq<char>> {
    match s {
        Some(t) => Some(t@),
        None => None,
    }
}

impl Cli {
    /// What is to be found, where the arguments hold it.
    pub open spec fn find_argument(&self) -> Option<Seq<char>> {
        if self.has_expressions() || self.args@.len() == 0 || self.transforms_only() {
            None
        } else {
            Some(self.args@[0]@)
        }
    }

    /// What it is to be replaced by, where the arguments hold it.
    pub open spec fn replace_argument(&self) -> Option<Seq<char>> {
        if self.has_expressions() || self.finds_only() || self.args@.len() < 2
            || self.transforms_only() {
            None
        } else {
            Some(self.args@[1]@)
        }
    }
}

fn copy_text(s: &Option<String>) -> (out: Option<String>)
    ensures
        maybe_text(out) == maybe_text(*s),
{
    match s {
        Some(t) => Some(t.clone()),
        None => None,
    }
}

/// What the command line asks for in the way of expressions.
pub fn compile_options_from_cli(cli: &Cli) -> (opts: CompileOptions)
    ensures
        opts.flags() == (expressions::Flags {
            regex: cli.regexp,
            ignore_case: cli.ignore_case,
            greedy: cli.greedy,
            word_regexp: cli.word_regexp,
            smart: cli.smart,
        }),
        text::views(opts.expressions@) == text::views(cli.expressions@),
        maybe_text(opts.positional_find) == cli.find_argument(),
        maybe_text(opts.positional_replace) == cli.replace_argument(),
        opts.list_files_find_only == cli.finds_only(),
{
    let find_only = cli.is_find_only();
    let transforms_only = cli.is_transforms_only();
    let positional_find = if cli.uses_expressions() || cli.args.len() == 0 || transforms_only {
        None
    } else {
        Some(cli.pattern().to_string())
    };
    let positional_replace = if cli.uses_expressions() || find_only || cli.args.len() < 2
        || transforms_only {
        None
    } else {
        Some(cli.replacement().to_string())
    };
    let expressions = strings_from(&cli.expressions, 0);
    assert(text::views(cli.expressions@).skip(0) == text::views(cli.expressions@));
    CompileOptions {
        regex: cli.regexp,
        ignore_case: cli.ignore_case,
        greedy: cli.greedy,
        word_regexp: cli.word_regexp,
        smart: cli.smart,
        expressions,
        positional_find,
        positional_replace,
        list_files_find_only: find_only,
    }
}

/// Whether the options are what the command line asks to be done to names.
pub open spec fn asks_for_transforms(cli: Cli, opts: TransformOptions) -> bool {
    &&& opts.lower == cli.lower
    &&& opts.upper == cli.upper
    &&& maybe_text(opts.append) == maybe_text(cli.append)
    &&& maybe_text(opts.prepend) == maybe_text(cli.prepend)
}

/// What the command line asks to be done to names.
pub fn transform_options_from_cli(cli: &Cli) -> (opts: TransformOptions)
    ensures
        asks_for_transforms(*cli, opts),
{
    TransformOptions {
        lower: cli.lower,
        upper: cli.upper,
        append: copy_text(&cli.append),
        prepend: copy_text(&cli.prepend),
    }
}

/// The part of names that the command line asks to be worked on.
pub open spec fn asked_scope(cli: Cli) -> ExtensionScope {
    if cli.only_extension {
        ExtensionScope::Only
    } else if cli.include_extension {
        ExtensionScope::Include
    } else {
        ExtensionScope::Exclude
    }
}

/// The part of names that the command line asks to be worked on.
pub fn scope_from_cli(cli: &Cli) -> (scope: ExtensionScope)
    ensures
        scope == asked_scope(*cli),
{
    if cli.only_extension {
        ExtensionScope::Only
    } else if cli.include_extension {
        ExtensionScope::Include
    } else {
        ExtensionScope::Exclude
    }
}

// ---- laws on arguments --------------------------------------------------------------

/// What comes before the first expression stays as it is, and what comes behind it is
/// gone through in the same way.
pub proof fn law_arguments_are_taken_in_order(args: Seq<Seq<char>>, rest: Seq<Seq<char>>)
    requires
        forall|i: int|
            0 <= i < args.len() ==> !text::starts_with(#[trigger] args[i], "-e"@) && args[i]
                != "--expression"@,
    ensures
        preprocessed(args + rest) == args + preprocessed(rest),
    decreases args.len(),
{
    if args.len() == 0 {
        assert(args + rest =~= rest);
        assert(args + preprocessed(rest) =~= preprocessed(rest));
    } else {
        let more = args.skip(1);
        assert forall|i: int| 0 <= i < more.len() implies !text::starts_with(
            #[trigger] more[i],
            "-e"@,
        ) && more[i] != "--expression"@ by {
            assert(more[i] == args[i + 1]);
        }
        law_arguments_are_taken_in_order(more, rest);
        assert((args + rest)[0] == args[0]);
        assert((args + rest).skip(1) =~= more + rest);
        assert("-e"@.take("-e"@.len() as int) =~= "-e"@);
        assert(args[0] != "-e"@);
        assert(seq![args[0]] + (more + preprocessed(rest)) =~= args + preprocessed(rest));
    }
}

/// The halves of an expression become one argument behind the switch, in whichever of
/// its three spellings that is given: `-e`, `--expression`, or `-e` with the first
/// half at once behind it.
pub proof fn law_switches_are_spelled_three_ways(
    find: Seq<char>,
    replace: Seq<char>,
    rest: Seq<Seq<char>>,
)
    ensures
        preprocessed(seq!["-e"@, find, replace] + rest) == seq![
            "-e"@,
            find.push(EXPR_SEP) + replace,
        ] + preprocessed(rest),
        preprocessed(seq!["--expression"@, find, replace] + rest) == seq![
            "--expression"@,
            find.push(EXPR_SEP) + replace,
        ] + preprocessed(rest),
        find.len() > 0 && "-e"@ + find != "--expression"@ ==> preprocessed(
            seq!["-e"@ + find, replace] + rest,
        ) == seq!["-e"@, find.push(EXPR_SEP) + replace] + preprocessed(rest),
{
    let short = seq!["-e"@, find, replace] + rest;
    assert(short[0] == "-e"@ && short[1] == find && short[2] == replace);
    assert(short.skip(3) =~= rest);
    let long = seq!["--expression"@, find, replace] + rest;
    assert(long[0] == "--expression"@ && long[1] == find && long[2] == replace);
    assert(long.skip(3) =~= rest);
    if find.len() > 0 && "-e"@ + find != "--expression"@ {
        let joined = "-e"@ + find;
        let once = seq![joined, replace] + rest;
        assert(once[0] == joined && once[1] == replace);
        assert(once.skip(2) =~= rest);
        assert(joined.take("-e"@.len() as int) =~= "-e"@);
        assert(joined.len() > "-e"@.len());
        reveal_strlit("-e");
        assert(joined.skip(2) =~= find);
    }
}

/// The arguments that are no paths are the two to find and to replace, the one to find
/// where names are listed, and none where there are expressions or nothing but
/// transforms is asked for. The rest are the paths, or the present directory.
pub proof fn law_arguments_before_the_paths(cli: Cli)
    ensures
        cli.expressions@.len() > 0 ==> cli.skipped() == 0 && cli.find_argument() is None
            && cli.replace_argument() is None,
        cli.expressions@.len() == 0 && cli.list_files ==> {
            &&& cli.skipped() == if cli.args@.len() > 0 {
                1nat
            } else {
                0
            }
            &&& cli.find_argument() == if cli.args@.len() > 0 {
                Some(cli.args@[0]@)
            } else {
                None
            }
            &&& cli.replace_argument() is None
            &&& cli.finds_only()
        },
        cli.expressions@.len() == 0 && !cli.list_files && (cli.lower || cli.upper
            || cli.append is Some || cli.prepend is Some) ==> cli.skipped() == 0
            && cli.find_argument() is None && cli.replace_argument() is None,
        cli.expressions@.len() == 0 && !cli.list_files && !cli.lower && !cli.upper
            && cli.append is None && cli.prepend is None ==> {
            &&& cli.skipped() == 2
            &&& cli.args@.len() >= 1 ==> cli.find_argument() == Some(cli.args@[0]@)
            &&& cli.args@.len() >= 2 ==> cli.replace_argument() == Some(cli.args@[1]@)
        },
        cli.args@.len() == cli.skipped() ==> cli.roots() == seq!["."@],
        cli.args@.len() > cli.skipped() ==> cli.roots().len() == cli.args@.len() - cli.skipped()
            && forall|i: int|
            0 <= i < cli.roots().len() ==> #[trigger] cli.roots()[i] == cli.args@[cli.skipped()
                + i]@,
        cli.finds_only() <==> cli.expressions@.len() == 0 && cli.list_files,
{
}

/// The extension alone is worked on if that is asked for, the whole name if that is,
/// and the stem if neither is.
pub proof fn law_stems_are_worked_on_by_default(cli: Cli)
    ensures
        !cli.only_extension && !cli.include_extension ==> asked_scope(cli)
            == ExtensionScope::Exclude,
        cli.include_extension && !cli.only_extension ==> asked_scope(cli)
            == ExtensionScope::Include,
        cli.only_extension ==> asked_scope(cli) == ExtensionScope::Only,
{
}

/// The transforms are those that the arguments ask for, each as it was given.
pub proof fn law_transforms_are_as_given(cli: Cli, opts: TransformOptions)
    requires
        asks_for_transforms(cli, opts),
    ensures
        opts.lower == cli.lower,
        opts.upper == cli.upper,
        opts.append is Some <==> cli.append is Some,
        opts.append is Some ==> opts.append->0@ == cli.append->0@,
        opts.prepend is Some <==> cli.prepend is Some,
        opts.prepend is Some ==> opts.prepend->0@ == cli.prepend->0@,
{
}

} // verus!
