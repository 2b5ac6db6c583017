//! What a run does next, as far as that depends on plain facts.

use vstd::prelude::*;
use crate::cli;
use crate::cli::Cli;
use crate::diff;
use crate::expressions;
use crate::expressions::{CompileOptions, CompiledExpression, Defect, Rewriter, Rule};
use crate::names;
use crate::names::ExtensionScope;
use crate::path;
use crate::path::PathName;
use crate::rename;
use crate::rename::PlanEntry;
use crate::scan;
use crate::scan::{Found, PathRecord};
use crate::text;
use crate::transforms::TransformOptions;

verus! {

// ---- how a run begins ------------------------------------------------------------

/// How a run begins.
#[derive(Clone, Copy, Debug, PartialEq, Eq, Structural)]
pub enum Start {
    /// The user wants the long help.
    LongHelp,
    /// The user wants the short help.
    ShortHelp,
    /// The user has asked for nothing.
    Nothing,
    /// There is nothing to find.
    MissingFind,
    /// There is nothing to replace it by.
    MissingReplace,
    /// There is something to do.
    Work,
}

/// How a run begins.
pub open spec fn beginning(cli: Cli) -> Start {
    if cli.help_long {
        Start::LongHelp
    } else if cli.help {
        Start::ShortHelp
    } else if !cli.has_expressions() && cli.args@.len() == 0 && !cli.list_files
        && !cli.transforms() {
        Start::Nothing
    } else if cli.skipped() > cli.args@.len() {
        if cli.finds_only() || cli.args@.len() == 0 {
            Start::MissingFind
        } else {
            Start::MissingReplace
        }
    } else {
        Start::Work
    }
}

/// How a run begins.
pub fn start(cli: &Cli) -> (start: Start)
    ensures
        start == beginning(*cli),
        start is Work ==> cli.skipped() <= cli.args@.len(),
{
    if cli.help_long {
        Start::LongHelp
    } else if cli.help {
        Start::ShortHelp
    } else if !cli.uses_expressions() && cli.args.len() == 0 && !cli.list_files
        && !cli.uses_transforms() {
        Start::Nothing
    } else if cli.positional_skip() > cli.args.len() {
        if cli.is_find_only() || cli.args.len() == 0 {
            Start::MissingFind
        } else {
            Start::MissingReplace
        }
    } else {
        Start::Work
    }
}

impl Start {
    /// What is wrong with the command line, if something is missing from it.
    pub open spec fn complaint(self) -> Option<Seq<char>> {
        match self {
            Start::MissingFind => Some("missing required argument: <find>"@),
            Start::MissingReplace => Some("missing required argument: <replace>"@),
            _ => None,
        }
    }

    /// What is wrong with the command line, if something is missing from it.
    pub fn error(self) -> (out: Option<String>)
        ensures
            out is Some <==> self.complaint() is Some,
            out matches Some(s) ==> self.complaint() == Some(s@),
    {
        match self {
            Start::MissingFind => Some("missing required argument: <find>".to_string()),
            Start::MissingReplace => Some("missing required argument: <replace>".to_string()),
            _ => None,
        }
    }
}

/// Whether the paths are read from the standard input: they are if there are none
/// among the arguments and the input holds something.
pub open spec fn reads_input(cli: Cli, stdin_has_input: bool) -> bool {
    cli.args@.len() <= cli.skipped() && stdin_has_input
}

/// Whether the paths are read from the standard input. It is an error to ask for
/// zero bytes between them if they are not.
pub fn input_mode(cli: &Cli, stdin_has_input: bool) -> (out: Result<bool, String>)
    ensures
        match out {
            Ok(from_stdin) => {
                &&& from_stdin == reads_input(*cli, stdin_has_input)
                &&& cli.null ==> from_stdin
            },
            Err(message) => {
                &&& cli.null && !reads_input(*cli, stdin_has_input)
                &&& message@ == "--null requires reading filenames from stdin"@
            },
        },
{
    let from_stdin = cli.args.len() <= cli.positional_skip() && stdin_has_input;
    if cli.null && !from_stdin {
        Err("--null requires reading filenames from stdin".to_string())
    } else {
        Ok(from_stdin)
    }
}

/// Complains about the first of the paths that does not exist. `exists_now` tells
/// which of them do.
pub fn check_paths(dirs: &Vec<String>, exists_now: &Vec<bool>) -> (out: Result<(), String>)
    requires
        dirs@.len() == exists_now@.len(),
    ensures
        match out {
            Ok(()) => forall|i: int| 0 <= i < dirs@.len() ==> #[trigger] exists_now@[i],
            Err(message) => exists|i: int|
                0 <= i < dirs@.len() && !exists_now@[i] && (forall|k: int|
                    0 <= k < i ==> #[trigger] exists_now@[k]) && message@ == (
                #[trigger] dirs@[i])@ + ": no such file or directory"@,
        },
{
    for i in 0..dirs.len()
        invariant
            dirs@.len() == exists_now@.len(),
            forall|k: int| 0 <= k < i ==> #[trigger] exists_now@[k],
    {
        if !exists_now[i] {
            let mut message = dirs[i].clone();
            message.push_str(": no such file or directory");
            assert(message@ == dirs@[i as int]@ + ": no such file or directory"@);
            return Err(message);
        }
    }
    Ok(())
}

/// Complains if the user is to be asked but cannot be.
pub fn check_terminal(cli: &Cli, is_terminal: bool) -> (out: Result<(), String>)
    ensures
        out is Err <==> cli.preview && !is_terminal,
        out matches Err(message) ==> message@ == "--preview requires an interactive terminal"@,
{
    if cli.preview && !is_terminal {
        Err("--preview requires an interactive terminal".to_string())
    } else {
        Ok(())
    }
}

// ---- listing ---------------------------------------------------------------------

/// Whether one of the expressions finds something in a name, or there are none.
pub open spec fn matches_any(rewriters: Seq<Rewriter>, name: Seq<char>) -> bool {
    rewriters.len() == 0 || exists|i: int|
        0 <= i < rewriters.len() && (#[trigger] rewriters[i]).search.spans(name).len() > 0
}

/// The paths, as they are shown, of the records in whose name something is found.
pub open spec fn listing(rewriters: Seq<Rewriter>, records: Seq<Found>) -> Seq<Seq<char>>
    decreases records.len(),
{
    if records.len() == 0 {
        Seq::empty()
    } else {
        let before = listing(rewriters, records.drop_last());
        let r = records.last();
        match names::name_text(r.path) {
            Some(name) => if matches_any(rewriters, name) {
                before.push(diff::displayed(r.path))
            } else {
                before
            },
            None => before,
        }
    }
}

fn finds_in(exprs: &[CompiledExpression], name: &str) -> (found: bool)
    ensures
        found == matches_any(expressions::rewriters(exprs@), name@),
{
    if exprs.len() == 0 {
        return true;
    }
    let ghost all = expressions::rewriters(exprs@);
    for i in 0..exprs.len()
        invariant
            all == expressions::rewriters(exprs@),
            forall|k: int| 0 <= k < i ==> (#[trigger] all[k]).search.spans(name@).len() == 0,
    {
        assert(all[i as int] == exprs@[i as int]@);
        if exprs[i].regex().is_match(name) {
            return true;
        }
    }
    false
}

/// The paths of the records in whose name one of the expressions finds something:
/// of all of them if there are no expressions.
pub fn list_matches(records: &[PathRecord], exprs: &[CompiledExpression]) -> (lines: Vec<String>)
    ensures
        text::views(lines@) == listing(expressions::rewriters(exprs@), scan::found(records@)),
{
    let mut lines: Vec<String> = Vec::new();
    let ghost all = scan::found(records@);
    let ghost rewriters = expressions::rewriters(exprs@);
    assert(text::views(lines@) == Seq::<Seq<char>>::empty());
    for i in 0..records.len()
        invariant
            all == scan::found(records@),
            rewriters == expressions::rewriters(exprs@),
            text::views(lines@) == listing(rewriters, all.take(i as int)),
    {
        let r = &records[i];
        assert(all.take(i + 1).drop_last() == all.take(i as int));
        assert(all.take(i + 1).last() == r@);
        if let Some(name) = names::text_of_name(&r.path) {
            if finds_in(exprs, name.as_str()) {
                let ghost before = text::views(lines@);
                let line = diff::display_path(&r.path);
                lines.push(line);
                assert(text::views(lines@) == before.push(line@));
            }
        }
    }
    assert(all.take(all.len() as int) == all);
    lines
}

// ---- what is done with a plan ----------------------------------------------------

/// What comes of the entries that a run has to do with.
#[derive(Debug)]
pub enum Outcome {
    /// These lines are to be printed, and nothing else is to be done.
    Listing(Vec<String>),
    /// This is what is to be renamed.
    Plan(Vec<PlanEntry>),
    /// An expression that cannot be applied has met a name.
    Unusable,
}

/// Whether an expression that cannot be applied meets the name of a record.
pub open spec fn gets_stuck(
    rewriters: Seq<Rewriter>,
    scope: ExtensionScope,
    records: Seq<Found>,
) -> bool {
    !expressions::all_applicable(rewriters) && exists|i: int|
        0 <= i < records.len() && rename::worked_on(#[trigger] records[i], scope)
}

/// Lists the entries in whose name something is found, or plans what they are to be
/// renamed to, as the command line asks.
pub fn work(cli: &Cli, exprs: &[CompiledExpression], records: &[PathRecord]) -> (outcome: Outcome)
    ensures
        match outcome {
            Outcome::Listing(lines) => {
                &&& cli.list_files
                &&& text::views(lines@) == listing(
                    expressions::rewriters(exprs@),
                    scan::found(records@),
                )
            },
            Outcome::Plan(plan) => {
                &&& !cli.list_files
                &&& !gets_stuck(
                    expressions::rewriters(exprs@),
                    cli::asked_scope(*cli),
                    scan::found(records@),
                )
                &&& forall|opts: TransformOptions| #[trigger]
                    cli::asks_for_transforms(*cli, opts) ==> rename::planned(plan@)
                        == rename::settings(exprs@, cli::asked_scope(*cli), opts, None).plan(
                        scan::found(records@),
                    )
            },
            Outcome::Unusable => {
                &&& !cli.list_files
                &&& gets_stuck(
                    expressions::rewriters(exprs@),
                    cli::asked_scope(*cli),
                    scan::found(records@),
                )
            },
        },
{
    if cli.list_files {
        return Outcome::Listing(list_matches(records, exprs));
    }
    let scope = cli::scope_from_cli(cli);
    let ghost all = scan::found(records@);
    if !rename::can_plan(records, exprs, scope) {
        proof {
            let i = choose|i: int|
                0 <= i < records@.len() && rename::worked_on(#[trigger] records@[i]@, scope);
            assert(all[i] == records@[i]@);
        }
        return Outcome::Unusable;
    }
    proof {
        if gets_stuck(expressions::rewriters(exprs@), scope, all) {
            let i = choose|i: int|
                0 <= i < all.len() && rename::worked_on(#[trigger] all[i], scope);
            assert(records@[i]@ == all[i]);
        }
    }
    let transforms = cli::transform_options_from_cli(cli);
    let plan = rename::build_scoped_plan(records, exprs, scope, &transforms, None);
    proof {
        assert forall|opts: TransformOptions| #[trigger]
            cli::asks_for_transforms(*cli, opts) implies rename::planned(plan@)
            == rename::settings(exprs@, scope, opts, None).plan(all) by {
            rename::lemma_same_plan(
                rename::settings(exprs@, scope, transforms, None),
                rename::settings(exprs@, scope, opts, None),
                all,
                all.len() as int,
            );
        }
    }
    Outcome::Plan(plan)
}

/// What is done with a plan.
#[derive(Clone, Copy, Debug, PartialEq, Eq, Structural)]
pub enum PlanAction {
    /// The user decides on each entry, and those accepted are renamed.
    Preview,
    /// It is shown.
    Show,
    /// It is carried out.
    Apply,
}

/// What is done with a plan: it is carried out, unless the user wants to be asked
/// or wants to see it only.
pub fn plan_action(cli: &Cli) -> (action: PlanAction)
    ensures
        action == (if cli.preview {
            PlanAction::Preview
        } else if cli.dry_run {
            PlanAction::Show
        } else {
            PlanAction::Apply
        }),
{
    if cli.preview {
        PlanAction::Preview
    } else if cli.dry_run {
        PlanAction::Show
    } else {
        PlanAction::Apply
    }
}

/// What there is at the path of a directory.
#[derive(Clone, Copy, Debug, PartialEq, Eq, Structural)]
pub enum ParentState {
    /// A directory.
    Directory,
    /// Something else.
    Other,
    /// Nothing.
    Missing,
}

/// The directory that an entry is to move to, if it is not the current one.
pub open spec fn target_directory(new: Seq<u8>) -> Option<Seq<u8>> {
    match path::parent(new) {
        Some(dir) => if dir.len() > 0 {
            Some(dir)
        } else {
            None
        },
        None => None,
    }
}

/// The directory that the entry is to move to, if it is not the current one.
pub fn parent_to_check(entry: &PlanEntry) -> (dir: Option<PathName>)
    ensures
        dir is Some <==> target_directory(entry.new@) is Some,
        dir matches Some(d) ==> target_directory(entry.new@) == Some(d@),
{
    match entry.new.parent() {
        Some(dir) => if dir.bytes.len() > 0 {
            Some(dir)
        } else {
            None
        },
        None => None,
    }
}

/// Whether the directory that an entry is to move to has to be made, given what
/// there is at its path. It cannot be if there is something else.
pub fn must_create_parent(entry: &PlanEntry, dir: &PathName, state: ParentState) -> (out: Result<
    bool,
    String,
>)
    ensures
        match state {
            ParentState::Directory => out == Ok::<bool, String>(false),
            ParentState::Missing => out == Ok::<bool, String>(true),
            ParentState::Other => out is Err && out->Err_0@ == "cannot create parent directory "@
                + text::lossy(dir@)
                + ": a non-directory file already exists at that path (rename target: "@
                + text::lossy(entry.new@) + ")"@,
        },
{
    match state {
        ParentState::Directory => Ok(false),
        ParentState::Missing => Ok(true),
        ParentState::Other => {
            let mut message = "cannot create parent directory ".to_string();
            let shown = dir.to_text_lossy();
            message.push_str(shown.as_str());
            message.push_str(
                ": a non-directory file already exists at that path (rename target: ",
            );
            let target = entry.new.to_text_lossy();
            message.push_str(target.as_str());
            message.push_str(")");
            Err(message)
        },
    }
}

// ---- laws ------------------------------------------------------------------------

/// Where names are to be transformed and nothing else, every argument is a path,
/// and nothing is missing.
pub proof fn law_transforms_need_no_arguments(cli: Cli)
    requires
        cli.transforms_only(),
        !cli.help,
        !cli.help_long,
    ensures
        beginning(cli) is Work,
        cli.skipped() == 0,
        cli.find_argument() is None,
        cli.replace_argument() is None,
{
}

/// Where names are to be transformed and nothing else, there are no expressions,
/// whatever options are given that are about them: the transforms are all that is
/// done.
pub proof fn law_transforms_are_the_sole_stage(cli: Cli, opts: CompileOptions)
    requires
        cli.transforms_only(),
        text::views(opts.expressions@) == text::views(cli.expressions@),
        cli::maybe_text(opts.positional_find) == cli.find_argument(),
        cli::maybe_text(opts.positional_replace) == cli.replace_argument(),
        opts.list_files_find_only == cli.finds_only(),
    ensures
        opts.asked() == Some(Seq::<Rule>::empty()),
        expressions::compiled(opts.flags(), Seq::empty()) == Ok::<Seq<Rewriter>, Defect>(
            Seq::empty(),
        ),
{
    assert(opts.expressions@.len() == text::views(opts.expressions@).len());
    assert(cli.expressions@.len() == text::views(cli.expressions@).len());
}

/// Where the arguments hold something to find and to replace it by, a run with
/// fewer than two of them is refused.
pub proof fn law_find_and_replace_are_required(cli: Cli)
    requires
        !cli.help,
        !cli.help_long,
        !cli.has_expressions(),
        !cli.list_files,
        !cli.transforms(),
    ensures
        cli.args@.len() == 0 ==> beginning(cli) is Nothing,
        cli.args@.len() == 1 ==> beginning(cli) is MissingReplace,
        cli.args@.len() >= 2 ==> beginning(cli) is Work,
{
}

/// Without expressions, every record that has a name is listed.
pub proof fn law_everything_is_listed_without_expressions(records: Seq<Found>, i: int)
    requires
        0 <= i < records.len(),
        names::name_text(records[i].path) is Some,
    ensures
        listing(Seq::empty(), records).contains(diff::displayed(records[i].path)),
    decreases records.len(),
{
    let all = listing(Seq::empty(), records);
    let less = records.drop_last();
    let before = listing(Seq::empty(), less);
    if i < less.len() {
        law_everything_is_listed_without_expressions(less, i);
        let k = choose|k: int| 0 <= k < before.len() && before[k] == diff::displayed(less[i].path);
        assert(all[k] == before[k]);
    } else {
        assert(all[all.len() - 1] == diff::displayed(records[i].path));
    }
}

// ---- laws on what is done -----------------------------------------------------------

/// The long help goes before the short, and either before all else. Without anything
/// to do nothing is done. Where there are expressions, only names are listed, or there
/// are transforms, no argument is missing.
pub proof fn law_what_is_begun_with(cli: Cli)
    ensures
        cli.help_long ==> beginning(cli) is LongHelp,
        cli.help && !cli.help_long ==> beginning(cli) is ShortHelp,
        !cli.help && !cli.help_long && cli.expressions@.len() > 0 ==> beginning(cli) is Work,
        !cli.help && !cli.help_long && cli.list_files ==> beginning(cli) is Work,
        !cli.help && !cli.help_long && (cli.lower || cli.upper || cli.append is Some
            || cli.prepend is Some) ==> beginning(cli) is Work,
        !cli.help && !cli.help_long && cli.args@.len() >= 2 ==> beginning(cli) is Work,
        !cli.help && !cli.help_long && cli.expressions@.len() == 0 && !cli.list_files && !cli.lower
            && !cli.upper && cli.append is None && cli.prepend is None ==> {
            &&& cli.args@.len() == 0 ==> beginning(cli) is Nothing
            &&& cli.args@.len() == 1 ==> beginning(cli) is MissingReplace
        },
{
}

/// Paths are read from the standard input if it has any and none are named: a path
/// among the arguments goes before it.
pub proof fn law_named_paths_go_before_input(cli: Cli, stdin_has_input: bool)
    ensures
        reads_input(cli, false) == false,
        cli.args@.len() > cli.skipped() ==> !reads_input(cli, stdin_has_input),
        cli.args@.len() <= cli.skipped() ==> reads_input(cli, true),
{
}

/// Records are listed one by one, in order: each with a name in UTF-8 in which some
/// expression finds something, or each with such a name if there are none. They are
/// listed by their paths, without a `./` before them.
pub proof fn law_matching_records_are_listed(
    rewriters: Seq<Rewriter>,
    a: Seq<Found>,
    b: Seq<Found>,
    r: Found,
)
    ensures
        listing(rewriters, a + b) == listing(rewriters, a) + listing(rewriters, b),
        names::name_text(r.path) is None ==> listing(rewriters, seq![r]) == Seq::<Seq<char>>::empty(),
        names::name_text(r.path) matches Some(name) ==> {
            &&& rewriters.len() == 0 || (exists|i: int|
                0 <= i < rewriters.len() && (#[trigger] rewriters[i]).search.spans(name).len() > 0)
                ==> listing(rewriters, seq![r]) == seq![diff::displayed(r.path)]
            &&& rewriters.len() > 0 && (forall|i: int|
                0 <= i < rewriters.len() ==> (#[trigger] rewriters[i]).search.spans(name).len()
                    == 0) ==> listing(rewriters, seq![r]) == Seq::<Seq<char>>::empty()
        },
    decreases b.len(),
{
    assert(seq![r].drop_last() =~= Seq::<Found>::empty());
    assert(listing(rewriters, Seq::empty()) =~= Seq::<Seq<char>>::empty());
    if let Some(name) = names::name_text(r.path) {
        if matches_any(rewriters, name) {
            assert(listing(rewriters, seq![r]) =~= seq![diff::displayed(r.path)]);
        }
    }
    if b.len() == 0 {
        assert(a + b =~= a);
        assert(listing(rewriters, a) + listing(rewriters, b) =~= listing(rewriters, a));
    } else {
        assert((a + b).drop_last() =~= a + b.drop_last());
        law_matching_records_are_listed(rewriters, a, b.drop_last(), r);
        assert(listing(rewriters, a + b) =~= listing(rewriters, a) + listing(rewriters, b));
    }
}

/// The directory that has to be there for a target is the one that the target is in,
/// unless that is the present one.
pub proof fn law_targets_need_their_directories(dir: Seq<u8>, name: Seq<u8>)
    requires
        path::is_plain_name(name),
    ensures
        target_directory(path::join(dir, name)) is None ==> path::components(dir).len() == 0,
        target_directory(path::join(dir, name)) matches Some(d) ==> path::components(d)
            == path::components(dir),
        path::components(dir).len() > 0 ==> target_directory(path::join(dir, name)) is Some,
{
    let p = path::join(dir, name);
    path::law_join_stays_in_directory(dir, name);
    path::law_directory_and_name(p);
    path::law_bare_paths_have_no_name();
    if path::directory(p).len() == 0 {
        assert(path::directory(p) =~= Seq::<u8>::empty());
    }
}

/// Work gets stuck if and only if there is an expression that cannot be applied and a
/// record that is worked on.
pub proof fn law_unusable_expressions_stop_the_work(
    rewriters: Seq<Rewriter>,
    scope: ExtensionScope,
    records: Seq<Found>,
)
    ensures
        gets_stuck(rewriters, scope, records) <==> (exists|i: int|
            0 <= i < rewriters.len() && !(#[trigger] rewriters[i]).applicable()) && (exists|
            i: int,
        |
            0 <= i < records.len() && rename::worked_on(#[trigger] records[i], scope)),
{
}

/// What is missing is said.
pub proof fn law_missing_arguments_are_told()
    ensures
        Start::MissingFind.complaint() == Some("missing required argument: <find>"@),
        Start::MissingReplace.complaint() == Some("missing required argument: <replace>"@),
        Start::Work.complaint() is None,
        Start::Nothing.complaint() is None,
        Start::ShortHelp.complaint() is None,
        Start::LongHelp.complaint() is None,
{
}

} // verus!
