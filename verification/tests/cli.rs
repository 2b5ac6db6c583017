use std::collections::{BTreeMap, BTreeSet};

use clap::builder::{BoolishValueParser, TypedValueParser};
use clap::{Arg, ArgAction, ArgMatches, Command};

use ren::apply::{Action, Applier, Event};
use ren::cli::{
    compile_options_from_cli, preprocess_expression_args, scope_from_cli,
    transform_options_from_cli, Cli,
};
use ren::config::Origin;
use ren::conflicts::validate_plan;
use ren::expressions::{compile_expressions, CompileOptions, EXPR_SEP};
use ren::flags::{
    arg_env_name, resolve_group, resolve_mutex_groups, same_tier_error, tier_of, Flag,
    FlagSources, Tier, ValueSource,
};
use ren::io::{paths_from_input, records_from_paths};
use ren::names::ExtensionScope;
use ren::path::PathName;
use ren::rename::PlanEntry;
use ren::run::{
    check_paths, check_terminal, input_mode, must_create_parent, parent_to_check, plan_action,
    start, work, Outcome, ParentState, PlanAction, Start,
};
use ren::scan::{select_records, EntryKind, PathRecord, WalkEntry};
use ren::summary::{count_files_and_dirs, plan_rows, summary_footer, summary_message};

// ---- a command line as the program takes it ------------------------------------

/// The switches: their ids, their long names, and the letters that stand for them.
const SWITCHES: [(&str, &str, Option<char>); 21] = [
    ("help_long", "help", None),
    ("null", "null", Some('0')),
    ("hidden", "hidden", Some('H')),
    ("no_ignore", "no-ignore", None),
    ("recursive", "recursive", Some('R')),
    ("include_dirs", "include-dirs", Some('d')),
    ("include_extension", "include-extension", Some('x')),
    ("only_extension", "only-extension", Some('X')),
    ("greedy", "greedy", Some('G')),
    ("ignore_case", "ignore-case", Some('i')),
    ("regexp", "regex", Some('r')),
    ("smart", "smart", Some('S')),
    ("lower", "lower", Some('L')),
    ("upper", "upper", Some('U')),
    ("word_regexp", "word-regexp", Some('w')),
    ("list_files", "list-files", Some('l')),
    ("dry_run", "dry-run", Some('n')),
    ("write", "write", Some('W')),
    ("preview", "preview", Some('p')),
    ("create_dirs", "create-dirs", None),
    ("help", "short-help", Some('h')),
];

fn command() -> Command {
    let mut cmd = Command::new("ren").disable_help_flag(true);
    for (id, long, short) in SWITCHES {
        let mut arg = Arg::new(id).long(long).action(ArgAction::SetTrue);
        if let Some(c) = short {
            arg = arg.short(c);
        }
        if id == "write" {
            arg = arg.short_alias('y');
        }
        cmd = cmd.arg(arg);
    }
    cmd.arg(Arg::new("files").short('f').long("files"))
        .arg(Arg::new("prepend").short('P').long("prepend"))
        .arg(Arg::new("append").short('A').long("append"))
        .arg(
            Arg::new("expressions")
                .short('e')
                .long("expression")
                .action(ArgAction::Append),
        )
        .arg(Arg::new("args").num_args(0..).action(ArgAction::Append))
}

fn strings(matches: &ArgMatches, id: &str) -> Vec<String> {
    matches
        .get_many::<String>(id)
        .map(|values| values.cloned().collect())
        .unwrap_or_default()
}

/// A command line, with what the environment adds to it.
struct Parsed {
    matches: ArgMatches,
    env: BTreeMap<&'static str, bool>,
    env_text: BTreeMap<&'static str, String>,
}

impl Parsed {
    fn on(&self, id: &'static str) -> bool {
        self.matches.get_flag(id) || self.env.get(id).copied().unwrap_or(false)
    }

    fn text(&self, id: &'static str) -> Option<String> {
        let given = self.matches.get_one::<String>(id).cloned();
        given.or_else(|| self.env_text.get(id).cloned())
    }

    fn source(&self, id: &'static str) -> Option<ValueSource> {
        if self.matches.get_flag(id) {
            Some(ValueSource::CommandLine)
        } else if self.env.contains_key(id) {
            Some(ValueSource::EnvVariable)
        } else {
            Some(ValueSource::DefaultValue)
        }
    }

    fn sources(&self) -> FlagSources {
        FlagSources {
            dry_run: self.source("dry_run"),
            write: self.source("write"),
            preview: self.source("preview"),
            list_files: self.source("list_files"),
            lower: self.source("lower"),
            upper: self.source("upper"),
            include_extension: self.source("include_extension"),
            only_extension: self.source("only_extension"),
        }
    }

    fn cli(&self) -> Cli {
        Cli {
            args: strings(&self.matches, "args"),
            help: self.on("help"),
            help_long: self.on("help_long"),
            files: self.text("files"),
            null: self.on("null"),
            hidden: self.on("hidden"),
            no_ignore: self.on("no_ignore"),
            recursive: self.on("recursive"),
            include_dirs: self.on("include_dirs"),
            include_extension: self.on("include_extension"),
            only_extension: self.on("only_extension"),
            greedy: self.on("greedy"),
            ignore_case: self.on("ignore_case"),
            regexp: self.on("regexp"),
            smart: self.on("smart"),
            lower: self.on("lower"),
            upper: self.on("upper"),
            prepend: self.text("prepend"),
            append: self.text("append"),
            expressions: strings(&self.matches, "expressions"),
            word_regexp: self.on("word_regexp"),
            list_files: self.on("list_files"),
            dry_run: self.on("dry_run"),
            write: self.on("write"),
            preview: self.on("preview"),
            create_dirs: self.on("create_dirs"),
        }
    }
}

fn try_parse(args: &[&str], env: &[(&str, &str)]) -> Result<Parsed, String> {
    let processed = preprocess_expression_args(args.iter().map(|s| s.to_string()).collect());
    let mut cmd = command();
    cmd.build();
    let matches = cmd
        .clone()
        .try_get_matches_from(processed)
        .map_err(|e| e.to_string())?;
    let mut parsed = Parsed {
        matches,
        env: BTreeMap::new(),
        env_text: BTreeMap::new(),
    };
    for (key, value) in env {
        for (id, _, _) in SWITCHES {
            if arg_env_name(id) == Some(*key) {
                let arg = cmd.get_arguments().find(|a| a.get_id() == id);
                let on = BoolishValueParser::new()
                    .parse_ref(&cmd, arg, (*value).as_ref())
                    .map_err(|e| e.to_string())?;
                parsed.env.insert(id, on);
            }
        }
        for id in ["prepend", "append"] {
            if arg_env_name(id) == Some(*key) {
                parsed.env_text.insert(id, value.to_string());
            }
        }
    }
    Ok(parsed)
}

fn parse_cli(args: &[&str]) -> Cli {
    match try_parse(args, &[]) {
        Ok(parsed) => parsed.cli(),
        Err(e) => panic!("{e}"),
    }
}

fn resolve_with_origin(
    args: &[&str],
    env: &[(&str, &str)],
    origin: &Origin,
) -> Result<Cli, String> {
    let parsed = try_parse(args, env)?;
    let mut cli = parsed.cli();
    match resolve_mutex_groups(&mut cli, &parsed.sources(), origin) {
        Ok(()) => Ok(cli),
        Err(e) => Err(e.message()),
    }
}

fn parse_and_resolve(args: &[&str]) -> Result<Cli, String> {
    resolve_with_origin(args, &[], &Origin::default())
}

fn fake_config_origin(keys: &[&str]) -> Origin {
    let mut origin = Origin::default();
    for k in keys {
        origin.mark_as_config_derived(k);
    }
    origin
}

fn path(text: &str) -> PathName {
    PathName::from_text(text)
}

// ---- arguments -----------------------------------------------------------------

#[test]
fn test_cli_is_regex_any_flag_enables_regex() {
    assert!(!parse_cli(&["ren", "a", "b"]).is_regex());
    assert!(parse_cli(&["ren", "-r", "a", "b"]).is_regex());
    assert!(parse_cli(&["ren", "-i", "a", "b"]).is_regex());
    assert!(parse_cli(&["ren", "-w", "a", "b"]).is_regex());
    assert!(parse_cli(&["ren", "-G", "a", "b"]).is_regex());
    assert!(!parse_cli(&["ren", "-R", "a", "b"]).is_regex());
    assert!(!parse_cli(&["ren", "--include-dirs", "a", "b"]).is_regex());
}

#[test]
fn test_cli_positional_skip() {
    assert_eq!(parse_cli(&["ren", "a", "b"]).positional_skip(), 2);
    assert_eq!(parse_cli(&["ren", "-e", "a", "b"]).positional_skip(), 0);
    assert_eq!(parse_cli(&["ren", "-l"]).positional_skip(), 0);
    assert_eq!(parse_cli(&["ren", "-l", "a"]).positional_skip(), 1);
    assert_eq!(parse_cli(&["ren", "-l", "a", "b"]).positional_skip(), 1);
    assert_eq!(parse_cli(&["ren", "-R", "a", "b"]).positional_skip(), 2);
    assert_eq!(
        parse_cli(&["ren", "--include-dirs", "a", "b"]).positional_skip(),
        2
    );
    assert_eq!(
        parse_cli(&["ren", "-R", "--include-dirs", "a", "b"]).positional_skip(),
        2
    );
    assert_eq!(parse_cli(&["ren", "-U"]).positional_skip(), 0);
    assert_eq!(parse_cli(&["ren", "-U", "a"]).positional_skip(), 0);
    assert_eq!(parse_cli(&["ren", "-U", "a", "b"]).positional_skip(), 0);
    assert_eq!(
        parse_cli(&["ren", "-U", "a", "b", "c"]).positional_skip(),
        0
    );
    assert_eq!(parse_cli(&["ren", "-L", "a", "b"]).positional_skip(), 0);
    assert_eq!(
        parse_cli(&["ren", "-A", "_suffix", "a", "b"]).positional_skip(),
        0
    );
    assert_eq!(
        parse_cli(&["ren", "-P", "pfx_", "a", "b"]).positional_skip(),
        0
    );
    assert_eq!(
        parse_cli(&["ren", "-e", "a", "b", "-U", "x", "y"]).positional_skip(),
        0
    );
}

#[test]
fn test_transforms_only_treats_all_positionals_as_paths() {
    let cli = parse_cli(&["ren", "-U", "a", "b", "c"]);
    assert_eq!(cli.dirs(), vec!["a", "b", "c"]);
}

#[test]
fn test_cli_is_find_only() {
    assert!(parse_cli(&["ren", "-l", "a"]).is_find_only());
    assert!(parse_cli(&["ren", "-l", "a", "b"]).is_find_only());
    assert!(!parse_cli(&["ren", "a", "b"]).is_find_only());
    assert!(!parse_cli(&["ren", "-l", "-e", "a", "b"]).is_find_only());
}

#[test]
fn test_list_files_mode_treats_trailing_positionals_as_paths() {
    let cli = parse_cli(&["ren", "-l", "TODO", "src", "tests"]);
    assert_eq!(cli.positional_skip(), 1);
    assert_eq!(cli.pattern(), "TODO");
    assert_eq!(cli.paths(), vec![path("src"), path("tests")]);
}

#[test]
fn test_list_files_without_find_pattern() {
    let bare = parse_cli(&["ren", "-l"]);
    assert_eq!(bare.positional_skip(), 0);
    assert!(bare.paths().is_empty());
    assert_eq!(bare.dirs(), vec!["."]);

    let filtered = parse_cli(&["ren", "-f", "go", "-l"]);
    assert_eq!(filtered.positional_skip(), 0);
    assert!(filtered.paths().is_empty());
    assert_eq!(filtered.files.as_deref(), Some("go"));
}

#[test]
fn test_cli_dirs_defaults_to_current_directory() {
    assert_eq!(parse_cli(&["ren", "a", "b"]).dirs(), vec!["."]);
}

#[test]
fn test_cli_dirs_uses_trailing_positionals() {
    let cli = parse_cli(&["ren", "a", "b", "src", "tests"]);
    assert_eq!(cli.dirs(), vec!["src", "tests"]);
}

#[test]
fn test_cli_paths_skips_find_and_replace() {
    let cli = parse_cli(&["ren", "a", "b", "src", "tests"]);
    assert_eq!(cli.paths(), vec![path("src"), path("tests")]);
}

#[test]
fn test_cli_dirs_with_recursive_flag_unchanged() {
    let cli = parse_cli(&["ren", "-R", "a", "b", "src"]);
    assert_eq!(cli.dirs(), vec!["src"]);
    assert_eq!(cli.paths(), vec![path("src")]);
    assert!(cli.recursive);
}

#[test]
fn test_cli_dirs_with_include_dirs_flag_unchanged() {
    let cli = parse_cli(&["ren", "--include-dirs", "a", "b", "src"]);
    assert_eq!(cli.dirs(), vec!["src"]);
    assert_eq!(cli.paths(), vec![path("src")]);
    assert!(cli.include_dirs);
}

#[test]
fn test_transform_short_flags_parse() {
    let lower = parse_cli(&["ren", "-L"]);
    assert!(lower.lower);
    assert!(!lower.upper);

    let upper = parse_cli(&["ren", "-U"]);
    assert!(upper.upper);
    assert!(!upper.lower);
}

#[test]
fn test_prepend_and_append_short_flags_parse() {
    let cli = parse_cli(&["ren", "-P", "{N}_", "-A=-{n}"]);
    assert_eq!(cli.prepend.as_deref(), Some("{N}_"));
    assert_eq!(cli.append.as_deref(), Some("-{n}"));
}

#[test]
fn test_expression_mode_without_paths_defaults_to_current_dir() {
    let cli = parse_cli(&["ren", "-e", "a", "b", "-e", "b", "c", "--dry-run"]);
    assert!(cli.paths().is_empty());
    assert_eq!(cli.dirs(), vec!["."]);
}

#[test]
fn a_restriction_needs_a_glob() {
    let set = parse_cli(&["ren", "-f", "rs,!=Makefile", "a", "b"]).file_set();
    let set = match set {
        Some(set) => set,
        None => panic!("no file set"),
    };
    assert_eq!(set.matches, vec!["*.rs", "!Makefile"]);
    assert!(set.case_insensitive);
    assert!(parse_cli(&["ren", "-f", ".", "a", "b"]).file_set().is_none());
    assert!(parse_cli(&["ren", "a", "b"]).file_set().is_none());
}

// ---- the environment -----------------------------------------------------------

#[test]
fn test_env_defaults_enable_boolean_flags() {
    let env = [
        ("REN_HIDDEN", "1"),
        ("REN_NO_IGNORE", "true"),
        ("REN_RECURSIVE", "1"),
        ("REN_INCLUDE_DIRS", "true"),
        ("REN_INCLUDE_EXTENSION", "1"),
        ("REN_SMART", "TRUE"),
        ("REN_IGNORE_CASE", "1"),
        ("REN_GREEDY", "1"),
        ("REN_REGEX", "1"),
        ("REN_WORD_REGEXP", "1"),
        ("REN_DRY_RUN", "1"),
        ("REN_CREATE_DIRS", "true"),
    ];
    let cli = resolve_with_origin(&["ren", "foo", "bar"], &env, &Origin::default()).unwrap();
    assert!(cli.hidden);
    assert!(cli.no_ignore);
    assert!(cli.recursive);
    assert!(cli.include_dirs);
    assert!(cli.include_extension);
    assert!(!cli.only_extension);
    assert!(cli.smart);
    assert!(cli.ignore_case);
    assert!(cli.greedy);
    assert!(cli.regexp);
    assert!(cli.word_regexp);
    assert!(cli.dry_run);
    assert!(cli.create_dirs);
}

#[test]
fn test_env_only_extension_branch_of_mutex_group() {
    let env = [("REN_ONLY_EXTENSION", "1")];
    let cli = resolve_with_origin(&["ren", "rs", "txt"], &env, &Origin::default()).unwrap();
    assert!(cli.only_extension);
    assert!(!cli.include_extension);
}

#[test]
fn test_env_prepend_and_append_string_values() {
    let env = [("REN_PREPEND", "{N}_"), ("REN_APPEND", "-{n}")];
    let cli = resolve_with_origin(&["ren"], &env, &Origin::default()).unwrap();
    assert_eq!(cli.prepend.as_deref(), Some("{N}_"));
    assert_eq!(cli.append.as_deref(), Some("-{n}"));
}

#[test]
fn test_env_empty_string_for_optional_strings_is_unset() {
    let env = [("REN_PREPEND", ""), ("REN_APPEND", "")];
    let cli = resolve_with_origin(&["ren", "foo", "bar"], &env, &Origin::default()).unwrap();
    assert!(cli.prepend.is_none());
    assert!(cli.append.is_none());
    assert!(!cli.uses_transforms());
}

#[test]
fn test_env_defaults_falsy_values_are_ignored() {
    let env = [
        ("REN_HIDDEN", "0"),
        ("REN_RECURSIVE", "false"),
        ("REN_INCLUDE_DIRS", "FALSE"),
        ("REN_SMART", "false"),
    ];
    let cli = resolve_with_origin(&["ren", "foo", "bar"], &env, &Origin::default()).unwrap();
    assert!(!cli.hidden);
    assert!(!cli.recursive);
    assert!(!cli.include_dirs);
    assert!(!cli.smart);
}

#[test]
fn test_env_empty_string_for_bool_is_rejected() {
    let env = [("REN_INCLUDE_DIRS", "")];
    let err = resolve_with_origin(&["ren", "foo", "bar"], &env, &Origin::default())
        .err()
        .expect("empty bool should fail to parse");
    assert!(
        err.to_ascii_lowercase().contains("include-dirs"),
        "error should name the offending flag, got: {err}"
    );
}

#[test]
fn test_cli_write_beats_shell_env_dry_run() {
    let env = [("REN_DRY_RUN", "1")];
    let cli = resolve_with_origin(&["ren", "-W", "foo", "bar"], &env, &Origin::default()).unwrap();
    assert!(cli.write);
    assert!(!cli.dry_run);
}

#[test]
fn test_write_and_dry_run_cli_conflict_errors() {
    let msg = parse_and_resolve(&["ren", "--write", "--dry-run", "foo", "bar"])
        .err()
        .expect("CLI write/dry-run conflict expected");
    assert!(
        msg.contains("--write") && msg.contains("--dry-run"),
        "expected CLI mutex error naming both flags, got: {msg}"
    );
}

#[test]
fn test_write_and_preview_cli_conflict_errors() {
    let msg = parse_and_resolve(&["ren", "--write", "--preview", "foo", "bar"])
        .err()
        .expect("CLI write/preview conflict expected");
    assert!(
        msg.contains("--write") && msg.contains("--preview"),
        "expected CLI mutex error naming both flags, got: {msg}"
    );
}

#[test]
fn test_write_short_alias_y_parses() {
    let cli = parse_cli(&["ren", "-y", "foo", "bar"]);
    assert!(cli.write);
}

#[test]
fn test_lower_and_upper_are_mutex_on_cli() {
    let err = parse_and_resolve(&["ren", "--lower", "--upper", "foo", "bar"])
        .err()
        .expect("CLI lower/upper conflict expected");
    assert!(
        err.contains("--lower") && err.contains("--upper"),
        "expected CLI mutex error, got: {err}"
    );
}

#[test]
fn test_include_and_only_extension_are_mutex_on_cli() {
    let err = parse_and_resolve(&[
        "ren",
        "--include-extension",
        "--only-extension",
        "foo",
        "bar",
    ])
    .err()
    .expect("CLI ext conflict expected");
    assert!(
        err.contains("--include-extension") && err.contains("--only-extension"),
        "expected CLI mutex error, got: {err}"
    );
}

#[test]
fn test_cli_lower_beats_shell_env_upper() {
    let env = [("REN_UPPER", "true")];
    let cli =
        resolve_with_origin(&["ren", "--lower", "foo", "bar"], &env, &Origin::default()).unwrap();
    assert!(cli.lower);
    assert!(!cli.upper);
}

#[test]
fn test_shell_env_beats_config_in_mutex_group() {
    let env = [("REN_LOWER", "true"), ("REN_UPPER", "true")];
    let origin = fake_config_origin(&["REN_LOWER"]);
    let cli = resolve_with_origin(&["ren", "foo", "bar"], &env, &origin).unwrap();
    assert!(
        cli.upper,
        "shell REN_UPPER must beat config-derived REN_LOWER"
    );
    assert!(!cli.lower);
}

#[test]
fn test_two_shell_env_vars_in_one_group_errors() {
    let env = [("REN_LOWER", "true"), ("REN_UPPER", "true")];
    let err = resolve_with_origin(&["ren", "foo", "bar"], &env, &Origin::default())
        .err()
        .expect("expected resolver error");
    assert!(
        err.contains("environment variables"),
        "expected env-conflict wording, got: {err}"
    );
}

#[test]
fn test_two_config_keys_in_one_group_errors() {
    let env = [("REN_LOWER", "true"), ("REN_UPPER", "true")];
    let origin = fake_config_origin(&["REN_LOWER", "REN_UPPER"]);
    let err = resolve_with_origin(&["ren", "foo", "bar"], &env, &origin)
        .err()
        .expect("expected resolver error");
    assert!(
        err.contains("config sets"),
        "expected config-conflict wording, got: {err}"
    );
}

#[test]
fn test_cli_only_extension_beats_shell_env_include_extension() {
    let env = [("REN_INCLUDE_EXTENSION", "true")];
    let cli = resolve_with_origin(
        &["ren", "--only-extension", "rs", "txt"],
        &env,
        &Origin::default(),
    )
    .unwrap();
    assert!(cli.only_extension);
    assert!(!cli.include_extension);
}

#[test]
fn test_shell_env_beats_config_in_extension_group() {
    let env = [
        ("REN_INCLUDE_EXTENSION", "true"),
        ("REN_ONLY_EXTENSION", "true"),
    ];
    let origin = fake_config_origin(&["REN_INCLUDE_EXTENSION"]);
    let cli = resolve_with_origin(&["ren", "rs", "txt"], &env, &origin).unwrap();
    assert!(
        cli.only_extension,
        "shell REN_ONLY_EXTENSION must beat config-derived REN_INCLUDE_EXTENSION"
    );
    assert!(!cli.include_extension);
}

#[test]
fn test_two_shell_env_vars_in_extension_group_errors() {
    let env = [
        ("REN_INCLUDE_EXTENSION", "true"),
        ("REN_ONLY_EXTENSION", "true"),
    ];
    let err = resolve_with_origin(&["ren", "rs", "txt"], &env, &Origin::default())
        .err()
        .expect("expected resolver error");
    assert!(
        err.contains("environment variables"),
        "expected env-conflict wording, got: {err}"
    );
}

#[test]
fn test_cli_flag_wins_over_env_for_booleans() {
    let env = [("REN_RECURSIVE", "0")];
    let cli = resolve_with_origin(&["ren", "-R", "foo", "bar"], &env, &Origin::default()).unwrap();
    assert!(cli.recursive);
}

/// The options that a variable can stand for.
const ENV_NAMES: [(&str, &str); 18] = [
    ("hidden", "REN_HIDDEN"),
    ("no_ignore", "REN_NO_IGNORE"),
    ("recursive", "REN_RECURSIVE"),
    ("include_dirs", "REN_INCLUDE_DIRS"),
    ("include_extension", "REN_INCLUDE_EXTENSION"),
    ("only_extension", "REN_ONLY_EXTENSION"),
    ("greedy", "REN_GREEDY"),
    ("ignore_case", "REN_IGNORE_CASE"),
    ("regexp", "REN_REGEX"),
    ("word_regexp", "REN_WORD_REGEXP"),
    ("smart", "REN_SMART"),
    ("lower", "REN_LOWER"),
    ("upper", "REN_UPPER"),
    ("prepend", "REN_PREPEND"),
    ("append", "REN_APPEND"),
    ("dry_run", "REN_DRY_RUN"),
    ("preview", "REN_PREVIEW"),
    ("create_dirs", "REN_CREATE_DIRS"),
];

#[test]
fn test_arg_env_name_matches_clap_spec() {
    let mut cmd = command();
    for (id, env) in ENV_NAMES {
        cmd = cmd.mut_arg(id, |arg| arg.env(env));
    }
    cmd = cmd.mut_arg("write", |arg| arg.env("REN_WRITE"));
    let mut declared_names: usize = 0;
    for arg in cmd.get_arguments() {
        if let Some(declared) = arg.get_env() {
            let id = arg.get_id().as_str();
            let mapped = arg_env_name(id);
            assert_eq!(
                mapped,
                Some(declared.to_str().expect("env name is UTF-8")),
                "arg_env_name({id}) does not match clap's env attribute",
            );
            declared_names += 1;
        }
    }
    assert_eq!(declared_names, 19);
    for id in ["args", "help", "help_long", "files", "null", "expressions", "list_files"] {
        assert_eq!(arg_env_name(id), None);
    }
}

// ---- groups --------------------------------------------------------------------

#[test]
fn clashes_are_put_into_words() {
    assert_eq!(
        same_tier_error(Tier::Cli, &vec!["dry_run", "write"]),
        "the following flags cannot be used together: --dry-run / --write"
    );
    assert_eq!(
        same_tier_error(Tier::ShellEnv, &vec!["dry_run", "list_files"]),
        "conflicting environment variables: REN_DRY_RUN / REN_LIST_FILES"
    );
    assert_eq!(
        same_tier_error(Tier::Config, &vec!["include_extension", "only_extension"]),
        "config sets conflicting keys: `include-extension` / `only-extension`"
    );
}

#[test]
fn tiers_depend_on_where_a_value_comes_from() {
    let origin = fake_config_origin(&["REN_LOWER"]);
    let env = Some(ValueSource::EnvVariable);
    assert_eq!(tier_of("lower", Some(ValueSource::CommandLine), &origin), Some(Tier::Cli));
    assert_eq!(tier_of("lower", env, &origin), Some(Tier::Config));
    assert_eq!(tier_of("upper", env, &origin), Some(Tier::ShellEnv));
    assert_eq!(tier_of("list_files", env, &origin), None);
    assert_eq!(tier_of("lower", Some(ValueSource::DefaultValue), &origin), None);
    assert_eq!(tier_of("lower", None, &origin), None);
    assert_eq!(Tier::Config.index(), 0);
    assert_eq!(Tier::ShellEnv.index(), 1);
    assert_eq!(Tier::Cli.index(), 2);
}

#[test]
fn the_heaviest_option_that_is_on_wins() {
    let flag = |id, active, source| Flag {
        id,
        active,
        source: Some(source),
    };
    let origin = fake_config_origin(&["REN_WRITE"]);
    let group = vec![
        flag("dry_run", true, ValueSource::EnvVariable),
        flag("write", true, ValueSource::EnvVariable),
        flag("preview", false, ValueSource::CommandLine),
    ];
    assert!(matches!(resolve_group(&group, &origin), Ok(Some("dry_run"))));
    assert!(matches!(resolve_group(&Vec::new(), &origin), Ok(None)));
    match resolve_group(&group, &Origin::default()) {
        Err(e) => {
            assert_eq!(e.tier, Tier::ShellEnv);
            assert_eq!(e.ids, vec!["dry_run", "write"]);
        }
        Ok(_) => panic!("no clash"),
    }
}

#[test]
fn the_command_line_is_kept_up_to_the_first_clash() {
    let parsed = try_parse(
        &["ren", "-n", "-L", "-U", "a", "b"],
        &[("REN_PREVIEW", "1"), ("REN_PREPEND", "")],
    )
    .unwrap();
    let mut cli = parsed.cli();
    assert!(cli.preview);
    assert!(resolve_mutex_groups(&mut cli, &parsed.sources(), &Origin::default()).is_err());
    assert!(cli.dry_run && !cli.preview);
    assert!(cli.lower && cli.upper);
    assert_eq!(cli.prepend.as_deref(), Some(""));
}

// ---- what is asked for ---------------------------------------------------------

fn options(args: &[&str]) -> CompileOptions {
    compile_options_from_cli(&parse_cli(args))
}

#[test]
fn test_compile_options_literal_find_replace() {
    let opts = options(&["ren", "foo", "bar"]);
    assert_eq!(opts.positional_find.as_deref(), Some("foo"));
    assert_eq!(opts.positional_replace.as_deref(), Some("bar"));
    assert!(!opts.list_files_find_only);
    assert!(opts.expressions.is_empty());
}

#[test]
fn test_compile_options_expression_mode_drops_positionals() {
    let opts = options(&["ren", "-e", "a", "b"]);
    assert!(opts.positional_find.is_none());
    assert!(opts.positional_replace.is_none());
    assert!(!opts.list_files_find_only);
    assert_eq!(opts.expressions.len(), 1);
}

#[test]
fn test_compile_options_list_files_find_only() {
    let opts = options(&["ren", "-l", "TODO"]);
    assert!(opts.list_files_find_only);
    assert_eq!(opts.positional_find.as_deref(), Some("TODO"));
    assert!(opts.positional_replace.is_none());
}

#[test]
fn test_compile_options_list_files_with_expressions_is_not_find_only() {
    let opts = options(&["ren", "-l", "-e", "a", "b"]);
    assert!(!opts.list_files_find_only);
}

#[test]
fn test_compile_options_carries_regex_flags() {
    let opts = options(&["ren", "-r", "-i", "-G", "-w", "foo", "bar"]);
    assert!(opts.regex);
    assert!(opts.ignore_case);
    assert!(opts.greedy);
    assert!(opts.word_regexp);
}

#[test]
fn transforms_take_no_find_and_replace() {
    let opts = options(&["ren", "-L", "foo", "bar"]);
    assert!(opts.positional_find.is_none());
    assert!(opts.positional_replace.is_none());
    let wanted = transform_options_from_cli(&parse_cli(&["ren", "-L", "-P", "p", "-A", "a"]));
    assert!(wanted.lower && !wanted.upper);
    assert_eq!(wanted.prepend.as_deref(), Some("p"));
    assert_eq!(wanted.append.as_deref(), Some("a"));
}

#[test]
fn the_scope_follows_the_options() {
    let scope = |args: &[&str]| scope_from_cli(&parse_cli(args));
    assert_eq!(scope(&["ren", "a", "b"]), ExtensionScope::Exclude);
    assert_eq!(scope(&["ren", "-x", "a", "b"]), ExtensionScope::Include);
    assert_eq!(scope(&["ren", "-X", "a", "b"]), ExtensionScope::Only);
}

#[test]
fn test_preprocess_expression_args_joins_pair_with_separator() {
    let args = preprocess_expression_args(
        ["ren", "-e", "foo", "bar"]
            .iter()
            .map(|s| (*s).to_string())
            .collect(),
    );
    assert_eq!(args, vec!["ren", "-e", &format!("foo{EXPR_SEP}bar")]);
}

#[test]
fn test_preprocess_expression_args_compact_form() {
    let args = preprocess_expression_args(
        ["ren", "-efoo", "bar"]
            .iter()
            .map(|s| (*s).to_string())
            .collect(),
    );
    assert_eq!(args, vec!["ren", "-e", &format!("foo{EXPR_SEP}bar")]);
}

#[test]
fn unfinished_expressions_are_passed_on() {
    let pre = |args: &[&str]| {
        preprocess_expression_args(args.iter().map(|s| s.to_string()).collect())
    };
    assert_eq!(pre(&["-e"]), vec!["-e"]);
    assert_eq!(pre(&["-e", "a"]), vec!["-e", "a"]);
    assert_eq!(pre(&["-ea"]), vec!["-e", "a"]);
    assert_eq!(
        pre(&["--expression", "a", "-e", "-e", "b", "-c"]),
        vec!["--expression", "a\0-e", "-e", "b\0-c"]
    );
    assert_eq!(pre(&["a", "--exp", "-E", "b"]), vec!["a", "--exp", "-E", "b"]);
}

// ---- how a run begins ----------------------------------------------------------

#[test]
fn something_must_be_asked_for() {
    let begin = |args: &[&str]| start(&parse_cli(args));
    assert_eq!(begin(&["ren"]), Start::Nothing);
    assert_eq!(begin(&["ren", "a"]), Start::MissingReplace);
    assert_eq!(begin(&["ren", "a", "b"]), Start::Work);
    assert_eq!(begin(&["ren", "-l"]), Start::Work);
    assert_eq!(begin(&["ren", "-L"]), Start::Work);
    assert_eq!(begin(&["ren", "-h", "--help"]), Start::LongHelp);
    assert_eq!(begin(&["ren", "-h"]), Start::ShortHelp);
    assert_eq!(
        Start::MissingReplace.error().as_deref(),
        Some("missing required argument: <replace>")
    );
    assert_eq!(
        Start::MissingFind.error().as_deref(),
        Some("missing required argument: <find>")
    );
    assert_eq!(Start::Work.error(), None);
}

#[test]
fn null_with_explicit_paths_errors() {
    let err = input_mode(&parse_cli(&["ren", "-0", "foo", "bar", "."]), true).unwrap_err();
    assert!(err.contains("--null"));
    assert!(input_mode(&parse_cli(&["ren", "-0", "foo", "bar"]), false).is_err());
    assert_eq!(input_mode(&parse_cli(&["ren", "-0", "foo", "bar"]), true), Ok(true));
    assert_eq!(input_mode(&parse_cli(&["ren", "foo", "bar", "."]), true), Ok(false));
    assert_eq!(input_mode(&parse_cli(&["ren", "foo", "bar"]), false), Ok(false));
}

#[test]
fn missing_paths_and_terminals_are_complained_about() {
    let dirs = vec!["a".to_string(), "b".to_string(), "c".to_string()];
    assert_eq!(
        check_paths(&dirs, &vec![true, false, false]),
        Err("b: no such file or directory".to_string())
    );
    assert_eq!(check_paths(&dirs, &vec![true, true, true]), Ok(()));
    let preview = parse_cli(&["ren", "-p", "a", "b"]);
    assert_eq!(
        check_terminal(&preview, false),
        Err("--preview requires an interactive terminal".to_string())
    );
    assert_eq!(check_terminal(&preview, true), Ok(()));
    assert_eq!(check_terminal(&parse_cli(&["ren", "a", "b"]), false), Ok(()));
}

#[test]
fn a_plan_is_carried_out_unless_told_otherwise() {
    let action = |args: &[&str]| plan_action(&parse_cli(args));
    assert_eq!(action(&["ren", "a", "b"]), PlanAction::Apply);
    assert_eq!(action(&["ren", "-W", "a", "b"]), PlanAction::Apply);
    assert_eq!(action(&["ren", "-n", "a", "b"]), PlanAction::Show);
    assert_eq!(action(&["ren", "-p", "a", "b"]), PlanAction::Preview);
}

#[test]
fn a_run_lists_or_plans() {
    let records = vec![
        PathRecord {
            path: path("./foo.txt"),
            root: path("."),
        },
        PathRecord {
            path: path("./bar.md"),
            root: path("."),
        },
    ];
    let outcome = |args: &[&str]| {
        let cli = parse_cli(args);
        let exprs = match compile_expressions(&compile_options_from_cli(&cli)) {
            Ok(exprs) => exprs,
            Err(e) => panic!("{}", e.message()),
        };
        work(&cli, &exprs, &records)
    };
    match outcome(&["ren", "-l", "foo"]) {
        Outcome::Listing(lines) => assert_eq!(lines, vec!["foo.txt"]),
        other => panic!("{other:?}"),
    }
    match outcome(&["ren", "-e", "t$", "z", "-r", "-U", "-X"]) {
        Outcome::Plan(plan) => {
            assert_eq!(plan.len(), 1);
            assert_eq!(plan[0].old, path("./foo.txt"));
            assert_eq!(plan[0].new, path("./foo.TXZ"));
        }
        other => panic!("{other:?}"),
    }
    for flags in [&["ren", "-U"][..], &["ren", "-U", "-r"], &["ren", "-U", "-S"]] {
        match outcome(flags) {
            Outcome::Plan(plan) => {
                assert_eq!(plan.len(), 2);
                assert_eq!(plan[0].new, path("./FOO.txt"));
                assert_eq!(plan[1].new, path("./BAR.md"));
            }
            other => panic!("{other:?}"),
        }
    }
    match outcome(&["ren", "-e", "foo", "qux", "-P", "{n}-"]) {
        Outcome::Plan(plan) => {
            assert_eq!(plan.len(), 1);
            assert_eq!(plan[0].new, path("./1-qux.txt"));
        }
        other => panic!("{other:?}"),
    }
    assert!(matches!(outcome(&["ren", "-S", "", "a"]), Outcome::Unusable));
    assert!(matches!(outcome(&["ren", "-S", "-l", ""]), Outcome::Listing(_)));
}

// ---- directories that targets are in -------------------------------------------

fn moved(old: &str, new: &str) -> PlanEntry {
    PlanEntry {
        old: path(old),
        new: path(new),
        depth: 1,
    }
}

#[test]
fn test_create_missing_parents_errors_when_parent_is_a_file() {
    let entry = moved("tmp/a", "tmp/a/b");
    let parent = parent_to_check(&entry).unwrap();
    assert_eq!(parent, path("tmp/a"));
    assert_eq!(
        must_create_parent(&entry, &parent, ParentState::Other),
        Err(
            "cannot create parent directory tmp/a: a non-directory file already exists at that path (rename target: tmp/a/b)"
                .to_string()
        )
    );
}

#[test]
fn test_create_missing_parents_creates_missing_dir() {
    let entry = moved("tmp/src", "tmp/nested/sub/dst");
    let parent = parent_to_check(&entry).unwrap();
    assert_eq!(parent, path("tmp/nested/sub"));
    assert_eq!(must_create_parent(&entry, &parent, ParentState::Missing), Ok(true));
}

#[test]
fn test_create_missing_parents_skips_existing_dir() {
    let entry = moved("tmp/src", "tmp/already/dst");
    let parent = parent_to_check(&entry).unwrap();
    assert_eq!(must_create_parent(&entry, &parent, ParentState::Directory), Ok(false));
    assert!(parent_to_check(&moved("a", "b")).is_none());
}

// ---- whole runs, on files in memory --------------------------------------------

/// What a run leaves behind.
struct Aftermath {
    files: BTreeSet<String>,
    lines: Vec<String>,
    error: Option<String>,
}

impl Aftermath {
    fn has(&self, name: &str) -> bool {
        self.files.contains(name)
    }
}

fn walked(files: &BTreeSet<String>, root: &str, recursive: bool) -> Vec<WalkEntry> {
    let entry = |p: String, depth, kind| WalkEntry {
        path: path(&p),
        root: path(root),
        depth,
        kind,
    };
    if files.contains(root) {
        return vec![entry(root.to_string(), 0, EntryKind::File)];
    }
    let mut entries = vec![entry(root.to_string(), 0, EntryKind::Directory)];
    let mut seen = BTreeSet::new();
    for file in files {
        let parts: Vec<&str> = file.split('/').collect();
        for depth in 1..=parts.len() {
            let p = format!("{root}/{}", parts[..depth].join("/"));
            if (recursive || depth == 1) && seen.insert(p.clone()) {
                let kind = if depth == parts.len() {
                    EntryKind::File
                } else {
                    EntryKind::Directory
                };
                entries.push(entry(p, depth, kind));
            }
        }
    }
    entries
}

fn plain(p: &PathName) -> String {
    let text = p.to_text_lossy();
    text.strip_prefix("./").unwrap_or(&text).to_string()
}

fn has_path(files: &BTreeSet<String>, p: &str) -> bool {
    let below = format!("{p}/");
    files.iter().any(|f| f == p || f.starts_with(&below))
}

/// Runs the program on files that are there, with what it reads from its input.
fn ren(names: &[&str], args: &[&str], input: Option<&str>) -> Aftermath {
    let mut argv = vec!["ren"];
    argv.extend_from_slice(args);
    let mut outcome = Aftermath {
        files: names.iter().map(|s| s.to_string()).collect(),
        lines: Vec::new(),
        error: None,
    };
    if let Err(e) = run(&argv, input, &mut outcome) {
        outcome.error = Some(e);
    }
    outcome
}

fn run(argv: &[&str], input: Option<&str>, outcome: &mut Aftermath) -> Result<(), String> {
    let cli = parse_and_resolve(argv)?;
    assert_eq!(start(&cli), Start::Work);
    let from_stdin = input_mode(&cli, input.is_some())?;
    let exprs = compile_expressions(&compile_options_from_cli(&cli)).map_err(|e| e.message())?;
    let records = if from_stdin {
        let paths = paths_from_input(&input.unwrap_or("").as_bytes().to_vec(), cli.null);
        let present = paths
            .iter()
            .map(|p| outcome.files.contains(&plain(p)))
            .collect();
        records_from_paths(&paths, &present)
    } else {
        let mut entries = Vec::new();
        for dir in cli.dirs() {
            entries.extend(walked(&outcome.files, &dir, cli.recursive));
        }
        select_records(&entries, cli.include_dirs)
    };
    let plan = match work(&cli, &exprs, &records) {
        Outcome::Listing(lines) => {
            outcome.lines = lines;
            return Ok(());
        }
        Outcome::Plan(plan) => plan,
        Outcome::Unusable => panic!("unusable"),
    };
    let occupied: Vec<bool> = plan
        .iter()
        .map(|e| has_path(&outcome.files, &plain(&e.new)))
        .collect();
    validate_plan(&plan, &occupied).map_err(|e| e.message())?;
    if plan.is_empty() {
        return Ok(());
    }
    let dry = plan_action(&cli) == PlanAction::Show;
    if !dry {
        let mut applier = Applier::new(&plan, 1, 0);
        loop {
            let event = match applier.action() {
                Action::Probe { path } => Event::Probed {
                    occupied: has_path(&outcome.files, &plain(&path)),
                },
                Action::Rename { from, to } => {
                    let (from, to) = (plain(&from), plain(&to));
                    assert!(!has_path(&outcome.files, &to));
                    outcome.files = outcome
                        .files
                        .iter()
                        .map(|f| match f.strip_prefix(&from) {
                            Some(rest) if rest.is_empty() || rest.starts_with('/') => {
                                format!("{to}{rest}")
                            }
                            _ => f.clone(),
                        })
                        .collect();
                    Event::Renamed
                }
                Action::Succeed => break,
                Action::Fail => panic!("failed"),
            };
            assert_eq!(applier.advance(event), None);
        }
    }
    outcome.lines = plan_rows(&plan, false);
    let (files, dirs) = count_files_and_dirs(&vec![false; plan.len()]);
    let message = summary_message(files, dirs, dry);
    outcome.lines.push(summary_footer(&message, dry, false));
    Ok(())
}

#[test]
fn basic_rename_renames_only_matching_files() {
    let out = ren(&["foo.txt", "bar.txt"], &["foo", "qux"], None);
    assert!(out.has("qux.txt"));
    assert!(!out.has("foo.txt"));
    assert!(out.has("bar.txt"));
    assert_eq!(out.lines, vec!["foo.txt → qux.txt", "\nRenamed 1 file"]);
}

#[test]
fn default_scope_is_depth_one() {
    let out = ren(&["foo.txt", "sub/foo.txt"], &["foo", "bar"], None);
    assert!(out.has("bar.txt"));
    assert!(!out.has("foo.txt"));
    assert!(out.has("sub/foo.txt"));
    assert!(!out.has("sub/bar.txt"));
}

#[test]
fn recursive_renames_at_all_depths() {
    let out = ren(&["foo.txt", "sub/foo.txt"], &["-R", "foo", "bar"], None);
    assert!(out.has("bar.txt"));
    assert!(!out.has("foo.txt"));
    assert!(out.has("sub/bar.txt"));
    assert!(!out.has("sub/foo.txt"));
}

#[test]
fn include_dirs_with_recursive_renames_dir_then_nested_file() {
    let out = ren(
        &["foo_dir/foo_inner.txt"],
        &["--include-dirs", "-R", "foo", "qux"],
        None,
    );
    assert!(out.has("qux_dir/qux_inner.txt"));
    assert_eq!(out.files.len(), 1);
}

#[test]
fn dry_run_makes_no_filesystem_changes() {
    let out = ren(&["foo.txt"], &["--dry-run", "foo", "bar"], None);
    let stdout = out.lines.join("\n");
    assert!(stdout.contains("→"));
    assert!(stdout.contains("Would rename"));
    assert!(out.has("foo.txt"));
    assert!(!out.has("bar.txt"));
}

#[test]
fn transform_only_single_file_path_is_renamed() {
    let out = ren(&["Cargo.lock"], &["-L", "Cargo.lock"], None);
    assert!(out.has("cargo.lock"));
    assert!(!out.has("Cargo.lock"));
}

#[test]
fn list_files_prints_only_matching_basenames() {
    let out = ren(&["foo.txt", "other.txt"], &["--list-files", "foo"], None);
    assert_eq!(out.lines, vec!["foo.txt"]);
    let all = ren(&["foo.txt", "other.txt"], &["--list-files"], None);
    assert_eq!(all.lines, vec!["foo.txt", "other.txt"]);
}

#[test]
fn case_only_rename_flips_dirent_via_temp_hop() {
    let out = ren(&["tmp"], &["tmp", "TMP"], None);
    assert!(out.has("TMP"));
    assert!(!out.has("tmp"));
}

#[test]
fn duplicate_target_is_a_validation_error() {
    let out = ren(
        &["a.txt", "b.txt"],
        &["-x", "--regex", r"^[ab]\.txt$", "c.txt"],
        None,
    );
    assert!(out.error.as_deref().unwrap_or("").contains("within-plan conflicts"));
    assert!(out.has("a.txt"));
    assert!(out.has("b.txt"));
    assert!(!out.has("c.txt"));
}

#[test]
fn smart_mode_renames_all_case_variants() {
    let out = ren(
        &["foo_bar.rs", "FooBar.tsx"],
        &["--smart", "foo_bar", "hello_world"],
        None,
    );
    assert!(out.has("hello_world.rs"));
    assert!(out.has("HelloWorld.tsx"));
    assert!(!out.has("foo_bar.rs"));
    assert!(!out.has("FooBar.tsx"));
}

#[test]
fn default_scope_protects_extension_from_rewrite() {
    let out = ren(&["report.txt", "notes.md"], &["txt", "notes"], None);
    assert!(out.has("report.txt"));
    assert!(out.has("notes.md"));
    assert!(!out.has("report.notes"));
}

#[test]
fn default_scope_renames_stem_and_reattaches_extension() {
    let out = ren(&["foo.rs", "foo.tar.gz"], &["foo", "bar"], None);
    assert!(out.has("bar.rs"));
    assert!(out.has("bar.tar.gz"));
    assert!(!out.has("foo.rs"));
    assert!(!out.has("foo.tar.gz"));
}

#[test]
fn include_extension_flag_matches_full_basename() {
    let out = ren(&["report.txt"], &["-x", "txt", "notes"], None);
    assert!(out.has("report.notes"));
    assert!(!out.has("report.txt"));
}

#[test]
fn only_extension_flag_matches_extension_and_preserves_stem() {
    let out = ren(&["foo.rs", "Makefile"], &["-X", "rs", "txt"], None);
    assert!(out.has("foo.txt"));
    assert!(!out.has("foo.rs"));
    assert!(out.has("Makefile"));
}

#[test]
fn multiple_expressions_apply_in_order_in_one_pass() {
    let out = ren(
        &["foo_baz.txt"],
        &["-e", "foo", "bar", "-e", "baz", "qux"],
        None,
    );
    assert!(out.has("bar_qux.txt"));
    assert!(!out.has("foo_baz.txt"));
}

#[test]
fn stdin_mode_reads_newline_separated_paths() {
    let out = ren(
        &["foo_a.txt", "foo_b.txt", "foo_skip.txt"],
        &["foo", "bar"],
        Some("foo_a.txt\nfoo_b.txt\n"),
    );
    assert!(out.has("bar_a.txt"));
    assert!(out.has("bar_b.txt"));
    assert!(out.has("foo_skip.txt"));
}

#[test]
fn stdin_mode_with_null_splits_on_nul() {
    let out = ren(
        &["foo_a.txt", "foo_b.txt"],
        &["-0", "foo", "bar"],
        Some("foo_a.txt\0foo_b.txt\0"),
    );
    assert!(out.has("bar_a.txt"));
    assert!(out.has("bar_b.txt"));
}
