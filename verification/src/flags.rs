//! Options that exclude each other, and where their values come from: the command
//! line wins over the environment, and the environment over the configuration
//! file.

use vstd::prelude::*;
use crate::cli::Cli;
use crate::config::Origin;
use crate::text;

verus! {

/// Where the value of an option comes from.
#[derive(Clone, Copy, Debug, PartialEq, Eq, Structural)]
pub enum ValueSource {
    DefaultValue,
    EnvVariable,
    CommandLine,
}

/// How much weight the value of an option has, the last one the most.
#[derive(Clone, Copy, Debug, PartialEq, Eq, Structural)]
pub enum Tier {
    Config,
    ShellEnv,
    Cli,
}

impl Tier {
    /// The weight as a number.
    pub open spec fn weight(self) -> nat {
        match self {
            Tier::Config => 0,
            Tier::ShellEnv => 1,
            Tier::Cli => 2,
        }
    }

    /// The weight as a number.
    pub fn index(self) -> (i: usize)
        ensures
            i == self.weight(),
    {
        match self {
            Tier::Config => 0,
            Tier::ShellEnv => 1,
            Tier::Cli => 2,
        }
    }
}

/// The environment variable of an option, if it has one.
pub open spec fn env_name(id: Seq<char>) -> Option<Seq<char>> {
    if id == "hidden"@ {
        Some("REN_HIDDEN"@)
    } else if id == "no_ignore"@ {
        Some("REN_NO_IGNORE"@)
    } else if id == "recursive"@ {
        Some("REN_RECURSIVE"@)
    } else if id == "include_dirs"@ {
        Some("REN_INCLUDE_DIRS"@)
    } else if id == "include_extension"@ {
        Some("REN_INCLUDE_EXTENSION"@)
    } else if id == "only_extension"@ {
        Some("REN_ONLY_EXTENSION"@)
    } else if id == "greedy"@ {
        Some("REN_GREEDY"@)
    } else if id == "ignore_case"@ {
        Some("REN_IGNORE_CASE"@)
    } else if id == "regexp"@ {
        Some("REN_REGEX"@)
    } else if id == "word_regexp"@ {
        Some("REN_WORD_REGEXP"@)
    } else if id == "smart"@ {
        Some("REN_SMART"@)
    } else if id == "lower"@ {
        Some("REN_LOWER"@)
    } else if id == "upper"@ {
        Some("REN_UPPER"@)
    } else if id == "prepend"@ {
        Some("REN_PREPEND"@)
    } else if id == "append"@ {
        Some("REN_APPEND"@)
    } else if id == "dry_run"@ {
        Some("REN_DRY_RUN"@)
    } else if id == "write"@ {
        Some("REN_WRITE"@)
    } else if id == "preview"@ {
        Some("REN_PREVIEW"@)
    } else if id == "create_dirs"@ {
        Some("REN_CREATE_DIRS"@)
    } else {
        None
    }
}

/// The environment variable of an option, if it has one.
pub fn arg_env_name(id: &str) -> (name: Option<&'static str>)
    ensures
        name is Some <==> env_name(id@) is Some,
        name matches Some(s) ==> env_name(id@) == Some(s@),
{
    if text::same_text(id, "hidden") {
        Some("REN_HIDDEN")
    } else if text::same_text(id, "no_ignore") {
        Some("REN_NO_IGNORE")
    } else if text::same_text(id, "recursive") {
        Some("REN_RECURSIVE")
    } else if text::same_text(id, "include_dirs") {
        Some("REN_INCLUDE_DIRS")
    } else if text::same_text(id, "include_extension") {
        Some("REN_INCLUDE_EXTENSION")
    } else if text::same_text(id, "only_extension") {
        Some("REN_ONLY_EXTENSION")
    } else if text::same_text(id, "greedy") {
        Some("REN_GREEDY")
    } else if text::same_text(id, "ignore_case") {
        Some("REN_IGNORE_CASE")
    } else if text::same_text(id, "regexp") {
        Some("REN_REGEX")
    } else if text::same_text(id, "word_regexp") {
        Some("REN_WORD_REGEXP")
    } else if text::same_text(id, "smart") {
        Some("REN_SMART")
    } else if text::same_text(id, "lower") {
        Some("REN_LOWER")
    } else if text::same_text(id, "upper") {
        Some("REN_UPPER")
    } else if text::same_text(id, "prepend") {
        Some("REN_PREPEND")
    } else if text::same_text(id, "append") {
        Some("REN_APPEND")
    } else if text::same_text(id, "dry_run") {
        Some("REN_DRY_RUN")
    } else if text::same_text(id, "write") {
        Some("REN_WRITE")
    } else if text::same_text(id, "preview") {
        Some("REN_PREVIEW")
    } else if text::same_text(id, "create_dirs") {
        Some("REN_CREATE_DIRS")
    } else {
        None
    }
}

// ---- groups ----------------------------------------------------------------------

/// An option that is on or off.
#[derive(Debug)]
pub struct Flag {
    pub id: &'static str,
    pub active: bool,
    pub source: Option<ValueSource>,
}

/// What is known of an option.
pub struct FlagState {
    pub id: Seq<char>,
    pub active: bool,
    pub source: Option<ValueSource>,
}

impl View for Flag {
    type V = FlagState;

    open spec fn view(&self) -> FlagState {
        FlagState { id: self.id@, active: self.active, source: self.source }
    }
}

/// What is known of options.
pub open spec fn states(flags: Seq<Flag>) -> Seq<FlagState> {
    flags.map_values(|f: Flag| f@)
}

/// How much weight the value of an option has, given the environment variables
/// that carry a value of the configuration file: none if nobody has set it.
pub open spec fn tier_for(
    id: Seq<char>,
    source: Option<ValueSource>,
    config_keys: Set<Seq<char>>,
) -> Option<Tier> {
    match source {
        Some(ValueSource::CommandLine) => Some(Tier::Cli),
        Some(ValueSource::EnvVariable) => match env_name(id) {
            Some(name) => if config_keys.contains(name) {
                Some(Tier::Config)
            } else {
                Some(Tier::ShellEnv)
            },
            None => None,
        },
        _ => None,
    }
}

/// How much weight the value of an option has.
pub fn tier_of(id: &str, source: Option<ValueSource>, origin: &Origin) -> (tier: Option<Tier>)
    ensures
        tier == tier_for(id@, source, origin@),
{
    match source {
        Some(ValueSource::CommandLine) => Some(Tier::Cli),
        Some(ValueSource::EnvVariable) => match arg_env_name(id) {
            Some(name) => if origin.is_config_derived(name) {
                Some(Tier::Config)
            } else {
                Some(Tier::ShellEnv)
            },
            None => None,
        },
        _ => None,
    }
}

/// The options of a group that are on with the given weight.
pub open spec fn on_in_tier(
    group: Seq<FlagState>,
    tier: Tier,
    config_keys: Set<Seq<char>>,
) -> Seq<Seq<char>>
    decreases group.len(),
{
    if group.len() == 0 {
        Seq::empty()
    } else {
        let before = on_in_tier(group.drop_last(), tier, config_keys);
        let f = group.last();
        if f.active && tier_for(f.id, f.source, config_keys) == Some(tier) {
            before.push(f.id)
        } else {
            before
        }
    }
}

/// Options that exclude each other and are on with the same weight.
pub struct Clash {
    pub tier: Tier,
    pub ids: Seq<Seq<char>>,
}

/// Which option of a group wins: the one with the most weight of those that are
/// on. It is a clash if there are several with the most weight.
#[verifier::opaque]
pub open spec fn winner(group: Seq<FlagState>, config_keys: Set<Seq<char>>) -> Result<
    Option<Seq<char>>,
    Clash,
> {
    let by_cli = on_in_tier(group, Tier::Cli, config_keys);
    let by_shell = on_in_tier(group, Tier::ShellEnv, config_keys);
    let by_config = on_in_tier(group, Tier::Config, config_keys);
    if by_cli.len() > 1 {
        Err(Clash { tier: Tier::Cli, ids: by_cli })
    } else if by_cli.len() == 1 {
        Ok(Some(by_cli[0]))
    } else if by_shell.len() > 1 {
        Err(Clash { tier: Tier::ShellEnv, ids: by_shell })
    } else if by_shell.len() == 1 {
        Ok(Some(by_shell[0]))
    } else if by_config.len() > 1 {
        Err(Clash { tier: Tier::Config, ids: by_config })
    } else if by_config.len() == 1 {
        Ok(Some(by_config[0]))
    } else {
        Ok(None)
    }
}

/// Options that exclude each other and were given in the same place.
#[derive(Debug)]
pub struct GroupConflict {
    pub tier: Tier,
    pub ids: Vec<&'static str>,
}

/// The texts of literals.
pub open spec fn literal_views(ids: Seq<&'static str>) -> Seq<Seq<char>> {
    ids.map_values(|s: &'static str| s@)
}

impl View for GroupConflict {
    type V = Clash;

    open spec fn view(&self) -> Clash {
        Clash { tier: self.tier, ids: literal_views(self.ids@) }
    }
}

fn ids_in_tier(group: &Vec<Flag>, tier: Tier, origin: &Origin) -> (ids: Vec<&'static str>)
    ensures
        literal_views(ids@) == on_in_tier(states(group@), tier, origin@),
        ids@.len() == on_in_tier(states(group@), tier, origin@).len(),
{
    let mut ids: Vec<&'static str> = Vec::new();
    let ghost all = states(group@);
    assert(literal_views(ids@) == Seq::<Seq<char>>::empty());
    for i in 0..group.len()
        invariant
            all == states(group@),
            literal_views(ids@) == on_in_tier(all.take(i as int), tier, origin@),
    {
        assert(all.take(i + 1).drop_last() == all.take(i as int));
        assert(all.take(i + 1).last() == group@[i as int]@);
        let f = &group[i];
        if f.active {
            if let Some(t) = tier_of(f.id, f.source, origin) {
                if t == tier {
                    let ghost before = literal_views(ids@);
                    ids.push(f.id);
                    assert(literal_views(ids@) == before.push(f.id@));
                }
            }
        }
    }
    assert(all.take(all.len() as int) == all);
    assert(literal_views(ids@).len() == ids@.len());
    ids
}

/// The text of a literal, if there is one.
pub open spec fn literal_text(s: Option<&'static str>) -> Option<Seq<char>> {
    match s {
        Some(t) => Some(t@),
        None => None,
    }
}

/// Which option of a group wins.
pub fn resolve_group(group: &Vec<Flag>, origin: &Origin) -> (out: Result<
    Option<&'static str>,
    GroupConflict,
>)
    ensures
        match winner(states(group@), origin@) {
            Ok(id) => out is Ok && literal_text(out->Ok_0) == id,
            Err(clash) => out is Err && out->Err_0@ == clash,
        },
{
    proof {
        reveal(winner);
    }
    let by_cli = ids_in_tier(group, Tier::Cli, origin);
    assert(by_cli@.len() > 0 ==> literal_views(by_cli@)[0] == by_cli@[0]@);
    if by_cli.len() > 1 {
        return Err(GroupConflict { tier: Tier::Cli, ids: by_cli });
    }
    if by_cli.len() == 1 {
        return Ok(Some(by_cli[0]));
    }
    let by_shell = ids_in_tier(group, Tier::ShellEnv, origin);
    assert(by_shell@.len() > 0 ==> literal_views(by_shell@)[0] == by_shell@[0]@);
    if by_shell.len() > 1 {
        return Err(GroupConflict { tier: Tier::ShellEnv, ids: by_shell });
    }
    if by_shell.len() == 1 {
        return Ok(Some(by_shell[0]));
    }
    let by_config = ids_in_tier(group, Tier::Config, origin);
    assert(by_config@.len() > 0 ==> literal_views(by_config@)[0] == by_config@[0]@);
    if by_config.len() > 1 {
        return Err(GroupConflict { tier: Tier::Config, ids: by_config });
    }
    if by_config.len() == 1 {
        return Ok(Some(by_config[0]));
    }
    Ok(None)
}

// ---- messages --------------------------------------------------------------------

/// An option as it is named where it was given: on the command line, in the
/// environment, or in the configuration file.
pub open spec fn named(id: Seq<char>, tier: Tier) -> Seq<char> {
    let spelled = text::replaced(id, '_', "-"@);
    match tier {
        Tier::Cli => "--"@ + spelled,
        Tier::ShellEnv => match env_name(id) {
            Some(name) => name,
            None => "REN_"@ + id.map_values(|c: char| text::ascii_upper(c)),
        },
        Tier::Config => "`"@ + spelled + "`"@,
    }
}

/// A clash in words.
pub open spec fn clash_text(tier: Tier, ids: Seq<Seq<char>>) -> Seq<char> {
    let heading = match tier {
        Tier::Cli => "the following flags cannot be used together: "@,
        Tier::ShellEnv => "conflicting environment variables: "@,
        Tier::Config => "config sets conflicting keys: "@,
    };
    heading + text::joined(ids.map_values(|id: Seq<char>| named(id, tier)), " / "@)
}

fn raised(id: &str) -> (out: String)
    ensures
        out@ == id@.map_values(|c: char| text::ascii_upper(c)),
{
    let chars = text::chars_of(id);
    let mut out = String::new();
    for i in 0..chars.len()
        invariant
            chars@ == id@,
            out@ == id@.map_values(|c: char| text::ascii_upper(c)).take(i as int),
    {
        out.push(text::to_ascii_upper(chars[i]));
    }
    out
}

fn name_in(id: &str, tier: Tier) -> (out: String)
    ensures
        out@ == named(id@, tier),
{
    let spelled = text::replace_char(id, '_', "-");
    match tier {
        Tier::Cli => {
            let mut out = "--".to_string();
            out.push_str(spelled.as_str());
            out
        },
        Tier::ShellEnv => match arg_env_name(id) {
            Some(name) => name.to_string(),
            None => {
                let mut out = "REN_".to_string();
                let upper = raised(id);
                out.push_str(upper.as_str());
                out
            },
        },
        Tier::Config => {
            let mut out = "`".to_string();
            out.push_str(spelled.as_str());
            out.push_str("`");
            out
        },
    }
}

/// A clash in words.
pub fn same_tier_error(tier: Tier, ids: &Vec<&'static str>) -> (out: String)
    ensures
        out@ == clash_text(tier, literal_views(ids@)),
{
    let mut names: Vec<String> = Vec::new();
    let ghost all = literal_views(ids@).map_values(|id: Seq<char>| named(id, tier));
    for i in 0..ids.len()
        invariant
            all == literal_views(ids@).map_values(|id: Seq<char>| named(id, tier)),
            text::views(names@) == all.take(i as int),
    {
        let ghost before = text::views(names@);
        let name = name_in(ids[i], tier);
        names.push(name);
        assert(text::views(names@) == before.push(name@));
        assert(all[i as int] == name@);
    }
    assert(all.take(all.len() as int) == all);
    let mut out = match tier {
        Tier::Cli => "the following flags cannot be used together: ".to_string(),
        Tier::ShellEnv => "conflicting environment variables: ".to_string(),
        Tier::Config => "config sets conflicting keys: ".to_string(),
    };
    let list = text::join_strings(&names, " / ");
    out.push_str(list.as_str());
    out
}

impl GroupConflict {
    /// The conflict in words.
    pub fn message(&self) -> (out: String)
        ensures
            out@ == clash_text(self@.tier, self@.ids),
    {
        same_tier_error(self.tier, &self.ids)
    }
}

// ---- the groups of the command line ----------------------------------------------

/// Where the values of the options come from that exclude each other.
#[derive(Clone, Copy, Debug)]
pub struct FlagSources {
    pub dry_run: Option<ValueSource>,
    pub write: Option<ValueSource>,
    pub preview: Option<ValueSource>,
    pub list_files: Option<ValueSource>,
    pub lower: Option<ValueSource>,
    pub upper: Option<ValueSource>,
    pub include_extension: Option<ValueSource>,
    pub only_extension: Option<ValueSource>,
}

/// A flag with its name.
pub open spec fn flag(id: Seq<char>, active: bool, source: Option<ValueSource>) -> FlagState {
    FlagState { id, active, source }
}

/// The options that say what is done with a plan.
pub open spec fn mode_group(cli: Cli, sources: FlagSources) -> Seq<FlagState> {
    seq![
        flag("dry_run"@, cli.dry_run, sources.dry_run),
        flag("write"@, cli.write, sources.write),
        flag("preview"@, cli.preview, sources.preview),
        flag("list_files"@, cli.list_files, sources.list_files),
    ]
}

/// The options that change letter case.
pub open spec fn case_group(cli: Cli, sources: FlagSources) -> Seq<FlagState> {
    seq![
        flag("lower"@, cli.lower, sources.lower),
        flag("upper"@, cli.upper, sources.upper),
    ]
}

/// The options that say what part of a name is worked on.
pub open spec fn extension_group(cli: Cli, sources: FlagSources) -> Seq<FlagState> {
    seq![
        flag("include_extension"@, cli.include_extension, sources.include_extension),
        flag("only_extension"@, cli.only_extension, sources.only_extension),
    ]
}

/// The command line with the winner of a group on and the others off.
pub open spec fn with_mode(cli: Cli, id: Option<Seq<char>>) -> Cli {
    Cli {
        dry_run: id == Some("dry_run"@),
        write: id == Some("write"@),
        preview: id == Some("preview"@),
        list_files: id == Some("list_files"@),
        ..cli
    }
}

/// The command line with the winner of a group on and the other off.
pub open spec fn with_case(cli: Cli, id: Option<Seq<char>>) -> Cli {
    Cli { lower: id == Some("lower"@), upper: id == Some("upper"@), ..cli }
}

/// The command line with the winner of a group on and the other off.
pub open spec fn with_extension_flags(cli: Cli, id: Option<Seq<char>>) -> Cli {
    Cli {
        include_extension: id == Some("include_extension"@),
        only_extension: id == Some("only_extension"@),
        ..cli
    }
}

/// A text that is not empty, if there is one.
pub open spec fn unless_empty(s: Option<String>) -> Option<String> {
    match s {
        Some(t) => if t@.len() == 0 {
            None
        } else {
            s
        },
        None => None,
    }
}

/// The command line without empty templates.
pub open spec fn without_empty_templates(cli: Cli) -> Cli {
    Cli { prepend: unless_empty(cli.prepend), append: unless_empty(cli.append), ..cli }
}

/// What becomes of the command line, one group after the other, up to the first
/// clash.
pub open spec fn resolved(cli: Cli, sources: FlagSources, config_keys: Set<Seq<char>>) -> (
    Cli,
    Option<Clash>,
) {
    match winner(mode_group(cli, sources), config_keys) {
        Err(clash) => (cli, Some(clash)),
        Ok(mode) => {
            let cli = with_mode(cli, mode);
            match winner(case_group(cli, sources), config_keys) {
                Err(clash) => (cli, Some(clash)),
                Ok(case) => {
                    let cli = with_case(cli, case);
                    match winner(extension_group(cli, sources), config_keys) {
                        Err(clash) => (cli, Some(clash)),
                        Ok(extension) => (
                            without_empty_templates(with_extension_flags(cli, extension)),
                            None,
                        ),
                    }
                },
            }
        },
    }
}

fn is_winner(id: Option<&'static str>, name: &str) -> (wins: bool)
    ensures
        wins == (literal_text(id) == Some(name@)),
{
    match id {
        Some(s) => text::same_text(s, name),
        None => false,
    }
}

fn is_empty_text(s: &Option<String>) -> (empty: bool)
    ensures
        empty == (s matches Some(t) && t@.len() == 0),
{
    match s {
        Some(t) => text::chars_of(t.as_str()).len() == 0,
        None => false,
    }
}

fn mode_flags(cli: &Cli, sources: &FlagSources) -> (group: Vec<Flag>)
    ensures
        states(group@) == mode_group(*cli, *sources),
{
    let group = vec![
        Flag { id: "dry_run", active: cli.dry_run, source: sources.dry_run },
        Flag { id: "write", active: cli.write, source: sources.write },
        Flag { id: "preview", active: cli.preview, source: sources.preview },
        Flag { id: "list_files", active: cli.list_files, source: sources.list_files },
    ];
    assert(states(group@) =~= mode_group(*cli, *sources));
    group
}

fn case_flags(cli: &Cli, sources: &FlagSources) -> (group: Vec<Flag>)
    ensures
        states(group@) == case_group(*cli, *sources),
{
    let group = vec![
        Flag { id: "lower", active: cli.lower, source: sources.lower },
        Flag { id: "upper", active: cli.upper, source: sources.upper },
    ];
    assert(states(group@) =~= case_group(*cli, *sources));
    group
}

fn extension_flags(cli: &Cli, sources: &FlagSources) -> (group: Vec<Flag>)
    ensures
        states(group@) == extension_group(*cli, *sources),
{
    let group = vec![
        Flag {
            id: "include_extension",
            active: cli.include_extension,
            source: sources.include_extension,
        },
        Flag { id: "only_extension", active: cli.only_extension, source: sources.only_extension },
    ];
    assert(states(group@) =~= extension_group(*cli, *sources));
    group
}

fn set_mode(cli: &mut Cli, id: Option<&'static str>)
    ensures
        *final(cli) == with_mode(*old(cli), literal_text(id)),
{
    cli.dry_run = is_winner(id, "dry_run");
    cli.write = is_winner(id, "write");
    cli.preview = is_winner(id, "preview");
    cli.list_files = is_winner(id, "list_files");
}

fn set_case(cli: &mut Cli, id: Option<&'static str>)
    ensures
        *final(cli) == with_case(*old(cli), literal_text(id)),
{
    cli.lower = is_winner(id, "lower");
    cli.upper = is_winner(id, "upper");
}

fn set_extension(cli: &mut Cli, id: Option<&'static str>)
    ensures
        *final(cli) == with_extension_flags(*old(cli), literal_text(id)),
{
    cli.include_extension = is_winner(id, "include_extension");
    cli.only_extension = is_winner(id, "only_extension");
}

fn drop_if_empty(template: &mut Option<String>)
    ensures
        *final(template) == unless_empty(*old(template)),
{
    if is_empty_text(template) {
        *template = None;
    }
}

fn drop_empty_templates(cli: &mut Cli)
    ensures
        *final(cli) == without_empty_templates(*old(cli)),
{
    drop_if_empty(&mut cli.prepend);
    drop_if_empty(&mut cli.append);
}

/// Leaves at most one option of each group on, the one with the most weight, and
/// takes an empty template for none at all.
pub fn resolve_mutex_groups(cli: &mut Cli, sources: &FlagSources, origin: &Origin) -> (out: Result<
    (),
    GroupConflict,
>)
    ensures
        *final(cli) == resolved(*old(cli), *sources, origin@).0,
        match resolved(*old(cli), *sources, origin@).1 {
            None => out is Ok,
            Some(clash) => out is Err && out->Err_0@ == clash,
        },
{
    let group = mode_flags(cli, sources);
    match resolve_group(&group, origin) {
        Ok(id) => set_mode(cli, id),
        Err(e) => return Err(e),
    }
    let group = case_flags(cli, sources);
    match resolve_group(&group, origin) {
        Ok(id) => set_case(cli, id),
        Err(e) => return Err(e),
    }
    let group = extension_flags(cli, sources);
    match resolve_group(&group, origin) {
        Ok(id) => set_extension(cli, id),
        Err(e) => return Err(e),
    }
    drop_empty_templates(cli);
    Ok(())
}

// ---- laws ------------------------------------------------------------------------

proof fn lemma_on_in_tier(
    group: Seq<FlagState>,
    tier: Tier,
    config_keys: Set<Seq<char>>,
    id: Seq<char>,
)
    ensures
        on_in_tier(group, tier, config_keys).contains(id) <==> exists|i: int|
            0 <= i < group.len() && (#[trigger] group[i]).id == id && group[i].active && tier_for(
                id,
                group[i].source,
                config_keys,
            ) == Some(tier),
    decreases group.len(),
{
    let all = on_in_tier(group, tier, config_keys);
    if group.len() > 0 {
        let less = group.drop_last();
        let before = on_in_tier(less, tier, config_keys);
        let f = group.last();
        lemma_on_in_tier(less, tier, config_keys, id);
        let counts = f.active && tier_for(f.id, f.source, config_keys) == Some(tier);
        if all.contains(id) {
            let k = choose|k: int| 0 <= k < all.len() && all[k] == id;
            if k < before.len() {
                assert(before[k] == id);
                assert(before.contains(id));
                let i = choose|i: int|
                    0 <= i < less.len() && (#[trigger] less[i]).id == id && less[i].active
                        && tier_for(id, less[i].source, config_keys) == Some(tier);
                assert(group[i].id == id);
            } else {
                assert(group[group.len() - 1].id == id);
            }
        }
        if exists|i: int|
            0 <= i < group.len() && (#[trigger] group[i]).id == id && group[i].active && tier_for(
                id,
                group[i].source,
                config_keys,
            ) == Some(tier) {
            let i = choose|i: int|
                0 <= i < group.len() && (#[trigger] group[i]).id == id && group[i].active
                    && tier_for(id, group[i].source, config_keys) == Some(tier);
            if i < less.len() {
                assert(less[i].id == id);
                assert(before.contains(id));
                let k = choose|k: int| 0 <= k < before.len() && before[k] == id;
                assert(all[k] == id);
            } else {
                assert(all[all.len() - 1] == id);
            }
        }
    }
}

/// The winner of a group is on, and no option of the group that is on has more
/// weight.
pub proof fn law_winner_has_the_most_weight(
    group: Seq<FlagState>,
    config_keys: Set<Seq<char>>,
    id: Seq<char>,
    j: int,
)
    requires
        winner(group, config_keys) == Ok::<Option<Seq<char>>, Clash>(Some(id)),
        0 <= j < group.len(),
        group[j].active,
        tier_for(group[j].id, group[j].source, config_keys) is Some,
    ensures
        exists|i: int|
            0 <= i < group.len() && (#[trigger] group[i]).id == id && group[i].active && tier_for(
                id,
                group[i].source,
                config_keys,
            ) is Some && tier_for(id, group[i].source, config_keys)->0.weight() >= tier_for(
                group[j].id,
                group[j].source,
                config_keys,
            )->0.weight(),
{
    reveal(winner);
    let theirs = tier_for(group[j].id, group[j].source, config_keys)->0;
    let by_cli = on_in_tier(group, Tier::Cli, config_keys);
    let by_shell = on_in_tier(group, Tier::ShellEnv, config_keys);
    let by_config = on_in_tier(group, Tier::Config, config_keys);
    lemma_on_in_tier(group, theirs, config_keys, group[j].id);
    assert(on_in_tier(group, theirs, config_keys).contains(group[j].id));
    assert(on_in_tier(group, theirs, config_keys).len() > 0);
    let tier = if by_cli.len() == 1 {
        Tier::Cli
    } else if by_shell.len() == 1 {
        Tier::ShellEnv
    } else {
        Tier::Config
    };
    assert(on_in_tier(group, tier, config_keys)[0] == id);
    assert(on_in_tier(group, tier, config_keys).contains(id));
    lemma_on_in_tier(group, tier, config_keys, id);
}

/// Where one option of a group is on by the command line, it wins, whatever the
/// environment and the configuration file say.
pub proof fn law_command_line_wins(
    group: Seq<FlagState>,
    config_keys: Set<Seq<char>>,
    id: Seq<char>,
)
    requires
        on_in_tier(group, Tier::Cli, config_keys) == seq![id],
    ensures
        winner(group, config_keys) == Ok::<Option<Seq<char>>, Clash>(Some(id)),
{
    reveal(winner);
    assert(seq![id].len() == 1);
}

/// After the groups have been resolved, at most one option of each is on.
pub proof fn law_groups_are_exclusive(
    cli: Cli,
    sources: FlagSources,
    config_keys: Set<Seq<char>>,
)
    requires
        resolved(cli, sources, config_keys).1 is None,
    ensures
        ({
            let done = resolved(cli, sources, config_keys).0;
            &&& !(done.dry_run && done.write)
            &&& !(done.dry_run && done.preview)
            &&& !(done.dry_run && done.list_files)
            &&& !(done.write && done.preview)
            &&& !(done.write && done.list_files)
            &&& !(done.preview && done.list_files)
            &&& !(done.lower && done.upper)
            &&& !(done.include_extension && done.only_extension)
            &&& done.prepend matches Some(t) ==> t@.len() > 0
            &&& done.append matches Some(t) ==> t@.len() > 0
        }),
{
    reveal_strlit("dry_run");
    reveal_strlit("write");
    reveal_strlit("preview");
    reveal_strlit("list_files");
    reveal_strlit("lower");
    reveal_strlit("upper");
    reveal_strlit("include_extension");
    reveal_strlit("only_extension");
    assert("dry_run"@[0] == 'd' && "write"@[0] == 'w' && "preview"@[0] == 'p' && "list_files"@[0]
        == 'l');
    assert("lower"@[0] == 'l' && "upper"@[0] == 'u');
    assert("include_extension"@[0] == 'i' && "only_extension"@[0] == 'o');
}

// ---- laws on groups -----------------------------------------------------------------

/// The variable of an option is its name in upper case behind `REN_`, and that of
/// `regexp` is `REN_REGEX`. No other option has one.
#[verifier::rlimit(40)]
#[verifier::spinoff_prover]
pub proof fn law_variables_are_named_after_options(id: Seq<char>)
    ensures
        ({
            ||| id == "hidden"@
            ||| id == "no_ignore"@
            ||| id == "recursive"@
            ||| id == "include_dirs"@
            ||| id == "include_extension"@
            ||| id == "only_extension"@
            ||| id == "greedy"@
            ||| id == "ignore_case"@
            ||| id == "word_regexp"@
            ||| id == "smart"@
            ||| id == "lower"@
            ||| id == "upper"@
            ||| id == "prepend"@
            ||| id == "append"@
            ||| id == "dry_run"@
            ||| id == "write"@
            ||| id == "preview"@
            ||| id == "create_dirs"@
        }) ==> env_name(id) == Some("REN_"@ + id.map_values(|c: char| text::ascii_upper(c))),
        id == "regexp"@ ==> env_name(id) == Some("REN_REGEX"@),
        env_name(id) is Some ==> {
            ||| id == "regexp"@
            ||| id == "hidden"@
            ||| id == "no_ignore"@
            ||| id == "recursive"@
            ||| id == "include_dirs"@
            ||| id == "include_extension"@
            ||| id == "only_extension"@
            ||| id == "greedy"@
            ||| id == "ignore_case"@
            ||| id == "word_regexp"@
            ||| id == "smart"@
            ||| id == "lower"@
            ||| id == "upper"@
            ||| id == "prepend"@
            ||| id == "append"@
            ||| id == "dry_run"@
            ||| id == "write"@
            ||| id == "preview"@
            ||| id == "create_dirs"@
        },
{
    reveal_strlit("REN_");
    lemma_names_differ(id);
    if id == "hidden"@ {
        reveal_strlit("hidden");
        reveal_strlit("REN_HIDDEN");
        assert("REN_HIDDEN"@ =~= "REN_"@ + id.map_values(|c: char| text::ascii_upper(c)));
    }
    if id == "no_ignore"@ {
        reveal_strlit("no_ignore");
        reveal_strlit("REN_NO_IGNORE");
        assert("REN_NO_IGNORE"@ =~= "REN_"@ + id.map_values(|c: char| text::ascii_upper(c)));
    }
    if id == "recursive"@ {
        reveal_strlit("recursive");
        reveal_strlit("REN_RECURSIVE");
        assert("REN_RECURSIVE"@ =~= "REN_"@ + id.map_values(|c: char| text::ascii_upper(c)));
    }
    if id == "include_dirs"@ {
        reveal_strlit("include_dirs");
        reveal_strlit("REN_INCLUDE_DIRS");
        assert("REN_INCLUDE_DIRS"@ =~= "REN_"@ + id.map_values(|c: char| text::ascii_upper(c)));
    }
    if id == "include_extension"@ {
        reveal_strlit("include_extension");
        reveal_strlit("REN_INCLUDE_EXTENSION");
        assert("REN_INCLUDE_EXTENSION"@ =~= "REN_"@ + id.map_values(|c: char| text::ascii_upper(c)));
    }
    if id == "only_extension"@ {
        reveal_strlit("only_extension");
        reveal_strlit("REN_ONLY_EXTENSION");
        assert("REN_ONLY_EXTENSION"@ =~= "REN_"@ + id.map_values(|c: char| text::ascii_upper(c)));
    }
    if id == "greedy"@ {
        reveal_strlit("greedy");
        reveal_strlit("REN_GREEDY");
        assert("REN_GREEDY"@ =~= "REN_"@ + id.map_values(|c: char| text::ascii_upper(c)));
    }
    if id == "ignore_case"@ {
        reveal_strlit("ignore_case");
        reveal_strlit("REN_IGNORE_CASE");
        assert("REN_IGNORE_CASE"@ =~= "REN_"@ + id.map_values(|c: char| text::ascii_upper(c)));
    }
    if id == "word_regexp"@ {
        reveal_strlit("word_regexp");
        reveal_strlit("REN_WORD_REGEXP");
        assert("REN_WORD_REGEXP"@ =~= "REN_"@ + id.map_values(|c: char| text::ascii_upper(c)));
    }
    if id == "smart"@ {
        reveal_strlit("smart");
        reveal_strlit("REN_SMART");
        assert("REN_SMART"@ =~= "REN_"@ + id.map_values(|c: char| text::ascii_upper(c)));
    }
    if id == "lower"@ {
        reveal_strlit("lower");
        reveal_strlit("REN_LOWER");
        assert("REN_LOWER"@ =~= "REN_"@ + id.map_values(|c: char| text::ascii_upper(c)));
    }
    if id == "upper"@ {
        reveal_strlit("upper");
        reveal_strlit("REN_UPPER");
        assert("REN_UPPER"@ =~= "REN_"@ + id.map_values(|c: char| text::ascii_upper(c)));
    }
    if id == "prepend"@ {
        reveal_strlit("prepend");
        reveal_strlit("REN_PREPEND");
        assert("REN_PREPEND"@ =~= "REN_"@ + id.map_values(|c: char| text::ascii_upper(c)));
    }
    if id == "append"@ {
        reveal_strlit("append");
        reveal_strlit("REN_APPEND");
        assert("REN_APPEND"@ =~= "REN_"@ + id.map_values(|c: char| text::ascii_upper(c)));
    }
    if id == "dry_run"@ {
        reveal_strlit("dry_run");
        reveal_strlit("REN_DRY_RUN");
        assert("REN_DRY_RUN"@ =~= "REN_"@ + id.map_values(|c: char| text::ascii_upper(c)));
    }
    if id == "write"@ {
        reveal_strlit("write");
        reveal_strlit("REN_WRITE");
        assert("REN_WRITE"@ =~= "REN_"@ + id.map_values(|c: char| text::ascii_upper(c)));
    }
    if id == "preview"@ {
        reveal_strlit("preview");
        reveal_strlit("REN_PREVIEW");
        assert("REN_PREVIEW"@ =~= "REN_"@ + id.map_values(|c: char| text::ascii_upper(c)));
    }
    if id == "create_dirs"@ {
        reveal_strlit("create_dirs");
        reveal_strlit("REN_CREATE_DIRS");
        assert("REN_CREATE_DIRS"@ =~= "REN_"@ + id.map_values(|c: char| text::ascii_upper(c)));
    }
}

/// No other option is spelled like `regexp`.
#[verifier::rlimit(40)]
#[verifier::spinoff_prover]
proof fn lemma_names_differ(id: Seq<char>)
    ensures
        id == "regexp"@ ==> {
            &&& id != "hidden"@
            &&& id != "no_ignore"@
            &&& id != "recursive"@
            &&& id != "include_dirs"@
            &&& id != "include_extension"@
            &&& id != "only_extension"@
            &&& id != "greedy"@
            &&& id != "ignore_case"@
            &&& id != "word_regexp"@
            &&& id != "smart"@
            &&& id != "lower"@
            &&& id != "upper"@
            &&& id != "prepend"@
            &&& id != "append"@
            &&& id != "dry_run"@
            &&& id != "write"@
            &&& id != "preview"@
            &&& id != "create_dirs"@
        },
{
    reveal_strlit("regexp");
    reveal_strlit("hidden");
    reveal_strlit("no_ignore");
    reveal_strlit("recursive");
    reveal_strlit("include_dirs");
    reveal_strlit("include_extension");
    reveal_strlit("only_extension");
    reveal_strlit("greedy");
    reveal_strlit("ignore_case");
    reveal_strlit("word_regexp");
    reveal_strlit("smart");
    reveal_strlit("lower");
    reveal_strlit("upper");
    reveal_strlit("prepend");
    reveal_strlit("append");
    reveal_strlit("dry_run");
    reveal_strlit("write");
    reveal_strlit("preview");
    reveal_strlit("create_dirs");
    assert("regexp"@[0] == 'r');
    assert("hidden"@[0] == 'h');
    assert("greedy"@[0] == 'g');
    assert("append"@[0] == 'a');
    assert("regexp"@.len() == 6);
    assert("recursive"@.len() == 9);
}

/// Whether a flag is on, and by which tier.
pub open spec fn is_on_in(f: FlagState, tier: Tier, config_keys: Set<Seq<char>>) -> bool {
    f.active && match tier {
        Tier::Cli => f.source == Some(ValueSource::CommandLine),
        Tier::ShellEnv => f.source == Some(ValueSource::EnvVariable) && (env_name(f.id) matches Some(
            name,
        ) && !config_keys.contains(name)),
        Tier::Config => f.source == Some(ValueSource::EnvVariable) && (env_name(f.id) matches Some(
            name,
        ) && config_keys.contains(name)),
    }
}

/// The flags of a tier are those that are on by it, in the order of the group: the
/// command line is told by its source, and the configuration from the environment by
/// the variables that it has set.
pub proof fn law_flags_are_told_by_tier(
    group: Seq<FlagState>,
    tier: Tier,
    config_keys: Set<Seq<char>>,
)
    ensures
        on_in_tier(group, tier, config_keys) == group.filter(
            |f: FlagState| is_on_in(f, tier, config_keys),
        ).map_values(|f: FlagState| f.id),
    decreases group.len(),
{
    reveal(Seq::filter);
    let wanted = |f: FlagState| is_on_in(f, tier, config_keys);
    let id = |f: FlagState| f.id;
    if group.len() > 0 {
        let head = group.drop_last();
        law_flags_are_told_by_tier(head, tier, config_keys);
        let f = group.last();
        assert((f.active && tier_for(f.id, f.source, config_keys) == Some(tier)) == wanted(f));
        let kept = head.filter(wanted);
        if wanted(f) {
            assert(kept.push(f).map_values(id) =~= kept.map_values(id).push(f.id));
        }
    } else {
        assert(on_in_tier(group, tier, config_keys) =~= group.filter(wanted).map_values(
            |f: FlagState| f.id,
        ));
    }
}

/// Of a group, the highest tier that has any flag on decides: one flag wins, and more
/// than one clash. Lower tiers have no say then. If no tier has any on, nothing wins.
pub proof fn law_the_highest_tier_decides(group: Seq<FlagState>, config_keys: Set<Seq<char>>)
    ensures
        ({
            let cli = on_in_tier(group, Tier::Cli, config_keys);
            let shell = on_in_tier(group, Tier::ShellEnv, config_keys);
            let config = on_in_tier(group, Tier::Config, config_keys);
            &&& cli.len() > 1 ==> winner(group, config_keys) == Err::<Option<Seq<char>>, Clash>(
                Clash { tier: Tier::Cli, ids: cli },
            )
            &&& cli.len() == 1 ==> winner(group, config_keys) == Ok::<Option<Seq<char>>, Clash>(
                Some(cli[0]),
            )
            &&& cli.len() == 0 && shell.len() > 1 ==> winner(group, config_keys) == Err::<
                Option<Seq<char>>,
                Clash,
            >(Clash { tier: Tier::ShellEnv, ids: shell })
            &&& cli.len() == 0 && shell.len() == 1 ==> winner(group, config_keys) == Ok::<
                Option<Seq<char>>,
                Clash,
            >(Some(shell[0]))
            &&& cli.len() == 0 && shell.len() == 0 && config.len() > 1 ==> winner(
                group,
                config_keys,
            ) == Err::<Option<Seq<char>>, Clash>(Clash { tier: Tier::Config, ids: config })
            &&& cli.len() == 0 && shell.len() == 0 && config.len() == 1 ==> winner(
                group,
                config_keys,
            ) == Ok::<Option<Seq<char>>, Clash>(Some(config[0]))
            &&& cli.len() == 0 && shell.len() == 0 && config.len() == 0 ==> winner(
                group,
                config_keys,
            ) == Ok::<Option<Seq<char>>, Clash>(None)
        }),
{
    reveal(winner);
}

/// If no group clashes, the flags that have won in their groups are on, the others of
/// the groups are off, templates that are empty are dropped, and all else stays. If one
/// does, it is the first of modes, letter case and extensions that does.
#[verifier::rlimit(40)]
#[verifier::spinoff_prover]
pub proof fn law_winners_stay_on(cli: Cli, sources: FlagSources, config_keys: Set<Seq<char>>)
    ensures
        ({
            let modes = winner(
                seq![
                    FlagState {
                        id: "dry_run"@,
                        active: cli.dry_run,
                        source: sources.dry_run,
                    },
                    FlagState { id: "write"@, active: cli.write, source: sources.write },
                    FlagState { id: "preview"@, active: cli.preview, source: sources.preview },
                    FlagState {
                        id: "list_files"@,
                        active: cli.list_files,
                        source: sources.list_files,
                    },
                ],
                config_keys,
            );
            let cases = winner(
                seq![
                    FlagState { id: "lower"@, active: cli.lower, source: sources.lower },
                    FlagState { id: "upper"@, active: cli.upper, source: sources.upper },
                ],
                config_keys,
            );
            let extensions = winner(
                seq![
                    FlagState {
                        id: "include_extension"@,
                        active: cli.include_extension,
                        source: sources.include_extension,
                    },
                    FlagState {
                        id: "only_extension"@,
                        active: cli.only_extension,
                        source: sources.only_extension,
                    },
                ],
                config_keys,
            );
            let (done, clash) = resolved(cli, sources, config_keys);
            &&& modes matches Err(c) ==> clash == Some(c) && done == cli
            &&& modes is Ok && cases is Err ==> clash == Some(cases->Err_0)
            &&& modes is Ok && cases is Ok && extensions is Err ==> clash == Some(
                extensions->Err_0,
            )
            &&& modes is Ok && cases is Ok && extensions is Ok ==> {
                &&& clash is None
                &&& done == Cli {
                    dry_run: modes->Ok_0 == Some("dry_run"@),
                    write: modes->Ok_0 == Some("write"@),
                    preview: modes->Ok_0 == Some("preview"@),
                    list_files: modes->Ok_0 == Some("list_files"@),
                    lower: cases->Ok_0 == Some("lower"@),
                    upper: cases->Ok_0 == Some("upper"@),
                    include_extension: extensions->Ok_0 == Some("include_extension"@),
                    only_extension: extensions->Ok_0 == Some("only_extension"@),
                    append: done.append,
                    prepend: done.prepend,
                    ..cli
                }
                &&& done.append == if cli.append is Some && cli.append->0@.len() == 0 {
                    None
                } else {
                    cli.append
                }
                &&& done.prepend == if cli.prepend is Some && cli.prepend->0@.len() == 0 {
                    None
                } else {
                    cli.prepend
                }
            }
        }),
{
}

/// What clashes is named as it is written where it was given: as a flag, as a
/// variable, or as a key.
pub proof fn law_clashes_are_named_as_written(id: Seq<char>, name: Seq<char>)
    ensures
        named(id, Tier::Cli) == "--"@ + text::replaced(id, '_', "-"@),
        env_name(id) == Some(name) ==> named(id, Tier::ShellEnv) == name,
        named(id, Tier::Config) == "`"@ + text::replaced(id, '_', "-"@) + "`"@,
        clash_text(Tier::Cli, seq![id]) == "the following flags cannot be used together: "@
            + named(id, Tier::Cli),
        clash_text(Tier::ShellEnv, seq![id]) == "conflicting environment variables: "@ + named(
            id,
            Tier::ShellEnv,
        ),
        clash_text(Tier::Config, seq![id]) == "config sets conflicting keys: "@ + named(
            id,
            Tier::Config,
        ),
{
    assert(seq![id].map_values(|id: Seq<char>| named(id, Tier::Cli)) =~= seq![
        named(id, Tier::Cli),
    ]);
    assert(seq![id].map_values(|id: Seq<char>| named(id, Tier::ShellEnv)) =~= seq![
        named(id, Tier::ShellEnv),
    ]);
    assert(seq![id].map_values(|id: Seq<char>| named(id, Tier::Config)) =~= seq![
        named(id, Tier::Config),
    ]);
}

/// Each more that clashes is named behind a stroke.
pub proof fn law_all_that_clash_are_named(tier: Tier, ids: Seq<Seq<char>>, id: Seq<char>)
    requires
        ids.len() > 0,
    ensures
        clash_text(tier, ids.push(id)) == clash_text(tier, ids) + " / "@ + named(id, tier),
{
    let f = |id: Seq<char>| named(id, tier);
    assert(ids.push(id).map_values(f) =~= ids.map_values(f).push(named(id, tier)));
    assert(ids.map_values(f).push(named(id, tier)).drop_last() =~= ids.map_values(f));
    let heading = match tier {
        Tier::Cli => "the following flags cannot be used together: "@,
        Tier::ShellEnv => "conflicting environment variables: "@,
        Tier::Config => "config sets conflicting keys: "@,
    };
    assert(heading + (text::joined(ids.map_values(f), " / "@) + " / "@ + named(id, tier))
        =~= heading + text::joined(ids.map_values(f), " / "@) + " / "@ + named(id, tier));
}

} // verus!
