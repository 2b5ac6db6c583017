//! The configuration file: where it is, and what becomes of its settings.
//!
//! A setting is handed on as an environment variable, unless the environment has
//! that variable already: the user's shell wins over the file.

use vstd::prelude::*;
use vstd::utf8::*;
use crate::path;
use crate::path::PathName;
use crate::text;

verus! {

/// The environment variables that carry a value of the configuration file. Any
/// other variable comes from outside.
pub struct Origin {
    keys: Vec<String>,
}

impl View for Origin {
    type V = Set<Seq<char>>;

    closed spec fn view(&self) -> Set<Seq<char>> {
        text::views(self.keys@).to_set()
    }
}

impl Default for Origin {
    /// No variable carries a value of the configuration file.
    fn default() -> (origin: Origin)
        ensures
            origin@ == Set::<Seq<char>>::empty(),
    {
        let origin = Origin { keys: Vec::new() };
        assert(origin@ =~= Set::<Seq<char>>::empty());
        origin
    }
}

/// Whether the string is one of those in the list.
fn listed(list: &Vec<String>, s: &str) -> (found: bool)
    ensures
        found == text::views(list@).contains(s@),
{
    for i in 0..list.len()
        invariant
            forall|k: int| 0 <= k < i ==> (#[trigger] list@[k])@ != s@,
    {
        if text::same_text(list[i].as_str(), s) {
            assert(text::views(list@)[i as int] == s@);
            return true;
        }
    }
    proof {
        if text::views(list@).contains(s@) {
            let k = choose|k: int|
                0 <= k < text::views(list@).len() && text::views(list@)[k] == s@;
            assert(list@[k]@ == s@);
        }
    }
    false
}

impl Origin {
    /// Whether the variable carries a value of the configuration file.
    pub fn is_config_derived(&self, env_name: &str) -> (derived: bool)
        ensures
            derived == self@.contains(env_name@),
    {
        listed(&self.keys, env_name)
    }

    /// Notes that the variable carries a value of the configuration file.
    pub fn mark_as_config_derived(&mut self, env_name: &str)
        ensures
            final(self)@ == old(self)@.insert(env_name@),
    {
        let ghost before = text::views(self.keys@);
        if !listed(&self.keys, env_name) {
            self.keys.push(env_name.to_string());
            assert(text::views(self.keys@) == before.push(env_name@));
            assert(before.push(env_name@).to_set() =~= before.to_set().insert(env_name@)) by {
                assert forall|x: Seq<char>| before.push(env_name@).contains(x) <==> (
                before.contains(x) || x == env_name@) by {
                    vstd::seq_lib::lemma_seq_contains_after_push(before, env_name@, x);
                }
            }
        } else {
            assert(before.to_set() =~= before.to_set().insert(env_name@));
        }
    }

    /// The variables that carry a value of the configuration file.
    pub fn synthesized(&self) -> (keys: Vec<String>)
        ensures
            text::views(keys@).to_set() == self@,
    {
        let mut keys: Vec<String> = Vec::new();
        for i in 0..self.keys.len()
            invariant
                text::views(keys@) == text::views(self.keys@).take(i as int),
        {
            let ghost before = text::views(keys@);
            keys.push(self.keys[i].clone());
            assert(text::views(keys@) == before.push(self.keys@[i as int]@));
        }
        assert(text::views(self.keys@).take(self.keys@.len() as int) == text::views(self.keys@));
        keys
    }
}

/// The settings of the configuration file.
#[derive(Debug)]
pub struct Config {
    pub hidden: Option<bool>,
    pub no_ignore: Option<bool>,
    pub recursive: Option<bool>,
    pub include_dirs: Option<bool>,
    pub include_extension: Option<bool>,
    pub only_extension: Option<bool>,
    pub greedy: Option<bool>,
    pub ignore_case: Option<bool>,
    pub regex: Option<bool>,
    pub word_regexp: Option<bool>,
    pub smart: Option<bool>,
    pub lower: Option<bool>,
    pub upper: Option<bool>,
    pub prepend: Option<String>,
    pub append: Option<String>,
    pub dry_run: Option<bool>,
    pub preview: Option<bool>,
    pub create_dirs: Option<bool>,
}

impl Default for Config {
    /// Nothing is set.
    fn default() -> (config: Config)
        ensures
            config.settings() == Seq::<(Seq<char>, Seq<char>)>::empty(),
    {
        let config = Config {
            hidden: None,
            no_ignore: None,
            recursive: None,
            include_dirs: None,
            include_extension: None,
            only_extension: None,
            greedy: None,
            ignore_case: None,
            regex: None,
            word_regexp: None,
            smart: None,
            lower: None,
            upper: None,
            prepend: None,
            append: None,
            dry_run: None,
            preview: None,
            create_dirs: None,
        };
        assert(config.settings() =~= Seq::<(Seq<char>, Seq<char>)>::empty());
        config
    }
}

/// A switch as the value of a variable, if it is set.
pub open spec fn bool_setting(value: Option<bool>, key: Seq<char>) -> Seq<(Seq<char>, Seq<char>)> {
    match value {
        Some(v) => seq![
            (
                key,
                if v {
                    "true"@
                } else {
                    "false"@
                },
            ),
        ],
        None => Seq::empty(),
    }
}

/// A text as the value of a variable, if it is set.
pub open spec fn text_setting(value: Option<String>, key: Seq<char>) -> Seq<
    (Seq<char>, Seq<char>),
> {
    match value {
        Some(v) => seq![(key, v@)],
        None => Seq::empty(),
    }
}

impl Config {
    /// The variables that the settings are handed on as, and their values.
    pub open spec fn settings(&self) -> Seq<(Seq<char>, Seq<char>)> {
        bool_setting(self.hidden, "REN_HIDDEN"@) + bool_setting(self.no_ignore, "REN_NO_IGNORE"@)
            + bool_setting(self.recursive, "REN_RECURSIVE"@) + bool_setting(
            self.include_dirs,
            "REN_INCLUDE_DIRS"@,
        ) + bool_setting(self.include_extension, "REN_INCLUDE_EXTENSION"@) + bool_setting(
            self.only_extension,
            "REN_ONLY_EXTENSION"@,
        ) + bool_setting(self.greedy, "REN_GREEDY"@) + bool_setting(
            self.ignore_case,
            "REN_IGNORE_CASE"@,
        ) + bool_setting(self.regex, "REN_REGEX"@) + bool_setting(
            self.word_regexp,
            "REN_WORD_REGEXP"@,
        ) + bool_setting(self.smart, "REN_SMART"@) + bool_setting(self.lower, "REN_LOWER"@)
            + bool_setting(self.upper, "REN_UPPER"@) + text_setting(self.prepend, "REN_PREPEND"@)
            + text_setting(self.append, "REN_APPEND"@) + bool_setting(self.dry_run, "REN_DRY_RUN"@)
            + bool_setting(self.preview, "REN_PREVIEW"@) + bool_setting(
            self.create_dirs,
            "REN_CREATE_DIRS"@,
        )
    }
}

/// A value that an environment variable is to get.
#[derive(Debug)]
pub struct Assignment {
    pub key: String,
    pub value: String,
}

/// What values are assigned to what variables.
pub open spec fn pairs(assignments: Seq<Assignment>) -> Seq<(Seq<char>, Seq<char>)> {
    assignments.map_values(|a: Assignment| (a.key@, a.value@))
}

fn set_text(value: Option<&str>, key: &str, list: &mut Vec<Assignment>)
    ensures
        pairs(final(list)@) == pairs(old(list)@) + (match value {
            Some(v) => seq![(key@, v@)],
            None => Seq::empty(),
        }),
{
    let ghost before = pairs(list@);
    match value {
        Some(v) => {
            list.push(Assignment { key: key.to_string(), value: v.to_string() });
            assert(pairs(list@) == before.push((key@, v@)));
            assert(before.push((key@, v@)) =~= before + seq![(key@, v@)]);
        },
        None => {
            assert(before + Seq::<(Seq<char>, Seq<char>)>::empty() =~= before);
        },
    }
}

fn set_bool(value: Option<bool>, key: &str, list: &mut Vec<Assignment>)
    ensures
        pairs(final(list)@) == pairs(old(list)@) + bool_setting(value, key@),
{
    match value {
        Some(true) => set_text(Some("true"), key, list),
        Some(false) => set_text(Some("false"), key, list),
        None => set_text(None, key, list),
    }
}

fn set_str(value: &Option<String>, key: &str, list: &mut Vec<Assignment>)
    ensures
        pairs(final(list)@) == pairs(old(list)@) + text_setting(*value, key@),
{
    match value {
        Some(v) => set_text(Some(v.as_str()), key, list),
        None => set_text(None, key, list),
    }
}

fn all_settings(cfg: &Config) -> (list: Vec<Assignment>)
    ensures
        pairs(list@) == cfg.settings(),
{
    let mut list: Vec<Assignment> = Vec::new();
    assert(pairs(list@) =~= Seq::<(Seq<char>, Seq<char>)>::empty());
    set_bool(cfg.hidden, "REN_HIDDEN", &mut list);
    assert(pairs(list@) =~= bool_setting(cfg.hidden, "REN_HIDDEN"@));
    set_bool(cfg.no_ignore, "REN_NO_IGNORE", &mut list);
    set_bool(cfg.recursive, "REN_RECURSIVE", &mut list);
    set_bool(cfg.include_dirs, "REN_INCLUDE_DIRS", &mut list);
    set_bool(cfg.include_extension, "REN_INCLUDE_EXTENSION", &mut list);
    set_bool(cfg.only_extension, "REN_ONLY_EXTENSION", &mut list);
    set_bool(cfg.greedy, "REN_GREEDY", &mut list);
    set_bool(cfg.ignore_case, "REN_IGNORE_CASE", &mut list);
    set_bool(cfg.regex, "REN_REGEX", &mut list);
    set_bool(cfg.word_regexp, "REN_WORD_REGEXP", &mut list);
    set_bool(cfg.smart, "REN_SMART", &mut list);
    set_bool(cfg.lower, "REN_LOWER", &mut list);
    set_bool(cfg.upper, "REN_UPPER", &mut list);
    set_str(&cfg.prepend, "REN_PREPEND", &mut list);
    set_str(&cfg.append, "REN_APPEND", &mut list);
    set_bool(cfg.dry_run, "REN_DRY_RUN", &mut list);
    set_bool(cfg.preview, "REN_PREVIEW", &mut list);
    set_bool(cfg.create_dirs, "REN_CREATE_DIRS", &mut list);
    list
}

/// The settings whose variable is not among those that the environment has.
pub open spec fn unless_taken(
    settings: Seq<(Seq<char>, Seq<char>)>,
    taken: Seq<Seq<char>>,
) -> Seq<(Seq<char>, Seq<char>)>
    decreases settings.len(),
{
    if settings.len() == 0 {
        Seq::empty()
    } else {
        let before = unless_taken(settings.drop_last(), taken);
        if taken.contains(settings.last().0) {
            before
        } else {
            before.push(settings.last())
        }
    }
}

/// The variables of the settings, together with the given ones.
pub open spec fn keys_with(keys: Set<Seq<char>>, settings: Seq<(Seq<char>, Seq<char>)>) -> Set<
    Seq<char>,
>
    decreases settings.len(),
{
    if settings.len() == 0 {
        keys
    } else {
        keys_with(keys, settings.drop_last()).insert(settings.last().0)
    }
}

/// The values that environment variables are to get from the configuration.
/// `taken` are the variables that the environment has already: these keep their
/// values. The others are noted in `origin`.
pub fn apply_to_env(cfg: &Config, taken: &Vec<String>, origin: &mut Origin) -> (out: Vec<
    Assignment,
>)
    ensures
        pairs(out@) == unless_taken(cfg.settings(), text::views(taken@)),
        final(origin)@ == keys_with(old(origin)@, pairs(out@)),
{
    let list = all_settings(cfg);
    let mut out: Vec<Assignment> = Vec::new();
    let ghost all = cfg.settings();
    let ghost before_keys = origin@;
    assert(pairs(out@) =~= Seq::<(Seq<char>, Seq<char>)>::empty());
    for i in 0..list.len()
        invariant
            all == pairs(list@),
            pairs(out@) == unless_taken(all.take(i as int), text::views(taken@)),
            origin@ == keys_with(before_keys, pairs(out@)),
    {
        assert(all.take(i + 1).drop_last() =~= all.take(i as int));
        let a = &list[i];
        assert(all.take(i + 1).last() == (a.key@, a.value@));
        if !listed(taken, a.key.as_str()) {
            let ghost before = pairs(out@);
            out.push(Assignment { key: a.key.clone(), value: a.value.clone() });
            assert(pairs(out@) =~= before.push((a.key@, a.value@)));
            assert(pairs(out@).drop_last() =~= before);
            origin.mark_as_config_derived(a.key.as_str());
        }
    }
    assert(all.take(all.len() as int) =~= all);
    out
}

/// Where the configuration file is: where `REN_CONFIG_PATH` says, which if it is
/// empty says that there is none; else below `XDG_CONFIG_HOME`, unless that is
/// empty; else below the home directory.
pub open spec fn config_path(
    explicit: Option<Seq<u8>>,
    xdg: Option<Seq<u8>>,
    home: Option<Seq<u8>>,
) -> Option<Seq<u8>> {
    match explicit {
        Some(p) => if p.len() == 0 {
            None
        } else {
            Some(p)
        },
        None => if xdg is Some && xdg->0.len() > 0 {
            Some(path::join(xdg->0, encode_utf8("ren/config.toml"@)))
        } else {
            match home {
                Some(dir) => Some(path::join(dir, encode_utf8(".config/ren/config.toml"@))),
                None => None,
            }
        },
    }
}

/// The bytes of a path, if there is one.
pub open spec fn maybe_path(p: Option<PathName>) -> Option<Seq<u8>> {
    match p {
        Some(p) => Some(p@),
        None => None,
    }
}

/// Where the configuration file is, given the values of `REN_CONFIG_PATH` and
/// `XDG_CONFIG_HOME` and the home directory.
pub fn resolve_path(
    explicit: Option<PathName>,
    xdg: Option<PathName>,
    home: Option<PathName>,
) -> (out: Option<PathName>)
    ensures
        maybe_path(out) == config_path(maybe_path(explicit), maybe_path(xdg), maybe_path(home)),
{
    if let Some(p) = explicit {
        if p.bytes.len() == 0 {
            return None;
        }
        return Some(p);
    }
    if let Some(dir) = xdg {
        if dir.bytes.len() > 0 {
            let file = PathName::from_text("ren/config.toml");
            return Some(dir.join(&file.bytes));
        }
    }
    match home {
        Some(dir) => {
            let file = PathName::from_text(".config/ren/config.toml");
            Some(dir.join(&file.bytes))
        },
        None => None,
    }
}

// ---- laws ------------------------------------------------------------------------

/// A variable that the environment has is neither assigned nor noted, and one that
/// it does not have gets the value of its setting and is noted.
pub proof fn law_environment_wins(
    settings: Seq<(Seq<char>, Seq<char>)>,
    taken: Seq<Seq<char>>,
    keys: Set<Seq<char>>,
    i: int,
)
    requires
        0 <= i < settings.len(),
    ensures
        taken.contains(settings[i].0) ==> forall|k: int|
            0 <= k < unless_taken(settings, taken).len() ==> (#[trigger] unless_taken(
                settings,
                taken,
            )[k]).0 != settings[i].0,
        taken.contains(settings[i].0) && !keys.contains(settings[i].0) ==> !keys_with(
            keys,
            unless_taken(settings, taken),
        ).contains(settings[i].0),
        !taken.contains(settings[i].0) ==> unless_taken(settings, taken).contains(settings[i])
            && keys_with(keys, unless_taken(settings, taken)).contains(settings[i].0),
    decreases settings.len(),
{
    let out = unless_taken(settings, taken);
    lemma_untaken(settings, taken);
    if !taken.contains(settings[i].0) {
        lemma_unless_taken_keeps(settings, taken, i);
        let k = choose|k: int| 0 <= k < out.len() && out[k] == settings[i];
        lemma_keys_with(keys, out, settings[i].0);
        assert(out[k].0 == settings[i].0);
    } else {
        lemma_keys_with(keys, out, settings[i].0);
    }
}

proof fn lemma_untaken(settings: Seq<(Seq<char>, Seq<char>)>, taken: Seq<Seq<char>>)
    ensures
        forall|k: int|
            0 <= k < unless_taken(settings, taken).len() ==> !taken.contains(
                (#[trigger] unless_taken(settings, taken)[k]).0,
            ),
    decreases settings.len(),
{
    if settings.len() > 0 {
        lemma_untaken(settings.drop_last(), taken);
        let before = unless_taken(settings.drop_last(), taken);
        assert forall|k: int| 0 <= k < unless_taken(settings, taken).len() implies !taken.contains(
            (#[trigger] unless_taken(settings, taken)[k]).0,
        ) by {
            assert(k < before.len() ==> !taken.contains(before[k].0));
        }
    }
}

proof fn lemma_unless_taken_keeps(
    settings: Seq<(Seq<char>, Seq<char>)>,
    taken: Seq<Seq<char>>,
    i: int,
)
    requires
        0 <= i < settings.len(),
        !taken.contains(settings[i].0),
    ensures
        unless_taken(settings, taken).contains(settings[i]),
    decreases settings.len(),
{
    let out = unless_taken(settings, taken);
    let before = unless_taken(settings.drop_last(), taken);
    if i < settings.len() - 1 {
        lemma_unless_taken_keeps(settings.drop_last(), taken, i);
        let k = choose|k: int| 0 <= k < before.len() && before[k] == settings[i];
        assert(out[k] == settings[i]);
    } else {
        assert(out[out.len() - 1] == settings[i]);
    }
}

proof fn lemma_keys_with(
    keys: Set<Seq<char>>,
    settings: Seq<(Seq<char>, Seq<char>)>,
    key: Seq<char>,
)
    ensures
        keys_with(keys, settings).contains(key) <==> keys.contains(key) || exists|k: int|
            0 <= k < settings.len() && (#[trigger] settings[k]).0 == key,
    decreases settings.len(),
{
    if settings.len() > 0 {
        let less = settings.drop_last();
        lemma_keys_with(keys, less, key);
        if exists|k: int| 0 <= k < settings.len() && (#[trigger] settings[k]).0 == key {
            let k = choose|k: int| 0 <= k < settings.len() && (#[trigger] settings[k]).0 == key;
            assert(k < less.len() ==> less[k].0 == key);
        }
        if exists|k: int| 0 <= k < less.len() && (#[trigger] less[k]).0 == key {
            let k = choose|k: int| 0 <= k < less.len() && (#[trigger] less[k]).0 == key;
            assert(settings[k].0 == key);
        }
        if settings.last().0 == key {
            assert(settings[settings.len() - 1].0 == key);
        }
    }
}

// ---- laws on settings ---------------------------------------------------------------

/// The setting of a switch that is in the configuration, and nothing for one that is
/// not.
pub proof fn law_switches_are_true_or_false(value: Option<bool>, key: Seq<char>)
    ensures
        value == Some(true) ==> bool_setting(value, key) == seq![(key, "true"@)],
        value == Some(false) ==> bool_setting(value, key) == seq![(key, "false"@)],
        value is None ==> bool_setting(value, key) == Seq::<(Seq<char>, Seq<char>)>::empty(),
{
}

/// Whether a variable is among settings.
pub open spec fn is_set(
    settings: Seq<(Seq<char>, Seq<char>)>,
    key: Seq<char>,
    value: Seq<char>,
) -> bool {
    settings.contains((key, value))
}

proof fn lemma_among(
    a: Seq<(Seq<char>, Seq<char>)>,
    b: Seq<(Seq<char>, Seq<char>)>,
    x: (Seq<char>, Seq<char>),
)
    ensures
        a.contains(x) || b.contains(x) ==> (a + b).contains(x),
{
    if a.contains(x) {
        let i = choose|i: int| 0 <= i < a.len() && a[i] == x;
        assert((a + b)[i] == x);
    }
    if b.contains(x) {
        let i = choose|i: int| 0 <= i < b.len() && b[i] == x;
        assert((a + b)[a.len() + i] == x);
    }
}

/// How many settings an option gives.
pub open spec fn one_if<T>(value: Option<T>) -> nat {
    if value is Some {
        1
    } else {
        0
    }
}

/// There are as many settings as options in the configuration, so none is lost and
/// none made up.
#[verifier::rlimit(40)]
#[verifier::spinoff_prover]
pub proof fn law_each_option_is_one_setting(cfg: Config)
    ensures
        cfg.settings().len() == one_if(cfg.hidden) + one_if(cfg.no_ignore) + one_if(cfg.recursive)
            + one_if(cfg.include_dirs) + one_if(cfg.include_extension) + one_if(cfg.only_extension)
            + one_if(cfg.greedy) + one_if(cfg.ignore_case) + one_if(cfg.regex) + one_if(
            cfg.word_regexp,
        ) + one_if(cfg.smart) + one_if(cfg.lower) + one_if(cfg.upper) + one_if(cfg.prepend)
            + one_if(cfg.append) + one_if(cfg.dry_run) + one_if(cfg.preview) + one_if(
            cfg.create_dirs,
        ),
{
    let a1 = bool_setting(cfg.hidden, "REN_HIDDEN"@);
    let a2 = a1 + bool_setting(cfg.no_ignore, "REN_NO_IGNORE"@);
    lemma_added(a1, bool_setting(cfg.no_ignore, "REN_NO_IGNORE"@));
    let a3 = a2 + bool_setting(cfg.recursive, "REN_RECURSIVE"@);
    lemma_added(a2, bool_setting(cfg.recursive, "REN_RECURSIVE"@));
    let a4 = a3 + bool_setting(cfg.include_dirs, "REN_INCLUDE_DIRS"@);
    lemma_added(a3, bool_setting(cfg.include_dirs, "REN_INCLUDE_DIRS"@));
    let a5 = a4 + bool_setting(cfg.include_extension, "REN_INCLUDE_EXTENSION"@);
    lemma_added(a4, bool_setting(cfg.include_extension, "REN_INCLUDE_EXTENSION"@));
    let a6 = a5 + bool_setting(cfg.only_extension, "REN_ONLY_EXTENSION"@);
    lemma_added(a5, bool_setting(cfg.only_extension, "REN_ONLY_EXTENSION"@));
    let a7 = a6 + bool_setting(cfg.greedy, "REN_GREEDY"@);
    lemma_added(a6, bool_setting(cfg.greedy, "REN_GREEDY"@));
    let a8 = a7 + bool_setting(cfg.ignore_case, "REN_IGNORE_CASE"@);
    lemma_added(a7, bool_setting(cfg.ignore_case, "REN_IGNORE_CASE"@));
    let a9 = a8 + bool_setting(cfg.regex, "REN_REGEX"@);
    lemma_added(a8, bool_setting(cfg.regex, "REN_REGEX"@));
    let a10 = a9 + bool_setting(cfg.word_regexp, "REN_WORD_REGEXP"@);
    lemma_added(a9, bool_setting(cfg.word_regexp, "REN_WORD_REGEXP"@));
    let a11 = a10 + bool_setting(cfg.smart, "REN_SMART"@);
    lemma_added(a10, bool_setting(cfg.smart, "REN_SMART"@));
    let a12 = a11 + bool_setting(cfg.lower, "REN_LOWER"@);
    lemma_added(a11, bool_setting(cfg.lower, "REN_LOWER"@));
    let a13 = a12 + bool_setting(cfg.upper, "REN_UPPER"@);
    lemma_added(a12, bool_setting(cfg.upper, "REN_UPPER"@));
    let a14 = a13 + text_setting(cfg.prepend, "REN_PREPEND"@);
    lemma_added(a13, text_setting(cfg.prepend, "REN_PREPEND"@));
    let a15 = a14 + text_setting(cfg.append, "REN_APPEND"@);
    lemma_added(a14, text_setting(cfg.append, "REN_APPEND"@));
    let a16 = a15 + bool_setting(cfg.dry_run, "REN_DRY_RUN"@);
    lemma_added(a15, bool_setting(cfg.dry_run, "REN_DRY_RUN"@));
    let a17 = a16 + bool_setting(cfg.preview, "REN_PREVIEW"@);
    lemma_added(a16, bool_setting(cfg.preview, "REN_PREVIEW"@));
    let a18 = a17 + bool_setting(cfg.create_dirs, "REN_CREATE_DIRS"@);
    lemma_added(a17, bool_setting(cfg.create_dirs, "REN_CREATE_DIRS"@));
    assert(cfg.settings() == a18);
}

/// How settings are added.
proof fn lemma_added(a: Seq<(Seq<char>, Seq<char>)>, b: Seq<(Seq<char>, Seq<char>)>)
    ensures
        (a + b).len() == a.len() + b.len(),
        a.len() == 0 ==> a + b == b,
        b.len() == 0 ==> a + b == a,
{
    if a.len() == 0 {
        assert(a + b =~= b);
    }
    if b.len() == 0 {
        assert(a + b =~= a);
    }
}

/// A configuration with one switch gives the variable of that switch, and no other.
#[verifier::rlimit(40)]
#[verifier::spinoff_prover]
pub proof fn law_switches_set_their_own_variables(cfg: Config, none: Config, v: bool)
    requires
        none.settings().len() == 0,
    ensures
        cfg == (Config { hidden: Some(v), ..none }) ==> cfg.settings() == bool_setting(
            Some(v),
            "REN_HIDDEN"@,
        ),
        cfg == (Config { no_ignore: Some(v), ..none }) ==> cfg.settings() == bool_setting(
            Some(v),
            "REN_NO_IGNORE"@,
        ),
        cfg == (Config { recursive: Some(v), ..none }) ==> cfg.settings() == bool_setting(
            Some(v),
            "REN_RECURSIVE"@,
        ),
        cfg == (Config { include_dirs: Some(v), ..none }) ==> cfg.settings() == bool_setting(
            Some(v),
            "REN_INCLUDE_DIRS"@,
        ),
        cfg == (Config { include_extension: Some(v), ..none }) ==> cfg.settings() == bool_setting(
            Some(v),
            "REN_INCLUDE_EXTENSION"@,
        ),
        cfg == (Config { only_extension: Some(v), ..none }) ==> cfg.settings() == bool_setting(
            Some(v),
            "REN_ONLY_EXTENSION"@,
        ),
        cfg == (Config { greedy: Some(v), ..none }) ==> cfg.settings() == bool_setting(
            Some(v),
            "REN_GREEDY"@,
        ),
        cfg == (Config { ignore_case: Some(v), ..none }) ==> cfg.settings() == bool_setting(
            Some(v),
            "REN_IGNORE_CASE"@,
        ),
        cfg == (Config { regex: Some(v), ..none }) ==> cfg.settings() == bool_setting(
            Some(v),
            "REN_REGEX"@,
        ),
        cfg == (Config { word_regexp: Some(v), ..none }) ==> cfg.settings() == bool_setting(
            Some(v),
            "REN_WORD_REGEXP"@,
        ),
        cfg == (Config { smart: Some(v), ..none }) ==> cfg.settings() == bool_setting(
            Some(v),
            "REN_SMART"@,
        ),
        cfg == (Config { lower: Some(v), ..none }) ==> cfg.settings() == bool_setting(
            Some(v),
            "REN_LOWER"@,
        ),
        cfg == (Config { upper: Some(v), ..none }) ==> cfg.settings() == bool_setting(
            Some(v),
            "REN_UPPER"@,
        ),
        cfg == (Config { dry_run: Some(v), ..none }) ==> cfg.settings() == bool_setting(
            Some(v),
            "REN_DRY_RUN"@,
        ),
        cfg == (Config { preview: Some(v), ..none }) ==> cfg.settings() == bool_setting(
            Some(v),
            "REN_PREVIEW"@,
        ),
        cfg == (Config { create_dirs: Some(v), ..none }) ==> cfg.settings() == bool_setting(
            Some(v),
            "REN_CREATE_DIRS"@,
        ),
{
    law_each_option_is_one_setting(none);
    let a1 = bool_setting(cfg.hidden, "REN_HIDDEN"@);
    let a2 = a1 + bool_setting(cfg.no_ignore, "REN_NO_IGNORE"@);
    lemma_added(a1, bool_setting(cfg.no_ignore, "REN_NO_IGNORE"@));
    let a3 = a2 + bool_setting(cfg.recursive, "REN_RECURSIVE"@);
    lemma_added(a2, bool_setting(cfg.recursive, "REN_RECURSIVE"@));
    let a4 = a3 + bool_setting(cfg.include_dirs, "REN_INCLUDE_DIRS"@);
    lemma_added(a3, bool_setting(cfg.include_dirs, "REN_INCLUDE_DIRS"@));
    let a5 = a4 + bool_setting(cfg.include_extension, "REN_INCLUDE_EXTENSION"@);
    lemma_added(a4, bool_setting(cfg.include_extension, "REN_INCLUDE_EXTENSION"@));
    let a6 = a5 + bool_setting(cfg.only_extension, "REN_ONLY_EXTENSION"@);
    lemma_added(a5, bool_setting(cfg.only_extension, "REN_ONLY_EXTENSION"@));
    let a7 = a6 + bool_setting(cfg.greedy, "REN_GREEDY"@);
    lemma_added(a6, bool_setting(cfg.greedy, "REN_GREEDY"@));
    let a8 = a7 + bool_setting(cfg.ignore_case, "REN_IGNORE_CASE"@);
    lemma_added(a7, bool_setting(cfg.ignore_case, "REN_IGNORE_CASE"@));
    let a9 = a8 + bool_setting(cfg.regex, "REN_REGEX"@);
    lemma_added(a8, bool_setting(cfg.regex, "REN_REGEX"@));
    let a10 = a9 + bool_setting(cfg.word_regexp, "REN_WORD_REGEXP"@);
    lemma_added(a9, bool_setting(cfg.word_regexp, "REN_WORD_REGEXP"@));
    let a11 = a10 + bool_setting(cfg.smart, "REN_SMART"@);
    lemma_added(a10, bool_setting(cfg.smart, "REN_SMART"@));
    let a12 = a11 + bool_setting(cfg.lower, "REN_LOWER"@);
    lemma_added(a11, bool_setting(cfg.lower, "REN_LOWER"@));
    let a13 = a12 + bool_setting(cfg.upper, "REN_UPPER"@);
    lemma_added(a12, bool_setting(cfg.upper, "REN_UPPER"@));
    let a14 = a13 + text_setting(cfg.prepend, "REN_PREPEND"@);
    lemma_added(a13, text_setting(cfg.prepend, "REN_PREPEND"@));
    let a15 = a14 + text_setting(cfg.append, "REN_APPEND"@);
    lemma_added(a14, text_setting(cfg.append, "REN_APPEND"@));
    let a16 = a15 + bool_setting(cfg.dry_run, "REN_DRY_RUN"@);
    lemma_added(a15, bool_setting(cfg.dry_run, "REN_DRY_RUN"@));
    let a17 = a16 + bool_setting(cfg.preview, "REN_PREVIEW"@);
    lemma_added(a16, bool_setting(cfg.preview, "REN_PREVIEW"@));
    let a18 = a17 + bool_setting(cfg.create_dirs, "REN_CREATE_DIRS"@);
    lemma_added(a17, bool_setting(cfg.create_dirs, "REN_CREATE_DIRS"@));
    assert(cfg.settings() == a18);
}

/// An option gives the same setting whatever else is in the configuration.
#[verifier::rlimit(40)]
#[verifier::spinoff_prover]
pub proof fn law_options_do_not_interfere(cfg: Config)
    ensures
        cfg.hidden matches Some(v) ==> is_set(
            cfg.settings(),
            "REN_HIDDEN"@,
            bool_setting(Some(v), "REN_HIDDEN"@)[0].1,
        ),
        cfg.recursive matches Some(v) ==> is_set(
            cfg.settings(),
            "REN_RECURSIVE"@,
            bool_setting(Some(v), "REN_RECURSIVE"@)[0].1,
        ),
        cfg.regex matches Some(v) ==> is_set(
            cfg.settings(),
            "REN_REGEX"@,
            bool_setting(Some(v), "REN_REGEX"@)[0].1,
        ),
        cfg.prepend matches Some(t) ==> is_set(cfg.settings(), "REN_PREPEND"@, t@),
        cfg.append matches Some(t) ==> is_set(cfg.settings(), "REN_APPEND"@, t@),
        cfg.create_dirs matches Some(v) ==> is_set(
            cfg.settings(),
            "REN_CREATE_DIRS"@,
            bool_setting(Some(v), "REN_CREATE_DIRS"@)[0].1,
        ),
{
    let a1 = bool_setting(cfg.hidden, "REN_HIDDEN"@);
    let a2 = a1 + bool_setting(cfg.no_ignore, "REN_NO_IGNORE"@);
    let a3 = a2 + bool_setting(cfg.recursive, "REN_RECURSIVE"@);
    let a4 = a3 + bool_setting(cfg.include_dirs, "REN_INCLUDE_DIRS"@);
    let a5 = a4 + bool_setting(cfg.include_extension, "REN_INCLUDE_EXTENSION"@);
    let a6 = a5 + bool_setting(cfg.only_extension, "REN_ONLY_EXTENSION"@);
    let a7 = a6 + bool_setting(cfg.greedy, "REN_GREEDY"@);
    let a8 = a7 + bool_setting(cfg.ignore_case, "REN_IGNORE_CASE"@);
    let a9 = a8 + bool_setting(cfg.regex, "REN_REGEX"@);
    let a10 = a9 + bool_setting(cfg.word_regexp, "REN_WORD_REGEXP"@);
    let a11 = a10 + bool_setting(cfg.smart, "REN_SMART"@);
    let a12 = a11 + bool_setting(cfg.lower, "REN_LOWER"@);
    let a13 = a12 + bool_setting(cfg.upper, "REN_UPPER"@);
    let a14 = a13 + text_setting(cfg.prepend, "REN_PREPEND"@);
    let a15 = a14 + text_setting(cfg.append, "REN_APPEND"@);
    let a16 = a15 + bool_setting(cfg.dry_run, "REN_DRY_RUN"@);
    let a17 = a16 + bool_setting(cfg.preview, "REN_PREVIEW"@);
    let a18 = a17 + bool_setting(cfg.create_dirs, "REN_CREATE_DIRS"@);
    assert(cfg.settings() == a18);
    assert forall|x: (Seq<char>, Seq<char>)|
        a3.contains(x) || a9.contains(x) || a14.contains(x) || a15.contains(x) implies
        a18.contains(x) by {
        lemma_among(a3, bool_setting(cfg.include_dirs, "REN_INCLUDE_DIRS"@), x);
        lemma_among(a4, bool_setting(cfg.include_extension, "REN_INCLUDE_EXTENSION"@), x);
        lemma_among(a5, bool_setting(cfg.only_extension, "REN_ONLY_EXTENSION"@), x);
        lemma_among(a6, bool_setting(cfg.greedy, "REN_GREEDY"@), x);
        lemma_among(a7, bool_setting(cfg.ignore_case, "REN_IGNORE_CASE"@), x);
        lemma_among(a8, bool_setting(cfg.regex, "REN_REGEX"@), x);
        lemma_among(a9, bool_setting(cfg.word_regexp, "REN_WORD_REGEXP"@), x);
        lemma_among(a10, bool_setting(cfg.smart, "REN_SMART"@), x);
        lemma_among(a11, bool_setting(cfg.lower, "REN_LOWER"@), x);
        lemma_among(a12, bool_setting(cfg.upper, "REN_UPPER"@), x);
        lemma_among(a13, text_setting(cfg.prepend, "REN_PREPEND"@), x);
        lemma_among(a14, text_setting(cfg.append, "REN_APPEND"@), x);
        lemma_among(a15, bool_setting(cfg.dry_run, "REN_DRY_RUN"@), x);
        lemma_among(a16, bool_setting(cfg.preview, "REN_PREVIEW"@), x);
        lemma_among(a17, bool_setting(cfg.create_dirs, "REN_CREATE_DIRS"@), x);
    }
    if let Some(v) = cfg.hidden {
        let x = a1[0];
        assert(a1.contains(x));
        lemma_among(a1, bool_setting(cfg.no_ignore, "REN_NO_IGNORE"@), x);
        lemma_among(a2, bool_setting(cfg.recursive, "REN_RECURSIVE"@), x);
    }
    if let Some(v) = cfg.recursive {
        let only = bool_setting(cfg.recursive, "REN_RECURSIVE"@);
        assert(only.contains(only[0]));
        lemma_among(a2, only, only[0]);
    }
    if let Some(v) = cfg.regex {
        let only = bool_setting(cfg.regex, "REN_REGEX"@);
        assert(only.contains(only[0]));
        lemma_among(a8, only, only[0]);
    }
    if let Some(t) = cfg.prepend {
        let only = text_setting(cfg.prepend, "REN_PREPEND"@);
        assert(only.contains(only[0]));
        lemma_among(a13, only, only[0]);
    }
    if let Some(t) = cfg.append {
        let only = text_setting(cfg.append, "REN_APPEND"@);
        assert(only.contains(only[0]));
        lemma_among(a14, only, only[0]);
    }
    if let Some(v) = cfg.create_dirs {
        let only = bool_setting(cfg.create_dirs, "REN_CREATE_DIRS"@);
        assert(only.contains(only[0]));
        lemma_among(a17, only, only[0]);
    }
}

/// Where the configuration is: where the user says, and nowhere if that is an empty
/// path; else below the directory for configurations, if one is named; else below the
/// home directory, if there is one.
pub proof fn law_where_the_configuration_is(
    explicit: Seq<u8>,
    xdg: Option<Seq<u8>>,
    home: Option<Seq<u8>>,
)
    ensures
        explicit.len() > 0 ==> config_path(Some(explicit), xdg, home) == Some(explicit),
        explicit.len() == 0 ==> config_path(Some(explicit), xdg, home) is None,
        xdg matches Some(dir) ==> dir.len() > 0 ==> config_path(None, xdg, home) == Some(
            path::join(dir, encode_utf8("ren/config.toml"@)),
        ),
        xdg is None || xdg->0.len() == 0 ==> (home matches Some(dir) ==> config_path(
            None,
            xdg,
            home,
        ) == Some(path::join(dir, encode_utf8(".config/ren/config.toml"@)))),
        (xdg is None || xdg->0.len() == 0) && home is None ==> config_path(None, xdg, home) is None,
{
}

/// The settings that are kept are those of which the environment has nothing, in their
/// order.
pub proof fn law_settings_are_kept_in_order(
    settings: Seq<(Seq<char>, Seq<char>)>,
    taken: Seq<Seq<char>>,
)
    ensures
        unless_taken(settings, taken) == settings.filter(
            |s: (Seq<char>, Seq<char>)| !taken.contains(s.0),
        ),
    decreases settings.len(),
{
    reveal(Seq::filter);
    if settings.len() > 0 {
        law_settings_are_kept_in_order(settings.drop_last(), taken);
    }
}

/// The variables that carry a value of the configuration are those that did before and
/// those of the settings.
pub proof fn law_all_settings_are_marked(
    keys: Set<Seq<char>>,
    settings: Seq<(Seq<char>, Seq<char>)>,
    key: Seq<char>,
)
    ensures
        keys_with(keys, settings).contains(key) <==> keys.contains(key) || exists|i: int|
            0 <= i < settings.len() && (#[trigger] settings[i]).0 == key,
    decreases settings.len(),
{
    if settings.len() > 0 {
        let head = settings.drop_last();
        law_all_settings_are_marked(keys, head, key);
        if exists|i: int| 0 <= i < head.len() && (#[trigger] head[i]).0 == key {
            let i = choose|i: int| 0 <= i < head.len() && (#[trigger] head[i]).0 == key;
            assert(settings[i].0 == key);
        }
        if exists|i: int| 0 <= i < settings.len() && (#[trigger] settings[i]).0 == key {
            let i = choose|i: int| 0 <= i < settings.len() && (#[trigger] settings[i]).0 == key;
            if i < head.len() {
                assert(head[i].0 == key);
            }
        }
        assert(settings[settings.len() - 1] == settings.last());
    }
}

} // verus!
