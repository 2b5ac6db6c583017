//! Find-and-replace expressions: what they are given as, what they are compiled
//! to, and what they make of a name.

use vstd::prelude::*;
use crate::matcher;
use crate::matcher::{Matcher, Search};
use crate::text;
use crate::variants;
use crate::variants::VariantMap;

verus! {

/// Stands between the two halves of an expression that is handed over as one
/// string. No command-line argument can hold it.
pub const EXPR_SEP: char = '\0';

/// What the compilation of expressions depends on.
pub struct CompileOptions {
    /// Expressions are regular expressions, not plain text.
    pub regex: bool,
    /// Letter case makes no difference.
    pub ignore_case: bool,
    /// Repetitions in a regular expression take as much as they can.
    pub greedy: bool,
    /// Only whole words are found.
    pub word_regexp: bool,
    /// Every form of a compound word is found, and replaced in kind.
    pub smart: bool,
    /// Expressions, each with its halves joined by `EXPR_SEP`.
    pub expressions: Vec<String>,
    /// What to find, where there are no `expressions`.
    pub positional_find: Option<String>,
    /// What to put in its place. Without either of the two, and without
    /// `expressions`, nothing is replaced.
    pub positional_replace: Option<String>,
    /// Only `positional_find` counts: nothing is going to be replaced.
    pub list_files_find_only: bool,
}

/// The switches among the options.
pub struct Flags {
    pub regex: bool,
    pub ignore_case: bool,
    pub greedy: bool,
    pub word_regexp: bool,
    pub smart: bool,
}

/// What to find, and what to put in its place.
#[derive(Debug, PartialEq, Eq)]
pub struct Expression {
    pub find: String,
    pub replace: String,
}

/// What an expression holds.
pub struct Rule {
    pub find: Seq<char>,
    pub replace: Seq<char>,
}

impl View for Expression {
    type V = Rule;

    open spec fn view(&self) -> Rule {
        Rule { find: self.find@, replace: self.replace@ }
    }
}

/// What expressions hold.
pub open spec fn rules(expressions: Seq<Expression>) -> Seq<Rule> {
    expressions.map_values(|e: Expression| e@)
}

/// What a match is replaced by.
pub enum ReplacerKind {
    /// The text as it stands.
    Literal(String),
    /// The text, with the groups of the match for the references to them.
    Regex(String),
    /// What the map has for the text that was matched.
    Smart(VariantMap),
}

/// An expression that is ready to be applied.
pub struct CompiledExpression {
    regex: Matcher,
    kind: ReplacerKind,
}

/// What a match is replaced by.
pub enum Substitute {
    Literal(Seq<char>),
    Expand(Seq<char>),
    Lookup(Seq<(Seq<char>, Seq<char>)>),
}

/// What a compiled expression finds, and what it puts in its place.
pub struct Rewriter {
    pub search: Search,
    pub substitute: Substitute,
}

impl View for CompiledExpression {
    type V = Rewriter;

    closed spec fn view(&self) -> Rewriter {
        Rewriter {
            search: self.regex@,
            substitute: match self.kind {
                ReplacerKind::Literal(s) => Substitute::Literal(s@),
                ReplacerKind::Regex(s) => Substitute::Expand(s@),
                ReplacerKind::Smart(map) => Substitute::Lookup(map@),
            },
        }
    }
}

/// What compiled expressions do.
pub open spec fn rewriters(exprs: Seq<CompiledExpression>) -> Seq<Rewriter> {
    exprs.map_values(|e: CompiledExpression| e@)
}

/// Why expressions cannot be compiled.
pub enum CompileError {
    /// An expression has only one half.
    MissingSeparator,
    /// What an expression is to find is no regular expression.
    InvalidRegex { find: String, source: regex::Error },
    /// There is no regular expression for the forms of the word to find.
    InvalidSmartPattern { find: String, source: regex::Error },
}

/// What is wrong with expressions.
pub enum Defect {
    MissingSeparator,
    InvalidRegex { find: Seq<char>, source: regex::Error },
    InvalidSmartPattern { find: Seq<char>, source: regex::Error },
}

impl View for CompileError {
    type V = Defect;

    open spec fn view(&self) -> Defect {
        match *self {
            CompileError::MissingSeparator => Defect::MissingSeparator,
            CompileError::InvalidRegex { find, source } => Defect::InvalidRegex {
                find: find@,
                source,
            },
            CompileError::InvalidSmartPattern { find, source } => Defect::InvalidSmartPattern {
                find: find@,
                source,
            },
        }
    }
}

impl Defect {
    /// The defect in words.
    pub open spec fn message(self) -> Seq<char> {
        match self {
            Defect::MissingSeparator => "Invalid expression: expected `-e <find> <replace>`"@,
            Defect::InvalidRegex { find, .. } => "Invalid regex: "@ + find,
            Defect::InvalidSmartPattern { find, .. } => "Invalid smart pattern: "@ + find,
        }
    }
}

impl CompileError {
    /// The error in words. Why the pattern was refused is in `source`.
    pub fn message(&self) -> (out: String)
        ensures
            out@ == self@.message(),
    {
        match self {
            CompileError::MissingSeparator => {
                "Invalid expression: expected `-e <find> <replace>`".to_string()
            },
            CompileError::InvalidRegex { find, .. } => {
                let mut out = "Invalid regex: ".to_string();
                out.push_str(find.as_str());
                out
            },
            CompileError::InvalidSmartPattern { find, .. } => {
                let mut out = "Invalid smart pattern: ".to_string();
                out.push_str(find.as_str());
                out
            },
        }
    }
}

// ---- from options to rules -------------------------------------------------------

/// How many characters there are before the first `c`.
pub open spec fn first_at(s: Seq<char>, c: char) -> int
    decreases s.len(),
{
    if s.len() == 0 || s[0] == c {
        0
    } else {
        1 + first_at(s.skip(1), c)
    }
}

/// What an expression with its halves joined says: nothing if it has only one.
pub open spec fn parsed(s: Seq<char>) -> Option<Rule> {
    let at = first_at(s, EXPR_SEP);
    if at < s.len() {
        Some(Rule { find: s.take(at), replace: s.skip(at + 1) })
    } else {
        None
    }
}

/// What joined expressions say: nothing if one of them has only one half.
pub open spec fn all_parsed(expressions: Seq<Seq<char>>) -> Option<Seq<Rule>>
    decreases expressions.len(),
{
    if expressions.len() == 0 {
        Some(Seq::empty())
    } else {
        match (all_parsed(expressions.drop_last()), parsed(expressions.last())) {
            (Some(before), Some(rule)) => Some(before.push(rule)),
            _ => None,
        }
    }
}

/// The text that an option holds: none is as good as an empty one.
pub open spec fn or_empty(s: Option<String>) -> Seq<char> {
    match s {
        Some(text) => text@,
        None => Seq::empty(),
    }
}

impl CompileOptions {
    /// The switches.
    pub open spec fn flags(&self) -> Flags {
        Flags {
            regex: self.regex,
            ignore_case: self.ignore_case,
            greedy: self.greedy,
            word_regexp: self.word_regexp,
            smart: self.smart,
        }
    }

    /// The rules that are asked for: nothing if an expression has only one half.
    pub open spec fn asked(&self) -> Option<Seq<Rule>> {
        if self.list_files_find_only {
            Some(seq![Rule { find: or_empty(self.positional_find), replace: Seq::empty() }])
        } else if self.expressions@.len() > 0 {
            all_parsed(text::views(self.expressions@))
        } else if self.positional_find is None && self.positional_replace is None {
            Some(Seq::empty())
        } else {
            Some(
                seq![
                    Rule {
                        find: or_empty(self.positional_find),
                        replace: or_empty(self.positional_replace),
                    },
                ],
            )
        }
    }

    fn uses_expressions(&self) -> (uses: bool)
        ensures
            uses == (self.expressions@.len() > 0),
    {
        self.expressions.len() > 0
    }
}

proof fn lemma_first_at(s: Seq<char>, c: char, at: int)
    requires
        0 <= at <= s.len(),
        forall|k: int| 0 <= k < at ==> s[k] != c,
        at < s.len() ==> s[at] == c,
    ensures
        first_at(s, c) == at,
    decreases s.len(),
{
    if at > 0 {
        lemma_first_at(s.skip(1), c, at - 1);
    }
}

/// Joining two halves and taking the expression apart again gives the halves, as
/// long as the first does not hold the separator.
pub proof fn law_halves_come_back(find: Seq<char>, replace: Seq<char>)
    requires
        !find.contains(EXPR_SEP),
    ensures
        parsed(find.push(EXPR_SEP) + replace) == Some(Rule { find, replace }),
{
    let s = find.push(EXPR_SEP) + replace;
    let at = find.len() as int;
    assert forall|k: int| 0 <= k < at implies s[k] != EXPR_SEP by {
        assert(find.contains(find[k]));
    }
    lemma_first_at(s, EXPR_SEP, at);
    assert(s.take(at) == find);
    assert(s.skip(at + 1) == replace);
}

/// Takes a joined expression apart at its first separator.
pub fn parse_expression(input: &str) -> (out: Result<Expression, CompileError>)
    ensures
        match parsed(input@) {
            Some(rule) => out is Ok && out->Ok_0@ == rule,
            None => out is Err && out->Err_0@ == Defect::MissingSeparator,
        },
{
    let chars = text::chars_of(input);
    let mut at: usize = 0;
    while at < chars.len() && chars[at] != EXPR_SEP
        invariant
            at <= chars@.len(),
            forall|k: int| 0 <= k < at ==> chars@[k] != EXPR_SEP,
        decreases chars@.len() - at,
    {
        at = at + 1;
    }
    proof {
        lemma_first_at(input@, EXPR_SEP, at as int);
    }
    if at == chars.len() {
        return Err(CompileError::MissingSeparator);
    }
    let find = text::string_of_range(&chars, 0, at);
    let replace = text::string_of_range(&chars, at + 1, chars.len());
    assert(find@ == input@.take(at as int));
    assert(replace@ == input@.skip(at + 1));
    Ok(Expression { find, replace })
}

proof fn lemma_all_parsed_prefix(expressions: Seq<Seq<char>>, n: int)
    requires
        0 <= n <= expressions.len(),
        all_parsed(expressions.take(n)) is None,
    ensures
        all_parsed(expressions) is None,
    decreases expressions.len() - n,
{
    if n < expressions.len() {
        assert(expressions.take(n + 1).drop_last() == expressions.take(n));
        lemma_all_parsed_prefix(expressions, n + 1);
    } else {
        assert(expressions.take(n) == expressions);
    }
}

fn parse_expressions(opts: &CompileOptions) -> (out: Result<Vec<Expression>, CompileError>)
    ensures
        match all_parsed(text::views(opts.expressions@)) {
            Some(wanted) => out is Ok && rules(out->Ok_0@) == wanted,
            None => out is Err && out->Err_0@ == Defect::MissingSeparator,
        },
{
    let mut done: Vec<Expression> = Vec::new();
    let ghost all = text::views(opts.expressions@);
    for i in 0..opts.expressions.len()
        invariant
            all == text::views(opts.expressions@),
            all_parsed(all.take(i as int)) == Some(rules(done@)),
    {
        assert(all.take(i + 1).drop_last() == all.take(i as int));
        assert(all.take(i + 1).last() == opts.expressions@[i as int]@);
        match parse_expression(opts.expressions[i].as_str()) {
            Ok(e) => {
                let ghost before = rules(done@);
                done.push(e);
                assert(rules(done@) == before.push(e@));
            },
            Err(e) => {
                proof {
                    lemma_all_parsed_prefix(all, i + 1);
                }
                return Err(e);
            },
        }
    }
    assert(all.take(all.len() as int) == all);
    Ok(done)
}

// ---- from rules to rewriters -----------------------------------------------------

/// The regular expression for what is to be found: plain text is escaped, whole
/// words are bounded, and repetitions take little unless asked to be greedy.
pub open spec fn pattern_for(flags: Flags, find: Seq<char>) -> Seq<char> {
    let base = if flags.regex {
        find
    } else {
        matcher::escaped(find)
    };
    let wrapped = if flags.word_regexp {
        "\\b(?:"@ + base + ")\\b"@
    } else {
        base
    };
    if flags.regex && !flags.greedy {
        "(?U)"@ + wrapped
    } else {
        wrapped
    }
}

/// The regular expression for what is to be found.
pub fn build_pattern_for(opts: &CompileOptions, pattern: &str) -> (out: String)
    ensures
        out@ == pattern_for(opts.flags(), pattern@),
{
    let base = if opts.regex {
        pattern.to_string()
    } else {
        matcher::escape(pattern)
    };
    let wrapped = if opts.word_regexp {
        let mut bounded = "\\b(?:".to_string();
        bounded.push_str(base.as_str());
        bounded.push_str(")\\b");
        bounded
    } else {
        base
    };
    if opts.regex && !opts.greedy {
        let mut lazy = "(?U)".to_string();
        lazy.push_str(wrapped.as_str());
        lazy
    } else {
        wrapped
    }
}

/// The replacement in the notation in which a dollar sign refers to a group: a
/// plain text has its dollar signs doubled.
pub fn build_subst_for(opts: &CompileOptions, replacement: &str) -> (out: String)
    ensures
        out@ == (if opts.regex {
            replacement@
        } else {
            text::replaced(replacement@, '$', "$$"@)
        }),
{
    if opts.regex {
        replacement.to_string()
    } else {
        text::replace_char(replacement, '$', "$$")
    }
}

/// Whether a plain text is looked for as it stands, anywhere in a name.
pub open spec fn is_plain(flags: Flags, find: Seq<char>) -> bool {
    !flags.regex && !flags.smart && !flags.ignore_case && !flags.word_regexp && find.len() > 0
}

/// What a rule is compiled to.
pub open spec fn rewriter_for(flags: Flags, rule: Rule) -> Rewriter {
    if flags.smart {
        let pairs = variants::variant_pairs(rule.find, rule.replace);
        let words = variants::longest_first(variants::keys_of(pairs));
        Rewriter {
            search: if pairs.len() > 0 {
                matcher::search_for_words(words)
            } else {
                matcher::search_for(matcher::alternation(words), false)
            },
            substitute: Substitute::Lookup(pairs),
        }
    } else {
        Rewriter {
            search: if is_plain(flags, rule.find) {
                matcher::search_for_words(seq![rule.find])
            } else {
                matcher::search_for(pattern_for(flags, rule.find), flags.ignore_case)
            },
            substitute: if flags.regex {
                Substitute::Expand(rule.replace)
            } else {
                Substitute::Literal(rule.replace)
            },
        }
    }
}

/// What is wrong with a rule whose pattern is refused.
pub open spec fn defect_of(flags: Flags, rule: Rule) -> Defect {
    let source = rewriter_for(flags, rule).search.refusal();
    if flags.smart {
        Defect::InvalidSmartPattern { find: rule.find, source }
    } else {
        Defect::InvalidRegex { find: rule.find, source }
    }
}

/// Whether a rule can make a difference: one that puts a plain text in its own
/// place cannot.
pub open spec fn counts(flags: Flags, rule: Rule) -> bool {
    flags.regex || flags.smart || rule.find != rule.replace
}

/// What rules are compiled to, or what is wrong with the first that cannot be.
pub open spec fn compiled(flags: Flags, rules: Seq<Rule>) -> Result<Seq<Rewriter>, Defect>
    decreases rules.len(),
{
    if rules.len() == 0 {
        Ok(Seq::empty())
    } else {
        match compiled(flags, rules.drop_last()) {
            Err(defect) => Err(defect),
            Ok(before) => {
                let rule = rules.last();
                if !counts(flags, rule) {
                    Ok(before)
                } else if rewriter_for(flags, rule).search.compiles() {
                    Ok(before.push(rewriter_for(flags, rule)))
                } else {
                    Err(defect_of(flags, rule))
                }
            },
        }
    }
}

impl CompiledExpression {
    #[verifier::type_invariant]
    spec fn consistent(self) -> bool {
        self.kind matches ReplacerKind::Smart(map) ==> map@.len() == 0 || self.regex@
            == matcher::search_for_words(variants::longest_first(variants::keys_of(map@)))
    }

    /// What the expression finds.
    pub fn regex(&self) -> (matcher: &Matcher)
        ensures
            matcher@ == self@.search,
    {
        &self.regex
    }

    /// Whether the expression can be applied.
    pub fn can_rewrite(&self) -> (can: bool)
        ensures
            can == self@.applicable(),
    {
        match &self.kind {
            ReplacerKind::Smart(map) => !map.is_empty(),
            _ => true,
        }
    }
}

fn compile_expression(opts: &CompileOptions, expr: &Expression) -> (out: Result<
    CompiledExpression,
    CompileError,
>)
    ensures
        out is Ok <==> rewriter_for(opts.flags(), expr@).search.compiles(),
        out matches Ok(e) ==> e@ == rewriter_for(opts.flags(), expr@),
        out matches Err(e) ==> e@ == defect_of(opts.flags(), expr@),
{
    if opts.smart {
        let (map, pattern) = variants::build_case_variants(
            expr.find.as_str(),
            expr.replace.as_str(),
        );
        let ghost words = variants::longest_first(variants::keys_of(map@));
        let made = if map.is_empty() {
            Matcher::new(pattern, false)
        } else {
            proof {
                lemma_forms_are_words(expr.find@, expr.replace@);
            }
            Matcher::of_words(pattern, Ghost(words))
        };
        match made {
            Ok(regex) => Ok(CompiledExpression { regex, kind: ReplacerKind::Smart(map) }),
            Err(source) => Err(
                CompileError::InvalidSmartPattern { find: expr.find.clone(), source },
            ),
        }
    } else {
        let pattern = build_pattern_for(opts, expr.find.as_str());
        let plain = !opts.regex && !opts.ignore_case && !opts.word_regexp && text::chars_of(
            expr.find.as_str(),
        ).len() > 0;
        let ghost only = seq![expr.find@];
        let made = if plain {
            proof {
                lemma_single_word(expr.find@);
            }
            Matcher::of_words(pattern, Ghost(only))
        } else {
            Matcher::new(pattern, opts.ignore_case)
        };
        match made {
            Ok(regex) => {
                let kind = if opts.regex {
                    ReplacerKind::Regex(build_subst_for(opts, expr.replace.as_str()))
                } else {
                    ReplacerKind::Literal(expr.replace.clone())
                };
                Ok(CompiledExpression { regex, kind })
            },
            Err(source) => Err(CompileError::InvalidRegex { find: expr.find.clone(), source }),
        }
    }
}

/// A text is the alternation of itself alone.
proof fn lemma_single_word(find: Seq<char>)
    requires
        find.len() > 0,
    ensures
        matcher::are_words(seq![find]),
        matcher::alternation(seq![find]) == matcher::escaped(find),
{
    let parts = seq![find].map_values(|t: Seq<char>| matcher::escaped(t));
    assert(parts =~= seq![matcher::escaped(find)]);
}

/// The forms of a word are words, if there are any.
proof fn lemma_forms_are_words(find: Seq<char>, replace: Seq<char>)
    requires
        variants::variant_pairs(find, replace).len() > 0,
    ensures
        matcher::are_words(
            variants::longest_first(variants::keys_of(variants::variant_pairs(find, replace))),
        ),
{
    let pairs = variants::variant_pairs(find, replace);
    let keys = variants::keys_of(pairs);
    let words = variants::longest_first(keys);
    variants::law_pairs_are_a_map(variants::all_forms(find), variants::all_forms(replace));
    variants::law_longest_first_sorts(keys);
    assert forall|i: int| 0 <= i < words.len() implies (#[trigger] words[i]).len() > 0 by {
        assert(words.contains(words[i]));
        let k = choose|k: int| 0 <= k < keys.len() && keys[k] == words[i];
        assert(pairs[k].0.len() > 0);
    }
}

fn text_or_empty(s: &Option<String>) -> (out: String)
    ensures
        out@ == or_empty(*s),
{
    match s {
        Some(text) => text.clone(),
        None => String::new(),
    }
}

proof fn lemma_compiled_prefix(flags: Flags, rules: Seq<Rule>, n: int)
    requires
        0 <= n <= rules.len(),
        compiled(flags, rules.take(n)) is Err,
    ensures
        compiled(flags, rules) == compiled(flags, rules.take(n)),
    decreases rules.len() - n,
{
    if n < rules.len() {
        assert(rules.take(n + 1).drop_last() == rules.take(n));
        lemma_compiled_prefix(flags, rules, n + 1);
    } else {
        assert(rules.take(n) == rules);
    }
}

/// Compiles the expressions that the options ask for.
pub fn compile_expressions(opts: &CompileOptions) -> (out: Result<
    Vec<CompiledExpression>,
    CompileError,
>)
    ensures
        match opts.asked() {
            None => out is Err && out->Err_0@ == Defect::MissingSeparator,
            Some(rules) => match compiled(opts.flags(), rules) {
                Ok(wanted) => out is Ok && rewriters(out->Ok_0@) == wanted,
                Err(defect) => out is Err && out->Err_0@ == defect,
            },
        },
{
    let expressions = if opts.list_files_find_only {
        let only = Expression {
            find: text_or_empty(&opts.positional_find),
            replace: String::new(),
        };
        let list = vec![only];
        assert(rules(list@) == opts.asked()->Some_0);
        list
    } else if opts.uses_expressions() {
        match parse_expressions(opts) {
            Ok(list) => list,
            Err(e) => return Err(e),
        }
    } else if opts.positional_find.is_none() && opts.positional_replace.is_none() {
        let list: Vec<Expression> = Vec::new();
        assert(rules(list@) == Seq::<Rule>::empty());
        list
    } else {
        let only = Expression {
            find: text_or_empty(&opts.positional_find),
            replace: text_or_empty(&opts.positional_replace),
        };
        let list = vec![only];
        assert(rules(list@) == opts.asked()->Some_0);
        list
    };
    compile_all(opts, &expressions)
}

fn compile_all(opts: &CompileOptions, expressions: &Vec<Expression>) -> (out: Result<
    Vec<CompiledExpression>,
    CompileError,
>)
    ensures
        match compiled(opts.flags(), rules(expressions@)) {
            Ok(wanted) => out is Ok && rewriters(out->Ok_0@) == wanted,
            Err(defect) => out is Err && out->Err_0@ == defect,
        },
{
    let mut done: Vec<CompiledExpression> = Vec::new();
    let ghost all = rules(expressions@);
    assert(rewriters(done@) == Seq::<Rewriter>::empty());
    for i in 0..expressions.len()
        invariant
            all == rules(expressions@),
            compiled(opts.flags(), all.take(i as int)) == Ok::<Seq<Rewriter>, Defect>(
                rewriters(done@),
            ),
    {
        assert(all.take(i + 1).drop_last() == all.take(i as int));
        let e = &expressions[i];
        assert(all.take(i + 1).last() == e@);
        if opts.regex || opts.smart || e.find != e.replace {
            match compile_expression(opts, e) {
                Ok(c) => {
                    let ghost before = rewriters(done@);
                    done.push(c);
                    assert(rewriters(done@) == before.push(c@));
                },
                Err(error) => {
                    proof {
                        lemma_compiled_prefix(opts.flags(), all, i + 1);
                    }
                    return Err(error);
                },
            }
        }
    }
    assert(all.take(all.len() as int) == all);
    Ok(done)
}

// ---- rewriting -------------------------------------------------------------------

/// Where the match before the one at `n` ends.
pub open spec fn end_before(spans: Seq<(int, int)>, n: int) -> int {
    if n == 0 {
        0
    } else {
        spans[n - 1].1
    }
}

/// The text up to the end of the match before the one at `n`, with the matches
/// replaced.
pub open spec fn spliced_to(
    text: Seq<char>,
    spans: Seq<(int, int)>,
    replacements: Seq<Seq<char>>,
    n: int,
) -> Seq<char>
    decreases n,
{
    if n <= 0 {
        Seq::empty()
    } else {
        spliced_to(text, spans, replacements, n - 1) + text.subrange(
            end_before(spans, n - 1),
            spans[n - 1].0,
        ) + replacements[n - 1]
    }
}

/// The text with each match replaced, and all between the matches as it was.
pub open spec fn spliced(
    text: Seq<char>,
    spans: Seq<(int, int)>,
    replacements: Seq<Seq<char>>,
) -> Seq<char> {
    let n = spans.len() as int;
    spliced_to(text, spans, replacements, n) + text.skip(end_before(spans, n))
}

impl Rewriter {
    /// Whether there is a replacement for whatever is matched.
    pub open spec fn applicable(self) -> bool {
        self.substitute matches Substitute::Lookup(pairs) ==> pairs.len() > 0
    }

    /// What each match in the text is replaced by.
    pub open spec fn replacements(self, text: Seq<char>) -> Seq<Seq<char>> {
        let spans = self.search.spans(text);
        match self.substitute {
            Substitute::Literal(s) => Seq::new(spans.len(), |i: int| s),
            Substitute::Expand(s) => self.search.expansions(text, s),
            Substitute::Lookup(pairs) => Seq::new(
                spans.len(),
                |i: int| variants::looked_up(pairs, text.subrange(spans[i].0, spans[i].1)),
            ),
        }
    }

    /// The text with each match replaced.
    pub open spec fn rewrite(self, text: Seq<char>) -> Seq<char> {
        spliced(text, self.search.spans(text), self.replacements(text))
    }
}

/// What is left of a text after the rewriters have been applied to it, one after
/// the other.
pub open spec fn rewritten(rewriters: Seq<Rewriter>, text: Seq<char>) -> Seq<char>
    decreases rewriters.len(),
{
    if rewriters.len() == 0 {
        text
    } else {
        rewriters.last().rewrite(rewritten(rewriters.drop_last(), text))
    }
}

/// How many matches the rewriters replace.
pub open spec fn match_count(rewriters: Seq<Rewriter>, text: Seq<char>) -> nat
    decreases rewriters.len(),
{
    if rewriters.len() == 0 {
        0
    } else {
        match_count(rewriters.drop_last(), text) + rewriters.last().search.spans(
            rewritten(rewriters.drop_last(), text),
        ).len()
    }
}

/// Replaces the matches at the given positions.
pub fn splice(text: &str, spans: &Vec<(usize, usize)>, replacements: &Vec<String>) -> (out: String)
    requires
        matcher::spans_in_order(matcher::positions(spans@), text@.len() as int),
        spans@.len() == replacements@.len(),
    ensures
        out@ == spliced(text@, matcher::positions(spans@), text::views(replacements@)),
{
    let chars = text::chars_of(text);
    let mut out = String::new();
    let mut end: usize = 0;
    let ghost marks = matcher::positions(spans@);
    let ghost words = text::views(replacements@);
    for i in 0..spans.len()
        invariant
            chars@ == text@,
            marks == matcher::positions(spans@),
            words == text::views(replacements@),
            matcher::spans_in_order(marks, text@.len() as int),
            spans@.len() == replacements@.len(),
            end == end_before(marks, i as int),
            end <= chars@.len(),
            out@ == spliced_to(text@, marks, words, i as int),
    {
        let (from, to) = spans[i];
        assert(marks[i as int] == (from as int, to as int));
        assert(i > 0 ==> marks[i - 1].1 <= marks[i as int].0);
        let between = text::string_of_range(&chars, end, from);
        out.push_str(between.as_str());
        out.push_str(replacements[i].as_str());
        end = to;
        assert(words[i as int] == replacements@[i as int]@);
    }
    let rest = text::string_of_range(&chars, end, chars.len());
    assert(rest@ == text@.skip(end as int));
    out.push_str(rest.as_str());
    out
}

fn literal_replacements(replacement: &String, count: usize) -> (out: Vec<String>)
    ensures
        text::views(out@) == Seq::new(count as nat, |i: int| replacement@),
        out@.len() == count,
{
    let mut out: Vec<String> = Vec::new();
    for i in 0..count
        invariant
            out@.len() == i,
            text::views(out@) == Seq::new(i as nat, |i: int| replacement@),
    {
        let ghost before = text::views(out@);
        out.push(replacement.clone());
        assert(text::views(out@) == before.push(replacement@));
    }
    out
}

/// Looks up what each match is to be replaced by.
fn smart_replacements(map: &VariantMap, text: &str, spans: &Vec<(usize, usize)>) -> (out: Vec<
    String,
>)
    requires
        matcher::spans_in_order(matcher::positions(spans@), text@.len() as int),
        matcher::matches_are_among(
            matcher::positions(spans@),
            text@,
            variants::longest_first(variants::keys_of(map@)),
        ),
    ensures
        out@.len() == spans@.len(),
        text::views(out@) == Seq::new(
            spans@.len(),
            |i: int|
                variants::looked_up(
                    map@,
                    text@.subrange(
                        matcher::positions(spans@)[i].0,
                        matcher::positions(spans@)[i].1,
                    ),
                ),
        ),
{
    let chars = text::chars_of(text);
    let mut out: Vec<String> = Vec::new();
    let ghost marks = matcher::positions(spans@);
    let ghost keys = variants::keys_of(map@);
    for i in 0..spans.len()
        invariant
            chars@ == text@,
            marks == matcher::positions(spans@),
            keys == variants::keys_of(map@),
            matcher::spans_in_order(marks, text@.len() as int),
            matcher::matches_are_among(marks, text@, variants::longest_first(keys)),
            out@.len() == i,
            forall|k: int|
                0 <= k < i ==> (#[trigger] out@[k])@ == variants::looked_up(
                    map@,
                    text@.subrange(marks[k].0, marks[k].1),
                ),
    {
        let (from, to) = spans[i];
        assert(marks[i as int] == (from as int, to as int));
        let found = text::string_of_range(&chars, from, to);
        proof {
            variants::law_longest_first_sorts(keys);
            assert(variants::longest_first(keys).contains(found@));
            let k = choose|k: int| 0 <= k < keys.len() && keys[k] == found@;
            assert(map@[k].0 == found@);
        }
        match map.get(found.as_str()) {
            Some(word) => {
                out.push(word.clone());
            },
            None => {
                assert(false);
            },
        }
    }
    assert(text::views(out@) =~= Seq::new(
        spans@.len(),
        |i: int| variants::looked_up(map@, text@.subrange(marks[i].0, marks[i].1)),
    ));
    out
}

impl CompiledExpression {
    /// What becomes of the text, and how many matches were replaced.
    fn rewrite(&self, text: &str) -> (out: (String, usize))
        requires
            self@.applicable(),
        ensures
            out.0@ == self@.rewrite(text@),
            out.1 == self@.search.spans(text@).len(),
    {
        proof {
            use_type_invariant(self);
        }
        let spans = self.regex.spans(text);
        let ghost marks = self@.search.spans(text@);
        assert(marks.len() == spans@.len());
        let replacements = match &self.kind {
            ReplacerKind::Literal(s) => literal_replacements(s, spans.len()),
            ReplacerKind::Regex(s) => self.regex.expansions(text, s.as_str()),
            ReplacerKind::Smart(map) => {
                proof {
                    matcher::law_found_words_are_words(
                        text@,
                        variants::longest_first(variants::keys_of(map@)),
                        0,
                    );
                }
                smart_replacements(map, text, &spans)
            },
        };
        assert(text::views(replacements@) =~= self@.replacements(text@));
        (splice(text, &spans, &replacements), spans.len())
    }
}

/// Whether every expression can be applied.
pub open spec fn all_applicable(rewriters: Seq<Rewriter>) -> bool {
    forall|i: int| 0 <= i < rewriters.len() ==> (#[trigger] rewriters[i]).applicable()
}

/// Whether every expression can be applied: one that looks for the forms of a
/// word without any form cannot.
pub fn can_apply(exprs: &[CompiledExpression]) -> (can: bool)
    ensures
        can == all_applicable(rewriters(exprs@)),
{
    for i in 0..exprs.len()
        invariant
            forall|k: int| 0 <= k < i ==> (#[trigger] rewriters(exprs@)[k]).applicable(),
    {
        assert(rewriters(exprs@)[i as int] == exprs@[i as int]@);
        if !exprs[i].can_rewrite() {
            return false;
        }
    }
    true
}

/// The number, or the largest there is if it is larger than that.
pub open spec fn saturated(n: nat) -> usize {
    if n <= usize::MAX {
        n as usize
    } else {
        usize::MAX
    }
}

/// What the expressions, one after the other, make of a name, and how many
/// matches they replace in all.
pub fn apply_to_basename(name: &str, exprs: &[CompiledExpression]) -> (out: (String, usize))
    requires
        all_applicable(rewriters(exprs@)),
    ensures
        out.0@ == rewritten(rewriters(exprs@), name@),
        out.1 == saturated(match_count(rewriters(exprs@), name@)),
{
    let mut current = name.to_string();
    let mut total: usize = 0;
    let ghost all = rewriters(exprs@);
    for i in 0..exprs.len()
        invariant
            all == rewriters(exprs@),
            all_applicable(all),
            current@ == rewritten(all.take(i as int), name@),
            total == saturated(match_count(all.take(i as int), name@)),
    {
        assert(all.take(i + 1).drop_last() == all.take(i as int));
        assert(all.take(i + 1).last() == exprs@[i as int]@);
        assert(all[i as int].applicable());
        let (next, count) = exprs[i].rewrite(current.as_str());
        current = next;
        total = if count > usize::MAX - total {
            usize::MAX
        } else {
            total + count
        };
    }
    assert(all.take(all.len() as int) == all);
    (current, total)
}

// ---- laws ------------------------------------------------------------------------

/// Where nothing is found, nothing changes.
pub proof fn law_no_match_no_change(rewriter: Rewriter, text: Seq<char>)
    requires
        rewriter.search.spans(text).len() == 0,
    ensures
        rewriter.rewrite(text) == text,
{
    assert(Seq::<char>::empty() + text.skip(0) == text);
}

/// A name in which no expression finds anything stays as it is.
pub proof fn law_unmatched_name_stays(rewriters: Seq<Rewriter>, text: Seq<char>)
    requires
        match_count(rewriters, text) == 0,
    ensures
        rewritten(rewriters, text) == text,
    decreases rewriters.len(),
{
    if rewriters.len() > 0 {
        law_unmatched_name_stays(rewriters.drop_last(), text);
        law_no_match_no_change(rewriters.last(), text);
    }
}

/// Expressions are applied in order: what comes first is done when the next
/// begins.
pub proof fn law_expressions_chain(first: Seq<Rewriter>, second: Seq<Rewriter>, text: Seq<char>)
    ensures
        rewritten(first + second, text) == rewritten(second, rewritten(first, text)),
        match_count(first + second, text) == match_count(first, text) + match_count(
            second,
            rewritten(first, text),
        ),
    decreases second.len(),
{
    if second.len() == 0 {
        assert(first + second == first);
    } else {
        assert((first + second).drop_last() == first + second.drop_last());
        law_expressions_chain(first, second.drop_last(), text);
    }
}

/// Putting each match in its own place changes nothing.
pub proof fn law_splicing_matches_changes_nothing(
    text: Seq<char>,
    spans: Seq<(int, int)>,
    replacements: Seq<Seq<char>>,
)
    requires
        matcher::spans_in_order(spans, text.len() as int),
        replacements.len() == spans.len(),
        forall|i: int|
            0 <= i < spans.len() ==> #[trigger] replacements[i] == text.subrange(
                spans[i].0,
                spans[i].1,
            ),
    ensures
        spliced(text, spans, replacements) == text,
{
    let n = spans.len() as int;
    lemma_spliced_matches(text, spans, replacements, n);
    assert(n > 0 ==> 0 <= spans[n - 1].1 <= text.len());
    assert(text.take(end_before(spans, n)) + text.skip(end_before(spans, n)) == text);
}

proof fn lemma_spliced_matches(
    text: Seq<char>,
    spans: Seq<(int, int)>,
    replacements: Seq<Seq<char>>,
    n: int,
)
    requires
        0 <= n <= spans.len(),
        matcher::spans_in_order(spans, text.len() as int),
        replacements.len() == spans.len(),
        forall|i: int|
            0 <= i < spans.len() ==> #[trigger] replacements[i] == text.subrange(
                spans[i].0,
                spans[i].1,
            ),
    ensures
        spliced_to(text, spans, replacements, n) == text.take(end_before(spans, n)),
    decreases n,
{
    if n > 0 {
        lemma_spliced_matches(text, spans, replacements, n - 1);
        let start = end_before(spans, n - 1);
        let (from, to) = spans[n - 1];
        assert(n > 1 ==> spans[n - 2].1 <= spans[n - 1].0);
        assert(replacements[n - 1] == text.subrange(from, to));
        assert(text.take(start) + text.subrange(start, from) + text.subrange(from, to)
            == text.take(to));
    }
}

/// The text from `from` on, with the matches from the one at `i` on replaced.
spec fn spliced_from(
    text: Seq<char>,
    spans: Seq<(int, int)>,
    replacements: Seq<Seq<char>>,
    i: int,
    from: int,
) -> Seq<char>
    decreases spans.len() - i,
{
    if i < 0 || i >= spans.len() {
        text.skip(from)
    } else {
        text.subrange(from, spans[i].0) + replacements[i] + spliced_from(
            text,
            spans,
            replacements,
            i + 1,
            spans[i].1,
        )
    }
}

proof fn lemma_spliced_in_two(
    text: Seq<char>,
    spans: Seq<(int, int)>,
    replacements: Seq<Seq<char>>,
    i: int,
)
    requires
        0 <= i <= spans.len(),
    ensures
        spliced(text, spans, replacements) == spliced_to(text, spans, replacements, i)
            + spliced_from(text, spans, replacements, i, end_before(spans, i)),
    decreases spans.len() - i,
{
    if i < spans.len() {
        lemma_spliced_in_two(text, spans, replacements, i + 1);
        let done = spliced_to(text, spans, replacements, i);
        let between = text.subrange(end_before(spans, i), spans[i].0);
        let rest = spliced_from(text, spans, replacements, i + 1, spans[i].1);
        assert(done + between + replacements[i] + rest == done + (between + replacements[i]
            + rest));
    }
}

/// The text from `k` on, with what `put` has for a word in the place of each word
/// that stands there.
pub open spec fn substituted(
    text: Seq<char>,
    words: Seq<Seq<char>>,
    put: spec_fn(Seq<char>) -> Seq<char>,
    k: int,
) -> Seq<char>
    decreases text.len() - k,
{
    if k < 0 || k >= text.len() {
        Seq::empty()
    } else {
        match matcher::word_at(text, words, k) {
            Some(word) => if 0 < word.len() <= text.len() - k {
                put(word) + substituted(text, words, put, k + word.len())
            } else {
                text.skip(k)
            },
            None => seq![text[k]] + substituted(text, words, put, k + 1),
        }
    }
}

proof fn lemma_spliced_words(
    text: Seq<char>,
    words: Seq<Seq<char>>,
    put: spec_fn(Seq<char>) -> Seq<char>,
    spans: Seq<(int, int)>,
    replacements: Seq<Seq<char>>,
    i: int,
    from: int,
    k: int,
)
    requires
        0 <= from <= k <= text.len(),
        0 <= i <= spans.len() == replacements.len(),
        spans.skip(i) == matcher::occurrences(text, words, k),
        forall|j: int|
            0 <= j < spans.len() ==> #[trigger] replacements[j] == put(
                text.subrange(spans[j].0, spans[j].1),
            ),
    ensures
        spliced_from(text, spans, replacements, i, from) == text.subrange(from, k) + substituted(
            text,
            words,
            put,
            k,
        ),
    decreases text.len() - k,
{
    if k == text.len() {
        assert(spans.skip(i).len() == 0);
        assert(text.skip(from) == text.subrange(from, k) + Seq::<char>::empty());
    } else {
        matcher::lemma_word_at(text, words, k);
        match matcher::word_at(text, words, k) {
            Some(word) => if word.len() > 0 {
                let rest = matcher::occurrences(text, words, k + word.len());
                assert(spans.skip(i) == seq![(k, k + word.len())] + rest);
                assert(spans.skip(i).len() == 1 + rest.len());
                assert(spans.skip(i)[0] == (k, k + word.len()));
                assert(spans[i] == (k, k + word.len()));
                assert(spans.skip(i + 1) == spans.skip(i).skip(1));
                assert(spans.skip(i).skip(1) == rest);
                let next = k + word.len();
                lemma_spliced_words(text, words, put, spans, replacements, i + 1, next, next);
                assert(replacements[i] == put(word));
                let tail = substituted(text, words, put, next);
                assert(text.subrange(next, next) + tail == tail);
                assert(text.subrange(from, k) + put(word) + tail == text.subrange(from, k) + (put(
                    word,
                ) + tail));
            } else {
                assert(spans.skip(i).len() == 0);
                assert(text.skip(from) == text.subrange(from, k) + text.skip(k));
            },
            None => {
                lemma_spliced_words(text, words, put, spans, replacements, i, from, k + 1);
                let tail = substituted(text, words, put, k + 1);
                assert(text.subrange(from, k + 1) + tail == text.subrange(from, k) + (seq![text[k]]
                    + tail));
            },
        }
    }
}

proof fn lemma_words_replaced(
    rewriter: Rewriter,
    words: Seq<Seq<char>>,
    put: spec_fn(Seq<char>) -> Seq<char>,
    text: Seq<char>,
)
    requires
        rewriter.search.words == Some(words),
        rewriter.replacements(text).len() == rewriter.search.spans(text).len(),
        forall|j: int|
            0 <= j < rewriter.search.spans(text).len() ==> #[trigger] rewriter.replacements(text)[j]
                == put(
                text.subrange(rewriter.search.spans(text)[j].0, rewriter.search.spans(text)[j].1),
            ),
    ensures
        rewriter.rewrite(text) == substituted(text, words, put, 0),
{
    let spans = rewriter.search.spans(text);
    let replacements = rewriter.replacements(text);
    assert(spans.skip(0) == spans);
    lemma_spliced_in_two(text, spans, replacements, 0);
    lemma_spliced_words(text, words, put, spans, replacements, 0, 0, 0);
    let all = substituted(text, words, put, 0);
    assert(text.subrange(0, 0) + all == all);
    assert(Seq::<char>::empty() + all == all);
}

/// The text with every occurrence of `find` replaced, from left to right.
pub open spec fn replaced_all(text: Seq<char>, find: Seq<char>, replace: Seq<char>) -> Seq<char>
    decreases text.len(),
{
    if text.len() == 0 || find.len() == 0 {
        text
    } else if text::starts_with(text, find) {
        replace + replaced_all(text.skip(find.len() as int), find, replace)
    } else {
        seq![text[0]] + replaced_all(text.skip(1), find, replace)
    }
}

proof fn lemma_replaced_all(text: Seq<char>, find: Seq<char>, replace: Seq<char>, k: int)
    requires
        find.len() > 0,
        0 <= k <= text.len(),
    ensures
        substituted(text, seq![find], |w: Seq<char>| replace, k) == replaced_all(
            text.skip(k),
            find,
            replace,
        ),
    decreases text.len() - k,
{
    if k < text.len() {
        let rest = text.skip(k);
        assert(seq![find].drop_last() == Seq::<Seq<char>>::empty());
        assert(matcher::word_at(text, Seq::empty(), k) is None);
        if text::starts_with(rest, find) {
            assert(matcher::word_at(text, seq![find], k) == Some(find));
            assert(rest.skip(find.len() as int) == text.skip(k + find.len()));
            lemma_replaced_all(text, find, replace, k + find.len());
        } else {
            assert(matcher::word_at(text, seq![find], k) is None);
            assert(rest.skip(1) == text.skip(k + 1));
            lemma_replaced_all(text, find, replace, k + 1);
        }
    } else {
        assert(text.skip(k) == Seq::<char>::empty());
    }
}

/// Where plain text is asked for, every occurrence of what is to be found is
/// replaced, from left to right, and all else stays.
pub proof fn law_plain_text_is_replaced(flags: Flags, rule: Rule, text: Seq<char>)
    requires
        is_plain(flags, rule.find),
    ensures
        rewriter_for(flags, rule).rewrite(text) == replaced_all(text, rule.find, rule.replace),
{
    let rewriter = rewriter_for(flags, rule);
    lemma_words_replaced(rewriter, seq![rule.find], |w: Seq<char>| rule.replace, text);
    lemma_replaced_all(text, rule.find, rule.replace, 0);
    assert(text.skip(0) == text);
}

/// Where the forms of a word are asked for, each that stands in a text, the longest
/// where several do, is replaced by the form of the other word that goes with it,
/// and all else stays.
pub proof fn law_forms_are_replaced_in_kind(flags: Flags, rule: Rule, text: Seq<char>)
    requires
        flags.smart,
        variants::variant_pairs(rule.find, rule.replace).len() > 0,
    ensures
        ({
            let pairs = variants::variant_pairs(rule.find, rule.replace);
            let words = variants::longest_first(variants::keys_of(pairs));
            rewriter_for(flags, rule).rewrite(text) == substituted(
                text,
                words,
                |w: Seq<char>| variants::looked_up(pairs, w),
                0,
            )
        }),
{
    let pairs = variants::variant_pairs(rule.find, rule.replace);
    let words = variants::longest_first(variants::keys_of(pairs));
    lemma_words_replaced(
        rewriter_for(flags, rule),
        words,
        |w: Seq<char>| variants::looked_up(pairs, w),
        text,
    );
}

/// A rule that puts a plain text in its own place is left out, and so changes
/// nothing.
pub proof fn law_no_op_is_left_out(flags: Flags, find: Seq<char>)
    requires
        !flags.regex,
        !flags.smart,
    ensures
        compiled(flags, seq![Rule { find, replace: find }]) == Ok::<Seq<Rewriter>, Defect>(
            Seq::empty(),
        ),
{
    let only = seq![Rule { find, replace: find }];
    assert(only.drop_last() == Seq::<Rule>::empty());
    assert(compiled(flags, Seq::empty()) == Ok::<Seq<Rewriter>, Defect>(Seq::empty()));
}

/// Where plain text is asked for, a dollar sign in the replacement stands for
/// itself: every match is replaced by the replacement as it stands.
pub proof fn law_plain_replacement_is_verbatim(flags: Flags, rule: Rule, text: Seq<char>, i: int)
    requires
        !flags.regex,
        !flags.smart,
        0 <= i < rewriter_for(flags, rule).search.spans(text).len(),
    ensures
        rewriter_for(flags, rule).replacements(text)[i] == rule.replace,
{
}

// ---- laws on whole texts -----------------------------------------------------------

/// How much longer a text has become by the replacement of the first `n` matches.
pub open spec fn growth(spans: Seq<(int, int)>, replacements: Seq<Seq<char>>, n: int) -> int
    decreases n,
{
    if n <= 0 {
        0
    } else {
        growth(spans, replacements, n - 1) + replacements[n - 1].len() - (spans[n - 1].1 - spans[n
            - 1].0)
    }
}

/// Whether `out` is the text with each match replaced: at the place of each match
/// stands its own replacement, every other character is where the replacements before
/// it have moved it, and there is nothing else.
pub open spec fn is_rewritten(
    text: Seq<char>,
    spans: Seq<(int, int)>,
    replacements: Seq<Seq<char>>,
    out: Seq<char>,
) -> bool {
    &&& out.len() == text.len() + growth(spans, replacements, spans.len() as int)
    &&& forall|i: int|
        0 <= i < spans.len() ==> {
            let at = spans[i].0 + growth(spans, replacements, i);
            &&& 0 <= at <= at + (#[trigger] replacements[i]).len() <= out.len()
            &&& out.subrange(at, at + replacements[i].len()) == replacements[i]
        }
    &&& forall|i: int, k: int|
        0 <= k < text.len() && #[trigger] matcher::is_between(spans, i, k) ==> 0 <= k + growth(
            spans,
            replacements,
            i,
        ) < out.len() && out[k + growth(spans, replacements, i)] == text[k]
}

/// Where the text before the match at `n` ends, with the matches replaced.
proof fn lemma_spliced_len(
    text: Seq<char>,
    spans: Seq<(int, int)>,
    replacements: Seq<Seq<char>>,
    n: int,
)
    requires
        0 <= n <= spans.len(),
        matcher::spans_in_order(spans, text.len() as int),
        replacements.len() == spans.len(),
    ensures
        0 <= end_before(spans, n) <= text.len(),
        spliced_to(text, spans, replacements, n).len() == end_before(spans, n) + growth(
            spans,
            replacements,
            n,
        ),
    decreases n,
{
    if n > 0 {
        lemma_spliced_len(text, spans, replacements, n - 1);
        assert(n > 1 ==> spans[n - 2].1 <= spans[n - 1].0);
        assert(0 <= spans[n - 1].0 <= spans[n - 1].1 <= text.len());
    }
}

/// What has been put down stays where it is.
proof fn lemma_spliced_grows(
    text: Seq<char>,
    spans: Seq<(int, int)>,
    replacements: Seq<Seq<char>>,
    m: int,
    n: int,
)
    requires
        0 <= m <= n <= spans.len(),
    ensures
        text::starts_with(
            spliced_to(text, spans, replacements, n),
            spliced_to(text, spans, replacements, m),
        ),
    decreases n - m,
{
    let early = spliced_to(text, spans, replacements, m);
    let late = spliced_to(text, spans, replacements, n);
    if m == n {
        assert(late.take(early.len() as int) =~= early);
    } else {
        lemma_spliced_grows(text, spans, replacements, m, n - 1);
        let before = spliced_to(text, spans, replacements, n - 1);
        assert(before.take(early.len() as int) == early);
        assert(late.take(early.len() as int) =~= before.take(early.len() as int));
    }
}

/// Where the replacement of the match at `i` stands, and what is between it and the
/// match before.
#[verifier::rlimit(40)]
#[verifier::spinoff_prover]
proof fn lemma_spliced_place(
    text: Seq<char>,
    spans: Seq<(int, int)>,
    replacements: Seq<Seq<char>>,
    i: int,
)
    requires
        0 <= i < spans.len(),
        matcher::spans_in_order(spans, text.len() as int),
        replacements.len() == spans.len(),
    ensures
        ({
            let out = spliced(text, spans, replacements);
            let at = spans[i].0 + growth(spans, replacements, i);
            &&& 0 <= at <= at + replacements[i].len() <= out.len()
            &&& out.subrange(at, at + replacements[i].len()) == replacements[i]
            &&& forall|k: int|
                end_before(spans, i) <= k < spans[i].0 ==> 0 <= k + growth(spans, replacements, i)
                    < out.len() && #[trigger] text[k] == out[k + growth(spans, replacements, i)]
        }),
{
    let n = spans.len() as int;
    let out = spliced(text, spans, replacements);
    let before = spliced_to(text, spans, replacements, i);
    let here = spliced_to(text, spans, replacements, i + 1);
    let all = spliced_to(text, spans, replacements, n);
    lemma_spliced_len(text, spans, replacements, i);
    lemma_spliced_len(text, spans, replacements, i + 1);
    lemma_spliced_grows(text, spans, replacements, i + 1, n);
    assert(i > 0 ==> spans[i - 1].1 <= spans[i].0);
    assert(0 <= spans[i].0 <= spans[i].1 <= text.len());
    let gap = text.subrange(end_before(spans, i), spans[i].0);
    assert(here == before + gap + replacements[i]);
    assert(all.take(here.len() as int) == here);
    assert forall|x: int| 0 <= x < here.len() implies #[trigger] out[x] == here[x] by {
        assert(all[x] == all.take(here.len() as int)[x]);
    }
    let at = spans[i].0 + growth(spans, replacements, i);
    assert(out.subrange(at, at + replacements[i].len()) =~= replacements[i]);
    assert forall|k: int| end_before(spans, i) <= k < spans[i].0 implies 0 <= k + growth(
        spans,
        replacements,
        i,
    ) < out.len() && #[trigger] text[k] == out[k + growth(spans, replacements, i)] by {
        assert(here[k + growth(spans, replacements, i)] == gap[k - end_before(spans, i)]);
    }
}

/// In a text whose matches are replaced, each replacement stands where its match
/// stood, and all else stays.
#[verifier::rlimit(40)]
#[verifier::spinoff_prover]
pub proof fn law_matches_are_replaced_in_place(
    text: Seq<char>,
    spans: Seq<(int, int)>,
    replacements: Seq<Seq<char>>,
)
    requires
        matcher::spans_in_order(spans, text.len() as int),
        replacements.len() == spans.len(),
    ensures
        is_rewritten(text, spans, replacements, spliced(text, spans, replacements)),
{
    let n = spans.len() as int;
    let out = spliced(text, spans, replacements);
    lemma_spliced_len(text, spans, replacements, n);
    assert forall|i: int| 0 <= i < spans.len() implies {
        let at = spans[i].0 + growth(spans, replacements, i);
        &&& 0 <= at <= at + (#[trigger] replacements[i]).len() <= out.len()
        &&& out.subrange(at, at + replacements[i].len()) == replacements[i]
    } by {
        lemma_spliced_place(text, spans, replacements, i);
    }
    assert forall|i: int, k: int|
        0 <= k < text.len() && #[trigger] matcher::is_between(spans, i, k) implies 0 <= k + growth(
        spans,
        replacements,
        i,
    ) < out.len() && out[k + growth(spans, replacements, i)] == text[k] by {
        if i < n {
            lemma_spliced_place(text, spans, replacements, i);
            assert(text[k] == out[k + growth(spans, replacements, i)]);
        } else {
            let end = end_before(spans, n);
            assert(out[k + growth(spans, replacements, i)] == text.skip(end)[k - end]);
        }
    }
}

/// Where a regular expression is asked for, each of its matches is replaced by the
/// replacement as it expands with the groups of that very match. The expression is
/// looked for as it stands, between word boundaries where whole words are asked for,
/// and with its repetitions lazy unless they are to be greedy.
pub proof fn law_each_match_has_its_own_expansion(flags: Flags, rule: Rule, text: Seq<char>)
    requires
        flags.regex,
        !flags.smart,
        ({
            let core = if flags.word_regexp {
                "\\b(?:"@ + rule.find + ")\\b"@
            } else {
                rule.find
            };
            let pattern = if flags.greedy {
                core
            } else {
                "(?U)"@ + core
            };
            let spans = matcher::match_spans(pattern, flags.ignore_case, text);
            &&& matcher::spans_in_order(spans, text.len() as int)
            &&& matcher::match_expansions(pattern, flags.ignore_case, text, rule.replace).len()
                == spans.len()
        }),
    ensures
        ({
            let core = if flags.word_regexp {
                "\\b(?:"@ + rule.find + ")\\b"@
            } else {
                rule.find
            };
            let pattern = if flags.greedy {
                core
            } else {
                "(?U)"@ + core
            };
            let spans = matcher::match_spans(pattern, flags.ignore_case, text);
            let expanded = matcher::match_expansions(
                pattern,
                flags.ignore_case,
                text,
                rule.replace,
            );
            let rewriter = rewriter_for(flags, rule);
            &&& rewriter.search.pattern == pattern
            &&& rewriter.search.ignore_case == flags.ignore_case
            &&& rewriter.search.spans(text) == spans
            &&& rewriter.replacements(text).len() == spans.len()
            &&& forall|i: int|
                0 <= i < spans.len() ==> #[trigger] rewriter.replacements(text)[i] == expanded[i]
            &&& is_rewritten(text, spans, expanded, rewriter.rewrite(text))
        }),
{
    let rewriter = rewriter_for(flags, rule);
    let spans = rewriter.search.spans(text);
    let expanded = rewriter.replacements(text);
    law_matches_are_replaced_in_place(text, spans, expanded);
}

/// Where plain text is asked for, what is looked for is the text itself, each
/// character for itself, between word boundaries where whole words are asked for, and
/// every match is replaced by the replacement as it stands.
pub proof fn law_every_match_is_replaced_alike(flags: Flags, rule: Rule, text: Seq<char>)
    requires
        !flags.regex,
        !flags.smart,
        matcher::spans_in_order(rewriter_for(flags, rule).search.spans(text), text.len() as int),
    ensures
        ({
            let rewriter = rewriter_for(flags, rule);
            let spans = rewriter.search.spans(text);
            let bounded = "\\b(?:"@ + matcher::escaped(rule.find) + ")\\b"@;
            &&& rewriter.search.ignore_case == flags.ignore_case
            &&& !flags.word_regexp ==> rewriter.search.pattern == matcher::escaped(rule.find)
            &&& flags.word_regexp ==> rewriter.search.pattern == bounded
            &&& flags.word_regexp ==> spans == matcher::match_spans(
                bounded,
                flags.ignore_case,
                text,
            )
            &&& !flags.word_regexp && (flags.ignore_case || rule.find.len() == 0) ==> spans
                == matcher::match_spans(
                matcher::escaped(rule.find),
                flags.ignore_case,
                text,
            )
            &&& is_rewritten(
                text,
                spans,
                Seq::new(spans.len(), |i: int| rule.replace),
                rewriter.rewrite(text),
            )
        }),
{
    let rewriter = rewriter_for(flags, rule);
    let spans = rewriter.search.spans(text);
    if is_plain(flags, rule.find) {
        lemma_single_word(rule.find);
    }
    assert(rewriter.replacements(text) =~= Seq::new(spans.len(), |i: int| rule.replace));
    law_matches_are_replaced_in_place(text, spans, rewriter.replacements(text));
}

/// Where the forms of a word are asked for, each match is the word, written in one of
/// its ways, and is replaced by the replacement written in that way; no match is
/// passed over.
#[verifier::rlimit(40)]
#[verifier::spinoff_prover]
pub proof fn law_each_form_becomes_its_counterpart(flags: Flags, rule: Rule, text: Seq<char>)
    requires
        flags.smart,
        variants::variant_pairs(rule.find, rule.replace).len() > 0,
    ensures
        ({
            let rewriter = rewriter_for(flags, rule);
            let spans = rewriter.search.spans(text);
            &&& matcher::spans_in_order(spans, text.len() as int)
            &&& rewriter.replacements(text).len() == spans.len()
            &&& is_rewritten(text, spans, rewriter.replacements(text), rewriter.rewrite(text))
            &&& forall|i: int|
                0 <= i < spans.len() ==> exists|way: int|
                    0 <= way < 14 && #[trigger] variants::written(way, rule.find) == text.subrange(
                        (#[trigger] spans[i]).0,
                        spans[i].1,
                    ) && rewriter.replacements(text)[i] == variants::written(way, rule.replace)
            &&& forall|i: int, k: int, way: int|
                #![trigger matcher::is_between(spans, i, k), variants::written(way, rule.find)]
                0 <= k < text.len() && matcher::is_between(spans, i, k) && 0 <= way < 14
                    && variants::written(way, rule.find).len() > 0 ==> !text::starts_with(
                    text.skip(k),
                    variants::written(way, rule.find),
                )
        }),
{
    let pairs = variants::variant_pairs(rule.find, rule.replace);
    let words = variants::longest_first(variants::keys_of(pairs));
    let rewriter = rewriter_for(flags, rule);
    let spans = rewriter.search.spans(text);
    matcher::law_found_words_are_words(text, words, 0);
    law_matches_are_replaced_in_place(text, spans, rewriter.replacements(text));
    assert forall|i: int| 0 <= i < spans.len() implies exists|way: int|
        0 <= way < 14 && #[trigger] variants::written(way, rule.find) == text.subrange(
            (#[trigger] spans[i]).0,
            spans[i].1,
        ) && rewriter.replacements(text)[i] == variants::written(way, rule.replace) by {
        let way = lemma_match_is_a_form(flags, rule, text, i);
        assert(variants::written(way, rule.find) == text.subrange(spans[i].0, spans[i].1));
    }
    assert forall|i: int, k: int, way: int|
        #![trigger matcher::is_between(spans, i, k), variants::written(way, rule.find)]
        0 <= k < text.len() && matcher::is_between(spans, i, k) && 0 <= way < 14
            && variants::written(way, rule.find).len() > 0 implies !text::starts_with(
        text.skip(k),
        variants::written(way, rule.find),
    ) by {
        lemma_no_form_between(flags, rule, text, i, k, way);
    }
}

proof fn lemma_match_is_a_form(flags: Flags, rule: Rule, text: Seq<char>, i: int) -> (way: int)
    requires
        flags.smart,
        variants::variant_pairs(rule.find, rule.replace).len() > 0,
        0 <= i < rewriter_for(flags, rule).search.spans(text).len(),
    ensures
        0 <= way < 14,
        variants::written(way, rule.find) == text.subrange(
            rewriter_for(flags, rule).search.spans(text)[i].0,
            rewriter_for(flags, rule).search.spans(text)[i].1,
        ),
        rewriter_for(flags, rule).replacements(text)[i] == variants::written(way, rule.replace),
{
    let pairs = variants::variant_pairs(rule.find, rule.replace);
    let keys = variants::keys_of(pairs);
    let words = variants::longest_first(keys);
    let rewriter = rewriter_for(flags, rule);
    let spans = rewriter.search.spans(text);
    let found = text.subrange(spans[i].0, spans[i].1);
    matcher::law_found_words_are_words(text, words, 0);
    variants::law_longest_first_sorts(keys);
    assert(words.contains(found));
    let m = choose|m: int| 0 <= m < keys.len() && keys[m] == found;
    assert(pairs[m].0 == found);
    assert(variants::has_key(pairs, found));
    variants::law_words_are_replaced_in_kind(rule.find, rule.replace);
    let any = choose|way: int| 0 <= way < 14 && #[trigger] variants::written(way, rule.find)
        == found;
    lemma_first_way(rule.find, any)
}

proof fn lemma_no_form_between(
    flags: Flags,
    rule: Rule,
    text: Seq<char>,
    i: int,
    k: int,
    way: int,
)
    requires
        flags.smart,
        variants::variant_pairs(rule.find, rule.replace).len() > 0,
        0 <= k < text.len(),
        matcher::is_between(rewriter_for(flags, rule).search.spans(text), i, k),
        0 <= way < 14,
        variants::written(way, rule.find).len() > 0,
    ensures
        !text::starts_with(text.skip(k), variants::written(way, rule.find)),
{
    let pairs = variants::variant_pairs(rule.find, rule.replace);
    let keys = variants::keys_of(pairs);
    let words = variants::longest_first(keys);
    let form = variants::written(way, rule.find);
    lemma_forms_are_words(rule.find, rule.replace);
    variants::law_words_are_replaced_in_kind(rule.find, rule.replace);
    let first = lemma_first_way(rule.find, way);
    assert(variants::has_key(pairs, variants::written(first, rule.find)));
    let m = choose|m: int| 0 <= m < pairs.len() && (#[trigger] pairs[m]).0 == form;
    assert(keys[m] == form);
    assert(keys.contains(form));
    variants::law_longest_first_sorts(keys);
    assert(words.contains(form));
    let j = choose|j: int| 0 <= j < words.len() && words[j] == form;
    matcher::law_no_word_is_passed_over(text, words, 0);
    assert(matcher::is_between(matcher::occurrences(text, words, 0), i, k));
    assert(!text::starts_with(text.skip(k), words[j]));
}

/// The first of the ways to write a word that comes to the same as the given one.
proof fn lemma_first_way(find: Seq<char>, way: int) -> (first: int)
    requires
        0 <= way < 14,
    ensures
        0 <= first <= way,
        variants::written(first, find) == variants::written(way, find),
        forall|j: int|
            0 <= j < first ==> #[trigger] variants::written(j, find) != variants::written(
                first,
                find,
            ),
    decreases way,
{
    if exists|j: int| 0 <= j < way && #[trigger] variants::written(j, find) == variants::written(
        way,
        find,
    ) {
        let j = choose|j: int|
            0 <= j < way && #[trigger] variants::written(j, find) == variants::written(way, find);
        lemma_first_way(find, j)
    } else {
        way
    }
}

/// Expressions are applied one after the other, each to what the one before it has
/// made of the text, and none is left out. The matches of all are counted.
pub proof fn law_expressions_are_applied_in_turn(
    rewriters: Seq<Rewriter>,
    stages: Seq<Seq<char>>,
)
    requires
        stages.len() == rewriters.len() + 1,
        forall|i: int|
            0 <= i < rewriters.len() ==> #[trigger] stages[i + 1] == rewriters[i].rewrite(
                stages[i],
            ),
    ensures
        rewritten(rewriters, stages[0]) == stages.last(),
        match_count(rewriters, stages[0]) == 0 <==> forall|i: int|
            0 <= i < rewriters.len() ==> (#[trigger] rewriters[i]).search.spans(stages[i]).len()
                == 0,
        rewriters.len() > 0 ==> match_count(rewriters, stages[0]) == match_count(
            rewriters.drop_last(),
            stages[0],
        ) + rewriters.last().search.spans(stages[stages.len() - 2]).len(),
    decreases rewriters.len(),
{
    if rewriters.len() > 0 {
        let head = rewriters.drop_last();
        let early = stages.drop_last();
        assert forall|i: int| 0 <= i < head.len() implies #[trigger] early[i + 1]
            == head[i].rewrite(early[i]) by {
            assert(stages[i + 1] == rewriters[i].rewrite(stages[i]));
        }
        law_expressions_are_applied_in_turn(head, early);
        let n = rewriters.len() as int;
        assert(stages[n - 1 + 1] == rewriters[n - 1].rewrite(stages[n - 1]));
        assert(early.last() == stages[n - 1]);
        if match_count(rewriters, stages[0]) == 0 {
            assert forall|i: int| 0 <= i < rewriters.len() implies (
            #[trigger] rewriters[i]).search.spans(stages[i]).len() == 0 by {
                if i < n - 1 {
                    assert(head[i].search.spans(early[i]).len() == 0);
                }
            }
        }
        if forall|i: int|
            0 <= i < rewriters.len() ==> (#[trigger] rewriters[i]).search.spans(stages[i]).len()
                == 0 {
            assert forall|i: int| 0 <= i < head.len() implies (
            #[trigger] head[i]).search.spans(early[i]).len() == 0 by {
                assert(rewriters[i].search.spans(stages[i]).len() == 0);
            }
            assert(rewriters[n - 1].search.spans(stages[n - 1]).len() == 0);
        }
    }
}

/// Rules are compiled in order, and the first that cannot be is what is wrong. One
/// rule alone is left out if it puts a plain text in its own place, and otherwise
/// becomes a rewriter if the regular expression for it can be built.
#[verifier::rlimit(40)]
#[verifier::spinoff_prover]
pub proof fn law_rules_are_compiled_in_order(
    flags: Flags,
    first: Seq<Rule>,
    second: Seq<Rule>,
    rule: Rule,
)
    ensures
        compiled(flags, Seq::empty()) == Ok::<Seq<Rewriter>, Defect>(Seq::empty()),
        compiled(flags, first) matches Err(d) ==> compiled(flags, first + second) == Err::<
            Seq<Rewriter>,
            Defect,
        >(d),
        compiled(flags, first) matches Ok(a) ==> match compiled(flags, second) {
            Ok(b) => compiled(flags, first + second) == Ok::<Seq<Rewriter>, Defect>(a + b),
            Err(d) => compiled(flags, first + second) == Err::<Seq<Rewriter>, Defect>(d),
        },
        !flags.regex && !flags.smart && rule.find == rule.replace ==> compiled(flags, seq![rule])
            == Ok::<Seq<Rewriter>, Defect>(Seq::empty()),
        flags.regex || flags.smart || rule.find != rule.replace ==> {
            let rewriter = rewriter_for(flags, rule);
            match matcher::built_regex(rewriter.search.pattern, rewriter.search.ignore_case) {
                Ok(_) => compiled(flags, seq![rule]) == Ok::<Seq<Rewriter>, Defect>(
                    seq![rewriter],
                ),
                Err(source) => compiled(flags, seq![rule]) == Err::<Seq<Rewriter>, Defect>(
                    if flags.smart {
                        Defect::InvalidSmartPattern { find: rule.find, source }
                    } else {
                        Defect::InvalidRegex { find: rule.find, source }
                    },
                ),
            }
        },
    decreases second.len(),
{
    assert(seq![rule].drop_last() =~= Seq::<Rule>::empty());
    assert(compiled(flags, Seq::empty()) == Ok::<Seq<Rewriter>, Defect>(Seq::empty()));
    assert(Seq::<Rewriter>::empty().push(rewriter_for(flags, rule)) =~= seq![
        rewriter_for(flags, rule),
    ]);
    if second.len() == 0 {
        assert(first + second =~= first);
        if let Ok(a) = compiled(flags, first) {
            assert(a + Seq::<Rewriter>::empty() =~= a);
        }
    } else {
        law_rules_are_compiled_in_order(flags, first, second.drop_last(), rule);
        assert((first + second).drop_last() =~= first + second.drop_last());
        assert((first + second).last() == second.last());
        if let Ok(a) = compiled(flags, first) {
            if let Ok(b) = compiled(flags, second.drop_last()) {
                let more = rewriter_for(flags, second.last());
                assert((a + b).push(more) =~= a + b.push(more));
            }
        }
    }
}

/// What is asked for: where only names are to be found, the first argument alone;
/// else the expressions, each taken apart at its first separator, and none left out;
/// else the two arguments. An expression without a separator is refused.
pub proof fn law_what_is_asked_for(opts: CompileOptions, s: Seq<char>)
    ensures
        !s.contains(EXPR_SEP) <==> parsed(s) is None,
        opts.list_files_find_only && opts.positional_find is Some ==> opts.asked() == Some(
            seq![Rule { find: opts.positional_find->0@, replace: Seq::empty() }],
        ),
        !opts.list_files_find_only && opts.expressions@.len() == 0 && opts.positional_find is Some
            && opts.positional_replace is Some ==> opts.asked() == Some(
            seq![
                Rule {
                    find: opts.positional_find->0@,
                    replace: opts.positional_replace->0@,
                },
            ],
        ),
        !opts.list_files_find_only && opts.expressions@.len() > 0 ==> {
            &&& opts.asked() is None <==> exists|i: int|
                0 <= i < opts.expressions@.len() && !(#[trigger] opts.expressions@[i])@.contains(
                    EXPR_SEP,
                )
            &&& opts.asked() matches Some(rules) ==> rules.len() == opts.expressions@.len()
                && forall|i: int|
                0 <= i < rules.len() ==> Some(#[trigger] rules[i]) == parsed(
                    opts.expressions@[i]@,
                )
        },
{
    lemma_parsed_or_not(s);
    if !opts.list_files_find_only && opts.expressions@.len() > 0 {
        let all = text::views(opts.expressions@);
        lemma_all_parsed(all);
        if opts.asked() is None {
            let i = choose|i: int| 0 <= i < all.len() && parsed(#[trigger] all[i]) is None;
            lemma_parsed_or_not(all[i]);
            assert(!opts.expressions@[i]@.contains(EXPR_SEP));
        }
        if exists|i: int|
            0 <= i < opts.expressions@.len() && !(#[trigger] opts.expressions@[i])@.contains(
                EXPR_SEP,
            ) {
            let i = choose|i: int|
                0 <= i < opts.expressions@.len() && !(#[trigger] opts.expressions@[i])@.contains(
                    EXPR_SEP,
                );
            lemma_parsed_or_not(all[i]);
            assert(all[i] == opts.expressions@[i]@);
        }
        if let Some(rules) = opts.asked() {
            assert forall|i: int| 0 <= i < rules.len() implies Some(#[trigger] rules[i]) == parsed(
                opts.expressions@[i]@,
            ) by {
                assert(all[i] == opts.expressions@[i]@);
            }
        }
    }
}

proof fn lemma_parsed_or_not(s: Seq<char>)
    ensures
        !s.contains(EXPR_SEP) <==> parsed(s) is None,
{
    lemma_first_at_exists(s, EXPR_SEP);
}

proof fn lemma_first_at_exists(s: Seq<char>, c: char)
    ensures
        0 <= first_at(s, c) <= s.len(),
        s.contains(c) <==> first_at(s, c) < s.len(),
    decreases s.len(),
{
    if s.len() > 0 && s[0] != c {
        lemma_first_at_exists(s.skip(1), c);
        if s.contains(c) {
            let i = choose|i: int| 0 <= i < s.len() && s[i] == c;
            assert(s.skip(1)[i - 1] == c);
        }
        if s.skip(1).contains(c) {
            let i = choose|i: int| 0 <= i < s.skip(1).len() && s.skip(1)[i] == c;
            assert(s[i + 1] == c);
        }
    } else if s.len() > 0 {
        assert(s.contains(s[0]));
    }
}

proof fn lemma_all_parsed(expressions: Seq<Seq<char>>)
    ensures
        all_parsed(expressions) is None <==> exists|i: int|
            0 <= i < expressions.len() && parsed(#[trigger] expressions[i]) is None,
        all_parsed(expressions) matches Some(rules) ==> rules.len() == expressions.len()
            && forall|i: int|
            0 <= i < rules.len() ==> Some(#[trigger] rules[i]) == parsed(expressions[i]),
    decreases expressions.len(),
{
    if expressions.len() > 0 {
        let head = expressions.drop_last();
        lemma_all_parsed(head);
        if all_parsed(head) is None {
            let i = choose|i: int| 0 <= i < head.len() && parsed(#[trigger] head[i]) is None;
            assert(parsed(expressions[i]) is None);
        } else {
            assert(expressions[expressions.len() - 1] == expressions.last());
            if exists|i: int|
                0 <= i < expressions.len() && parsed(#[trigger] expressions[i]) is None {
                let i = choose|i: int|
                    0 <= i < expressions.len() && parsed(#[trigger] expressions[i]) is None;
                if i < head.len() {
                    assert(parsed(head[i]) is None);
                }
            }
            if let Some(rules) = all_parsed(expressions) {
                let before = all_parsed(head)->0;
                assert forall|i: int| 0 <= i < rules.len() implies Some(#[trigger] rules[i])
                    == parsed(expressions[i]) by {
                    if i < head.len() {
                        assert(rules[i] == before[i]);
                        assert(head[i] == expressions[i]);
                    }
                }
            }
        }
    }
}

/// What is missing among the two arguments is empty, and without either nothing is
/// asked for.
pub proof fn law_missing_arguments_are_empty(opts: CompileOptions)
    ensures
        opts.list_files_find_only && opts.positional_find is None ==> opts.asked() == Some(
            seq![Rule { find: Seq::empty(), replace: Seq::empty() }],
        ),
        !opts.list_files_find_only && opts.expressions@.len() == 0 ==> {
            &&& opts.positional_find is None && opts.positional_replace is None ==> opts.asked()
                == Some(Seq::<Rule>::empty())
            &&& opts.positional_find is Some && opts.positional_replace is None ==> opts.asked()
                == Some(
                seq![Rule { find: opts.positional_find->0@, replace: Seq::empty() }],
            )
            &&& opts.positional_find is None && opts.positional_replace is Some ==> opts.asked()
                == Some(
                seq![Rule { find: Seq::empty(), replace: opts.positional_replace->0@ }],
            )
        },
{
}

/// An expression can be applied unless it looks for the forms of a word that has none.
pub proof fn law_expressions_can_be_applied(flags: Flags, rule: Rule)
    ensures
        !flags.smart ==> rewriter_for(flags, rule).applicable(),
        flags.smart ==> (rewriter_for(flags, rule).applicable() <==> exists|way: int|
            0 <= way < 14 && (#[trigger] variants::written(way, rule.find)).len() > 0),
{
    if flags.smart {
        let pairs = variants::variant_pairs(rule.find, rule.replace);
        variants::law_words_are_replaced_in_kind(rule.find, rule.replace);
        if pairs.len() > 0 {
            let key = pairs[0].0;
            assert(variants::has_key(pairs, key));
            let way = choose|way: int| 0 <= way < 14 && #[trigger] variants::written(
                way,
                rule.find,
            ) == key;
            assert(variants::written(way, rule.find).len() > 0);
        }
        if exists|way: int|
            0 <= way < 14 && (#[trigger] variants::written(way, rule.find)).len() > 0 {
            let any = choose|way: int|
                0 <= way < 14 && (#[trigger] variants::written(way, rule.find)).len() > 0;
            let way = lemma_first_way(rule.find, any);
            assert(variants::has_key(pairs, variants::written(way, rule.find)));
        }
    }
}

/// What is wrong with an expression is said, with what it was to find.
pub proof fn law_defects_are_told(find: Seq<char>, source: regex::Error)
    ensures
        Defect::MissingSeparator.message()
            == "Invalid expression: expected `-e <find> <replace>`"@,
        (Defect::InvalidRegex { find, source }).message() == "Invalid regex: "@ + find,
        (Defect::InvalidSmartPattern { find, source }).message() == "Invalid smart pattern: "@
            + find,
{
}

/// Matches are counted as far as numbers go.
pub proof fn law_counts_stop_at_the_largest_number(n: nat)
    ensures
        n <= usize::MAX ==> saturated(n) == n,
        n > usize::MAX ==> saturated(n) == usize::MAX,
{
}

/// The switches are those of the options.
pub proof fn law_switches_are_as_given(opts: CompileOptions)
    ensures
        opts.flags().regex == opts.regex,
        opts.flags().ignore_case == opts.ignore_case,
        opts.flags().greedy == opts.greedy,
        opts.flags().word_regexp == opts.word_regexp,
        opts.flags().smart == opts.smart,
{
}

/// The halves of an expression are joined by what no argument can hold.
pub proof fn law_halves_are_joined_by_nul()
    ensures
        EXPR_SEP == '\0',
        EXPR_SEP as u32 == 0,
{
}

} // verus!
