//! The ways in which a compound word is written, so that one expression can
//! replace a word in each of them and keep the way it was written in.

use vstd::prelude::*;
use vstd::utf8::*;
use crate::matcher;
use crate::text;

verus! {

// ---- what the inflector crate computes -------------------------------------------

/// What `inflector::cases::camelcase::to_camel_case` makes of a text.
pub uninterp spec fn camel_cased(s: Seq<char>) -> Seq<char>;

/// What `inflector::cases::kebabcase::to_kebab_case` makes of a text.
pub uninterp spec fn kebab_cased(s: Seq<char>) -> Seq<char>;

/// What `inflector::cases::pascalcase::to_pascal_case` makes of a text.
pub uninterp spec fn pascal_cased(s: Seq<char>) -> Seq<char>;

/// What `inflector::cases::screamingsnakecase::to_screaming_snake_case` makes
/// of a text.
pub uninterp spec fn screaming_snake_cased(s: Seq<char>) -> Seq<char>;

/// What `inflector::cases::snakecase::to_snake_case` makes of a text.
pub uninterp spec fn snake_cased(s: Seq<char>) -> Seq<char>;

/// What `inflector::cases::traincase::to_train_case` makes of a text.
pub uninterp spec fn train_cased(s: Seq<char>) -> Seq<char>;

/// Calls `to_camel_case`, whose result depends on the text alone: `fooBar`.
#[verifier::external_body]
fn camel_case(s: &str) -> (out: String)
    ensures
        out@ == camel_cased(s@),
{
    inflector::cases::camelcase::to_camel_case(s)
}

/// Calls `to_kebab_case`, whose result depends on the text alone: `foo-bar`.
#[verifier::external_body]
fn kebab_case(s: &str) -> (out: String)
    ensures
        out@ == kebab_cased(s@),
{
    inflector::cases::kebabcase::to_kebab_case(s)
}

/// Calls `to_pascal_case`, whose result depends on the text alone: `FooBar`.
#[verifier::external_body]
fn pascal_case(s: &str) -> (out: String)
    ensures
        out@ == pascal_cased(s@),
{
    inflector::cases::pascalcase::to_pascal_case(s)
}

/// Calls `to_screaming_snake_case`, whose result depends on the text alone:
/// `FOO_BAR`.
#[verifier::external_body]
fn screaming_snake_case(s: &str) -> (out: String)
    ensures
        out@ == screaming_snake_cased(s@),
{
    inflector::cases::screamingsnakecase::to_screaming_snake_case(s)
}

/// Calls `to_snake_case`, whose result depends on the text alone: `foo_bar`.
#[verifier::external_body]
fn snake_case(s: &str) -> (out: String)
    ensures
        out@ == snake_cased(s@),
{
    inflector::cases::snakecase::to_snake_case(s)
}

/// Calls `to_train_case`, whose result depends on the text alone: `Foo-Bar`.
#[verifier::external_body]
fn train_case(s: &str) -> (out: String)
    ensures
        out@ == train_cased(s@),
{
    inflector::cases::traincase::to_train_case(s)
}

// ---- the forms of a word ---------------------------------------------------------

/// `s` with a space for each underscore and each hyphen.
pub open spec fn spaced(s: Seq<char>) -> Seq<char> {
    s.map_values(
        |c: char|
            if c == '_' || c == '-' {
                ' '
            } else {
                c
            },
    )
}

/// The seven forms of a word: ada, camel, kebab, pascal, screaming snake, snake
/// and train case.
pub open spec fn case_forms(s: Seq<char>) -> Seq<Seq<char>> {
    seq![
        text::replaced(train_cased(s), '-', "_"@),
        camel_cased(s),
        kebab_cased(s),
        pascal_cased(s),
        screaming_snake_cased(s),
        snake_cased(s),
        train_cased(s),
    ]
}

/// The forms of a word as it stands, and then of the word with spaces for its
/// separators.
pub open spec fn all_forms(s: Seq<char>) -> Seq<Seq<char>> {
    case_forms(s) + case_forms(spaced(s))
}

/// Whether one of the pairs has the given key.
pub open spec fn has_key(pairs: Seq<(Seq<char>, Seq<char>)>, key: Seq<char>) -> bool {
    exists|i: int| 0 <= i < pairs.len() && (#[trigger] pairs[i]).0 == key
}

/// The forms of one word with those of another: each form of the first once,
/// with the form of the second that is at its place, and no empty form.
pub open spec fn paired(froms: Seq<Seq<char>>, tos: Seq<Seq<char>>) -> Seq<(Seq<char>, Seq<char>)>
    decreases froms.len(),
{
    if froms.len() == 0 {
        Seq::empty()
    } else {
        let before = paired(froms.drop_last(), tos);
        if froms.last().len() > 0 && !has_key(before, froms.last()) {
            before.push((froms.last(), tos[froms.len() - 1]))
        } else {
            before
        }
    }
}

/// What each form of `pattern` is to be replaced by.
pub open spec fn variant_pairs(pattern: Seq<char>, replacement: Seq<char>) -> Seq<
    (Seq<char>, Seq<char>),
> {
    paired(all_forms(pattern), all_forms(replacement))
}

/// The first halves of the pairs.
pub open spec fn keys_of(pairs: Seq<(Seq<char>, Seq<char>)>) -> Seq<Seq<char>> {
    pairs.map_values(|p: (Seq<char>, Seq<char>)| p.0)
}

/// The number of bytes of the pattern that matches the text itself.
pub open spec fn weight(t: Seq<char>) -> nat {
    encode_utf8(matcher::escaped(t)).len()
}

/// The texts, which are in order of falling weight, with one more put in behind
/// those that are as heavy.
pub open spec fn placed(texts: Seq<Seq<char>>, t: Seq<char>) -> Seq<Seq<char>>
    decreases texts.len(),
{
    if texts.len() == 0 || weight(texts.last()) >= weight(t) {
        texts.push(t)
    } else {
        placed(texts.drop_last(), t).push(texts.last())
    }
}

/// The texts in order of falling weight, those of one weight in the order they
/// were in.
pub open spec fn longest_first(texts: Seq<Seq<char>>) -> Seq<Seq<char>>
    decreases texts.len(),
{
    if texts.len() == 0 {
        Seq::empty()
    } else {
        placed(longest_first(texts.drop_last()), texts.last())
    }
}

/// A pattern for all the given texts, the longest of which is tried first.
pub open spec fn variant_pattern(texts: Seq<Seq<char>>) -> Seq<char> {
    matcher::alternation(longest_first(texts))
}

// ---- laws ------------------------------------------------------------------------

/// Putting a text in keeps all that is there, adds the text and nothing else,
/// and keeps the order.
proof fn lemma_placed(texts: Seq<Seq<char>>, t: Seq<char>)
    requires
        forall|i: int, j: int|
            0 <= i < j < texts.len() ==> weight(#[trigger] texts[i]) >= weight(#[trigger] texts[j]),
    ensures
        placed(texts, t).len() == texts.len() + 1,
        forall|x: Seq<char>| #[trigger]
            placed(texts, t).contains(x) <==> texts.contains(x) || x == t,
        forall|i: int, j: int|
            0 <= i < j < texts.len() + 1 ==> weight(#[trigger] placed(texts, t)[i]) >= weight(
                #[trigger] placed(texts, t)[j],
            ),
    decreases texts.len(),
{
    let out = placed(texts, t);
    if texts.len() == 0 || weight(texts.last()) >= weight(t) {
        assert forall|x: Seq<char>| #[trigger] out.contains(x) <==> texts.contains(x) || x
            == t by {
            vstd::seq_lib::lemma_seq_contains_after_push(texts, t, x);
        }
    } else {
        let head = texts.drop_last();
        lemma_placed(head, t);
        assert(texts == head.push(texts.last()));
        assert forall|x: Seq<char>| #[trigger] out.contains(x) <==> texts.contains(x) || x
            == t by {
            vstd::seq_lib::lemma_seq_contains_after_push(placed(head, t), texts.last(), x);
            vstd::seq_lib::lemma_seq_contains_after_push(head, texts.last(), x);
        }
        assert forall|i: int, j: int| 0 <= i < j < texts.len() + 1 implies weight(
            #[trigger] out[i],
        ) >= weight(#[trigger] out[j]) by {
            if j == texts.len() {
                assert(placed(head, t).contains(out[i]));
                if out[i] != t {
                    assert(head.contains(out[i]));
                }
            }
        }
    }
}

/// Sorting texts by weight keeps each of them, adds none, and leaves no text
/// behind a lighter one.
pub proof fn law_longest_first_sorts(texts: Seq<Seq<char>>)
    ensures
        longest_first(texts).len() == texts.len(),
        forall|x: Seq<char>| #[trigger]
            longest_first(texts).contains(x) <==> texts.contains(x),
        forall|i: int, j: int|
            0 <= i < j < texts.len() ==> weight(#[trigger] longest_first(texts)[i]) >= weight(
                #[trigger] longest_first(texts)[j],
            ),
    decreases texts.len(),
{
    if texts.len() > 0 {
        let head = texts.drop_last();
        law_longest_first_sorts(head);
        lemma_placed(longest_first(head), texts.last());
        assert(texts == head.push(texts.last()));
        assert forall|x: Seq<char>| #[trigger]
            longest_first(texts).contains(x) <==> texts.contains(x) by {
            vstd::seq_lib::lemma_seq_contains_after_push(head, texts.last(), x);
            assert(longest_first(head).contains(x) <==> head.contains(x));
        }
    }
}

/// The pairs have distinct keys, none of which is empty, and every form that is
/// not empty is the key of one.
pub proof fn law_pairs_are_a_map(froms: Seq<Seq<char>>, tos: Seq<Seq<char>>)
    ensures
        paired(froms, tos).len() <= froms.len(),
        forall|i: int|
            0 <= i < paired(froms, tos).len() ==> (#[trigger] paired(froms, tos)[i]).0.len() > 0,
        forall|i: int, j: int|
            0 <= i < j < paired(froms, tos).len() ==> (#[trigger] paired(froms, tos)[i]).0 != (
            #[trigger] paired(froms, tos)[j]).0,
        forall|k: int|
            0 <= k < froms.len() && (#[trigger] froms[k]).len() > 0 ==> has_key(
                paired(froms, tos),
                froms[k],
            ),
    decreases froms.len(),
{
    if froms.len() > 0 {
        let head = froms.drop_last();
        let before = paired(head, tos);
        let all = paired(froms, tos);
        law_pairs_are_a_map(head, tos);
        assert forall|k: int| 0 <= k < froms.len() && (#[trigger] froms[k]).len()
            > 0 implies has_key(all, froms[k]) by {
            if k < head.len() {
                assert(head[k] == froms[k]);
            }
            if has_key(before, froms[k]) {
                let i = choose|i: int| 0 <= i < before.len() && (#[trigger] before[i]).0 == froms[k];
                assert(all[i].0 == froms[k]);
            } else {
                assert(all[all.len() - 1].0 == froms[k]);
            }
        }
    }
}

// ---- computing them --------------------------------------------------------------

/// The text with a space for each underscore and each hyphen.
fn normalize_separators(input: &str) -> (out: String)
    ensures
        out@ == spaced(input@),
{
    let chars = text::chars_of(input);
    let mut out = String::new();
    for i in 0..chars.len()
        invariant
            chars@ == input@,
            out@ == spaced(input@).take(i as int),
    {
        let c = chars[i];
        out.push(
            if c == '_' || c == '-' {
                ' '
            } else {
                c
            },
        );
    }
    out
}

/// The text in ada case: `Foo_Bar`.
fn to_ada_case(input: &str) -> (out: String)
    ensures
        out@ == text::replaced(train_cased(input@), '-', "_"@),
{
    let train = train_case(input);
    text::replace_char(train.as_str(), '-', "_")
}

fn push_case_forms(input: &str, forms: &mut Vec<String>)
    ensures
        text::views(final(forms)@) == text::views(old(forms)@) + case_forms(input@),
{
    let ghost before = forms@;
    forms.push(to_ada_case(input));
    forms.push(camel_case(input));
    forms.push(kebab_case(input));
    forms.push(pascal_case(input));
    forms.push(screaming_snake_case(input));
    forms.push(snake_case(input));
    forms.push(train_case(input));
    assert(text::views(forms@) == text::views(before) + case_forms(input@));
}

fn forms_of(input: &str) -> (forms: Vec<String>)
    ensures
        text::views(forms@) == all_forms(input@),
{
    let mut forms: Vec<String> = Vec::new();
    push_case_forms(input, &mut forms);
    let normalized = normalize_separators(input);
    push_case_forms(normalized.as_str(), &mut forms);
    assert(text::views(forms@) == all_forms(input@));
    forms
}

/// What each form of a word is to be replaced by.
pub struct VariantMap {
    keys: Vec<String>,
    values: Vec<String>,
}

impl View for VariantMap {
    type V = Seq<(Seq<char>, Seq<char>)>;

    closed spec fn view(&self) -> Seq<(Seq<char>, Seq<char>)> {
        Seq::new(self.keys@.len(), |i: int| (self.keys@[i]@, self.values@[i]@))
    }
}

impl VariantMap {
    #[verifier::type_invariant]
    spec fn matched(self) -> bool {
        self.keys@.len() == self.values@.len()
    }

    /// How many forms there are.
    pub fn len(&self) -> (n: usize)
        ensures
            n == self@.len(),
    {
        self.keys.len()
    }

    /// Whether there are none.
    pub fn is_empty(&self) -> (empty: bool)
        ensures
            empty == (self@.len() == 0),
    {
        self.keys.len() == 0
    }

    /// What a form is to be replaced by: the value of the first pair that has it
    /// as its key.
    pub fn get(&self, key: &str) -> (value: Option<&String>)
        ensures
            value is Some <==> has_key(self@, key@),
            value matches Some(v) ==> looked_up(self@, key@) == v@,
    {
        proof {
            use_type_invariant(self);
            assert(self@.skip(0) == self@);
        }
        for i in 0..self.keys.len()
            invariant
                self.keys@.len() == self.values@.len(),
                forall|j: int| 0 <= j < i ==> (#[trigger] self@[j]).0 != key@,
                looked_up(self@.skip(i as int), key@) == looked_up(self@, key@),
        {
            assert(self@.skip(i as int)[0] == self@[i as int]);
            assert(self@.skip(i as int).skip(1) == self@.skip(i + 1));
            if text::same_text(self.keys[i].as_str(), key) {
                assert(self@[i as int].0 == key@);
                return Some(&self.values[i]);
            }
        }
        None
    }
}

/// The value of the first pair that has the given key.
pub open spec fn looked_up(pairs: Seq<(Seq<char>, Seq<char>)>, key: Seq<char>) -> Seq<char>
    decreases pairs.len(),
{
    if pairs.len() == 0 {
        Seq::empty()
    } else if pairs[0].0 == key {
        pairs[0].1
    } else {
        looked_up(pairs.skip(1), key)
    }
}

/// Pairs each form of one word with the form of another that is at its place: each
/// form of the first once, and no empty form.
pub fn pair_up(froms: &Vec<String>, tos: &Vec<String>) -> (map: VariantMap)
    requires
        froms@.len() == tos@.len(),
    ensures
        map@ == paired(text::views(froms@), text::views(tos@)),
{
    let mut keys: Vec<String> = Vec::new();
    let mut values: Vec<String> = Vec::new();
    let ghost from_views = text::views(froms@);
    let ghost to_views = text::views(tos@);
    for i in 0..froms.len()
        invariant
            froms@.len() == tos@.len(),
            from_views == text::views(froms@),
            to_views == text::views(tos@),
            keys@.len() == values@.len(),
            Seq::new(keys@.len(), |i: int| (keys@[i]@, values@[i]@)) == paired(
                from_views.take(i as int),
                to_views,
            ),
    {
        let ghost before = paired(from_views.take(i as int), to_views);
        let from = &froms[i];
        assert(from_views.take(i + 1).drop_last() == from_views.take(i as int));
        assert(from_views.take(i + 1).last() == from@);
        let mut known = false;
        for j in 0..keys.len()
            invariant
                from == &froms@[i as int],
                keys@.len() == values@.len(),
                before == Seq::new(keys@.len(), |i: int| (keys@[i]@, values@[i]@)),
                known <==> exists|k: int| 0 <= k < j && (#[trigger] before[k]).0 == from@,
        {
            assert(before[j as int].0 == keys@[j as int]@);
            if text::same_text(keys[j].as_str(), from.as_str()) {
                known = true;
            }
        }
        let chars = text::chars_of(from.as_str());
        if chars.len() > 0 && !known {
            let ghost old_keys = keys@;
            let ghost old_values = values@;
            keys.push(from.clone());
            values.push(tos[i].clone());
            assert(Seq::new(keys@.len(), |i: int| (keys@[i]@, values@[i]@)) == before.push(
                (from@, to_views[i as int]),
            ));
        }
    }
    assert(from_views.take(froms@.len() as int) == from_views);
    VariantMap { keys, values }
}

/// Whether `a` is lighter than `b`.
fn lighter(a: &str, b: &str) -> (less: bool)
    ensures
        less == (weight(a@) < weight(b@)),
{
    let left = matcher::escape(a);
    let right = matcher::escape(b);
    left.as_str().as_bytes().len() < right.as_str().as_bytes().len()
}

proof fn lemma_placed_at(texts: Seq<Seq<char>>, t: Seq<char>, at: int)
    requires
        0 <= at <= texts.len(),
        forall|k: int| at <= k < texts.len() ==> weight(#[trigger] texts[k]) < weight(t),
        at > 0 ==> weight(texts[at - 1]) >= weight(t),
    ensures
        placed(texts, t) == texts.insert(at, t),
    decreases texts.len(),
{
    if at == texts.len() {
        assert(texts.insert(at, t) == texts.push(t));
    } else {
        lemma_placed_at(texts.drop_last(), t, at);
        assert(texts.drop_last().insert(at, t).push(texts.last()) == texts.insert(at, t));
    }
}

/// The strings in order of falling weight.
fn sort_longest_first(texts: &Vec<String>) -> (sorted: Vec<String>)
    ensures
        text::views(sorted@) == longest_first(text::views(texts@)),
{
    let mut sorted: Vec<String> = Vec::new();
    let ghost all = text::views(texts@);
    for i in 0..texts.len()
        invariant
            all == text::views(texts@),
            sorted@.len() == i,
            text::views(sorted@) == longest_first(all.take(i as int)),
    {
        let ghost before = text::views(sorted@);
        let ghost t = texts@[i as int]@;
        let mut at: usize = sorted.len();
        while at > 0 && lighter(sorted[at - 1].as_str(), texts[i].as_str())
            invariant
                i < texts.len(),
                t == texts@[i as int]@,
                at <= sorted.len(),
                before == text::views(sorted@),
                forall|k: int| at <= k < before.len() ==> weight(#[trigger] before[k]) < weight(t),
            decreases at,
        {
            at = at - 1;
        }
        assert(all.take(i + 1).drop_last() == all.take(i as int));
        proof {
            lemma_placed_at(before, t, at as int);
        }
        sorted.insert(at, texts[i].clone());
        assert(text::views(sorted@) == before.insert(at as int, t));
    }
    assert(all.take(texts@.len() as int) == all);
    sorted
}

/// What each form of `pattern` is to be replaced by, and a regular expression
/// that finds these forms, the longest first.
pub fn build_case_variants(pattern: &str, replacement: &str) -> (out: (VariantMap, String))
    ensures
        out.0@ == variant_pairs(pattern@, replacement@),
        out.1@ == variant_pattern(keys_of(out.0@)),
{
    let froms = forms_of(pattern);
    let tos = forms_of(replacement);
    proof {
        assert(text::views(froms@).len() == froms@.len());
        assert(text::views(tos@).len() == tos@.len());
    }
    let map = pair_up(&froms, &tos);
    proof {
        use_type_invariant(&map);
    }
    let sorted = sort_longest_first(&map.keys);
    assert(text::views(map.keys@) == keys_of(map@));
    let mut parts: Vec<String> = Vec::new();
    for i in 0..sorted.len()
        invariant
            text::views(parts@) == text::views(sorted@).map_values(
                |t: Seq<char>| matcher::escaped(t),
            ).take(i as int),
    {
        let ghost before = parts@;
        parts.push(matcher::escape(sorted[i].as_str()));
        assert(text::views(parts@) == text::views(before).push(
            matcher::escaped(sorted@[i as int]@),
        ));
    }
    assert(text::views(parts@) == text::views(sorted@).map_values(
        |t: Seq<char>| matcher::escaped(t),
    ));
    let joined = text::join_strings(&parts, "|");
    (map, joined)
}

// ---- laws on whole words -----------------------------------------------------------

/// How `s` is written in one of fourteen ways: in ada, camel, kebab, pascal, screaming
/// snake, snake or train case, and then in the same with spaces for its underscores
/// and hyphens.
pub open spec fn written(way: int, s: Seq<char>) -> Seq<char> {
    let t = if way < 7 {
        s
    } else {
        Seq::new(
            s.len(),
            |i: int|
                if s[i] == '_' || s[i] == '-' {
                    ' '
                } else {
                    s[i]
                },
        )
    };
    let case = if way < 7 {
        way
    } else {
        way - 7
    };
    if case == 0 {
        text::replaced(train_cased(t), '-', seq!['_'])
    } else if case == 1 {
        camel_cased(t)
    } else if case == 2 {
        kebab_cased(t)
    } else if case == 3 {
        pascal_cased(t)
    } else if case == 4 {
        screaming_snake_cased(t)
    } else if case == 5 {
        snake_cased(t)
    } else {
        train_cased(t)
    }
}

proof fn lemma_forms_written(s: Seq<char>)
    ensures
        all_forms(s).len() == 14,
        forall|k: int| 0 <= k < 14 ==> #[trigger] all_forms(s)[k] == written(k, s),
{
    reveal_strlit("_");
    assert("_"@ =~= seq!['_']);
    let t = Seq::new(
        s.len(),
        |i: int|
            if s[i] == '_' || s[i] == '-' {
                ' '
            } else {
                s[i]
            },
    );
    assert(spaced(s) =~= t);
    let forms = all_forms(s);
    assert forall|k: int| 0 <= k < 14 implies #[trigger] forms[k] == written(k, s) by {
        if k < 7 {
            assert(forms[k] == case_forms(s)[k]);
        } else {
            assert(forms[k] == case_forms(spaced(s))[k - 7]);
        }
    }
}

proof fn lemma_lookup_push(
    pairs: Seq<(Seq<char>, Seq<char>)>,
    more: (Seq<char>, Seq<char>),
    key: Seq<char>,
)
    ensures
        has_key(pairs, key) ==> looked_up(pairs.push(more), key) == looked_up(pairs, key),
        !has_key(pairs, key) && more.0 == key ==> looked_up(pairs.push(more), key) == more.1,
    decreases pairs.len(),
{
    let all = pairs.push(more);
    if pairs.len() == 0 {
        assert(all[0] == more);
    } else {
        assert(all[0] == pairs[0]);
        if pairs[0].0 != key {
            assert(all.skip(1) =~= pairs.skip(1).push(more));
            lemma_lookup_push(pairs.skip(1), more, key);
            if has_key(pairs, key) {
                let i = choose|i: int| 0 <= i < pairs.len() && (#[trigger] pairs[i]).0 == key;
                assert(pairs.skip(1)[i - 1].0 == key);
            }
            if has_key(pairs.skip(1), key) {
                let i = choose|i: int|
                    0 <= i < pairs.skip(1).len() && (#[trigger] pairs.skip(1)[i]).0 == key;
                assert(pairs[i + 1].0 == key);
            }
        }
    }
}

/// What is looked up is the value of the first pair with the key.
pub proof fn law_the_first_pair_counts(pairs: Seq<(Seq<char>, Seq<char>)>, i: int)
    requires
        0 <= i < pairs.len(),
        forall|j: int| 0 <= j < i ==> (#[trigger] pairs[j]).0 != pairs[i].0,
    ensures
        has_key(pairs, pairs[i].0),
        looked_up(pairs, pairs[i].0) == pairs[i].1,
    decreases pairs.len(),
{
    if i > 0 {
        let rest = pairs.skip(1);
        assert(pairs[0].0 != pairs[i].0);
        assert forall|j: int| 0 <= j < i - 1 implies (#[trigger] rest[j]).0 != rest[i - 1].0 by {
            assert(pairs[j + 1].0 != pairs[i].0);
        }
        law_the_first_pair_counts(rest, i - 1);
    }
}

/// Each text that is not empty is paired with the text at its own place, unless it
/// stands at an earlier place already, and nothing else is paired.
#[verifier::rlimit(40)]
#[verifier::spinoff_prover]
pub proof fn law_texts_are_paired_by_place(froms: Seq<Seq<char>>, tos: Seq<Seq<char>>)
    ensures
        forall|k: int|
            0 <= k < froms.len() && (#[trigger] froms[k]).len() > 0 && (forall|j: int|
                0 <= j < k ==> #[trigger] froms[j] != froms[k]) ==> has_key(
                paired(froms, tos),
                froms[k],
            ) && looked_up(paired(froms, tos), froms[k]) == tos[k],
        forall|key: Seq<char>| #[trigger]
            has_key(paired(froms, tos), key) ==> key.len() > 0 && froms.contains(key),
    decreases froms.len(),
{
    if froms.len() > 0 {
        let head = froms.drop_last();
        let before = paired(head, tos);
        let all = paired(froms, tos);
        law_texts_are_paired_by_place(head, tos);
        assert forall|key: Seq<char>| #[trigger] has_key(all, key) implies key.len() > 0
            && froms.contains(key) by {
            let i = choose|i: int| 0 <= i < all.len() && (#[trigger] all[i]).0 == key;
            if i < before.len() {
                assert(before[i].0 == key);
                assert(has_key(before, key));
                let k = choose|k: int| 0 <= k < head.len() && head[k] == key;
                assert(froms[k] == key);
            } else {
                assert(froms[froms.len() - 1] == key);
            }
        }
        assert forall|k: int|
            0 <= k < froms.len() && (#[trigger] froms[k]).len() > 0 && (forall|j: int|
                0 <= j < k ==> #[trigger] froms[j] != froms[k]) implies has_key(all, froms[k])
            && looked_up(all, froms[k]) == tos[k] by {
            let last = (froms.last(), tos[froms.len() - 1]);
            lemma_lookup_push(before, last, froms[k]);
            if k < head.len() {
                assert(head[k] == froms[k]);
                assert forall|j: int| 0 <= j < k implies #[trigger] head[j] != head[k] by {
                    assert(froms[j] != froms[k]);
                }
                assert(has_key(before, froms[k]));
                let i = choose|i: int| 0 <= i < before.len() && (#[trigger] before[i]).0 == froms[k];
                assert(all[i].0 == froms[k]);
            } else {
                if has_key(before, froms[k]) {
                    let j = choose|j: int| 0 <= j < head.len() && head[j] == froms[k];
                    assert(froms[j] != froms[k]);
                }
                assert(all[all.len() - 1].0 == froms[k]);
            }
        }
    }
}

/// A word is replaced in kind: in whichever way it is written, what is looked up for
/// it is the replacement written in that way, however the two were typed. If two ways
/// come to the same text, the first of them counts. Nothing but the ways to write the
/// word is looked for.
#[verifier::rlimit(40)]
#[verifier::spinoff_prover]
pub proof fn law_words_are_replaced_in_kind(find: Seq<char>, replace: Seq<char>)
    ensures
        forall|way: int|
            0 <= way < 14 && (#[trigger] written(way, find)).len() > 0 && (forall|j: int|
                0 <= j < way ==> #[trigger] written(j, find) != written(way, find)) ==> has_key(
                variant_pairs(find, replace),
                written(way, find),
            ) && looked_up(variant_pairs(find, replace), written(way, find)) == written(
                way,
                replace,
            ),
        forall|key: Seq<char>| #[trigger]
            has_key(variant_pairs(find, replace), key) ==> key.len() > 0 && exists|way: int|
                0 <= way < 14 && #[trigger] written(way, find) == key,
{
    let froms = all_forms(find);
    let tos = all_forms(replace);
    lemma_forms_written(find);
    lemma_forms_written(replace);
    law_texts_are_paired_by_place(froms, tos);
    assert forall|way: int|
        0 <= way < 14 && (#[trigger] written(way, find)).len() > 0 && (forall|j: int|
            0 <= j < way ==> #[trigger] written(j, find) != written(way, find)) implies has_key(
        variant_pairs(find, replace),
        written(way, find),
    ) && looked_up(variant_pairs(find, replace), written(way, find)) == written(way, replace) by {
        assert(froms[way] == written(way, find));
        assert(tos[way] == written(way, replace));
        assert forall|j: int| 0 <= j < way implies #[trigger] froms[j] != froms[way] by {
            assert(froms[j] == written(j, find));
        }
    }
    assert forall|key: Seq<char>| #[trigger]
        has_key(variant_pairs(find, replace), key) implies key.len() > 0 && exists|way: int|
        0 <= way < 14 && #[trigger] written(way, find) == key by {
        let k = choose|k: int| 0 <= k < froms.len() && froms[k] == key;
        assert(written(k, find) == key);
    }
}

/// In particular, a word in snake case becomes the other in snake case, and so on,
/// where no way before it writes the word alike.
pub proof fn law_snake_case_stays_snake_case(find: Seq<char>, replace: Seq<char>)
    requires
        snake_cased(find).len() > 0,
        snake_cased(find) != text::replaced(train_cased(find), '-', seq!['_']),
        snake_cased(find) != camel_cased(find),
        snake_cased(find) != kebab_cased(find),
        snake_cased(find) != pascal_cased(find),
        snake_cased(find) != screaming_snake_cased(find),
    ensures
        looked_up(variant_pairs(find, replace), snake_cased(find)) == snake_cased(replace),
{
    law_words_are_replaced_in_kind(find, replace);
    assert(written(5, find) == snake_cased(find));
    assert forall|j: int| 0 <= j < 5 implies #[trigger] written(j, find) != written(5, find) by {}
}

/// Texts are weighed by the bytes of the pattern for them, so that of two forms that
/// begin alike the one that goes on is tried first.
pub proof fn law_longer_forms_weigh_more(t: Seq<char>, more: Seq<char>)
    requires
        more.len() > 0,
    ensures
        weight(t) == encode_utf8(matcher::escaped(t)).len(),
        weight(t + more) == weight(t) + weight(more) > weight(t),
{
    matcher::law_texts_are_escaped_piece_by_piece(t, more, 'a');
    text::lemma_encoding_concat(matcher::escaped(t), matcher::escaped(more));
    matcher::law_texts_are_escaped_piece_by_piece(more.drop_last(), seq![more.last()], more.last());
    assert(more.drop_last() + seq![more.last()] =~= more);
    let e = matcher::escaped(more);
    assert(e.len() > 0);
    let head = e.drop_last();
    assert(head.push(e.last()) =~= e);
    text::lemma_encoding_push(head, e.last());
}

/// At a place where several forms stand, the heaviest is the one that is found.
pub proof fn law_the_heaviest_form_is_found(text: Seq<char>, texts: Seq<Seq<char>>, k: int, j: int)
    requires
        0 <= j < texts.len(),
        text::starts_with(text.skip(k), texts[j]),
    ensures
        matcher::word_at(text, longest_first(texts), k) matches Some(word) && weight(word)
            >= weight(texts[j]) && text::starts_with(text.skip(k), word) && texts.contains(word),
{
    let words = longest_first(texts);
    law_longest_first_sorts(texts);
    matcher::law_the_first_word_counts(text, words, k);
    assert(texts.contains(texts[j]));
    assert(words.contains(texts[j]));
    let i = choose|i: int| 0 <= i < words.len() && words[i] == texts[j];
    assert(text::starts_with(text.skip(k), words[i]));
    let word = matcher::word_at(text, words, k)->0;
    let m = choose|m: int|
        0 <= m < words.len() && #[trigger] words[m] == word && text::starts_with(
            text.skip(k),
            word,
        ) && forall|j: int| 0 <= j < m ==> !text::starts_with(text.skip(k), #[trigger] words[j]);
    assert(m <= i);
    assert(words.contains(words[m]));
    if m < i {
        assert(weight(words[m]) >= weight(words[i]));
    }
}

} // verus!
