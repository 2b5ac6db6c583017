//! Regular expressions, as far as the rewriting of names needs them.

use vstd::prelude::*;
use vstd::utf8::*;
use crate::text;

verus! {

/// A compiled regular expression of the `regex` crate.
#[verifier::external_type_specification]
#[verifier::external_body]
pub struct ExRegex(regex::Regex);

/// Why the `regex` crate did not accept a pattern.
#[verifier::external_type_specification]
#[verifier::external_body]
pub struct ExRegexError(regex::Error);

// ---- what the regex crate computes ---------------------------------------------

/// What `RegexBuilder::build` makes of a pattern, or why it refuses it.
pub uninterp spec fn built_regex(pattern: Seq<char>, ignore_case: bool) -> Result<
    regex::Regex,
    regex::Error,
>;

/// Where `Regex::find_iter` finds a pattern in a text: the positions, in
/// characters, at which each match begins and ends.
pub uninterp spec fn match_spans(pattern: Seq<char>, ignore_case: bool, text: Seq<char>) -> Seq<
    (int, int),
>;

/// What `Captures::expand` makes of a replacement for each match that
/// `Regex::captures_iter` finds of a pattern in a text.
pub uninterp spec fn match_expansions(
    pattern: Seq<char>,
    ignore_case: bool,
    text: Seq<char>,
    replacement: Seq<char>,
) -> Seq<Seq<char>>;

/// Whether matches lie within a text of the given length, one after the other.
pub open spec fn spans_in_order(spans: Seq<(int, int)>, len: int) -> bool {
    &&& forall|i: int|
        0 <= i < spans.len() ==> 0 <= (#[trigger] spans[i]).0 <= spans[i].1 <= len
    &&& forall|i: int, j: int|
        0 <= i < j < spans.len() ==> (#[trigger] spans[i]).1 <= (#[trigger] spans[j]).0
}

/// Where the character at `k` begins in the UTF-8 encoding of a text.
pub open spec fn byte_offset(text: Seq<char>, k: int) -> nat {
    encode_utf8(text.take(k)).len()
}

/// Whether the character has a meaning of its own in a pattern.
pub open spec fn is_meta(c: char) -> bool {
    ||| c == '\\' || c == '.' || c == '+' || c == '*' || c == '?' || c == '(' || c == ')'
    ||| c == '|' || c == '[' || c == ']' || c == '{' || c == '}' || c == '^' || c == '$'
    ||| c == '#' || c == '&' || c == '-' || c == '~'
}

/// A pattern that matches the text itself: a backslash before each character
/// with a meaning of its own.
pub open spec fn escaped(s: Seq<char>) -> Seq<char>
    decreases s.len(),
{
    if s.len() == 0 {
        Seq::empty()
    } else if is_meta(s.last()) {
        escaped(s.drop_last()).push('\\').push(s.last())
    } else {
        escaped(s.drop_last()).push(s.last())
    }
}

/// A pattern that matches any of the given texts, the first that fits.
pub open spec fn alternation(texts: Seq<Seq<char>>) -> Seq<char> {
    text::joined(texts.map_values(|t: Seq<char>| escaped(t)), "|"@)
}

/// Whether byte offsets mark the given matches in a text.
pub open spec fn offsets_mark(
    offsets: Seq<(usize, usize)>,
    spans: Seq<(int, int)>,
    text: Seq<char>,
) -> bool {
    &&& offsets.len() == spans.len()
    &&& spans_in_order(spans, text.len() as int)
    &&& forall|i: int|
        0 <= i < offsets.len() ==> {
            &&& (#[trigger] offsets[i]).0 == byte_offset(text, spans[i].0)
            &&& offsets[i].1 == byte_offset(text, spans[i].1)
        }
}

/// Whether every match is one of the given texts.
pub open spec fn matches_are_among(
    spans: Seq<(int, int)>,
    text: Seq<char>,
    texts: Seq<Seq<char>>,
) -> bool {
    forall|i: int|
        0 <= i < spans.len() ==> texts.contains(
            text.subrange((#[trigger] spans[i]).0, spans[i].1),
        )
}

/// Whether there are words, and none of them is empty.
pub open spec fn are_words(words: Seq<Seq<char>>) -> bool {
    words.len() > 0 && forall|i: int| 0 <= i < words.len() ==> (#[trigger] words[i]).len() > 0
}

/// The first of the words that stands in the text at `k`.
pub open spec fn word_at(text: Seq<char>, words: Seq<Seq<char>>, k: int) -> Option<Seq<char>>
    decreases words.len(),
{
    if words.len() == 0 {
        None
    } else {
        match word_at(text, words.drop_last(), k) {
            Some(word) => Some(word),
            None => if text::starts_with(text.skip(k), words.last()) {
                Some(words.last())
            } else {
                None
            },
        }
    }
}

/// Where the words stand in the text from `k` on: from left to right, without
/// overlap, and the first of them where several fit.
pub open spec fn occurrences(text: Seq<char>, words: Seq<Seq<char>>, k: int) -> Seq<(int, int)>
    decreases text.len() - k,
{
    if k < 0 || k >= text.len() {
        Seq::empty()
    } else {
        match word_at(text, words, k) {
            Some(word) => if 0 < word.len() <= text.len() - k {
                seq![(k, k + word.len())] + occurrences(text, words, k + word.len())
            } else {
                Seq::empty()
            },
            None => occurrences(text, words, k + 1),
        }
    }
}

/// Calls `regex::escape`, which puts a backslash before every meta character
/// and leaves the others as they are.
#[verifier::external_body]
pub(crate) fn escape(s: &str) -> (pattern: String)
    ensures
        pattern@ == escaped(s@),
{
    regex::escape(s)
}

/// Calls `RegexBuilder::build` on a pattern, with letter case ignored or not
/// and with a dot that does not match a line feed.
#[verifier::external_body]
fn build_regex(pattern: &str, ignore_case: bool) -> (built: Result<regex::Regex, regex::Error>)
    ensures
        built == built_regex(pattern@, ignore_case),
{
    regex::RegexBuilder::new(pattern)
        .case_insensitive(ignore_case)
        .dot_matches_new_line(false)
        .build()
}

/// Calls `Regex::is_match`, which tells whether there is a match anywhere.
#[verifier::external_body]
fn regex_is_match(matcher: &Matcher, text: &str) -> (found: bool)
    requires
        matcher.is_built(),
    ensures
        matcher@.words is None ==> found == (match_spans(
            matcher@.pattern,
            matcher@.ignore_case,
            text@,
        ).len() > 0),
        matcher@.words matches Some(words) ==> found == (occurrences(text@, words, 0).len() > 0),
{
    matcher.regex.is_match(text)
}

/// Calls `Regex::find_iter`, whose matches are reported by the bytes at which
/// they begin and end. They follow one another without overlap and begin and
/// end between characters. An alternation of plain words is found where one of the
/// words stands, the leftmost first; where several do, it is the first of them in
/// the alternation, since the first alternative is preferred.
#[verifier::external_body]
fn regex_find_iter(matcher: &Matcher, text: &str) -> (offsets: Vec<(usize, usize)>)
    requires
        matcher.is_built(),
    ensures
        matcher@.words is None ==> offsets_mark(
            offsets@,
            match_spans(matcher@.pattern, matcher@.ignore_case, text@),
            text@,
        ),
        matcher@.words matches Some(words) ==> offsets_mark(
            offsets@,
            occurrences(text@, words, 0),
            text@,
        ),
{
    matcher.regex.find_iter(text).map(|m| (m.start(), m.end())).collect()
}

/// Calls `Captures::expand` on each match of `Regex::captures_iter`, which
/// finds the matches that `Regex::find_iter` finds.
#[verifier::external_body]
fn regex_expand(matcher: &Matcher, text: &str, replacement: &str) -> (expanded: Vec<String>)
    requires
        matcher.is_built(),
    ensures
        text::views(expanded@) == match_expansions(
            matcher@.pattern,
            matcher@.ignore_case,
            text@,
            replacement@,
        ),
        expanded@.len() == matcher@.spans(text@).len(),
{
    let expand = |c: regex::Captures| {
        let mut out = String::new();
        c.expand(replacement, &mut out);
        out
    };
    matcher.regex.captures_iter(text).map(expand).collect()
}

// ---- matchers -------------------------------------------------------------------

/// A pattern, ready to be looked for.
pub struct Matcher {
    pattern: String,
    ignore_case: bool,
    words: Ghost<Option<Seq<Seq<char>>>>,
    regex: regex::Regex,
}

/// What a matcher looks for.
pub struct Search {
    pub pattern: Seq<char>,
    pub ignore_case: bool,
    /// The words that the pattern is an alternation of, if it is known to be one.
    pub words: Option<Seq<Seq<char>>>,
}

/// A search for a pattern.
pub open spec fn search_for(pattern: Seq<char>, ignore_case: bool) -> Search {
    Search { pattern, ignore_case, words: None }
}

/// A search for any of the given words.
pub open spec fn search_for_words(words: Seq<Seq<char>>) -> Search {
    Search { pattern: alternation(words), ignore_case: false, words: Some(words) }
}

impl View for Matcher {
    type V = Search;

    closed spec fn view(&self) -> Search {
        Search { pattern: self.pattern@, ignore_case: self.ignore_case, words: self.words@ }
    }
}

impl Search {
    /// Whether the pattern is one that can be looked for.
    pub open spec fn compiles(self) -> bool {
        built_regex(self.pattern, self.ignore_case) is Ok
    }

    /// Why the pattern is not one that can be looked for, if it is not.
    pub open spec fn refusal(self) -> regex::Error {
        built_regex(self.pattern, self.ignore_case)->Err_0
    }

    /// Where the matches in a text are.
    pub open spec fn spans(self, text: Seq<char>) -> Seq<(int, int)> {
        match self.words {
            Some(words) => occurrences(text, words, 0),
            None => match_spans(self.pattern, self.ignore_case, text),
        }
    }

    /// What the replacement stands for at each match in a text.
    pub open spec fn expansions(self, text: Seq<char>, replacement: Seq<char>) -> Seq<Seq<char>> {
        match_expansions(self.pattern, self.ignore_case, text, replacement)
    }
}

impl Matcher {
    spec fn is_built(&self) -> bool {
        &&& built_regex(self.pattern@, self.ignore_case) == Ok::<regex::Regex, regex::Error>(
            self.regex,
        )
        &&& self.words@ matches Some(words) ==> {
            &&& are_words(words)
            &&& !self.ignore_case
            &&& self.pattern@ == alternation(words)
        }
    }

    #[verifier::type_invariant]
    spec fn built(self) -> bool {
        self.is_built()
    }

    /// A matcher for the pattern, or why there can be none.
    pub fn new(pattern: String, ignore_case: bool) -> (made: Result<Matcher, regex::Error>)
        ensures
            made is Ok <==> search_for(pattern@, ignore_case).compiles(),
            made matches Ok(m) ==> m@ == search_for(pattern@, ignore_case),
            made matches Err(e) ==> search_for(pattern@, ignore_case).refusal() == e,
    {
        match build_regex(pattern.as_str(), ignore_case) {
            Ok(regex) => Ok(Matcher { pattern, ignore_case, words: Ghost(None), regex }),
            Err(e) => Err(e),
        }
    }

    /// A matcher for the words that the pattern is an alternation of, or why there
    /// can be none.
    pub(crate) fn of_words(pattern: String, Ghost(words): Ghost<Seq<Seq<char>>>) -> (made: Result<
        Matcher,
        regex::Error,
    >)
        requires
            are_words(words),
            pattern@ == alternation(words),
        ensures
            made is Ok <==> search_for_words(words).compiles(),
            made matches Ok(m) ==> m@ == search_for_words(words),
            made matches Err(e) ==> search_for_words(words).refusal() == e,
    {
        match build_regex(pattern.as_str(), false) {
            Ok(regex) => Ok(
                Matcher { pattern, ignore_case: false, words: Ghost(Some(words)), regex },
            ),
            Err(e) => Err(e),
        }
    }

    /// Whether the pattern is found anywhere in the text.
    pub fn is_match(&self, text: &str) -> (found: bool)
        ensures
            found == (self@.spans(text@).len() > 0),
    {
        proof {
            use_type_invariant(self);
        }
        regex_is_match(self, text)
    }

    /// Where the matches in the text are, in characters.
    pub fn spans(&self, text: &str) -> (spans: Vec<(usize, usize)>)
        ensures
            positions(spans@) == self@.spans(text@),
            spans_in_order(self@.spans(text@), text@.len() as int),
    {
        proof {
            use_type_invariant(self);
        }
        let offsets = regex_find_iter(self, text);
        let chars = text::chars_of(text);
        char_spans(&chars, &offsets, Ghost(self@.spans(text@)))
    }

    /// What the replacement stands for at each match in the text.
    pub fn expansions(&self, text: &str, replacement: &str) -> (expanded: Vec<String>)
        ensures
            text::views(expanded@) == self@.expansions(text@, replacement@),
            expanded@.len() == self@.spans(text@).len(),
    {
        proof {
            use_type_invariant(self);
        }
        regex_expand(self, text, replacement)
    }
}

// ---- words ----------------------------------------------------------------------

/// A word that stands in a text is one of the words, and is there.
pub proof fn lemma_word_at(text: Seq<char>, words: Seq<Seq<char>>, k: int)
    requires
        0 <= k <= text.len(),
    ensures
        word_at(text, words, k) matches Some(word) ==> {
            &&& words.contains(word)
            &&& k + word.len() <= text.len()
            &&& text.subrange(k, k + word.len()) == word
        },
    decreases words.len(),
{
    if words.len() > 0 {
        lemma_word_at(text, words.drop_last(), k);
        match word_at(text, words.drop_last(), k) {
            Some(word) => {
                let i = choose|i: int|
                    0 <= i < words.drop_last().len() && words.drop_last()[i] == word;
                assert(words[i] == word);
            },
            None => {
                assert(words[words.len() - 1] == words.last());
                if text::starts_with(text.skip(k), words.last()) {
                    assert(text.skip(k).take(words.last().len() as int) == text.subrange(
                        k,
                        k + words.last().len(),
                    ));
                }
            },
        }
    }
}

/// Words are found in order, without overlap, and what is found is one of them.
pub proof fn law_found_words_are_words(text: Seq<char>, words: Seq<Seq<char>>, k: int)
    requires
        0 <= k,
    ensures
        spans_in_order(occurrences(text, words, k), text.len() as int),
        matches_are_among(occurrences(text, words, k), text, words),
        forall|i: int|
            0 <= i < occurrences(text, words, k).len() ==> k <= (#[trigger] occurrences(
                text,
                words,
                k,
            )[i]).0 < occurrences(text, words, k)[i].1,
    decreases text.len() - k,
{
    if k < text.len() {
        lemma_word_at(text, words, k);
        match word_at(text, words, k) {
            Some(word) => if word.len() > 0 {
                let rest = occurrences(text, words, k + word.len());
                let all = occurrences(text, words, k);
                law_found_words_are_words(text, words, k + word.len());
                assert forall|i: int| 0 <= i < all.len() implies words.contains(
                    text.subrange((#[trigger] all[i]).0, all[i].1),
                ) by {
                    if i > 0 {
                        assert(all[i] == rest[i - 1]);
                    }
                }
            },
            None => {
                law_found_words_are_words(text, words, k + 1);
            },
        }
    }
}

/// Machine integers as mathematical ones.
pub open spec fn positions(spans: Seq<(usize, usize)>) -> Seq<(int, int)> {
    spans.map_values(|s: (usize, usize)| (s.0 as int, s.1 as int))
}

/// Later characters begin at later bytes.
proof fn lemma_byte_offset_grows(text: Seq<char>, a: int, b: int)
    requires
        0 <= a <= b <= text.len(),
    ensures
        byte_offset(text, b) - byte_offset(text, a) >= b - a,
        b == a + 1 ==> byte_offset(text, b) == byte_offset(text, a) + text::utf8_width(text[a]),
    decreases b - a,
{
    if a < b {
        lemma_byte_offset_grows(text, a, b - 1);
        assert(text.take(b) == text.take(b - 1).push(text[b - 1]));
        text::lemma_encoding_push(text.take(b - 1), text[b - 1]);
    }
}

/// Goes on from the character at `from`, which begins at the byte `at`, to the
/// one that begins at the byte `target`.
fn char_at(chars: &Vec<char>, from: usize, at: usize, target: usize, Ghost(goal): Ghost<int>) -> (k:
    usize)
    requires
        from <= goal <= chars@.len(),
        at == byte_offset(chars@, from as int),
        target == byte_offset(chars@, goal),
    ensures
        k == goal,
{
    let mut k: usize = from;
    let mut offset: usize = at;
    proof {
        lemma_byte_offset_grows(chars@, k as int, goal);
    }
    while offset < target
        invariant
            from <= k <= goal <= chars.len(),
            offset == byte_offset(chars@, k as int),
            target == byte_offset(chars@, goal),
            goal - k <= target - offset,
        decreases target - offset,
    {
        proof {
            assert(k < goal);
            lemma_byte_offset_grows(chars@, k as int, k + 1);
            lemma_byte_offset_grows(chars@, k + 1, goal);
        }
        offset = offset + text::char_width(chars[k]);
        k = k + 1;
    }
    k
}

/// Turns byte offsets of matches into positions of characters.
fn char_spans(
    chars: &Vec<char>,
    offsets: &Vec<(usize, usize)>,
    Ghost(spans): Ghost<Seq<(int, int)>>,
) -> (out: Vec<(usize, usize)>)
    requires
        offsets_mark(offsets@, spans, chars@),
    ensures
        positions(out@) == spans,
{
    let mut out: Vec<(usize, usize)> = Vec::new();
    let mut k: usize = 0;
    let mut at: usize = 0;
    assert(chars@.take(0) == Seq::<char>::empty());
    for i in 0..offsets.len()
        invariant
            offsets_mark(offsets@, spans, chars@),
            positions(out@) == spans.take(i as int),
            k <= chars@.len(),
            at == byte_offset(chars@, k as int),
            k == (if i == 0 {
                0
            } else {
                spans[i - 1].1
            }),
    {
        let (start, end) = offsets[i];
        let ghost span = spans[i as int];
        let from = char_at(chars, k, at, start, Ghost(span.0));
        let to = char_at(chars, from, start, end, Ghost(span.1));
        let ghost before = out@;
        out.push((from, to));
        assert(positions(out@) == positions(before).push(span));
        k = to;
        at = end;
    }
    assert(spans.take(spans.len() as int) == spans);
    out
}

// ---- laws on words -----------------------------------------------------------------

/// Of several words that stand at a place, the first in the list is found, and one is
/// found wherever any stands.
pub proof fn law_the_first_word_counts(text: Seq<char>, words: Seq<Seq<char>>, k: int)
    ensures
        word_at(text, words, k) is None <==> forall|j: int|
            0 <= j < words.len() ==> !text::starts_with(text.skip(k), #[trigger] words[j]),
        word_at(text, words, k) matches Some(word) ==> exists|m: int|
            0 <= m < words.len() && #[trigger] words[m] == word && text::starts_with(
                text.skip(k),
                word,
            ) && forall|j: int|
                0 <= j < m ==> !text::starts_with(text.skip(k), #[trigger] words[j]),
    decreases words.len(),
{
    if words.len() > 0 {
        let head = words.drop_last();
        law_the_first_word_counts(text, head, k);
        match word_at(text, head, k) {
            Some(word) => {
                let m = choose|m: int|
                    0 <= m < head.len() && #[trigger] head[m] == word && text::starts_with(
                        text.skip(k),
                        word,
                    ) && forall|j: int|
                        0 <= j < m ==> !text::starts_with(text.skip(k), #[trigger] head[j]);
                assert(words[m] == word);
                assert forall|j: int| 0 <= j < m implies !text::starts_with(
                    text.skip(k),
                    #[trigger] words[j],
                ) by {
                    assert(head[j] == words[j]);
                }
            },
            None => {
                assert forall|j: int| 0 <= j < words.len() - 1 implies !text::starts_with(
                    text.skip(k),
                    #[trigger] words[j],
                ) by {
                    assert(head[j] == words[j]);
                }
                assert(words[words.len() - 1] == words.last());
            },
        }
    }
}

/// Whether a place comes before the match at `i` and behind those before it.
pub open spec fn is_between(spans: Seq<(int, int)>, i: int, k: int) -> bool {
    &&& 0 <= i <= spans.len()
    &&& i == 0 || spans[i - 1].1 <= k
    &&& i == spans.len() || k < spans[i].0
}

/// Words are found from left to right, and none is passed over: no word stands at a
/// place between the matches, and at a match it is the first word of the list that
/// stands there.
pub proof fn law_no_word_is_passed_over(text: Seq<char>, words: Seq<Seq<char>>, from: int)
    requires
        are_words(words),
        0 <= from,
    ensures
        forall|i: int, k: int, j: int|
            #![trigger is_between(occurrences(text, words, from), i, k), words[j]]
            from <= k < text.len() && is_between(occurrences(text, words, from), i, k) && 0 <= j
                < words.len() ==> !text::starts_with(text.skip(k), words[j]),
        forall|i: int|
            0 <= i < occurrences(text, words, from).len() ==> word_at(
                text,
                words,
                (#[trigger] occurrences(text, words, from)[i]).0,
            ) == Some(
                text.subrange(
                    occurrences(text, words, from)[i].0,
                    occurrences(text, words, from)[i].1,
                ),
            ),
    decreases text.len() - from,
{
    let all = occurrences(text, words, from);
    if from < text.len() {
        law_the_first_word_counts(text, words, from);
        lemma_word_at(text, words, from);
        match word_at(text, words, from) {
            Some(word) => {
                let m = choose|m: int| 0 <= m < words.len() && words[m] == word;
                assert(words[m].len() > 0);
                let next = from + word.len();
                let rest = occurrences(text, words, next);
                law_no_word_is_passed_over(text, words, next);
                law_found_words_are_words(text, words, next);
                assert(all == seq![(from, next)] + rest);
                assert forall|i: int, k: int, j: int|
                    #![trigger is_between(all, i, k), words[j]]
                    from <= k < text.len() && is_between(all, i, k) && 0 <= j
                        < words.len() implies !text::starts_with(text.skip(k), words[j]) by {
                    assert(i > 0);
                    assert(i > 1 ==> all[i - 1] == rest[i - 2]);
                    assert(i < all.len() ==> all[i] == rest[i - 1]);
                    if i > 1 {
                        assert(next <= rest[i - 2].0 < rest[i - 2].1);
                    }
                    assert(is_between(rest, i - 1, k));
                }
                assert forall|i: int| 0 <= i < all.len() implies word_at(
                    text,
                    words,
                    (#[trigger] all[i]).0,
                ) == Some(text.subrange(all[i].0, all[i].1)) by {
                    if i > 0 {
                        assert(all[i] == rest[i - 1]);
                    }
                }
            },
            None => {
                law_no_word_is_passed_over(text, words, from + 1);
            },
        }
    }
}

/// In a pattern for a text, every character stands for itself: each that has a meaning
/// of its own has a backslash before it, and no other has. Texts are escaped piece by
/// piece.
pub proof fn law_texts_are_escaped_piece_by_piece(a: Seq<char>, b: Seq<char>, c: char)
    ensures
        escaped(a + b) == escaped(a) + escaped(b),
        escaped(Seq::empty()) == Seq::<char>::empty(),
        is_meta(c) ==> escaped(seq![c]) == seq!['\\', c],
        !is_meta(c) ==> escaped(seq![c]) == seq![c],
        'a' <= c <= 'z' || 'A' <= c <= 'Z' || '0' <= c <= '9' || c == '_' || c == ' '
            ==> !is_meta(c),
        c == '.' || c == '*' || c == '+' || c == '?' || c == '(' || c == ')' || c == '[' || c
            == ']' || c == '{' || c == '}' || c == '^' || c == '$' || c == '|' || c == '\\'
            ==> is_meta(c),
    decreases b.len(),
{
    assert(seq![c].drop_last() =~= Seq::<char>::empty());
    assert(escaped(Seq::empty()) =~= Seq::<char>::empty());
    if is_meta(c) {
        assert(escaped(seq![c]) =~= seq!['\\', c]);
    } else {
        assert(escaped(seq![c]) =~= seq![c]);
    }
    if b.len() == 0 {
        assert(a + b =~= a);
        assert(escaped(a) + escaped(b) =~= escaped(a));
    } else {
        assert((a + b).drop_last() =~= a + b.drop_last());
        law_texts_are_escaped_piece_by_piece(a, b.drop_last(), c);
        assert(escaped(a + b) =~= escaped(a) + escaped(b));
    }
}

/// A pattern for several texts has them all, in order, with a stroke between each two.
pub proof fn law_alternatives_are_listed(texts: Seq<Seq<char>>, t: Seq<char>)
    ensures
        alternation(seq![t]) == escaped(t),
        texts.len() > 0 ==> alternation(texts.push(t)) == alternation(texts) + seq!['|'] + escaped(
            t,
        ),
{
    reveal_strlit("|");
    assert("|"@ =~= seq!['|']);
    let f = |t: Seq<char>| escaped(t);
    assert(seq![t].map_values(f) =~= seq![escaped(t)]);
    assert(texts.push(t).map_values(f) =~= texts.map_values(f).push(escaped(t)));
    text::law_pieces_are_joined_in_order(texts.map_values(f), escaped(t), "|"@);
}

} // verus!
