//! Text: strings as sequences of characters, and the few operations on them
//! that the rest of the library is written with.

use vstd::prelude::*;
use vstd::utf8::*;

verus! {

// ---- strings and characters -------------------------------------------------

/// `String::push` appends the given character to the end of the string.
pub assume_specification[ String::push ](s: &mut String, c: char)
    ensures
        final(s)@ == old(s)@.push(c),
;

/// `String::push_str` appends the given string slice to the end of the string.
pub assume_specification[ String::push_str ](s: &mut String, other: &str)
    ensures
        final(s)@ == old(s)@ + other@,
;

/// The characters of a string, in order.
pub fn chars_of(s: &str) -> (chars: Vec<char>)
    ensures
        chars@ == s@,
{
    let mut out: Vec<char> = Vec::new();
    for c in it: s.chars()
        invariant
            out@ == s@.take(it.index() as int),
            it.seq() == s@,
    {
        out.push(c);
    }
    out
}

/// The string that the given characters make up.
pub fn string_of(chars: &Vec<char>) -> (s: String)
    ensures
        s@ == chars@,
{
    string_of_range(chars, 0, chars.len())
}

/// The string that the characters from `from` up to `to` make up.
pub fn string_of_range(chars: &Vec<char>, from: usize, to: usize) -> (s: String)
    requires
        from <= to <= chars@.len(),
    ensures
        s@ == chars@.subrange(from as int, to as int),
{
    let mut out = String::new();
    for i in from..to
        invariant
            from <= to <= chars@.len(),
            out@ == chars@.subrange(from as int, i as int),
    {
        out.push(chars[i]);
    }
    out
}

/// Whether two strings hold the same characters.
pub fn same_text(a: &str, b: &str) -> (same: bool)
    ensures
        same == (a@ == b@),
{
    let left = chars_of(a);
    let right = chars_of(b);
    same_chars(&left, &right)
}

/// The views of a sequence of strings.
pub open spec fn views(strings: Seq<String>) -> Seq<Seq<char>> {
    strings.map_values(|s: String| s@)
}

// ---- searching --------------------------------------------------------------

/// Whether `s` begins with `prefix`.
pub open spec fn starts_with<T>(s: Seq<T>, prefix: Seq<T>) -> bool {
    prefix.len() <= s.len() && s.take(prefix.len() as int) == prefix
}

/// Whether `s` ends with `suffix`.
pub open spec fn ends_with<T>(s: Seq<T>, suffix: Seq<T>) -> bool {
    suffix.len() <= s.len() && s.skip(s.len() - suffix.len()) == suffix
}

/// Whether the characters from `from` on begin with the given text.
pub fn chars_start_with(chars: &Vec<char>, from: usize, prefix: &str) -> (found: bool)
    requires
        from <= chars@.len(),
    ensures
        found == starts_with(chars@.skip(from as int), prefix@),
{
    let wanted = chars_of(prefix);
    let ghost rest = chars@.skip(from as int);
    if wanted.len() > chars.len() - from {
        return false;
    }
    for i in 0..wanted.len()
        invariant
            wanted@ == prefix@,
            rest == chars@.skip(from as int),
            from <= chars.len(),
            wanted.len() <= chars.len() - from,
            forall|k: int| 0 <= k < i ==> rest[k] == prefix@[k],
    {
        if chars[from + i] != wanted[i] {
            proof {
                if starts_with(rest, prefix@) {
                    assert(rest.take(prefix@.len() as int)[i as int] == prefix@[i as int]);
                }
            }
            return false;
        }
    }
    assert(rest.take(prefix@.len() as int) == prefix@);
    true
}

/// Whether the bytes end with the given bytes.
pub fn bytes_end_with(bytes: &Vec<u8>, suffix: &Vec<u8>) -> (found: bool)
    ensures
        found == ends_with(bytes@, suffix@),
{
    if suffix.len() > bytes.len() {
        return false;
    }
    let start: usize = bytes.len() - suffix.len();
    for i in 0..suffix.len()
        invariant
            start + suffix.len() == bytes.len(),
            forall|k: int| 0 <= k < i ==> bytes@[start + k] == suffix@[k],
    {
        if bytes[start + i] != suffix[i] {
            proof {
                if ends_with(bytes@, suffix@) {
                    assert(bytes@.skip(start as int)[i as int] == suffix@[i as int]);
                }
            }
            return false;
        }
    }
    assert(bytes@.skip(start as int) == suffix@);
    true
}

/// Whether the character occurs among the given ones.
pub fn has_char(chars: &Vec<char>, c: char) -> (found: bool)
    ensures
        found == chars@.contains(c),
{
    for i in 0..chars.len()
        invariant
            forall|k: int| 0 <= k < i ==> chars@[k] != c,
    {
        if chars[i] == c {
            assert(chars@[i as int] == c);
            return true;
        }
    }
    false
}

// ---- order ------------------------------------------------------------------

/// Whether one text comes before another in the order of their characters.
pub open spec fn lex_before(a: Seq<char>, b: Seq<char>) -> bool
    decreases a.len(),
{
    if b.len() == 0 {
        false
    } else if a.len() == 0 {
        true
    } else if a[0] != b[0] {
        a[0] < b[0]
    } else {
        lex_before(a.skip(1), b.skip(1))
    }
}

/// Of two texts one comes before the other unless they are the same, and not the
/// other way round; and what comes before the one comes before the other.
pub proof fn law_texts_are_ordered(a: Seq<char>, b: Seq<char>, c: Seq<char>)
    ensures
        lex_before(a, b) ==> !lex_before(b, a),
        lex_before(a, b) || lex_before(b, a) || a == b,
        !lex_before(a, a),
        lex_before(a, b) && lex_before(b, c) ==> lex_before(a, c),
    decreases a.len() + b.len() + c.len(),
{
    if a.len() > 0 && b.len() > 0 && c.len() > 0 {
        law_texts_are_ordered(a.skip(1), b.skip(1), c.skip(1));
        if a[0] == b[0] && a.skip(1) == b.skip(1) {
            assert(seq![a[0]] + a.skip(1) == a);
            assert(seq![b[0]] + b.skip(1) == b);
        }
    } else if a.len() > 0 && b.len() > 0 {
        law_texts_are_ordered(a.skip(1), b.skip(1), c);
        if a[0] == b[0] && a.skip(1) == b.skip(1) {
            assert(seq![a[0]] + a.skip(1) == a);
            assert(seq![b[0]] + b.skip(1) == b);
        }
    } else if a.len() == 0 && b.len() == 0 {
        assert(a == b);
    } else if a.len() > 0 {
        law_texts_are_ordered(a.skip(1), b, c);
    }
}

/// Whether one text comes before another.
pub fn chars_before(a: &Vec<char>, b: &Vec<char>) -> (first: bool)
    ensures
        first == lex_before(a@, b@),
{
    let mut i: usize = 0;
    assert(a@.skip(0) == a@);
    assert(b@.skip(0) == b@);
    while i < a.len() && i < b.len() && a[i] == b[i]
        invariant
            i <= a@.len(),
            i <= b@.len(),
            lex_before(a@, b@) == lex_before(a@.skip(i as int), b@.skip(i as int)),
        decreases a@.len() - i,
    {
        assert(a@.skip(i as int).skip(1) == a@.skip(i + 1));
        assert(b@.skip(i as int).skip(1) == b@.skip(i + 1));
        i = i + 1;
    }
    if i == b.len() {
        false
    } else if i == a.len() {
        true
    } else {
        a[i] < b[i]
    }
}

/// Whether the characters are the same.
pub fn same_chars(a: &Vec<char>, b: &Vec<char>) -> (same: bool)
    ensures
        same == (a@ == b@),
{
    if a.len() != b.len() {
        return false;
    }
    for i in 0..a.len()
        invariant
            a@.len() == b@.len(),
            forall|k: int| 0 <= k < i ==> a@[k] == b@[k],
    {
        if a[i] != b[i] {
            return false;
        }
    }
    assert(a@ =~= b@);
    true
}

// ---- splitting, joining, replacing -------------------------------------------

/// The stretches between the occurrences of `sep`: one more than `sep` occurs,
/// empty ones included.
pub open spec fn split_on<T>(s: Seq<T>, sep: T) -> Seq<Seq<T>>
    decreases s.len(),
{
    if s.len() == 0 {
        seq![Seq::<T>::empty()]
    } else {
        let before = split_on(s.drop_last(), sep);
        if s.last() == sep {
            before.push(Seq::empty())
        } else {
            before.drop_last().push(before.last().push(s.last()))
        }
    }
}

/// A split yields at least one stretch.
pub proof fn lemma_split_nonempty<T>(s: Seq<T>, sep: T)
    ensures
        split_on(s, sep).len() >= 1,
    decreases s.len(),
{
    if s.len() > 0 {
        lemma_split_nonempty(s.drop_last(), sep);
    }
}

/// The given pieces, with `sep` between each and the next.
pub open spec fn joined<T>(pieces: Seq<Seq<T>>, sep: Seq<T>) -> Seq<T>
    decreases pieces.len(),
{
    if pieces.len() == 0 {
        Seq::empty()
    } else if pieces.len() == 1 {
        pieces[0]
    } else {
        joined(pieces.drop_last(), sep) + sep + pieces.last()
    }
}

/// Joining the stretches of a split gives back what was split.
pub proof fn law_split_joins_back<T>(s: Seq<T>, sep: T)
    ensures
        joined(split_on(s, sep), seq![sep]) == s,
    decreases s.len(),
{
    if s.len() > 0 {
        let before = split_on(s.drop_last(), sep);
        lemma_split_nonempty(s.drop_last(), sep);
        law_split_joins_back(s.drop_last(), sep);
        if s.last() == sep {
            let all = before.push(Seq::empty());
            assert(all.drop_last() == before);
            assert(joined(all, seq![sep]) == s);
        } else {
            let all = before.drop_last().push(before.last().push(s.last()));
            assert(all.drop_last() == before.drop_last());
            if before.len() == 1 {
                assert(joined(all, seq![sep]) == s.drop_last().push(s.last()));
            } else {
                let head = joined(before.drop_last(), seq![sep]) + seq![sep];
                assert(joined(all, seq![sep]) == head + before.last().push(s.last()));
                assert(head + before.last().push(s.last()) == (head + before.last()).push(
                    s.last(),
                ));
            }
            assert(s.drop_last().push(s.last()) == s);
        }
    }
}

/// Splits characters at every `sep`.
pub fn split_chars(chars: &Vec<char>, sep: char) -> (pieces: Vec<Vec<char>>)
    ensures
        pieces@.len() == split_on(chars@, sep).len(),
        forall|k: int|
            0 <= k < pieces@.len() ==> (#[trigger] pieces@[k])@ == split_on(chars@, sep)[k],
{
    let mut done: Vec<Vec<char>> = Vec::new();
    let mut current: Vec<char> = Vec::new();
    for i in 0..chars.len()
        invariant
            split_on(chars@.take(i as int), sep).len() == done@.len() + 1,
            forall|k: int|
                0 <= k < done@.len() ==> (#[trigger] done@[k])@ == split_on(
                    chars@.take(i as int),
                    sep,
                )[k],
            current@ == split_on(chars@.take(i as int), sep).last(),
    {
        assert(chars@.take(i + 1).drop_last() == chars@.take(i as int));
        if chars[i] == sep {
            done.push(current);
            current = Vec::new();
        } else {
            current.push(chars[i]);
        }
    }
    assert(chars@.take(chars@.len() as int) == chars@);
    done.push(current);
    done
}

/// Splits bytes at every `sep`.
pub fn split_bytes(bytes: &Vec<u8>, sep: u8) -> (pieces: Vec<Vec<u8>>)
    ensures
        pieces@.len() == split_on(bytes@, sep).len(),
        forall|k: int|
            0 <= k < pieces@.len() ==> (#[trigger] pieces@[k])@ == split_on(bytes@, sep)[k],
{
    let mut done: Vec<Vec<u8>> = Vec::new();
    let mut current: Vec<u8> = Vec::new();
    for i in 0..bytes.len()
        invariant
            split_on(bytes@.take(i as int), sep).len() == done@.len() + 1,
            forall|k: int|
                0 <= k < done@.len() ==> (#[trigger] done@[k])@ == split_on(
                    bytes@.take(i as int),
                    sep,
                )[k],
            current@ == split_on(bytes@.take(i as int), sep).last(),
    {
        assert(bytes@.take(i + 1).drop_last() == bytes@.take(i as int));
        if bytes[i] == sep {
            done.push(current);
            current = Vec::new();
        } else {
            current.push(bytes[i]);
        }
    }
    assert(bytes@.take(bytes@.len() as int) == bytes@);
    done.push(current);
    done
}

/// Joins strings with `sep` between each and the next.
pub fn join_strings(pieces: &Vec<String>, sep: &str) -> (s: String)
    ensures
        s@ == joined(views(pieces@), sep@),
{
    let mut out = String::new();
    for i in 0..pieces.len()
        invariant
            out@ == joined(views(pieces@.take(i as int)), sep@),
    {
        assert(views(pieces@.take(i + 1)).drop_last() == views(pieces@.take(i as int)));
        if i > 0 {
            out.push_str(sep);
        }
        out.push_str(pieces[i].as_str());
    }
    assert(pieces@.take(pieces@.len() as int) == pieces@);
    out
}

/// `s` with every `from` replaced by `to`.
pub open spec fn replaced(s: Seq<char>, from: char, to: Seq<char>) -> Seq<char>
    decreases s.len(),
{
    if s.len() == 0 {
        Seq::empty()
    } else {
        replaced(s.drop_last(), from, to) + (if s.last() == from {
            to
        } else {
            seq![s.last()]
        })
    }
}

/// Replaces every `from` by `to`.
pub fn replace_char(s: &str, from: char, to: &str) -> (out: String)
    ensures
        out@ == replaced(s@, from, to@),
{
    let chars = chars_of(s);
    let mut out = String::new();
    for i in 0..chars.len()
        invariant
            out@ == replaced(chars@.take(i as int), from, to@),
    {
        assert(chars@.take(i + 1).drop_last() == chars@.take(i as int));
        if chars[i] == from {
            out.push_str(to);
        } else {
            out.push(chars[i]);
            assert(replaced(chars@.take(i as int), from, to@).push(chars@[i as int]) == replaced(
                chars@.take(i as int),
                from,
                to@,
            ) + seq![chars@[i as int]]);
        }
    }
    assert(chars@.take(chars@.len() as int) == chars@);
    out
}

// ---- white space ------------------------------------------------------------

/// Whether the character has the Unicode property `White_Space`.
pub open spec fn is_white(c: char) -> bool {
    ||| '\u{9}' <= c <= '\u{d}'
    ||| c == ' '
    ||| c == '\u{85}'
    ||| c == '\u{a0}'
    ||| c == '\u{1680}'
    ||| '\u{2000}' <= c <= '\u{200a}'
    ||| c == '\u{2028}'
    ||| c == '\u{2029}'
    ||| c == '\u{202f}'
    ||| c == '\u{205f}'
    ||| c == '\u{3000}'
}

/// Whether the character is white space.
pub fn is_white_space(c: char) -> (white: bool)
    ensures
        white == is_white(c),
{
    ('\u{9}' <= c && c <= '\u{d}') || c == ' ' || c == '\u{85}' || c == '\u{a0}' || c == '\u{1680}'
        || ('\u{2000}' <= c && c <= '\u{200a}') || c == '\u{2028}' || c == '\u{2029}' || c
        == '\u{202f}' || c == '\u{205f}' || c == '\u{3000}'
}

/// `s` without the white space at its beginning.
pub open spec fn trimmed_start(s: Seq<char>) -> Seq<char>
    decreases s.len(),
{
    if s.len() > 0 && is_white(s[0]) {
        trimmed_start(s.skip(1))
    } else {
        s
    }
}

/// `s` without the white space at its end.
pub open spec fn trimmed_end(s: Seq<char>) -> Seq<char>
    decreases s.len(),
{
    if s.len() > 0 && is_white(s.last()) {
        trimmed_end(s.drop_last())
    } else {
        s
    }
}

/// `s` without the white space at either end.
pub open spec fn trimmed(s: Seq<char>) -> Seq<char> {
    trimmed_end(trimmed_start(s))
}

/// The characters without the white space at either end.
pub fn trim_chars(chars: &Vec<char>) -> (out: Vec<char>)
    ensures
        out@ == trimmed(chars@),
{
    let mut start: usize = 0;
    assert(chars@.skip(0) == chars@);
    while start < chars.len() && is_white_space(chars[start])
        invariant
            start <= chars@.len(),
            trimmed_start(chars@.skip(start as int)) == trimmed_start(chars@),
        decreases chars@.len() - start,
    {
        assert(chars@.skip(start as int).skip(1) == chars@.skip(start + 1));
        start = start + 1;
    }
    assert(trimmed_start(chars@) == chars@.skip(start as int));
    let mut end: usize = chars.len();
    while end > start && is_white_space(chars[end - 1])
        invariant
            start <= end <= chars@.len(),
            trimmed_end(chars@.subrange(start as int, end as int)) == trimmed_end(
                chars@.skip(start as int),
            ),
        decreases end,
    {
        assert(chars@.subrange(start as int, end as int).drop_last() == chars@.subrange(
            start as int,
            end - 1,
        ));
        end = end - 1;
    }
    let mut out: Vec<char> = Vec::new();
    for i in start..end
        invariant
            start <= end <= chars@.len(),
            out@ == chars@.subrange(start as int, i as int),
    {
        out.push(chars[i]);
    }
    out
}

// ---- letter case ------------------------------------------------------------

/// `c` in lower case if it is an ASCII letter, else `c`.
pub open spec fn ascii_lower(c: char) -> char {
    if 'A' <= c <= 'Z' {
        (c as int + 32) as char
    } else {
        c
    }
}

/// `c` in upper case if it is an ASCII letter, else `c`.
pub open spec fn ascii_upper(c: char) -> char {
    if 'a' <= c <= 'z' {
        (c as int - 32) as char
    } else {
        c
    }
}

/// What `str::to_lowercase` makes of a string that is not all ASCII.
pub uninterp spec fn unicode_lowercased(s: Seq<char>) -> Seq<char>;

/// What `str::to_uppercase` makes of a string that is not all ASCII.
pub uninterp spec fn unicode_uppercased(s: Seq<char>) -> Seq<char>;

/// A text in lower case.
pub open spec fn lowercased(s: Seq<char>) -> Seq<char> {
    if is_ascii_chars(s) {
        s.map_values(|c: char| ascii_lower(c))
    } else {
        unicode_lowercased(s)
    }
}

/// A text in upper case.
pub open spec fn uppercased(s: Seq<char>) -> Seq<char> {
    if is_ascii_chars(s) {
        s.map_values(|c: char| ascii_upper(c))
    } else {
        unicode_uppercased(s)
    }
}

/// Calls `str::to_lowercase`: the lowercase equivalent of the string by the
/// Unicode tables, which depends on the string alone. In a string that is all
/// ASCII these are the letters from `a` to `z` for those from `A` to `Z`.
#[verifier::external_body]
pub(crate) fn to_lowercase(s: &str) -> (out: String)
    ensures
        is_ascii_chars(s@) ==> out@ == s@.map_values(|c: char| ascii_lower(c)),
        !is_ascii_chars(s@) ==> out@ == unicode_lowercased(s@),
{
    s.to_lowercase()
}

/// Calls `str::to_uppercase`: the uppercase equivalent of the string by the
/// Unicode tables, which depends on the string alone. In a string that is all
/// ASCII these are the letters from `A` to `Z` for those from `a` to `z`.
#[verifier::external_body]
pub(crate) fn to_uppercase(s: &str) -> (out: String)
    ensures
        is_ascii_chars(s@) ==> out@ == s@.map_values(|c: char| ascii_upper(c)),
        !is_ascii_chars(s@) ==> out@ == unicode_uppercased(s@),
{
    s.to_uppercase()
}

/// Lowers an ASCII letter.
pub fn to_ascii_lower(c: char) -> (out: char)
    ensures
        out == ascii_lower(c),
{
    if 'A' <= c && c <= 'Z' {
        ((c as u8) + 32) as char
    } else {
        c
    }
}

/// Raises an ASCII letter.
pub fn to_ascii_upper(c: char) -> (out: char)
    ensures
        out == ascii_upper(c),
{
    if 'a' <= c && c <= 'z' {
        ((c as u8) - 32) as char
    } else {
        c
    }
}

// ---- UTF-8 ------------------------------------------------------------------

/// What `String::from_utf8_lossy` makes of bytes that are not UTF-8.
pub uninterp spec fn patched(bytes: Seq<u8>) -> Seq<char>;

/// The text that bytes which need not be UTF-8 are shown as.
pub open spec fn lossy(bytes: Seq<u8>) -> Seq<char> {
    if valid_utf8(bytes) {
        decode_utf8(bytes)
    } else {
        patched(bytes)
    }
}

/// Calls `std::str::from_utf8`: the text whose UTF-8 encoding the bytes are,
/// or nothing if they are not valid UTF-8.
#[verifier::external_body]
pub(crate) fn decode(bytes: &Vec<u8>) -> (text: Option<String>)
    ensures
        text is Some <==> valid_utf8(bytes@),
        text matches Some(s) ==> encode_utf8(s@) == bytes@,
{
    std::str::from_utf8(bytes).ok().map(|s| s.to_string())
}

/// Calls `String::from_utf8_lossy`, which replaces what is not UTF-8 and leaves
/// valid UTF-8 as it is.
#[verifier::external_body]
pub(crate) fn decode_lossy(bytes: &Vec<u8>) -> (text: String)
    ensures
        valid_utf8(bytes@) ==> text@ == decode_utf8(bytes@),
        !valid_utf8(bytes@) ==> text@ == patched(bytes@),
{
    String::from_utf8_lossy(bytes).into_owned()
}

/// The encoding of one text after another is the one encoding after the other.
pub proof fn lemma_encoding_concat(a: Seq<char>, b: Seq<char>)
    ensures
        encode_utf8(a + b) == encode_utf8(a) + encode_utf8(b),
    decreases a.len(),
{
    if a.len() == 0 {
        assert(a + b == b);
        assert(encode_utf8(a) + encode_utf8(b) == encode_utf8(b));
    } else {
        lemma_encoding_concat(a.drop_first(), b);
        assert((a + b).drop_first() == a.drop_first() + b);
        assert(encode_utf8(a + b) == encode_utf8(a) + encode_utf8(b));
    }
}

/// The number of bytes that the character takes in UTF-8.
pub open spec fn utf8_width(c: char) -> nat {
    encode_scalar(c as u32).len()
}

/// Appending a character adds its width to the length of the encoding.
pub proof fn lemma_encoding_push(s: Seq<char>, c: char)
    ensures
        encode_utf8(s.push(c)) == encode_utf8(s) + encode_scalar(c as u32),
        1 <= utf8_width(c) <= 4,
{
    lemma_encoding_concat(s, seq![c]);
    assert(s + seq![c] == s.push(c));
    reveal_with_fuel(encode_utf8, 2);
    assert(seq![c].drop_first() == Seq::<char>::empty());
    assert(encode_utf8(seq![c]) == encode_scalar(c as u32));
}

/// The number of bytes that the character takes in UTF-8.
pub fn char_width(c: char) -> (width: usize)
    ensures
        width == utf8_width(c),
        1 <= width <= 4,
{
    let code: u32 = c as u32;
    if code <= 0x7f {
        1
    } else if code <= 0x7ff {
        2
    } else if code <= 0xffff {
        3
    } else {
        4
    }
}

// ---- numbers ----------------------------------------------------------------

/// The decimal digit for a number below ten.
pub open spec fn digit(d: nat) -> char {
    (48 + d) as char
}

/// A number in decimal notation.
pub open spec fn decimal(n: nat) -> Seq<char>
    decreases n,
{
    if n < 10 {
        seq![digit(n)]
    } else {
        decimal(n / 10).push(digit(n % 10))
    }
}

/// `s`, filled up with zeros on its left to `width` characters.
pub open spec fn zero_filled(s: Seq<char>, width: nat) -> Seq<char> {
    if s.len() < width {
        Seq::new((width - s.len()) as nat, |i: int| '0') + s
    } else {
        s
    }
}

/// The decimal digits of a number.
pub fn decimal_chars(n: u64) -> (chars: Vec<char>)
    ensures
        chars@ == decimal(n as nat),
    decreases n,
{
    let last = (48u8 + (n % 10) as u8) as char;
    let mut out: Vec<char> = Vec::new();
    if n >= 10 {
        out = decimal_chars(n / 10);
    }
    out.push(last);
    out
}

/// A number in decimal notation.
pub fn decimal_string(n: u64) -> (s: String)
    ensures
        s@ == decimal(n as nat),
{
    let chars = decimal_chars(n);
    string_of(&chars)
}

/// A number in decimal notation, filled up with zeros to `width` digits.
pub fn padded_decimal(n: u64, width: usize) -> (s: String)
    ensures
        s@ == zero_filled(decimal(n as nat), width as nat),
{
    let chars = decimal_chars(n);
    let mut out = String::new();
    if chars.len() < width {
        let fill: usize = width - chars.len();
        for i in 0..fill
            invariant
                out@ == Seq::new(i as nat, |i: int| '0'),
        {
            out.push('0');
        }
    }
    let digits = string_of(&chars);
    out.push_str(digits.as_str());
    out
}

/// Whether the character is an ASCII digit.
pub open spec fn is_digit(c: char) -> bool {
    '0' <= c <= '9'
}

/// The number that decimal digits write.
pub open spec fn number_of(digits: Seq<char>) -> nat
    decreases digits.len(),
{
    if digits.len() == 0 {
        0
    } else {
        number_of(digits.drop_last()) * 10 + (digits.last() as nat - 48) as nat
    }
}

/// Decimal notation consists of digits, and writes the number that it is of.
pub proof fn law_decimal_reads_back(n: nat)
    ensures
        decimal(n).len() > 0,
        forall|i: int| 0 <= i < decimal(n).len() ==> is_digit(#[trigger] decimal(n)[i]),
        number_of(decimal(n)) == n,
    decreases n,
{
    if n < 10 {
        assert(decimal(n).drop_last() == Seq::<char>::empty());
        assert(number_of(Seq::<char>::empty()) == 0);
    } else {
        law_decimal_reads_back(n / 10);
        assert(decimal(n).drop_last() == decimal(n / 10));
    }
}

/// Zeros on the left change neither what digits are nor what they write.
pub proof fn law_zeros_change_nothing(s: Seq<char>, width: nat)
    requires
        forall|i: int| 0 <= i < s.len() ==> is_digit(#[trigger] s[i]),
    ensures
        forall|i: int|
            0 <= i < zero_filled(s, width).len() ==> is_digit(#[trigger] zero_filled(s, width)[i]),
        number_of(zero_filled(s, width)) == number_of(s),
{
    if s.len() < width {
        lemma_leading_zeros((width - s.len()) as nat, s);
    }
}

proof fn lemma_leading_zeros(count: nat, s: Seq<char>)
    ensures
        number_of(Seq::new(count, |i: int| '0') + s) == number_of(s),
    decreases s.len(), count,
{
    let zeros = Seq::new(count, |i: int| '0');
    if s.len() > 0 {
        lemma_leading_zeros(count, s.drop_last());
        assert((zeros + s).drop_last() == zeros + s.drop_last());
    } else if count > 0 {
        let fewer = Seq::new((count - 1) as nat, |i: int| '0');
        lemma_leading_zeros((count - 1) as nat, s);
        assert((zeros + s).drop_last() == fewer + s);
    } else {
        assert(zeros + s == s);
    }
}

/// A number of more than one digit does not begin with a zero, and numbers with the
/// same digits are the same.
pub proof fn law_decimals_are_canonical(n: nat)
    ensures
        decimal(n).len() > 1 ==> decimal(n)[0] != '0',
        n < 10 ==> decimal(n).len() == 1,
        n >= 10 ==> decimal(n).len() == decimal(n / 10).len() + 1,
    decreases n,
{
    if n >= 10 {
        law_decimals_are_canonical(n / 10);
        law_decimal_reads_back(n / 10);
        if decimal(n / 10).len() == 1 {
            assert(decimal(n)[0] == decimal(n / 10)[0]);
            assert(decimal(n / 10).drop_last() =~= Seq::<char>::empty());
            assert(number_of(decimal(n / 10)) == n / 10);
        }
    }
}

/// Of an ASCII text, lowering and raising change letters of the other case alone,
/// each for the same letter: lengths stay, and what is no letter stays.
pub proof fn law_case_changes_letters_alone(s: Seq<char>, i: int)
    requires
        is_ascii_chars(s),
        0 <= i < s.len(),
    ensures
        lowercased(s).len() == s.len() == uppercased(s).len(),
        'A' <= s[i] <= 'Z' ==> lowercased(s)[i] as int == s[i] as int + 32,
        !('A' <= s[i] <= 'Z') ==> lowercased(s)[i] == s[i],
        'a' <= s[i] <= 'z' ==> uppercased(s)[i] as int == s[i] as int - 32,
        !('a' <= s[i] <= 'z') ==> uppercased(s)[i] == s[i],
{
}

/// Outside ASCII, lowering and raising are what the standard library makes of them.
pub proof fn law_other_letters_have_case_too(s: Seq<char>)
    requires
        !is_ascii_chars(s),
    ensures
        lowercased(s) == unicode_lowercased(s),
        uppercased(s) == unicode_uppercased(s),
{
}

/// A character is replaced wherever it stands, and all others stay: texts are worked
/// on piece by piece.
pub proof fn law_characters_are_replaced_everywhere(
    a: Seq<char>,
    b: Seq<char>,
    from: char,
    to: Seq<char>,
)
    ensures
        replaced(a + b, from, to) == replaced(a, from, to) + replaced(b, from, to),
        replaced(seq![from], from, to) == to,
        !a.contains(from) ==> replaced(a, from, to) == a,
    decreases a.len() + b.len(),
{
    assert(seq![from].drop_last() =~= Seq::<char>::empty());
    assert(replaced(Seq::empty(), from, to) =~= Seq::<char>::empty());
    assert(replaced(seq![from], from, to) =~= to);
    if b.len() == 0 {
        assert(a + b =~= a);
        assert(replaced(a, from, to) + replaced(b, from, to) =~= replaced(a, from, to));
    } else {
        law_characters_are_replaced_everywhere(a, b.drop_last(), from, to);
        assert((a + b).drop_last() =~= a + b.drop_last());
        assert((a + b).last() == b.last());
        let last = if b.last() == from {
            to
        } else {
            seq![b.last()]
        };
        assert(replaced(a, from, to) + replaced(b.drop_last(), from, to) + last =~= replaced(
            a,
            from,
            to,
        ) + (replaced(b.drop_last(), from, to) + last));
    }
    if !a.contains(from) && a.len() > 0 {
        assert forall|x: char| a.drop_last().contains(x) implies a.contains(x) by {
            let i = choose|i: int| 0 <= i < a.drop_last().len() && a.drop_last()[i] == x;
            assert(a[i] == x);
        }
        law_characters_are_replaced_everywhere(a.drop_last(), Seq::empty(), from, to);
        assert(a[a.len() - 1] == a.last());
        assert(a.contains(a.last()));
        assert(a.drop_last() + seq![a.last()] =~= a);
    }
}

/// What is trimmed is a part of the text: white space goes from both ends, and
/// nothing else.
pub proof fn law_trimming_takes_white_space_from_the_ends(s: Seq<char>) -> (at: (int, int))
    ensures
        0 <= at.0 <= at.1 <= s.len(),
        trimmed(s) == s.subrange(at.0, at.1),
        forall|i: int| 0 <= i < at.0 ==> is_white(#[trigger] s[i]),
        forall|i: int| at.1 <= i < s.len() ==> is_white(#[trigger] s[i]),
        at.0 < at.1 ==> !is_white(s[at.0]) && !is_white(s[at.1 - 1]),
{
    let from = lemma_trimmed_start(s);
    let rest = s.skip(from);
    let n = lemma_trimmed_end(rest);
    let to = from + n;
    assert(rest.take(n) =~= s.subrange(from, to));
    assert forall|i: int| to <= i < s.len() implies is_white(#[trigger] s[i]) by {
        assert(rest[i - from] == s[i]);
    }
    if from < to {
        assert(rest[0] == s[from]);
        assert(rest[n - 1] == s[to - 1]);
    }
    (from, to)
}

proof fn lemma_trimmed_start(s: Seq<char>) -> (from: int)
    ensures
        0 <= from <= s.len(),
        trimmed_start(s) == s.skip(from),
        forall|i: int| 0 <= i < from ==> is_white(#[trigger] s[i]),
        from < s.len() ==> !is_white(s[from]),
    decreases s.len(),
{
    if s.len() > 0 && is_white(s[0]) {
        let rest = lemma_trimmed_start(s.skip(1));
        assert(s.skip(1).skip(rest) =~= s.skip(rest + 1));
        assert forall|i: int| 0 <= i < rest + 1 implies is_white(#[trigger] s[i]) by {
            if i > 0 {
                assert(s.skip(1)[i - 1] == s[i]);
            }
        }
        rest + 1
    } else {
        assert(s.skip(0) =~= s);
        0
    }
}

proof fn lemma_trimmed_end(s: Seq<char>) -> (to: int)
    ensures
        0 <= to <= s.len(),
        trimmed_end(s) == s.take(to),
        forall|i: int| to <= i < s.len() ==> is_white(#[trigger] s[i]),
        to > 0 ==> !is_white(s[to - 1]),
    decreases s.len(),
{
    if s.len() > 0 && is_white(s.last()) {
        let to = lemma_trimmed_end(s.drop_last());
        assert(s.drop_last().take(to) =~= s.take(to));
        assert forall|i: int| to <= i < s.len() implies is_white(#[trigger] s[i]) by {
            if i < s.len() - 1 {
                assert(s.drop_last()[i] == s[i]);
            }
        }
        to
    } else {
        assert(s.take(s.len() as int) =~= s);
        s.len() as int
    }
}

/// No piece of a split text holds the separator.
pub proof fn law_pieces_hold_no_separator<T>(s: Seq<T>, sep: T)
    ensures
        split_on(s, sep).len() > 0,
        forall|i: int|
            0 <= i < split_on(s, sep).len() ==> !(#[trigger] split_on(s, sep)[i]).contains(sep),
    decreases s.len(),
{
    if s.len() > 0 {
        let before = split_on(s.drop_last(), sep);
        law_pieces_hold_no_separator(s.drop_last(), sep);
        let all = split_on(s, sep);
        assert forall|i: int| 0 <= i < all.len() implies !(#[trigger] all[i]).contains(sep) by {
            if i < before.len() - 1 || (s.last() == sep && i < before.len()) {
                assert(all[i] == before[i]);
            } else if s.last() != sep {
                let piece = before[before.len() - 1];
                assert(!piece.contains(sep));
                if all[i].contains(sep) {
                    let k = choose|k: int| 0 <= k < all[i].len() && all[i][k] == sep;
                    assert(k < piece.len());
                    assert(piece[k] == sep);
                }
            }
        }
    }
}

/// A text begins with another if it is that one with something behind it, and ends
/// with another if it is that one with something before it.
pub proof fn law_beginnings_and_ends<T>(s: Seq<T>, part: Seq<T>, rest: Seq<T>)
    ensures
        starts_with(part + rest, part),
        ends_with(rest + part, part),
        starts_with(s, part) ==> s == part + s.skip(part.len() as int),
        ends_with(s, part) ==> s == s.take(s.len() - part.len()) + part,
{
    assert((part + rest).take(part.len() as int) =~= part);
    assert((rest + part).skip(rest.len() as int) =~= part);
    if starts_with(s, part) {
        assert(s =~= s.take(part.len() as int) + s.skip(part.len() as int));
    }
    if ends_with(s, part) {
        assert(s =~= s.take(s.len() - part.len()) + s.skip(s.len() - part.len()));
    }
}

/// Of two texts the one with the smaller character at the first place at which they
/// differ comes first, and one that the other goes on from.
pub proof fn law_the_first_difference_decides(
    common: Seq<char>,
    x: char,
    y: char,
    a: Seq<char>,
    b: Seq<char>,
)
    ensures
        x < y ==> lex_before(common + seq![x] + a, common + seq![y] + b),
        lex_before(common, common + seq![x] + a),
        !lex_before(common + seq![x] + a, common),
    decreases common.len(),
{
    let left = common + seq![x] + a;
    let right = common + seq![y] + b;
    if common.len() > 0 {
        law_the_first_difference_decides(common.skip(1), x, y, a, b);
        assert(left.skip(1) =~= common.skip(1) + seq![x] + a);
        assert(right.skip(1) =~= common.skip(1) + seq![y] + b);
        assert(left[0] == common[0] && right[0] == common[0]);
    } else {
        assert(left[0] == x);
        assert(right[0] == y);
    }
}

/// Pieces are joined in order, with the separator between each two.
pub proof fn law_pieces_are_joined_in_order<T>(pieces: Seq<Seq<T>>, piece: Seq<T>, sep: Seq<T>)
    ensures
        joined(Seq::<Seq<T>>::empty(), sep) == Seq::<T>::empty(),
        joined(seq![piece], sep) == piece,
        pieces.len() > 0 ==> joined(pieces.push(piece), sep) == joined(pieces, sep) + sep + piece,
{
    assert(pieces.push(piece).drop_last() =~= pieces);
}

/// Which characters are white space.
pub proof fn law_white_space(c: char)
    ensures
        (c as u32) < 128 ==> (is_white(c) <==> c == ' ' || 9 <= c as u32 <= 13),
        128 <= c as u32 <= 0x1fff ==> (is_white(c) <==> c as u32 == 0x85 || c as u32 == 0xa0
            || c as u32 == 0x1680),
        0x2000 <= c as u32 <= 0x200a ==> is_white(c),
        0x200a < c as u32 ==> (is_white(c) <==> c as u32 == 0x2028 || c as u32 == 0x2029
            || c as u32 == 0x202f || c as u32 == 0x205f || c as u32 == 0x3000),
{
}

/// A text that is too short gets zeros before it, and one that is not stays.
pub proof fn law_zeros_fill_up(s: Seq<char>, width: nat)
    ensures
        s.len() >= width ==> zero_filled(s, width) == s,
        s.len() < width ==> zero_filled(s, width).len() == width && ends_with(
            zero_filled(s, width),
            s,
        ) && forall|i: int|
            0 <= i < width - s.len() ==> #[trigger] zero_filled(s, width)[i] == '0',
{
    if s.len() < width {
        assert(zero_filled(s, width).skip(width - s.len()) =~= s);
    }
}

/// Bytes that are UTF-8 are shown as the text that they encode.
pub proof fn law_texts_are_shown_as_they_are(s: Seq<char>, bytes: Seq<u8>)
    ensures
        lossy(encode_utf8(s)) == s,
        valid_utf8(bytes) ==> encode_utf8(lossy(bytes)) == bytes,
        !valid_utf8(bytes) ==> lossy(bytes) == patched(bytes),
{
    encode_utf8_valid_utf8(s);
    encode_utf8_decode_utf8(s);
    if valid_utf8(bytes) {
        decode_utf8_encode_utf8(bytes);
    }
}

} // verus!
