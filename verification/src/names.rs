//! A name and its parts: the stem, and the extension behind it.

use vstd::prelude::*;
use vstd::utf8::*;
use crate::path;
use crate::path::PathName;
use crate::text;

verus! {

/// The part of a name that is worked on.
#[derive(Clone, Copy, Debug, PartialEq, Eq, Structural)]
pub enum ExtensionScope {
    /// The extension. A name without one is left alone.
    Only,
    /// The whole name.
    Include,
    /// The stem. The extension is put behind it again.
    Exclude,
}

/// Whether a name ends in a dot and the given extension, in any letter case, and
/// has something before them.
pub open spec fn has_compound(s: Seq<char>, extension: Seq<char>) -> bool {
    s.len() > extension.len() + 1 && text::ends_with(
        s.map_values(|c: char| text::ascii_lower(c)),
        "."@ + extension,
    )
}

/// The length of the extension of two parts that a name has, or zero if it has
/// none of those that are known.
pub open spec fn compound_len(s: Seq<char>) -> nat {
    if has_compound(s, "tar.gz"@) {
        "tar.gz"@.len()
    } else if has_compound(s, "tar.bz2"@) {
        "tar.bz2"@.len()
    } else if has_compound(s, "tar.xz"@) {
        "tar.xz"@.len()
    } else if has_compound(s, "tar.zst"@) {
        "tar.zst"@.len()
    } else if has_compound(s, "tar.lz"@) {
        "tar.lz"@.len()
    } else {
        0
    }
}

/// Where the last dot in a name is, or minus one if it has none.
pub open spec fn last_dot(s: Seq<char>) -> int
    decreases s.len(),
{
    if s.len() == 0 {
        -1
    } else if s.last() == '.' {
        s.len() - 1
    } else {
        last_dot(s.drop_last())
    }
}

/// A name, split at its last dot unless that is its first character.
pub open spec fn split_at_dot(name: Seq<char>) -> (Seq<char>, Option<Seq<char>>) {
    let at = last_dot(name);
    if at <= 0 {
        (name, None)
    } else {
        (name.take(at), Some(name.skip(at + 1)))
    }
}

/// The text of the name that a path ends in, if it does and the name is UTF-8.
pub open spec fn name_text(p: Seq<u8>) -> Option<Seq<char>> {
    match path::file_name(p) {
        Some(name) => if valid_utf8(name) {
            Some(decode_utf8(name))
        } else {
            None
        },
        None => None,
    }
}

/// The stem and the extension of a name. A few extensions of two parts are known;
/// any other name is split at its last dot, which leaves one that begins with its
/// only dot without an extension.
pub open spec fn stem_and_extension(s: Seq<char>) -> (Seq<char>, Option<Seq<char>>) {
    let k = compound_len(s) as int;
    if k > 0 {
        (s.take(s.len() - k - 1), Some(s.skip(s.len() - k)))
    } else {
        match name_text(encode_utf8(s)) {
            None => (s, None),
            Some(name) => {
                let (stem, extension) = split_at_dot(name);
                if extension is None && s.len() > 0 && s.last() == '.' && stem != s {
                    (stem, Some(Seq::empty()))
                } else {
                    (stem, extension)
                }
            },
        }
    }
}

/// The text of the name that the path ends in.
pub fn text_of_name(p: &PathName) -> (name: Option<String>)
    ensures
        name is Some <==> name_text(p@) is Some,
        name matches Some(s) ==> name_text(p@) == Some(s@) && path::file_name(p@) == Some(
            encode_utf8(s@),
        ),
{
    match p.file_name() {
        Some(bytes) => match text::decode(&bytes) {
            Some(s) => {
                proof {
                    encode_utf8_decode_utf8(s@);
                }
                Some(s)
            },
            None => None,
        },
        None => None,
    }
}

fn ends_in_compound(chars: &Vec<char>, extension: &str) -> (found: bool)
    ensures
        found == has_compound(chars@, extension@),
{
    let wanted = text::chars_of(extension);
    proof {
        reveal_strlit(".");
    }
    let ghost lowered = chars@.map_values(|c: char| text::ascii_lower(c));
    let ghost suffix = "."@ + extension@;
    if chars.len() <= wanted.len() || chars.len() - wanted.len() <= 1 {
        return false;
    }
    let start: usize = chars.len() - wanted.len() - 1;
    let ghost tail = lowered.skip(start as int);
    assert(lowered.len() - suffix.len() == start);
    if chars[start] != '.' {
        proof {
            assert(tail[0] == text::ascii_lower(chars@[start as int]));
            assert(suffix[0] == '.');
        }
        return false;
    }
    for i in 0..wanted.len()
        invariant
            wanted@ == extension@,
            start + 1 + wanted.len() == chars.len(),
            lowered == chars@.map_values(|c: char| text::ascii_lower(c)),
            suffix == "."@ + extension@,
            "."@ == seq!['.'],
            tail == lowered.skip(start as int),
            lowered.len() - suffix.len() == start,
            tail[0] == '.',
            forall|k: int| 0 <= k < i ==> tail[k + 1] == #[trigger] extension@[k],
    {
        assert(tail[i + 1] == text::ascii_lower(chars@[start + 1 + i]));
        assert(suffix[i + 1] == extension@[i as int]);
        if text::to_ascii_lower(chars[start + 1 + i]) != wanted[i] {
            assert(tail != suffix);
            return false;
        }
    }
    assert forall|k: int| 0 <= k < suffix.len() implies tail[k] == suffix[k] by {
        if k > 0 {
            assert(tail[k - 1 + 1] == extension@[k - 1]);
        }
    }
    assert(tail == suffix);
    true
}

fn compound_length(chars: &Vec<char>) -> (k: usize)
    ensures
        k == compound_len(chars@),
        k > 0 ==> k + 1 < chars@.len(),
{
    proof {
        reveal_strlit("tar.gz");
        reveal_strlit("tar.bz2");
        reveal_strlit("tar.xz");
        reveal_strlit("tar.zst");
        reveal_strlit("tar.lz");
    }
    if ends_in_compound(chars, "tar.gz") {
        6
    } else if ends_in_compound(chars, "tar.bz2") {
        7
    } else if ends_in_compound(chars, "tar.xz") {
        6
    } else if ends_in_compound(chars, "tar.zst") {
        7
    } else if ends_in_compound(chars, "tar.lz") {
        6
    } else {
        0
    }
}

fn split_name(name: &str) -> (out: (String, Option<String>))
    ensures
        out.0@ == split_at_dot(name@).0,
        out.1 is Some <==> split_at_dot(name@).1 is Some,
        out.1 matches Some(e) ==> split_at_dot(name@).1 == Some(e@),
{
    let chars = text::chars_of(name);
    let mut at: usize = chars.len();
    assert(chars@.take(at as int) == chars@);
    while at > 0 && chars[at - 1] != '.'
        invariant
            at <= chars@.len(),
            chars@ == name@,
            last_dot(name@) == last_dot(chars@.take(at as int)),
        decreases at,
    {
        assert(chars@.take(at as int).drop_last() == chars@.take(at - 1));
        at = at - 1;
    }
    assert(last_dot(name@) == at - 1);
    if at <= 1 {
        (name.to_string(), None)
    } else {
        let stem = text::string_of_range(&chars, 0, at - 1);
        let extension = text::string_of_range(&chars, at, chars.len());
        assert(stem@ == name@.take(at - 1));
        assert(extension@ == name@.skip(at as int));
        (stem, Some(extension))
    }
}

/// The stem and the extension of a name:
///
/// - `foo.rs` has the stem `foo` and the extension `rs`;
/// - `archive.tar.gz` has the stem `archive` and the extension `tar.gz`;
/// - `.bashrc` and `Makefile` have no extension;
/// - `archive.` has the stem `archive` and an empty extension.
pub fn split_stem_ext(basename: &str) -> (out: (String, Option<String>))
    ensures
        out.0@ == stem_and_extension(basename@).0,
        out.1 is Some <==> stem_and_extension(basename@).1 is Some,
        out.1 matches Some(e) ==> stem_and_extension(basename@).1 == Some(e@),
{
    let chars = text::chars_of(basename);
    let k = compound_length(&chars);
    if k > 0 {
        let stem = text::string_of_range(&chars, 0, chars.len() - k - 1);
        let extension = text::string_of_range(&chars, chars.len() - k, chars.len());
        assert(stem@ == basename@.take(basename@.len() - k - 1));
        assert(extension@ == basename@.skip(basename@.len() - k));
        return (stem, Some(extension));
    }
    let p = PathName::from_text(basename);
    match text_of_name(&p) {
        None => (basename.to_string(), None),
        Some(name) => {
            let (stem, extension) = split_name(name.as_str());
            if extension.is_none() && chars.len() > 0 && chars[chars.len() - 1] == '.'
                && !text::same_text(stem.as_str(), basename) {
                (stem, Some(String::new()))
            } else {
                (stem, extension)
            }
        },
    }
}

// ---- laws ------------------------------------------------------------------------

/// A stem, with a dot and the extension behind it if there is one.
pub open spec fn with_extension(stem: Seq<char>, extension: Option<Seq<char>>) -> Seq<char> {
    match extension {
        Some(e) => stem + "."@ + e,
        None => stem,
    }
}

proof fn lemma_last_dot(s: Seq<char>)
    ensures
        -1 <= last_dot(s) < s.len(),
        last_dot(s) >= 0 ==> s[last_dot(s)] == '.',
        forall|k: int| last_dot(s) < k < s.len() ==> s[k] != '.',
    decreases s.len(),
{
    if s.len() > 0 && s.last() != '.' {
        lemma_last_dot(s.drop_last());
        assert forall|k: int| last_dot(s) < k < s.len() implies s[k] != '.' by {
            if k < s.len() - 1 {
                assert(s.drop_last()[k] != '.');
            }
        }
    }
}

/// The name that a path ends in is the only name of the path that it is itself.
pub proof fn law_name_of_a_name(p: Seq<u8>)
    requires
        path::file_name(p) is Some,
    ensures
        path::file_name(path::file_name(p)->0) == path::file_name(p),
{
    let name = path::file_name(p)->0;
    path::law_file_name_is_plain(p);
    path::law_join_stays_in_directory(Seq::empty(), name);
    assert(path::join(Seq::empty(), name) == name);
}

/// The stem of a name and its extension, put together again, are the name; and the
/// stem is not empty.
pub proof fn law_stem_and_extension_make_the_name(p: Seq<u8>, s: Seq<char>)
    requires
        path::file_name(p) == Some(encode_utf8(s)),
    ensures
        with_extension(stem_and_extension(s).0, stem_and_extension(s).1) == s,
        stem_and_extension(s).0.len() > 0,
{
    reveal_strlit(".");
    let k = compound_len(s) as int;
    if k > 0 {
        lemma_compound_dot(s);
        assert(s.take(s.len() - k - 1) + "."@ + s.skip(s.len() - k) == s);
    } else {
        law_name_of_a_name(p);
        encode_utf8_valid_utf8(s);
        encode_utf8_decode_utf8(s);
        assert(name_text(encode_utf8(s)) == Some(s));
        lemma_last_dot(s);
        let at = last_dot(s);
        if at > 0 {
            assert(s.take(at) + "."@ + s.skip(at + 1) == s);
        } else {
            path::lemma_content_end(p, path::body_start(p), p.len() as int);
            assert(!path::is_trivial(encode_utf8(s)));
            if s.len() == 0 {
                assert(encode_utf8(s).len() == 0);
            }
        }
    }
}

proof fn lemma_compound_dot(s: Seq<char>)
    requires
        compound_len(s) > 0,
    ensures
        compound_len(s) + 1 < s.len(),
        s[s.len() - compound_len(s) - 1] == '.',
{
    reveal_strlit("tar.gz");
    reveal_strlit("tar.bz2");
    reveal_strlit("tar.xz");
    reveal_strlit("tar.zst");
    reveal_strlit("tar.lz");
    if has_compound(s, "tar.gz"@) {
        lemma_dot_before(s, "tar.gz"@);
    } else if has_compound(s, "tar.bz2"@) {
        lemma_dot_before(s, "tar.bz2"@);
    } else if has_compound(s, "tar.xz"@) {
        lemma_dot_before(s, "tar.xz"@);
    } else if has_compound(s, "tar.zst"@) {
        lemma_dot_before(s, "tar.zst"@);
    } else {
        lemma_dot_before(s, "tar.lz"@);
    }
}

proof fn lemma_dot_before(s: Seq<char>, extension: Seq<char>)
    requires
        has_compound(s, extension),
    ensures
        extension.len() + 1 < s.len(),
        s[s.len() - extension.len() - 1] == '.',
{
    reveal_strlit(".");
    let lowered = s.map_values(|c: char| text::ascii_lower(c));
    let at = s.len() - extension.len() - 1;
    assert(("."@ + extension)[0] == '.');
    assert(lowered.skip(at)[0] == lowered[at]);
    assert(text::ascii_lower(s[at]) == '.');
}

/// Whether a name ends, in whatever letter case, in a dot and the given extension,
/// with something before that.
pub open spec fn is_named_like(s: Seq<char>, extension: Seq<char>) -> bool {
    let n = extension.len() as int;
    &&& s.len() > n + 1
    &&& s[s.len() - n - 1] == '.'
    &&& forall|i: int|
        0 <= i < n ==> text::ascii_lower(#[trigger] s[s.len() - n + i]) == extension[i]
}

proof fn lemma_named_like(s: Seq<char>, extension: Seq<char>)
    requires
        extension.len() > 0,
    ensures
        has_compound(s, extension) <==> is_named_like(s, extension),
{
    reveal_strlit(".");
    let n = extension.len() as int;
    let lower = s.map_values(|c: char| text::ascii_lower(c));
    let dotted = "."@ + extension;
    if s.len() > n + 1 {
        let end = lower.skip(s.len() - n - 1);
        assert(lower.len() - dotted.len() == s.len() - n - 1);
        if has_compound(s, extension) {
            assert(end == dotted);
            assert(end[0] == dotted[0]);
            assert(lower[s.len() - n - 1] == '.');
            assert(s[s.len() - n - 1] == '.');
            assert forall|i: int| 0 <= i < n implies text::ascii_lower(
                #[trigger] s[s.len() - n + i],
            ) == extension[i] by {
                assert(end[i + 1] == dotted[i + 1]);
                assert(lower[s.len() - n + i] == end[i + 1]);
            }
        }
        if is_named_like(s, extension) {
            assert forall|i: int| 0 <= i < dotted.len() implies end[i] == dotted[i] by {
                if i > 0 {
                    assert(text::ascii_lower(s[s.len() - n + (i - 1)]) == extension[i - 1]);
                }
            }
            assert(end =~= dotted);
        }
    }
}

/// A name that ends in `.tar.gz`, `.tar.bz2`, `.tar.xz`, `.tar.zst` or `.tar.lz`, in
/// whatever letter case, has all of that for its extension. Any other name is split at
/// its last dot, so that there is none in the extension, and has no extension if there
/// is no dot behind its first character.
#[verifier::rlimit(40)]
#[verifier::spinoff_prover]
pub proof fn law_names_are_split_at_a_dot(s: Seq<char>)
    requires
        name_text(encode_utf8(s)) == Some(s),
    ensures
        ({
            let gz = is_named_like(s, "tar.gz"@);
            let bz2 = is_named_like(s, "tar.bz2"@);
            let xz = is_named_like(s, "tar.xz"@);
            let zst = is_named_like(s, "tar.zst"@);
            let lz = is_named_like(s, "tar.lz"@);
            let n = s.len();
            &&& gz || xz || lz ==> stem_and_extension(s) == (
                s.take(n - 7),
                Some(s.skip(n - 6)),
            )
            &&& bz2 || zst ==> stem_and_extension(s) == (s.take(n - 8), Some(s.skip(n - 7)))
            &&& !gz && !bz2 && !xz && !zst && !lz ==> {
                let (stem, extension) = stem_and_extension(s);
                match extension {
                    Some(e) => stem.len() > 0 && !e.contains('.') && s == stem.push('.') + e,
                    None => stem == s && forall|i: int| 0 < i < s.len() ==> s[i] != '.',
                }
            }
        }),
{
    reveal_strlit("tar.gz");
    reveal_strlit("tar.bz2");
    reveal_strlit("tar.xz");
    reveal_strlit("tar.zst");
    reveal_strlit("tar.lz");
    lemma_named_like(s, "tar.gz"@);
    lemma_named_like(s, "tar.bz2"@);
    lemma_named_like(s, "tar.xz"@);
    lemma_named_like(s, "tar.zst"@);
    lemma_named_like(s, "tar.lz"@);
    let n = s.len() as int;
    if is_named_like(s, "tar.gz"@) {
        assert(text::ascii_lower(s[n - 6 + 4]) == 'g');
        assert(text::ascii_lower(s[n - 6 + 5]) == 'z');
    }
    if is_named_like(s, "tar.xz"@) {
        assert(text::ascii_lower(s[n - 6 + 4]) == 'x');
        assert(text::ascii_lower(s[n - 6 + 5]) == 'z');
    }
    if is_named_like(s, "tar.lz"@) {
        assert(text::ascii_lower(s[n - 6 + 4]) == 'l');
        assert(text::ascii_lower(s[n - 6 + 5]) == 'z');
    }
    if is_named_like(s, "tar.bz2"@) {
        assert(text::ascii_lower(s[n - 7 + 6]) == '2');
    }
    if is_named_like(s, "tar.zst"@) {
        assert(text::ascii_lower(s[n - 7 + 6]) == 't');
    }
    if compound_len(s) == 0 {
        lemma_last_dot(s);
        let at = last_dot(s);
        if at > 0 {
            let e = s.skip(at + 1);
            if e.contains('.') {
                let i = choose|i: int| 0 <= i < e.len() && e[i] == '.';
                assert(s[at + 1 + i] == '.');
            }
            assert(s =~= s.take(at).push('.') + e);
        }
    }
}

/// The name of an entry is what its path ends in, if that is UTF-8.
pub proof fn law_names_are_what_paths_end_in(dir: Seq<u8>, s: Seq<char>, bytes: Seq<u8>)
    ensures
        path::is_plain_name(encode_utf8(s)) ==> name_text(path::join(dir, encode_utf8(s))) == Some(
            s,
        ),
        path::is_plain_name(bytes) && !valid_utf8(bytes) ==> name_text(
            path::join(dir, bytes),
        ) is None,
{
    if path::is_plain_name(encode_utf8(s)) {
        path::law_join_stays_in_directory(dir, encode_utf8(s));
        encode_utf8_valid_utf8(s);
        encode_utf8_decode_utf8(s);
    }
    if path::is_plain_name(bytes) {
        path::law_join_stays_in_directory(dir, bytes);
    }
}

} // verus!
