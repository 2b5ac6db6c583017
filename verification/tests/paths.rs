use std::path::Path;

use ren::path::PathName;
use ren::text;

fn samples() -> Vec<String> {
    let pieces = ["", "a", ".", "..", "b.c", ".h", "é"];
    let mut out = Vec::new();
    for lead in ["", "/", "//", "./", "../"] {
        for a in pieces {
            out.push(format!("{lead}{a}"));
            for b in pieces {
                out.push(format!("{lead}{a}/{b}"));
                out.push(format!("{lead}{a}//{b}/"));
                for c in pieces {
                    out.push(format!("{lead}{a}/{b}/{c}"));
                }
            }
        }
    }
    out
}

fn text_of(path: &Path) -> String {
    path.to_str().unwrap().to_string()
}

#[test]
fn names_and_parents_are_those_of_std() {
    for s in samples() {
        let p = PathName::from_text(&s);
        let std_path = Path::new(&s);
        let name = p.file_name().map(|n| String::from_utf8(n).unwrap());
        let std_name = std_path.file_name().map(|n| n.to_str().unwrap().to_string());
        assert_eq!(name, std_name, "name of {s:?}");
        let parent = p.parent().map(|d| d.to_text_lossy());
        assert_eq!(parent, std_path.parent().map(text_of), "parent of {s:?}");
    }
}

#[test]
fn components_are_those_of_std() {
    for s in samples() {
        let parts: Vec<String> = PathName::from_text(&s)
            .components()
            .into_iter()
            .map(|c| String::from_utf8(c).unwrap())
            .collect();
        let std_parts: Vec<String> = Path::new(&s)
            .components()
            .map(|c| c.as_os_str().to_str().unwrap().to_string())
            .collect();
        assert_eq!(parts, std_parts, "components of {s:?}");
    }
}

#[test]
fn joins_and_depths_are_those_of_std() {
    let all = samples();
    for (i, s) in all.iter().enumerate() {
        for t in all.iter().skip(i % 7).step_by(41) {
            let p = PathName::from_text(s);
            let q = PathName::from_text(t);
            assert_eq!(p.join(&q.bytes).to_text_lossy(), text_of(&Path::new(s).join(t)));
            assert_eq!(p.same_path(&q), Path::new(s) == Path::new(t), "{s:?} {t:?}");
            let depth = Path::new(s)
                .strip_prefix(t)
                .map(|rest| rest.components().count())
                .unwrap_or_else(|_| Path::new(s).components().count());
            assert_eq!(p.depth_below(&q), depth, "{s:?} below {t:?}");
        }
    }
}

#[test]
fn a_directory_and_a_name_make_the_path() {
    let p = PathName::from_text("a/b/c.txt");
    let dir = p.directory();
    let name = p.file_name().unwrap();
    assert!(dir.join(&name).same_path(&p));
    assert_eq!(dir.join(&b"d.txt".to_vec()).directory().to_text_lossy(), "a/b");
}

#[test]
fn bytes_that_are_not_utf8_are_shown_with_replacements() {
    let p = PathName::from_bytes(vec![b'a', 0xff, b'b']);
    assert_eq!(p.to_text_lossy(), "a\u{fffd}b");
    assert_eq!(p.copy(), p);
}

// ---- text ----------------------------------------------------------------------

#[test]
fn white_space_is_that_of_unicode() {
    for code in 0..=0x10ffff_u32 {
        if let Some(c) = char::from_u32(code) {
            assert_eq!(text::is_white_space(c), c.is_whitespace(), "{code:x}");
        }
    }
}

#[test]
fn widths_and_letter_case_are_those_of_std() {
    for code in (0..=0x10ffff_u32).step_by(7) {
        if let Some(c) = char::from_u32(code) {
            assert_eq!(text::char_width(c), c.len_utf8());
            assert_eq!(text::to_ascii_lower(c), c.to_ascii_lowercase());
            assert_eq!(text::to_ascii_upper(c), c.to_ascii_uppercase());
        }
    }
}

#[test]
fn numbers_are_written_in_decimal() {
    assert_eq!(text::decimal_string(0), "0");
    assert_eq!(text::decimal_string(u64::MAX), "18446744073709551615");
    assert_eq!(text::padded_decimal(42, 5), "00042");
    assert_eq!(text::padded_decimal(42, 0), "42");
    for n in [0, 9, 10, 99, 100, 12345] {
        assert_eq!(text::decimal_string(n).parse::<u64>(), Ok(n));
        assert_eq!(text::padded_decimal(n, 9).parse::<u64>(), Ok(n));
    }
}

#[test]
fn splitting_and_joining_are_those_of_std() {
    for s in ["", ",", "a", "a,b", ",a,,b,", "é,日"] {
        let pieces: Vec<String> = text::split_chars(&text::chars_of(s), ',')
            .iter()
            .map(|p| text::string_of(p))
            .collect();
        let std_pieces: Vec<String> = s.split(',').map(str::to_string).collect();
        assert_eq!(pieces, std_pieces);
        assert_eq!(text::join_strings(&pieces, ","), s);
        assert_eq!(text::replace_char(s, ',', "--"), s.replace(',', "--"));
        let bytes = text::split_bytes(&s.as_bytes().to_vec(), b',');
        assert_eq!(bytes.len(), std_pieces.len());
    }
}

#[test]
fn texts_are_ordered_as_strings_are() {
    let words = ["", "a", "aa", "ab", "b", "A", "é", "日", "\u{10000}", "\u{ffff}", "z"];
    for a in words {
        for b in words {
            let before = text::chars_before(&text::chars_of(a), &text::chars_of(b));
            assert_eq!(before, a.to_string() < b.to_string(), "{a:?} {b:?}");
            assert_eq!(text::same_text(a, b), a == b);
        }
    }
}

#[test]
fn trimming_is_that_of_std() {
    for s in ["", " ", " a ", "\t\u{2003}a b\u{a0}\n", "a", "\u{200b}a"] {
        let trimmed = text::trim_chars(&text::chars_of(s));
        assert_eq!(text::string_of(&trimmed), s.trim());
    }
}
