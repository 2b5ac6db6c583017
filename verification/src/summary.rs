//! What a run tells the user: a line for each rename, and how many there were.

use vstd::prelude::*;
use crate::diff;
use crate::rename;
use crate::rename::{PlanEntry, Planned};
use crate::text;

verus! {

// ---- numbers ---------------------------------------------------------------------

/// Digits in groups of `size`, counted from the right, with `sep` between them.
pub open spec fn in_groups(digits: Seq<char>, sep: Seq<char>, size: nat) -> Seq<char>
    decreases digits.len(),
{
    if size == 0 || digits.len() <= size {
        digits
    } else {
        in_groups(digits.take(digits.len() - size), sep, size) + sep + digits.skip(
            digits.len() - size,
        )
    }
}

/// A number with its digits in groups of three.
pub open spec fn in_thousands(n: nat, sep: Seq<char>) -> Seq<char> {
    in_groups(text::decimal(n), sep, 3)
}

/// A number with its last three digits in one group and the others in groups of
/// two.
pub open spec fn in_lakhs(n: nat, sep: Seq<char>) -> Seq<char> {
    let digits = text::decimal(n);
    if digits.len() <= 3 {
        digits
    } else {
        in_groups(digits.take(digits.len() - 3), sep, 2) + sep + digits.skip(digits.len() - 3)
    }
}

/// Whether a text is a number, with its digits in groups or not. What stands between
/// groups is not blank.
pub open spec fn shows_count(n: nat, s: Seq<char>) -> bool {
    s == text::decimal(n) || exists|sep: Seq<char>|
        !is_blank(sep) && (s == #[trigger] in_thousands(n, sep) || s == in_lakhs(n, sep))
}

/// Calls `ToFormattedString::to_formatted_string` with `num_format::Locale::en`,
/// which puts a comma before every third digit from the right.
#[verifier::external_body]
fn format_english(n: usize) -> (out: String)
    ensures
        out@ == in_thousands(n as nat, ","@),
{
    num_format::ToFormattedString::to_formatted_string(&n, &num_format::Locale::en)
}

/// Calls `num_format::SystemLocale::default`, and with what it returns
/// `SystemLocale::separator` and `ToFormattedString::to_formatted_string`: the
/// separator of the machine's locale, and the number with its digits in groups as
/// that locale has them. There is nothing if the locale cannot be read. Which of
/// the ways of grouping it is, and what the separator is, is up to the machine.
#[verifier::external_body]
fn format_by_system(n: usize) -> (out: Option<(String, String)>)
    ensures
        out matches Some(s) ==> s.1@ == text::decimal(n as nat) || s.1@ == in_thousands(
            n as nat,
            s.0@,
        ) || s.1@ == in_lakhs(n as nat, s.0@),
{
    let locale = num_format::SystemLocale::default().ok()?;
    let text = num_format::ToFormattedString::to_formatted_string(&n, &locale);
    Some((locale.separator().to_string(), text))
}

/// A number with a comma before every third digit from the right.
pub fn format_count(n: usize) -> (out: String)
    ensures
        out@ == in_thousands(n as nat, ","@),
{
    format_english(n)
}

/// Whether a separator consists of nothing but white space.
pub open spec fn is_blank(separator: Seq<char>) -> bool {
    forall|i: int| 0 <= i < separator.len() ==> text::is_white(#[trigger] separator[i])
}

/// Whether a separator is of no use between digits: a blank looks as if there were
/// two numbers.
pub fn has_ambiguous_digit_group_separator(separator: &str) -> (ambiguous: bool)
    ensures
        ambiguous == is_blank(separator@),
{
    let chars = text::chars_of(separator);
    for i in 0..chars.len()
        invariant
            chars@ == separator@,
            forall|k: int| 0 <= k < i ==> text::is_white(#[trigger] separator@[k]),
    {
        if !text::is_white_space(chars[i]) {
            return false;
        }
    }
    true
}

/// A number as the machine's locale has it, given its separator and what it makes
/// of the number: with commas if there is no locale or the separator is blank.
pub open spec fn localized(n: nat, by_system: Option<(Seq<char>, Seq<char>)>) -> Seq<char> {
    match by_system {
        Some((separator, shown)) => if is_blank(separator) {
            in_thousands(n, ","@)
        } else {
            shown
        },
        None => in_thousands(n, ","@),
    }
}

/// What the machine's locale makes of a number, if there is one.
pub open spec fn system_text(by_system: Option<(String, String)>) -> Option<
    (Seq<char>, Seq<char>),
> {
    match by_system {
        Some(s) => Some((s.0@, s.1@)),
        None => None,
    }
}

/// The number as the machine's locale has it, unless its separator is of no use:
/// `by_system` is that separator and what the locale makes of the number.
pub fn choose_count(n: usize, by_system: Option<(String, String)>) -> (out: String)
    ensures
        out@ == localized(n as nat, system_text(by_system)),
{
    match by_system {
        Some((separator, shown)) => if has_ambiguous_digit_group_separator(separator.as_str()) {
            format_count(n)
        } else {
            shown
        },
        None => format_count(n),
    }
}

/// The number with its digits in groups, as the machine's locale has them if it
/// can be read and has a separator that is not blank. What the separator is, and
/// how the digits are grouped, is up to the machine.
pub fn with_commas(n: usize) -> (out: String)
    ensures
        shows_count(n as nat, out@),
        n < 1000 ==> out@ == text::decimal(n as nat),
{
    let by_system = format_by_system(n);
    let ghost shown = by_system;
    let out = choose_count(n, by_system);
    proof {
        law_small_numbers_are_not_grouped(n as nat, ","@);
        reveal_strlit(",");
        assert(!is_blank(","@)) by {
            assert(!text::is_white(","@[0]));
        }
        assert(shows_count(n as nat, in_thousands(n as nat, ","@)));
        if let Some(s) = shown {
            law_small_numbers_are_not_grouped(n as nat, s.0@);
            if !is_blank(s.0@) {
                assert(in_thousands(n as nat, s.0@) == in_thousands(n as nat, s.0@));
                assert(shows_count(n as nat, s.1@));
            }
        }
    }
    out
}

/// A number below a thousand has no groups.
pub proof fn law_small_numbers_are_not_grouped(n: nat, sep: Seq<char>)
    ensures
        n < 1000 ==> in_thousands(n, sep) == text::decimal(n) && in_lakhs(n, sep) == text::decimal(
            n,
        ),
{
    if n < 1000 {
        reveal_with_fuel(text::decimal, 4);
        assert(text::decimal(n).len() <= 3);
    }
}

// ---- messages --------------------------------------------------------------------

/// How many files: `1 file`, `2 files`.
pub open spec fn file_part(files: nat, shown: Seq<char>) -> Seq<char> {
    shown + " file"@ + (if files == 1 {
        ""@
    } else {
        "s"@
    })
}

/// How many directories: `1 directory`, `2 directories`.
pub open spec fn dir_part(dirs: nat, shown: Seq<char>) -> Seq<char> {
    shown + " director"@ + (if dirs == 1 {
        "y"@
    } else {
        "ies"@
    })
}

/// What was renamed, or would be, given the numbers as they are shown.
pub open spec fn summary_text(
    files: nat,
    dirs: nat,
    dry: bool,
    files_shown: Seq<char>,
    dirs_shown: Seq<char>,
    none_shown: Seq<char>,
) -> Seq<char> {
    let body = if files > 0 && dirs > 0 {
        file_part(files, files_shown) + " and "@ + dir_part(dirs, dirs_shown)
    } else if files > 0 {
        file_part(files, files_shown)
    } else if dirs > 0 {
        dir_part(dirs, dirs_shown)
    } else {
        none_shown + " items"@
    };
    (if dry {
        "Would rename"@
    } else {
        "Renamed"@
    }) + " "@ + body
}

/// Whether a summary was made with the given way of showing numbers.
pub open spec fn summarizes<F: Fn(usize) -> String>(
    out: Seq<char>,
    files: usize,
    dirs: usize,
    dry: bool,
    format_count: F,
) -> bool {
    exists|f: String, d: String, z: String|
        #![trigger summary_text(files as nat, dirs as nat, dry, f@, d@, z@)]
        {
            &&& files > 0 ==> call_ensures(format_count, (files,), f)
            &&& dirs > 0 ==> call_ensures(format_count, (dirs,), d)
            &&& files == 0 && dirs == 0 ==> call_ensures(format_count, (0usize,), z)
            &&& out == summary_text(files as nat, dirs as nat, dry, f@, d@, z@)
        }
}

/// What was renamed, or would be: `format_count` shows the numbers.
pub fn summary_message_with_formatter<F: Fn(usize) -> String>(
    files: usize,
    dirs: usize,
    dry: bool,
    format_count: F,
) -> (out: String)
    requires
        forall|n: usize| call_requires(format_count, (n,)),
    ensures
        summarizes(out@, files, dirs, dry, format_count),
{
    let mut out = if dry {
        "Would rename".to_string()
    } else {
        "Renamed".to_string()
    };
    out.push_str(" ");
    let ghost head = out@;
    let ghost mut f: String = arbitrary();
    let ghost mut d: String = arbitrary();
    let ghost mut z: String = arbitrary();
    if files > 0 {
        let shown = format_count(files);
        proof {
            f = shown;
        }
        out.push_str(shown.as_str());
        out.push_str(" file");
        out.push_str(
            if files == 1 {
                ""
            } else {
                "s"
            },
        );
        assert(out@ == head + file_part(files as nat, f@));
    }
    if files > 0 && dirs > 0 {
        out.push_str(" and ");
    }
    if dirs > 0 {
        let shown = format_count(dirs);
        proof {
            d = shown;
        }
        out.push_str(shown.as_str());
        out.push_str(" director");
        out.push_str(
            if dirs == 1 {
                "y"
            } else {
                "ies"
            },
        );
    }
    if files == 0 && dirs == 0 {
        let shown = format_count(0);
        proof {
            z = shown;
        }
        out.push_str(shown.as_str());
        out.push_str(" items");
    }
    assert(out@ == summary_text(files as nat, dirs as nat, dry, f@, d@, z@));
    out
}

/// Whether a text is a summary, with the numbers as some locale has them.
pub open spec fn is_summary(out: Seq<char>, files: nat, dirs: nat, dry: bool) -> bool {
    exists|f: Seq<char>, d: Seq<char>, z: Seq<char>|
        shows_count(files, f) && shows_count(dirs, d) && shows_count(0, z) && out
            == #[trigger] summary_text(files, dirs, dry, f, d, z)
}

/// What was renamed, or would be, with the numbers as the machine's locale has
/// them.
pub fn summary_message(files: usize, dirs: usize, dry: bool) -> (out: String)
    ensures
        is_summary(out@, files as nat, dirs as nat, dry),
        files < 1000 && dirs < 1000 ==> out@ == summary_text(
            files as nat,
            dirs as nat,
            dry,
            text::decimal(files as nat),
            text::decimal(dirs as nat),
            text::decimal(0),
        ),
{
    let out = summary_message_with_formatter(files, dirs, dry, with_commas);
    proof {
        let (f, d, z) = choose|f: String, d: String, z: String|
            #![trigger summary_text(files as nat, dirs as nat, dry, f@, d@, z@)]
            {
                &&& files > 0 ==> call_ensures(with_commas, (files,), f)
                &&& dirs > 0 ==> call_ensures(with_commas, (dirs,), d)
                &&& files == 0 && dirs == 0 ==> call_ensures(with_commas, (0usize,), z)
                &&& out@ == summary_text(files as nat, dirs as nat, dry, f@, d@, z@)
            };
        let a = if files > 0 {
            f@
        } else {
            text::decimal(0)
        };
        let b = if dirs > 0 {
            d@
        } else {
            text::decimal(0)
        };
        let c = if files == 0 && dirs == 0 {
            z@
        } else {
            text::decimal(0)
        };
        assert(out@ == summary_text(files as nat, dirs as nat, dry, a, b, c));
    }
    out
}

/// How many of the entries are directories.
pub open spec fn dirs_among(is_dir: Seq<bool>) -> nat
    decreases is_dir.len(),
{
    if is_dir.len() == 0 {
        0
    } else {
        dirs_among(is_dir.drop_last()) + (if is_dir.last() {
            1nat
        } else {
            0
        })
    }
}

/// How many of the entries are files, and how many are directories. Whatever is
/// not a directory counts as a file.
pub fn count_files_and_dirs(is_dir: &[bool]) -> (out: (usize, usize))
    ensures
        out.1 == dirs_among(is_dir@),
        out.0 + out.1 == is_dir@.len(),
{
    let mut files: usize = 0;
    let mut dirs: usize = 0;
    for i in 0..is_dir.len()
        invariant
            dirs == dirs_among(is_dir@.take(i as int)),
            files + dirs == i,
    {
        assert(is_dir@.take(i + 1).drop_last() == is_dir@.take(i as int));
        if is_dir[i] {
            dirs = dirs + 1;
        } else {
            files = files + 1;
        }
    }
    assert(is_dir@.take(is_dir@.len() as int) == is_dir@);
    (files, dirs)
}

// ---- lines -----------------------------------------------------------------------

/// The line for a rename, in color or not.
pub open spec fn row(e: Planned, color: bool) -> Seq<char> {
    let old = diff::displayed(e.old);
    let new = diff::displayed(e.new);
    if color {
        diff::colored_line(old, new)
    } else {
        old + " \u{2192} "@ + new
    }
}

/// The lines for the entries of a plan.
pub fn plan_rows(plan: &[PlanEntry], color: bool) -> (rows: Vec<String>)
    ensures
        text::views(rows@) == rename::planned(plan@).map_values(|e: Planned| row(e, color)),
{
    let mut rows: Vec<String> = Vec::new();
    let ghost all = rename::planned(plan@).map_values(|e: Planned| row(e, color));
    for i in 0..plan.len()
        invariant
            all == rename::planned(plan@).map_values(|e: Planned| row(e, color)),
            text::views(rows@) == all.take(i as int),
    {
        let old = diff::display_path(&plan[i].old);
        let new = diff::display_path(&plan[i].new);
        let line = if color {
            diff::colorized_rename_line(old.as_str(), new.as_str())
        } else {
            let mut line = old;
            line.push_str(" \u{2192} ");
            line.push_str(new.as_str());
            line
        };
        let ghost before = text::views(rows@);
        assert(line@ == row(plan@[i as int]@, color));
        rows.push(line);
        assert(text::views(rows@) == before.push(row(plan@[i as int]@, color)));
    }
    assert(all.take(all.len() as int) == all);
    rows
}

/// A summary as it stands below the lines: bold and in color, or plain.
pub open spec fn footer(message: Seq<char>, dry: bool, color: bool) -> Seq<char> {
    if color {
        "\n\x1b[1m"@ + (if dry {
            "\x1b[33m"@
        } else {
            "\x1b[32m"@
        }) + message + "\x1b[m"@
    } else {
        "\n"@ + message
    }
}

/// The summary as it stands below the lines.
pub fn summary_footer(message: &str, dry: bool, color: bool) -> (out: String)
    ensures
        out@ == footer(message@, dry, color),
{
    if color {
        let mut out = "\n\x1b[1m".to_string();
        out.push_str(
            if dry {
                "\x1b[33m"
            } else {
                "\x1b[32m"
            },
        );
        out.push_str(message);
        out.push_str("\x1b[m");
        out
    } else {
        let mut out = "\n".to_string();
        out.push_str(message);
        out
    }
}

// ---- laws on words and numbers ------------------------------------------------------

/// The last three digits of a number of a thousand or more are a group of their own,
/// and what comes before them is grouped as the thousands are.
pub proof fn law_thousands_are_grouped(n: nat, sep: Seq<char>)
    ensures
        n < 1000 ==> in_thousands(n, sep) == text::decimal(n),
        n >= 1000 ==> in_thousands(n, sep) == in_thousands(n / 1000, sep) + sep
            + text::zero_filled(text::decimal(n % 1000), 3),
{
    law_small_numbers_are_not_grouped(n, sep);
    if n >= 1000 {
        lemma_thousands(n);
        let digits = text::decimal(n);
        assert(digits.take(digits.len() - 3) =~= text::decimal(n / 1000));
        assert(digits.skip(digits.len() - 3) =~= text::zero_filled(text::decimal(n % 1000), 3));
    }
}

proof fn lemma_three_digits(r: nat)
    requires
        r < 1000,
    ensures
        text::zero_filled(text::decimal(r), 3) == seq![
            text::digit(r / 100),
            text::digit(r / 10 % 10),
            text::digit(r % 10),
        ],
{
    let shown = text::zero_filled(text::decimal(r), 3);
    let wanted = seq![text::digit(r / 100), text::digit(r / 10 % 10), text::digit(r % 10)];
    assert(text::digit(0) == '0');
    if r < 10 {
        assert(text::decimal(r) == seq![text::digit(r)]);
        assert(r / 100 == 0 && r / 10 == 0 && r % 10 == r);
        assert(shown =~= wanted);
    } else if r < 100 {
        assert(text::decimal(r / 10) == seq![text::digit(r / 10)]);
        assert(text::decimal(r) == seq![text::digit(r / 10)].push(text::digit(r % 10)));
        assert(r / 100 == 0 && r / 10 % 10 == r / 10);
        assert(shown =~= wanted);
    } else {
        assert(r / 10 / 10 == r / 100);
        assert(text::decimal(r / 100) == seq![text::digit(r / 100)]);
        assert(text::decimal(r / 10) == text::decimal(r / 10 / 10).push(
            text::digit(r / 10 % 10),
        ));
        assert(text::decimal(r) == text::decimal(r / 10).push(text::digit(r % 10)));
        assert(shown =~= wanted);
    }
}

proof fn lemma_thousands(n: nat)
    requires
        n >= 1000,
    ensures
        text::decimal(n) == text::decimal(n / 1000) + text::zero_filled(
            text::decimal(n % 1000),
            3,
        ),
        text::zero_filled(text::decimal(n % 1000), 3).len() == 3,
{
    let r = n % 1000;
    lemma_three_digits(r);
    assert(n / 10 / 10 == n / 100 && n / 100 / 10 == n / 1000);
    assert(r / 100 == n / 100 % 10 && r / 10 % 10 == n / 10 % 10 && r % 10 == n % 10);
    assert(text::decimal(n / 100) == text::decimal(n / 1000).push(text::digit(n / 100 % 10)));
    assert(text::decimal(n / 10) == text::decimal(n / 100).push(text::digit(n / 10 % 10)));
    assert(text::decimal(n) == text::decimal(n / 10).push(text::digit(n % 10)));
    assert(text::decimal(n) =~= text::decimal(n / 1000) + text::zero_filled(text::decimal(r), 3));
}

/// A summary says what was renamed, or would be: files, directories, both, or no
/// items at all, each in the singular if it is one.
pub proof fn law_summaries_tell_files_and_directories(
    files: nat,
    dirs: nat,
    f: Seq<char>,
    d: Seq<char>,
    z: Seq<char>,
)
    ensures
        summary_text(0, 0, false, f, d, z) == "Renamed"@ + " "@ + (z + " items"@),
        files == 1 ==> file_part(files, f) == f + " file"@ + ""@,
        files != 1 ==> file_part(files, f) == f + " file"@ + "s"@,
        dirs == 1 ==> dir_part(dirs, d) == d + " director"@ + "y"@,
        dirs != 1 ==> dir_part(dirs, d) == d + " director"@ + "ies"@,
        files > 0 ==> summary_text(files, 0, false, f, d, z) == "Renamed"@ + " "@ + file_part(
            files,
            f,
        ),
        dirs > 0 ==> summary_text(0, dirs, false, f, d, z) == "Renamed"@ + " "@ + dir_part(dirs, d),
        files > 0 && dirs > 0 ==> summary_text(files, dirs, false, f, d, z) == "Renamed"@ + " "@ + (
        file_part(files, f) + " and "@ + dir_part(dirs, d)),
        files > 0 && dirs > 0 ==> summary_text(files, dirs, true, f, d, z) == "Would rename"@ + " "@
            + (file_part(files, f) + " and "@ + dir_part(dirs, d)),
        files > 0 ==> summary_text(files, 0, true, f, d, z) == "Would rename"@ + " "@ + file_part(
            files,
            f,
        ),
        dirs > 0 ==> summary_text(0, dirs, true, f, d, z) == "Would rename"@ + " "@ + dir_part(
            dirs,
            d,
        ),
        summary_text(0, 0, true, f, d, z) == "Would rename"@ + " "@ + (z + " items"@),
{
}

/// As many directories are counted as there are.
pub proof fn law_directories_are_counted(is_dir: Seq<bool>)
    ensures
        dirs_among(is_dir) == is_dir.filter(|b: bool| b).len(),
    decreases is_dir.len(),
{
    reveal(Seq::filter);
    if is_dir.len() > 0 {
        law_directories_are_counted(is_dir.drop_last());
    }
}

/// A row has the old path, an arrow and the new one, and a footer the message on a line
/// of its own, both in color only if that is wanted.
pub proof fn law_rows_and_footers(e: Planned, message: Seq<char>, dry: bool)
    ensures
        row(e, false) == diff::displayed(e.old) + " \u{2192} "@ + diff::displayed(e.new),
        row(e, true) == diff::colored_line(diff::displayed(e.old), diff::displayed(e.new)),
        footer(message, dry, false) == "\n"@ + message,
        footer(message, true, true) == "\n\x1b[1m"@ + "\x1b[33m"@ + message + "\x1b[m"@,
        footer(message, false, true) == "\n\x1b[1m"@ + "\x1b[32m"@ + message + "\x1b[m"@,
{
}

/// The locale has its way with a number unless it cannot be read or its separator is
/// blank: then there are commas.
pub proof fn law_commas_stand_in(n: nat, separator: Seq<char>, shown: Seq<char>)
    ensures
        localized(n, None) == in_thousands(n, ","@),
        (forall|i: int| 0 <= i < separator.len() ==> text::is_white(#[trigger] separator[i]))
            ==> localized(n, Some((separator, shown))) == in_thousands(n, ","@),
        (exists|i: int| 0 <= i < separator.len() && !text::is_white(#[trigger] separator[i]))
            ==> localized(n, Some((separator, shown))) == shown,
{
}

} // verus!
