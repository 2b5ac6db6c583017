use ren::diff::{
    colorized_rename_line, diff_chars, display_path, render_diff_side, DiffOp,
};
use ren::help::{apply_styles, help_text};
use ren::path::PathName;
use ren::rename::PlanEntry;
use ren::summary::{
    choose_count, count_files_and_dirs, format_count, has_ambiguous_digit_group_separator,
    plan_rows, summary_footer, summary_message, summary_message_with_formatter, with_commas,
};

fn path(text: &str) -> PathName {
    PathName::from_text(text)
}

// ---- paths ---------------------------------------------------------------------

#[test]
fn test_display_path_strips_leading_dot_slash() {
    assert_eq!(display_path(&path("./src/main.rs")), "src/main.rs");
}

#[test]
fn test_display_path_preserves_plain_path() {
    assert_eq!(display_path(&path("src/main.rs")), "src/main.rs");
    assert_eq!(display_path(&path("/abs/path")), "/abs/path");
}

#[test]
fn only_one_leading_dot_slash_is_stripped() {
    assert_eq!(display_path(&path("././a")), "./a");
    assert_eq!(display_path(&path("../a")), "../a");
    assert_eq!(display_path(&path("./")), "");
}

// ---- differences ---------------------------------------------------------------

#[test]
fn test_colorized_rename_line_highlights_only_changed_slice() {
    assert_eq!(
        colorized_rename_line("Cargo.lock", "Cbrgo.lock"),
        "C\x1b[31ma\x1b[mrgo.lock \x1b[2m→\x1b[m C\x1b[32mb\x1b[mrgo.lock"
    );
}

#[test]
fn test_colorized_rename_line_handles_lowercase_transform() {
    assert_eq!(
        colorized_rename_line("Cargo.lock", "cargo.lock"),
        "\x1b[31mC\x1b[margo.lock \x1b[2m→\x1b[m \x1b[32mc\x1b[margo.lock"
    );
}

#[test]
fn test_colorized_rename_line_handles_counter_transform() {
    assert_eq!(
        colorized_rename_line("Cargo.lock", "01_Cargo.lock"),
        "Cargo.lock \x1b[2m→\x1b[m \x1b[32m01_\x1b[mCargo.lock"
    );
}

#[test]
fn test_colorized_rename_line_handles_multiple_regex_replacements() {
    assert_eq!(
        colorized_rename_line("Cargo.lock", "Cbrgb.lbck"),
        "C\x1b[31ma\x1b[mrg\x1b[31mo\x1b[m.l\x1b[31mo\x1b[mck \x1b[2m→\x1b[m C\x1b[32mb\x1b[mrg\x1b[32mb\x1b[m.l\x1b[32mb\x1b[mck"
    );
}

fn old_side(ops: &[DiffOp]) -> String {
    ops.iter()
        .filter_map(|op| match op {
            DiffOp::Same(c) | DiffOp::Old(c) => Some(*c),
            DiffOp::New(_) => None,
        })
        .collect()
}

fn new_side(ops: &[DiffOp]) -> String {
    ops.iter()
        .filter_map(|op| match op {
            DiffOp::Same(c) | DiffOp::New(c) => Some(*c),
            DiffOp::Old(_) => None,
        })
        .collect()
}

#[test]
fn steps_have_the_texts_on_their_sides() {
    let words = ["", "a", "abc", "acb", "xaby", "日本語", "本日", "aaa"];
    for a in words {
        for b in words {
            let ops = diff_chars(a, b);
            assert_eq!(old_side(&ops), a);
            assert_eq!(new_side(&ops), b);
        }
    }
}

#[test]
fn steps_keep_the_most() {
    let kept = |a: &str, b: &str| {
        diff_chars(a, b)
            .iter()
            .filter(|op| matches!(op, DiffOp::Same(_)))
            .count()
    };
    assert_eq!(kept("abcbdab", "bdcaba"), 4);
    assert_eq!(kept("abc", "abc"), 3);
    assert_eq!(kept("abc", "xyz"), 0);
}

#[test]
fn steps_are_chosen_from_the_end() {
    assert_eq!(
        diff_chars("ab", "ba"),
        vec![DiffOp::New('b'), DiffOp::Same('a'), DiffOp::Old('b')]
    );
    assert_eq!(
        diff_chars("a", "b"),
        vec![DiffOp::New('b'), DiffOp::Old('a')]
    );
}

#[test]
fn colors_are_switched_off_at_the_end() {
    let ops = diff_chars("ab", "abc");
    assert_eq!(render_diff_side(&ops, true, "<"), "ab");
    assert_eq!(render_diff_side(&ops, false, "<"), "ab<c\x1b[m");
    let same = diff_chars("ab", "ab");
    assert_eq!(render_diff_side(&same, false, "<"), "ab");
}

// ---- numbers -------------------------------------------------------------------

#[test]
fn test_summary_message_singular_renamed() {
    assert_eq!(summary_message(1, 0, false), "Renamed 1 file");
    assert_eq!(summary_message(0, 1, false), "Renamed 1 directory");
}

#[test]
fn test_summary_message_plural_renamed() {
    assert_eq!(summary_message(5, 0, false), "Renamed 5 files");
    assert_eq!(summary_message(0, 3, false), "Renamed 3 directories");
}

#[test]
fn test_summary_message_dry_run_uses_would_rename() {
    assert_eq!(summary_message(1, 0, true), "Would rename 1 file");
    assert_eq!(summary_message(7, 0, true), "Would rename 7 files");
    assert_eq!(summary_message(0, 1, true), "Would rename 1 directory");
    assert_eq!(summary_message(0, 4, true), "Would rename 4 directories");
}

#[test]
fn test_summary_message_combines_files_and_dirs() {
    assert_eq!(
        summary_message(9, 2, true),
        "Would rename 9 files and 2 directories"
    );
    assert_eq!(
        summary_message(1, 1, true),
        "Would rename 1 file and 1 directory"
    );
    assert_eq!(
        summary_message(2, 1, false),
        "Renamed 2 files and 1 directory"
    );
}

#[test]
fn test_summary_message_large_counts_use_thousands_separators() {
    assert_eq!(
        summary_message_with_formatter(1_000, 0, false, |n| format_count(n)),
        "Renamed 1,000 files"
    );
    assert_eq!(
        summary_message_with_formatter(2_500_000, 0, true, |n| format_count(n)),
        "Would rename 2,500,000 files"
    );
    assert_eq!(
        summary_message_with_formatter(1_000, 25, true, |n| format_count(n)),
        "Would rename 1,000 files and 25 directories"
    );
}

#[test]
fn test_format_count_uses_requested_locale() {
    assert_eq!(format_count(0), "0");
    assert_eq!(format_count(999), "999");
    assert_eq!(format_count(1_000), "1,000");
    assert_eq!(format_count(648_098), "648,098");
}

#[test]
fn test_has_ambiguous_digit_group_separator() {
    assert!(!has_ambiguous_digit_group_separator(","));
    assert!(has_ambiguous_digit_group_separator(" "));
    assert!(has_ambiguous_digit_group_separator("\u{00a0}"));
}

#[test]
fn test_with_commas_preserves_small_values_without_grouping() {
    assert_eq!(with_commas(0), "0");
    assert_eq!(with_commas(7), "7");
    assert_eq!(with_commas(999), "999");
}

#[test]
fn a_number_keeps_its_digits_in_any_locale() {
    let digits: String = with_commas(1_234_567)
        .chars()
        .filter(|c| c.is_ascii_digit())
        .collect();
    assert_eq!(digits, "1234567");
}

#[test]
fn a_locale_with_a_blank_separator_is_not_used() {
    let by_system = |sep: &str, shown: &str| Some((sep.to_string(), shown.to_string()));
    assert_eq!(choose_count(1234, None), "1,234");
    assert_eq!(choose_count(1234, by_system(".", "1.234")), "1.234");
    assert_eq!(choose_count(1234, by_system("\u{202f}", "1\u{202f}234")), "1,234");
    assert_eq!(choose_count(1234, by_system("", "1234")), "1,234");
}

#[test]
fn the_largest_number_is_grouped() {
    assert_eq!(format_count(u64::MAX as usize), "18,446,744,073,709,551,615");
    assert_eq!(summary_message(0, 0, false), "Renamed 0 items");
}

#[test]
fn directories_are_counted() {
    assert_eq!(count_files_and_dirs(&[]), (0, 0));
    assert_eq!(count_files_and_dirs(&[true, false, false]), (2, 1));
}

// ---- lines ---------------------------------------------------------------------

#[test]
fn rows_show_the_renames() {
    let plan = [PlanEntry {
        old: path("./a.txt"),
        new: path("./b.txt"),
        depth: 1,
    }];
    assert_eq!(plan_rows(&plan, false), vec!["a.txt → b.txt"]);
    assert_eq!(
        plan_rows(&plan, true),
        vec![colorized_rename_line("a.txt", "b.txt")]
    );
}

#[test]
fn the_footer_is_yellow_for_a_dry_run() {
    assert_eq!(summary_footer("m", true, false), "\nm");
    assert_eq!(summary_footer("m", true, true), "\n\x1b[1m\x1b[33mm\x1b[m");
    assert_eq!(summary_footer("m", false, true), "\n\x1b[1m\x1b[32mm\x1b[m");
}

// ---- help ----------------------------------------------------------------------

#[test]
fn short_help_short_circuits_with_usage() {
    let help = help_text(false, false);
    assert!(help.contains("Usage"));
    assert!(help.contains("--preview"));
    assert!(!help.contains("Examples"));
}

#[test]
fn long_help_short_circuits_with_examples() {
    let help = help_text(true, false);
    assert!(help.contains("Usage"));
    assert!(help.contains("Examples"));
}

#[test]
fn help_has_no_styles_left_in_it() {
    let plain = help_text(true, false);
    assert!(!plain.contains('\x1b'));
    assert!(!plain.contains("{bold}"));
    assert!(plain.contains("$ ren --prepend '{N}_'\n"));
    assert!(plain.starts_with("Usage\n\n  ren [options] <find> <replace> [<path>…]\n"));
    let colored = help_text(false, true);
    assert!(colored.starts_with("\x1b[33m\x1b[1mUsage\x1b[m\n"));
}

#[test]
fn every_style_has_its_code() {
    let all = "{bold}{dim}{red}{green}{yellow}{blue}{magenta}{grey}{reset}";
    assert_eq!(
        apply_styles(all, true),
        "\x1b[1m\x1b[2m\x1b[31m\x1b[32m\x1b[33m\x1b[34m\x1b[35m\x1b[38;5;248m\x1b[m"
    );
    assert_eq!(apply_styles(all, false), "");
    assert_eq!(apply_styles("{N} {bold", false), "{N} {bold");
    assert_eq!(apply_styles("plain → text", true), "plain → text");
}
