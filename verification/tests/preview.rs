use ren::path::PathName;
use ren::preview::{
    common_prefix_suffix, decide, header, inline_diff, interpret, Choice, Key, PreviewPatcher,
    Response,
};
use ren::rename::PlanEntry;

fn path(text: &str) -> PathName {
    PathName::from_text(text)
}

fn plan(count: usize) -> Vec<PlanEntry> {
    (0..count)
        .map(|i| PlanEntry {
            old: path(&format!("old{i}")),
            new: path(&format!("new{i}")),
            depth: 1,
        })
        .collect()
}

fn olds(entries: &[PlanEntry]) -> Vec<String> {
    entries.iter().map(|e| e.old.to_text_lossy()).collect()
}

/// Walks through a plan with the given choices.
fn walk(count: usize, choices: &[Choice]) -> PreviewPatcher {
    let mut patcher = PreviewPatcher::new(count);
    for choice in choices {
        patcher = patcher.answer(*choice);
    }
    patcher
}

// ---- decisions -----------------------------------------------------------------

#[test]
fn decide_y_pushes_accept_and_returns_idx() {
    let mut decisions = Vec::new();
    let new_idx = decide(&mut decisions, 3, 'y');
    assert_eq!(new_idx, 3);
    assert_eq!(decisions, vec![(3, true)]);
}

#[test]
fn decide_n_pushes_reject() {
    let mut decisions = Vec::new();
    let new_idx = decide(&mut decisions, 2, 'n');
    assert_eq!(new_idx, 2);
    assert_eq!(decisions, vec![(2, false)]);
}

#[test]
fn decide_capital_a_pushes_accept() {
    let mut decisions = Vec::new();
    let new_idx = decide(&mut decisions, 0, 'A');
    assert_eq!(new_idx, 0);
    assert_eq!(decisions, vec![(0, true)]);
}

#[test]
fn decide_forward_arrow_is_reject() {
    let mut decisions = Vec::new();
    let new_idx = decide(&mut decisions, 4, '>');
    assert_eq!(new_idx, 4);
    assert_eq!(decisions, vec![(4, false)]);
}

#[test]
fn decide_back_arrow_pops_and_decrements() {
    let mut decisions = vec![(0, true), (1, false)];
    let new_idx = decide(&mut decisions, 2, '<');
    assert_eq!(new_idx, 1);
    assert_eq!(decisions, vec![(0, true)]);
}

#[test]
fn decide_back_arrow_on_empty_stack_returns_zero_and_keeps_stack() {
    let mut decisions: Vec<(usize, bool)> = Vec::new();
    let new_idx = decide(&mut decisions, 0, '<');
    assert_eq!(new_idx, 0);
    assert!(decisions.is_empty());
}

#[test]
fn decide_sequence_y_n_y_back_y_capital_a_n_back_y() {
    let mut decisions: Vec<(usize, bool)> = Vec::new();
    let mut idx = 0;

    decide(&mut decisions, idx, 'y');
    idx += 1;
    decide(&mut decisions, idx, 'n');
    idx += 1;
    decide(&mut decisions, idx, 'y');
    idx += 1;
    idx = decide(&mut decisions, idx, '<');
    decide(&mut decisions, idx, 'y');
    idx += 1;
    decide(&mut decisions, idx, 'A');
    idx += 1;
    decide(&mut decisions, idx, 'n');
    idx += 1;
    idx = decide(&mut decisions, idx, '<');
    decide(&mut decisions, idx, 'y');
    idx += 1;

    assert_eq!(idx, 5);
    assert_eq!(
        decisions,
        vec![(0, true), (1, false), (2, true), (3, true), (4, true)],
    );
}

#[test]
fn accepted_subset_filter_matches_decision_stack() {
    let plan = [
        PlanEntry {
            old: path("a"),
            new: path("A"),
            depth: 1,
        },
        PlanEntry {
            old: path("b"),
            new: path("B"),
            depth: 1,
        },
        PlanEntry {
            old: path("c"),
            new: path("C"),
            depth: 1,
        },
        PlanEntry {
            old: path("d"),
            new: path("D"),
            depth: 1,
        },
    ];
    let patcher = walk(
        4,
        &[Choice::Accept, Choice::Reject, Choice::Accept, Choice::Reject],
    );
    let accepted = patcher.accepted(&plan);

    assert_eq!(accepted.len(), 2);
    assert_eq!(accepted[0].old, path("a"));
    assert_eq!(accepted[1].old, path("c"));
}

#[test]
fn an_unknown_action_changes_nothing() {
    let mut decisions = vec![(0, true)];
    assert_eq!(decide(&mut decisions, 1, 'x'), 1);
    assert_eq!(decisions, vec![(0, true)]);
}

#[test]
fn going_back_from_the_first_entry_stays_there() {
    let mut decisions = vec![(0, true)];
    assert_eq!(decide(&mut decisions, 0, '<'), 0);
    assert!(decisions.is_empty());
}

// ---- walks ---------------------------------------------------------------------

#[test]
fn entries_are_asked_about_in_order() {
    let patcher = PreviewPatcher::new(2);
    assert_eq!(patcher.asks(), Some(0));
    let patcher = patcher.answer(Choice::Accept);
    assert_eq!(patcher.asks(), Some(1));
    let patcher = patcher.answer(Choice::Skip);
    assert_eq!(patcher.asks(), None);
    assert_eq!(olds(&patcher.accepted(&plan(2))), vec!["old0"]);
    assert_eq!(PreviewPatcher::new(0).asks(), None);
}

#[test]
fn going_back_revises_the_decision_before() {
    let patcher = walk(3, &[Choice::Accept, Choice::Accept, Choice::Back]);
    assert_eq!(patcher.asks(), Some(1));
    let patcher = patcher.answer(Choice::Reject).answer(Choice::Accept);
    assert_eq!(olds(&patcher.accepted(&plan(3))), vec!["old0", "old2"]);
    assert_eq!(walk(3, &[Choice::Back]).asks(), Some(0));
}

#[test]
fn accepting_all_ends_the_questions() {
    let patcher = walk(4, &[Choice::Reject, Choice::AcceptAll]);
    assert_eq!(patcher.asks(), None);
    assert_eq!(olds(&patcher.accepted(&plan(4))), vec!["old1", "old2", "old3"]);
}

#[test]
fn quitting_keeps_what_was_accepted() {
    let patcher = walk(4, &[Choice::Accept, Choice::Reject, Choice::Quit, Choice::AcceptAll]);
    assert_eq!(patcher.asks(), None);
    assert_eq!(olds(&patcher.accepted(&plan(4))), vec!["old0"]);
}

#[test]
fn the_header_counts_from_one() {
    assert_eq!(header(0, 3), "Rename [1/3]");
    assert_eq!(header(9, 10), "Rename [10/10]");
}

// ---- keys ----------------------------------------------------------------------

#[test]
fn letters_choose() {
    let key = |c| Key::Char { c, control: false };
    assert_eq!(interpret(key('y'), true, true), Response::Chosen(Choice::Accept));
    assert_eq!(interpret(key('n'), true, true), Response::Chosen(Choice::Reject));
    assert_eq!(interpret(key('A'), true, true), Response::Chosen(Choice::AcceptAll));
    assert_eq!(interpret(key('q'), true, true), Response::Chosen(Choice::Quit));
    assert_eq!(interpret(key('a'), true, true), Response::Ignored);
    assert_eq!(interpret(key('c'), true, true), Response::Ignored);
}

#[test]
fn arrows_stop_at_the_ends() {
    assert_eq!(interpret(Key::Left, false, true), Response::Chosen(Choice::Back));
    assert_eq!(interpret(Key::Left, true, true), Response::Ignored);
    assert_eq!(interpret(Key::Right, true, false), Response::Chosen(Choice::Skip));
    assert_eq!(interpret(Key::Right, true, true), Response::Ignored);
    assert_eq!(interpret(Key::Enter, true, true), Response::Chosen(Choice::Accept));
    assert_eq!(interpret(Key::Other, false, false), Response::Ignored);
    let interrupt = Key::Char {
        c: 'c',
        control: true,
    };
    assert_eq!(interpret(interrupt, false, false), Response::Interrupt);
}

// ---- what an entry looks like --------------------------------------------------

#[test]
fn common_prefix_suffix_test_to_spec() {
    let (p, s) = common_prefix_suffix("test_foo.rs", "spec_foo.rs");
    assert_eq!(p, 0, "no common prefix");
    assert_eq!(s, "_foo.rs".len(), "suffix is _foo.rs");
}

#[test]
fn common_prefix_suffix_shared_prefix_and_extension() {
    let (p, s) = common_prefix_suffix("foo_old.txt", "foo_new.txt");
    assert_eq!(p, "foo_".len());
    assert_eq!(s, ".txt".len());
}

#[test]
fn common_prefix_suffix_identical_strings() {
    let (p, s) = common_prefix_suffix("foo.rs", "foo.rs");
    assert_eq!(p, "foo.rs".len());
    assert_eq!(s, 0);
}

#[test]
fn common_prefix_suffix_handles_multibyte_chars() {
    let (p, s) = common_prefix_suffix("café_a.rs", "café_b.rs");
    assert_eq!(p, "café_".len());
    assert_eq!(s, ".rs".len());
}

#[test]
fn common_prefix_suffix_empty_strings() {
    let (p, s) = common_prefix_suffix("", "");
    assert_eq!(p, 0);
    assert_eq!(s, 0);
}

#[test]
fn common_prefix_suffix_no_overlap() {
    let (p, s) = common_prefix_suffix("abc", "xyz");
    assert_eq!(p, 0);
    assert_eq!(s, 0);
}

#[test]
fn prefix_and_suffix_do_not_overlap() {
    assert_eq!(common_prefix_suffix("aa", "aaa"), (2, 0));
    assert_eq!(common_prefix_suffix("aba", "aa"), (1, 1));
}

#[test]
fn the_parts_of_a_rename_make_up_both_names() {
    let diff = inline_diff(&path("./dir/foo_old.txt"), &path("./dir/foo_new.txt"));
    assert_eq!(diff.parent.as_deref(), Some("dir"));
    assert_eq!(diff.prefix, "foo_");
    assert_eq!(diff.old_changed, "old");
    assert_eq!(diff.new_changed, "new");
    assert_eq!(diff.suffix, ".txt");
    assert_eq!(
        format!("{}{}{}", diff.prefix, diff.new_changed, diff.suffix),
        "foo_new.txt"
    );
    assert!(inline_diff(&path("a"), &path("b")).parent.is_none());
    assert_eq!(inline_diff(&path("./a"), &path("./b")).parent.as_deref(), Some("."));
    assert_eq!(inline_diff(&path("/a"), &path("/b")).parent.as_deref(), Some("/"));
}
