use std::collections::BTreeMap;

use ren::apply::{group_by_depth, make_temp_path, Action, Applier, Event};
use ren::conflicts::validate_plan;
use ren::expressions::{compile_expressions, CompileOptions};
use ren::path::PathName;
use ren::rename::{build_plan, PlanEntry};
use ren::scan::PathRecord;
use ren::transforms::TransformOptions;

fn path(text: &str) -> PathName {
    PathName::from_text(text)
}

fn entry(old: &str, new: &str, depth: usize) -> PlanEntry {
    PlanEntry {
        old: path(old),
        new: path(new),
        depth,
    }
}

/// Files by their paths, in memory.
struct Files {
    contents: BTreeMap<String, String>,
    renames: usize,
    refuse: Vec<(usize, bool)>,
    log: Vec<String>,
}

impl Files {
    fn new(files: &[(&str, &str)]) -> Files {
        Files {
            contents: files
                .iter()
                .map(|(p, c)| (p.to_string(), c.to_string()))
                .collect(),
            renames: 0,
            refuse: Vec::new(),
            log: Vec::new(),
        }
    }

    /// Refuses the rename with the given number, counted from one.
    fn refusing(mut self, number: usize, already_exists: bool) -> Files {
        self.refuse.push((number, already_exists));
        self
    }

    fn has(&self, p: &str) -> bool {
        let below = format!("{p}/");
        self.contents
            .keys()
            .any(|k| k == p || k.starts_with(&below))
    }

    fn rename(&mut self, from: &str, to: &str) {
        let below = format!("{from}/");
        let moved: Vec<String> = self
            .contents
            .keys()
            .filter(|k| *k == from || k.starts_with(&below))
            .cloned()
            .collect();
        assert!(!moved.is_empty(), "{from} does not exist");
        for key in moved {
            let content = self.contents.remove(&key).unwrap();
            self.contents.insert(format!("{to}{}", &key[from.len()..]), content);
        }
    }

    fn list(&self) -> Vec<(&str, &str)> {
        self.contents
            .iter()
            .map(|(p, c)| (p.as_str(), c.as_str()))
            .collect()
    }
}

/// Carries out a plan: the failure in words, if there is one, and the warnings.
fn apply(plan: &Vec<PlanEntry>, files: &mut Files) -> (Result<(), String>, Vec<String>) {
    let mut run = Applier::new(plan, 77, 0);
    let mut warnings = Vec::new();
    loop {
        let event = match run.action() {
            Action::Probe { path } => Event::Probed {
                occupied: files.has(&path.to_text_lossy()),
            },
            Action::Rename { from, to } => {
                files.renames += 1;
                let number = files.renames;
                let (from, to) = (from.to_text_lossy(), to.to_text_lossy());
                files.log.push(format!("{from} -> {to}"));
                match files.refuse.iter().find(|(n, _)| *n == number) {
                    Some((_, already_exists)) => Event::Refused {
                        already_exists: *already_exists,
                        cause: "synthetic failure".to_string(),
                    },
                    None => {
                        files.rename(&from, &to);
                        Event::Renamed
                    }
                }
            }
            Action::Succeed => return (Ok(()), warnings),
            Action::Fail => {
                let failure = run.failure().unwrap();
                assert_eq!(failure.cause(), "synthetic failure");
                return (Err(failure.message()), warnings);
            }
        };
        warnings.extend(run.advance(event));
    }
}

fn occupied(plan: &[PlanEntry], files: &Files) -> Vec<bool> {
    plan.iter()
        .map(|e| files.has(&e.new.to_text_lossy()))
        .collect()
}

fn validated_and_applied(plan: &Vec<PlanEntry>, files: &mut Files) {
    if let Err(e) = validate_plan(plan, &occupied(plan, files)) {
        panic!("{}", e.message());
    }
    assert_eq!(apply(plan, files), (Ok(()), Vec::new()));
}

#[test]
fn simple_rename_end_to_end() {
    let opts = CompileOptions {
        regex: false,
        ignore_case: false,
        greedy: false,
        word_regexp: false,
        smart: false,
        expressions: Vec::new(),
        positional_find: Some("foo".into()),
        positional_replace: Some("bar".into()),
        list_files_find_only: false,
    };
    let exprs = match compile_expressions(&opts) {
        Ok(exprs) => exprs,
        Err(e) => panic!("{}", e.message()),
    };
    let mut files = Files::new(&[("tmp/foo.txt", "x")]);
    let records = vec![PathRecord {
        path: path("tmp/foo.txt"),
        root: path("tmp"),
    }];
    let plan = build_plan(&records, &exprs, false, &TransformOptions::default(), None);
    assert_eq!(plan.len(), 1);
    validated_and_applied(&plan, &mut files);
    assert_eq!(files.list(), vec![("tmp/bar.txt", "x")]);
}

#[test]
fn chain_a_to_b_b_to_c() {
    let mut files = Files::new(&[("tmp/a.txt", "A"), ("tmp/b.txt", "B")]);
    let plan = vec![
        entry("tmp/a.txt", "tmp/b.txt", 1),
        entry("tmp/b.txt", "tmp/c.txt", 1),
    ];
    validated_and_applied(&plan, &mut files);
    assert_eq!(files.list(), vec![("tmp/b.txt", "A"), ("tmp/c.txt", "B")]);
}

#[test]
fn cycle_a_to_b_b_to_a_swaps_contents() {
    let mut files = Files::new(&[("tmp/a.txt", "A"), ("tmp/b.txt", "B")]);
    let plan = vec![
        entry("tmp/a.txt", "tmp/b.txt", 1),
        entry("tmp/b.txt", "tmp/a.txt", 1),
    ];
    validated_and_applied(&plan, &mut files);
    assert_eq!(files.list(), vec![("tmp/a.txt", "B"), ("tmp/b.txt", "A")]);
}

#[test]
fn case_only_rename_observably_flips_dirent() {
    let mut files = Files::new(&[("d/tmp", "original")]);
    let plan = vec![entry("d/tmp", "d/TMP", 1)];
    validated_and_applied(&plan, &mut files);
    assert_eq!(files.list(), vec![("d/TMP", "original")]);
    assert_eq!(
        files.log,
        vec![
            "d/tmp -> d/tmp.ren-77-00000000",
            "d/tmp.ren-77-00000000 -> d/TMP",
        ]
    );
}

#[test]
fn include_dirs_depth_ordering_renames_inner_first() {
    let mut files = Files::new(&[("tmp/foo_dir/bar.txt", "B")]);
    let plan = vec![
        entry("tmp/foo_dir/bar.txt", "tmp/foo_dir/baz.txt", 2),
        entry("tmp/foo_dir", "tmp/qux_dir", 1),
    ];
    validated_and_applied(&plan, &mut files);
    assert_eq!(files.list(), vec![("tmp/qux_dir/baz.txt", "B")]);
}

#[test]
fn phase2_failure_triggers_per_depth_rollback() {
    let mut files = Files::new(&[("tmp/a.txt", "A"), ("tmp/b.txt", "B")]).refusing(4, false);
    let plan = vec![
        entry("tmp/a.txt", "tmp/a-new.txt", 1),
        entry("tmp/b.txt", "tmp/b-new.txt", 1),
    ];
    let (out, warnings) = apply(&plan, &mut files);
    assert!(out.unwrap_err().contains("apply_plan failed at depth 1"));
    assert!(warnings.is_empty());
    assert_eq!(files.list(), vec![("tmp/a.txt", "A"), ("tmp/b.txt", "B")]);
}

// ---- order ---------------------------------------------------------------------

#[test]
fn deeper_entries_go_first_and_keep_their_order() {
    let plan = vec![
        entry("a", "a1", 1),
        entry("d/e/f", "d/e/f1", 3),
        entry("b", "b1", 1),
        entry("d/g", "d/g1", 2),
    ];
    let groups = group_by_depth(&plan);
    let shape: Vec<(usize, Vec<String>)> = groups
        .iter()
        .map(|g| {
            let olds = g.entries.iter().map(|e| e.old.to_text_lossy()).collect();
            (g.depth, olds)
        })
        .collect();
    assert_eq!(
        shape,
        vec![
            (3, vec!["d/e/f".to_string()]),
            (2, vec!["d/g".to_string()]),
            (1, vec!["a".to_string(), "b".to_string()]),
        ]
    );
    assert!(group_by_depth(&Vec::new()).is_empty());
}

#[test]
fn an_empty_plan_succeeds_at_once() {
    let mut files = Files::new(&[("a", "A")]);
    assert_eq!(apply(&Vec::new(), &mut files), (Ok(()), Vec::new()));
    assert_eq!(files.renames, 0);
}

// ---- temporary paths -----------------------------------------------------------

#[test]
fn temporary_paths_are_beside_the_entry() {
    assert_eq!(
        make_temp_path(&path("a/b.txt"), 12, 3).to_text_lossy(),
        "a/b.txt.ren-12-00000003"
    );
    assert_eq!(
        make_temp_path(&path("b"), 1, 123456789).to_text_lossy(),
        "b.ren-1-123456789"
    );
}

#[test]
fn occupied_temporary_paths_are_passed_over() {
    let mut files = Files::new(&[("a", "A"), ("a.ren-77-00000000", "other")]);
    let plan = vec![entry("a", "b", 1)];
    assert_eq!(apply(&plan, &mut files), (Ok(()), Vec::new()));
    assert_eq!(files.list(), vec![("a.ren-77-00000000", "other"), ("b", "A")]);
    assert_eq!(files.log[0], "a -> a.ren-77-00000001");
}

#[test]
fn a_temporary_path_that_was_just_taken_is_replaced() {
    let mut files = Files::new(&[("a", "A")]).refusing(1, true).refusing(2, true);
    let plan = vec![entry("a", "b", 1)];
    assert_eq!(apply(&plan, &mut files), (Ok(()), Vec::new()));
    assert_eq!(files.list(), vec![("b", "A")]);
    assert_eq!(files.log[2], "a -> a.ren-77-00000002");
}

#[test]
fn after_too_many_taken_paths_the_run_fails() {
    let mut files = Files::new(&[("a", "A")]);
    for number in 1..=17 {
        files = files.refusing(number, true);
    }
    let (out, _) = apply(&vec![entry("a", "b", 1)], &mut files);
    assert_eq!(
        out.unwrap_err(),
        "phase 1 rename failed at depth 1: a -> a.ren-77-00000016"
    );
    assert_eq!(files.renames, 17);
    assert_eq!(files.list(), vec![("a", "A")]);
}

// ---- failures ------------------------------------------------------------------

#[test]
fn a_failure_while_moving_aside_stops_the_run() {
    let mut files = Files::new(&[("a", "A"), ("b", "B")]).refusing(2, false);
    let plan = vec![entry("a", "x", 1), entry("b", "y", 1)];
    let (out, _) = apply(&plan, &mut files);
    assert_eq!(
        out.unwrap_err(),
        "phase 1 rename failed at depth 1: b -> b.ren-77-00000001"
    );
    assert_eq!(files.list(), vec![("a.ren-77-00000000", "A"), ("b", "B")]);
}

#[test]
fn deeper_entries_stay_applied_after_a_failure() {
    let mut files = Files::new(&[("a", "A"), ("d/b", "B")]).refusing(4, false);
    let plan = vec![entry("a", "x", 1), entry("d/b", "d/y", 2)];
    let (out, _) = apply(&plan, &mut files);
    assert_eq!(
        out.unwrap_err(),
        "apply_plan failed at depth 1; depths > 1 have already been applied and were not rolled back"
    );
    assert_eq!(files.list(), vec![("a", "A"), ("d/y", "B")]);
}

#[test]
fn a_failure_while_going_back_is_warned_about() {
    let mut files = Files::new(&[("a", "A"), ("b", "B")])
        .refusing(4, false)
        .refusing(6, false);
    let plan = vec![entry("a", "x", 1), entry("b", "y", 1)];
    let (out, warnings) = apply(&plan, &mut files);
    assert!(out.is_err());
    assert_eq!(
        warnings,
        vec!["warning: rollback failed: b.ren-77-00000001 -> b: synthetic failure"]
    );
    assert_eq!(files.list(), vec![("a", "A"), ("b.ren-77-00000001", "B")]);
}

#[test]
fn the_exchanged_plan_gives_back_the_files() {
    let before = [("d/a", "1"), ("d/b", "2"), ("d/c", "3"), ("d/other", "4")];
    let mut files = Files::new(&before);
    let plan = vec![
        entry("d/a", "d/b", 1),
        entry("d/b", "d/a", 1),
        entry("d/c", "d/e", 1),
    ];
    validated_and_applied(&plan, &mut files);
    assert_eq!(
        files.list(),
        vec![("d/a", "2"), ("d/b", "1"), ("d/e", "3"), ("d/other", "4")]
    );
    let exchanged: Vec<PlanEntry> = plan
        .iter()
        .map(|e| PlanEntry {
            old: e.new.copy(),
            new: e.old.copy(),
            depth: e.depth,
        })
        .collect();
    validated_and_applied(&exchanged, &mut files);
    assert_eq!(files.list(), before.to_vec());
}

#[test]
fn each_entry_takes_three_reports_and_two_renames() {
    let plan = vec![
        entry("d/x", "d/y", 2),
        entry("a", "b", 1),
        entry("b", "a", 1),
        entry("d", "e", 1),
    ];
    let mut run = Applier::new(&plan, 77, 0);
    let (mut probes, mut renames) = (0, 0);
    loop {
        let event = match run.action() {
            Action::Probe { .. } => {
                probes += 1;
                Event::Probed { occupied: false }
            }
            Action::Rename { .. } => {
                renames += 1;
                Event::Renamed
            }
            Action::Succeed => break,
            Action::Fail => panic!("the run failed"),
        };
        assert_eq!(run.advance(event), None);
    }
    assert_eq!((probes, renames), (4, 8));
}

#[test]
fn what_is_in_a_directory_goes_with_it_under_its_own_new_name() {
    let mut files = Files::new(&[
        ("r/foo/foo_dir/foo.txt", "1"),
        ("r/foo/foo_dir/other.txt", "2"),
        ("r/foo/plain", "3"),
        ("r/rest", "4"),
    ]);
    let plan = vec![
        entry("r/foo", "r/bar", 1),
        entry("r/foo/foo_dir", "r/foo/bar_dir", 2),
        entry("r/foo/foo_dir/foo.txt", "r/foo/foo_dir/bar.txt", 3),
    ];
    validated_and_applied(&plan, &mut files);
    assert_eq!(
        files.list(),
        vec![
            ("r/bar/bar_dir/bar.txt", "1"),
            ("r/bar/bar_dir/other.txt", "2"),
            ("r/bar/plain", "3"),
            ("r/rest", "4"),
        ]
    );
}

#[test]
fn directories_that_change_places_keep_what_is_below_them() {
    let mut files = Files::new(&[("a/x", "1"), ("a/z", "2"), ("b/y", "3")]);
    let plan = vec![
        entry("a", "b", 1),
        entry("a/x", "a/w", 2),
        entry("b", "a", 1),
        entry("b/y", "b/x", 2),
    ];
    validated_and_applied(&plan, &mut files);
    assert_eq!(files.list(), vec![("a/x", "3"), ("b/w", "1"), ("b/z", "2")]);
}

#[test]
fn roots_at_different_heights_do_not_disturb_each_other() {
    let mut files = Files::new(&[("a/b/foo/foo", "1"), ("c/foo/foo", "2"), ("c/bar2", "3")]);
    let plan = vec![
        entry("a/b/foo", "a/b/bar", 1),
        entry("a/b/foo/foo", "a/b/foo/bar", 2),
        entry("c/foo", "c/bar", 1),
        entry("c/foo/foo", "c/foo/bar", 2),
    ];
    validated_and_applied(&plan, &mut files);
    assert_eq!(
        files.list(),
        vec![("a/b/bar/bar", "1"), ("c/bar/bar", "2"), ("c/bar2", "3")]
    );
}
