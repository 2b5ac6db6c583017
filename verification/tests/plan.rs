use ren::apply::{Action, Applier};
use ren::conflicts::{validate_plan, PlanConflict};
use ren::expressions::{compile_expressions, CompileOptions, CompiledExpression};
use ren::names::{split_stem_ext, ExtensionScope};
use ren::path::PathName;
use ren::rename::{build_plan, build_scoped_plan, can_plan, skip_warnings, PlanEntry};
use ren::scan::PathRecord;
use ren::transforms::{TransformOptions, SMART_COUNTER_TEMPLATE};

fn compile_with(find: &str, replace: &str, regex: bool) -> Vec<CompiledExpression> {
    let opts = CompileOptions {
        regex,
        ignore_case: false,
        greedy: false,
        word_regexp: false,
        smart: false,
        expressions: Vec::new(),
        positional_find: Some(find.into()),
        positional_replace: Some(replace.into()),
        list_files_find_only: false,
    };
    match compile_expressions(&opts) {
        Ok(exprs) => exprs,
        Err(e) => panic!("{}", e.message()),
    }
}

fn compile(find: &str, replace: &str) -> Vec<CompiledExpression> {
    compile_with(find, replace, false)
}

fn path(text: &str) -> PathName {
    PathName::from_text(text)
}

fn record(text: &str, root: &str) -> PathRecord {
    PathRecord {
        path: path(text),
        root: path(root),
    }
}

fn entry(old: &str, new: &str) -> PlanEntry {
    PlanEntry {
        old: path(old),
        new: path(new),
        depth: 1,
    }
}

fn news(plan: &[PlanEntry]) -> Vec<String> {
    plan.iter().map(|e| e.new.to_text_lossy()).collect()
}

fn no_transforms() -> TransformOptions {
    TransformOptions::default()
}

// ---- stems and extensions ------------------------------------------------------

fn split(name: &str) -> (String, Option<String>) {
    split_stem_ext(name)
}

fn parts(stem: &str, ext: Option<&str>) -> (String, Option<String>) {
    (stem.to_string(), ext.map(str::to_string))
}

#[test]
fn split_stem_ext_handles_edge_cases() {
    assert_eq!(split("foo.rs"), parts("foo", Some("rs")));
    assert_eq!(split("archive.tar.gz"), parts("archive", Some("tar.gz")));
    assert_eq!(split("archive.TAR.GZ"), parts("archive", Some("TAR.GZ")));
    assert_eq!(split("archive.tar"), parts("archive", Some("tar")));
    assert_eq!(split("test.spec.ts"), parts("test.spec", Some("ts")));
    assert_eq!(split(".bashrc"), parts(".bashrc", None));
    assert_eq!(split("Makefile"), parts("Makefile", None));
    assert_eq!(split("archive."), parts("archive", Some("")));
    assert_eq!(split(".tar.gz"), parts(".tar", Some("gz")));
}

#[test]
fn every_compound_extension_is_known() {
    for ext in ["tar.gz", "tar.bz2", "tar.xz", "tar.zst", "tar.lz"] {
        assert_eq!(split(&format!("é.{ext}")), parts("é", Some(ext)));
    }
    assert_eq!(split("a.tar.lzma"), parts("a.tar", Some("lzma")));
    assert_eq!(split("atar.gz"), parts("atar", Some("gz")));
}

#[test]
fn a_name_is_its_stem_and_its_extension() {
    for name in ["a", "a.b", "a.b.c", ".a", ".a.b", "a.", "a..", "..a", "é.ü", "x.tar.xz"] {
        let (stem, ext) = split(name);
        let whole = match ext {
            Some(e) => format!("{stem}.{e}"),
            None => stem,
        };
        assert_eq!(whole, name);
    }
}

#[test]
fn what_is_no_name_has_no_extension() {
    assert_eq!(split(""), parts("", None));
    assert_eq!(split("."), parts(".", None));
    assert_eq!(split(".."), parts("..", None));
    assert_eq!(split("a.b/c.d"), parts("c", Some("d")));
    assert_eq!(split("a/."), parts("a", Some("")));
}

// ---- plans ---------------------------------------------------------------------

#[test]
fn noop_plan_filters_out_unchanged_basenames_and_apply_is_ok() {
    let exprs = compile("foo", "foo");
    let records = vec![record("tmp/foo.txt", "tmp")];
    let plan = build_plan(&records, &exprs, false, &no_transforms(), None);
    assert!(plan.is_empty());
    assert!(validate_plan(&plan, &[]).is_ok());
    assert!(matches!(Applier::new(&plan, 1, 0).action(), Action::Succeed));
}

#[test]
fn build_plan_derives_depth_relative_to_root() {
    let exprs = compile("c", "z");
    let records = vec![record("/tmp/a/b/c.txt", "/tmp")];
    let plan = build_plan(&records, &exprs, false, &no_transforms(), None);

    assert_eq!(plan.len(), 1);
    assert_eq!(plan[0].depth, 3);
}

#[test]
fn build_plan_counter_resets_per_parent_directory() {
    let records = vec![
        record("tmp/a.txt", "tmp"),
        record("tmp/b.txt", "tmp"),
        record("tmp/sub/c.txt", "tmp"),
        record("tmp/sub/d.txt", "tmp"),
    ];
    let plan = build_plan(&records, &[], false, &no_transforms(), Some("{n:02}_"));

    assert_eq!(plan[0].new, path("tmp/01_a.txt"));
    assert_eq!(plan[1].new, path("tmp/02_b.txt"));
    assert_eq!(plan[2].new, path("tmp/sub/01_c.txt"));
    assert_eq!(plan[3].new, path("tmp/sub/02_d.txt"));
}

#[test]
fn build_plan_smart_counter_uses_directory_entry_count_for_width() {
    let records: Vec<PathRecord> = (0..100)
        .map(|i| record(&format!("tmp/file-{i}.txt"), "tmp"))
        .collect();
    let plan = build_plan(
        &records,
        &[],
        false,
        &no_transforms(),
        Some(SMART_COUNTER_TEMPLATE),
    );

    assert_eq!(plan[0].new, path("tmp/001_file-0.txt"));
    assert_eq!(plan[98].new, path("tmp/099_file-98.txt"));
    assert_eq!(plan[99].new, path("tmp/100_file-99.txt"));
}

#[test]
fn build_plan_smart_counter_width_is_per_parent_directory() {
    let mut records = vec![record("tmp/small/only.txt", "tmp")];
    records.extend((0..100).map(|i| record(&format!("tmp/large/file-{i}.txt"), "tmp")));
    let plan = build_plan(
        &records,
        &[],
        false,
        &no_transforms(),
        Some(SMART_COUNTER_TEMPLATE),
    );

    assert_eq!(plan[0].new, path("tmp/small/01_only.txt"));
    assert_eq!(plan[1].new, path("tmp/large/001_file-0.txt"));
    assert_eq!(plan[100].new, path("tmp/large/100_file-99.txt"));
}

#[test]
fn build_plan_no_extension_matches_stem_only() {
    let exprs = compile("txt", "notes");
    let records = vec![record("tmp/report.txt", "tmp"), record("tmp/txt_notes.md", "tmp")];

    let plan = build_plan(&records, &exprs, true, &no_transforms(), None);
    assert_eq!(plan.len(), 1);
    assert_eq!(plan[0].old, path("tmp/txt_notes.md"));
    assert_eq!(plan[0].new, path("tmp/notes_notes.md"));

    let plan_full = build_plan(&records, &exprs, false, &no_transforms(), None);
    assert_eq!(plan_full.len(), 2);
}

#[test]
fn build_plan_no_extension_handles_dotfiles_and_extensionless() {
    let exprs = compile("archive", "release");
    let records = vec![
        record("tmp/.bashrc", "tmp"),
        record("tmp/Makefile", "tmp"),
        record("tmp/archive.tar.gz", "tmp"),
    ];
    let plan = build_plan(&records, &exprs, true, &no_transforms(), None);
    assert_eq!(plan.len(), 1);
    assert_eq!(plan[0].old, path("tmp/archive.tar.gz"));
    assert_eq!(plan[0].new, path("tmp/release.tar.gz"));
}

#[test]
fn build_plan_no_extension_preserves_trailing_dot() {
    let exprs = compile("archive", "release");
    let records = vec![record("tmp/archive.", "tmp")];
    let plan = build_plan(&records, &exprs, true, &no_transforms(), None);

    assert_eq!(plan.len(), 1);
    assert_eq!(plan[0].new, path("tmp/release."));
}

#[test]
fn only_the_extension_is_worked_on() {
    let records = vec![record("foo.rs", "."), record("Makefile", "."), record("rs.rs.gz", ".")];
    let plan = build_scoped_plan(
        &records,
        &compile("rs", "txt"),
        ExtensionScope::Only,
        &no_transforms(),
        None,
    );
    assert_eq!(news(&plan), vec!["foo.txt"]);
    let upper = TransformOptions {
        upper: true,
        ..no_transforms()
    };
    let plan = build_scoped_plan(&records, &[], ExtensionScope::Only, &upper, None);
    assert_eq!(news(&plan), vec!["foo.RS", "rs.rs.GZ"]);
}

#[test]
fn entries_that_do_not_change_take_no_number() {
    let records = vec![
        record("d/x1", "d"),
        record("d/keep", "d"),
        record("d/x2", "d"),
        record("d/./x3", "d"),
    ];
    let exprs = compile_with("^x(.)$", "y$1", true);
    let append = TransformOptions {
        append: Some("{n}".into()),
        ..no_transforms()
    };
    let plan = build_plan(&records, &exprs, false, &append, None);
    assert_eq!(news(&plan), vec!["d/y11", "d/y22", "d/y33"]);
    let plan = build_plan(&records, &exprs, false, &no_transforms(), None);
    assert_eq!(news(&plan), vec!["d/y1", "d/y2", "d/y3"]);
}

#[test]
fn names_that_the_expressions_leave_alone_are_filtered_out() {
    let records = vec![record("t/x.txt", "t"), record("t/foo.txt", "t")];
    let plan = build_plan(
        &records,
        &compile("foo", "bar"),
        false,
        &no_transforms(),
        Some("{n:02}_"),
    );
    assert_eq!(plan.len(), 1);
    assert_eq!(plan[0].old, path("t/foo.txt"));
    assert_eq!(plan[0].new, path("t/01_bar.txt"));
    assert_eq!(plan[0].depth, 1);
    let found_but_kept = compile_with("^(foo|x)", "$1", true);
    let upper = TransformOptions {
        upper: true,
        ..no_transforms()
    };
    assert!(build_plan(&records, &found_but_kept, true, &upper, None).is_empty());
    let plan = build_plan(&records, &[], true, &upper, Some("{n}_"));
    assert_eq!(news(&plan), vec!["t/1_X.txt", "t/2_FOO.txt"]);
}

#[test]
fn the_order_of_what_is_done_is_fixed() {
    let all = TransformOptions {
        lower: true,
        upper: false,
        append: Some("-A{n}".into()),
        prepend: Some("P{n}-".into()),
    };
    let records = vec![record("Foo.TXT", ".")];
    let plan = build_plan(&records, &compile("Foo", "BAR"), true, &all, Some("{N}_"));
    assert_eq!(news(&plan), vec!["01_P1-bar-A1.TXT"]);
}

#[test]
fn records_without_a_name_in_utf8_are_skipped() {
    let mut bad = record("d/x", "d");
    bad.path = PathName::from_bytes(vec![b'd', b'/', b'x', 0xff]);
    let records = vec![bad, record("d/x", "d"), record("..", "d")];
    let plan = build_plan(&records, &compile("x", "y"), false, &no_transforms(), Some("{N}"));
    assert_eq!(news(&plan), vec!["d/01y"]);
    assert_eq!(
        skip_warnings(&records),
        vec![
            "warning: d/x\u{fffd}: skipping (non-UTF-8 basename)",
            "warning: ..: skipping (non-UTF-8 basename)",
        ]
    );
}

#[test]
fn a_name_may_become_a_path() {
    let records = vec![record("a.log", ".")];
    let plan = build_plan(
        &records,
        &compile_with(r"^(.*)\.log$", "logs/$1.log", true),
        false,
        &no_transforms(),
        None,
    );
    assert_eq!(news(&plan), vec!["logs/a.log"]);
}

// ---- conflicts -----------------------------------------------------------------

#[test]
fn validate_errors_on_within_plan_duplicate_targets() {
    let plan = vec![entry("tmp/a.txt", "tmp/c.txt"), entry("tmp/b.txt", "tmp/c.txt")];
    let err = validate_plan(&plan, &[false, false]).unwrap_err();
    let msg = err.message();
    assert!(msg.contains("tmp/a.txt"), "msg: {msg}");
    assert!(msg.contains("tmp/b.txt"), "msg: {msg}");
}

#[test]
fn validate_errors_on_existing_external_target() {
    let plan = vec![entry("tmp/a.txt", "tmp/b.txt")];
    let err = validate_plan(&plan, &[true]).unwrap_err();
    let msg = err.message();
    assert!(msg.contains("would overwrite"));
    assert!(msg.contains("tmp/b.txt"));
}

#[test]
fn validate_passes_when_existing_target_is_an_old_in_plan() {
    let plan = vec![entry("tmp/a.txt", "tmp/b.txt"), entry("tmp/b.txt", "tmp/a.txt")];
    assert!(validate_plan(&plan, &[true, true]).is_ok());
}

#[test]
fn collisions_are_reported_in_the_order_of_their_names() {
    let plan = vec![
        entry("1", "z"),
        entry("2", "B"),
        entry("3", "Z"),
        entry("4", "only"),
        entry("5", "b"),
        entry("6", "z"),
    ];
    let err = validate_plan(&plan, &[false; 6]).unwrap_err();
    assert_eq!(
        err.message(),
        "rename plan has within-plan conflicts:\n  b ← 2, 5\n  z ← 1, 3, 6"
    );
    assert!(matches!(err, PlanConflict::Duplicates(_)));
}

#[test]
fn overwrites_are_reported_in_the_order_of_the_plan() {
    let plan = vec![
        entry("b", "taken"),
        entry("a", "free"),
        entry("c", "B"),
        entry("d", "Also"),
    ];
    let err = validate_plan(&plan, &[true, false, true, true]).unwrap_err();
    assert_eq!(
        err.message(),
        "rename plan would overwrite existing paths:\n  b -> taken\n  d -> Also"
    );
    assert!(matches!(err, PlanConflict::Overwrites(_)));
}

#[test]
fn a_rename_that_changes_only_letter_case_is_valid() {
    assert!(validate_plan(&[entry("tmp", "TMP")], &[true]).is_ok());
    assert!(validate_plan(&[], &[]).is_ok());
}

#[test]
fn an_expression_without_forms_stops_a_plan_that_meets_it() {
    let opts = CompileOptions {
        regex: false,
        ignore_case: false,
        greedy: false,
        word_regexp: false,
        smart: true,
        expressions: Vec::new(),
        positional_find: Some(String::new()),
        positional_replace: Some("a".into()),
        list_files_find_only: false,
    };
    let exprs = match compile_expressions(&opts) {
        Ok(exprs) => exprs,
        Err(e) => panic!("{}", e.message()),
    };
    let bare = [record("./Makefile", ".")];
    let nameless = [PathRecord {
        path: PathName::from_bytes(vec![b'.', b'/', 0xff]),
        root: path("."),
    }];
    assert!(!can_plan(&bare, &exprs, ExtensionScope::Include));
    assert!(!can_plan(&bare, &exprs, ExtensionScope::Exclude));
    assert!(can_plan(&bare, &exprs, ExtensionScope::Only));
    assert!(can_plan(&nameless, &exprs, ExtensionScope::Include));
    assert!(can_plan(&[], &exprs, ExtensionScope::Include));
    assert!(can_plan(&bare, &compile("a", "b"), ExtensionScope::Include));
}
