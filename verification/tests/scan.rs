use ren::io::{paths_from_input, records_from_paths};
use ren::path::PathName;
use ren::scan::{
    admits, is_candidate_path, is_vcs_path, parse_file_globs, select_records, sort_records,
    EntryKind, PathRecord, WalkEntry,
};

fn path(text: &str) -> PathName {
    PathName::from_text(text)
}

fn record(text: &str, root: &str) -> PathRecord {
    PathRecord {
        path: path(text),
        root: path(root),
    }
}

fn entry(text: &str, root: &str, depth: usize, kind: EntryKind) -> WalkEntry {
    WalkEntry {
        path: path(text),
        root: path(root),
        depth,
        kind,
    }
}

fn shown(records: &[PathRecord]) -> Vec<String> {
    records.iter().map(|r| r.path.to_text_lossy()).collect()
}

fn basenames(records: &[PathRecord]) -> Vec<String> {
    records
        .iter()
        .map(|r| String::from_utf8(r.path.file_name().unwrap_or_default()).unwrap())
        .collect()
}

// ---- candidates ----------------------------------------------------------------

#[test]
fn test_is_candidate_path_accepts_regular_source_file() {
    assert!(is_candidate_path(&path("src/main.rs")));
    assert!(is_candidate_path(&path("README.md")));
    assert!(is_candidate_path(&path("Makefile")));
}

#[test]
fn test_is_candidate_path_rejects_tilde_backup() {
    assert!(!is_candidate_path(&path("main.rs~")));
    assert!(!is_candidate_path(&path("some/dir/file.txt~")));
}

#[test]
fn test_is_candidate_path_rejects_ctags_files() {
    assert!(!is_candidate_path(&path("tags")));
    assert!(!is_candidate_path(&path("TAGS")));
    assert!(!is_candidate_path(&path("./tags")));
}

#[test]
fn test_is_vcs_path_rejects_vcs_directories() {
    assert!(is_vcs_path(&path(".git/config")));
    assert!(is_vcs_path(&path("repo/.jj/working_copy")));
    assert!(is_vcs_path(&path("./nested/.svn/entries")));
    assert!(is_vcs_path(&path("vendor/CVS/Entries")));
}

#[test]
fn test_is_vcs_path_accepts_regular_hidden_paths() {
    assert!(!is_vcs_path(&path(".env")));
    assert!(!is_vcs_path(&path(".config/app.toml")));
    assert!(!is_vcs_path(&path("src/.hidden/file.txt")));
}

#[test]
fn names_that_only_resemble_vcs_directories_are_no_vcs_paths() {
    assert!(is_vcs_path(&path("a/.hg")));
    assert!(!is_vcs_path(&path("a/.gitignore")));
    assert!(!is_vcs_path(&path("a/x.git")));
    assert!(!is_vcs_path(&path("a/cvs")));
}

#[test]
fn a_path_that_ends_in_tags_is_no_candidate() {
    assert!(!is_candidate_path(&path("src/hashtags")));
    assert!(is_candidate_path(&path("tags.txt")));
    assert!(is_candidate_path(&path("Tags")));
    assert!(is_candidate_path(&path("")));
}

// ---- globs ---------------------------------------------------------------------

#[test]
fn test_parse_file_globs_delegated_to_scan() {
    assert_eq!(parse_file_globs("rs"), vec!["*.rs"]);
}

#[test]
fn test_parse_file_globs_extension() {
    assert_eq!(parse_file_globs("txt"), vec!["*.txt"]);
    assert_eq!(parse_file_globs("rs,go"), vec!["*.rs", "*.go"]);
}

#[test]
fn test_parse_file_globs_exact_filename() {
    assert_eq!(parse_file_globs("=Dockerfile"), vec!["Dockerfile"]);
}

#[test]
fn test_parse_file_globs_negation() {
    assert_eq!(parse_file_globs("!rs"), vec!["!*.rs"]);
    assert_eq!(parse_file_globs("!=Makefile"), vec!["!Makefile"]);
}

#[test]
fn test_parse_file_globs_wildcard() {
    assert_eq!(parse_file_globs("*.json"), vec!["*.json"]);
}

#[test]
fn test_parse_file_globs_dot_ignored() {
    assert!(parse_file_globs(".").is_empty());
}

#[test]
fn test_parse_file_globs_mixed() {
    assert_eq!(
        parse_file_globs("rs, =Dockerfile, !txt"),
        vec!["*.rs", "Dockerfile", "!*.txt"]
    );
}

#[test]
fn test_parse_file_globs_empty_string_is_empty() {
    assert!(parse_file_globs("").is_empty());
}

#[test]
fn test_parse_file_globs_only_commas_is_empty() {
    assert!(parse_file_globs(",,,").is_empty());
}

#[test]
fn odd_patterns_become_globs_that_are_not_empty() {
    assert!(parse_file_globs("=").is_empty());
    assert_eq!(parse_file_globs("!"), vec!["!*."]);
    assert_eq!(parse_file_globs("!="), vec!["!"]);
    assert_eq!(parse_file_globs("!*.rs"), vec!["!*.rs"]);
    assert_eq!(parse_file_globs("\u{a0}rs\u{3000}, \t"), vec!["*.rs"]);
    assert_eq!(parse_file_globs("=a*b"), vec!["a*b"]);
}

// ---- walks ---------------------------------------------------------------------

/// What a walk of a small tree comes across, in no particular order.
fn tree(recursive: bool) -> Vec<WalkEntry> {
    let mut entries = vec![
        entry("t", "t", 0, EntryKind::Directory),
        entry("t/b.txt", "t", 1, EntryKind::File),
        entry("t/sub", "t", 1, EntryKind::Directory),
        entry("t/link", "t", 1, EntryKind::Other),
        entry("t/a.txt", "t", 1, EntryKind::File),
    ];
    if recursive {
        entries.push(entry("t/sub/nested/d.txt", "t", 3, EntryKind::File));
        entries.push(entry("t/sub/nested", "t", 2, EntryKind::Directory));
        entries.push(entry("t/sub/c.txt", "t", 2, EntryKind::File));
    }
    entries
}

#[test]
fn test_walk_paths_default_files_only_depth1() {
    let records = select_records(&tree(false), false);
    assert_eq!(basenames(&records), vec!["a.txt", "b.txt"]);
}

#[test]
fn test_walk_paths_recursive_files_only() {
    let records = select_records(&tree(true), false);
    assert_eq!(basenames(&records), vec!["a.txt", "b.txt", "c.txt", "d.txt"]);
}

#[test]
fn test_walk_paths_include_dirs_depth1() {
    let records = select_records(&tree(false), true);
    assert_eq!(basenames(&records), vec!["a.txt", "b.txt", "sub"]);
}

#[test]
fn test_walk_paths_recursive_include_dirs() {
    let records = select_records(&tree(true), true);
    assert_eq!(
        basenames(&records),
        vec!["a.txt", "b.txt", "sub", "c.txt", "nested", "d.txt"]
    );
}

#[test]
fn test_walk_paths_multi_root_tags_each_record() {
    let records = select_records(
        &vec![
            entry("r1", "r1", 0, EntryKind::Directory),
            entry("r1/one.txt", "r1", 1, EntryKind::File),
            entry("r2", "r2", 0, EntryKind::Directory),
            entry("r2/two.txt", "r2", 1, EntryKind::File),
        ],
        false,
    );
    assert_eq!(records.len(), 2);
    assert_eq!(records[0], record("r1/one.txt", "r1"));
    assert_eq!(records[1], record("r2/two.txt", "r2"));
}

#[test]
fn test_walk_paths_natord_sort() {
    let records = select_records(
        &vec![
            entry("t/b.txt", "t", 1, EntryKind::File),
            entry("t/a.txt", "t", 1, EntryKind::File),
            entry("t/aa.txt", "t", 1, EntryKind::File),
        ],
        false,
    );
    assert_eq!(basenames(&records), vec!["a.txt", "aa.txt", "b.txt"]);
}

#[test]
fn a_file_may_be_a_root_and_a_directory_may_not() {
    assert!(admits(&entry("a.txt", "a.txt", 0, EntryKind::File), false));
    assert!(!admits(&entry("dir", "dir", 0, EntryKind::Directory), true));
    assert!(admits(&entry("dir/sub", "dir", 1, EntryKind::Directory), true));
    assert!(!admits(&entry("dir/sub", "dir", 1, EntryKind::Directory), false));
    assert!(!admits(&entry("dir/x~", "dir", 1, EntryKind::File), true));
}

#[test]
fn records_are_in_natural_order() {
    let records: Vec<PathRecord> = ["x10", "x9", "x1", "x 2", "a", "x02", "B", "x2"]
        .iter()
        .map(|s| record(s, "."))
        .collect();
    let sorted = sort_records(&records);
    let mut wanted: Vec<String> = shown(&records);
    wanted.sort_by(|a, b| natord::compare(a, b));
    assert_eq!(shown(&sorted), wanted);
    assert_eq!(
        shown(&sorted),
        vec!["B", "a", "x02", "x1", "x 2", "x2", "x9", "x10"]
    );
}

#[test]
fn level_records_keep_their_order() {
    let records = vec![record("a b", "1"), record("ab", "2"), record("a  b", "3")];
    assert_eq!(shown(&sort_records(&records)), vec!["a b", "ab", "a  b"]);
}

#[test]
fn the_natural_order_is_an_order() {
    let words = [
        "", " ", "0", "00", "01", "1", "10", "2", "a", "a0", "a00", "a1", "a 1", "a10", "a1b",
        "1a", "1 0", "é1", "é10", "-1", "~", "0a", "00a",
    ];
    for a in words {
        for b in words {
            let less = natord::compare(a, b).is_lt();
            assert!(!(less && natord::compare(b, a).is_lt()));
            for c in words {
                if less {
                    assert!(natord::compare(a, c).is_lt() || natord::compare(c, b).is_lt());
                    assert!(!natord::compare(c, a).is_lt() || natord::compare(c, b).is_lt());
                } else {
                    assert!(!natord::compare(c, b).is_lt() || natord::compare(c, a).is_lt());
                }
            }
        }
    }
}

// ---- paths that are handed over ------------------------------------------------

fn lines(input: &str, null: bool) -> Vec<String> {
    paths_from_input(&input.as_bytes().to_vec(), null)
        .iter()
        .map(|p| p.to_text_lossy())
        .collect()
}

#[test]
fn input_is_split_into_lines() {
    assert_eq!(lines("a\nb c\n\n", false), vec!["a", "b c"]);
    assert_eq!(lines("a\r\nb\r", false), vec!["a", "b"]);
    assert_eq!(lines("a\r\r\n\r\n", false), vec!["a\r"]);
    assert!(lines("", false).is_empty());
}

#[test]
fn input_is_split_at_zero_bytes() {
    assert_eq!(lines("a\nb\0c\r\0\0", true), vec!["a\nb", "c\r"]);
}

#[test]
fn bytes_that_are_not_text_survive() {
    let paths = paths_from_input(&vec![0xff, 0xfe, b'\n', b'x'], false);
    assert_eq!(paths[0].bytes, vec![0xff, 0xfe]);
    assert_eq!(paths[1].bytes, vec![b'x']);
}

#[test]
fn picked_paths_get_their_directory_as_root() {
    let paths = vec![path("a/b.txt"), path("c.txt"), path("gone"), path("/d"), path("./e")];
    let records = records_from_paths(&paths, &vec![true, true, false, true, true]);
    assert_eq!(records.len(), 4);
    assert_eq!(records[0], record("a/b.txt", "a"));
    assert_eq!(records[1], record("c.txt", "."));
    assert_eq!(records[2], record("/d", "/"));
    assert_eq!(records[3], record("./e", "."));
    for r in &records {
        assert_eq!(r.path.depth_below(&r.root), 1);
    }
}
