//! Which of the entries that a walk comes across are to be renamed, and in which
//! order they are taken.

use vstd::prelude::*;
use crate::path;
use crate::path::PathName;
use crate::sort;
use crate::text;

verus! {

/// Which files a walk is restricted to.
pub struct FileSet {
    /// Globs, an exclusion with an exclamation mark before it.
    pub matches: Vec<String>,
    /// Letter case makes no difference.
    pub case_insensitive: bool,
}

/// A path, with the root that it was found under.
#[derive(Debug, Hash, PartialEq, Eq)]
pub struct PathRecord {
    pub path: PathName,
    pub root: PathName,
}

/// What a record holds.
pub struct Found {
    pub path: Seq<u8>,
    pub root: Seq<u8>,
}

impl View for PathRecord {
    type V = Found;

    open spec fn view(&self) -> Found {
        Found { path: self.path@, root: self.root@ }
    }
}

/// What records hold.
pub open spec fn found(records: Seq<PathRecord>) -> Seq<Found> {
    records.map_values(|r: PathRecord| r@)
}

impl PathRecord {
    /// A copy of the record.
    pub fn copy(&self) -> (record: PathRecord)
        ensures
            record@ == self@,
    {
        PathRecord { path: self.path.copy(), root: self.root.copy() }
    }
}

// ---- candidates ------------------------------------------------------------------

/// Whether a path is worth renaming: editor backups and tag files, whose paths end
/// in `~`, in `tags` or in `TAGS`, are not.
pub open spec fn is_candidate(p: Seq<u8>) -> bool {
    &&& !text::ends_with(p, seq![126u8])
    &&& !text::ends_with(p, seq![116u8, 97, 103, 115])
    &&& !text::ends_with(p, seq![84u8, 65, 71, 83])
}

/// Whether the path ends neither in `~` nor in `tags` or `TAGS`.
pub fn is_candidate_path(path: &PathName) -> (candidate: bool)
    ensures
        candidate == is_candidate(path@),
{
    let backup: Vec<u8> = vec![126];
    let lower_tags: Vec<u8> = vec![116, 97, 103, 115];
    let upper_tags: Vec<u8> = vec![84, 65, 71, 83];
    assert(backup@ == seq![126u8]);
    assert(lower_tags@ == seq![116u8, 97, 103, 115]);
    assert(upper_tags@ == seq![84u8, 65, 71, 83]);
    !text::bytes_end_with(&path.bytes, &backup) && !text::bytes_end_with(&path.bytes, &lower_tags)
        && !text::bytes_end_with(&path.bytes, &upper_tags)
}

/// Whether a name is that of a directory in which a version control system keeps
/// its data: `.git`, `.jj`, `.hg`, `.svn` or `CVS`.
pub open spec fn is_vcs_name(name: Seq<u8>) -> bool {
    ||| name == seq![46u8, 103, 105, 116]
    ||| name == seq![46u8, 106, 106]
    ||| name == seq![46u8, 104, 103]
    ||| name == seq![46u8, 115, 118, 110]
    ||| name == seq![67u8, 86, 83]
}

/// Whether the name is one of `.git`, `.jj`, `.hg`, `.svn` and `CVS`.
pub fn is_vcs_dir_name(name: &Vec<u8>) -> (vcs: bool)
    ensures
        vcs == is_vcs_name(name@),
{
    let git: Vec<u8> = vec![46, 103, 105, 116];
    let jj: Vec<u8> = vec![46, 106, 106];
    let hg: Vec<u8> = vec![46, 104, 103];
    let svn: Vec<u8> = vec![46, 115, 118, 110];
    let cvs: Vec<u8> = vec![67, 86, 83];
    assert(git@ == seq![46u8, 103, 105, 116]);
    assert(jj@ == seq![46u8, 106, 106]);
    assert(hg@ == seq![46u8, 104, 103]);
    assert(svn@ == seq![46u8, 115, 118, 110]);
    assert(cvs@ == seq![67u8, 86, 83]);
    path::same_bytes(name, &git) || path::same_bytes(name, &jj) || path::same_bytes(name, &hg)
        || path::same_bytes(name, &svn) || path::same_bytes(name, &cvs)
}

/// Whether a path leads through the data of a version control system.
pub open spec fn in_vcs(p: Seq<u8>) -> bool {
    exists|i: int|
        0 <= i < path::components(p).len() && is_vcs_name(#[trigger] path::components(p)[i])
}

/// Whether one of the path's components is the name of a version control
/// directory.
pub fn is_vcs_path(path: &PathName) -> (vcs: bool)
    ensures
        vcs == in_vcs(path@),
{
    let parts = path.components();
    for i in 0..parts.len()
        invariant
            parts@.len() == path::components(path@).len(),
            forall|k: int|
                0 <= k < parts@.len() ==> (#[trigger] parts@[k])@ == path::components(path@)[k],
            forall|k: int| 0 <= k < i ==> !is_vcs_name(#[trigger] path::components(path@)[k]),
    {
        assert(parts@[i as int]@ == path::components(path@)[i as int]);
        if is_vcs_dir_name(&parts[i]) {
            return true;
        }
    }
    false
}

// ---- globs -----------------------------------------------------------------------

/// The glob that a pattern stands for: nothing for an empty one and for a dot.
pub open spec fn glob_for(pattern: Seq<char>) -> Option<Seq<char>> {
    if pattern.len() == 0 || pattern == "."@ || pattern == "="@ {
        None
    } else if text::starts_with(pattern, "!="@) {
        Some("!"@ + pattern.skip(2))
    } else if text::starts_with(pattern, "="@) {
        Some(pattern.skip(1))
    } else if pattern.contains('*') {
        Some(pattern)
    } else if text::starts_with(pattern, "!"@) {
        Some("!*."@ + pattern.skip(1))
    } else {
        Some("*."@ + pattern)
    }
}

/// The globs that patterns stand for.
pub open spec fn globs_for(patterns: Seq<Seq<char>>) -> Seq<Seq<char>>
    decreases patterns.len(),
{
    if patterns.len() == 0 {
        Seq::empty()
    } else {
        let before = globs_for(patterns.drop_last());
        match glob_for(text::trimmed(patterns.last())) {
            Some(glob) => before.push(glob),
            None => before,
        }
    }
}

fn glob_of(pattern: &Vec<char>) -> (glob: Option<String>)
    ensures
        glob is Some <==> glob_for(pattern@) is Some,
        glob matches Some(g) ==> glob_for(pattern@) == Some(g@),
{
    proof {
        reveal_strlit(".");
        reveal_strlit("=");
        reveal_strlit("!");
        reveal_strlit("!=");
        assert(pattern@.skip(0) == pattern@);
        assert(pattern@.len() == 1 && pattern@[0] == '.' ==> pattern@ =~= "."@);
        assert(pattern@.len() == 1 && pattern@[0] == '=' ==> pattern@ =~= "="@);
    }
    if pattern.len() == 0 || (pattern.len() == 1 && (pattern[0] == '.' || pattern[0] == '=')) {
        None
    } else if text::chars_start_with(pattern, 0, "!=") {
        let mut out = "!".to_string();
        let rest = text::string_of_range(pattern, 2, pattern.len());
        assert(rest@ == pattern@.skip(2));
        out.push_str(rest.as_str());
        Some(out)
    } else if text::chars_start_with(pattern, 0, "=") {
        let rest = text::string_of_range(pattern, 1, pattern.len());
        assert(rest@ == pattern@.skip(1));
        Some(rest)
    } else if text::has_char(pattern, '*') {
        Some(text::string_of(pattern))
    } else if text::chars_start_with(pattern, 0, "!") {
        let mut out = "!*.".to_string();
        let rest = text::string_of_range(pattern, 1, pattern.len());
        assert(rest@ == pattern@.skip(1));
        out.push_str(rest.as_str());
        Some(out)
    } else {
        let mut out = "*.".to_string();
        let rest = text::string_of(pattern);
        out.push_str(rest.as_str());
        Some(out)
    }
}

/// The globs that a list of patterns with commas between them stands for:
///
/// - `txt` is an extension, `*.txt`;
/// - `=Dockerfile` is a name, `Dockerfile`;
/// - `!rs` and `!=Makefile` leave out an extension and a name;
/// - `*.json` is a glob as it stands.
pub fn parse_file_globs(input: &str) -> (globs: Vec<String>)
    ensures
        text::views(globs@) == globs_for(text::split_on(input@, ',')),
{
    let chars = text::chars_of(input);
    let pieces = text::split_chars(&chars, ',');
    let mut globs: Vec<String> = Vec::new();
    let ghost all = text::split_on(input@, ',');
    assert(text::views(globs@) == Seq::<Seq<char>>::empty());
    for i in 0..pieces.len()
        invariant
            all == text::split_on(input@, ','),
            pieces@.len() == all.len(),
            forall|k: int| 0 <= k < pieces@.len() ==> (#[trigger] pieces@[k])@ == all[k],
            text::views(globs@) == globs_for(all.take(i as int)),
    {
        assert(all.take(i + 1).drop_last() == all.take(i as int));
        assert(pieces@[i as int]@ == all[i as int]);
        let pattern = text::trim_chars(&pieces[i]);
        if let Some(glob) = glob_of(&pattern) {
            let ghost before = text::views(globs@);
            globs.push(glob);
            assert(text::views(globs@) == before.push(glob@));
        }
    }
    assert(all.take(all.len() as int) == all);
    globs
}

/// No glob is empty.
pub proof fn law_globs_are_not_empty(patterns: Seq<Seq<char>>)
    ensures
        forall|i: int|
            0 <= i < globs_for(patterns).len() ==> (#[trigger] globs_for(patterns)[i]).len() > 0,
    decreases patterns.len(),
{
    if patterns.len() > 0 {
        law_globs_are_not_empty(patterns.drop_last());
        let pattern = text::trimmed(patterns.last());
        reveal_strlit("=");
        reveal_strlit("!");
        reveal_strlit("!*.");
        reveal_strlit("*.");
        if text::starts_with(pattern, "="@) && pattern.len() == 1 {
            assert(pattern.take(1) == pattern);
        }
        assert(glob_for(pattern) matches Some(glob) ==> glob.len() > 0);
        let before = globs_for(patterns.drop_last());
        assert forall|i: int| 0 <= i < globs_for(patterns).len() implies (
        #[trigger] globs_for(patterns)[i]).len() > 0 by {
            assert(i < before.len() ==> before[i].len() > 0);
        }
    }
}

// ---- what a walk comes across ----------------------------------------------------

/// What an entry is.
#[derive(Clone, Copy, Debug, PartialEq, Eq, Structural)]
pub enum EntryKind {
    File,
    Directory,
    /// Something else, such as a symbolic link.
    Other,
}

/// An entry that a walk has come across.
pub struct WalkEntry {
    pub path: PathName,
    /// The root that the walk began at.
    pub root: PathName,
    /// How far below the root the entry is: the root itself is at depth zero.
    pub depth: usize,
    pub kind: EntryKind,
}

/// Whether an entry is to be renamed: a file is, also where it is the root of the
/// walk; a directory is if directories are wanted, unless it is the root;
/// anything else is not.
pub open spec fn admitted(entry: WalkEntry, include_dirs: bool) -> bool {
    is_candidate(entry.path@) && match entry.kind {
        EntryKind::File => true,
        EntryKind::Directory => include_dirs && entry.depth > 0,
        EntryKind::Other => false,
    }
}

/// The entries that are to be renamed, in the order of the walk.
pub open spec fn all_admitted(entries: Seq<WalkEntry>, include_dirs: bool) -> Seq<Found>
    decreases entries.len(),
{
    if entries.len() == 0 {
        Seq::empty()
    } else {
        let before = all_admitted(entries.drop_last(), include_dirs);
        let e = entries.last();
        if admitted(e, include_dirs) {
            before.push(Found { path: e.path@, root: e.root@ })
        } else {
            before
        }
    }
}

/// Whether the entry is to be renamed.
pub fn admits(entry: &WalkEntry, include_dirs: bool) -> (admits: bool)
    ensures
        admits == admitted(*entry, include_dirs),
{
    is_candidate_path(&entry.path) && match entry.kind {
        EntryKind::File => true,
        EntryKind::Directory => include_dirs && entry.depth > 0,
        EntryKind::Other => false,
    }
}

// ---- the natural order -----------------------------------------------------------

/// Whether `natord::compare` finds that one text is less than another.
pub uninterp spec fn naturally_before(a: Seq<char>, b: Seq<char>) -> bool;

/// Calls `natord::compare`, which compares texts piece by piece, runs of digits as
/// numbers, and leaves white space out. Texts are ordered by it as numbers are,
/// except that different texts can be level: if the one is less than the other,
/// the other is not less than the one, what is less than the one is less than the
/// other, and everything is more than the one or less than the other; if not,
/// what is less than the other is less than the one.
#[verifier::external_body]
fn natural_less(a: &str, b: &str) -> (less: bool)
    ensures
        less == naturally_before(a@, b@),
        less ==> !naturally_before(b@, a@),
        less ==> forall|c: Seq<char>| #[trigger]
            naturally_before(a@, c) || naturally_before(c, b@),
        less ==> forall|c: Seq<char>| #[trigger]
            naturally_before(c, a@) ==> naturally_before(c, b@),
        !less ==> forall|c: Seq<char>| #[trigger]
            naturally_before(c, b@) ==> naturally_before(c, a@),
{
    natord::compare(a, b).is_lt()
}

/// Texts, to be put in natural order.
struct ByName {
    names: Vec<String>,
}

impl sort::Ranked for ByName {
    closed spec fn count(&self) -> nat {
        self.names@.len()
    }

    closed spec fn precedes(&self, a: int, b: int) -> bool {
        naturally_before(self.names@[a]@, self.names@[b]@)
    }

    fn comes_before(&self, a: usize, b: usize) -> (first: bool) {
        natural_less(self.names[a].as_str(), self.names[b].as_str())
    }
}

/// Whether one path comes before another: by the texts that they are shown as.
pub open spec fn path_before(a: Found, b: Found) -> bool {
    naturally_before(text::lossy(a.path), text::lossy(b.path))
}

/// Whether `order` puts records in natural order, those that are level in the
/// order they were in.
pub open spec fn sorts_naturally(before: Seq<Found>, order: Seq<usize>) -> bool {
    &&& sort::takes_all(order, 0, before.len() as int)
    &&& forall|i: int, j: int|
        0 <= i < j < order.len() ==> {
            &&& !path_before(before[#[trigger] order[j] as int], before[#[trigger] order[i] as int])
            &&& path_before(before[order[i] as int], before[order[j] as int]) || order[i] < order[j]
        }
}

/// Whether records have been put in natural order.
pub open spec fn naturally_sorted(before: Seq<Found>, after: Seq<Found>) -> bool {
    exists|order: Seq<usize>| #[trigger]
        sorts_naturally(before, order) && after == order.map_values(|k: usize| before[k as int])
}

/// Puts records in the natural order of their paths.
pub fn sort_records(records: &Vec<PathRecord>) -> (sorted: Vec<PathRecord>)
    ensures
        naturally_sorted(found(records@), found(sorted@)),
{
    let mut names: Vec<String> = Vec::new();
    for i in 0..records.len()
        invariant
            names@.len() == i,
            forall|k: int| 0 <= k < i ==> (#[trigger] names@[k])@ == text::lossy(records@[k].path@),
    {
        names.push(records[i].path.to_text_lossy());
    }
    let things = ByName { names };
    let order = sort::sorted_order(&things, records.len());
    let ghost before = found(records@);
    let mut sorted: Vec<PathRecord> = Vec::new();
    for i in 0..order.len()
        invariant
            before == found(records@),
            sort::takes_all(order@, 0, records@.len() as int),
            found(sorted@) == order@.map_values(|k: usize| before[k as int]).take(i as int),
    {
        assert(order@.contains(order@[i as int]));
        let ghost done = found(sorted@);
        sorted.push(records[order[i]].copy());
        assert(found(sorted@) == done.push(before[order@[i as int] as int]));
    }
    proof {
        assert(found(sorted@) == order@.map_values(|k: usize| before[k as int]));
        assert forall|i: int, j: int| 0 <= i < j < order@.len() implies {
            &&& !path_before(
                before[#[trigger] order@[j] as int],
                before[#[trigger] order@[i] as int],
            )
            &&& path_before(before[order@[i] as int], before[order@[j] as int]) || order@[i]
                < order@[j]
        } by {
            assert(order@.contains(order@[i]));
            assert(order@.contains(order@[j]));
            assert(sort::follows(&things, order@[i] as int, order@[j] as int));
        }
        assert(sorts_naturally(before, order@));
    }
    sorted
}

/// The entries of a walk that are to be renamed, in the natural order of their
/// paths.
pub fn select_records(entries: &Vec<WalkEntry>, include_dirs: bool) -> (records: Vec<PathRecord>)
    ensures
        naturally_sorted(all_admitted(entries@, include_dirs), found(records@)),
{
    let mut chosen: Vec<PathRecord> = Vec::new();
    assert(found(chosen@) == Seq::<Found>::empty());
    for i in 0..entries.len()
        invariant
            found(chosen@) == all_admitted(entries@.take(i as int), include_dirs),
    {
        assert(entries@.take(i + 1).drop_last() == entries@.take(i as int));
        let e = &entries[i];
        if admits(e, include_dirs) {
            let ghost before = found(chosen@);
            chosen.push(PathRecord { path: e.path.copy(), root: e.root.copy() });
            assert(found(chosen@) == before.push(Found { path: e.path@, root: e.root@ }));
        }
    }
    assert(entries@.take(entries@.len() as int) == entries@);
    sort_records(&chosen)
}

/// A record is among the sorted ones if and only if it is among those to be
/// sorted.
pub proof fn law_sorting_keeps_records(before: Seq<Found>, after: Seq<Found>, record: Found)
    requires
        before.len() <= usize::MAX,
        naturally_sorted(before, after),
    ensures
        after.len() == before.len(),
        after.contains(record) <==> before.contains(record),
{
    let order = choose|order: Seq<usize>| #[trigger]
        sorts_naturally(before, order) && after == order.map_values(|k: usize| before[k as int]);
    if before.contains(record) {
        let k = choose|k: int| 0 <= k < before.len() && before[k] == record;
        assert(order.contains(k as usize));
        let i = choose|i: int| 0 <= i < order.len() && order[i] == k as usize;
        assert(after[i] == record);
    }
    if after.contains(record) {
        let i = choose|i: int| 0 <= i < after.len() && after[i] == record;
        assert(order.contains(order[i]));
        assert(before[order[i] as int] == record);
    }
}

// ---- laws on what is selected ------------------------------------------------------

/// Whether a path ends in `~`, `tags` or `TAGS`.
pub open spec fn is_backup_or_tags(p: Seq<u8>) -> bool {
    let n = p.len() as int;
    ||| n >= 1 && p[n - 1] == 126
    ||| n >= 4 && p[n - 4] == 116 && p[n - 3] == 97 && p[n - 2] == 103 && p[n - 1] == 115
    ||| n >= 4 && p[n - 4] == 84 && p[n - 3] == 65 && p[n - 2] == 71 && p[n - 1] == 83
}

/// Whether an entry is worth renaming is a matter of the last bytes of its path.
pub proof fn law_candidates_go_by_their_ends(p: Seq<u8>)
    ensures
        is_candidate(p) <==> !is_backup_or_tags(p),
{
    let n = p.len() as int;
    if n >= 1 {
        let end = p.skip(n - 1);
        assert(end =~= seq![p[n - 1]]);
        assert(seq![126u8][0] == 126);
        if end == seq![126u8] {
            assert(end[0] == 126);
        }
    }
    if n >= 4 {
        let end = p.skip(n - 4);
        assert(end =~= seq![p[n - 4], p[n - 3], p[n - 2], p[n - 1]]);
        if end == seq![116u8, 97, 103, 115] {
            assert(end[0] == 116 && end[1] == 97 && end[2] == 103 && end[3] == 115);
        }
        if end == seq![84u8, 65, 71, 83] {
            assert(end[0] == 84 && end[1] == 65 && end[2] == 71 && end[3] == 83);
        }
    }
}

/// A file is selected at whatever depth, a directory below the root if directories
/// are wanted, and nothing else ever, each if its path does not end like that of a
/// backup or of tags. Where an entry was found has no other say in it.
pub proof fn law_kind_and_path_decide(entry: WalkEntry, include_dirs: bool)
    ensures
        entry.kind is File ==> (admitted(entry, include_dirs) <==> !is_backup_or_tags(
            entry.path@,
        )),
        entry.kind is Directory ==> (admitted(entry, include_dirs) <==> include_dirs
            && entry.depth != 0 && !is_backup_or_tags(entry.path@)),
        entry.kind is Other ==> !admitted(entry, include_dirs),
{
    law_candidates_go_by_their_ends(entry.path@);
}

/// Two files with the same path are both selected or both not, whatever their depths
/// and roots, and whether directories are wanted or not.
pub proof fn law_depth_makes_no_difference_to_files(
    a: WalkEntry,
    b: WalkEntry,
    with_dirs: bool,
    without_dirs: bool,
)
    requires
        a.kind is File,
        b.kind is File,
        a.path@ == b.path@,
    ensures
        admitted(a, with_dirs) == admitted(b, without_dirs),
{
}

/// The entries of a walk are gone through piece by piece: each that is admitted gives
/// a record with its path and its root, in order, and none is left out.
pub proof fn law_every_admitted_entry_is_taken(
    a: Seq<WalkEntry>,
    b: Seq<WalkEntry>,
    e: WalkEntry,
    include_dirs: bool,
)
    ensures
        all_admitted(a + b, include_dirs) == all_admitted(a, include_dirs) + all_admitted(
            b,
            include_dirs,
        ),
        all_admitted(seq![e], include_dirs) == if admitted(e, include_dirs) {
            seq![Found { path: e.path@, root: e.root@ }]
        } else {
            Seq::empty()
        },
    decreases b.len(),
{
    assert(seq![e].drop_last() =~= Seq::<WalkEntry>::empty());
    assert(all_admitted(Seq::empty(), include_dirs) =~= Seq::<Found>::empty());
    if admitted(e, include_dirs) {
        assert(all_admitted(seq![e], include_dirs) =~= seq![Found { path: e.path@, root: e.root@ }]);
    }
    if b.len() == 0 {
        assert(a + b =~= a);
        assert(all_admitted(a, include_dirs) + all_admitted(b, include_dirs) =~= all_admitted(
            a,
            include_dirs,
        ));
    } else {
        assert((a + b).drop_last() =~= a + b.drop_last());
        law_every_admitted_entry_is_taken(a, b.drop_last(), e, include_dirs);
        assert(all_admitted(a + b, include_dirs) =~= all_admitted(a, include_dirs) + all_admitted(
            b,
            include_dirs,
        ));
    }
}

/// Every file of a walk whose path does not end like that of a backup or of tags is
/// among the records that are selected, however deep it is. What is selected was come
/// across, and is a file or, below the root and where they are wanted, a directory.
#[verifier::rlimit(40)]
#[verifier::spinoff_prover]
pub proof fn law_files_are_selected_at_any_depth(
    entries: Seq<WalkEntry>,
    include_dirs: bool,
    records: Seq<Found>,
)
    requires
        entries.len() <= usize::MAX,
        naturally_sorted(all_admitted(entries, include_dirs), records),
    ensures
        forall|i: int|
            0 <= i < entries.len() && (#[trigger] entries[i]).kind is File && !is_backup_or_tags(
                entries[i].path@,
            ) ==> records.contains(Found { path: entries[i].path@, root: entries[i].root@ }),
        forall|i: int|
            0 <= i < entries.len() && (#[trigger] entries[i]).kind is Directory && include_dirs
                && entries[i].depth > 0 && !is_backup_or_tags(entries[i].path@)
                ==> records.contains(Found { path: entries[i].path@, root: entries[i].root@ }),
        forall|r: Found| #[trigger]
            records.contains(r) ==> !is_backup_or_tags(r.path) && exists|i: int|
                0 <= i < entries.len() && (#[trigger] entries[i]).path@ == r.path
                    && entries[i].root@ == r.root && (entries[i].kind is File || (
                entries[i].kind is Directory && include_dirs && entries[i].depth > 0)),
{
    let chosen = all_admitted(entries, include_dirs);
    lemma_admitted(entries, include_dirs);
    assert forall|r: Found| records.contains(r) == chosen.contains(r) by {
        law_sorting_keeps_records(chosen, records, r);
    }
    assert forall|i: int| 0 <= i < entries.len() && admitted(entries[i], include_dirs) implies
        #[trigger] records.contains(Found { path: entries[i].path@, root: entries[i].root@ }) by {
        assert(chosen.contains(Found { path: entries[i].path@, root: entries[i].root@ }));
    }
    assert forall|i: int| 0 <= i < entries.len() implies {
        &&& (#[trigger] entries[i]).kind is File && !is_backup_or_tags(entries[i].path@)
            ==> admitted(entries[i], include_dirs)
        &&& entries[i].kind is Directory && include_dirs && entries[i].depth > 0
            && !is_backup_or_tags(entries[i].path@) ==> admitted(entries[i], include_dirs)
    } by {
        law_kind_and_path_decide(entries[i], include_dirs);
    }
    assert forall|r: Found| #[trigger] records.contains(r) implies !is_backup_or_tags(r.path)
        && exists|i: int|
        0 <= i < entries.len() && (#[trigger] entries[i]).path@ == r.path && entries[i].root@
            == r.root && (entries[i].kind is File || (entries[i].kind is Directory && include_dirs
            && entries[i].depth > 0)) by {
        assert(chosen.contains(r));
        let i = choose|i: int|
            0 <= i < entries.len() && admitted(#[trigger] entries[i], include_dirs) && r == (
            Found { path: entries[i].path@, root: entries[i].root@ });
        law_kind_and_path_decide(entries[i], include_dirs);
    }
}

#[verifier::rlimit(40)]
#[verifier::spinoff_prover]
proof fn lemma_admitted(entries: Seq<WalkEntry>, include_dirs: bool)
    ensures
        all_admitted(entries, include_dirs).len() <= entries.len(),
        forall|i: int|
            0 <= i < entries.len() && admitted(#[trigger] entries[i], include_dirs)
                ==> all_admitted(entries, include_dirs).contains(
                Found { path: entries[i].path@, root: entries[i].root@ },
            ),
        forall|r: Found| #[trigger]
            all_admitted(entries, include_dirs).contains(r) ==> exists|i: int|
                0 <= i < entries.len() && admitted(#[trigger] entries[i], include_dirs) && r == (
                Found { path: entries[i].path@, root: entries[i].root@ }),
    decreases entries.len(),
{
    if entries.len() > 0 {
        let head = entries.drop_last();
        let before = all_admitted(head, include_dirs);
        let all = all_admitted(entries, include_dirs);
        lemma_admitted(head, include_dirs);
        let last = entries.last();
        let r_last = Found { path: last.path@, root: last.root@ };
        assert forall|r: Found| #[trigger] all.contains(r) <==> before.contains(r) || (admitted(
            last,
            include_dirs,
        ) && r == r_last) by {
            vstd::seq_lib::lemma_seq_contains_after_push(before, r_last, r);
        }
        assert forall|i: int|
            0 <= i < entries.len() && admitted(#[trigger] entries[i], include_dirs) implies
            all.contains(Found { path: entries[i].path@, root: entries[i].root@ }) by {
            if i < head.len() {
                assert(head[i] == entries[i]);
            }
        }
        assert forall|r: Found| #[trigger] all.contains(r) implies exists|i: int|
            0 <= i < entries.len() && admitted(#[trigger] entries[i], include_dirs) && r == (
            Found { path: entries[i].path@, root: entries[i].root@ }) by {
            if before.contains(r) {
                let i = choose|i: int|
                    0 <= i < head.len() && admitted(#[trigger] head[i], include_dirs) && r == (
                    Found { path: head[i].path@, root: head[i].root@ });
                assert(admitted(entries[i], include_dirs));
            } else {
                assert(admitted(entries[entries.len() - 1], include_dirs));
            }
        }
    }
}

/// Sorted records are in natural order, records that are level keep the order they
/// were in, and there are as many of each as before.
pub proof fn law_records_come_in_natural_order(before: Seq<Found>, after: Seq<Found>)
    requires
        before.len() <= usize::MAX,
        naturally_sorted(before, after),
    ensures
        forall|i: int, j: int|
            0 <= i < j < after.len() ==> !naturally_before(
                text::lossy((#[trigger] after[j]).path),
                text::lossy((#[trigger] after[i]).path),
            ),
        exists|order: Seq<usize>|
            {
                &&& order.len() == before.len() == after.len()
                &&& order.no_duplicates()
                &&& forall|i: int|
                    0 <= i < order.len() ==> #[trigger] order[i] < before.len() && after[i]
                        == before[order[i] as int]
                &&& forall|i: int, j: int|
                    0 <= i < j < order.len() && !naturally_before(
                        text::lossy(after[i].path),
                        text::lossy(after[j].path),
                    ) ==> #[trigger] order[i] < #[trigger] order[j]
            },
{
    let order = choose|order: Seq<usize>| #[trigger]
        sorts_naturally(before, order) && after == order.map_values(|k: usize| before[k as int]);
    assert forall|i: int| 0 <= i < order.len() implies #[trigger] order[i] < before.len()
        && after[i] == before[order[i] as int] by {
        assert(order.contains(order[i]));
    }
    assert forall|i: int, j: int| 0 <= i < j < after.len() implies !naturally_before(
        text::lossy((#[trigger] after[j]).path),
        text::lossy((#[trigger] after[i]).path),
    ) by {
        assert(!path_before(before[order[j] as int], before[order[i] as int]));
    }
    assert forall|i: int, j: int|
        0 <= i < j < order.len() && !naturally_before(
            text::lossy(after[i].path),
            text::lossy(after[j].path),
        ) implies #[trigger] order[i] < #[trigger] order[j] by {
        assert(path_before(before[order[i] as int], before[order[j] as int]) || order[i]
            < order[j]);
    }
}

/// A path leads through the data of a version control system if one of its components
/// is `.git`, `.jj`, `.hg`, `.svn` or `CVS`, at whatever place.
pub proof fn law_version_control_is_found_anywhere(p: Seq<u8>)
    ensures
        in_vcs(p) <==> {
            ||| path::components(p).contains(seq![46u8, 103, 105, 116])
            ||| path::components(p).contains(seq![46u8, 106, 106])
            ||| path::components(p).contains(seq![46u8, 104, 103])
            ||| path::components(p).contains(seq![46u8, 115, 118, 110])
            ||| path::components(p).contains(seq![67u8, 86, 83])
        },
{
    let parts = path::components(p);
    if in_vcs(p) {
        let i = choose|i: int| 0 <= i < parts.len() && is_vcs_name(#[trigger] parts[i]);
        assert(parts.contains(parts[i]));
    }
    assert forall|x: Seq<u8>| parts.contains(x) && is_vcs_name(x) implies in_vcs(p) by {
        let i = choose|i: int| 0 <= i < parts.len() && parts[i] == x;
        assert(is_vcs_name(parts[i]));
    }
    if parts.contains(seq![46u8, 103, 105, 116]) {
        assert(is_vcs_name(seq![46u8, 103, 105, 116]));
    }
    if parts.contains(seq![46u8, 106, 106]) {
        assert(is_vcs_name(seq![46u8, 106, 106]));
    }
    if parts.contains(seq![46u8, 104, 103]) {
        assert(is_vcs_name(seq![46u8, 104, 103]));
    }
    if parts.contains(seq![46u8, 115, 118, 110]) {
        assert(is_vcs_name(seq![46u8, 115, 118, 110]));
    }
    if parts.contains(seq![67u8, 86, 83]) {
        assert(is_vcs_name(seq![67u8, 86, 83]));
    }
}

/// A bare word is an extension, one behind an equals sign a name, an asterisk makes a
/// glob of it, and an exclamation mark before any of these leaves them out.
#[verifier::rlimit(40)]
#[verifier::spinoff_prover]
pub proof fn law_patterns_stand_for_globs(word: Seq<char>)
    requires
        word.len() > 0,
    ensures
        word[0] != '!' && word[0] != '=' && !word.contains('*') && word != seq!['.'] ==> glob_for(
            word,
        ) == Some(seq!['*', '.'] + word),
        word[0] != '!' && word[0] != '=' && word.contains('*') ==> glob_for(word) == Some(word),
        glob_for(seq!['='] + word) == Some(word),
        glob_for(seq!['!', '='] + word) == Some(seq!['!'] + word),
        word[0] != '=' && !word.contains('*') ==> glob_for(seq!['!'] + word) == Some(
            seq!['!', '*', '.'] + word,
        ),
        word[0] != '=' && word.contains('*') ==> glob_for(seq!['!'] + word) == Some(
            seq!['!'] + word,
        ),
        glob_for(Seq::empty()) is None,
        glob_for(seq!['.']) is None,
        glob_for(seq!['=']) is None,
{
    reveal_strlit(".");
    reveal_strlit("=");
    reveal_strlit("!");
    reveal_strlit("!=");
    reveal_strlit("!*.");
    reveal_strlit("*.");
    assert("."@ =~= seq!['.']);
    assert("="@ =~= seq!['=']);
    assert("!"@ =~= seq!['!']);
    assert("!*."@ =~= seq!['!', '*', '.']);
    assert("*."@ =~= seq!['*', '.']);
    if text::starts_with(word, "!="@) {
        assert(word.take(2)[0] == '!');
    }
    if text::starts_with(word, "!"@) {
        assert(word.take(1)[0] == '!');
    }
    if text::starts_with(word, "="@) {
        assert(word.take(1)[0] == '=');
    }
    assert(word == "="@ ==> word[0] == '=');
    if word == "."@ {
        if word.contains('*') {
            let i = choose|i: int| 0 <= i < word.len() && word[i] == '*';
        }
    }
    let named = seq!['='] + word;
    assert(named.len() > 1);
    assert(!text::starts_with(named, "!="@)) by {
        if text::starts_with(named, "!="@) {
            assert(named.take(2)[0] == '!');
        }
    }
    assert(named.take(1) =~= "="@);
    assert(named.skip(1) =~= word);
    let without = seq!['!', '='] + word;
    assert(without.take(2) =~= "!="@);
    assert(without.skip(2) =~= word);
    let left_out = seq!['!'] + word;
    assert(left_out.len() > 1);
    assert(left_out[0] == '!' && left_out[1] == word[0]);
    if text::starts_with(left_out, "!="@) {
        assert(left_out.take(2)[1] == '=');
    }
    if text::starts_with(left_out, "="@) {
        assert(left_out.take(1)[0] == '=');
    }
    assert(left_out.take(1) =~= "!"@);
    assert(left_out.skip(1) =~= word);
    if word.contains('*') {
        let i = choose|i: int| 0 <= i < word.len() && word[i] == '*';
        assert(left_out[i + 1] == '*');
    }
    if left_out.contains('*') {
        let i = choose|i: int| 0 <= i < left_out.len() && left_out[i] == '*';
        assert(word[i - 1] == '*');
    }
    assert(Seq::<char>::empty().len() == 0);
    assert(seq!['.'] == "."@);
    assert(seq!['='] == "="@);
}

/// Patterns stand for globs one by one, in order, each with the white space round it
/// taken off, and none but an empty one is left out.
pub proof fn law_patterns_are_taken_one_by_one(
    a: Seq<Seq<char>>,
    b: Seq<Seq<char>>,
    pattern: Seq<char>,
)
    ensures
        globs_for(a + b) == globs_for(a) + globs_for(b),
        globs_for(seq![pattern]) == match glob_for(text::trimmed(pattern)) {
            Some(glob) => seq![glob],
            None => Seq::empty(),
        },
    decreases b.len(),
{
    assert(seq![pattern].drop_last() =~= Seq::<Seq<char>>::empty());
    assert(globs_for(Seq::empty()) =~= Seq::<Seq<char>>::empty());
    if let Some(glob) = glob_for(text::trimmed(pattern)) {
        assert(globs_for(seq![pattern]) =~= seq![glob]);
    }
    if b.len() == 0 {
        assert(a + b =~= a);
        assert(globs_for(a) + globs_for(b) =~= globs_for(a));
    } else {
        assert((a + b).drop_last() =~= a + b.drop_last());
        law_patterns_are_taken_one_by_one(a, b.drop_last(), pattern);
        assert(globs_for(a + b) =~= globs_for(a) + globs_for(b));
    }
}

} // verus!
