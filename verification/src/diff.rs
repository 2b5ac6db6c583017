//! What a rename changes, character by character, for display.

use vstd::prelude::*;
use crate::path::PathName;
use crate::text;

verus! {

/// A step from an old text to a new one.
#[derive(Clone, Copy, Debug, PartialEq, Eq, Structural)]
pub enum DiffOp {
    /// A character of both.
    Same(char),
    /// A character of the old text only.
    Old(char),
    /// A character of the new text only.
    New(char),
}

/// The step that keeps a character.
pub open spec fn keep(c: char) -> DiffOp {
    DiffOp::Same(c)
}

/// The step that leaves out a character of the old text.
pub open spec fn leave_out(c: char) -> DiffOp {
    DiffOp::Old(c)
}

/// The step that puts in a character of the new text.
pub open spec fn put_in(c: char) -> DiffOp {
    DiffOp::New(c)
}

/// The length of the longest text that can be had from both texts by leaving out
/// characters.
pub open spec fn common_len(a: Seq<char>, b: Seq<char>) -> nat
    decreases a.len() + b.len(),
{
    if a.len() == 0 || b.len() == 0 {
        0
    } else if a.last() == b.last() {
        common_len(a.drop_last(), b.drop_last()) + 1
    } else {
        let without_old = common_len(a.drop_last(), b);
        let without_new = common_len(a, b.drop_last());
        if without_old >= without_new {
            without_old
        } else {
            without_new
        }
    }
}

/// The steps from one text to another that keep as much as can be kept. Where
/// there is a choice at the end of the texts, the last step leaves out an old
/// character.
pub open spec fn steps(a: Seq<char>, b: Seq<char>) -> Seq<DiffOp>
    decreases a.len() + b.len(),
{
    if a.len() == 0 && b.len() == 0 {
        Seq::empty()
    } else if a.len() > 0 && b.len() > 0 && a.last() == b.last() {
        steps(a.drop_last(), b.drop_last()).push(keep(a.last()))
    } else if b.len() > 0 && (a.len() == 0 || common_len(a, b.drop_last()) > common_len(
        a.drop_last(),
        b,
    )) {
        steps(a, b.drop_last()).push(put_in(b.last()))
    } else {
        steps(a.drop_last(), b).push(leave_out(a.last()))
    }
}

/// The characters that steps have on the old side, or on the new side.
pub open spec fn side(ops: Seq<DiffOp>, old_side: bool) -> Seq<char>
    decreases ops.len(),
{
    if ops.len() == 0 {
        Seq::empty()
    } else {
        let before = side(ops.drop_last(), old_side);
        match ops.last() {
            DiffOp::Same(c) => before.push(c),
            DiffOp::Old(c) => if old_side {
                before.push(c)
            } else {
                before
            },
            DiffOp::New(c) => if old_side {
                before
            } else {
                before.push(c)
            },
        }
    }
}

/// How many characters steps keep.
pub open spec fn kept(ops: Seq<DiffOp>) -> nat
    decreases ops.len(),
{
    if ops.len() == 0 {
        0
    } else {
        kept(ops.drop_last()) + (if ops.last() is Same {
            1nat
        } else {
            0
        })
    }
}

// ---- laws ------------------------------------------------------------------------

/// The steps from one text to another have the one on their old side and the other
/// on their new side.
pub proof fn law_steps_have_both_sides(a: Seq<char>, b: Seq<char>)
    ensures
        side(steps(a, b), true) == a,
        side(steps(a, b), false) == b,
    decreases a.len() + b.len(),
{
    if a.len() == 0 && b.len() == 0 {
    } else if a.len() > 0 && b.len() > 0 && a.last() == b.last() {
        let before = steps(a.drop_last(), b.drop_last());
        law_steps_have_both_sides(a.drop_last(), b.drop_last());
        assert(before.push(keep(a.last())).drop_last() == before);
        assert(a.drop_last().push(a.last()) == a);
        assert(b.drop_last().push(b.last()) == b);
    } else if b.len() > 0 && (a.len() == 0 || common_len(a, b.drop_last()) > common_len(
        a.drop_last(),
        b,
    )) {
        let before = steps(a, b.drop_last());
        law_steps_have_both_sides(a, b.drop_last());
        assert(before.push(put_in(b.last())).drop_last() == before);
        assert(b.drop_last().push(b.last()) == b);
    } else {
        let before = steps(a.drop_last(), b);
        law_steps_have_both_sides(a.drop_last(), b);
        assert(before.push(leave_out(a.last())).drop_last() == before);
        assert(a.drop_last().push(a.last()) == a);
    }
}

/// Leaving out the last character of one text costs at most one of what is common.
proof fn lemma_common_steps(a: Seq<char>, b: Seq<char>)
    requires
        a.len() > 0,
        b.len() > 0,
    ensures
        common_len(a, b.drop_last()) <= common_len(a, b) <= common_len(a, b.drop_last()) + 1,
        common_len(a.drop_last(), b) <= common_len(a, b) <= common_len(a.drop_last(), b) + 1,
    decreases a.len() + b.len(),
{
    let a1 = a.drop_last();
    let b1 = b.drop_last();
    if a1.len() > 0 {
        lemma_common_steps(a1, b);
    }
    if b1.len() > 0 {
        lemma_common_steps(a, b1);
    }
    assert(a1.len() == 0 ==> common_len(a1, b) == 0 && common_len(a1, b1) == 0);
    assert(b1.len() == 0 ==> common_len(a, b1) == 0 && common_len(a1, b1) == 0);
    assert(common_len(a1, b) <= common_len(a1, b1) + 1);
    assert(common_len(a, b1) <= common_len(a1, b1) + 1);
    assert(common_len(a1, b1) <= common_len(a, b1));
    assert(common_len(a1, b1) <= common_len(a1, b));
}

/// No steps from one text to another keep more than these do.
pub proof fn law_steps_keep_the_most(ops: Seq<DiffOp>)
    ensures
        kept(ops) <= common_len(side(ops, true), side(ops, false)),
        kept(steps(side(ops, true), side(ops, false))) == common_len(
            side(ops, true),
            side(ops, false),
        ),
    decreases ops.len(),
{
    let a = side(ops, true);
    let b = side(ops, false);
    lemma_steps_keep(a, b);
    if ops.len() > 0 {
        let before = ops.drop_last();
        law_steps_keep_the_most(before);
        match ops.last() {
            DiffOp::Same(c) => {
                assert(a.drop_last() == side(before, true));
                assert(b.drop_last() == side(before, false));
            },
            DiffOp::Old(c) => {
                assert(a.drop_last() == side(before, true));
                if b.len() > 0 {
                    lemma_common_steps(a, b);
                }
            },
            DiffOp::New(c) => {
                assert(b.drop_last() == side(before, false));
                if a.len() > 0 {
                    lemma_common_steps(a, b);
                }
            },
        }
    }
}

proof fn lemma_steps_keep(a: Seq<char>, b: Seq<char>)
    ensures
        kept(steps(a, b)) == common_len(a, b),
    decreases a.len() + b.len(),
{
    if a.len() == 0 && b.len() == 0 {
    } else if a.len() > 0 && b.len() > 0 && a.last() == b.last() {
        lemma_steps_keep(a.drop_last(), b.drop_last());
        let before = steps(a.drop_last(), b.drop_last());
        assert(before.push(keep(a.last())).drop_last() == before);
    } else if b.len() > 0 && (a.len() == 0 || common_len(a, b.drop_last()) > common_len(
        a.drop_last(),
        b,
    )) {
        lemma_steps_keep(a, b.drop_last());
        let before = steps(a, b.drop_last());
        assert(before.push(put_in(b.last())).drop_last() == before);
    } else {
        lemma_steps_keep(a.drop_last(), b);
        let before = steps(a.drop_last(), b);
        assert(before.push(leave_out(a.last())).drop_last() == before);
    }
}

/// Between equal texts nothing changes.
pub proof fn law_no_difference_no_change(a: Seq<char>)
    ensures
        steps(a, a) == a.map_values(|c: char| keep(c)),
    decreases a.len(),
{
    if a.len() > 0 {
        law_no_difference_no_change(a.drop_last());
        assert(a.drop_last().map_values(|c: char| keep(c)).push(keep(a.last()))
            == a.map_values(|c: char| keep(c)));
    }
}

// ---- computing them --------------------------------------------------------------

/// Whether a row holds what the first `i` characters of one text have in common
/// with the first, the first two, and so on, of the other.
spec fn row_holds(row: Seq<usize>, a: Seq<char>, b: Seq<char>, i: int) -> bool {
    forall|j: int|
        0 <= j < row.len() ==> #[trigger] row[j] == common_len(a.take(i), b.take(j + 1))
}

/// Whether a table holds such a row for the first character, the first two, and so
/// on, of the one text.
spec fn table_holds(table: Seq<Vec<usize>>, a: Seq<char>, b: Seq<char>) -> bool {
    forall|i: int|
        0 <= i < table.len() ==> (#[trigger] table[i])@.len() == b.len() && row_holds(
            table[i]@,
            a,
            b,
            i + 1,
        )
}

proof fn lemma_common_bound(a: Seq<char>, b: Seq<char>)
    ensures
        common_len(a, b) <= a.len(),
        common_len(a, b) <= b.len(),
    decreases a.len() + b.len(),
{
    if a.len() > 0 && b.len() > 0 {
        lemma_common_bound(a.drop_last(), b.drop_last());
        lemma_common_bound(a.drop_last(), b);
        lemma_common_bound(a, b.drop_last());
    }
}

/// What the first `i` characters of one text and the first `j` of the other have in
/// common, by the table.
fn entry(
    table: &Vec<Vec<usize>>,
    i: usize,
    j: usize,
    Ghost(a): Ghost<Seq<char>>,
    Ghost(b): Ghost<Seq<char>>,
) -> (common: usize)
    requires
        table_holds(table@, a, b),
        i <= table@.len(),
        j <= b.len(),
    ensures
        common == common_len(a.take(i as int), b.take(j as int)),
{
    if i == 0 || j == 0 {
        0
    } else {
        assert(table@[i - 1]@.len() == b.len());
        assert(table@[i - 1]@[j - 1] == common_len(a.take(i as int), b.take(j as int)));
        table[i - 1][j - 1]
    }
}

/// The table of what all the beginnings of the texts have in common.
fn common_table(old: &Vec<char>, new: &Vec<char>) -> (table: Vec<Vec<usize>>)
    ensures
        table@.len() == old@.len(),
        table_holds(table@, old@, new@),
{
    let mut table: Vec<Vec<usize>> = Vec::new();
    for i in 0..old.len()
        invariant
            table@.len() == i,
            table_holds(table@, old@, new@),
    {
        assert(old@.take(i + 1).drop_last() == old@.take(i as int));
        let mut row: Vec<usize> = Vec::new();
        for j in 0..new.len()
            invariant
                i < old@.len(),
                table@.len() == i,
                table_holds(table@, old@, new@),
                old@.take(i + 1).drop_last() == old@.take(i as int),
                row@.len() == j,
                row_holds(row@, old@, new@, i + 1),
        {
            assert(new@.take(j + 1).drop_last() == new@.take(j as int));
            let above = entry(&table, i, j + 1, Ghost(old@), Ghost(new@));
            let diagonal = entry(&table, i, j, Ghost(old@), Ghost(new@));
            let left: usize = if j == 0 {
                0
            } else {
                assert(row@[j - 1] == common_len(old@.take(i + 1), new@.take(j as int)));
                row[j - 1]
            };
            assert(left == common_len(old@.take(i + 1), new@.take(j as int)));
            proof {
                lemma_common_bound(old@.take(i as int), new@.take(j as int));
            }
            let next: usize = if old[i] == new[j] {
                diagonal + 1
            } else if above >= left {
                above
            } else {
                left
            };
            row.push(next);
        }
        table.push(row);
    }
    table
}

/// The steps from one text to another.
pub fn diff_chars(old: &str, new: &str) -> (ops: Vec<DiffOp>)
    ensures
        ops@ == steps(old@, new@),
{
    let old_chars = text::chars_of(old);
    let new_chars = text::chars_of(new);
    let table = common_table(&old_chars, &new_chars);
    let ghost a = old@;
    let ghost b = new@;
    let mut backwards: Vec<DiffOp> = Vec::new();
    let mut i: usize = old_chars.len();
    let mut j: usize = new_chars.len();
    assert(a.take(i as int) == a);
    assert(b.take(j as int) == b);
    assert(steps(a, b) + backwards@.reverse() == steps(a, b));
    while i > 0 || j > 0
        invariant
            old_chars@ == a,
            new_chars@ == b,
            table@.len() == a.len(),
            table_holds(table@, a, b),
            i <= a.len(),
            j <= b.len(),
            steps(a, b) == steps(a.take(i as int), b.take(j as int)) + backwards@.reverse(),
        decreases i + j,
    {
        let ghost left = a.take(i as int);
        let ghost right = b.take(j as int);
        let ghost behind = backwards@.reverse();
        assert(i > 0 ==> left.drop_last() == a.take(i - 1));
        assert(j > 0 ==> right.drop_last() == b.take(j - 1));
        if i > 0 && j > 0 && old_chars[i - 1] == new_chars[j - 1] {
            backwards.push(DiffOp::Same(old_chars[i - 1]));
            proof {
                let op = keep(left.last());
                assert(backwards@.reverse() == seq![op] + behind);
                let shorter = steps(a.take(i - 1), b.take(j - 1));
                assert(shorter.push(op) + behind == shorter + (seq![op] + behind));
            }
            i = i - 1;
            j = j - 1;
        } else if j > 0 && (i == 0 || entry(&table, i, j - 1, Ghost(a), Ghost(b)) > entry(
            &table,
            i - 1,
            j,
            Ghost(a),
            Ghost(b),
        )) {
            backwards.push(DiffOp::New(new_chars[j - 1]));
            proof {
                let op = put_in(right.last());
                assert(backwards@.reverse() == seq![op] + behind);
                let shorter = steps(left, b.take(j - 1));
                assert(shorter.push(op) + behind == shorter + (seq![op] + behind));
            }
            j = j - 1;
        } else {
            backwards.push(DiffOp::Old(old_chars[i - 1]));
            proof {
                let op = leave_out(left.last());
                assert(backwards@.reverse() == seq![op] + behind);
                let shorter = steps(a.take(i - 1), right);
                assert(shorter.push(op) + behind == shorter + (seq![op] + behind));
            }
            i = i - 1;
        }
    }
    assert(steps(a.take(0), b.take(0)) == Seq::<DiffOp>::empty());
    assert(Seq::<DiffOp>::empty() + backwards@.reverse() == backwards@.reverse());
    let mut ops: Vec<DiffOp> = Vec::new();
    let mut k: usize = backwards.len();
    while k > 0
        invariant
            k <= backwards@.len(),
            ops@ == backwards@.reverse().take(backwards@.len() - k),
        decreases k,
    {
        k = k - 1;
        ops.push(backwards[k]);
    }
    assert(backwards@.reverse().take(backwards@.len() as int) == backwards@.reverse());
    ops
}

// ---- showing them ----------------------------------------------------------------

/// The characters that steps show on one side, each with whether it is a change.
pub open spec fn cells(ops: Seq<DiffOp>, old_side: bool) -> Seq<(char, bool)>
    decreases ops.len(),
{
    if ops.len() == 0 {
        Seq::empty()
    } else {
        let before = cells(ops.drop_last(), old_side);
        match ops.last() {
            DiffOp::Same(c) => before.push((c, false)),
            DiffOp::Old(c) => if old_side {
                before.push((c, true))
            } else {
                before
            },
            DiffOp::New(c) => if old_side {
                before
            } else {
                before.push((c, true))
            },
        }
    }
}

/// Whether the last of the characters is a change.
pub open spec fn ends_changed(cells: Seq<(char, bool)>) -> bool {
    cells.len() > 0 && cells.last().1
}

/// The characters, with `color` where changes begin and a reset where they end, up
/// to the last character.
pub open spec fn painted(cells: Seq<(char, bool)>, color: Seq<char>) -> Seq<char>
    decreases cells.len(),
{
    if cells.len() == 0 {
        Seq::empty()
    } else {
        let before = cells.drop_last();
        let (c, changed) = cells.last();
        let switch = if changed && !ends_changed(before) {
            color
        } else if !changed && ends_changed(before) {
            "\x1b[m"@
        } else {
            Seq::empty()
        };
        (painted(before, color) + switch).push(c)
    }
}

/// One side of the steps, with the changes in color.
pub open spec fn rendered(ops: Seq<DiffOp>, old_side: bool, color: Seq<char>) -> Seq<char> {
    let all = cells(ops, old_side);
    painted(all, color) + (if ends_changed(all) {
        "\x1b[m"@
    } else {
        Seq::empty()
    })
}

/// One side of the steps, with the changes in color.
pub fn render_diff_side(ops: &[DiffOp], old_side: bool, color: &str) -> (out: String)
    ensures
        out@ == rendered(ops@, old_side, color@),
{
    let mut out = String::new();
    let mut colored = false;
    for i in 0..ops.len()
        invariant
            out@ == painted(cells(ops@.take(i as int), old_side), color@),
            colored == ends_changed(cells(ops@.take(i as int), old_side)),
    {
        let ghost before = cells(ops@.take(i as int), old_side);
        assert(ops@.take(i + 1).drop_last() == ops@.take(i as int));
        assert(ops@.take(i + 1).last() == ops@[i as int]);
        let shown: Option<(char, bool)> = match ops[i] {
            DiffOp::Same(c) => Some((c, false)),
            DiffOp::Old(c) => if old_side {
                Some((c, true))
            } else {
                None
            },
            DiffOp::New(c) => if old_side {
                None
            } else {
                Some((c, true))
            },
        };
        if let Some((c, changed)) = shown {
            assert(before.push((c, changed)).drop_last() == before);
            let ghost so_far = out@;
            assert(so_far + Seq::<char>::empty() == so_far);
            if changed && !colored {
                out.push_str(color);
            } else if !changed && colored {
                out.push_str("\x1b[m");
            }
            colored = changed;
            out.push(c);
        }
    }
    assert(ops@.take(ops@.len() as int) == ops@);
    let ghost so_far = out@;
    assert(so_far + Seq::<char>::empty() == so_far);
    if colored {
        out.push_str("\x1b[m");
    }
    out
}

/// A line that shows a rename: what goes in red, what comes in green.
pub open spec fn colored_line(old: Seq<char>, new: Seq<char>) -> Seq<char> {
    rendered(steps(old, new), true, "\x1b[31m"@) + " \x1b[2m\u{2192}\x1b[m "@ + rendered(
        steps(old, new),
        false,
        "\x1b[32m"@,
    )
}

/// A line that shows a rename: what goes in red, what comes in green.
pub fn colorized_rename_line(old: &str, new: &str) -> (line: String)
    ensures
        line@ == colored_line(old@, new@),
{
    let ops = diff_chars(old, new);
    let mut line = render_diff_side(&ops, true, "\x1b[31m");
    line.push_str(" \x1b[2m\u{2192}\x1b[m ");
    let right = render_diff_side(&ops, false, "\x1b[32m");
    line.push_str(right.as_str());
    line
}

/// A path as it is shown: as text, without a `./` at its beginning.
pub open spec fn displayed(p: Seq<u8>) -> Seq<char> {
    let shown = text::lossy(p);
    if text::starts_with(shown, "./"@) {
        shown.skip(2)
    } else {
        shown
    }
}

/// The path as it is shown.
pub fn display_path(path: &PathName) -> (out: String)
    ensures
        out@ == displayed(path@),
{
    let shown = path.to_text_lossy();
    let chars = text::chars_of(shown.as_str());
    assert(chars@.skip(0) == chars@);
    if text::chars_start_with(&chars, 0, "./") {
        proof {
            reveal_strlit("./");
        }
        let rest = text::string_of_range(&chars, 2, chars.len());
        assert(rest@ == shown@.skip(2));
        rest
    } else {
        shown
    }
}

/// The characters that are shown on a side are the characters of that side.
pub proof fn law_cells_are_the_side(ops: Seq<DiffOp>, old_side: bool)
    ensures
        cells(ops, old_side).map_values(|cell: (char, bool)| cell.0) == side(ops, old_side),
    decreases ops.len(),
{
    if ops.len() > 0 {
        law_cells_are_the_side(ops.drop_last(), old_side);
        let before = cells(ops.drop_last(), old_side);
        assert(cells(ops, old_side).map_values(|cell: (char, bool)| cell.0) =~= side(
            ops,
            old_side,
        ));
    }
}

/// What does not change is shown as it is.
pub proof fn law_unchanged_text_is_plain(a: Seq<char>, old_side: bool, color: Seq<char>)
    ensures
        rendered(steps(a, a), old_side, color) == a,
{
    law_no_difference_no_change(a);
    lemma_plain(a, old_side, color);
    let all = cells(steps(a, a), old_side);
    assert(painted(all, color) + Seq::<char>::empty() == painted(all, color));
}

proof fn lemma_plain(a: Seq<char>, old_side: bool, color: Seq<char>)
    ensures
        painted(cells(a.map_values(|c: char| keep(c)), old_side), color) == a,
        !ends_changed(cells(a.map_values(|c: char| keep(c)), old_side)),
    decreases a.len(),
{
    let ops = a.map_values(|c: char| keep(c));
    if a.len() > 0 {
        let less = a.drop_last();
        lemma_plain(less, old_side, color);
        assert(ops.drop_last() == less.map_values(|c: char| keep(c)));
        assert(ops.last() == keep(a.last()));
        let before = cells(ops.drop_last(), old_side);
        assert(cells(ops, old_side).drop_last() == before);
        assert(less + Seq::<char>::empty() == less);
        assert(less.push(a.last()) == a);
    }
}

// ---- laws on what is shown ----------------------------------------------------------

/// A path is shown as it is, without a `./` before it.
pub proof fn law_paths_are_shown_without_a_dot(p: Seq<u8>, rest: Seq<char>)
    ensures
        text::lossy(p) == seq!['.', '/'] + rest ==> displayed(p) == rest,
        !(text::lossy(p).len() >= 2 && text::lossy(p)[0] == '.' && text::lossy(p)[1] == '/')
            ==> displayed(p) == text::lossy(p),
{
    reveal_strlit("./");
    let dotted = seq!['.', '/'] + rest;
    assert(dotted.take(2) =~= "./"@);
    assert(dotted.skip(2) =~= rest);
    let shown = text::lossy(p);
    if text::starts_with(shown, "./"@) {
        assert(shown.take(2)[0] == '.' && shown.take(2)[1] == '/');
    }
}

/// The cells of a side, in pieces: what is in both sides is not marked, what is in the
/// one alone is, and what is in the other alone is not there.
pub proof fn law_cells_mark_what_differs(a: Seq<DiffOp>, b: Seq<DiffOp>, c: char)
    ensures
        cells(a + b, true) == cells(a, true) + cells(b, true),
        cells(a + b, false) == cells(a, false) + cells(b, false),
        cells(seq![DiffOp::Same(c)], true) == seq![(c, false)],
        cells(seq![DiffOp::Same(c)], false) == seq![(c, false)],
        cells(seq![DiffOp::Old(c)], true) == seq![(c, true)],
        cells(seq![DiffOp::Old(c)], false) == Seq::<(char, bool)>::empty(),
        cells(seq![DiffOp::New(c)], true) == Seq::<(char, bool)>::empty(),
        cells(seq![DiffOp::New(c)], false) == seq![(c, true)],
    decreases b.len(),
{
    assert(cells(Seq::empty(), true) =~= Seq::<(char, bool)>::empty());
    assert(cells(Seq::empty(), false) =~= Seq::<(char, bool)>::empty());
    assert(seq![DiffOp::Same(c)].drop_last() =~= Seq::<DiffOp>::empty());
    assert(seq![DiffOp::Old(c)].drop_last() =~= Seq::<DiffOp>::empty());
    assert(seq![DiffOp::New(c)].drop_last() =~= Seq::<DiffOp>::empty());
    assert(cells(seq![DiffOp::Same(c)], true) =~= seq![(c, false)]);
    assert(cells(seq![DiffOp::Same(c)], false) =~= seq![(c, false)]);
    assert(cells(seq![DiffOp::Old(c)], true) =~= seq![(c, true)]);
    assert(cells(seq![DiffOp::New(c)], false) =~= seq![(c, true)]);
    if b.len() == 0 {
        assert(a + b =~= a);
        assert(cells(a, true) + cells(b, true) =~= cells(a, true));
        assert(cells(a, false) + cells(b, false) =~= cells(a, false));
    } else {
        assert((a + b).drop_last() =~= a + b.drop_last());
        law_cells_mark_what_differs(a, b.drop_last(), c);
        assert(cells(a + b, true) =~= cells(a, true) + cells(b, true));
        assert(cells(a + b, false) =~= cells(a, false) + cells(b, false));
    }
}

/// Cells of a text, all marked or all not.
pub open spec fn cells_of(t: Seq<char>, changed: bool) -> Seq<(char, bool)> {
    t.map_values(|c: char| (c, changed))
}

/// Each run of marked cells is painted: the color stands before it and the reset
/// behind it, once each, and what is not marked stands as it is.
pub proof fn law_runs_are_painted(
    before: Seq<(char, bool)>,
    plain: Seq<char>,
    changed: Seq<char>,
    color: Seq<char>,
)
    requires
        !ends_changed(before),
        changed.len() > 0,
    ensures
        painted(before + cells_of(plain, false), color) == painted(before, color) + plain,
        painted(before + cells_of(changed, true), color) == painted(before, color) + color
            + changed,
        plain.len() > 0 ==> painted(
            before + cells_of(changed, true) + cells_of(plain, false),
            color,
        ) == painted(before, color) + color + changed + "\x1b[m"@ + plain,
{
    lemma_painted_plain(before, plain, color);
    lemma_painted_changed(before, changed, color);
    if plain.len() > 0 {
        let marked = before + cells_of(changed, true);
        let first = seq![plain[0]];
        let rest = plain.skip(1);
        let c = (plain[0], false);
        assert(cells_of(changed, true).last().1);
        assert(ends_changed(marked));
        assert(marked.push(c).drop_last() =~= marked);
        assert(painted(marked.push(c), color) =~= painted(marked, color) + "\x1b[m"@ + first);
        assert(!ends_changed(marked.push(c)));
        lemma_painted_plain(marked.push(c), rest, color);
        assert(marked.push(c) + cells_of(rest, false) =~= marked + cells_of(plain, false));
        assert(painted(marked, color) + "\x1b[m"@ + first + rest =~= painted(before, color) + color
            + changed + "\x1b[m"@ + plain);
    }
}

proof fn lemma_painted_plain(before: Seq<(char, bool)>, plain: Seq<char>, color: Seq<char>)
    requires
        !ends_changed(before),
    ensures
        painted(before + cells_of(plain, false), color) == painted(before, color) + plain,
        !ends_changed(before + cells_of(plain, false)),
    decreases plain.len(),
{
    if plain.len() == 0 {
        assert(before + cells_of(plain, false) =~= before);
        assert(painted(before, color) + plain =~= painted(before, color));
    } else {
        let head = plain.drop_last();
        lemma_painted_plain(before, head, color);
        let all = before + cells_of(plain, false);
        assert(all.drop_last() =~= before + cells_of(head, false));
        assert(all.last() == (plain.last(), false));
        assert(painted(all, color) =~= painted(before, color) + plain);
    }
}

proof fn lemma_painted_changed(before: Seq<(char, bool)>, changed: Seq<char>, color: Seq<char>)
    requires
        !ends_changed(before),
        changed.len() > 0,
    ensures
        painted(before + cells_of(changed, true), color) == painted(before, color) + color
            + changed,
        ends_changed(before + cells_of(changed, true)),
    decreases changed.len(),
{
    let all = before + cells_of(changed, true);
    let head = changed.drop_last();
    assert(all.drop_last() =~= before + cells_of(head, true));
    assert(all.last() == (changed.last(), true));
    if changed.len() == 1 {
        assert(before + cells_of(head, true) =~= before);
        assert(painted(all, color) =~= painted(before, color) + color + changed);
    } else {
        lemma_painted_changed(before, head, color);
        assert(painted(all, color) =~= painted(before, color) + color + changed);
    }
}

/// A side is painted, and the color does not run on behind it. The old side is red,
/// the new one green, and an arrow stands between the two.
pub proof fn law_lines_show_old_and_new(
    old: Seq<char>,
    new: Seq<char>,
    ops: Seq<DiffOp>,
    old_side: bool,
    color: Seq<char>,
)
    ensures
        painted(Seq::empty(), color) == Seq::<char>::empty(),
        ends_changed(cells(ops, old_side)) ==> rendered(ops, old_side, color) == painted(
            cells(ops, old_side),
            color,
        ) + "\x1b[m"@,
        !ends_changed(cells(ops, old_side)) ==> rendered(ops, old_side, color) == painted(
            cells(ops, old_side),
            color,
        ),
        colored_line(old, new) == rendered(steps(old, new), true, "\x1b[31m"@)
            + " \x1b[2m\u{2192}\x1b[m "@ + rendered(steps(old, new), false, "\x1b[32m"@),
{
    assert(painted(cells(ops, old_side), color) + Seq::<char>::empty() =~= painted(
        cells(ops, old_side),
        color,
    ));
}

/// Texts that end alike keep that end. Else what is put in comes last if more can be
/// kept without it, and what is left out comes last if not.
pub proof fn law_steps_end_where_the_texts_end(a: Seq<char>, b: Seq<char>)
    ensures
        a.len() > 0 && b.len() > 0 && a.last() == b.last() ==> steps(a, b) == steps(
            a.drop_last(),
            b.drop_last(),
        ).push(DiffOp::Same(a.last())),
        a.len() > 0 && b.len() > 0 && a.last() != b.last() && common_len(a, b.drop_last())
            > common_len(a.drop_last(), b) ==> steps(a, b) == steps(a, b.drop_last()).push(
            DiffOp::New(b.last()),
        ),
        a.len() > 0 && b.len() > 0 && a.last() != b.last() && common_len(a, b.drop_last())
            <= common_len(a.drop_last(), b) ==> steps(a, b) == steps(a.drop_last(), b).push(
            DiffOp::Old(a.last()),
        ),
        a.len() == 0 && b.len() > 0 ==> steps(a, b) == steps(a, b.drop_last()).push(
            DiffOp::New(b.last()),
        ),
        a.len() > 0 && b.len() == 0 ==> steps(a, b) == steps(a.drop_last(), b).push(
            DiffOp::Old(a.last()),
        ),
        a.len() == 0 && b.len() == 0 ==> steps(a, b) == Seq::<DiffOp>::empty(),
{
}

} // verus!
