//! What stands in the way of a plan: entries that would get the same name, and
//! entries that would take the place of something else.
//!
//! Names that differ in letter case only are taken to be the same, as they are on
//! some file systems.

use vstd::prelude::*;
use crate::rename;
use crate::rename::{PlanEntry, Planned};
use crate::sort;
use crate::text;

verus! {

/// A path as it is compared: as text, in lower case.
pub open spec fn folded(p: Seq<u8>) -> Seq<char> {
    text::lowercased(text::lossy(p))
}

/// Whether two of the entries would get the given name.
pub open spec fn shared(plan: Seq<Planned>, key: Seq<char>) -> bool {
    exists|i: int, j: int|
        0 <= i < j < plan.len() && folded((#[trigger] plan[i]).new) == key && folded(
            (#[trigger] plan[j]).new,
        ) == key
}

/// The entries that would get the given name, in the order of the plan.
pub open spec fn sources(plan: Seq<Planned>, key: Seq<char>) -> Seq<Seq<char>>
    decreases plan.len(),
{
    if plan.len() == 0 {
        Seq::empty()
    } else {
        let before = sources(plan.drop_last(), key);
        if folded(plan.last().new) == key {
            before.push(text::lossy(plan.last().old))
        } else {
            before
        }
    }
}

/// A name that more than one entry would get, and the entries that would.
pub struct Collision {
    pub key: Seq<char>,
    pub sources: Seq<Seq<char>>,
}

/// Whether a name is among those of the collisions.
pub open spec fn names_key(collisions: Seq<Collision>, key: Seq<char>) -> bool {
    exists|g: int| 0 <= g < collisions.len() && (#[trigger] collisions[g]).key == key
}

/// Whether these are the collisions in the plan: each name that more than one
/// entry would get, in the order of the names, with its entries.
pub open spec fn are_collisions(plan: Seq<Planned>, collisions: Seq<Collision>) -> bool {
    &&& forall|g: int, h: int|
        0 <= g < h < collisions.len() ==> text::lex_before(
            (#[trigger] collisions[g]).key,
            (#[trigger] collisions[h]).key,
        )
    &&& forall|key: Seq<char>| #[trigger]
        names_key(collisions, key) <==> shared(plan, key)
    &&& forall|g: int|
        0 <= g < collisions.len() ==> (#[trigger] collisions[g]).sources == sources(
            plan,
            collisions[g].key,
        )
}

/// Whether some entry of the plan is at the given path.
pub open spec fn leaves(plan: Seq<Planned>, key: Seq<char>) -> bool {
    exists|j: int| 0 <= j < plan.len() && folded((#[trigger] plan[j]).old) == key
}

/// Those of the first `n` entries that would take the place of something that is
/// there and is not going to move: from where, and to where.
pub open spec fn overwrites_upto(plan: Seq<Planned>, occupied: Seq<bool>, n: int) -> Seq<
    (Seq<char>, Seq<char>),
>
    decreases n,
{
    if n <= 0 {
        Seq::empty()
    } else {
        let before = overwrites_upto(plan, occupied, n - 1);
        let e = plan[n - 1];
        if occupied[n - 1] && !leaves(plan, folded(e.new)) {
            before.push((text::lossy(e.old), text::lossy(e.new)))
        } else {
            before
        }
    }
}

/// The entries that would take the place of something that is there and is not
/// going to move.
pub open spec fn overwrites(plan: Seq<Planned>, occupied: Seq<bool>) -> Seq<
    (Seq<char>, Seq<char>),
> {
    overwrites_upto(plan, occupied, plan.len() as int)
}

/// A name that more than one entry would get.
#[derive(Debug)]
pub struct DuplicateTarget {
    /// The name, in lower case.
    pub key: String,
    /// The entries that would get it.
    pub sources: Vec<String>,
}

impl View for DuplicateTarget {
    type V = Collision;

    open spec fn view(&self) -> Collision {
        Collision { key: self.key@, sources: text::views(self.sources@) }
    }
}

/// What the duplicates are.
pub open spec fn collisions(duplicates: Seq<DuplicateTarget>) -> Seq<Collision> {
    duplicates.map_values(|d: DuplicateTarget| d@)
}

/// An entry that would take the place of something else.
#[derive(Debug)]
pub struct OverwrittenTarget {
    pub old: String,
    pub new: String,
}

/// What the overwritten targets are.
pub open spec fn overwritten(targets: Seq<OverwrittenTarget>) -> Seq<(Seq<char>, Seq<char>)> {
    targets.map_values(|t: OverwrittenTarget| (t.old@, t.new@))
}

/// Why a plan cannot be carried out.
#[derive(Debug)]
pub enum PlanConflict {
    /// More than one entry would get the same name.
    Duplicates(Vec<DuplicateTarget>),
    /// Something would be overwritten.
    Overwrites(Vec<OverwrittenTarget>),
}

// ---- messages --------------------------------------------------------------------

/// The lines about collisions.
pub open spec fn collision_lines(collisions: Seq<Collision>) -> Seq<char>
    decreases collisions.len(),
{
    if collisions.len() == 0 {
        Seq::empty()
    } else {
        let c = collisions.last();
        collision_lines(collisions.drop_last()) + "\n  "@ + c.key + " \u{2190} "@ + text::joined(
            c.sources,
            ", "@,
        )
    }
}

/// The lines about what would be overwritten.
pub open spec fn overwrite_lines(targets: Seq<(Seq<char>, Seq<char>)>) -> Seq<char>
    decreases targets.len(),
{
    if targets.len() == 0 {
        Seq::empty()
    } else {
        overwrite_lines(targets.drop_last()) + "\n  "@ + targets.last().0 + " -> "@
            + targets.last().1
    }
}

impl PlanConflict {
    /// The conflict in words.
    pub open spec fn words(&self) -> Seq<char> {
        match *self {
            PlanConflict::Duplicates(list) => "rename plan has within-plan conflicts:"@
                + collision_lines(collisions(list@)),
            PlanConflict::Overwrites(list) => "rename plan would overwrite existing paths:"@
                + overwrite_lines(overwritten(list@)),
        }
    }

    /// The conflict in words: a heading, and a line for each path.
    pub fn message(&self) -> (out: String)
        ensures
            out@ == self.words(),
    {
        match self {
            PlanConflict::Duplicates(list) => {
                let mut out = "rename plan has within-plan conflicts:".to_string();
                let ghost heading = out@;
                let ghost all = collisions(list@);
                assert(heading + collision_lines(all.take(0)) == heading);
                for i in 0..list.len()
                    invariant
                        all == collisions(list@),
                        out@ == heading + collision_lines(all.take(i as int)),
                {
                    let ghost before = out@;
                    let d = &list[i];
                    assert(all.take(i + 1).drop_last() == all.take(i as int));
                    assert(all.take(i + 1).last() == d@);
                    out.push_str("\n  ");
                    out.push_str(d.key.as_str());
                    out.push_str(" \u{2190} ");
                    let joined = text::join_strings(&d.sources, ", ");
                    out.push_str(joined.as_str());
                    assert(out@ == heading + collision_lines(all.take(i + 1)));
                }
                assert(all.take(all.len() as int) == all);
                out
            },
            PlanConflict::Overwrites(list) => {
                let mut out = "rename plan would overwrite existing paths:".to_string();
                let ghost heading = out@;
                let ghost all = overwritten(list@);
                assert(heading + overwrite_lines(all.take(0)) == heading);
                for i in 0..list.len()
                    invariant
                        all == overwritten(list@),
                        out@ == heading + overwrite_lines(all.take(i as int)),
                {
                    let t = &list[i];
                    assert(all.take(i + 1).drop_last() == all.take(i as int));
                    assert(all.take(i + 1).last() == (t.old@, t.new@));
                    out.push_str("\n  ");
                    out.push_str(t.old.as_str());
                    out.push_str(" -> ");
                    out.push_str(t.new.as_str());
                    assert(out@ == heading + overwrite_lines(all.take(i + 1)));
                }
                assert(all.take(all.len() as int) == all);
                out
            },
        }
    }
}

// ---- looking for conflicts -------------------------------------------------------

/// Texts, to be put in order.
struct Keys {
    keys: Vec<Vec<char>>,
}

impl sort::Ranked for Keys {
    closed spec fn count(&self) -> nat {
        self.keys@.len()
    }

    closed spec fn precedes(&self, a: int, b: int) -> bool {
        text::lex_before(self.keys@[a]@, self.keys@[b]@)
    }

    fn comes_before(&self, a: usize, b: usize) -> (first: bool) {
        proof {
            let x = self.keys@[a as int]@;
            let y = self.keys@[b as int]@;
            assert forall|c: int| 0 <= c < self.count() implies {
                let z = (#[trigger] self.keys@[c])@;
                &&& text::lex_before(x, y) ==> !text::lex_before(y, x)
                &&& text::lex_before(x, y) ==> text::lex_before(x, z) || text::lex_before(z, y)
                &&& text::lex_before(x, y) && text::lex_before(z, x) ==> text::lex_before(z, y)
                &&& !text::lex_before(x, y) && text::lex_before(z, y) ==> text::lex_before(z, x)
            } by {
                let z = self.keys@[c]@;
                text::law_texts_are_ordered(x, y, z);
                text::law_texts_are_ordered(z, x, y);
                text::law_texts_are_ordered(z, y, x);
                text::law_texts_are_ordered(x, z, y);
            }
            assert(self.keys@[a as int]@ == x);
        }
        text::chars_before(&self.keys[a], &self.keys[b])
    }
}

impl Keys {
    /// The text at a place in an order.
    spec fn at(&self, order: Seq<usize>, m: int) -> Seq<char> {
        self.keys@[order[m] as int]@
    }

    /// Whether the texts are in order.
    spec fn sorted_by(&self, order: Seq<usize>) -> bool {
        &&& sort::takes_all(order, 0, self.keys@.len() as int)
        &&& forall|i: int, j: int|
            0 <= i < j < order.len() ==> !text::lex_before(
                #[trigger] self.at(order, j),
                #[trigger] self.at(order, i),
            )
    }

    fn sorted(&self) -> (order: Vec<usize>)
        ensures
            self.sorted_by(order@),
    {
        let order = sort::sorted_order(self, self.keys.len());
        proof {
            assert forall|i: int, j: int| 0 <= i < j < order@.len() implies !text::lex_before(
                #[trigger] self.at(order@, j),
                #[trigger] self.at(order@, i),
            ) by {
                assert(order@.contains(order@[i]));
                assert(order@.contains(order@[j]));
                assert(sort::follows(self, order@[i] as int, order@[j] as int));
            }
        }
        order
    }

    /// Texts between two that are the same are the same too.
    proof fn lemma_run(&self, order: Seq<usize>, i: int, m: int, j: int)
        requires
            self.sorted_by(order),
            0 <= i <= m <= j < order.len(),
            self.at(order, i) == self.at(order, j),
        ensures
            self.at(order, m) == self.at(order, i),
    {
        if i < m < j {
            text::law_texts_are_ordered(self.at(order, i), self.at(order, m), self.at(order, i));
            assert(!text::lex_before(self.at(order, m), self.at(order, i)));
            assert(!text::lex_before(self.at(order, j), self.at(order, m)));
        }
    }

    /// Whether the given text is among the sorted ones.
    fn contains(&self, order: &Vec<usize>, key: &Vec<char>) -> (found: bool)
        requires
            self.sorted_by(order@),
        ensures
            found == exists|k: int| 0 <= k < self.keys@.len() && (#[trigger] self.keys@[k])@ == key@,
    {
        let mut lo: usize = 0;
        let mut hi: usize = order.len();
        while lo < hi
            invariant
                self.sorted_by(order@),
                lo <= hi <= order@.len(),
                forall|m: int| 0 <= m < lo ==> text::lex_before(#[trigger] self.at(order@, m), key@),
                forall|m: int|
                    hi <= m < order@.len() ==> text::lex_before(key@, #[trigger] self.at(order@, m)),
            decreases hi - lo,
        {
            let mid: usize = lo + (hi - lo) / 2;
            assert(order@.contains(order@[mid as int]));
            let here = &self.keys[order[mid]];
            let ghost pivot = self.at(order@, mid as int);
            proof {
                assert forall|m: int| 0 <= m < mid && text::lex_before(pivot, key@) implies
                    text::lex_before(#[trigger] self.at(order@, m), key@) by {
                    text::law_texts_are_ordered(self.at(order@, m), pivot, key@);
                }
                assert forall|m: int|
                    mid < m < order@.len() && text::lex_before(key@, pivot) implies
                    text::lex_before(key@, #[trigger] self.at(order@, m)) by {
                    text::law_texts_are_ordered(pivot, self.at(order@, m), key@);
                    text::law_texts_are_ordered(key@, pivot, self.at(order@, m));
                }
                text::law_texts_are_ordered(pivot, key@, pivot);
            }
            if text::chars_before(here, key) {
                lo = mid + 1;
            } else if text::chars_before(key, here) {
                hi = mid;
            } else {
                assert(self.keys@[order@[mid as int] as int]@ == key@);
                return true;
            }
        }
        proof {
            if exists|k: int| 0 <= k < self.keys@.len() && (#[trigger] self.keys@[k])@ == key@ {
                let k = choose|k: int|
                    0 <= k < self.keys@.len() && (#[trigger] self.keys@[k])@ == key@;
                assert(order@.contains(k as usize));
                let m = choose|m: int| 0 <= m < order@.len() && order@[m] == k as usize;
                assert(self.at(order@, m) == key@);
                text::law_texts_are_ordered(key@, key@, key@);
            }
        }
        false
    }
}

fn sources_of(plan: &[PlanEntry], keys: &Keys, key: &Vec<char>) -> (out: Vec<String>)
    requires
        keys.keys@.len() == plan@.len(),
        forall|k: int|
            0 <= k < plan@.len() ==> (#[trigger] keys.keys@[k])@ == folded(
                rename::planned(plan@)[k].new,
            ),
    ensures
        text::views(out@) == sources(rename::planned(plan@), key@),
{
    let mut out: Vec<String> = Vec::new();
    let ghost all = rename::planned(plan@);
    assert(text::views(out@) == Seq::<Seq<char>>::empty());
    for i in 0..plan.len()
        invariant
            all == rename::planned(plan@),
            keys.keys@.len() == plan@.len(),
            forall|k: int|
                0 <= k < plan@.len() ==> (#[trigger] keys.keys@[k])@ == folded(all[k].new),
            text::views(out@) == sources(all.take(i as int), key@),
    {
        assert(all.take(i + 1).drop_last() == all.take(i as int));
        assert(keys.keys@[i as int]@ == folded(all[i as int].new));
        if text::same_chars(&keys.keys[i], key) {
            let ghost before = text::views(out@);
            out.push(plan[i].old.to_text_lossy());
            assert(text::views(out@) == before.push(text::lossy(all[i as int].old)));
        }
    }
    assert(all.take(all.len() as int) == all);
    out
}

/// Whether the text at `m` is the first of several that are the same.
spec fn begins_run(keys: &Keys, order: Seq<usize>, m: int) -> bool {
    &&& m + 1 < order.len()
    &&& keys.at(order, m + 1) == keys.at(order, m)
    &&& m == 0 || keys.at(order, m - 1) != keys.at(order, m)
}

/// Whether `marks` are the places before `n` at which a run begins.
spec fn marks_runs(keys: &Keys, order: Seq<usize>, marks: Seq<int>, n: int) -> bool {
    &&& forall|g: int|
        0 <= g < marks.len() ==> 0 <= #[trigger] marks[g] < n && begins_run(keys, order, marks[g])
    &&& forall|g: int, h: int|
        0 <= g < h < marks.len() ==> (#[trigger] marks[g]) < (#[trigger] marks[h])
    &&& forall|m: int| 0 <= m < n && begins_run(keys, order, m) ==> #[trigger] marks.contains(m)
}

proof fn lemma_runs_are_collisions(
    plan: Seq<Planned>,
    keys: &Keys,
    order: Seq<usize>,
    marks: Seq<int>,
    found: Seq<Collision>,
)
    requires
        keys.keys@.len() == plan.len() <= usize::MAX,
        forall|k: int|
            0 <= k < plan.len() ==> (#[trigger] keys.keys@[k])@ == folded(plan[k].new),
        keys.sorted_by(order),
        marks_runs(keys, order, marks, order.len() as int),
        found.len() == marks.len(),
        forall|g: int|
            0 <= g < marks.len() ==> (#[trigger] found[g]).key == keys.at(order, marks[g])
                && found[g].sources == sources(plan, found[g].key),
    ensures
        are_collisions(plan, found),
{
    let n = order.len() as int;
    assert forall|g: int, h: int| 0 <= g < h < found.len() implies text::lex_before(
        (#[trigger] found[g]).key,
        (#[trigger] found[h]).key,
    ) by {
        let a = marks[g];
        let b = marks[h];
        assert(a < b);
        assert(begins_run(keys, order, a) && begins_run(keys, order, b));
        text::law_texts_are_ordered(found[g].key, found[h].key, found[g].key);
        assert(!text::lex_before(keys.at(order, b), keys.at(order, a)));
        if keys.at(order, a) == keys.at(order, b) {
            keys.lemma_run(order, a, b - 1, b);
        }
    }
    assert forall|key: Seq<char>| #[trigger] names_key(found, key) <==> shared(plan, key) by {
        if names_key(found, key) {
            let g = choose|g: int| 0 <= g < found.len() && (#[trigger] found[g]).key == key;
            let m = marks[g];
            assert(begins_run(keys, order, m));
            let i = order[m] as int;
            let j = order[m + 1] as int;
            assert(order.contains(order[m]) && order.contains(order[m + 1]));
            assert(i != j);
            assert(keys.keys@[i]@ == folded(plan[i].new));
            assert(keys.keys@[j]@ == folded(plan[j].new));
            if i < j {
                assert(folded(plan[i].new) == key && folded(plan[j].new) == key);
            } else {
                assert(folded(plan[j].new) == key && folded(plan[i].new) == key);
            }
        }
        if shared(plan, key) {
            let (i, j) = choose|i: int, j: int|
                0 <= i < j < plan.len() && folded((#[trigger] plan[i]).new) == key && folded(
                    (#[trigger] plan[j]).new,
                ) == key;
            assert(keys.keys@[i]@ == key && keys.keys@[j]@ == key);
            assert(order.contains(i as usize) && order.contains(j as usize));
            let a = choose|m: int| 0 <= m < n && order[m] == i as usize;
            let b = choose|m: int| 0 <= m < n && order[m] == j as usize;
            assert(a != b);
            assert(keys.at(order, a) == key && keys.at(order, b) == key);
            let (lo, hi) = if a < b {
                (a, b)
            } else {
                (b, a)
            };
            let m = lemma_run_begins(keys, order, lo, hi);
            assert(marks.contains(m));
            let g = choose|g: int| 0 <= g < marks.len() && marks[g] == m;
            assert(found[g].key == key);
        }
    }
}

/// A run that two places are in begins somewhere.
proof fn lemma_run_begins(keys: &Keys, order: Seq<usize>, lo: int, hi: int) -> (m: int)
    requires
        keys.sorted_by(order),
        0 <= lo < hi < order.len(),
        keys.at(order, lo) == keys.at(order, hi),
    ensures
        0 <= m < order.len(),
        begins_run(keys, order, m),
        keys.at(order, m) == keys.at(order, lo),
    decreases lo,
{
    if lo > 0 && keys.at(order, lo - 1) == keys.at(order, lo) {
        lemma_run_begins(keys, order, lo - 1, hi)
    } else {
        keys.lemma_run(order, lo, lo + 1, hi);
        lo
    }
}

/// The names that more than one entry would get.
fn find_duplicates(plan: &[PlanEntry]) -> (duplicates: Vec<DuplicateTarget>)
    ensures
        are_collisions(rename::planned(plan@), collisions(duplicates@)),
{
    let ghost all = rename::planned(plan@);
    let mut list: Vec<Vec<char>> = Vec::new();
    for i in 0..plan.len()
        invariant
            all == rename::planned(plan@),
            list@.len() == i,
            forall|k: int| 0 <= k < i ==> (#[trigger] list@[k])@ == folded(all[k].new),
    {
        let shown = plan[i].new.to_text_lossy();
        let lowered = text::to_lowercase(shown.as_str());
        list.push(text::chars_of(lowered.as_str()));
    }
    let keys = Keys { keys: list };
    let order = keys.sorted();
    let mut duplicates: Vec<DuplicateTarget> = Vec::new();
    let ghost mut marks: Seq<int> = Seq::empty();
    for m in 0..order.len()
        invariant
            all == rename::planned(plan@),
            keys.keys@.len() == plan@.len(),
            forall|k: int|
                0 <= k < plan@.len() ==> (#[trigger] keys.keys@[k])@ == folded(all[k].new),
            keys.sorted_by(order@),
            marks_runs(&keys, order@, marks, m as int),
            duplicates@.len() == marks.len(),
            forall|g: int|
                0 <= g < marks.len() ==> (#[trigger] collisions(duplicates@)[g]).key == keys.at(
                    order@,
                    marks[g],
                ) && collisions(duplicates@)[g].sources == sources(
                    all,
                    collisions(duplicates@)[g].key,
                ),
    {
        assert(order@.contains(order@[m as int]));
        assert(m + 1 < order@.len() ==> order@.contains(order@[m + 1]));
        assert(m > 0 ==> order@.contains(order@[m - 1]));
        let here = &keys.keys[order[m]];
        let first = m == 0 || !text::same_chars(&keys.keys[order[m - 1]], here);
        let begins = first && m + 1 < order.len() && text::same_chars(
            &keys.keys[order[m + 1]],
            here,
        );
        assert(begins == begins_run(&keys, order@, m as int));
        let ghost before = collisions(duplicates@);
        let ghost old_marks = marks;
        if begins {
            let d = DuplicateTarget {
                key: text::string_of(here),
                sources: sources_of(plan, &keys, here),
            };
            duplicates.push(d);
            proof {
                marks = marks.push(m as int);
                assert(collisions(duplicates@) == before.push(d@));
            }
        }
        proof {
            assert forall|k: int| 0 <= k < m + 1 && begins_run(&keys, order@, k) implies
                #[trigger] marks.contains(k) by {
                if k < m {
                    assert(old_marks.contains(k));
                    let g = choose|g: int| 0 <= g < old_marks.len() && old_marks[g] == k;
                    assert(marks[g] == k);
                } else {
                    assert(marks[marks.len() - 1] == k);
                }
            }
            assert forall|g: int| 0 <= g < marks.len() implies (#[trigger] collisions(
                duplicates@,
            )[g]).key == keys.at(order@, marks[g]) && collisions(duplicates@)[g].sources
                == sources(all, collisions(duplicates@)[g].key) by {
                if g < old_marks.len() {
                    assert(collisions(duplicates@)[g] == before[g]);
                    assert(marks[g] == old_marks[g]);
                }
            }
        }
    }
    proof {
        assert(keys.keys@.len() == keys.keys.len());
        lemma_runs_are_collisions(all, &keys, order@, marks, collisions(duplicates@));
    }
    duplicates
}

/// The entries that would take the place of something that is not going to move.
fn find_overwrites(plan: &[PlanEntry], occupied: &[bool]) -> (targets: Vec<OverwrittenTarget>)
    requires
        plan@.len() == occupied@.len(),
    ensures
        overwritten(targets@) == overwrites(rename::planned(plan@), occupied@),
{
    let ghost all = rename::planned(plan@);
    let mut list: Vec<Vec<char>> = Vec::new();
    for i in 0..plan.len()
        invariant
            all == rename::planned(plan@),
            list@.len() == i,
            forall|k: int| 0 <= k < i ==> (#[trigger] list@[k])@ == folded(all[k].old),
    {
        let shown = plan[i].old.to_text_lossy();
        let lowered = text::to_lowercase(shown.as_str());
        list.push(text::chars_of(lowered.as_str()));
    }
    let keys = Keys { keys: list };
    let order = keys.sorted();
    let mut targets: Vec<OverwrittenTarget> = Vec::new();
    assert(overwritten(targets@) == Seq::<(Seq<char>, Seq<char>)>::empty());
    for i in 0..plan.len()
        invariant
            plan@.len() == occupied@.len(),
            all == rename::planned(plan@),
            keys.keys@.len() == plan@.len(),
            forall|k: int|
                0 <= k < plan@.len() ==> (#[trigger] keys.keys@[k])@ == folded(all[k].old),
            keys.sorted_by(order@),
            overwritten(targets@) == overwrites_upto(all, occupied@, i as int),
    {
        if occupied[i] {
            let new = plan[i].new.to_text_lossy();
            let lowered = text::to_lowercase(new.as_str());
            let key = text::chars_of(lowered.as_str());
            let moves = keys.contains(&order, &key);
            proof {
                assert(key@ == folded(all[i as int].new));
                if moves {
                    let k = choose|k: int|
                        0 <= k < keys.keys@.len() && (#[trigger] keys.keys@[k])@ == key@;
                    assert(folded(all[k].old) == key@);
                }
                if leaves(all, key@) {
                    let k = choose|k: int| 0 <= k < all.len() && folded((#[trigger] all[k]).old)
                        == key@;
                    assert(keys.keys@[k]@ == key@);
                }
                assert(moves == leaves(all, key@));
            }
            if !moves {
                let ghost before = overwritten(targets@);
                let old = plan[i].old.to_text_lossy();
                targets.push(OverwrittenTarget { old, new });
                assert(overwritten(targets@) == before.push(
                    (text::lossy(all[i as int].old), text::lossy(all[i as int].new)),
                ));
            }
        }
    }
    targets
}

/// Looks for what stands in the way of a plan: first for names that more than one
/// entry would get, then for entries that would take the place of something else.
/// `occupied` tells, for each entry, whether there is something at its new path.
pub fn validate_plan(plan: &[PlanEntry], occupied: &[bool]) -> (out: Result<(), PlanConflict>)
    requires
        plan@.len() == occupied@.len(),
    ensures
        match out {
            Err(PlanConflict::Duplicates(list)) => {
                &&& has_duplicates(rename::planned(plan@))
                &&& are_collisions(rename::planned(plan@), collisions(list@))
            },
            Err(PlanConflict::Overwrites(list)) => {
                &&& !has_duplicates(rename::planned(plan@))
                &&& overwrites(rename::planned(plan@), occupied@).len() > 0
                &&& overwritten(list@) == overwrites(rename::planned(plan@), occupied@)
            },
            Ok(()) => {
                &&& !has_duplicates(rename::planned(plan@))
                &&& overwrites(rename::planned(plan@), occupied@).len() == 0
            },
        },
{
    let duplicates = find_duplicates(plan);
    let ghost found = collisions(duplicates@);
    if duplicates.len() > 0 {
        proof {
            assert(found[0].key == found[0].key);
            assert(names_key(found, found[0].key));
            assert(shared(rename::planned(plan@), found[0].key));
        }
        return Err(PlanConflict::Duplicates(duplicates));
    }
    proof {
        assert forall|key: Seq<char>| !(#[trigger] shared(rename::planned(plan@), key)) by {
            assert(!names_key(found, key));
        }
    }
    let targets = find_overwrites(plan, occupied);
    assert(targets@.len() == overwritten(targets@).len());
    if targets.len() > 0 {
        return Err(PlanConflict::Overwrites(targets));
    }
    Ok(())
}

/// Whether more than one entry would get the same name.
pub open spec fn has_duplicates(plan: Seq<Planned>) -> bool {
    exists|key: Seq<char>| #[trigger] shared(plan, key)
}

// ---- laws ------------------------------------------------------------------------

/// In a plan without duplicates all new paths differ, even where letter case makes
/// no difference.
pub proof fn law_targets_are_distinct(plan: Seq<Planned>, i: int, j: int)
    requires
        !has_duplicates(plan),
        0 <= i < j < plan.len(),
    ensures
        plan[i].new != plan[j].new,
        folded(plan[i].new) != folded(plan[j].new),
{
    let key = folded(plan[i].new);
    if folded(plan[j].new) == key {
        assert(shared(plan, key));
    }
}

/// In a plan that overwrites nothing, what is at a new path is about to move.
pub proof fn law_occupants_are_about_to_move(plan: Seq<Planned>, occupied: Seq<bool>, i: int)
    requires
        overwrites(plan, occupied).len() == 0,
        0 <= i < plan.len(),
        occupied[i],
    ensures
        leaves(plan, folded(plan[i].new)),
{
    lemma_no_overwrites(plan, occupied, plan.len() as int, i);
}

proof fn lemma_no_overwrites(plan: Seq<Planned>, occupied: Seq<bool>, n: int, i: int)
    requires
        overwrites_upto(plan, occupied, n).len() == 0,
        0 <= i < n <= plan.len(),
        occupied[i],
    ensures
        leaves(plan, folded(plan[i].new)),
    decreases n,
{
    if i < n - 1 {
        lemma_no_overwrites(plan, occupied, n - 1, i);
    }
}

/// An entry whose new path differs from its own in letter case only takes nobody's
/// place.
pub proof fn law_case_only_rename_is_valid(e: Planned, occupied: bool)
    requires
        folded(e.new) == folded(e.old),
    ensures
        !has_duplicates(seq![e]),
        overwrites(seq![e], seq![occupied]).len() == 0,
{
    let plan = seq![e];
    assert(folded(plan[0].old) == folded(e.new));
    assert(leaves(plan, folded(e.new)));
    assert(overwrites_upto(plan, seq![occupied], 0) == Seq::<(Seq<char>, Seq<char>)>::empty());
}

// ---- laws on whole plans -------------------------------------------------------------

/// A plan has duplicates if and only if two of its entries are to get paths that are
/// the same in lower case. Whole paths count, directories and all.
pub proof fn law_duplicates_are_paths_in_lower_case(plan: Seq<Planned>)
    ensures
        has_duplicates(plan) <==> exists|i: int, j: int|
            0 <= i < j < plan.len() && text::lowercased(text::lossy((#[trigger] plan[i]).new))
                == text::lowercased(text::lossy((#[trigger] plan[j]).new)),
{
    if has_duplicates(plan) {
        let key = choose|key: Seq<char>| #[trigger] shared(plan, key);
        let (i, j) = choose|i: int, j: int|
            0 <= i < j < plan.len() && folded((#[trigger] plan[i]).new) == key && folded(
                (#[trigger] plan[j]).new,
            ) == key;
        assert(text::lowercased(text::lossy(plan[i].new)) == text::lowercased(
            text::lossy(plan[j].new),
        ));
    }
    if exists|i: int, j: int|
        0 <= i < j < plan.len() && text::lowercased(text::lossy((#[trigger] plan[i]).new))
            == text::lowercased(text::lossy((#[trigger] plan[j]).new)) {
        let (i, j) = choose|i: int, j: int|
            0 <= i < j < plan.len() && text::lowercased(text::lossy((#[trigger] plan[i]).new))
                == text::lowercased(text::lossy((#[trigger] plan[j]).new));
        assert(shared(plan, folded(plan[i].new)));
    }
}

/// Each collision is for a path in lower case that at least two entries are to get,
/// has all of their old paths, in plan order, and is named once, in the order of the
/// keys.
#[verifier::rlimit(40)]
#[verifier::spinoff_prover]
pub proof fn law_collisions_name_all_sources(plan: Seq<Planned>, list: Seq<Collision>, g: int)
    requires
        are_collisions(plan, list),
        0 <= g < list.len(),
    ensures
        list[g].sources == plan.filter(
            |e: Planned| text::lowercased(text::lossy(e.new)) == list[g].key,
        ).map_values(|e: Planned| text::lossy(e.old)),
        list[g].sources.len() >= 2,
        forall|h: int| 0 <= h < list.len() && h != g ==> (#[trigger] list[h]).key != list[g].key,
        forall|h: int|
            0 <= h < g ==> text::lex_before((#[trigger] list[h]).key, list[g].key),
        forall|i: int, j: int|
            0 <= i < j < plan.len() && text::lowercased(text::lossy((#[trigger] plan[i]).new))
                == text::lowercased(text::lossy((#[trigger] plan[j]).new)) ==> exists|h: int|
                0 <= h < list.len() && (#[trigger] list[h]).key == text::lowercased(
                    text::lossy(plan[i].new),
                ),
{
    let key = list[g].key;
    lemma_sources_are_filtered(plan, key);
    assert(names_key(list, key));
    let (i, j) = choose|i: int, j: int|
        0 <= i < j < plan.len() && folded((#[trigger] plan[i]).new) == key && folded(
            (#[trigger] plan[j]).new,
        ) == key;
    lemma_two_sources(plan, key, i, j);
    assert forall|h: int| 0 <= h < list.len() && h != g implies (#[trigger] list[h]).key
        != list[g].key by {
        text::law_texts_are_ordered(list[h].key, list[g].key, list[h].key);
        if h < g {
            assert(text::lex_before(list[h].key, list[g].key));
        } else {
            assert(text::lex_before(list[g].key, list[h].key));
        }
    }
    assert forall|i: int, j: int|
        0 <= i < j < plan.len() && text::lowercased(text::lossy((#[trigger] plan[i]).new))
            == text::lowercased(text::lossy((#[trigger] plan[j]).new)) implies exists|h: int|
        0 <= h < list.len() && (#[trigger] list[h]).key == text::lowercased(
            text::lossy(plan[i].new),
        ) by {
        assert(shared(plan, folded(plan[i].new)));
        assert(names_key(list, folded(plan[i].new)));
    }
}

proof fn lemma_sources_are_filtered(plan: Seq<Planned>, key: Seq<char>)
    ensures
        sources(plan, key) == plan.filter(
            |e: Planned| text::lowercased(text::lossy(e.new)) == key,
        ).map_values(|e: Planned| text::lossy(e.old)),
    decreases plan.len(),
{
    reveal(Seq::filter);
    let wanted = |e: Planned| text::lowercased(text::lossy(e.new)) == key;
    if plan.len() > 0 {
        let head = plan.drop_last();
        lemma_sources_are_filtered(head, key);
        let kept = head.filter(wanted);
        let shown = |e: Planned| text::lossy(e.old);
        if wanted(plan.last()) {
            assert(kept.push(plan.last()).map_values(shown) =~= kept.map_values(shown).push(
                text::lossy(plan.last().old),
            ));
        }
    } else {
        assert(sources(plan, key) =~= plan.filter(wanted).map_values(
            |e: Planned| text::lossy(e.old),
        ));
    }
}

proof fn lemma_two_sources(plan: Seq<Planned>, key: Seq<char>, i: int, j: int)
    requires
        0 <= i < j < plan.len(),
        folded(plan[i].new) == key,
        folded(plan[j].new) == key,
    ensures
        sources(plan, key).len() >= 2,
    decreases plan.len(),
{
    if j < plan.len() - 1 {
        lemma_two_sources(plan.drop_last(), key, i, j);
    } else {
        lemma_one_source(plan.drop_last(), key, i);
    }
}

proof fn lemma_one_source(plan: Seq<Planned>, key: Seq<char>, i: int)
    requires
        0 <= i < plan.len(),
        folded(plan[i].new) == key,
    ensures
        sources(plan, key).len() >= 1,
    decreases plan.len(),
{
    if i < plan.len() - 1 {
        lemma_one_source(plan.drop_last(), key, i);
    }
}

/// An entry would overwrite something if and only if its target is occupied and, in
/// lower case, is the path of no entry of the plan. Entries are gone through in order,
/// and each that would is named.
pub proof fn law_occupied_targets_must_be_left(plan: Seq<Planned>, occupied: Seq<bool>, n: int)
    requires
        0 <= n < plan.len(),
    ensures
        overwrites_upto(plan, occupied, 0) == Seq::<(Seq<char>, Seq<char>)>::empty(),
        occupied[n] && (forall|j: int|
            0 <= j < plan.len() ==> text::lowercased(text::lossy((#[trigger] plan[j]).old))
                != text::lowercased(text::lossy(plan[n].new))) ==> overwrites_upto(
            plan,
            occupied,
            n + 1,
        ) == overwrites_upto(plan, occupied, n).push(
            (text::lossy(plan[n].old), text::lossy(plan[n].new)),
        ),
        !occupied[n] || (exists|j: int|
            0 <= j < plan.len() && text::lowercased(text::lossy((#[trigger] plan[j]).old))
                == text::lowercased(text::lossy(plan[n].new))) ==> overwrites_upto(
            plan,
            occupied,
            n + 1,
        ) == overwrites_upto(plan, occupied, n),
        overwrites(plan, occupied) == overwrites_upto(plan, occupied, plan.len() as int),
{
    let key = folded(plan[n].new);
    if leaves(plan, key) {
        let j = choose|j: int| 0 <= j < plan.len() && folded((#[trigger] plan[j]).old) == key;
        assert(text::lowercased(text::lossy(plan[j].old)) == key);
    }
    if exists|j: int|
        0 <= j < plan.len() && text::lowercased(text::lossy((#[trigger] plan[j]).old))
            == text::lowercased(text::lossy(plan[n].new)) {
        let j = choose|j: int|
            0 <= j < plan.len() && text::lowercased(text::lossy((#[trigger] plan[j]).old))
                == text::lowercased(text::lossy(plan[n].new));
        assert(folded(plan[j].old) == key);
    }
}

/// A plan can be carried out without a conflict if and only if no two targets are the
/// same in lower case, and every occupied target is, in lower case, left by an entry.
pub proof fn law_valid_plans(plan: Seq<Planned>, occupied: Seq<bool>)
    requires
        plan.len() == occupied.len(),
    ensures
        !has_duplicates(plan) && overwrites(plan, occupied).len() == 0 <==> {
            &&& forall|i: int, j: int|
                0 <= i < j < plan.len() ==> text::lowercased(text::lossy((#[trigger] plan[i]).new))
                    != text::lowercased(text::lossy((#[trigger] plan[j]).new))
            &&& forall|i: int|
                0 <= i < plan.len() && #[trigger] occupied[i] ==> exists|j: int|
                    0 <= j < plan.len() && text::lowercased(
                        text::lossy((#[trigger] plan[j]).old),
                    ) == text::lowercased(text::lossy(plan[i].new))
        },
{
    law_duplicates_are_paths_in_lower_case(plan);
    lemma_free_of_overwrites(plan, occupied, plan.len() as int);
}

proof fn lemma_free_of_overwrites(plan: Seq<Planned>, occupied: Seq<bool>, n: int)
    requires
        0 <= n <= plan.len() == occupied.len(),
    ensures
        overwrites_upto(plan, occupied, n).len() == 0 <==> forall|i: int|
            0 <= i < n && #[trigger] occupied[i] ==> exists|j: int|
                0 <= j < plan.len() && text::lowercased(text::lossy((#[trigger] plan[j]).old))
                    == text::lowercased(text::lossy(plan[i].new)),
    decreases n,
{
    if n > 0 {
        lemma_free_of_overwrites(plan, occupied, n - 1);
        law_occupied_targets_must_be_left(plan, occupied, n - 1);
        assert(occupied[n - 1] == occupied[n - 1]);
    }
}

/// The words for a conflict name each thing on a line of its own, in order, with all
/// that is wrong with it.
pub proof fn law_conflicts_are_told_line_by_line(
    a: Seq<Collision>,
    c: Collision,
    b: Seq<(Seq<char>, Seq<char>)>,
    t: (Seq<char>, Seq<char>),
)
    ensures
        collision_lines(Seq::empty()) == Seq::<char>::empty(),
        collision_lines(a.push(c)) == collision_lines(a) + "\n  "@ + c.key + " \u{2190} "@
            + text::joined(c.sources, ", "@),
        overwrite_lines(Seq::empty()) == Seq::<char>::empty(),
        overwrite_lines(b.push(t)) == overwrite_lines(b) + "\n  "@ + t.0 + " -> "@ + t.1,
{
    assert(a.push(c).drop_last() =~= a);
    assert(b.push(t).drop_last() =~= b);
}

/// The words for a conflict begin with what kind it is.
pub proof fn law_conflicts_have_headings(
    duplicates: Vec<DuplicateTarget>,
    targets: Vec<OverwrittenTarget>,
)
    ensures
        PlanConflict::Duplicates(duplicates).words() == "rename plan has within-plan conflicts:"@
            + collision_lines(duplicates@.map_values(|d: DuplicateTarget| Collision {
            key: d.key@,
            sources: text::views(d.sources@),
        })),
        PlanConflict::Overwrites(targets).words() == "rename plan would overwrite existing paths:"@
            + overwrite_lines(targets@.map_values(|t: OverwrittenTarget| (t.old@, t.new@))),
{
    assert(collisions(duplicates@) =~= duplicates@.map_values(|d: DuplicateTarget| Collision {
        key: d.key@,
        sources: text::views(d.sources@),
    }));
    assert(overwritten(targets@) =~= targets@.map_values(
        |t: OverwrittenTarget| (t.old@, t.new@),
    ));
}

} // verus!
