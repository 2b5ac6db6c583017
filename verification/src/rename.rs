//! The rename plan: which entry is to get which name.

use vstd::prelude::*;
use vstd::utf8::*;
use crate::expressions;
use crate::expressions::{CompiledExpression, Flags, Rewriter, Rule};
use crate::names;
use crate::names::ExtensionScope;
use crate::path;
use crate::path::PathName;
use crate::scan;
use crate::scan::{Found, PathRecord};
use crate::text;
use crate::transforms;
use crate::transforms::{CounterContext, TransformOptions};

verus! {

/// A single planned rename.
///
/// `depth` is the number of components that `old` has below the root that it
/// was found under.
#[derive(Debug, Hash, PartialEq, Eq)]
pub struct PlanEntry {
    pub old: PathName,
    pub new: PathName,
    pub depth: usize,
}

/// What a planned rename says.
pub struct Planned {
    pub old: Seq<u8>,
    pub new: Seq<u8>,
    pub depth: nat,
}

impl View for PlanEntry {
    type V = Planned;

    open spec fn view(&self) -> Planned {
        Planned { old: self.old@, new: self.new@, depth: self.depth as nat }
    }
}

/// What the entries of a plan say.
pub open spec fn planned(plan: Seq<PlanEntry>) -> Seq<Planned> {
    plan.map_values(|e: PlanEntry| e@)
}

impl PlanEntry {
    /// A copy of the entry.
    pub fn copy(&self) -> (entry: PlanEntry)
        ensures
            entry@ == self@,
    {
        PlanEntry { old: self.old.copy(), new: self.new.copy(), depth: self.depth }
    }
}

// ---- the new name of an entry ----------------------------------------------------

/// What is done to names.
pub struct Settings {
    pub rewriters: Seq<Rewriter>,
    pub scope: ExtensionScope,
    pub transforms: TransformOptions,
    /// What is put before everything else.
    pub counter: Option<Seq<char>>,
}

/// A name in three parts, of which the middle one is worked on: nothing if there
/// is no such part.
pub open spec fn parts(name: Seq<char>, scope: ExtensionScope) -> Option<
    (Seq<char>, Seq<char>, Seq<char>),
> {
    let (stem, extension) = names::stem_and_extension(name);
    match scope {
        ExtensionScope::Include => Some((Seq::empty(), name, Seq::empty())),
        ExtensionScope::Exclude => Some(
            (
                Seq::empty(),
                stem,
                match extension {
                    Some(e) => "."@ + e,
                    None => Seq::empty(),
                },
            ),
        ),
        ExtensionScope::Only => match extension {
            Some(e) => Some((stem + "."@, e, Seq::empty())),
            None => None,
        },
    }
}

impl Settings {
    /// What becomes of the part that is worked on: matches are replaced, then
    /// letter case is changed, then something is appended, then something is
    /// prepended, and last the counter.
    pub open spec fn processed(self, part: Seq<char>, ctx: CounterContext) -> Seq<char> {
        let done = transforms::transformed(
            expressions::rewritten(self.rewriters, part),
            self.transforms,
            ctx,
        );
        match self.counter {
            Some(template) => transforms::formatted(template, ctx) + done,
            None => done,
        }
    }

    /// Whether a part is left alone: there are expressions, and they find nothing in
    /// it or change nothing.
    pub open spec fn filters_out(self, part: Seq<char>) -> bool {
        self.rewriters.len() > 0 && (expressions::match_count(self.rewriters, part) == 0
            || expressions::rewritten(self.rewriters, part) == part)
    }

    /// The new name for a name: nothing if it is left alone.
    pub open spec fn new_name(self, name: Seq<char>, ctx: CounterContext) -> Option<Seq<char>> {
        match parts(name, self.scope) {
            Some((before, part, behind)) => if self.filters_out(part) {
                None
            } else {
                Some(before + self.processed(part, ctx) + behind)
            },
            None => None,
        }
    }

    /// Whether new names depend on how many entries there are.
    pub open spec fn counts(self) -> bool {
        ||| self.transforms.append matches Some(t) && transforms::has_slot(t@)
        ||| self.transforms.prepend matches Some(t) && transforms::has_slot(t@)
        ||| self.counter matches Some(t) && transforms::has_slot(t)
    }
}

/// Whether a record has a name of which a part is worked on.
pub open spec fn worked_on(record: Found, scope: ExtensionScope) -> bool {
    names::name_text(record.path) matches Some(name) && parts(name, scope) is Some
}

// ---- the plan --------------------------------------------------------------------

/// The components of the directory that a path is in.
pub open spec fn place(p: Seq<u8>) -> Seq<Seq<u8>> {
    path::components(path::directory(p))
}

/// How many of the planned entries are in a directory.
pub open spec fn planned_beside(plan: Seq<Planned>, dir: Seq<Seq<u8>>) -> nat
    decreases plan.len(),
{
    if plan.len() == 0 {
        0
    } else {
        planned_beside(plan.drop_last(), dir) + (if place(plan.last().old) == dir {
            1nat
        } else {
            0
        })
    }
}

/// How many of the records have a name and are in a directory.
pub open spec fn found_beside(records: Seq<Found>, dir: Seq<Seq<u8>>) -> nat
    decreases records.len(),
{
    if records.len() == 0 {
        0
    } else {
        let r = records.last();
        found_beside(records.drop_last(), dir) + (if names::name_text(r.path) is Some && place(
            r.path,
        ) == dir {
            1nat
        } else {
            0
        })
    }
}

/// What a counter shows for a path: the number that its entry will have among
/// those planned in its directory, and how many records are there.
pub open spec fn context(plan: Seq<Planned>, records: Seq<Found>, p: Seq<u8>) -> CounterContext {
    CounterContext {
        n: (planned_beside(plan, place(p)) + 1) as usize,
        dir_count: found_beside(records, place(p)) as usize,
    }
}

impl Settings {
    /// What is planned for a record, after what is planned already.
    pub open spec fn entry(self, plan: Seq<Planned>, records: Seq<Found>, r: Found) -> Option<
        Planned,
    > {
        match names::name_text(r.path) {
            None => None,
            Some(name) => match self.new_name(name, context(plan, records, r.path)) {
                None => None,
                Some(new) => if new == name {
                    None
                } else {
                    Some(
                        Planned {
                            old: r.path,
                            new: path::join(path::directory(r.path), encode_utf8(new)),
                            depth: path::depth_below(r.path, r.root),
                        },
                    )
                },
            },
        }
    }

    /// What is planned for the first `k` records: those whose name changes, in the
    /// order of the records.
    pub open spec fn plan_upto(self, records: Seq<Found>, k: int) -> Seq<Planned>
        decreases k,
    {
        if k <= 0 {
            Seq::empty()
        } else {
            let before = self.plan_upto(records, k - 1);
            match self.entry(before, records, records[k - 1]) {
                Some(e) => before.push(e),
                None => before,
            }
        }
    }

    /// What is planned for records.
    pub open spec fn plan(self, records: Seq<Found>) -> Seq<Planned> {
        self.plan_upto(records, records.len() as int)
    }
}

proof fn lemma_beside_bounds(records: Seq<Found>, dir: Seq<Seq<u8>>)
    ensures
        found_beside(records, dir) <= records.len(),
    decreases records.len(),
{
    if records.len() > 0 {
        lemma_beside_bounds(records.drop_last(), dir);
    }
}

proof fn lemma_planned_bounds(plan: Seq<Planned>, dir: Seq<Seq<u8>>)
    ensures
        planned_beside(plan, dir) <= plan.len(),
    decreases plan.len(),
{
    if plan.len() > 0 {
        lemma_planned_bounds(plan.drop_last(), dir);
    }
}

proof fn lemma_found_here(records: Seq<Found>, i: int)
    requires
        0 <= i < records.len(),
        names::name_text(records[i].path) is Some,
    ensures
        found_beside(records, place(records[i].path)) > 0,
    decreases records.len(),
{
    if i < records.len() - 1 {
        lemma_found_here(records.drop_last(), i);
    }
}

/// Without a slot for it, a counter makes no difference.
proof fn lemma_counter_unused(
    settings: Settings,
    part: Seq<char>,
    a: CounterContext,
    b: CounterContext,
)
    requires
        !settings.counts(),
    ensures
        settings.processed(part, a) == settings.processed(part, b),
{
    if let Some(t) = settings.transforms.append {
        transforms::law_template_without_slot_is_verbatim(t@, a);
        transforms::law_template_without_slot_is_verbatim(t@, b);
    }
    if let Some(t) = settings.transforms.prepend {
        transforms::law_template_without_slot_is_verbatim(t@, a);
        transforms::law_template_without_slot_is_verbatim(t@, b);
    }
    if let Some(t) = settings.counter {
        transforms::law_template_without_slot_is_verbatim(t, a);
        transforms::law_template_without_slot_is_verbatim(t, b);
    }
}

// ---- computing it ----------------------------------------------------------------

/// Whether no two of the paths lead to the same place.
spec fn all_apart(dirs: Seq<PathName>) -> bool {
    forall|i: int, j: int|
        0 <= i < j < dirs.len() ==> path::components(#[trigger] dirs[i]@) != path::components(
            #[trigger] dirs[j]@,
        )
}

/// Whether one of the paths leads to the given place.
spec fn leads_to(dirs: Seq<PathName>, dir: Seq<Seq<u8>>) -> bool {
    exists|j: int| 0 <= j < dirs.len() && path::components(#[trigger] dirs[j]@) == dir
}

/// Which of the directories is the given one.
fn directory_index(dirs: &Vec<PathName>, dir: &PathName) -> (found: Option<usize>)
    ensures
        found matches Some(j) ==> j < dirs@.len() && path::components(dirs@[j as int]@)
            == path::components(dir@),
        found is None ==> !leads_to(dirs@, path::components(dir@)),
{
    let mut j: usize = dirs.len();
    while j > 0
        invariant
            j <= dirs@.len(),
            forall|k: int|
                j <= k < dirs@.len() ==> path::components(#[trigger] dirs@[k]@)
                    != path::components(dir@),
        decreases j,
    {
        j = j - 1;
        if path::same_bytes(&dirs[j].bytes, &dir.bytes) || dirs[j].same_path(dir) {
            return Some(j);
        }
    }
    None
}

/// Whether the totals are those of the directories, and no other directory has
/// any records.
spec fn tallies(dirs: Seq<PathName>, totals: Seq<usize>, records: Seq<Found>) -> bool {
    &&& dirs.len() == totals.len()
    &&& all_apart(dirs)
    &&& forall|j: int|
        0 <= j < dirs.len() ==> #[trigger] totals[j] == found_beside(
            records,
            path::components(dirs[j]@),
        )
    &&& forall|dir: Seq<Seq<u8>>| #[trigger]
        found_beside(records, dir) > 0 ==> leads_to(dirs, dir)
}

proof fn lemma_tally_new(
    dirs: Seq<PathName>,
    totals: Seq<usize>,
    dir: PathName,
    records: Seq<Found>,
    r: Found,
)
    requires
        tallies(dirs, totals, records),
        dir@ == path::directory(r.path),
        names::name_text(r.path) is Some,
        !leads_to(dirs, path::components(dir@)),
    ensures
        tallies(dirs.push(dir), totals.push(1usize), records.push(r)),
{
    let here = path::components(dir@);
    let more = records.push(r);
    assert(more.drop_last() == records);
    let dirs2 = dirs.push(dir);
    let totals2 = totals.push(1usize);
    assert(found_beside(records, here) == 0);
    assert forall|j: int| 0 <= j < dirs2.len() implies #[trigger] totals2[j] == found_beside(
        more,
        path::components(dirs2[j]@),
    ) by {
        if j < dirs.len() {
            assert(path::components(dirs[j]@) != here);
            assert(totals[j] == found_beside(records, path::components(dirs[j]@)));
        }
    }
    assert forall|d: Seq<Seq<u8>>| #[trigger] found_beside(more, d) > 0 implies leads_to(
        dirs2,
        d,
    ) by {
        if d == here {
            assert(path::components(dirs2[dirs.len() as int]@) == d);
        } else {
            assert(found_beside(records, d) > 0);
            let j = choose|j: int| 0 <= j < dirs.len() && path::components(#[trigger] dirs[j]@) == d;
            assert(path::components(dirs2[j]@) == d);
        }
    }
    assert forall|i: int, j: int| 0 <= i < j < dirs2.len() implies path::components(
        #[trigger] dirs2[i]@,
    ) != path::components(#[trigger] dirs2[j]@) by {
        assert(path::components(dirs[i]@) != here);
        if j < dirs.len() {
            assert(path::components(dirs[i]@) != path::components(dirs[j]@));
        }
    }
}

proof fn lemma_tally_known(
    dirs: Seq<PathName>,
    totals: Seq<usize>,
    at: int,
    records: Seq<Found>,
    r: Found,
)
    requires
        tallies(dirs, totals, records),
        0 <= at < dirs.len(),
        totals[at] < usize::MAX,
        path::components(dirs[at]@) == place(r.path),
        names::name_text(r.path) is Some,
    ensures
        tallies(dirs, totals.update(at, (totals[at] + 1) as usize), records.push(r)),
{
    let more = records.push(r);
    assert(more.drop_last() == records);
    let totals2 = totals.update(at, (totals[at] + 1) as usize);
    assert forall|j: int| 0 <= j < dirs.len() implies #[trigger] totals2[j] == found_beside(
        more,
        path::components(dirs[j]@),
    ) by {
        assert(totals[j] == found_beside(records, path::components(dirs[j]@)));
        if j != at {
            assert(path::components(dirs[j]@) != path::components(dirs[at]@));
        }
    }
    assert forall|d: Seq<Seq<u8>>| #[trigger] found_beside(more, d) > 0 implies leads_to(
        dirs,
        d,
    ) by {
        if d == place(r.path) {
            assert(path::components(dirs[at]@) == d);
        } else {
            assert(found_beside(records, d) > 0);
        }
    }
}

/// The directories that records are in, and how many are in each.
fn tally(records: &[PathRecord]) -> (out: (Vec<PathName>, Vec<usize>))
    ensures
        tallies(out.0@, out.1@, scan::found(records@)),
{
    let mut dirs: Vec<PathName> = Vec::new();
    let mut totals: Vec<usize> = Vec::new();
    let ghost all = scan::found(records@);
    for i in 0..records.len()
        invariant
            all == scan::found(records@),
            tallies(dirs@, totals@, all.take(i as int)),
    {
        let r = &records[i];
        let ghost so_far = all.take(i as int);
        assert(all.take(i + 1) == so_far.push(r@));
        assert(all.take(i + 1).drop_last() == so_far);
        if names::text_of_name(&r.path).is_some() {
            let dir = r.path.directory();
            match directory_index(&dirs, &dir) {
                Some(j) => {
                    proof {
                        lemma_beside_bounds(so_far, path::components(dirs@[j as int]@));
                        assert(totals@[j as int] == found_beside(
                            so_far,
                            path::components(dirs@[j as int]@),
                        ));
                        assert(i < records.len());
                        lemma_tally_known(dirs@, totals@, j as int, so_far, r@);
                    }
                    let more: usize = totals[j] + 1;
                    totals.set(j, more);
                },
                None => {
                    proof {
                        lemma_tally_new(dirs@, totals@, dir, so_far, r@);
                    }
                    dirs.push(dir);
                    totals.push(1);
                },
            }
        } else {
            proof {
                assert forall|d: Seq<Seq<u8>>| #[trigger]
                    found_beside(all.take(i + 1), d) == found_beside(so_far, d) by {}
            }
        }
    }
    assert(all.take(all.len() as int) == all);
    (dirs, totals)
}

/// The text that an option holds.
pub open spec fn template_text(template: Option<&str>) -> Option<Seq<char>> {
    match template {
        Some(t) => Some(t@),
        None => None,
    }
}

/// What is done to names, given what it is computed from.
pub open spec fn settings(
    exprs: Seq<CompiledExpression>,
    scope: ExtensionScope,
    opts: TransformOptions,
    counter_template: Option<&str>,
) -> Settings {
    Settings {
        rewriters: expressions::rewriters(exprs),
        scope,
        transforms: opts,
        counter: template_text(counter_template),
    }
}

fn asks_for_counter(template: Option<&String>) -> (asks: bool)
    ensures
        asks == (template matches Some(t) && transforms::has_slot(t@)),
{
    match template {
        Some(t) => transforms::has_counter_placeholder(t.as_str()),
        None => false,
    }
}

fn needs_counter(opts: &TransformOptions, counter_template: Option<&str>) -> (needs: bool)
    ensures
        forall|exprs: Seq<CompiledExpression>, scope: ExtensionScope|
            needs == (#[trigger] settings(exprs, scope, *opts, counter_template)).counts(),
{
    let affixes = asks_for_counter(opts.append.as_ref()) || asks_for_counter(
        opts.prepend.as_ref(),
    );
    match counter_template {
        Some(t) => affixes || transforms::has_counter_placeholder(t),
        None => affixes,
    }
}

/// What becomes of the part of a name that is worked on, unless it is left alone.
fn process_part(
    part: &str,
    exprs: &[CompiledExpression],
    opts: &TransformOptions,
    counter_template: Option<&str>,
    ctx: CounterContext,
) -> (out: Option<String>)
    requires
        expressions::all_applicable(expressions::rewriters(exprs@)),
    ensures
        forall|scope: ExtensionScope|
            out is None <==> (#[trigger] settings(
                exprs@,
                scope,
                *opts,
                counter_template,
            )).filters_out(part@),
        out matches Some(s) ==> forall|scope: ExtensionScope|
            s@ == (#[trigger] settings(exprs@, scope, *opts, counter_template)).processed(
                part@,
                ctx,
            ),
{
    let (rewritten, count) = expressions::apply_to_basename(part, exprs);
    if exprs.len() > 0 && (count == 0 || text::same_text(rewritten.as_str(), part)) {
        return None;
    }
    let done = transforms::apply(rewritten.as_str(), opts, ctx);
    match counter_template {
        Some(template) => {
            let mut out = transforms::format_counter(template, ctx);
            out.push_str(done.as_str());
            Some(out)
        },
        None => Some(done),
    }
}

/// The new name for a name.
fn rename_name(
    name: &str,
    exprs: &[CompiledExpression],
    scope: ExtensionScope,
    opts: &TransformOptions,
    counter_template: Option<&str>,
    ctx: CounterContext,
) -> (out: Option<String>)
    requires
        parts(name@, scope) is Some ==> expressions::all_applicable(
            expressions::rewriters(exprs@),
        ),
    ensures
        match settings(exprs@, scope, *opts, counter_template).new_name(name@, ctx) {
            Some(new) => out is Some && out->Some_0@ == new,
            None => out is None,
        },
{
    let ghost wanted = settings(exprs@, scope, *opts, counter_template);
    match scope {
        ExtensionScope::Include => {
            let out = process_part(name, exprs, opts, counter_template, ctx);
            assert(Seq::<char>::empty() + wanted.processed(name@, ctx) + Seq::<char>::empty()
                == wanted.processed(name@, ctx));
            out
        },
        ExtensionScope::Exclude => {
            let (stem, extension) = names::split_stem_ext(name);
            match process_part(stem.as_str(), exprs, opts, counter_template, ctx) {
                Some(done) => {
                    let mut out = done;
                    match extension {
                        Some(e) => {
                            out.push_str(".");
                            out.push_str(e.as_str());
                            assert(Seq::<char>::empty() + done@ + ("."@ + e@) == done@ + "."@ + e@);
                        },
                        None => {
                            assert(Seq::<char>::empty() + done@ + Seq::<char>::empty() == done@);
                        },
                    }
                    Some(out)
                },
                None => None,
            }
        },
        ExtensionScope::Only => {
            let (stem, extension) = names::split_stem_ext(name);
            match extension {
                Some(e) => match process_part(e.as_str(), exprs, opts, counter_template, ctx) {
                    Some(done) => {
                        let mut out = stem;
                        out.push_str(".");
                        out.push_str(done.as_str());
                        assert(out@ + Seq::<char>::empty() == out@);
                        Some(out)
                    },
                    None => None,
                },
                None => None,
            }
        },
    }
}

/// Whether the counts are those of the planned entries in the directories.
spec fn keeps_count(dirs: Seq<PathName>, used: Seq<usize>, plan: Seq<Planned>) -> bool {
    &&& dirs.len() == used.len()
    &&& forall|j: int|
        0 <= j < dirs.len() ==> #[trigger] used[j] == planned_beside(
            plan,
            path::components(dirs[j]@),
        )
}

proof fn lemma_count_one_more(
    dirs: Seq<PathName>,
    used: Seq<usize>,
    plan: Seq<Planned>,
    at: int,
    e: Planned,
)
    requires
        all_apart(dirs),
        keeps_count(dirs, used, plan),
        0 <= at < dirs.len(),
        used[at] < usize::MAX,
        path::components(dirs[at]@) == place(e.old),
    ensures
        keeps_count(dirs, used.update(at, (used[at] + 1) as usize), plan.push(e)),
{
    assert(plan.push(e).drop_last() == plan);
    let used2 = used.update(at, (used[at] + 1) as usize);
    assert forall|j: int| 0 <= j < dirs.len() implies #[trigger] used2[j] == planned_beside(
        plan.push(e),
        path::components(dirs[j]@),
    ) by {
        assert(used[j] == planned_beside(plan, path::components(dirs[j]@)));
        if j != at {
            assert(path::components(dirs[j]@) != path::components(dirs[at]@));
        }
    }
}

/// The entry for a record with a name.
fn entry_for(
    r: &PathRecord,
    name: &str,
    dir: &PathName,
    exprs: &[CompiledExpression],
    scope: ExtensionScope,
    opts: &TransformOptions,
    counter_template: Option<&str>,
    ctx: CounterContext,
) -> (entry: Option<PlanEntry>)
    requires
        dir@ == path::directory(r@.path),
        parts(name@, scope) is Some ==> expressions::all_applicable(
            expressions::rewriters(exprs@),
        ),
    ensures
        match settings(exprs@, scope, *opts, counter_template).new_name(name@, ctx) {
            Some(new) => if new == name@ {
                entry is None
            } else {
                entry is Some && entry->Some_0@ == (Planned {
                    old: r@.path,
                    new: path::join(path::directory(r@.path), encode_utf8(new)),
                    depth: path::depth_below(r@.path, r@.root),
                })
            },
            None => entry is None,
        },
{
    match rename_name(name, exprs, scope, opts, counter_template, ctx) {
        Some(new) => if text::same_text(new.as_str(), name) {
            None
        } else {
            let new_bytes = PathName::from_text(new.as_str());
            Some(
                PlanEntry {
                    old: r.path.copy(),
                    new: dir.join(&new_bytes.bytes),
                    depth: r.path.depth_below(&r.root),
                },
            )
        },
        None => None,
    }
}

/// Plans what is to be renamed, and to what.
///
/// The entries are in the order of the records. A record whose name is not UTF-8
/// is left out, and so is one whose name does not change. Where there are
/// expressions, so is one in whose name they find nothing or change nothing: it
/// takes no number. `counter_template` is a template for what is put before
/// everything else.
pub fn build_scoped_plan(
    records: &[PathRecord],
    exprs: &[CompiledExpression],
    scope: ExtensionScope,
    transforms_opts: &TransformOptions,
    counter_template: Option<&str>,
) -> (plan: Vec<PlanEntry>)
    requires
        forall|i: int|
            0 <= i < records@.len() && worked_on(#[trigger] records@[i]@, scope)
                ==> expressions::all_applicable(expressions::rewriters(exprs@)),
    ensures
        planned(plan@) == settings(exprs@, scope, *transforms_opts, counter_template).plan(
            scan::found(records@),
        ),
{
    let counted = needs_counter(transforms_opts, counter_template);
    let (dirs, totals) = if counted {
        tally(records)
    } else {
        (Vec::new(), Vec::new())
    };
    let mut used: Vec<usize> = Vec::new();
    let mut plan: Vec<PlanEntry> = Vec::new();
    let ghost all = scan::found(records@);
    let ghost wanted = settings(exprs@, scope, *transforms_opts, counter_template);
    assert(planned(plan@) == Seq::<Planned>::empty());
    for j in 0..dirs.len()
        invariant
            used@.len() == j,
            forall|k: int| 0 <= k < used@.len() ==> #[trigger] used@[k] == 0,
    {
        used.push(0);
    }
    for i in 0..records.len()
        invariant
            forall|i: int|
                0 <= i < records@.len() && worked_on(#[trigger] records@[i]@, scope)
                    ==> expressions::all_applicable(expressions::rewriters(exprs@)),
            all == scan::found(records@),
            wanted == settings(exprs@, scope, *transforms_opts, counter_template),
            counted == wanted.counts(),
            counted ==> tallies(dirs@, totals@, all),
            counted ==> keeps_count(dirs@, used@, planned(plan@)),
            plan@.len() <= i,
            planned(plan@) == wanted.plan_upto(all, i as int),
    {
        let r = &records[i];
        let ghost before = planned(plan@);
        assert(r@ == all[i as int]);
        assert(before.len() == plan@.len());
        if let Some(name) = names::text_of_name(&r.path) {
            let dir = r.path.directory();
            let mut at: usize = 0;
            let mut ctx = CounterContext { n: 1, dir_count: 0 };
            if counted {
                proof {
                    lemma_found_here(all, i as int);
                    assert(leads_to(dirs@, place(r@.path)));
                }
                match directory_index(&dirs, &dir) {
                    Some(j) => {
                        at = j;
                        proof {
                            assert(used@[j as int] == planned_beside(before, place(r@.path)));
                            assert(totals@[j as int] == found_beside(all, place(r@.path)));
                            lemma_planned_bounds(before, place(r@.path));
                            lemma_beside_bounds(all, place(r@.path));
                            assert(plan@.len() <= i < records.len());
                        }
                        ctx = CounterContext { n: used[j] + 1, dir_count: totals[j] };
                    },
                    None => {
                        assert(false);
                    },
                }
            }
            proof {
                let exact = context(before, all, r@.path);
                if counted {
                    assert(ctx == exact);
                } else {
                    if let Some((a, part, b)) = parts(name@, scope) {
                        lemma_counter_unused(wanted, part, ctx, exact);
                    }
                }
                assert(wanted.new_name(name@, ctx) == wanted.new_name(name@, exact));
                assert(parts(name@, scope) is Some ==> worked_on(records@[i as int]@, scope));
            }
            let planned_entry = entry_for(
                r,
                name.as_str(),
                &dir,
                exprs,
                scope,
                transforms_opts,
                counter_template,
                ctx,
            );
            if let Some(entry) = planned_entry {
                proof {
                    assert(wanted.entry(before, all, r@) == Some(entry@));
                    if counted {
                        lemma_count_one_more(dirs@, used@, before, at as int, entry@);
                    }
                }
                plan.push(entry);
                assert(planned(plan@) == before.push(entry@));
                if counted {
                    let more: usize = used[at] + 1;
                    used.set(at, more);
                }
            } else {
                assert(wanted.entry(before, all, r@) is None);
            }
        }
    }
    plan
}

/// Plans what is to be renamed, and to what: with `no_extension` the stems of
/// names are worked on, else the whole names.
pub fn build_plan(
    records: &[PathRecord],
    exprs: &[CompiledExpression],
    no_extension: bool,
    transforms_opts: &TransformOptions,
    counter_template: Option<&str>,
) -> (plan: Vec<PlanEntry>)
    requires
        forall|i: int|
            0 <= i < records@.len() && worked_on(
                #[trigger] records@[i]@,
                scope_without(no_extension),
            ) ==> expressions::all_applicable(expressions::rewriters(exprs@)),
    ensures
        planned(plan@) == settings(
            exprs@,
            scope_without(no_extension),
            *transforms_opts,
            counter_template,
        ).plan(scan::found(records@)),
{
    let scope = if no_extension {
        ExtensionScope::Exclude
    } else {
        ExtensionScope::Include
    };
    build_scoped_plan(records, exprs, scope, transforms_opts, counter_template)
}

/// Whether two sets of options ask for the same.
pub open spec fn same_transforms(a: TransformOptions, b: TransformOptions) -> bool {
    &&& a.lower == b.lower
    &&& a.upper == b.upper
    &&& same_template(a.append, b.append)
    &&& same_template(a.prepend, b.prepend)
}

/// Whether two templates read the same.
pub open spec fn same_template(a: Option<String>, b: Option<String>) -> bool {
    match (a, b) {
        (Some(s), Some(t)) => s@ == t@,
        (None, None) => true,
        _ => false,
    }
}

/// What is planned depends on what the options say alone.
pub proof fn lemma_same_plan(a: Settings, b: Settings, records: Seq<Found>, k: int)
    requires
        a.rewriters == b.rewriters,
        a.scope == b.scope,
        a.counter == b.counter,
        same_transforms(a.transforms, b.transforms),
    ensures
        a.plan_upto(records, k) == b.plan_upto(records, k),
    decreases k,
{
    if k > 0 {
        lemma_same_plan(a, b, records, k - 1);
        let before = a.plan_upto(records, k - 1);
        let r = records[k - 1];
        let ctx = context(before, records, r.path);
        if let Some(name) = names::name_text(r.path) {
            if let Some((front, part, behind)) = parts(name, a.scope) {
                assert(a.processed(part, ctx) == b.processed(part, ctx));
            }
            assert(a.new_name(name, ctx) == b.new_name(name, ctx));
        }
        assert(a.entry(before, records, r) == b.entry(before, records, r));
    }
}

/// Whether a plan can be made: no expression that cannot be applied meets a name.
pub fn can_plan(
    records: &[PathRecord],
    exprs: &[CompiledExpression],
    scope: ExtensionScope,
) -> (can: bool)
    ensures
        can == (forall|i: int|
            0 <= i < records@.len() && worked_on(#[trigger] records@[i]@, scope)
                ==> expressions::all_applicable(expressions::rewriters(exprs@))),
{
    if expressions::can_apply(exprs) {
        return true;
    }
    for i in 0..records.len()
        invariant
            !expressions::all_applicable(expressions::rewriters(exprs@)),
            forall|k: int| 0 <= k < i ==> !worked_on(#[trigger] records@[k]@, scope),
    {
        if let Some(name) = names::text_of_name(&records[i].path) {
            let works = match scope {
                ExtensionScope::Only => names::split_stem_ext(name.as_str()).1.is_some(),
                ExtensionScope::Include | ExtensionScope::Exclude => true,
            };
            assert(works == worked_on(records@[i as int]@, scope));
            if works {
                return false;
            }
        }
    }
    true
}

/// The part of a name that is worked on if extensions are left alone, or not.
pub open spec fn scope_without(no_extension: bool) -> ExtensionScope {
    if no_extension {
        ExtensionScope::Exclude
    } else {
        ExtensionScope::Include
    }
}

/// The warnings about the records that have no name in UTF-8.
pub open spec fn warnings_for(records: Seq<Found>) -> Seq<Seq<char>>
    decreases records.len(),
{
    if records.len() == 0 {
        Seq::empty()
    } else {
        let before = warnings_for(records.drop_last());
        let r = records.last();
        if names::name_text(r.path) is None {
            before.push(
                "warning: "@ + text::lossy(r.path) + ": skipping (non-UTF-8 basename)"@,
            )
        } else {
            before
        }
    }
}

/// A warning about each record that is left out because it has no name in UTF-8.
pub fn skip_warnings(records: &[PathRecord]) -> (warnings: Vec<String>)
    ensures
        text::views(warnings@) == warnings_for(scan::found(records@)),
{
    let mut warnings: Vec<String> = Vec::new();
    let ghost all = scan::found(records@);
    assert(text::views(warnings@) == Seq::<Seq<char>>::empty());
    for i in 0..records.len()
        invariant
            all == scan::found(records@),
            text::views(warnings@) == warnings_for(all.take(i as int)),
    {
        let r = &records[i];
        assert(all.take(i + 1).drop_last() == all.take(i as int));
        assert(all.take(i + 1).last() == r@);
        if names::text_of_name(&r.path).is_none() {
            let ghost before = text::views(warnings@);
            let mut warning = "warning: ".to_string();
            let shown = r.path.to_text_lossy();
            warning.push_str(shown.as_str());
            warning.push_str(": skipping (non-UTF-8 basename)");
            warnings.push(warning);
            assert(text::views(warnings@) == before.push(warning@));
        }
    }
    assert(all.take(all.len() as int) == all);
    warnings
}

// ---- laws ------------------------------------------------------------------------

impl Settings {
    /// Which of the first `k` records something is planned for.
    pub open spec fn kept_upto(self, records: Seq<Found>, k: int) -> Seq<int>
        decreases k,
    {
        if k <= 0 {
            Seq::empty()
        } else {
            let before = self.kept_upto(records, k - 1);
            let plan = self.plan_upto(records, k - 1);
            match self.entry(plan, records, records[k - 1]) {
                Some(e) => before.push(k - 1),
                None => before,
            }
        }
    }
}

proof fn lemma_plan_upto(settings: Settings, records: Seq<Found>, k: int)
    requires
        0 <= k <= records.len(),
    ensures
        settings.kept_upto(records, k).len() == settings.plan_upto(records, k).len(),
        forall|i: int|
            #![trigger settings.kept_upto(records, k)[i]]
            0 <= i < settings.plan_upto(records, k).len() ==> {
                &&& 0 <= settings.kept_upto(records, k)[i] < k
                &&& settings.entry(
                    settings.plan_upto(records, k).take(i),
                    records,
                    records[settings.kept_upto(records, k)[i]],
                ) == Some(settings.plan_upto(records, k)[i])
            },
        forall|i: int, j: int|
            0 <= i < j < settings.plan_upto(records, k).len() ==> (#[trigger] settings.kept_upto(
                records,
                k,
            )[i]) < (#[trigger] settings.kept_upto(records, k)[j]),
    decreases k,
{
    if k > 0 {
        lemma_plan_upto(settings, records, k - 1);
        let before = settings.plan_upto(records, k - 1);
        let plan = settings.plan_upto(records, k);
        let kept_before = settings.kept_upto(records, k - 1);
        let kept = settings.kept_upto(records, k);
        assert forall|i: int|
            #![trigger kept[i]]
            0 <= i < plan.len() implies {
            &&& 0 <= kept[i] < k
            &&& settings.entry(plan.take(i), records, records[kept[i]]) == Some(plan[i])
        } by {
            assert(plan.take(i) == before.take(i));
            if i < before.len() {
                assert(kept[i] == kept_before[i]);
            } else {
                assert(before.take(i) == before);
            }
        }
        assert forall|i: int, j: int| 0 <= i < j < plan.len() implies (#[trigger] kept[i]) < (
        #[trigger] kept[j]) by {
            assert(kept[i] == kept_before[i]);
            if j < before.len() {
                assert(kept[j] == kept_before[j]);
            }
        }
    }
}

/// The plan keeps the order of the records, and has at most one entry for each:
/// the records that something is planned for, in order, give the entries, each in
/// view of the entries before it.
pub proof fn law_plan_keeps_order(settings: Settings, records: Seq<Found>)
    ensures
        ({
            let plan = settings.plan(records);
            let kept = settings.kept_upto(records, records.len() as int);
            &&& kept.len() == plan.len() <= records.len()
            &&& forall|i: int, j: int|
                0 <= i < j < kept.len() ==> (#[trigger] kept[i]) < (#[trigger] kept[j])
            &&& forall|i: int|
                0 <= i < kept.len() ==> {
                    &&& 0 <= #[trigger] kept[i] < records.len()
                    &&& plan[i].old == records[kept[i]].path
                    &&& settings.entry(plan.take(i), records, records[kept[i]]) == Some(plan[i])
                }
        }),
{
    let n = records.len() as int;
    lemma_plan_upto(settings, records, n);
    let kept = settings.kept_upto(records, n);
    lemma_increasing_fits(kept, n);
}

proof fn lemma_increasing_fits(s: Seq<int>, n: int)
    requires
        n >= 0,
        forall|i: int| 0 <= i < s.len() ==> 0 <= #[trigger] s[i] < n,
        forall|i: int, j: int| 0 <= i < j < s.len() ==> (#[trigger] s[i]) < (#[trigger] s[j]),
    ensures
        s.len() <= n,
    decreases s.len(),
{
    if s.len() > 0 {
        let less = s.drop_last();
        assert forall|i: int| 0 <= i < less.len() implies 0 <= #[trigger] less[i] < s.last() by {
            assert(s[i] < s[s.len() - 1]);
        }
        assert(s[s.len() - 1] < n);
        lemma_increasing_fits(less, s.last());
    }
}

/// Entries are numbered within their directory, from one on, in the order of the
/// plan: an entry is renamed to what its number makes of its name, and that is
/// another name.
pub proof fn law_entries_are_numbered_by_directory(
    settings: Settings,
    records: Seq<Found>,
    i: int,
)
    requires
        records.len() < usize::MAX,
        0 <= i < settings.plan(records).len(),
    ensures
        ({
            let plan = settings.plan(records);
            let dir = place(plan[i].old);
            let number = planned_beside(plan.take(i), dir) + 1;
            let ctx = CounterContext {
                n: number as usize,
                dir_count: found_beside(records, dir) as usize,
            };
            let name = names::name_text(plan[i].old);
            &&& ctx.n == number <= found_beside(records, dir) == ctx.dir_count
            &&& name is Some
            &&& settings.new_name(name->0, ctx) matches Some(new) && new != name->0 && plan[i].new
                == path::join(path::directory(plan[i].old), encode_utf8(new))
        }),
{
    law_plan_keeps_order(settings, records);
    let plan = settings.plan(records);
    let kept = settings.kept_upto(records, records.len() as int);
    assert(0 <= kept[i] < records.len());
    let dir = place(plan[i].old);
    lemma_beside_bounds(records, dir);
    lemma_plan_upto(settings, records, records.len() as int);
    lemma_counted_within(settings, records, records.len() as int, dir);
    lemma_beside_grows(plan, dir, i + 1);
    assert(plan.take(i + 1).drop_last() == plan.take(i));
    assert(records.take(records.len() as int) == records);
}

proof fn lemma_beside_grows(plan: Seq<Planned>, dir: Seq<Seq<u8>>, n: int)
    requires
        0 <= n <= plan.len(),
    ensures
        planned_beside(plan.take(n), dir) <= planned_beside(plan, dir),
    decreases plan.len() - n,
{
    if n < plan.len() {
        lemma_beside_grows(plan, dir, n + 1);
        assert(plan.take(n + 1).drop_last() == plan.take(n));
    } else {
        assert(plan.take(n) == plan);
    }
}

/// No more entries are planned in a directory than there are records.
proof fn lemma_counted_within(
    settings: Settings,
    records: Seq<Found>,
    k: int,
    dir: Seq<Seq<u8>>,
)
    requires
        0 <= k <= records.len(),
    ensures
        planned_beside(settings.plan_upto(records, k), dir) <= found_beside(records.take(k), dir),
    decreases k,
{
    if k > 0 {
        lemma_counted_within(settings, records, k - 1, dir);
        assert(records.take(k).drop_last() == records.take(k - 1));
        let before = settings.plan_upto(records, k - 1);
        if let Some(e) = settings.entry(before, records, records[k - 1]) {
            assert(before.push(e).drop_last() == before);
        }
    }
}

/// An entry stays in its directory, under its new name, if that is a name and not
/// a path.
pub proof fn law_entries_stay_in_their_directory(
    settings: Settings,
    records: Seq<Found>,
    i: int,
    new: Seq<u8>,
)
    requires
        0 <= i < settings.plan(records).len(),
        path::is_plain_name(new),
        settings.plan(records)[i].new == path::join(
            path::directory(settings.plan(records)[i].old),
            new,
        ),
    ensures
        place(settings.plan(records)[i].new) == place(settings.plan(records)[i].old),
        path::file_name(settings.plan(records)[i].new) == Some(new),
{
    path::law_join_stays_in_directory(path::directory(settings.plan(records)[i].old), new);
}

/// Where extensions are left alone, the new name has the extension of the old one
/// behind what has become of its stem, unless the expressions leave the stem alone.
pub proof fn law_extension_is_kept(settings: Settings, name: Seq<char>, ctx: CounterContext)
    requires
        settings.scope == ExtensionScope::Exclude,
    ensures
        ({
            let (stem, extension) = names::stem_and_extension(name);
            settings.new_name(name, ctx) == if settings.filters_out(stem) {
                None
            } else {
                Some(names::with_extension(settings.processed(stem, ctx), extension))
            }
        }),
{
    let (stem, extension) = names::stem_and_extension(name);
    let done = settings.processed(stem, ctx);
    match extension {
        Some(e) => {
            assert(Seq::<char>::empty() + done + ("."@ + e) == done + "."@ + e);
        },
        None => {
            assert(Seq::<char>::empty() + done + Seq::<char>::empty() == done);
        },
    }
}

/// Where only extensions are worked on, the new name has the stem of the old one
/// before what has become of its extension, unless the expressions leave that
/// alone, and a name without an extension is left alone.
pub proof fn law_stem_is_kept(settings: Settings, name: Seq<char>, ctx: CounterContext)
    requires
        settings.scope == ExtensionScope::Only,
    ensures
        ({
            let (stem, extension) = names::stem_and_extension(name);
            settings.new_name(name, ctx) == match extension {
                Some(e) => if settings.filters_out(e) {
                    None
                } else {
                    Some(names::with_extension(stem, Some(settings.processed(e, ctx))))
                },
                None => None,
            }
        }),
{
    let (stem, extension) = names::stem_and_extension(name);
    if let Some(e) = extension {
        let done = settings.processed(e, ctx);
        assert(stem + "."@ + done + Seq::<char>::empty() == stem + "."@ + done);
    }
}

/// Where a plain text is to be replaced in stems and nothing else is asked for, the
/// new name has every occurrence of the text in the stem replaced, and the
/// extension of the old one. A name whose stem this does not change is left alone.
pub proof fn law_text_is_replaced_in_stems(
    settings: Settings,
    flags: Flags,
    rule: Rule,
    name: Seq<char>,
    ctx: CounterContext,
)
    requires
        expressions::is_plain(flags, rule.find),
        settings.rewriters == seq![expressions::rewriter_for(flags, rule)],
        settings.scope == ExtensionScope::Exclude,
        !settings.transforms.lower,
        !settings.transforms.upper,
        settings.transforms.append is None,
        settings.transforms.prepend is None,
        settings.counter is None,
    ensures
        ({
            let (stem, extension) = names::stem_and_extension(name);
            let replaced = expressions::replaced_all(stem, rule.find, rule.replace);
            settings.new_name(name, ctx) == if replaced == stem {
                None
            } else {
                Some(names::with_extension(replaced, extension))
            }
        }),
{
    let (stem, extension) = names::stem_and_extension(name);
    law_extension_is_kept(settings, name, ctx);
    expressions::law_plain_text_is_replaced(flags, rule, stem);
    assert(settings.rewriters.drop_last() == Seq::<Rewriter>::empty());
    assert(expressions::rewritten(Seq::<Rewriter>::empty(), stem) == stem);
    assert(settings.rewriters.last() == expressions::rewriter_for(flags, rule));
    if expressions::match_count(settings.rewriters, stem) == 0 {
        expressions::law_unmatched_name_stays(settings.rewriters, stem);
    }
}

/// Where there are expressions, a record in whose name they find nothing, or change
/// nothing, gets no entry, whatever else is asked for and whatever is planned. So it
/// takes no number: what is planned up to it is planned up to the next.
pub proof fn law_filtered_names_take_no_number(
    settings: Settings,
    records: Seq<Found>,
    k: int,
)
    requires
        0 <= k < records.len(),
        settings.rewriters.len() > 0,
        names::name_text(records[k].path) matches Some(name) && parts(name, settings.scope) matches
            Some(p) && (expressions::match_count(settings.rewriters, p.1) == 0
            || expressions::rewritten(settings.rewriters, p.1) == p.1),
    ensures
        forall|plan: Seq<Planned>| #[trigger]
            settings.entry(plan, records, records[k]) is None,
        settings.plan_upto(records, k + 1) == settings.plan_upto(records, k),
{
    let name = names::name_text(records[k].path)->0;
    let (before, part, behind) = parts(name, settings.scope)->0;
    assert(settings.filters_out(part));
}

/// Where nothing becomes of the part of a name that is worked on, nothing is
/// planned.
pub proof fn law_untouched_names_are_not_planned(
    settings: Settings,
    plan: Seq<Planned>,
    records: Seq<Found>,
    r: Found,
)
    requires
        names::name_text(r.path) matches Some(name) && parts(name, settings.scope) matches Some(p)
            && settings.processed(p.1, context(plan, records, r.path)) == p.1,
    ensures
        settings.entry(plan, records, r) is None,
{
    let name = names::name_text(r.path)->0;
    let bytes = path::file_name(r.path)->0;
    decode_utf8_encode_utf8(bytes);
    names::law_stem_and_extension_make_the_name(r.path, name);
    let (before, part, behind) = parts(name, settings.scope)->0;
    let (stem, extension) = names::stem_and_extension(name);
    assert(before + part + behind == name) by {
        match settings.scope {
            ExtensionScope::Include => {
                assert(Seq::<char>::empty() + name + Seq::<char>::empty() == name);
            },
            ExtensionScope::Exclude => match extension {
                Some(e) => {
                    assert(Seq::<char>::empty() + stem + ("."@ + e) == stem + "."@ + e);
                },
                None => {
                    assert(Seq::<char>::empty() + stem + Seq::<char>::empty() == stem);
                },
            },
            ExtensionScope::Only => {
                let e = extension->0;
                assert(stem + "."@ + e + Seq::<char>::empty() == stem + "."@ + e);
            },
        }
    }
}

// ---- laws on records ---------------------------------------------------------------

proof fn lemma_planned_are_counted(plan: Seq<Planned>, dir: Seq<Seq<u8>>)
    ensures
        planned_beside(plan, dir) == plan.filter(
            |e: Planned| path::components(path::directory(e.old)) == dir,
        ).len(),
    decreases plan.len(),
{
    reveal(Seq::filter);
    if plan.len() > 0 {
        lemma_planned_are_counted(plan.drop_last(), dir);
    }
}

proof fn lemma_found_are_counted(records: Seq<Found>, dir: Seq<Seq<u8>>)
    ensures
        found_beside(records, dir) == records.filter(
            |r: Found|
                names::name_text(r.path) is Some && path::components(path::directory(r.path))
                    == dir,
        ).len(),
    decreases records.len(),
{
    reveal(Seq::filter);
    if records.len() > 0 {
        lemma_found_are_counted(records.drop_last(), dir);
    }
}

/// The number that a counter shows for a path is one more than that of the entries
/// planned so far in the same directory, and its width goes by the records there.
pub proof fn law_counters_go_by_directory(plan: Seq<Planned>, records: Seq<Found>, p: Seq<u8>)
    requires
        plan.len() < usize::MAX,
        records.len() <= usize::MAX,
    ensures
        context(plan, records, p).n == 1 + plan.filter(
            |e: Planned|
                path::components(path::directory(e.old)) == path::components(path::directory(p)),
        ).len(),
        context(plan, records, p).dir_count == records.filter(
            |r: Found|
                names::name_text(r.path) is Some && path::components(path::directory(r.path))
                    == path::components(path::directory(p)),
        ).len(),
{
    let dir = path::components(path::directory(p));
    lemma_planned_are_counted(plan, dir);
    lemma_found_are_counted(records, dir);
    lemma_planned_bounds(plan, dir);
    lemma_beside_bounds(records, dir);
}

/// A part of a name is left alone if and only if there are expressions and, one after
/// the other, they leave it as it is: neither how many there are nor how many of them
/// match has a say.
pub proof fn law_only_unchanged_parts_are_left_alone(settings: Settings, part: Seq<char>)
    ensures
        settings.filters_out(part) <==> settings.rewriters.len() > 0 && expressions::rewritten(
            settings.rewriters,
            part,
        ) == part,
{
    if settings.rewriters.len() > 0 && expressions::match_count(settings.rewriters, part) == 0 {
        expressions::law_unmatched_name_stays(settings.rewriters, part);
    }
}

/// What is asked for of a part, in the order of the stages: the expressions, the
/// letter case, what is appended, what is prepended, and the counter.
pub open spec fn staged(settings: Settings, part: Seq<char>, ctx: CounterContext) -> Seq<char> {
    let rewritten = expressions::rewritten(settings.rewriters, part);
    let cased = if settings.transforms.lower {
        text::lowercased(rewritten)
    } else if settings.transforms.upper {
        text::uppercased(rewritten)
    } else {
        rewritten
    };
    let suffix = match settings.transforms.append {
        Some(t) => transforms::formatted(t@, ctx),
        None => Seq::empty(),
    };
    let prefix = match settings.transforms.prepend {
        Some(t) => transforms::formatted(t@, ctx),
        None => Seq::empty(),
    };
    let number = match settings.counter {
        Some(t) => transforms::formatted(t, ctx),
        None => Seq::empty(),
    };
    number + prefix + cased + suffix
}

/// What a record becomes. Of a name in UTF-8, the whole, the stem or the extension is
/// worked on, and the rest stays; a name without an extension is left alone where
/// only extensions are worked on. If there are expressions and they change nothing,
/// there is no entry, and neither is there if the whole name stays as it is. Else the
/// entry is for the path of the record, in its directory, under the new name.
#[verifier::rlimit(40)]
#[verifier::spinoff_prover]
pub proof fn law_what_becomes_of_a_record(
    settings: Settings,
    plan: Seq<Planned>,
    records: Seq<Found>,
    r: Found,
)
    ensures
        names::name_text(r.path) is None ==> settings.entry(plan, records, r) is None,
        names::name_text(r.path) matches Some(name) ==> {
            let (stem, extension) = names::stem_and_extension(name);
            let ctx = context(plan, records, r.path);
            let part = match settings.scope {
                ExtensionScope::Include => Some(name),
                ExtensionScope::Exclude => Some(stem),
                ExtensionScope::Only => extension,
            };
            match part {
                None => settings.entry(plan, records, r) is None,
                Some(p) => {
                    let done = staged(settings, p, ctx);
                    let new = match settings.scope {
                        ExtensionScope::Include => done,
                        ExtensionScope::Exclude => match extension {
                            Some(e) => done + seq!['.'] + e,
                            None => done,
                        },
                        ExtensionScope::Only => stem + seq!['.'] + done,
                    };
                    let idle = settings.rewriters.len() > 0 && expressions::rewritten(
                        settings.rewriters,
                        p,
                    ) == p;
                    &&& idle || new == name ==> settings.entry(plan, records, r) is None
                    &&& !idle && new != name ==> settings.entry(plan, records, r) == Some(
                        Planned {
                            old: r.path,
                            new: path::join(path::directory(r.path), encode_utf8(new)),
                            depth: path::depth_below(r.path, r.root),
                        },
                    )
                },
            }
        },
{
    if let Some(name) = names::name_text(r.path) {
        lemma_new_name(settings, name, context(plan, records, r.path));
    }
}

proof fn lemma_staged(settings: Settings, part: Seq<char>, ctx: CounterContext)
    ensures
        settings.processed(part, ctx) == staged(settings, part, ctx),
{
    let rewritten = expressions::rewritten(settings.rewriters, part);
    transforms::law_affixes_go_round_the_cased_name(rewritten, settings.transforms, ctx);
    assert(settings.processed(part, ctx) =~= staged(settings, part, ctx));
}

#[verifier::rlimit(40)]
#[verifier::spinoff_prover]
proof fn lemma_new_name(settings: Settings, name: Seq<char>, ctx: CounterContext)
    ensures
        ({
            let (stem, extension) = names::stem_and_extension(name);
            let part = match settings.scope {
                ExtensionScope::Include => Some(name),
                ExtensionScope::Exclude => Some(stem),
                ExtensionScope::Only => extension,
            };
            match part {
                None => settings.new_name(name, ctx) is None,
                Some(p) => {
                    let done = staged(settings, p, ctx);
                    let new = match settings.scope {
                        ExtensionScope::Include => done,
                        ExtensionScope::Exclude => match extension {
                            Some(e) => done + seq!['.'] + e,
                            None => done,
                        },
                        ExtensionScope::Only => stem + seq!['.'] + done,
                    };
                    settings.new_name(name, ctx) == if settings.rewriters.len() > 0
                        && expressions::rewritten(settings.rewriters, p) == p {
                        None
                    } else {
                        Some(new)
                    }
                },
            }
        }),
{
    let (stem, extension) = names::stem_and_extension(name);
    reveal_strlit(".");
    assert("."@ =~= seq!['.']);
    match settings.scope {
        ExtensionScope::Include => {
            law_only_unchanged_parts_are_left_alone(settings, name);
            lemma_staged(settings, name, ctx);
            let done = staged(settings, name, ctx);
            assert(Seq::<char>::empty() + done + Seq::<char>::empty() =~= done);
        },
        ExtensionScope::Exclude => {
            law_only_unchanged_parts_are_left_alone(settings, stem);
            lemma_staged(settings, stem, ctx);
            let done = staged(settings, stem, ctx);
            match extension {
                Some(e) => {
                    assert(Seq::<char>::empty() + done + ("."@ + e) =~= done + seq!['.'] + e);
                },
                None => {
                    assert(Seq::<char>::empty() + done + Seq::<char>::empty() =~= done);
                },
            }
        },
        ExtensionScope::Only => {
            if let Some(e) = extension {
                law_only_unchanged_parts_are_left_alone(settings, e);
                lemma_staged(settings, e, ctx);
                let done = staged(settings, e, ctx);
                assert(stem + "."@ + done + Seq::<char>::empty() =~= stem + seq!['.'] + done);
            }
        },
    }
}

/// Every record for which there is something to plan is in the plan, with the entry
/// that it gets in view of those before it, and nothing else is.
pub proof fn law_every_record_is_looked_at(settings: Settings, records: Seq<Found>, k: int)
    requires
        0 <= k < records.len(),
    ensures
        settings.entry(settings.plan_upto(records, k), records, records[k]) matches Some(e)
            ==> settings.plan(records).contains(e),
        text::starts_with(settings.plan(records), settings.plan_upto(records, k)),
        settings.plan_upto(records, 0) == Seq::<Planned>::empty(),
        settings.entry(settings.plan_upto(records, k), records, records[k]) is None
            ==> settings.plan_upto(records, k + 1) == settings.plan_upto(records, k),
        settings.entry(settings.plan_upto(records, k), records, records[k]) matches Some(e)
            ==> settings.plan_upto(records, k + 1) == settings.plan_upto(records, k).push(e),
{
    let plan = settings.plan(records);
    lemma_plan_grows(settings, records, k, records.len() as int);
    lemma_plan_grows(settings, records, k + 1, records.len() as int);
    if let Some(e) = settings.entry(settings.plan_upto(records, k), records, records[k]) {
        let upto = settings.plan_upto(records, k + 1);
        assert(upto[upto.len() - 1] == e);
        assert(plan.take(upto.len() as int)[upto.len() - 1] == e);
        assert(plan[upto.len() - 1] == e);
    }
}

proof fn lemma_plan_grows(settings: Settings, records: Seq<Found>, k: int, n: int)
    requires
        0 <= k <= n <= records.len(),
    ensures
        text::starts_with(settings.plan_upto(records, n), settings.plan_upto(records, k)),
    decreases n - k,
{
    let early = settings.plan_upto(records, k);
    let late = settings.plan_upto(records, n);
    if k == n {
        assert(late.take(early.len() as int) =~= early);
    } else {
        lemma_plan_grows(settings, records, k, n - 1);
        let before = settings.plan_upto(records, n - 1);
        assert(before.take(early.len() as int) == early);
        assert(late.take(early.len() as int) =~= before.take(early.len() as int));
    }
}

/// Where expressions alone are asked for, every record whose part they change, one
/// after the other, is planned under a name that holds what they have made of it,
/// however many of them match.
#[verifier::rlimit(40)]
#[verifier::spinoff_prover]
pub proof fn law_changed_names_are_planned(settings: Settings, records: Seq<Found>, k: int)
    requires
        0 <= k < records.len(),
        settings.scope == ExtensionScope::Exclude,
        !settings.transforms.lower,
        !settings.transforms.upper,
        settings.transforms.append is None,
        settings.transforms.prepend is None,
        settings.counter is None,
        names::name_text(records[k].path) matches Some(name) && expressions::rewritten(
            settings.rewriters,
            names::stem_and_extension(name).0,
        ) != names::stem_and_extension(name).0,
    ensures
        ({
            let name = names::name_text(records[k].path)->0;
            let (stem, extension) = names::stem_and_extension(name);
            let rewritten = expressions::rewritten(settings.rewriters, stem);
            let new = match extension {
                Some(e) => rewritten + seq!['.'] + e,
                None => rewritten,
            };
            settings.plan(records).contains(
                Planned {
                    old: records[k].path,
                    new: path::join(path::directory(records[k].path), encode_utf8(new)),
                    depth: path::depth_below(records[k].path, records[k].root),
                },
            )
        }),
{
    let before = settings.plan_upto(records, k);
    let name = names::name_text(records[k].path)->0;
    let (stem, extension) = names::stem_and_extension(name);
    let rewritten = expressions::rewritten(settings.rewriters, stem);
    law_what_becomes_of_a_record(settings, before, records, records[k]);
    law_every_record_is_looked_at(settings, records, k);
    let done = staged(settings, stem, context(before, records, records[k].path));
    assert(done =~= rewritten);
    let bytes = path::file_name(records[k].path)->0;
    decode_utf8_encode_utf8(bytes);
    names::law_stem_and_extension_make_the_name(records[k].path, name);
    reveal_strlit(".");
    assert("."@ =~= seq!['.']);
    match extension {
        Some(e) => {
            let new = rewritten + seq!['.'] + e;
            if new == name {
                assert(new.take(rewritten.len() as int) =~= rewritten);
                assert(name.len() == stem.len() + 1 + e.len());
                assert(name.take(stem.len() as int) =~= stem);
            }
        },
        None => {},
    }
}

/// There is a warning about every record without a name in UTF-8, in order, and about
/// no other: records are gone through piece by piece.
pub proof fn law_skipped_records_are_warned_about(a: Seq<Found>, b: Seq<Found>, r: Found)
    ensures
        warnings_for(a + b) == warnings_for(a) + warnings_for(b),
        names::name_text(r.path) is Some ==> warnings_for(seq![r]) == Seq::<Seq<char>>::empty(),
        names::name_text(r.path) is None ==> warnings_for(seq![r]) == seq![
            "warning: "@ + text::lossy(r.path) + ": skipping (non-UTF-8 basename)"@,
        ],
    decreases b.len(),
{
    assert(seq![r].drop_last() =~= Seq::<Found>::empty());
    assert(warnings_for(Seq::empty()) =~= Seq::<Seq<char>>::empty());
    if names::name_text(r.path) is None {
        assert(warnings_for(seq![r]) =~= seq![
            "warning: "@ + text::lossy(r.path) + ": skipping (non-UTF-8 basename)"@,
        ]);
    }
    if b.len() == 0 {
        assert(a + b =~= a);
        assert(warnings_for(a) + warnings_for(b) =~= warnings_for(a));
    } else {
        assert((a + b).drop_last() =~= a + b.drop_last());
        law_skipped_records_are_warned_about(a, b.drop_last(), r);
        assert(warnings_for(a + b) =~= warnings_for(a) + warnings_for(b));
    }
}

/// What is done to names is what was given: every expression, in order, the part of
/// names, the transforms and the template.
pub proof fn law_settings_are_as_given(
    exprs: Seq<CompiledExpression>,
    scope: ExtensionScope,
    opts: TransformOptions,
    template: &str,
)
    ensures
        settings(exprs, scope, opts, None).counter is None,
        settings(exprs, scope, opts, Some(template)).counter == Some(template@),
        settings(exprs, scope, opts, None).scope == scope,
        settings(exprs, scope, opts, None).transforms == opts,
        settings(exprs, scope, opts, Some(template)).scope == scope,
        settings(exprs, scope, opts, Some(template)).transforms == opts,
        settings(exprs, scope, opts, Some(template)).rewriters == settings(
            exprs,
            scope,
            opts,
            None,
        ).rewriters,
        settings(exprs, scope, opts, None).rewriters.len() == exprs.len(),
        forall|i: int|
            0 <= i < exprs.len() ==> #[trigger] settings(exprs, scope, opts, None).rewriters[i]
                == exprs[i]@,
        scope_without(true) == ExtensionScope::Exclude,
        scope_without(false) == ExtensionScope::Include,
{
}

/// A record is worked on if it has a name in UTF-8 and, where only extensions are
/// worked on, an extension.
pub proof fn law_names_are_worked_on(r: Found)
    ensures
        worked_on(r, ExtensionScope::Include) <==> names::name_text(r.path) is Some,
        worked_on(r, ExtensionScope::Exclude) <==> names::name_text(r.path) is Some,
        worked_on(r, ExtensionScope::Only) <==> (names::name_text(r.path) matches Some(name)
            && names::stem_and_extension(name).1 is Some),
{
}

/// An entry is for the path of its record, at the depth that it has below its root,
/// and only a record with a name in UTF-8 gets one.
pub proof fn law_entries_are_for_their_records(
    settings: Settings,
    plan: Seq<Planned>,
    records: Seq<Found>,
    r: Found,
)
    ensures
        settings.entry(plan, records, r) matches Some(e) ==> {
            &&& e.old == r.path
            &&& e.depth == path::depth_below(r.path, r.root)
            &&& names::name_text(r.path) is Some
        },
{
}

} // verus!
