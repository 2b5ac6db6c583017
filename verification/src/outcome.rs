//! What a run leaves on a disk, if what is reported to it is true.

use vstd::prelude::*;
use crate::apply;
use crate::apply::{Fault, Group, Phase, Report, Run};
use crate::moves;
use crate::names;
use crate::path;
use crate::rename;
use crate::rename::{Planned, Settings};
use crate::scan::Found;
use crate::text;

verus! {

// ---- reports and disks --------------------------------------------------------

/// Whether a report answers what the run asked for and, if that was whether a path
/// is occupied, tells how the disk has it.
pub open spec fn is_true<V>(
    disk: spec_fn(Seq<Seq<u8>>) -> Option<V>,
    run: Run,
    report: Report,
) -> bool {
    &&& run.expects(report)
    &&& report matches Report::Probed(occupied) ==> occupied == moves::taken(
        disk,
        path::components(run.phase->Choosing_candidate),
    )
}

/// The disk after what a report tells of.
pub open spec fn next_disk<V>(
    disk: spec_fn(Seq<Seq<u8>>) -> Option<V>,
    run: Run,
    report: Report,
) -> spec_fn(Seq<Seq<u8>>) -> Option<V> {
    if report is Renamed {
        moves::after_move(disk, run.due()->0)
    } else {
        disk
    }
}

/// The run after reports, one after the other.
pub open spec fn run_after(run: Run, reports: Seq<Report>) -> Run
    decreases reports.len(),
{
    if reports.len() == 0 {
        run
    } else {
        run_after(run, reports.drop_last()).after(reports.last())
    }
}

/// The disk after what the reports tell of.
pub open spec fn disk_after<V>(
    disk: spec_fn(Seq<Seq<u8>>) -> Option<V>,
    run: Run,
    reports: Seq<Report>,
) -> spec_fn(Seq<Seq<u8>>) -> Option<V>
    decreases reports.len(),
{
    if reports.len() == 0 {
        disk
    } else {
        let rest = reports.drop_last();
        next_disk(disk_after(disk, run, rest), run_after(run, rest), reports.last())
    }
}

/// Whether each report is true at its turn.
pub open spec fn all_true<V>(
    disk: spec_fn(Seq<Seq<u8>>) -> Option<V>,
    run: Run,
    reports: Seq<Report>,
) -> bool
    decreases reports.len(),
{
    reports.len() == 0 || {
        let rest = reports.drop_last();
        &&& all_true(disk, run, rest)
        &&& is_true(disk_after(disk, run, rest), run_after(run, rest), reports.last())
    }
}

/// Whether each temporary path that a run has used was free when an entry was moved
/// aside to it, and the one that the next entry is to be moved to is free now.
pub open spec fn temps_were_free<V>(
    disk: spec_fn(Seq<Seq<u8>>) -> Option<V>,
    run: Run,
) -> bool {
    &&& forall|k: int|
        0 <= k < run.at ==> moves::free_in_turn(
            moves::after_moves(disk, run.completed(k as nat)),
            run.groups[k].entries,
            #[trigger] run.trace.temps[k],
        )
    &&& moves::free_in_turn(
        moves::after_moves(disk, run.completed(run.at)),
        run.entries(),
        run.parked,
    )
    &&& run.phase matches Phase::Parking { attempt, candidate } ==> !moves::taken(
        moves::after_moves(disk, run.trace.moves),
        path::components(candidate),
    )
}

proof fn lemma_next_disk<V>(
    disk: spec_fn(Seq<Seq<u8>>) -> Option<V>,
    run: Run,
    report: Report,
)
    requires
        run.consistent(),
        run.expects(report),
    ensures
        next_disk(moves::after_moves(disk, run.trace.moves), run, report) == moves::after_moves(
            disk,
            run.after(report).trace.moves,
        ),
{
    let before = run.trace.moves;
    let now = run.after(report).trace.moves;
    if report is Renamed {
        assert(now == before.push(run.due()->0));
        assert(now.drop_last() == before);
    } else {
        assert(now == before);
    }
}

/// One more entry has been moved aside, to a path that was free.
proof fn lemma_parked_free<V>(disk: spec_fn(Seq<Seq<u8>>) -> Option<V>, run: Run)
    requires
        run.consistent(),
        run.phase is Parking,
        temps_were_free(disk, run),
    ensures
        moves::free_in_turn(
            moves::after_moves(disk, run.completed(run.at)),
            run.entries(),
            run.parked.push(run.phase->Parking_candidate),
        ),
{
    let candidate = run.phase->Parking_candidate;
    let before = moves::after_moves(disk, run.completed(run.at));
    let entries = run.entries();
    let n = run.parked.len();
    let temps = run.parked.push(candidate);
    assert forall|i: int| 0 <= i < temps.len() implies !moves::taken(
        moves::after_moves(before, moves::parks(entries, temps, i as nat)),
        #[trigger] moves::aside(temps, i),
    ) by {
        assert(moves::parks(entries, temps, i as nat) =~= moves::parks(
            entries,
            run.parked,
            i as nat,
        ));
        if i < n {
            assert(moves::aside(temps, i) == moves::aside(run.parked, i));
        } else {
            moves::lemma_after_moves_concat(
                disk,
                run.completed(run.at),
                moves::parks(entries, run.parked, n),
            );
        }
    }
}

#[verifier::rlimit(40)]
#[verifier::spinoff_prover]
proof fn lemma_stay_free<V>(disk: spec_fn(Seq<Seq<u8>>) -> Option<V>, run: Run, report: Report)
    requires
        run.consistent(),
        temps_were_free(disk, run),
        is_true(moves::after_moves(disk, run.trace.moves), run, report),
    ensures
        temps_were_free(disk, run.after(report)),
{
    let next = run.after(report);
    apply::law_run_stays_consistent(run, report);
    assert forall|k: int| 0 <= k <= run.at implies #[trigger] next.completed(k as nat)
        == run.completed(k as nat) by {
        apply::lemma_completed_same(run, next, k as nat);
    }
    if run.phase is Parking && report is Renamed {
        lemma_parked_free(disk, run);
    }
    assert forall|k: int| 0 <= k < next.at implies moves::free_in_turn(
        moves::after_moves(disk, next.completed(k as nat)),
        next.groups[k].entries,
        #[trigger] next.trace.temps[k],
    ) by {
        if k < run.at {
            assert(next.trace.temps[k] == run.trace.temps[k]);
        } else {
            assert(next.trace.temps[k] == run.parked);
        }
    }
}

/// A run, from its start on, and all that was reported to it.
pub struct History {
    pub groups: Seq<Group>,
    pub pid: nat,
    pub counter: nat,
    pub reports: Seq<Report>,
}

impl History {
    /// The run at its start.
    pub open spec fn start(self) -> Run {
        apply::starting(self.groups, self.pid, self.counter)
    }

    /// The run after all reports.
    pub open spec fn run(self) -> Run {
        run_after(self.start(), self.reports)
    }

    /// What the run leaves of a disk.
    pub open spec fn disk_after<V>(self, disk: spec_fn(Seq<Seq<u8>>) -> Option<V>) -> spec_fn(
        Seq<Seq<u8>>,
    ) -> Option<V> {
        disk_after(disk, self.start(), self.reports)
    }

    /// Whether the run carries out a plan.
    pub open spec fn is_of(self, plan: Seq<Planned>) -> bool {
        apply::are_depth_groups(plan, self.groups) && self.start().consistent()
    }

    /// Whether what was reported is true, if the run started on the given disk.
    pub open spec fn is_true_of<V>(self, disk: spec_fn(Seq<Seq<u8>>) -> Option<V>) -> bool {
        all_true(disk, self.start(), self.reports)
    }

    /// Whether the run has ended well.
    pub open spec fn has_succeeded(self) -> bool {
        self.run().phase == Phase::Finished(None)
    }
}

proof fn lemma_disk_is_as_reported<V>(
    disk: spec_fn(Seq<Seq<u8>>) -> Option<V>,
    start: Run,
    reports: Seq<Report>,
)
    requires
        start.consistent(),
        start.trace.moves.len() == 0,
        temps_were_free(disk, start),
        all_true(disk, start, reports),
    ensures
        ({
            let run = run_after(start, reports);
            &&& run.consistent()
            &&& run.groups == start.groups
            &&& run.pid == start.pid
            &&& disk_after(disk, start, reports) == moves::after_moves(disk, run.trace.moves)
            &&& temps_were_free(disk, run)
        }),
    decreases reports.len(),
{
    if reports.len() > 0 {
        let rest = reports.drop_last();
        lemma_disk_is_as_reported(disk, start, rest);
        let run = run_after(start, rest);
        apply::law_run_stays_consistent(run, reports.last());
        lemma_next_disk(disk, run, reports.last());
        lemma_stay_free(disk, run, reports.last());
    }
}

/// If what is reported is true, the disk is as the renames of the run leave it, and
/// every temporary path was free when it was used.
pub proof fn law_disk_is_as_reported<V>(
    disk: spec_fn(Seq<Seq<u8>>) -> Option<V>,
    history: History,
)
    requires
        history.start().consistent(),
        history.is_true_of(disk),
    ensures
        history.run().consistent(),
        history.run().groups == history.groups,
        history.run().pid == history.pid,
        history.disk_after(disk) == moves::after_moves(disk, history.run().trace.moves),
        temps_were_free(disk, history.run()),
{
    lemma_disk_is_as_reported(disk, history.start(), history.reports);
}

// ---- runs in which all goes well ----------------------------------------------

/// Whether each report tells that all went well: that a path is free, or that an
/// entry was renamed.
pub open spec fn all_well(run: Run, reports: Seq<Report>) -> bool
    decreases reports.len(),
{
    reports.len() == 0 || {
        let rest = reports.drop_last();
        &&& all_well(run, rest)
        &&& run_after(run, rest).expects(reports.last())
        &&& reports.last() == Report::Probed(false) || reports.last() is Renamed
    }
}

/// How many entries the groups from the `k`th on have.
spec fn entries_from(groups: Seq<Group>, k: nat) -> nat
    decreases groups.len() - k,
{
    if k >= groups.len() {
        0
    } else {
        groups[k as int].entries.len() + entries_from(groups, k + 1)
    }
}

/// How many reports a run is still to be given, if all goes well.
spec fn reports_left(run: Run) -> int {
    let n = run.entries().len();
    let parked = run.parked.len();
    let later = 3 * entries_from(run.groups, run.at + 1);
    match run.phase {
        Phase::Choosing { .. } => 3 * n - 2 * parked + later,
        Phase::Parking { .. } => 3 * n - 2 * parked - 1 + later,
        Phase::Placing { placed } => n - placed + later,
        _ => 0,
    }
}

/// How many renames a run is still to ask for, if all goes well.
spec fn renames_left(run: Run) -> int {
    let n = run.entries().len();
    let later = 2 * entries_from(run.groups, run.at + 1);
    match run.phase {
        Phase::Choosing { .. } | Phase::Parking { .. } => 2 * n - run.parked.len() + later,
        Phase::Placing { placed } => n - placed + later,
        _ => 0,
    }
}

spec fn goes_well(run: Run) -> bool {
    run.phase is Choosing || run.phase is Parking || run.phase is Placing || run.phase
        == Phase::Finished(None)
}

proof fn lemma_all_goes_well(run: Run, report: Report)
    requires
        run.consistent(),
        goes_well(run),
        run.expects(report),
        report == Report::Probed(false) || report is Renamed,
    ensures
        goes_well(run.after(report)),
        reports_left(run.after(report)) == reports_left(run) - 1,
        run.after(report).trace.moves.len() + renames_left(run.after(report))
            == run.trace.moves.len() + renames_left(run),
{
    let next = run.after(report);
    if run.phase is Placing && run.phase->placed + 1 >= run.entries().len() {
        assert(next.at == run.at + 1);
    }
}

/// How many entries of the plan have one of the depths from the `k`th on.
spec fn entries_at(plan: Seq<Planned>, groups: Seq<Group>, k: nat) -> nat
    decreases groups.len() - k,
{
    if k >= groups.len() {
        0
    } else {
        apply::of_depth(plan, groups[k as int].depth).len() + entries_at(plan, groups, k + 1)
    }
}

proof fn lemma_entries_at(plan: Seq<Planned>, groups: Seq<Group>, k: nat)
    requires
        plan.len() > 0,
        forall|i: int, j: int| 0 <= i < j < groups.len() ==> groups[i].depth > groups[j].depth,
    ensures
        entries_at(plan, groups, k) == entries_at(plan.drop_last(), groups, k) + (if exists|g: int|
            k <= g < groups.len() && (#[trigger] groups[g]).depth == plan.last().depth {
            1nat
        } else {
            0
        }),
    decreases groups.len() - k,
{
    reveal(Seq::filter);
    if k < groups.len() {
        lemma_entries_at(plan, groups, k + 1);
    }
}

proof fn lemma_no_entries(groups: Seq<Group>, k: nat)
    ensures
        entries_at(Seq::empty(), groups, k) == 0,
    decreases groups.len() - k,
{
    reveal(Seq::filter);
    if k < groups.len() {
        lemma_no_entries(groups, k + 1);
    }
}

proof fn lemma_every_entry_once(plan: Seq<Planned>, groups: Seq<Group>)
    requires
        forall|i: int, j: int| 0 <= i < j < groups.len() ==> groups[i].depth > groups[j].depth,
        forall|k: int|
            0 <= k < plan.len() ==> apply::has_depth(groups, (#[trigger] plan[k]).depth),
    ensures
        entries_at(plan, groups, 0) == plan.len(),
    decreases plan.len(),
{
    if plan.len() == 0 {
        assert(plan == Seq::<Planned>::empty());
        lemma_no_entries(groups, 0);
    } else {
        let rest = plan.drop_last();
        assert forall|k: int| 0 <= k < rest.len() implies apply::has_depth(
            groups,
            (#[trigger] rest[k]).depth,
        ) by {
            assert(rest[k] == plan[k]);
        }
        lemma_every_entry_once(rest, groups);
        lemma_entries_at(plan, groups, 0);
        assert(apply::has_depth(groups, plan[plan.len() - 1].depth));
    }
}

proof fn lemma_entries_from(plan: Seq<Planned>, groups: Seq<Group>, k: nat)
    requires
        apply::are_depth_groups(plan, groups),
    ensures
        entries_from(groups, k) == entries_at(plan, groups, k),
    decreases groups.len() - k,
{
    if k < groups.len() {
        lemma_entries_from(plan, groups, k + 1);
    }
}

proof fn lemma_well_so_far(start: Run, reports: Seq<Report>)
    requires
        start.consistent(),
        goes_well(start),
        all_well(start, reports),
    ensures
        ({
            let run = run_after(start, reports);
            &&& run.consistent()
            &&& goes_well(run)
            &&& reports.len() + reports_left(run) == reports_left(start)
            &&& run.trace.moves.len() + renames_left(run) == start.trace.moves.len() + renames_left(
                start,
            )
        }),
    decreases reports.len(),
{
    if reports.len() > 0 {
        let rest = reports.drop_last();
        lemma_well_so_far(start, rest);
        apply::law_run_stays_consistent(run_after(start, rest), reports.last());
        lemma_all_goes_well(run_after(start, rest), reports.last());
    }
}

/// If every path that is looked at is free and every rename works, a run ends well
/// after three reports for each entry of the plan, and not before: one that its
/// temporary path is free, and one for each of the two renames that take it there
/// and to its target.
pub proof fn law_untroubled_run_succeeds(plan: Seq<Planned>, history: History)
    requires
        history.is_of(plan),
        all_well(history.start(), history.reports),
    ensures
        history.reports.len() <= 3 * plan.len(),
        history.has_succeeded() <==> history.reports.len() == 3 * plan.len(),
        history.has_succeeded() ==> history.run().trace.moves.len() == 2 * plan.len(),
{
    lemma_well_so_far(history.start(), history.reports);
    lemma_entries_from(plan, history.groups, 0);
    lemma_every_entry_once(plan, history.groups);
}

// ---- one depth ----------------------------------------------------------------

/// Whether the name of each entry is text.
pub open spec fn are_named(entries: Seq<Planned>) -> bool {
    forall|i: int| 0 <= i < entries.len() ==> names::name_text((#[trigger] entries[i]).old) is Some
}

/// Whether no place that an entry is to go to is at, above or below a temporary path
/// of an entry of the same depth.
pub open spec fn no_target_is_temporary(plan: Seq<Planned>, pid: nat) -> bool {
    forall|i: int, j: int, temp: Seq<u8>|
        #![trigger apply::is_temp(plan[i].old, pid, temp), moves::target(plan, j)]
        0 <= i < plan.len() && 0 <= j < plan.len() && plan[i].depth == plan[j].depth
            && apply::is_temp(plan[i].old, pid, temp) ==> moves::apart(
            path::components(temp),
            moves::target(plan, j),
        )
}

/// Whether the entries of a depth can go where they are to go: they are there, none
/// is in the way of another, and nothing else is in their way.
pub open spec fn can_go<V>(
    disk: spec_fn(Seq<Seq<u8>>) -> Option<V>,
    entries: Seq<Planned>,
    pid: nat,
) -> bool {
    &&& are_named(entries)
    &&& moves::sources_apart(entries)
    &&& moves::targets_apart(entries)
    &&& moves::sources_exist(disk, entries)
    &&& moves::targets_free(disk, entries)
    &&& no_target_is_temporary(entries, pid)
}

proof fn lemma_temps_in_place(entries: Seq<Planned>, temps: Seq<Seq<u8>>, pid: nat, depth: nat)
    requires
        temps.len() <= entries.len(),
        forall|i: int| 0 <= i < entries.len() ==> (#[trigger] entries[i]).depth == depth,
        are_named(entries),
        no_target_is_temporary(entries, pid),
        apply::are_temps(entries, temps, pid),
    ensures
        moves::beside(entries, temps),
        moves::clear_of_targets(entries, temps),
{
    assert forall|i: int| 0 <= i < temps.len() implies {
        &&& (#[trigger] moves::aside(temps, i)).len() == moves::source(entries, i).len() > 0
        &&& moves::aside(temps, i).drop_last() == moves::source(entries, i).drop_last()
        &&& moves::aside(temps, i) != moves::source(entries, i)
    } by {
        assert(apply::is_temp(entries[i].old, pid, temps[i]));
        apply::law_temporary_path_is_beside(entries[i].old, pid, temps[i]);
    }
    assert forall|i: int, j: int|
        0 <= i < temps.len() && 0 <= j < entries.len() implies moves::apart(
        #[trigger] moves::aside(temps, i),
        #[trigger] moves::target(entries, j),
    ) by {
        assert(apply::is_temp(entries[i].old, pid, temps[i]));
        assert(entries[i].depth == entries[j].depth);
    }
}

/// An entry of a group is an entry of the plan, of the depth of the group.
proof fn lemma_group_entry(plan: Seq<Planned>, groups: Seq<Group>, g: int, i: int) -> (k: int)
    requires
        apply::are_depth_groups(plan, groups),
        0 <= g < groups.len(),
        0 <= i < groups[g].entries.len(),
    ensures
        0 <= k < plan.len(),
        plan[k] == groups[g].entries[i],
        plan[k].depth == groups[g].depth,
{
    let wanted = |e: Planned| e.depth == groups[g].depth;
    let entries = plan.filter(wanted);
    assert(groups[g].entries == entries);
    plan.lemma_filter_pred(wanted, i);
    assert(entries.contains(entries[i]));
    plan.lemma_filter_contains_rev(wanted, entries[i]);
    choose|k: int| 0 <= k < plan.len() && plan[k] == entries[i]
}

/// An entry of the plan is in the group of its depth.
proof fn lemma_plan_entry(plan: Seq<Planned>, groups: Seq<Group>, g: int, k: int) -> (i: int)
    requires
        apply::are_depth_groups(plan, groups),
        0 <= g < groups.len(),
        0 <= k < plan.len(),
        plan[k].depth == groups[g].depth,
    ensures
        0 <= i < groups[g].entries.len(),
        plan[k] == groups[g].entries[i],
{
    let wanted = |e: Planned| e.depth == groups[g].depth;
    let entries = plan.filter(wanted);
    assert(groups[g].entries == entries);
    plan.lemma_filter_contains(wanted, k);
    choose|i: int| 0 <= i < entries.len() && entries[i] == plan[k]
}

proof fn lemma_same_depth(plan: Seq<Planned>, groups: Seq<Group>, g: int)
    requires
        apply::are_depth_groups(plan, groups),
        0 <= g < groups.len(),
    ensures
        forall|i: int|
            0 <= i < groups[g].entries.len() ==> (#[trigger] groups[g].entries[i]).depth
                == groups[g].depth,
{
    assert forall|i: int| 0 <= i < groups[g].entries.len() implies (
    #[trigger] groups[g].entries[i]).depth == groups[g].depth by {
        let k = lemma_group_entry(plan, groups, g, i);
    }
}

/// A depth that is done has everything where it was to go.
proof fn lemma_done_depth<V>(
    disk: spec_fn(Seq<Seq<u8>>) -> Option<V>,
    plan: Seq<Planned>,
    run: Run,
    k: nat,
)
    requires
        apply::are_depth_groups(plan, run.groups),
        run.consistent(),
        temps_were_free(disk, run),
        k < run.at,
        can_go(
            moves::after_moves(disk, run.completed(k)),
            run.groups[k as int].entries,
            run.pid,
        ),
    ensures
        moves::after_moves(disk, run.completed(k + 1)) == moves::after_all(
            moves::after_moves(disk, run.completed(k)),
            run.groups[k as int].entries,
        ),
{
    let entries = run.groups[k as int].entries;
    let temps = run.trace.temps[k as int];
    let before = moves::after_moves(disk, run.completed(k));
    lemma_same_depth(plan, run.groups, k as int);
    lemma_temps_in_place(entries, temps, run.pid, run.groups[k as int].depth);
    moves::law_two_phases_reach_targets(before, entries, temps);
    moves::lemma_after_moves_concat(
        disk,
        run.completed(k),
        moves::parked_and_placed(entries, temps, entries.len()),
    );
}

/// If what is reported is true, the disk, once a depth is done, is as it was before
/// that depth but for the entries of the depth, each of which has gone to its target
/// with all that is below it.
pub proof fn law_done_depth_is_in_place<V>(
    disk: spec_fn(Seq<Seq<u8>>) -> Option<V>,
    plan: Seq<Planned>,
    history: History,
    k: nat,
)
    requires
        history.is_of(plan),
        history.is_true_of(disk),
        k < history.run().at,
        can_go(
            moves::after_moves(disk, history.run().completed(k)),
            history.groups[k as int].entries,
            history.pid,
        ),
    ensures
        moves::after_moves(disk, history.run().completed(k + 1)) == moves::after_all(
            moves::after_moves(disk, history.run().completed(k)),
            history.groups[k as int].entries,
        ),
{
    law_disk_is_as_reported(disk, history);
    lemma_done_depth(disk, plan, history.run(), k);
}

/// If what is reported is true, a run that fails while it puts a depth into place,
/// and whose takings back all work, leaves the disk as it was before that depth.
pub proof fn law_failed_placing_restores<V>(
    disk: spec_fn(Seq<Seq<u8>>) -> Option<V>,
    plan: Seq<Planned>,
    history: History,
)
    requires
        history.is_of(plan),
        history.is_true_of(disk),
        history.run().phase matches Phase::Finished(Some(Fault::Placing { .. })),
        history.run().trace.intact,
        can_go(
            moves::after_moves(disk, history.run().completed(history.run().at)),
            history.run().entries(),
            history.pid,
        ),
    ensures
        history.disk_after(disk) == moves::after_moves(
            disk,
            history.run().completed(history.run().at),
        ),
{
    let run = history.run();
    law_disk_is_as_reported(disk, history);
    let before = moves::after_moves(disk, run.completed(run.at));
    apply::lemma_parked_are_temps(run);
    lemma_same_depth(plan, run.groups, run.at as int);
    lemma_temps_in_place(run.entries(), run.parked, run.pid, run.depth());
    moves::law_rollback_restores(before, run.entries(), run.parked, run.trace.reached);
    moves::lemma_after_moves_concat(disk, run.completed(run.at), run.present());
}

// ---- the whole plan -----------------------------------------------------------

/// Whether each entry of the plan stays in its directory, an entry below another is
/// deeper than that one, and no two entries are to go to the same place.
pub open spec fn is_tidy(plan: Seq<Planned>) -> bool {
    &&& forall|i: int|
        0 <= i < plan.len() ==> {
            &&& (#[trigger] moves::target(plan, i)).len() == moves::source(plan, i).len() > 0
            &&& moves::target(plan, i).drop_last() == moves::source(plan, i).drop_last()
        }
    &&& forall|i: int, j: int|
        0 <= i < plan.len() && 0 <= j < plan.len() && i != j && moves::covers(
            #[trigger] moves::source(plan, i),
            #[trigger] moves::source(plan, j),
        ) ==> plan[i].depth < plan[j].depth
    &&& forall|i: int, j: int|
        0 <= i < j < plan.len() ==> #[trigger] moves::target(plan, i) != #[trigger] moves::target(
            plan,
            j,
        )
}

/// Whether what is on a disk is in directories that are on it too.
pub open spec fn is_tree<V>(disk: spec_fn(Seq<Seq<u8>>) -> Option<V>) -> bool {
    forall|p: Seq<Seq<u8>>, l: int|
        disk(p) is Some && 0 < l <= p.len() ==> disk(#[trigger] p.take(l)) is Some
}

/// Whether a plan can be carried out on a disk: its entries are there, and what is at
/// or below a place that an entry is to go to is at or below an entry of the same
/// depth.
pub open spec fn can_be_applied<V>(
    disk: spec_fn(Seq<Seq<u8>>) -> Option<V>,
    plan: Seq<Planned>,
    pid: nat,
) -> bool {
    &&& is_tree(disk)
    &&& is_tidy(plan)
    &&& are_named(plan)
    &&& no_target_is_temporary(plan, pid)
    &&& moves::sources_exist(disk, plan)
    &&& forall|depth: nat|
        moves::targets_free(disk, #[trigger] apply::of_depth(plan, depth))
}

/// Whether an entry of the plan has the given place.
pub open spec fn has_entry(plan: Seq<Planned>, place: Seq<Seq<u8>>) -> bool {
    exists|i: int| 0 <= i < plan.len() && #[trigger] moves::source(plan, i) == place
}

/// The entry of the plan that has the given place.
pub open spec fn entry_at(plan: Seq<Planned>, place: Seq<Seq<u8>>) -> int {
    choose|i: int| 0 <= i < plan.len() && #[trigger] moves::source(plan, i) == place
}

/// Where a plan takes what is at a place: each component that is the name of an
/// entry becomes the new name of that entry.
pub open spec fn final_place(plan: Seq<Planned>, p: Seq<Seq<u8>>) -> Seq<Seq<u8>> {
    Seq::new(
        p.len(),
        |l: int|
            if has_entry(plan, p.take(l + 1)) {
                moves::target(plan, entry_at(plan, p.take(l + 1))).last()
            } else {
                p[l]
            },
    )
}

/// Whether a depth is one of the first `k`.
spec fn is_done(groups: Seq<Group>, k: nat, depth: nat) -> bool {
    exists|g: int| 0 <= g < k && (#[trigger] groups[g]).depth == depth
}

/// Whether the component at `l` has been renamed once the first `k` depths are done.
spec fn is_renamed(
    plan: Seq<Planned>,
    groups: Seq<Group>,
    k: nat,
    p: Seq<Seq<u8>>,
    l: int,
) -> bool {
    has_entry(plan, p.take(l + 1)) && is_done(
        groups,
        k,
        plan[entry_at(plan, p.take(l + 1))].depth,
    )
}

/// Where the first `k` depths of a plan take what is at a place.
spec fn place_so_far(
    plan: Seq<Planned>,
    groups: Seq<Group>,
    k: nat,
    p: Seq<Seq<u8>>,
) -> Seq<Seq<u8>> {
    Seq::new(
        p.len(),
        |l: int|
            if is_renamed(plan, groups, k, p, l) {
                moves::target(plan, entry_at(plan, p.take(l + 1))).last()
            } else {
                p[l]
            },
    )
}

/// Whether no entry is at or below where a deeper one is to go, and none is to go
/// below where another of its depth is to go.
spec fn is_settled(plan: Seq<Planned>) -> bool {
    &&& forall|i: int, j: int|
        0 <= i < plan.len() && 0 <= j < plan.len() && plan[i].depth > plan[j].depth
            ==> !moves::covers(#[trigger] moves::target(plan, i), #[trigger] moves::source(plan, j))
    &&& forall|i: int, j: int|
        0 <= i < plan.len() && 0 <= j < plan.len() && i != j && plan[i].depth == plan[j].depth
            ==> moves::apart(#[trigger] moves::target(plan, i), #[trigger] moves::target(plan, j))
}

/// What a disk has at or below a place that an entry is to go to belongs to entries
/// of the same depth.
proof fn lemma_occupant<V>(
    disk: spec_fn(Seq<Seq<u8>>) -> Option<V>,
    plan: Seq<Planned>,
    pid: nat,
    i: int,
    q: Seq<Seq<u8>>,
) -> (k: int)
    requires
        can_be_applied(disk, plan, pid),
        0 <= i < plan.len(),
        moves::covers(moves::target(plan, i), q),
        disk(q) is Some,
    ensures
        0 <= k < plan.len(),
        plan[k].depth == plan[i].depth,
        moves::covers(moves::source(plan, k), q),
{
    let depth = plan[i].depth;
    let wanted = |e: Planned| e.depth == depth;
    let entries = apply::of_depth(plan, depth);
    plan.lemma_filter_contains(wanted, i);
    let a = choose|a: int| 0 <= a < entries.len() && entries[a] == plan[i];
    assert(moves::target(entries, a) == moves::target(plan, i));
    assert(moves::in_target(entries, q));
    assert(moves::targets_free(disk, entries));
    let b = choose|b: int|
        0 <= b < entries.len() && moves::covers(#[trigger] moves::source(entries, b), q);
    plan.lemma_filter_pred(wanted, b);
    assert(entries.contains(entries[b]));
    plan.lemma_filter_contains_rev(wanted, entries[b]);
    let k = choose|k: int| 0 <= k < plan.len() && plan[k] == entries[b];
    assert(moves::source(plan, k) == moves::source(entries, b));
    k
}

/// A place that something is at or below is on a disk itself.
proof fn lemma_taken_is_there<V>(
    disk: spec_fn(Seq<Seq<u8>>) -> Option<V>,
    p: Seq<Seq<u8>>,
)
    requires
        is_tree(disk),
        moves::taken(disk, p),
        p.len() > 0,
    ensures
        disk(p) is Some,
{
    let q = choose|q: Seq<Seq<u8>>| #[trigger] moves::covers(p, q) && disk(q) is Some;
    assert(disk(q.take(p.len() as int)) is Some);
}

proof fn lemma_settled<V>(
    disk: spec_fn(Seq<Seq<u8>>) -> Option<V>,
    plan: Seq<Planned>,
    pid: nat,
)
    requires
        can_be_applied(disk, plan, pid),
    ensures
        is_settled(plan),
{
    assert forall|i: int, j: int|
        0 <= i < plan.len() && 0 <= j < plan.len() && plan[i].depth > plan[j].depth implies
        !moves::covers(#[trigger] moves::target(plan, i), #[trigger] moves::source(plan, j)) by {
        if moves::covers(moves::target(plan, i), moves::source(plan, j)) {
            assert(moves::target(plan, j).len() == moves::source(plan, j).len() > 0);
            lemma_taken_is_there(disk, moves::source(plan, j));
            let k = lemma_occupant(disk, plan, pid, i, moves::source(plan, j));
            assert(plan[k].depth < plan[j].depth);
        }
    }
    assert forall|i: int, j: int|
        0 <= i < plan.len() && 0 <= j < plan.len() && i != j && plan[i].depth
            == plan[j].depth implies moves::apart(
        #[trigger] moves::target(plan, i),
        #[trigger] moves::target(plan, j),
    ) by {
        lemma_not_below(disk, plan, pid, i, j);
        lemma_not_below(disk, plan, pid, j, i);
    }
}

proof fn lemma_not_below<V>(
    disk: spec_fn(Seq<Seq<u8>>) -> Option<V>,
    plan: Seq<Planned>,
    pid: nat,
    i: int,
    j: int,
)
    requires
        can_be_applied(disk, plan, pid),
        0 <= i < plan.len(),
        0 <= j < plan.len(),
        i != j,
        plan[i].depth == plan[j].depth,
    ensures
        !moves::covers(moves::target(plan, i), moves::target(plan, j)),
{
    let above = moves::target(plan, i);
    let to = moves::target(plan, j);
    let from = moves::source(plan, j);
    if moves::covers(above, to) {
        let length = above.len() as int;
        if length == to.len() {
            assert(to.take(length) =~= to);
            assert(above == to);
        } else {
            assert(from.take(length) =~= from.drop_last().take(length));
            assert(to.take(length) =~= to.drop_last().take(length));
            lemma_taken_is_there(disk, from);
            assert(disk(from.take(length)) is Some);
            assert(above.take(length) =~= above);
            let k = lemma_occupant(disk, plan, pid, i, above);
            moves::lemma_covers_through(moves::source(plan, k), above, from);
            assert(k == j);
        }
    }
}

/// What is below an entry of a depth stays below it while the deeper ones are done.
proof fn lemma_stays_below(
    plan: Seq<Planned>,
    groups: Seq<Group>,
    k: nat,
    p: Seq<Seq<u8>>,
    e: int,
)
    requires
        is_tidy(plan),
        apply::are_depth_groups(plan, groups),
        k < groups.len(),
        0 <= e < plan.len(),
        plan[e].depth == groups[k as int].depth,
        moves::covers(moves::source(plan, e), p),
    ensures
        moves::covers(moves::source(plan, e), place_so_far(plan, groups, k, p)),
{
    let so_far = place_so_far(plan, groups, k, p);
    let from = moves::source(plan, e);
    assert forall|l: int| 0 <= l < from.len() implies #[trigger] so_far[l] == p[l] by {
        if is_renamed(plan, groups, k, p, l) {
            let i = entry_at(plan, p.take(l + 1));
            assert(moves::source(plan, i) == p.take(l + 1));
            let g = choose|g: int| 0 <= g < k && (#[trigger] groups[g]).depth == plan[i].depth;
            assert(groups[g].depth > groups[k as int].depth);
            assert(from.take(l + 1) =~= p.take(l + 1));
            assert(moves::covers(moves::source(plan, i), from));
        }
    }
    assert(so_far.take(from.len() as int) =~= from);
}

/// No component up to `l` has been renamed of what is, once the deeper depths are
/// done, at or below an entry or where it is to go.
proof fn lemma_not_renamed(
    plan: Seq<Planned>,
    groups: Seq<Group>,
    k: nat,
    p: Seq<Seq<u8>>,
    e: int,
    base: Seq<Seq<u8>>,
    l: int,
)
    requires
        is_tidy(plan),
        is_settled(plan),
        apply::are_depth_groups(plan, groups),
        k < groups.len(),
        0 <= e < plan.len(),
        plan[e].depth == groups[k as int].depth,
        base == moves::source(plan, e) || base == moves::target(plan, e),
        moves::covers(base, place_so_far(plan, groups, k, p)),
        0 <= l <= base.len(),
    ensures
        p.take(l) == base.take(l),
    decreases l,
{
    let so_far = place_so_far(plan, groups, k, p);
    if l > 0 {
        let at = l - 1;
        lemma_not_renamed(plan, groups, k, p, e, base, at);
        if is_renamed(plan, groups, k, p, at) {
            let place = p.take(l);
            let i = entry_at(plan, place);
            let from = moves::source(plan, i);
            let to = moves::target(plan, i);
            assert(from == place);
            let g = choose|g: int| 0 <= g < k && (#[trigger] groups[g]).depth == plan[i].depth;
            assert(groups[g].depth > groups[k as int].depth);
            assert(to.drop_last() =~= p.take(at));
            assert(so_far[at] == to.last());
            assert(base.take(l)[at] == so_far.take(base.len() as int)[at]);
            assert(base.take(l).drop_last() =~= base.take(at));
            assert(base.take(l) =~= base.take(at).push(to.last()));
            assert(to =~= to.drop_last().push(to.last()));
            assert(moves::covers(to, base));
            if base == moves::target(plan, e) {
                assert(to != moves::target(plan, e));
                let source = moves::source(plan, e);
                if l == base.len() {
                    assert(base.take(l) =~= base);
                } else {
                    assert(source.take(l) =~= source.drop_last().take(l));
                    assert(base.take(l) =~= base.drop_last().take(l));
                    assert(moves::covers(to, source));
                }
            }
        } else {
            assert(so_far[at] == p[at]);
            assert(base.take(l)[at] == so_far.take(base.len() as int)[at]);
            assert(p.take(l) =~= p.take(at).push(p[at]));
            assert(base.take(l) =~= base.take(at).push(base[at]));
        }
    }
}

/// What is, once the deeper depths are done, at or below an entry or where it is to
/// go was there before.
proof fn lemma_was_below(
    plan: Seq<Planned>,
    groups: Seq<Group>,
    k: nat,
    p: Seq<Seq<u8>>,
    e: int,
    base: Seq<Seq<u8>>,
)
    requires
        is_tidy(plan),
        is_settled(plan),
        apply::are_depth_groups(plan, groups),
        k < groups.len(),
        0 <= e < plan.len(),
        plan[e].depth == groups[k as int].depth,
        base == moves::source(plan, e) || base == moves::target(plan, e),
        moves::covers(base, place_so_far(plan, groups, k, p)),
    ensures
        moves::covers(base, p),
{
    lemma_not_renamed(plan, groups, k, p, e, base, base.len() as int);
    assert(base.take(base.len() as int) =~= base);
}

/// The entries of a depth are apart, and so are the places that they are to go to.
proof fn lemma_group_apart(plan: Seq<Planned>, groups: Seq<Group>, g: int)
    requires
        is_tidy(plan),
        is_settled(plan),
        apply::are_depth_groups(plan, groups),
        0 <= g < groups.len(),
    ensures
        moves::sources_apart(groups[g].entries),
        moves::targets_apart(groups[g].entries),
{
    let entries = groups[g].entries;
    assert forall|i: int, j: int|
        0 <= i < plan.len() && 0 <= j < plan.len() && i != j implies plan[i] != plan[j] by {
        assert(i < j ==> moves::target(plan, i) != moves::target(plan, j));
        assert(j < i ==> moves::target(plan, j) != moves::target(plan, i));
    }
    lemma_filter_no_duplicates(plan, |e: Planned| e.depth == groups[g].depth);
    assert forall|i: int, j: int|
        0 <= i < entries.len() && 0 <= j < entries.len() && i != j implies {
        &&& moves::apart(#[trigger] moves::source(entries, i), #[trigger] moves::source(entries, j))
        &&& moves::apart(moves::target(entries, i), moves::target(entries, j))
    } by {
        let a = lemma_group_entry(plan, groups, g, i);
        let b = lemma_group_entry(plan, groups, g, j);
        assert(entries[i] != entries[j]);
        assert(moves::apart(moves::target(plan, a), moves::target(plan, b)));
        assert(!moves::covers(moves::source(plan, a), moves::source(plan, b)));
        assert(!moves::covers(moves::source(plan, b), moves::source(plan, a)));
    }
    assert forall|i: int, j: int|
        0 <= i < entries.len() && 0 <= j < entries.len() && i != j implies moves::apart(
        #[trigger] moves::target(entries, i),
        #[trigger] moves::target(entries, j),
    ) by {
        assert(moves::apart(moves::source(entries, i), moves::source(entries, j)));
    }
}

proof fn lemma_filter_no_duplicates(plan: Seq<Planned>, wanted: spec_fn(Planned) -> bool)
    requires
        plan.no_duplicates(),
    ensures
        plan.filter(wanted).no_duplicates(),
    decreases plan.len(),
{
    reveal(Seq::filter);
    if plan.len() > 0 {
        let rest = plan.drop_last();
        lemma_filter_no_duplicates(rest, wanted);
        let kept = rest.filter(wanted);
        if kept.contains(plan.last()) {
            rest.lemma_filter_contains_rev(wanted, plan.last());
        }
    }
}

/// What the entries of one more depth do to a place.
#[verifier::rlimit(40)]
#[verifier::spinoff_prover]
proof fn lemma_one_more_depth(
    plan: Seq<Planned>,
    groups: Seq<Group>,
    k: nat,
    p: Seq<Seq<u8>>,
)
    requires
        is_tidy(plan),
        is_settled(plan),
        apply::are_depth_groups(plan, groups),
        k < groups.len(),
    ensures
        moves::carried(groups[k as int].entries, place_so_far(plan, groups, k, p)) == place_so_far(
            plan,
            groups,
            k + 1,
            p,
        ),
{
    let entries = groups[k as int].entries;
    let depth = groups[k as int].depth;
    let before = place_so_far(plan, groups, k, p);
    let now = place_so_far(plan, groups, k + 1, p);
    lemma_group_apart(plan, groups, k as int);
    assert forall|d: nat| is_done(groups, k + 1, d) == (#[trigger] is_done(groups, k, d) || d
        == depth) by {
        if is_done(groups, k + 1, d) {
            let g = choose|g: int| 0 <= g < k + 1 && (#[trigger] groups[g]).depth == d;
        }
        if is_done(groups, k, d) {
            let g = choose|g: int| 0 <= g < k && (#[trigger] groups[g]).depth == d;
            assert(groups[g].depth == d);
        }
        assert(groups[k as int].depth == depth);
    }
    if moves::in_source(entries, before) {
        let i = choose|i: int|
            0 <= i < entries.len() && moves::covers(#[trigger] moves::source(entries, i), before);
        let e = lemma_group_entry(plan, groups, k as int, i);
        let from = moves::source(plan, e);
        let to = moves::target(plan, e);
        let length = from.len() as int;
        assert(from == moves::source(entries, i));
        assert(to == moves::target(entries, i));
        moves::lemma_carried(entries, i, before);
        lemma_was_below(plan, groups, k, p, e, from);
        assert(p.take(length) == from);
        assert forall|l: int| 0 <= l < p.len() implies #[trigger] moves::rebased(
            before,
            from,
            to,
        )[l] == now[l] by {
            let place = p.take(l + 1);
            let other = entry_at(plan, place);
            if has_entry(plan, place) {
                assert(moves::source(plan, other) == place);
            }
            if l < length - 1 {
                assert(to[l] == to.drop_last()[l]);
                assert(from[l] == from.drop_last()[l]);
                assert(from[l] == p.take(length)[l]);
                if has_entry(plan, place) {
                    assert(from.take(l + 1) =~= place);
                    assert(moves::covers(moves::source(plan, other), from));
                    assert(plan[other].depth < plan[e].depth);
                    if is_done(groups, k, plan[other].depth) {
                        let g = choose|g: int|
                            0 <= g < k && (#[trigger] groups[g]).depth == plan[other].depth;
                        assert(groups[g].depth > groups[k as int].depth);
                    }
                }
            } else if l == length - 1 {
                assert(has_entry(plan, place));
                assert(place.take(length) =~= place);
                if other != e {
                    assert(moves::covers(moves::source(plan, other), moves::source(plan, e)));
                    assert(moves::covers(moves::source(plan, e), moves::source(plan, other)));
                }
                assert(is_done(groups, k, depth) || depth == depth);
            } else {
                if has_entry(plan, place) {
                    assert(place.take(length) =~= from);
                    assert(moves::covers(moves::source(plan, e), moves::source(plan, other)));
                    assert(plan[other].depth != depth);
                    assert(is_done(groups, k + 1, plan[other].depth) == is_done(
                        groups,
                        k,
                        plan[other].depth,
                    ));
                }
                assert(moves::rebased(before, from, to)[l] == before[l]);
            }
        }
        assert(moves::rebased(before, from, to) =~= now);
    } else {
        assert forall|l: int| 0 <= l < p.len() implies #[trigger] before[l] == now[l] by {
            let place = p.take(l + 1);
            let e = entry_at(plan, place);
            if has_entry(plan, place) {
                assert(moves::source(plan, e) == place);
                if plan[e].depth == depth {
                    let i = lemma_plan_entry(plan, groups, k as int, e);
                    lemma_stays_below(plan, groups, k, p, e);
                    assert(moves::covers(moves::source(entries, i), before));
                }
                assert(is_done(groups, k + 1, plan[e].depth) == (is_done(
                    groups,
                    k,
                    plan[e].depth,
                ) || plan[e].depth == depth));
            }
        }
        assert(before =~= now);
    }
}

/// The disk after the entries of the first `k` groups have gone where they are to
/// go, one group after the other.
pub open spec fn after_groups<V>(
    disk: spec_fn(Seq<Seq<u8>>) -> Option<V>,
    groups: Seq<Group>,
    k: nat,
) -> spec_fn(Seq<Seq<u8>>) -> Option<V>
    decreases k,
{
    if k == 0 {
        disk
    } else {
        moves::after_all(
            after_groups(disk, groups, (k - 1) as nat),
            groups[k - 1].entries,
        )
    }
}

/// Whether all that was on the one disk is on the other, each thing where the first
/// `k` depths take it, and nothing else is there.
spec fn is_moved<V>(
    disk: spec_fn(Seq<Seq<u8>>) -> Option<V>,
    now: spec_fn(Seq<Seq<u8>>) -> Option<V>,
    plan: Seq<Planned>,
    groups: Seq<Group>,
    k: nat,
) -> bool {
    &&& forall|p: Seq<Seq<u8>>|
        disk(p) is Some ==> now(#[trigger] place_so_far(plan, groups, k, p)) == disk(p)
    &&& forall|q: Seq<Seq<u8>>| #[trigger]
        now(q) is Some ==> exists|p: Seq<Seq<u8>>|
            disk(p) is Some && #[trigger] place_so_far(plan, groups, k, p) == q
}

/// What holds of the first disk holds of the disk that the deeper depths leave: the
/// entries of the next depth can go.
proof fn lemma_next_depth_can_go<V>(
    disk: spec_fn(Seq<Seq<u8>>) -> Option<V>,
    now: spec_fn(Seq<Seq<u8>>) -> Option<V>,
    plan: Seq<Planned>,
    groups: Seq<Group>,
    pid: nat,
    k: nat,
)
    requires
        can_be_applied(disk, plan, pid),
        apply::are_depth_groups(plan, groups),
        k < groups.len(),
        is_moved(disk, now, plan, groups, k),
    ensures
        can_go(now, groups[k as int].entries, pid),
{
    let entries = groups[k as int].entries;
    lemma_settled(disk, plan, pid);
    lemma_group_apart(plan, groups, k as int);
    assert forall|i: int| 0 <= i < entries.len() implies names::name_text(
        (#[trigger] entries[i]).old,
    ) is Some by {
        let e = lemma_group_entry(plan, groups, k as int, i);
    }
    assert forall|i: int| 0 <= i < entries.len() implies moves::taken(
        now,
        #[trigger] moves::source(entries, i),
    ) by {
        let e = lemma_group_entry(plan, groups, k as int, i);
        let from = moves::source(plan, e);
        assert(moves::taken(disk, from));
        let p = choose|p: Seq<Seq<u8>>| #[trigger] moves::covers(from, p) && disk(p) is Some;
        lemma_stays_below(plan, groups, k, p, e);
        assert(moves::covers(from, place_so_far(plan, groups, k, p)));
    }
    assert forall|q: Seq<Seq<u8>>| #[trigger]
        moves::in_target(entries, q) && now(q) is Some implies moves::in_source(entries, q) by {
        let i = choose|i: int|
            0 <= i < entries.len() && moves::covers(#[trigger] moves::target(entries, i), q);
        let e = lemma_group_entry(plan, groups, k as int, i);
        let p = choose|p: Seq<Seq<u8>>|
            disk(p) is Some && #[trigger] place_so_far(plan, groups, k, p) == q;
        assert(moves::target(plan, e) == moves::target(entries, i));
        lemma_was_below(plan, groups, k, p, e, moves::target(plan, e));
        assert(moves::covers(moves::target(entries, i), p));
        assert(moves::in_target(entries, p));
        assert(moves::targets_free(disk, apply::of_depth(plan, groups[k as int].depth)));
        assert(moves::in_source(entries, p));
        let j = choose|j: int|
            0 <= j < entries.len() && moves::covers(#[trigger] moves::source(entries, j), p);
        let f = lemma_group_entry(plan, groups, k as int, j);
        assert(moves::source(plan, f) == moves::source(entries, j));
        lemma_stays_below(plan, groups, k, p, f);
        assert(moves::covers(moves::source(entries, j), q));
    }
    assert forall|i: int, j: int, temp: Seq<u8>|
        #![trigger apply::is_temp(entries[i].old, pid, temp), moves::target(entries, j)]
        0 <= i < entries.len() && 0 <= j < entries.len() && entries[i].depth == entries[j].depth
            && apply::is_temp(entries[i].old, pid, temp) implies moves::apart(
        path::components(temp),
        moves::target(entries, j),
    ) by {
        let e = lemma_group_entry(plan, groups, k as int, i);
        let f = lemma_group_entry(plan, groups, k as int, j);
        assert(apply::is_temp(plan[e].old, pid, temp));
        assert(moves::target(plan, f) == moves::target(entries, j));
    }
}

proof fn lemma_moved_on<V>(
    disk: spec_fn(Seq<Seq<u8>>) -> Option<V>,
    now: spec_fn(Seq<Seq<u8>>) -> Option<V>,
    plan: Seq<Planned>,
    groups: Seq<Group>,
    pid: nat,
    k: nat,
)
    requires
        can_be_applied(disk, plan, pid),
        apply::are_depth_groups(plan, groups),
        k < groups.len(),
        is_moved(disk, now, plan, groups, k),
    ensures
        is_moved(
            disk,
            moves::after_all(now, groups[k as int].entries),
            plan,
            groups,
            k + 1,
        ),
{
    let entries = groups[k as int].entries;
    let next = moves::after_all(now, entries);
    lemma_settled(disk, plan, pid);
    lemma_next_depth_can_go(disk, now, plan, groups, pid, k);
    moves::law_nothing_is_lost_or_made(now, entries);
    assert forall|p: Seq<Seq<u8>>| disk(p) is Some implies next(
        #[trigger] place_so_far(plan, groups, k + 1, p),
    ) == disk(p) by {
        let before = place_so_far(plan, groups, k, p);
        lemma_one_more_depth(plan, groups, k, p);
        assert(now(before) == disk(p));
        assert(next(moves::carried(entries, before)) == now(before));
    }
    assert forall|q: Seq<Seq<u8>>| #[trigger] next(q) is Some implies exists|p: Seq<Seq<u8>>|
        disk(p) is Some && #[trigger] place_so_far(plan, groups, k + 1, p) == q by {
        let before = moves::came_from_all(entries, q)->0;
        assert(now(before) is Some);
        let p = choose|p: Seq<Seq<u8>>|
            disk(p) is Some && #[trigger] place_so_far(plan, groups, k, p) == before;
        lemma_one_more_depth(plan, groups, k, p);
        assert(place_so_far(plan, groups, k + 1, p) == q);
    }
}

proof fn lemma_done_depths<V>(
    disk: spec_fn(Seq<Seq<u8>>) -> Option<V>,
    plan: Seq<Planned>,
    run: Run,
    k: nat,
)
    requires
        can_be_applied(disk, plan, run.pid),
        apply::are_depth_groups(plan, run.groups),
        run.consistent(),
        temps_were_free(disk, run),
        k <= run.at,
    ensures
        moves::after_moves(disk, run.completed(k)) == after_groups(disk, run.groups, k),
        is_moved(disk, after_groups(disk, run.groups, k), plan, run.groups, k),
    decreases k,
{
    if k == 0 {
        assert forall|p: Seq<Seq<u8>>| #[trigger] place_so_far(plan, run.groups, 0, p) == p by {
            assert(place_so_far(plan, run.groups, 0, p) =~= p);
        }
        assert forall|q: Seq<Seq<u8>>| #[trigger] disk(q) is Some implies exists|p: Seq<Seq<u8>>|
            disk(p) is Some && #[trigger] place_so_far(plan, run.groups, 0, p) == q by {
            assert(place_so_far(plan, run.groups, 0, q) == q);
        }
    } else {
        let j = (k - 1) as nat;
        lemma_done_depths(disk, plan, run, j);
        let now = after_groups(disk, run.groups, j);
        lemma_next_depth_can_go(disk, now, plan, run.groups, run.pid, j);
        lemma_done_depth(disk, plan, run, j);
        lemma_moved_on(disk, now, plan, run.groups, run.pid, j);
    }
}

/// If what is reported is true, a run that ends well takes everything where the plan
/// takes it, and leaves nothing else on the disk: an entry has its new name, what is
/// in a directory goes with the directory and has its own new name there, what the
/// plan does not name stays as it is, and no temporary path is left over.
pub proof fn law_plan_is_carried_out<V>(
    disk: spec_fn(Seq<Seq<u8>>) -> Option<V>,
    plan: Seq<Planned>,
    history: History,
)
    requires
        can_be_applied(disk, plan, history.pid),
        history.is_of(plan),
        history.is_true_of(disk),
        history.has_succeeded(),
    ensures
        forall|p: Seq<Seq<u8>>|
            disk(p) is Some ==> history.disk_after(disk)(#[trigger] final_place(plan, p)) == disk(
                p,
            ),
        forall|q: Seq<Seq<u8>>| #[trigger]
            history.disk_after(disk)(q) is Some ==> exists|p: Seq<Seq<u8>>|
                disk(p) is Some && #[trigger] final_place(plan, p) == q,
{
    let groups = history.groups;
    let now = history.disk_after(disk);
    let n = groups.len();
    law_disk_is_as_reported(disk, history);
    apply::law_success_is_complete(history.run());
    lemma_done_depths(disk, plan, history.run(), n);
    assert forall|p: Seq<Seq<u8>>| #[trigger] final_place(plan, p) == place_so_far(
        plan,
        groups,
        n,
        p,
    ) by {
        assert forall|l: int| 0 <= l < p.len() implies is_renamed(plan, groups, n, p, l)
            == #[trigger] has_entry(plan, p.take(l + 1)) by {
            if has_entry(plan, p.take(l + 1)) {
                let e = entry_at(plan, p.take(l + 1));
                assert(moves::source(plan, e) == p.take(l + 1));
                assert(apply::has_depth(groups, plan[e].depth));
            }
        }
        assert(final_place(plan, p) =~= place_so_far(plan, groups, n, p));
    }
    assert forall|q: Seq<Seq<u8>>| #[trigger] now(q) is Some implies exists|p: Seq<Seq<u8>>|
        disk(p) is Some && #[trigger] final_place(plan, p) == q by {
        let p = choose|p: Seq<Seq<u8>>|
            disk(p) is Some && #[trigger] place_so_far(plan, groups, n, p) == q;
        assert(final_place(plan, p) == q);
    }
}

/// If what is reported is true, a run that fails while it puts a depth into place,
/// and whose takings back all work, leaves the deeper depths where they were to go,
/// and everything else as it was.
pub proof fn law_failed_plan_keeps_done_depths<V>(
    disk: spec_fn(Seq<Seq<u8>>) -> Option<V>,
    plan: Seq<Planned>,
    history: History,
)
    requires
        can_be_applied(disk, plan, history.pid),
        history.is_of(plan),
        history.is_true_of(disk),
        history.run().phase matches Phase::Finished(Some(Fault::Placing { .. })),
        history.run().trace.intact,
    ensures
        history.disk_after(disk) == after_groups(disk, history.groups, history.run().at),
{
    let at = history.run().at;
    let now = after_groups(disk, history.groups, at);
    law_disk_is_as_reported(disk, history);
    lemma_done_depths(disk, plan, history.run(), at);
    lemma_next_depth_can_go(disk, now, plan, history.groups, history.pid, at);
    law_failed_placing_restores(disk, plan, history);
}

/// Whether an entry gets another name in its directory.
pub open spec fn stays_in_directory(e: Planned) -> bool {
    exists|name: Seq<u8>|
        #[trigger] path::is_plain_name(name) && e.new == path::join(path::directory(e.old), name)
}

/// What is planned for records is tidy if each has a place of its own below its
/// root, one that is below another has the same root, the new names are names, and
/// no two entries are to go to the same place.
#[verifier::rlimit(40)]
#[verifier::spinoff_prover]
pub proof fn law_plan_of_records_is_tidy(settings: Settings, records: Seq<Found>)
    requires
        forall|i: int|
            0 <= i < records.len() ==> text::starts_with(
                path::components((#[trigger] records[i]).path),
                path::components(records[i].root),
            ),
        forall|i: int, j: int|
            0 <= i < records.len() && 0 <= j < records.len() && i != j && moves::covers(
                path::components((#[trigger] records[i]).path),
                path::components((#[trigger] records[j]).path),
            ) ==> records[i].root == records[j].root && path::components(records[i].path)
                != path::components(records[j].path),
        forall|i: int|
            0 <= i < settings.plan(records).len() ==> stays_in_directory(
                #[trigger] settings.plan(records)[i],
            ),
        forall|i: int, j: int|
            0 <= i < j < settings.plan(records).len() ==> #[trigger] moves::target(
                settings.plan(records),
                i,
            ) != #[trigger] moves::target(settings.plan(records), j),
    ensures
        is_tidy(settings.plan(records)),
        are_named(settings.plan(records)),
{
    let plan = settings.plan(records);
    let kept = settings.kept_upto(records, records.len() as int);
    rename::law_plan_keeps_order(settings, records);
    assert forall|i: int| 0 <= i < plan.len() implies names::name_text(
        (#[trigger] plan[i]).old,
    ) is Some && plan[i].depth == moves::source(plan, i).len() - path::components(
        records[kept[i]].root,
    ).len() by {
        assert(0 <= kept[i] < records.len());
        rename::law_entries_are_for_their_records(
            settings,
            plan.take(i),
            records,
            records[kept[i]],
        );
        assert(text::starts_with(
            path::components(records[kept[i]].path),
            path::components(records[kept[i]].root),
        ));
    }
    assert forall|i: int| 0 <= i < plan.len() implies {
        &&& (#[trigger] moves::target(plan, i)).len() == moves::source(plan, i).len() > 0
        &&& moves::target(plan, i).drop_last() == moves::source(plan, i).drop_last()
    } by {
        let e = plan[i];
        assert(names::name_text(e.old) is Some);
        assert(stays_in_directory(e));
        let name = choose|name: Seq<u8>|
            #[trigger] path::is_plain_name(name) && e.new == path::join(
                path::directory(e.old),
                name,
            );
        path::law_directory_and_name(e.old);
        path::law_join_stays_in_directory(path::directory(e.old), name);
    }
    assert forall|i: int, j: int|
        0 <= i < plan.len() && 0 <= j < plan.len() && i != j && moves::covers(
            #[trigger] moves::source(plan, i),
            #[trigger] moves::source(plan, j),
        ) implies plan[i].depth < plan[j].depth by {
        assert(names::name_text(plan[i].old) is Some);
        assert(names::name_text(plan[j].old) is Some);
        assert(kept[i] != kept[j]);
        let upper = records[kept[i]];
        let lower = records[kept[j]];
        assert(upper.root == lower.root);
        assert(moves::source(plan, j).take(moves::source(plan, j).len() as int) =~= moves::source(
            plan,
            j,
        ));
    }
}

// ---- there and back -----------------------------------------------------------

proof fn lemma_filter_all(plan: Seq<Planned>, wanted: spec_fn(Planned) -> bool)
    requires
        forall|k: int| 0 <= k < plan.len() ==> wanted(#[trigger] plan[k]),
    ensures
        plan.filter(wanted) == plan,
    decreases plan.len(),
{
    reveal(Seq::filter);
    if plan.len() > 0 {
        lemma_filter_all(plan.drop_last(), wanted);
        assert(wanted(plan[plan.len() - 1]));
        assert(plan.drop_last().push(plan.last()) == plan);
    } else {
        assert(plan.filter(wanted) == plan);
    }
}

proof fn lemma_one_depth(plan: Seq<Planned>, groups: Seq<Group>, depth: nat)
    requires
        apply::are_depth_groups(plan, groups),
        forall|k: int| 0 <= k < plan.len() ==> (#[trigger] plan[k]).depth == depth,
    ensures
        plan.len() == 0 ==> groups.len() == 0,
        plan.len() > 0 ==> groups.len() == 1 && groups[0].entries == plan,
{
    assert forall|g: int| 0 <= g < groups.len() implies (#[trigger] groups[g]).depth == depth by {
        let k = lemma_group_entry(plan, groups, g, 0);
    }
    if groups.len() > 1 {
        assert(groups[0].depth > groups[1].depth);
    }
    if groups.len() > 0 {
        let k = lemma_group_entry(plan, groups, 0, 0);
        lemma_filter_all(plan, |e: Planned| e.depth == depth);
    } else if plan.len() > 0 {
        assert(apply::has_depth(groups, plan[0].depth));
    }
}

/// If what is reported is true, a run over a plan for one depth that ends well takes
/// all entries where they are to go at once.
proof fn lemma_one_depth_carried_out<V>(
    disk: spec_fn(Seq<Seq<u8>>) -> Option<V>,
    plan: Seq<Planned>,
    depth: nat,
    history: History,
)
    requires
        forall|k: int| 0 <= k < plan.len() ==> (#[trigger] plan[k]).depth == depth,
        can_go(disk, plan, history.pid),
        history.is_of(plan),
        history.is_true_of(disk),
        history.has_succeeded(),
    ensures
        history.disk_after(disk) == moves::after_all(disk, plan),
{
    law_disk_is_as_reported(disk, history);
    apply::law_success_is_complete(history.run());
    lemma_one_depth(plan, history.groups, depth);
    if plan.len() == 0 {
        assert(moves::after_all(disk, plan) =~= disk);
    } else {
        lemma_done_depth(disk, plan, history.run(), 0);
    }
}

/// Once the entries have gone where they are to go, the exchanged ones can go.
proof fn lemma_exchanged_can_go<V>(
    disk: spec_fn(Seq<Seq<u8>>) -> Option<V>,
    plan: Seq<Planned>,
    pid: nat,
    other: nat,
)
    requires
        can_go(disk, plan, pid),
        are_named(moves::exchanged(plan)),
        no_target_is_temporary(moves::exchanged(plan), other),
    ensures
        can_go(moves::after_all(disk, plan), moves::exchanged(plan), other),
{
    let inverse = moves::exchanged(plan);
    let now = moves::after_all(disk, plan);
    moves::law_exchanged_entries_restore(disk, plan);
    moves::law_nothing_is_lost_or_made(disk, plan);
    assert forall|i: int| 0 <= i < inverse.len() implies moves::taken(
        now,
        #[trigger] moves::source(inverse, i),
    ) by {
        let from = moves::source(plan, i);
        assert(moves::taken(disk, from));
        let p = choose|p: Seq<Seq<u8>>| #[trigger] moves::covers(from, p) && disk(p) is Some;
        moves::lemma_carried(plan, i, p);
        moves::lemma_rebased(p, from, moves::target(plan, i));
        assert(moves::source(inverse, i) == moves::target(plan, i));
        assert(now(moves::carried(plan, p)) == disk(p));
        assert(moves::covers(moves::source(inverse, i), moves::carried(plan, p)));
    }
    assert forall|q: Seq<Seq<u8>>| #[trigger]
        moves::in_target(inverse, q) && now(q) is Some implies moves::in_source(inverse, q) by {
        let i = choose|i: int|
            0 <= i < inverse.len() && moves::covers(#[trigger] moves::target(inverse, i), q);
        assert(moves::covers(moves::source(plan, i), q));
        assert(moves::in_source(plan, q));
        assert(moves::in_target(plan, q));
        let j = choose|j: int|
            0 <= j < plan.len() && moves::covers(#[trigger] moves::target(plan, j), q);
        assert(moves::covers(moves::source(inverse, j), q));
    }
}

/// If a plan for one depth is carried out, and then the plan with old and new
/// exchanged, and what is reported to both runs is true, the disk is as it was:
/// everything has the name and the contents that it had, and no temporary path is
/// left over.
pub proof fn law_exchanged_plan_restores<V>(
    disk: spec_fn(Seq<Seq<u8>>) -> Option<V>,
    plan: Seq<Planned>,
    depth: nat,
    there: History,
    back: History,
)
    requires
        forall|k: int| 0 <= k < plan.len() ==> (#[trigger] plan[k]).depth == depth,
        can_go(disk, plan, there.pid),
        there.is_of(plan),
        there.is_true_of(disk),
        there.has_succeeded(),
        are_named(moves::exchanged(plan)),
        no_target_is_temporary(moves::exchanged(plan), back.pid),
        back.is_of(moves::exchanged(plan)),
        back.is_true_of(there.disk_after(disk)),
        back.has_succeeded(),
    ensures
        back.disk_after(there.disk_after(disk)) == disk,
{
    let inverse = moves::exchanged(plan);
    assert forall|k: int| 0 <= k < inverse.len() implies (#[trigger] inverse[k]).depth == depth by {
        assert(plan[k].depth == depth);
    }
    lemma_one_depth_carried_out(disk, plan, depth, there);
    lemma_exchanged_can_go(disk, plan, there.pid, back.pid);
    lemma_one_depth_carried_out(there.disk_after(disk), inverse, depth, back);
    moves::law_exchanged_entries_restore(disk, plan);
}

} // verus!
